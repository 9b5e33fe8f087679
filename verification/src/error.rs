//! Errors of a walk.
use vstd::prelude::*;
use crate::wd::Depth;

verus! {

/// The kind of a failure that a storage reports.
#[derive(Clone, Copy, Debug, PartialEq, Eq, Structural)]
pub enum IoErrorKind {
    NotFound,
    PermissionDenied,
    NotADirectory,
    Unsupported,
    Other,
}

/// A failure reported by a storage.
#[derive(Clone, Copy, Debug, PartialEq, Eq, Structural)]
pub struct IoError {
    pub kind: IoErrorKind,
    /// The code of the operating system, or 0 where there is none.
    pub code: i32,
}

/// What went wrong, without the depth at which it happened.
#[derive(Debug, PartialEq, Eq)]
pub enum ErrorInner {
    /// The storage failed, on `path` if it is known.
    Io { path: Option<String>, err: IoError },
    /// The symbolic link `child` leads back to the directory `ancestor`,
    /// which is open on the path from the root to `child`.
    Loop { ancestor: String, child: String },
}

impl Clone for ErrorInner {
    fn clone(&self) -> (r: Self)
        ensures
            r == *self,
    {
        match self {
            ErrorInner::Io { path, err } => {
                let path = match path {
                    Some(p) => Some(p.clone()),
                    None => None,
                };
                ErrorInner::Io { path, err: *err }
            },
            ErrorInner::Loop { ancestor, child } => ErrorInner::Loop {
                ancestor: ancestor.clone(),
                child: child.clone(),
            },
        }
    }
}

impl ErrorInner {
    /// A storage failure on a known path.
    pub fn from_path(path: String, err: IoError) -> (r: Self)
        ensures
            r == (ErrorInner::Io { path: Some(path), err }),
    {
        ErrorInner::Io { path: Some(path), err }
    }

    /// A storage failure that belongs to no path.
    pub fn from_io(err: IoError) -> (r: Self)
        ensures
            r == (ErrorInner::Io { path: None, err }),
    {
        ErrorInner::Io { path: None, err }
    }

    /// A symbolic link `child` that leads back to `ancestor`.
    pub fn from_loop(ancestor: &String, child: &String) -> (r: Self)
        ensures
            r == (ErrorInner::Loop { ancestor: *ancestor, child: *child }),
    {
        ErrorInner::Loop { ancestor: ancestor.clone(), child: child.clone() }
    }
}

/// A storage failure that belongs to no path.
pub fn into_io_err(err: IoError) -> (r: ErrorInner)
    ensures
        r == (ErrorInner::Io { path: None, err }),
{
    ErrorInner::from_io(err)
}

/// A storage failure on `path`.
pub fn into_path_err(path: &String, err: IoError) -> (r: ErrorInner)
    ensures
        r == (ErrorInner::Io { path: Some(*path), err }),
{
    ErrorInner::from_path(path.clone(), err)
}

/// An error of a walk: what went wrong, and at which depth.
#[derive(Debug, PartialEq, Eq)]
pub struct Error {
    pub depth: Depth,
    pub inner: ErrorInner,
}

impl Clone for Error {
    fn clone(&self) -> (r: Self)
        ensures
            r == *self,
    {
        Error { depth: self.depth, inner: self.inner.clone() }
    }
}

impl Error {
    /// Attaches a depth to an error.
    pub fn from_inner(inner: ErrorInner, depth: Depth) -> (r: Self)
        ensures
            r == (Error { depth, inner }),
    {
        Error { depth, inner }
    }

    /// The path on which the error occurred: the offending link for a loop,
    /// the path that the storage failed on otherwise, if it is known.
    pub fn path(&self) -> (r: Option<&String>)
        ensures
            r == match self.inner {
                ErrorInner::Io { path: Some(p), .. } => Some(&p),
                ErrorInner::Io { path: None, .. } => None,
                ErrorInner::Loop { child, .. } => Some(&child),
            },
    {
        match &self.inner {
            ErrorInner::Io { path: Some(p), .. } => Some(p),
            ErrorInner::Io { path: None, .. } => None,
            ErrorInner::Loop { child, .. } => Some(child),
        }
    }

    /// The directory that a symbolic link leads back to, for a loop.
    pub fn loop_ancestor(&self) -> (r: Option<&String>)
        ensures
            r == match self.inner {
                ErrorInner::Loop { ancestor, .. } => Some(&ancestor),
                _ => None,
            },
    {
        match &self.inner {
            ErrorInner::Loop { ancestor, .. } => Some(ancestor),
            _ => None,
        }
    }

    /// The depth at which the error occurred.
    pub fn depth(&self) -> (r: Depth)
        ensures
            r == self.depth,
    {
        self.depth
    }

    /// The storage failure behind the error, if there is one.
    pub fn io_error(&self) -> (r: Option<IoError>)
        ensures
            r == match self.inner {
                ErrorInner::Io { err, .. } => Some(err),
                _ => None,
            },
    {
        match &self.inner {
            ErrorInner::Io { err, .. } => Some(*err),
            _ => None,
        }
    }

    /// Gives up the error for the storage failure behind it.
    pub fn into_io_error(self) -> (r: Option<IoError>)
        ensures
            r == match self.inner {
                ErrorInner::Io { err, .. } => Some(err),
                _ => None,
            },
    {
        match self.inner {
            ErrorInner::Io { err, .. } => Some(err),
            _ => None,
        }
    }
}

} // verus!
