//! What a file store offers to the router, and what can be said of a root
//! directory before the file system is asked.

use vstd::prelude::*;
use vstd::string::StringExecFns;
use vstd::utf8::encode_utf8;
use crate::consts::{DOT, SLASH};
use crate::wire::{find_pair, has_pair};

verus! {

/// Why a file could not be had.
#[derive(Debug)]
pub enum FileRetrieverError {
    NotFound,
    Other(String),
}

/// Why a file could not be stored.
#[derive(Debug)]
pub enum FileSaverError {
    InvalidPath(String),
    Other(String),
}

/// Why a text cannot name the root directory of a file store.
#[derive(Debug, Clone, Copy, PartialEq, Eq, Structural)]
pub enum RootFault {
    /// It does not begin with `/`.
    NotFromRoot,
    /// It holds `..`.
    HoldsParent,
    /// The file system does not take it for an absolute path.
    NotAbsolute,
    /// Nothing is there under that name.
    Missing,
    /// What is there is no directory.
    NotDirectory,
}

/// A store from which files can be read by name.
pub trait FileRetriever: Send + Sync {
    fn retrieve(&self, path: &str) -> Result<Vec<u8>, FileRetrieverError>;
}

/// A store to which files can be written by name.
pub trait FileSaver: Send + Sync {
    fn save(&self, path: &str, content: &[u8]) -> Result<(), FileSaverError>;
}

/// A store that offers both.
pub trait FileSystem: FileRetriever + FileSaver {

}

impl<T: FileRetriever + FileSaver> FileSystem for T {

}

/// A store that holds nothing and takes nothing.
pub struct Dummy {}

impl FileRetriever for Dummy {
    fn retrieve(&self, _path: &str) -> (r: Result<Vec<u8>, FileRetrieverError>)
        ensures
            match r {
                Err(FileRetrieverError::Other(msg)) => msg@ == "not implemented"@,
                _ => false,
            },
    {
        Err(FileRetrieverError::Other("not implemented".to_owned()))
    }
}

impl FileSaver for Dummy {
    fn save(&self, _path: &str, _content: &[u8]) -> (r: Result<(), FileSaverError>)
        ensures
            match r {
                Err(FileSaverError::Other(msg)) => msg@ == "not implemented"@,
                _ => false,
            },
    {
        Err(FileSaverError::Other("not implemented".to_owned()))
    }
}

impl FileRetrieverError {
    /// The message that goes with the error.
    pub open spec fn message(self) -> Seq<char> {
        match self {
            FileRetrieverError::NotFound => "file not found"@,
            FileRetrieverError::Other(msg) => "file retriever error: "@ + msg@,
        }
    }

    /// The message that goes with the error.
    pub fn describe(&self) -> (r: String)
        ensures
            r@ == self.message(),
    {
        match self {
            FileRetrieverError::NotFound => "file not found".to_owned(),
            FileRetrieverError::Other(msg) => "file retriever error: ".to_owned().concat(
                msg.as_str(),
            ),
        }
    }
}

impl FileSaverError {
    /// The message that goes with the error.
    pub open spec fn message(self) -> Seq<char> {
        match self {
            FileSaverError::InvalidPath(msg) => "invalid path: "@ + msg@,
            FileSaverError::Other(msg) => "file saver error: "@ + msg@,
        }
    }

    /// The message that goes with the error.
    pub fn describe(&self) -> (r: String)
        ensures
            r@ == self.message(),
    {
        match self {
            FileSaverError::InvalidPath(msg) => "invalid path: ".to_owned().concat(msg.as_str()),
            FileSaverError::Other(msg) => "file saver error: ".to_owned().concat(msg.as_str()),
        }
    }
}

/// Whether a file may be stored under `path`: not where the path holds `..`.
pub fn check_save_path(path: &str) -> (r: Result<(), FileSaverError>)
    ensures
        match r {
            Ok(()) => !has_pair(encode_utf8(path@), DOT),
            Err(FileSaverError::InvalidPath(msg)) => has_pair(encode_utf8(path@), DOT) && msg@
                == "path contains '..' which is disallowed"@,
            Err(_) => false,
        },
{
    if find_pair(path.as_bytes(), DOT) {
        Err(FileSaverError::InvalidPath("path contains '..' which is disallowed".to_owned()))
    } else {
        Ok(())
    }
}

/// What is wrong with `path` as the name of a root directory, going by its
/// text alone: it has to begin with `/` and may not hold `..`.
pub open spec fn root_fault(path: Seq<u8>) -> Option<RootFault> {
    if !(path.len() > 0 && path[0] == SLASH) {
        Some(RootFault::NotFromRoot)
    } else if has_pair(path, DOT) {
        Some(RootFault::HoldsParent)
    } else {
        None
    }
}

/// Checks the text of a root directory's name. Whether the directory is
/// there is for the file system to say.
pub fn validate_path(s: &str) -> (r: Result<(), RootFault>)
    ensures
        match r {
            Ok(()) => root_fault(encode_utf8(s@)) is None,
            Err(fault) => root_fault(encode_utf8(s@)) == Some(fault),
        },
{
    let bytes = s.as_bytes();
    if bytes.len() == 0 || bytes[0] != SLASH {
        return Err(RootFault::NotFromRoot);
    }
    if find_pair(bytes, DOT) {
        return Err(RootFault::HoldsParent);
    }
    Ok(())
}

/// Whether `path` can be the root directory of a file store, given its text
/// and what the file system says of it. The text is looked at first, then
/// whether the path is absolute, whether something is there, and whether
/// that is a directory; the first fault found is the answer.
pub open spec fn root_verdict(path: Seq<u8>, absolute: bool, exists: bool, is_dir: bool) -> Result<
    (),
    RootFault,
> {
    match root_fault(path) {
        Some(fault) => Err(fault),
        None => if !absolute {
            Err(RootFault::NotAbsolute)
        } else if !exists {
            Err(RootFault::Missing)
        } else if !is_dir {
            Err(RootFault::NotDirectory)
        } else {
            Ok(())
        },
    }
}

/// Decides whether `s` can be the root directory of a file store. The three
/// answers of the file system are the caller's to get.
pub fn validate_root(s: &str, absolute: bool, exists: bool, is_dir: bool) -> (r: Result<
    (),
    RootFault,
>)
    ensures
        r == root_verdict(encode_utf8(s@), absolute, exists, is_dir),
{
    match validate_path(s) {
        Ok(()) => {},
        Err(fault) => {
            return Err(fault);
        },
    }
    if !absolute {
        return Err(RootFault::NotAbsolute);
    }
    if !exists {
        return Err(RootFault::Missing);
    }
    if !is_dir {
        return Err(RootFault::NotDirectory);
    }
    Ok(())
}

} // verus!
