//! Byte stores that hold segments: an append-only sequence of bytes that can
//! be read at any offset.
use vstd::prelude::*;
use crate::bitcask::error::Result;

pub mod mem_store;

verus! {

/// How many bytes a read of `want` bytes at `offset` gets from `contents`.
pub open spec fn read_count(contents: Seq<u8>, offset: int, want: int) -> int {
    if offset >= contents.len() {
        0
    } else if contents.len() - offset < want {
        contents.len() - offset
    } else {
        want
    }
}

/// `b` starts with all of `a`: `b` is `a`, possibly with bytes added at its end.
pub open spec fn extends(a: Seq<u8>, b: Seq<u8>) -> bool {
    a.len() <= b.len() && b.subrange(0, a.len() as int) == a
}

/// `buf` after the first `n` of its bytes were overwritten with `contents[offset..]`.
pub open spec fn filled(buf: Seq<u8>, contents: Seq<u8>, offset: int, n: int) -> Seq<u8> {
    Seq::new(buf.len(), |i: int| if i < n { contents[offset + i] } else { buf[i] })
}

/// A place that holds the bytes of one segment.
///
/// `contents` is what the store holds; what a store holds when it is opened
/// (a file that already exists, say) is up to the store, unless its
/// `opens_empty()` is true. A store whose
/// `infallible()` is true never reports an error; any other store may fail an
/// operation at any time, and then reports the error named below.
pub trait Store: Sized + Default {
    spec fn contents(&self) -> Vec<u8>;

    /// The directory the store was opened in.
    spec fn dir(&self) -> std::path::PathBuf;

    /// The name the store has inside its directory.
    spec fn name(&self) -> String;

    spec fn infallible() -> bool;

    /// Whether a store is always empty when it is opened.
    spec fn opens_empty() -> bool;

    /// Reads up to `buf.len()` bytes starting at `offset` into the front of `buf`
    /// and returns how many were read: all that were asked for, or what the
    /// store holds past `offset`.
    #[allow(non_snake_case)]
    fn Read(&self, buf: &mut [u8], offset: u64) -> (r: Result<usize>)
        ensures
            self.contents()@.len() <= u64::MAX,
            final(buf)@.len() == old(buf)@.len(),
            match r {
                Ok(n) => {
                    &&& n == read_count(self.contents()@, offset as int, old(buf)@.len() as int)
                    &&& final(buf)@ == filled(old(buf)@, self.contents()@, offset as int, n as int)
                },
                Err(e) => !Self::infallible() && e is FailedToReadFromFile,
            },
    ;

    /// Appends all of `buf` and returns its length. A write that fails may
    /// have appended part of `buf`, but leaves the bytes already held in
    /// place.
    #[allow(non_snake_case)]
    fn Write(&mut self, buf: &[u8]) -> (r: Result<usize>)
        ensures
            match r {
                Ok(n) => {
                    &&& n == buf@.len()
                    &&& final(self).contents()@ == old(self).contents()@ + buf@
                },
                Err(e) => {
                    &&& !Self::infallible()
                    &&& e is FailedToWriteFromFile
                    &&& extends(old(self).contents()@, final(self).contents()@)
                },
            },
            final(self).dir() == old(self).dir(),
            final(self).name() == old(self).name(),
    ;

    /// Makes what was written durable.
    #[allow(non_snake_case)]
    fn Sync(&self) -> (r: Result<()>)
        ensures
            match r {
                Ok(_) => true,
                Err(e) => !Self::infallible() && e is FailedTosyncFromFile,
            },
    ;

    /// Opens (creating it if needed) the store named `name` in the
    /// directory `dir`.
    fn open(dir: std::path::PathBuf, name: String) -> (r: Result<Self>)
        ensures
            match r {
                Ok(s) => {
                    &&& s.dir() == dir
                    &&& s.name()@ == name@
                    &&& Self::opens_empty() ==> s.contents()@.len() == 0
                },
                Err(e) => !Self::infallible() && e is FialedToOpenFile,
            },
    ;
}

/// Opens the store named `file_name` in the directory `dir`.
#[allow(non_snake_case)]
pub fn NewStore<S: Store>(dir: std::path::PathBuf, file_name: String) -> (r: Result<S>)
    ensures
        match r {
            Ok(s) => {
                &&& s.dir() == dir
                &&& s.name()@ == file_name@
                &&& S::opens_empty() ==> s.contents()@.len() == 0
            },
            Err(e) => !S::infallible() && e is FialedToOpenFile,
        },
{
    S::open(dir, file_name)
}

} // verus!
