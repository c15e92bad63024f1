//! A store that keeps its bytes in memory.
use vstd::prelude::*;
use crate::bitcask::data::append_bytes;
use crate::bitcask::error::Result;
use crate::bitcask::fio::{Store, read_count, filled};

verus! {

/// A segment store held in memory; it never fails.
#[derive(Debug, Clone)]
pub struct MemStore {
    pub data: Vec<u8>,
    pub dir: std::path::PathBuf,
    pub name: String,
}

impl MemStore {
    /// A store that already holds `data`.
    pub fn from_bytes(data: Vec<u8>) -> (s: MemStore)
        ensures
            s.data@ == data@,
    {
        MemStore { data, dir: std::path::PathBuf::default(), name: String::new() }
    }
}

impl Default for MemStore {
    fn default() -> (s: MemStore)
        ensures
            s.data@ == Seq::<u8>::empty(),
    {
        MemStore { data: Vec::new(), dir: std::path::PathBuf::default(), name: String::new() }
    }
}

impl Store for MemStore {
    open spec fn contents(&self) -> Vec<u8> {
        self.data
    }

    open spec fn dir(&self) -> std::path::PathBuf {
        self.dir
    }

    open spec fn name(&self) -> String {
        self.name
    }

    open spec fn infallible() -> bool {
        true
    }

    open spec fn opens_empty() -> bool {
        true
    }

    fn Read(&self, buf: &mut [u8], offset: u64) -> (r: Result<usize>) {
        let len = self.data.len();
        let want = buf.len();
        let n: usize = if offset >= len as u64 {
            0
        } else if ((len as u64) - offset) < want as u64 {
            len - offset as usize
        } else {
            want
        };
        let mut i: usize = 0;
        while i < n
            invariant
                i <= n,
                n == read_count(self.data@, offset as int, old(buf)@.len() as int),
                want == old(buf)@.len(),
                len == self.data@.len(),
                buf@.len() == old(buf)@.len(),
                forall|j: int|
                    0 <= j < buf@.len() ==> #[trigger] buf@[j] == (if j < i {
                        self.data@[offset + j]
                    } else {
                        old(buf)@[j]
                    }),
            decreases n - i,
        {
            buf[i] = self.data[offset as usize + i];
            i = i + 1;
        }
        assert(buf@ =~= filled(old(buf)@, self.data@, offset as int, n as int));
        Ok(n)
    }

    fn Write(&mut self, buf: &[u8]) -> (r: Result<usize>) {
        append_bytes(&mut self.data, buf);
        Ok(buf.len())
    }

    fn Sync(&self) -> (r: Result<()>) {
        Ok(())
    }

    fn open(dir: std::path::PathBuf, name: String) -> (r: Result<Self>) {
        Ok(MemStore { data: Vec::new(), dir, name })
    }
}

} // verus!
