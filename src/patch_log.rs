use vstd::prelude::*;
use vstd::string::StringExecFns;

verus! {

/// Names and frames the append-only logs of many documents, one file per
/// document under one directory, one record per line.
pub struct MultiLog {
    dir: String,
}

/// Why a record cannot be written.
#[derive(Clone, Copy, PartialEq, Eq, Structural, Debug)]
pub enum LogError {
    /// The record holds a line break, so that it would read back as two.
    LineBreak,
}

impl MultiLog {
    pub closed spec fn dir(&self) -> Seq<char> {
        self.dir@
    }

    /// A log set under directory `log_dir`.
    pub fn new(log_dir: String) -> (r: MultiLog)
        ensures
            r.dir() == log_dir@,
    {
        MultiLog { dir: log_dir }
    }

    /// The file that the writer of document `id` appends to: its log.
    pub fn writer(&self, id: &str) -> (r: String)
        ensures
            r@ == self.dir() + seq!['/'] + id@,
    {
        proof { reveal_strlit("/"); }
        let mut out = self.dir.clone();
        out.append("/");
        out.append(id);
        out
    }

    /// The bytes to append to the log of document `id` for one record: the
    /// record and a line break. A record with a line break of its own is
    /// refused.
    pub fn write(&self, id: &str, bytes: &[u8]) -> (r: Result<Vec<u8>, LogError>)
        ensures
            (exists|i: int| 0 <= i < bytes@.len() && bytes@[i] == 10u8) ==> r == Err::<Vec<u8>, LogError>(LogError::LineBreak),
            !(exists|i: int| 0 <= i < bytes@.len() && bytes@[i] == 10u8) ==> r is Ok && r->Ok_0@ == bytes@.push(10u8),
    {
        let mut out: Vec<u8> = Vec::new();
        let mut i: usize = 0;
        while i < bytes.len()
            invariant
                i <= bytes@.len(),
                out@ == bytes@.subrange(0, i as int),
                forall|j: int| 0 <= j < i ==> bytes@[j] != 10u8,
            decreases bytes@.len() - i,
        {
            if bytes[i] == 10u8 {
                return Err(LogError::LineBreak);
            }
            out.push(bytes[i]);
            assert(out@ =~= bytes@.subrange(0, i as int + 1));
            i = i + 1;
        }
        assert(bytes@.subrange(0, i as int) =~= bytes@);
        out.push(10u8);
        Ok(out)
    }
}

} // verus!
