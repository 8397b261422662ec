//! The root log.

use crate::bytes::{be_bytes, be_value, lemma_be_bytes_len, read_be, write_be};
use crate::error::{too_wide, Error, TOO_WIDE};
use crate::node_type::Offset;
use crate::page_layout::PTR_SIZE;
use vstd::prelude::*;

verus! {

/// The root log: the bytes of a file that holds one root offset after the
/// other, eight big-endian bytes each. The root of the tree is the last one.
pub struct Wal {
    log: Vec<u8>,
}

impl View for Wal {
    type V = Seq<u8>;

    closed spec fn view(&self) -> Seq<u8> {
        self.log@
    }
}

/// The number that the last eight bytes of `log` spell.
pub open spec fn last_record(log: Seq<u8>) -> nat {
    be_value(log.subrange(log.len() - 8, log.len() as int))
}

impl Wal {
    /// A root log over the bytes `log`.
    pub fn new(log: Vec<u8>) -> (res: Wal)
        ensures
            res@ == log@,
    {
        Wal { log }
    }

    /// The bytes of the log.
    pub fn get_log(&self) -> (res: &Vec<u8>)
        ensures
            res@ == self@,
    {
        &self.log
    }

    /// The current root: the offset in the last eight bytes of the log.
    /// Fails where the log holds no eight bytes, or where the number is wider
    /// than a machine word.
    pub fn get_root(&self) -> (res: Result<Offset, Error>)
        ensures
            res is Ok <==> self@.len() >= PTR_SIZE && last_record(self@) <= usize::MAX,
            res is Ok ==> res->Ok_0.0 == last_record(self@),
            res is Err ==> res->Err_0 == (if self@.len() < PTR_SIZE {
                Error::UnexpectedError
            } else {
                too_wide()
            }),
    {
        let len: usize = self.log.len();
        if len < PTR_SIZE {
            return Err(Error::UnexpectedError);
        }
        let v: u64 = read_be(self.log.as_slice(), len - PTR_SIZE);
        if v > usize::MAX as u64 {
            return Err(Error::TryFromSliceError(TOO_WIDE));
        }
        Ok(Offset(v as usize))
    }

    /// Appends `offset` to the log, which makes it the current root.
    pub fn set_root(&mut self, offset: Offset) -> (res: Result<(), Error>)
        ensures
            res is Ok,
            final(self)@ == old(self)@ + be_bytes(offset.0 as nat, 8),
    {
        let bytes: [u8; 8] = write_be(offset.0 as u64);
        let ghost before = self.log@;
        proof {
            lemma_be_bytes_len(offset.0 as nat, 8);
        }
        let mut i: usize = 0;
        while i < PTR_SIZE
            invariant
                i <= PTR_SIZE,
                bytes@.len() == 8,
                self.log@ == before + bytes@.subrange(0, i as int),
            decreases PTR_SIZE - i,
        {
            self.log.push(bytes[i]);
            assert(self.log@ =~= before + bytes@.subrange(0, i + 1));
            i += 1;
        }
        assert(self.log@ =~= before + bytes@);
        Ok(())
    }
}

/// The root that was set last is the root that is read.
pub proof fn lemma_last_record_of_set(log: Seq<u8>, offset: usize)
    ensures
        last_record(log + be_bytes(offset as nat, 8)) == offset,
{
    let grown = log + be_bytes(offset as nat, 8);
    lemma_be_bytes_len(offset as nat, 8);
    assert(grown.subrange(grown.len() - 8, grown.len() as int) =~= be_bytes(offset as nat, 8));
    crate::bytes::lemma_pow256_values();
    crate::bytes::lemma_be_value_of_bytes(offset as nat, 8);
}

} // verus!
