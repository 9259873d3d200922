//! The 256-bit identity of a block.
use vstd::prelude::*;
use vstd::std_specs::cmp::PartialEqSpecImpl;

verus! {

/// A 256-bit hash, held as 32 bytes.
#[derive(Clone, Copy, Debug, Eq, Hash)]
pub struct H256(pub [u8; 32]);

impl PartialEq for H256 {
    fn eq(&self, other: &H256) -> (equal: bool) {
        let mut i: usize = 0;
        while i < 32
            invariant
                i <= 32,
                forall|j: int| 0 <= j < i ==> self.0[j] == other.0[j],
            decreases 32 - i,
        {
            if self.0[i] != other.0[i] {
                return false;
            }
            i += 1;
        }
        assert(self.0 =~= other.0);
        true
    }
}

impl PartialEqSpecImpl for H256 {
    open spec fn obeys_eq_spec() -> bool {
        true
    }

    open spec fn eq_spec(&self, other: &H256) -> bool {
        *self == *other
    }
}

impl H256 {
    /// Whether every byte of the hash is zero.
    pub open spec fn is_zero(&self) -> bool {
        forall|i: int| 0 <= i < 32 ==> self.0@[i] == 0u8
    }

    /// The hash whose bytes are all zero.
    pub fn zero() -> (h: H256)
        ensures
            h.is_zero(),
    {
        H256([0u8; 32])
    }

    /// The hash with the bytes `bytes`.
    pub open spec fn spec_from_bytes(bytes: Seq<u8>) -> H256 {
        choose|h: H256| h.0@ == bytes
    }

    /// The 32 bytes of the hash, first byte first.
    pub fn to_vec(&self) -> (bytes: Vec<u8>)
        ensures
            bytes@ == self.0@,
    {
        let mut bytes: Vec<u8> = Vec::with_capacity(32);
        let mut i: usize = 0;
        while i < 32
            invariant
                i <= 32,
                bytes@ == self.0@.take(i as int),
            decreases 32 - i,
        {
            bytes.push(self.0[i]);
            i += 1;
        }
        assert(self.0@.take(32) == self.0@);
        bytes
    }

    /// The hash held in a slice of exactly 32 bytes.
    pub fn from_slice(bytes: &[u8]) -> (h: Option<H256>)
        ensures
            bytes@.len() == 32 ==> h == Some(H256::spec_from_bytes(bytes@)) && h.unwrap().0@
                == bytes@,
            bytes@.len() != 32 ==> h.is_none(),
    {
        if bytes.len() != 32 {
            return None;
        }
        let mut buf: [u8; 32] = [0u8; 32];
        let mut i: usize = 0;
        while i < 32
            invariant
                i <= 32,
                bytes@.len() == 32,
                forall|j: int| 0 <= j < i ==> buf@[j] == bytes@[j],
            decreases 32 - i,
        {
            buf[i] = bytes[i];
            i += 1;
        }
        assert(buf@ =~= bytes@);
        let h = H256(buf);
        proof {
            let chosen = H256::spec_from_bytes(bytes@);
            assert(h.0@ == bytes@);
            assert(chosen.0@ == bytes@);
            assert(chosen.0 =~= h.0);
        }
        Some(h)
    }
}

} // verus!
