//! The bits of a multi-limb integer, most significant first.
use vstd::prelude::*;

verus! {

/// Bit `i` of the integer whose 64-bit limbs are `limbs`, least significant
/// limb first; bit 0 is the lowest.
pub open spec fn limb_bit(limbs: Seq<u64>, i: int) -> bool {
    (limbs[i / 64] >> ((i % 64) as u64)) & 1 == 1
}

/// All `64 * limbs.len()` bits, most significant first.
pub open spec fn bits_be(limbs: Seq<u64>) -> Seq<bool> {
    Seq::new(64 * limbs.len(), |k: int| limb_bit(limbs, 64 * limbs.len() - 1 - k))
}

/// Walks the bits of a multi-limb integer from the most significant down.
pub struct BitIteratorBE {
    limbs: Vec<u64>,
    n: usize,
}

impl BitIteratorBE {
    /// The bits that are still to come, next one first.
    pub closed spec fn remaining(&self) -> Seq<bool> {
        bits_be(self.limbs@).subrange(64 * self.limbs@.len() - self.n, 64 * self.limbs@.len() as int)
    }

    /// The iterator is over its limbs.
    pub closed spec fn wf(&self) -> bool {
        self.n <= 64 * self.limbs@.len()
    }

    /// An iterator over all the bits of `limbs`.
    pub fn new(limbs: Vec<u64>) -> (it: Self)
        requires
            64 * limbs.len() <= usize::MAX,
        ensures
            it.wf(),
            it.remaining() == bits_be(limbs@),
    {
        let n = 64 * limbs.len();
        let it = BitIteratorBE { limbs, n };
        assert(it.remaining() == bits_be(it.limbs@));
        it
    }

    /// The number of bits that are still to come.
    pub fn len(&self) -> (n: usize)
        requires
            self.wf(),
        ensures
            n == self.remaining().len(),
    {
        self.n
    }

    /// The next bit, or `None` after the last one.
    pub fn next(&mut self) -> (r: Option<bool>)
        requires
            old(self).wf(),
        ensures
            final(self).wf(),
            match r {
                Some(b) => {
                    &&& old(self).remaining().len() > 0
                    &&& b == old(self).remaining()[0]
                    &&& final(self).remaining() == old(self).remaining().drop_first()
                },
                None => old(self).remaining().len() == 0 && *final(self) == *old(self),
            },
    {
        if self.n == 0 {
            None
        } else {
            self.n = self.n - 1;
            let part: usize = self.n / 64;
            let bit: usize = self.n % 64;
            let b = (self.limbs[part] >> (bit as u64)) & 1 == 1;
            proof {
                let total = 64 * self.limbs@.len() as int;
                let k = total - old(self).n;
                assert(old(self).remaining()[0] == bits_be(self.limbs@)[k]);
                assert(total - 1 - k == self.n);
                assert(self.remaining() =~= old(self).remaining().drop_first());
            }
            Some(b)
        }
    }
}

} // verus!
