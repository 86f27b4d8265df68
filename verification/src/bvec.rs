use vstd::prelude::*;

verus! {

/// A length or position in a serial stream, measured in whole bytes plus an
/// excess of bits.
#[derive(PartialEq, Eq, Structural, Clone, Copy, Debug)]
pub struct BVec {
    pub bytes: usize,
    /// Excess of bytes
    pub bits: usize,
}

/// The sum of two lengths, with the excess bits carried into bytes.
pub open spec fn spec_add(a: BVec, b: BVec) -> BVec {
    BVec {
        bytes: (a.bytes + b.bytes + (a.bits + b.bits) / 8) as usize,
        bits: ((a.bits + b.bits) % 8) as usize,
    }
}

/// The difference of two lengths: a byte is borrowed when the subtrahend has
/// more excess bits than the minuend.
pub open spec fn spec_sub(a: BVec, b: BVec) -> BVec {
    if b.bits > a.bits {
        BVec { bytes: (a.bytes - 1 - b.bytes) as usize, bits: (8 - (b.bits - a.bits)) as usize }
    } else {
        BVec { bytes: (a.bytes - b.bytes) as usize, bits: (a.bits - b.bits) as usize }
    }
}

/// The inputs on which the subtraction neither borrows from an empty byte
/// count nor ends below zero.
pub open spec fn sub_defined(a: BVec, b: BVec) -> bool {
    &&& a.bits <= 8
    &&& b.bits <= 8
    &&& if b.bits > a.bits {
        a.bytes >= b.bytes + 1
    } else {
        a.bytes >= b.bytes
    }
}

/// Order by bytes first, then by excess bits.
pub open spec fn spec_gt(a: BVec, b: BVec) -> bool {
    a.bytes > b.bytes || (a.bytes == b.bytes && a.bits > b.bits)
}

impl BVec {
    /// The total number of bits this value stands for.
    pub open spec fn total(self) -> int {
        self.bytes * 8 + self.bits
    }

    /// `bits` is a proper excess (less than a byte).
    pub open spec fn normalized(self) -> bool {
        self.bits < 8
    }

    pub fn zero() -> (out: BVec)
        ensures
            out.bytes == 0,
            out.bits == 0,
    {
        BVec { bytes: 0, bits: 0 }
    }

    pub fn bytes(l: usize) -> (out: BVec)
        ensures
            out.bytes == l,
            out.bits == 0,
    {
        BVec { bytes: l, bits: 0 }
    }

    /// Sum of two lengths.
    pub fn add(self, rhs: BVec) -> (out: BVec)
        requires
            self.bits + rhs.bits <= usize::MAX,
            self.bytes + rhs.bytes + (self.bits + rhs.bits) / 8 <= usize::MAX,
        ensures
            out == spec_add(self, rhs),
            out.total() == self.total() + rhs.total(),
            out.normalized(),
    {
        let bit_sum = self.bits + rhs.bits;
        BVec { bytes: self.bytes + rhs.bytes + bit_sum / 8, bits: bit_sum % 8 }
    }

    /// Difference of two lengths.
    pub fn sub(self, rhs: BVec) -> (out: BVec)
        requires
            sub_defined(self, rhs),
        ensures
            out == spec_sub(self, rhs),
            out.total() == self.total() - rhs.total(),
            out.bits <= 8,
            self.normalized() ==> out.normalized(),
    {
        let mut avail_bits = self.bits;
        let mut avail_bytes = self.bytes;
        let mut bits = rhs.bits;
        if bits > self.bits {
            avail_bytes -= 1;
            bits -= avail_bits;
            avail_bits = 8;
        }
        avail_bits -= bits;
        avail_bytes -= rhs.bytes;
        BVec { bytes: avail_bytes, bits: avail_bits }
    }

    /// `self > other`, comparing bytes first and then excess bits.
    pub fn gt(&self, other: &BVec) -> (out: bool)
        ensures
            out == spec_gt(*self, *other),
    {
        if self.bytes > other.bytes {
            true
        } else if self.bytes == other.bytes {
            self.bits > other.bits
        } else {
            false
        }
    }

    /// The value is zero bytes and zero bits.
    pub fn is_zero(&self) -> (out: bool)
        ensures
            out == (self.bytes == 0 && self.bits == 0),
    {
        self.bytes == 0 && self.bits == 0
    }
}

/// On lengths whose excess is below a byte, the byte-then-bit order is the
/// order of their total bit counts.
pub proof fn lemma_gt_is_total_order(a: BVec, b: BVec)
    requires
        a.normalized(),
        b.normalized(),
    ensures
        spec_gt(a, b) <==> a.total() > b.total(),
{
}

/// The byte-then-bit comparison never reports a length as larger than one with
/// more total bits, as long as the excess stays within a byte.
pub proof fn lemma_not_gt_bounds_total(a: BVec, b: BVec)
    requires
        a.bits <= 8,
        b.bits <= 8,
        b.normalized(),
        !spec_gt(a, b),
    ensures
        a.total() <= b.total() + 8,
{
}

/// Adding a length and then taking it away gives back the first length.
pub proof fn lemma_add_then_sub(a: BVec, b: BVec)
    requires
        a.normalized(),
        b.bits <= 8,
        a.bytes + b.bytes + 1 <= usize::MAX,
    ensures
        sub_defined(spec_add(a, b), b),
        spec_sub(spec_add(a, b), b) == a,
{
    let s = spec_add(a, b);
    assert(s.bits == (a.bits + b.bits) % 8);
    if a.bits + b.bits >= 8 {
        assert((a.bits + b.bits) / 8 == 1);
        assert(s.bits == a.bits + b.bits - 8);
    } else {
        assert((a.bits + b.bits) / 8 == 0);
    }
}

/// Subtracting a length and adding it back gives back the first length.
pub proof fn lemma_sub_then_add(a: BVec, b: BVec)
    requires
        a.normalized(),
        b.normalized(),
        sub_defined(a, b),
    ensures
        spec_add(spec_sub(a, b), b) == a,
{
    let d = spec_sub(a, b);
    if b.bits > a.bits {
        assert(d.bits + b.bits == 8 + a.bits);
        assert((d.bits + b.bits) / 8 == 1);
        assert((d.bits + b.bits) % 8 == a.bits);
    } else {
        assert((d.bits + b.bits) / 8 == 0);
    }
}

} // verus!
