use vstd::prelude::*;

verus! {

/// A 32-byte block identifier, held as four 64-bit limbs.
///
/// Limb `l0` holds the most significant eight bytes of the identifier and
/// `l3` the least significant eight, each limb read big-endian, so that the
/// lexicographic order on `(l0, l1, l2, l3)` coincides with byte-wise
/// lexicographic order on the 32-byte form.
#[derive(Clone, Copy, PartialEq, Eq, Structural, Debug)]
pub struct Root {
    pub l0: u64,
    pub l1: u64,
    pub l2: u64,
    pub l3: u64,
}

impl Root {
    pub open spec fn spec_zero() -> Root {
        Root { l0: 0, l1: 0, l2: 0, l3: 0 }
    }

    /// The all-zero root. It aliases the anchor externally and is never
    /// stored inside the engine.
    pub fn zero() -> (r: Root)
        ensures
            r == Root::spec_zero(),
    {
        Root { l0: 0, l1: 0, l2: 0, l3: 0 }
    }

    pub open spec fn spec_is_zero(self) -> bool {
        self == Root::spec_zero()
    }

    pub fn is_zero(&self) -> (r: bool)
        ensures
            r == self.spec_is_zero(),
    {
        self.l0 == 0 && self.l1 == 0 && self.l2 == 0 && self.l3 == 0
    }

    /// Lexicographic greater-or-equal on the 32-byte form.
    pub open spec fn spec_ge(self, other: Root) -> bool {
        ||| self.l0 > other.l0
        ||| (self.l0 == other.l0 && self.l1 > other.l1)
        ||| (self.l0 == other.l0 && self.l1 == other.l1 && self.l2 > other.l2)
        ||| (self.l0 == other.l0 && self.l1 == other.l1 && self.l2 == other.l2
            && self.l3 >= other.l3)
    }

    pub fn ge(&self, other: &Root) -> (r: bool)
        ensures
            r == self.spec_ge(*other),
    {
        if self.l0 != other.l0 {
            self.l0 > other.l0
        } else if self.l1 != other.l1 {
            self.l1 > other.l1
        } else if self.l2 != other.l2 {
            self.l2 > other.l2
        } else {
            self.l3 >= other.l3
        }
    }
}

/// The order on roots is total: of two roots, at least one is
/// greater-or-equal to the other.
pub proof fn lemma_root_order_total(a: Root, b: Root)
    ensures
        a.spec_ge(b) || b.spec_ge(a),
        a.spec_ge(b) && b.spec_ge(a) ==> a == b,
{
}

} // verus!
