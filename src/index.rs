use vstd::prelude::*;

verus! {

/// The first hardened child number: unhardened indexes lie below it.
pub const HARDENED_INDEX_BOUNDARY: u32 = 0x8000_0000;

/// The largest unhardened index, `2^31 - 1`.
pub const LARGEST_UNHARDENED: u32 = 0x7fff_ffff;

/// Index of an unhardened BIP-32 child: an integer in `[0, 2^31 - 1]`.
#[derive(Clone, Copy, Debug, PartialEq, Eq, Structural, PartialOrd, Ord, Hash)]
pub struct UnhardenedIndex {
    index: u32,
}

impl View for UnhardenedIndex {
    type V = nat;

    closed spec fn view(&self) -> nat {
        self.index as nat
    }
}

impl UnhardenedIndex {
    #[verifier::type_invariant]
    spec fn unhardened(self) -> bool {
        self.index < HARDENED_INDEX_BOUNDARY
    }

    /// The integer value of the index; it always lies below `2^31`.
    pub fn index(&self) -> (r: u32)
        ensures
            r as nat == self@,
            r < HARDENED_INDEX_BOUNDARY,
    {
        proof {
            use_type_invariant(self);
        }
        self.index
    }

    /// Index zero.
    pub fn zero() -> (r: Self)
        ensures
            r@ == 0,
    {
        UnhardenedIndex { index: 0 }
    }

    /// The largest unhardened index.
    pub fn largest() -> (r: Self)
        ensures
            r@ == LARGEST_UNHARDENED,
    {
        UnhardenedIndex { index: LARGEST_UNHARDENED }
    }

    /// Makes an index out of an integer, refusing hardened child numbers.
    pub fn from_index(index: u32) -> (r: Option<Self>)
        ensures
            index < HARDENED_INDEX_BOUNDARY <==> r.is_some(),
            r.is_some() ==> r.unwrap()@ == index,
    {
        if index < HARDENED_INDEX_BOUNDARY {
            Some(UnhardenedIndex { index })
        } else {
            None
        }
    }

    /// Every byte value is an unhardened index.
    pub fn from_u8(index: u8) -> (r: Self)
        ensures
            r@ == index,
    {
        UnhardenedIndex { index: index as u32 }
    }

    /// The index `add` steps further, or `None` where that leaves the
    /// unhardened range.
    pub fn checked_add(self, add: u32) -> (r: Option<Self>)
        ensures
            r.is_some() <==> self@ + add < HARDENED_INDEX_BOUNDARY,
            r.is_some() ==> r.unwrap()@ == self@ + add,
    {
        proof {
            use_type_invariant(&self);
        }
        if add < HARDENED_INDEX_BOUNDARY - self.index {
            Some(UnhardenedIndex { index: self.index + add })
        } else {
            None
        }
    }

    /// The next index, or `None` at the largest one.
    pub fn checked_inc(self) -> (r: Option<Self>)
        ensures
            r.is_some() <==> self@ < LARGEST_UNHARDENED,
            r.is_some() ==> r.unwrap()@ == self@ + 1,
    {
        self.checked_add(1)
    }

    /// The index `add` steps further, stopping at the largest index.
    pub fn saturating_add(self, add: u32) -> (r: Self)
        ensures
            r@ == if self@ + add < HARDENED_INDEX_BOUNDARY {
                self@ + add
            } else {
                LARGEST_UNHARDENED as int
            },
    {
        match self.checked_add(add) {
            Some(r) => r,
            None => Self::largest(),
        }
    }

    /// Whether two indexes are the same.
    pub fn same(&self, other: &Self) -> (r: bool)
        ensures
            r == (self@ == other@),
    {
        self.index == other.index
    }

    /// Whether this index comes before `other`.
    pub fn lt(&self, other: &Self) -> (r: bool)
        ensures
            r == (self@ < other@),
    {
        self.index < other.index
    }
}

} // verus!
