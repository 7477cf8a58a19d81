use vstd::prelude::*;

use crate::index::UnhardenedIndex;
use crate::model::AddressDerivation;

verus! {

/// The addresses of one contract that are marked used, each bound to the
/// derivation index it was made at, and the last index ever used.
#[derive(Clone, Debug)]
pub struct AddressBook {
    pub used: Vec<(String, UnhardenedIndex)>,
    pub last_used: Option<UnhardenedIndex>,
}

/// Whether `index` is bound to some address.
pub open spec fn index_used(used: Seq<(String, UnhardenedIndex)>, index: nat) -> bool {
    exists|k: int| 0 <= k < used.len() && (#[trigger] used[k]).1@ == index
}

/// How many entries are for `address`.
pub open spec fn address_count(used: Seq<(String, UnhardenedIndex)>, address: Seq<char>) -> nat
    decreases used.len(),
{
    if used.len() == 0 {
        0
    } else {
        address_count(used.drop_last(), address) + if used.last().0@ == address {
            1nat
        } else {
            0
        }
    }
}

/// `e` is an entry of `used` for another address than `address`.
pub open spec fn kept_entry(used: Seq<(String, UnhardenedIndex)>, e: (String, UnhardenedIndex), address: Seq<char>) -> bool {
    exists|k: int| 0 <= k < used.len() && #[trigger] used[k] == e && e.0@ != address
}

impl AddressBook {
    /// Each address is bound to one index at most, and the last used index
    /// is at least every bound index.
    pub open spec fn wf(&self) -> bool {
        &&& forall|a: int, b: int|
            0 <= a < b < self.used@.len() ==> (#[trigger] self.used@[a]).0@ != (#[trigger] self.used@[b]).0@
        &&& forall|k: int|
            0 <= k < self.used@.len() ==> self.last_used.is_some() && (#[trigger] self.used@[k]).1@
                <= self.last_used.unwrap()@
    }

    /// No address used yet.
    pub fn new() -> (r: AddressBook)
        ensures
            r.wf(),
            r.used@.len() == 0,
            r.last_used.is_none(),
    {
        AddressBook { used: Vec::new(), last_used: None }
    }

    /// Whether an index is bound to an address.
    pub fn is_index_used(&self, index: UnhardenedIndex) -> (r: bool)
        ensures
            r == index_used(self.used@, index@),
    {
        let mut k: usize = 0;
        while k < self.used.len()
            invariant
                0 <= k <= self.used@.len(),
                forall|j: int| 0 <= j < k ==> (#[trigger] self.used@[j]).1@ != index@,
            decreases self.used@.len() - k,
        {
            if self.used[k].1.same(&index) {
                return true;
            }
            k = k + 1;
        }
        false
    }

    /// The position of an address, where it is bound.
    pub fn find_address(&self, address: &String) -> (r: Option<usize>)
        ensures
            r.is_some() ==> r.unwrap() < self.used@.len() && self.used@[r.unwrap() as int].0@ == address@,
            r.is_none() ==> forall|k: int| 0 <= k < self.used@.len() ==> (#[trigger] self.used@[k]).0@ != address@,
    {
        let mut k: usize = 0;
        while k < self.used.len()
            invariant
                0 <= k <= self.used@.len(),
                forall|j: int| 0 <= j < k ==> (#[trigger] self.used@[j]).0@ != address@,
            decreases self.used@.len() - k,
        {
            if self.used[k].0 == *address {
                return Some(k);
            }
            k = k + 1;
        }
        None
    }

    /// The smallest index not bound to an address; `None` only where every
    /// unhardened index is bound.
    pub fn next_unused_derivation(&self) -> (r: Option<UnhardenedIndex>)
        ensures
            r.is_some() ==> !index_used(self.used@, r.unwrap()@),
            r.is_some() ==> r.unwrap()@ <= crate::index::LARGEST_UNHARDENED,
            r.is_some() ==> forall|i: nat| i < r.unwrap()@ ==> #[trigger] index_used(self.used@, i),
            r.is_none() ==> forall|i: nat| i <= crate::index::LARGEST_UNHARDENED ==> #[trigger] index_used(self.used@, i),
    {
        let mut c = UnhardenedIndex::zero();
        loop
            invariant
                forall|i: nat| i < c@ ==> #[trigger] index_used(self.used@, i),
                c@ <= crate::index::LARGEST_UNHARDENED,
            decreases crate::index::LARGEST_UNHARDENED - c@,
        {
            if !self.is_index_used(c) {
                return Some(c);
            }
            match c.checked_inc() {
                Some(next) => c = next,
                None => {
                    return None;
                },
            }
        }
    }

    /// The last index ever used.
    pub fn last_used_derivation(&self) -> (r: Option<UnhardenedIndex>)
        ensures
            r == self.last_used,
    {
        self.last_used
    }

    /// Binds an address to a derivation index, replacing the binding it had,
    /// and moves the last used index up to it where it is below.
    #[verifier::rlimit(40)]
    pub fn use_address_derivation(&mut self, address: String, index: UnhardenedIndex)
        requires
            old(self).wf(),
        ensures
            final(self).wf(),
            address_count(final(self).used@, address@) == 1,
            exists|k: int|
                0 <= k < final(self).used@.len() && (#[trigger] final(self).used@[k]).0@ == address@
                    && final(self).used@[k].1 == index,
            final(self).last_used.is_some(),
            final(self).last_used.unwrap()@ >= index@,
            old(self).last_used.is_some() ==> final(self).last_used.unwrap()@ >= old(self).last_used.unwrap()@,
            forall|k: int|
                0 <= k < old(self).used@.len() && (#[trigger] old(self).used@[k]).0@ != address@ ==> exists|j: int|
                    0 <= j < final(self).used@.len() && final(self).used@[j] == old(self).used@[k],
            forall|j: int|
                0 <= j < final(self).used@.len() ==> ((#[trigger] final(self).used@[j]).0@ == address@
                    && final(self).used@[j].1 == index) || kept_entry(old(self).used@, final(self).used@[j], address@),
            final(self).used@.len() == old(self).used@.len() + if address_count(old(self).used@, address@) == 0 {
                1int
            } else {
                0
            },
    {
        let last = match self.last_used {
            Some(l) => if l.lt(&index) {
                index
            } else {
                l
            },
            None => index,
        };
        let ghost before = self.used@;
        match self.find_address(&address) {
            Some(k) => {
                self.used.set(k, (address, index));
                proof {
                    assert(self.used@[k as int].0@ == address@ && self.used@[k as int].1 == index);
                    lemma_count_distinct(self.used@, k as int);
                    lemma_count_distinct(before, k as int);
                    assert forall|j: int| 0 <= j < self.used@.len() implies ((#[trigger] self.used@[j]).0@
                        == address@ && self.used@[j].1 == index) || kept_entry(before, self.used@[j], address@) by {
                        if j != k {
                            assert(self.used@[j] == before[j]);
                            if j < k {
                                assert(before[j].0@ != before[k as int].0@);
                            } else {
                                assert(before[k as int].0@ != before[j].0@);
                            }
                        }
                    }
                }
            },
            None => {
                self.used.push((address, index));
                proof {
                    assert(self.used@[before.len() as int].0@ == address@ && self.used@[before.len() as int].1 == index);
                    assert(self.used@.drop_last() == before);
                    lemma_count_absent(before, self.used@.last().0@);
                    lemma_count_absent(before, address@);
                    assert forall|j: int| 0 <= j < self.used@.len() implies ((#[trigger] self.used@[j]).0@
                        == address@ && self.used@[j].1 == index) || kept_entry(before, self.used@[j], address@) by {
                        if j < before.len() {
                            assert(self.used@[j] == before[j]);
                        }
                    }
                }
            },
        }
        self.last_used = Some(last);
        proof {
            assert forall|k: int| 0 <= k < before.len() && (#[trigger] before[k]).0@ != address@ implies exists|j: int|
                0 <= j < self.used@.len() && self.used@[j] == before[k] by {
                assert(self.used@[k] == before[k]);
            }
        }
    }

    /// Forgets the binding of an address, which can then be bound again.
    #[verifier::rlimit(60)]
    pub fn forget_address(&mut self, address: &String)
        requires
            old(self).wf(),
        ensures
            final(self).wf(),
            address_count(final(self).used@, address@) == 0,
            final(self).last_used == old(self).last_used,
            forall|k: int|
                0 <= k < old(self).used@.len() && (#[trigger] old(self).used@[k]).0@ != address@ ==> exists|j: int|
                    0 <= j < final(self).used@.len() && final(self).used@[j] == old(self).used@[k],
            forall|j: int| #![trigger final(self).used@[j]] 0 <= j < final(self).used@.len() ==> exists|k: int|
                0 <= k < old(self).used@.len() && final(self).used@[j] == (#[trigger] old(self).used@[k]),
    {
        let ghost before = self.used@;
        match self.find_address(address) {
            Some(k) => {
                self.used.remove(k);
                proof {
                    lemma_after_remove(before, self.used@, k as int, address@, self.last_used);
                }
            },
            None => {
                proof {
                    lemma_count_absent(self.used@, address@);
                    assert forall|j: int| #![trigger self.used@[j]] 0 <= j < self.used@.len() implies exists|i: int|
                        0 <= i < before.len() && self.used@[j] == (#[trigger] before[i]) by {
                        assert(self.used@[j] == before[j]);
                    }
                }
            },
        }
    }

    /// The addresses marked used, with their derivation paths.
    pub fn used_address_derivations(&self) -> (r: Vec<AddressDerivation>)
        ensures
            r@.len() == self.used@.len(),
            forall|k: int|
                0 <= k < r@.len() ==> (#[trigger] r@[k]).address@ == self.used@[k].0@ && r@[k].derivation@ == seq![
                    self.used@[k].1,
                ],
    {
        let mut r: Vec<AddressDerivation> = Vec::new();
        let mut k: usize = 0;
        while k < self.used.len()
            invariant
                0 <= k <= self.used@.len(),
                r@.len() == k,
                forall|j: int|
                    0 <= j < k ==> (#[trigger] r@[j]).address@ == self.used@[j].0@ && r@[j].derivation@ == seq![
                        self.used@[j].1,
                    ],
            decreases self.used@.len() - k,
        {
            let mut derivation: Vec<UnhardenedIndex> = Vec::new();
            derivation.push(self.used[k].1);
            proof {
                assert(derivation@ =~= seq![self.used@[k as int].1]);
            }
            r.push(AddressDerivation { address: self.used[k].0.clone(), derivation });
            k = k + 1;
        }
        r
    }
}

/// Removing the entry of `address` keeps the others, in order, and leaves
/// no entry of `address`.
#[verifier::rlimit(40)]
proof fn lemma_after_remove(
    before: Seq<(String, UnhardenedIndex)>,
    after: Seq<(String, UnhardenedIndex)>,
    k: int,
    address: Seq<char>,
    last_used: Option<UnhardenedIndex>,
)
    requires
        0 <= k < before.len(),
        after == before.remove(k),
        before[k].0@ == address,
        forall|a: int, b: int| 0 <= a < b < before.len() ==> (#[trigger] before[a]).0@ != (#[trigger] before[b]).0@,
        forall|j: int| 0 <= j < before.len() ==> last_used.is_some() && (#[trigger] before[j]).1@ <= last_used.unwrap()@,
    ensures
        forall|a: int, b: int| 0 <= a < b < after.len() ==> (#[trigger] after[a]).0@ != (#[trigger] after[b]).0@,
        forall|j: int| 0 <= j < after.len() ==> last_used.is_some() && (#[trigger] after[j]).1@ <= last_used.unwrap()@,
        address_count(after, address) == 0,
        forall|i: int|
            0 <= i < before.len() && (#[trigger] before[i]).0@ != address ==> exists|j: int|
                0 <= j < after.len() && after[j] == before[i],
        forall|j: int| #![trigger after[j]] 0 <= j < after.len() ==> exists|i: int|
            0 <= i < before.len() && after[j] == (#[trigger] before[i]),
{
    assert forall|j: int| 0 <= j < after.len() implies #[trigger] after[j] == before[if j < k { j } else { j + 1 }] by {}
    assert forall|a: int, b: int| 0 <= a < b < after.len() implies (#[trigger] after[a]).0@ != (#[trigger] after[b]).0@ by {
        assert(after[a] == before[if a < k { a } else { a + 1 }]);
        assert(after[b] == before[if b < k { b } else { b + 1 }]);
    }
    assert forall|j: int| 0 <= j < after.len() implies (#[trigger] after[j]).0@ != address by {
        let oj = if j < k { j } else { j + 1 };
        assert(after[j] == before[oj]);
        if oj < k {
            assert(before[oj].0@ != before[k].0@);
        } else {
            assert(before[k].0@ != before[oj].0@);
        }
    }
    lemma_count_absent(after, address);
    assert forall|i: int| 0 <= i < before.len() && (#[trigger] before[i]).0@ != address implies exists|j: int|
        0 <= j < after.len() && after[j] == before[i] by {
        if i < k {
            assert(after[i] == before[i]);
        } else {
            assert(i != k);
            assert(after[i - 1] == before[i]);
        }
    }
    assert forall|j: int| #![trigger after[j]] 0 <= j < after.len() implies exists|i: int|
        0 <= i < before.len() && after[j] == (#[trigger] before[i]) by {
        assert(after[j] == before[if j < k { j } else { j + 1 }]);
    }
}

/// With distinct addresses, the address at `k` occurs once.
proof fn lemma_count_distinct(used: Seq<(String, UnhardenedIndex)>, k: int)
    requires
        0 <= k < used.len(),
        forall|a: int, b: int| 0 <= a < b < used.len() ==> (#[trigger] used[a]).0@ != (#[trigger] used[b]).0@,
    ensures
        address_count(used, used[k].0@) == 1,
    decreases used.len(),
{
    let address = used[k].0@;
    let prefix = used.drop_last();
    if k == used.len() - 1 {
        assert forall|j: int| 0 <= j < prefix.len() implies (#[trigger] prefix[j]).0@ != address by {
            assert(prefix[j] == used[j]);
        }
        lemma_count_absent(prefix, address);
    } else {
        assert(prefix[k] == used[k]);
        assert forall|a: int, b: int| 0 <= a < b < prefix.len() implies (#[trigger] prefix[a]).0@ != (
        #[trigger] prefix[b]).0@ by {
            assert(prefix[a] == used[a]);
            assert(prefix[b] == used[b]);
        }
        lemma_count_distinct(prefix, k);
    }
}

/// An address that no entry holds is counted zero times.
proof fn lemma_count_absent(used: Seq<(String, UnhardenedIndex)>, address: Seq<char>)
    requires
        forall|j: int| 0 <= j < used.len() ==> (#[trigger] used[j]).0@ != address,
    ensures
        address_count(used, address) == 0,
    decreases used.len(),
{
    if used.len() > 0 {
        let prefix = used.drop_last();
        assert forall|j: int| 0 <= j < prefix.len() implies (#[trigger] prefix[j]).0@ != address by {
            assert(prefix[j] == used[j]);
        }
        lemma_count_absent(prefix, address);
    }
}

} // verus!
