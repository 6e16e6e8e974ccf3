//! Sets of column identifiers, kept in a bit set.

use vstd::prelude::*;

verus! {

/// A `BitSet` of the `bit-set` crate, over `u32` blocks. Its contents are
/// opaque to the verifier, which knows them only as `bit_set_members`.
#[verifier::external_body]
pub struct Bits {
    inner: bit_set::BitSet<u32>,
}

/// The numbers that a bit set holds.
pub uninterp spec fn bit_set_members(s: Bits) -> Set<nat>;

/// `BitSet::new`: a set that holds nothing.
#[verifier::external_body]
fn bit_set_new() -> (s: Bits)
    ensures
        bit_set_members(s) == Set::<nat>::empty(),
{
    Bits { inner: bit_set::BitSet::new() }
}

/// `BitSet::contains`: whether `value` is in the set.
#[verifier::external_body]
fn bit_set_contains(s: &Bits, value: usize) -> (b: bool)
    ensures
        b == bit_set_members(*s).contains(value as nat),
{
    s.inner.contains(value)
}

/// `BitSet::insert`: adds `value`; the result tells whether it was absent
/// before. The bit vector grows to `value + 1` bits, so the largest `usize`
/// is left out.
#[verifier::external_body]
fn bit_set_insert(s: &mut Bits, value: usize) -> (b: bool)
    requires
        value < usize::MAX,
    ensures
        bit_set_members(*final(s)) == bit_set_members(*old(s)).insert(value as nat),
        b == !bit_set_members(*old(s)).contains(value as nat),
{
    s.inner.insert(value)
}

/// `BitSet::remove`: takes `value` out; the result tells whether it was there.
#[verifier::external_body]
fn bit_set_remove(s: &mut Bits, value: usize) -> (b: bool)
    ensures
        bit_set_members(*final(s)) == bit_set_members(*old(s)).remove(value as nat),
        b == bit_set_members(*old(s)).contains(value as nat),
{
    s.inner.remove(value)
}

/// `BitSet::is_disjoint`: whether the two sets share no member.
#[verifier::external_body]
fn bit_set_is_disjoint(s: &Bits, other: &Bits) -> (b: bool)
    ensures
        b == bit_set_members(*s).disjoint(bit_set_members(*other)),
{
    s.inner.is_disjoint(&other.inner)
}

/// `BitSet::is_superset`: whether every member of `other` is in `s`.
#[verifier::external_body]
fn bit_set_is_superset(s: &Bits, other: &Bits) -> (b: bool)
    ensures
        b == bit_set_members(*other).subset_of(bit_set_members(*s)),
{
    s.inner.is_superset(&other.inner)
}

/// `BitSet::union_with`: adds every member of `other` to `s`.
#[verifier::external_body]
fn bit_set_union_with(s: &mut Bits, other: &Bits)
    ensures
        bit_set_members(*final(s)) == bit_set_members(*old(s)).union(bit_set_members(*other)),
{
    s.inner.union_with(&other.inner)
}

/// `BitSet::count`: the number of members.
#[verifier::external_body]
fn bit_set_count(s: &Bits) -> (n: usize)
    ensures
        n == bit_set_members(*s).len(),
{
    s.inner.count()
}

/// A set of column identifiers.
pub struct ColumnRefSet {
    bit_set: Bits,
}

impl ColumnRefSet {
    /// The identifiers in the set.
    pub closed spec fn view(&self) -> Set<nat> {
        bit_set_members(self.bit_set)
    }

    /// Whether the set can hold `id`: the bit set indexes its members by
    /// machine words and needs one bit past the largest member.
    pub open spec fn admits(id: u32) -> bool {
        (id as int) < (usize::MAX as int)
    }

    pub fn new() -> (s: Self)
        ensures
            s@ == Set::<nat>::empty(),
    {
        ColumnRefSet { bit_set: bit_set_new() }
    }

    pub fn with_id(id: u32) -> (s: Self)
        ensures
            Self::admits(id) ==> s@ == Set::<nat>::empty().insert(id as nat),
            !Self::admits(id) ==> s@ == Set::<nat>::empty(),
    {
        let mut col_set = ColumnRefSet::new();
        col_set.insert(id);
        col_set
    }

    pub fn contains(&self, id: u32) -> (b: bool)
        ensures
            b == self@.contains(id as nat),
    {
        bit_set_contains(&self.bit_set, id as usize)
    }

    /// Adds `id` and tells whether it was absent before. An identifier that
    /// the set cannot hold is not added, and the answer is `false`.
    pub fn insert(&mut self, id: u32) -> (b: bool)
        ensures
            Self::admits(id) ==> final(self)@ == old(self)@.insert(id as nat),
            !Self::admits(id) ==> final(self)@ == old(self)@,
            b == (Self::admits(id) && !old(self)@.contains(id as nat)),
    {
        if (id as usize) < usize::MAX {
            bit_set_insert(&mut self.bit_set, id as usize)
        } else {
            false
        }
    }

    pub fn remove(&mut self, id: u32) -> (b: bool)
        ensures
            final(self)@ == old(self)@.remove(id as nat),
            b == old(self)@.contains(id as nat),
    {
        bit_set_remove(&mut self.bit_set, id as usize)
    }

    pub fn is_disjoint(&self, other: &Self) -> (b: bool)
        ensures
            b == self@.disjoint(other@),
    {
        bit_set_is_disjoint(&self.bit_set, &other.bit_set)
    }

    pub fn is_superset(&self, other: &Self) -> (b: bool)
        ensures
            b == other@.subset_of(self@),
    {
        bit_set_is_superset(&self.bit_set, &other.bit_set)
    }

    pub fn union_with(&mut self, other: &ColumnRefSet)
        ensures
            final(self)@ == old(self)@.union(other@),
    {
        bit_set_union_with(&mut self.bit_set, &other.bit_set)
    }

    pub fn len(&self) -> (n: usize)
        ensures
            n == self@.len(),
    {
        bit_set_count(&self.bit_set)
    }
}

} // verus!
