//! Archetypes: sets of component numbers, kept as bit masks.

use crate::component::{Component, Metadata, MAX_COMPONENTS};
use vstd::prelude::*;

verus! {

/// The exact set of component types attached to an entity, one bit per component number.
///
/// Two archetypes are equal exactly when they hold the same component numbers
/// (see [`Archetype::lemma_equal_iff_same_members`]).
#[derive(PartialEq, Eq, Hash, Clone, Copy, Debug, Structural)]
pub struct Archetype {
    bitfield: u128,
}

/// Whether bit `id` of `bits` is set.
pub open spec fn bit_is_set(bits: u128, id: nat) -> bool {
    id < 128 && (bits >> (id as u128)) & 1 == 1
}

proof fn lemma_bit_of_zero(j: u128)
    by (bit_vector)
    requires
        j < 128,
    ensures
        (0u128 >> j) & 1 == 0,
{
}

proof fn lemma_bit_after_set(bits: u128, i: u128, j: u128)
    by (bit_vector)
    requires
        i < 128,
        j < 128,
    ensures
        (((bits | (1u128 << i)) >> j) & 1 == 1) == (j == i || (bits >> j) & 1 == 1),
{
}

proof fn lemma_bit_after_unset(bits: u128, i: u128, j: u128)
    by (bit_vector)
    requires
        i < 128,
        j < 128,
    ensures
        (((bits & !(1u128 << i)) >> j) & 1 == 1) == (j != i && (bits >> j) & 1 == 1),
{
}

proof fn lemma_bit_test(bits: u128, i: u128)
    by (bit_vector)
    requires
        i < 128,
    ensures
        (bits & (1u128 << i) > 0) == ((bits >> i) & 1 == 1),
{
}

proof fn lemma_bit_of_masked(a: u128, b: u128, j: u128)
    by (bit_vector)
    requires
        j < 128,
    ensures
        (((a & b) >> j) & 1 == 1) == ((a >> j) & 1 == 1 && (b >> j) & 1 == 1),
{
}

spec fn low_bits_agree(a: u128, b: u128, n: u128) -> bool
    decreases n,
{
    if n == 0 {
        true
    } else {
        let j = (n - 1) as u128;
        ((a >> j) & 1 == 1) == ((b >> j) & 1 == 1) && low_bits_agree(a, b, j)
    }
}

proof fn lemma_low_bits_agree(a: u128, b: u128, n: u128)
    requires
        n <= 128,
        forall|j: u128| j < 128 ==> ((a >> j) & 1 == 1) == ((b >> j) & 1 == 1),
    ensures
        low_bits_agree(a, b, n),
    decreases n,
{
    if n > 0 {
        lemma_low_bits_agree(a, b, (n - 1) as u128);
    }
}

proof fn lemma_bits_determine_word(a: u128, b: u128)
    requires
        forall|j: u128| j < 128 ==> ((a >> j) & 1 == 1) == ((b >> j) & 1 == 1),
    ensures
        a == b,
{
    lemma_low_bits_agree(a, b, 128);
    assert(low_bits_agree(a, b, 128) ==> a == b) by (bit_vector);
}

impl Archetype {
    /// The bit mask itself; tables are keyed by it.
    pub closed spec fn spec_bits(&self) -> u128 {
        self.bitfield
    }

    /// Whether component number `id` is a member.
    pub open spec fn has(&self, id: nat) -> bool {
        bit_is_set(self.spec_bits(), id)
    }

    /// The component numbers that are members.
    pub open spec fn view(&self) -> Set<nat> {
        Set::new(|id: nat| self.has(id))
    }

    /// The archetype with the bit mask `bits`.
    pub closed spec fn spec_from_bits(bits: u128) -> Archetype {
        Archetype { bitfield: bits }
    }

    /// The archetype without members.
    pub closed spec fn empty() -> Archetype {
        Archetype { bitfield: 0 }
    }

    /// This archetype and component number `id`.
    pub closed spec fn with(&self, id: nat) -> Archetype {
        Archetype { bitfield: self.bitfield | (1u128 << (id as u128)) }
    }

    /// This archetype but for component number `id`.
    pub closed spec fn without(&self, id: nat) -> Archetype {
        Archetype { bitfield: self.bitfield & !(1u128 << (id as u128)) }
    }

    /// The members of the archetypes that the functions above name.
    pub proof fn lemma_members(self, id: nat)
        requires
            id < MAX_COMPONENTS,
        ensures
            Self::empty()@ == Set::<nat>::empty(),
            self.with(id)@ == self@.insert(id),
            self.without(id)@ == self@.remove(id),
            forall|j: nat| #[trigger] self.with(id).has(j) == (j == id || self.has(j)),
            forall|j: nat| #[trigger] self.without(id).has(j) == (j != id && self.has(j)),
            forall|j: nat| !(#[trigger] Self::empty().has(j)),
    {
        assert forall|j: nat| #[trigger] self.with(id).has(j) == (j == id || self.has(j)) by {
            if j < 128 {
                lemma_bit_after_set(self.bitfield, id as u128, j as u128);
            }
        }
        assert forall|j: nat| #[trigger] self.without(id).has(j) == (j != id && self.has(j)) by {
            if j < 128 {
                lemma_bit_after_unset(self.bitfield, id as u128, j as u128);
            }
        }
        assert forall|j: nat| !(#[trigger] Self::empty().has(j)) by {
            if j < 128 {
                lemma_bit_of_zero(j as u128);
            }
        }
        assert(Self::empty()@ =~= Set::<nat>::empty());
        assert(self.with(id)@ =~= self@.insert(id));
        assert(self.without(id)@ =~= self@.remove(id));
    }

    /// An archetype is the one its bit mask names.
    pub proof fn lemma_bits(self)
        ensures
            Self::spec_from_bits(self.spec_bits()) == self,
            forall|bits: u128| (#[trigger] Self::spec_from_bits(bits)).spec_bits() == bits,
    {
    }

    /// Archetypes are determined by their members: equal sets mean equal values.
    pub proof fn lemma_equal_iff_same_members(a: Archetype, b: Archetype)
        ensures
            (a == b) <==> (a@ == b@),
            (a == b) <==> (a.spec_bits() == b.spec_bits()),
    {
        if a@ == b@ {
            assert forall|j: u128| j < 128 implies ((a.bitfield >> j) & 1 == 1) == ((b.bitfield
                >> j) & 1 == 1) by {
                assert(a@.contains(j as nat) == b@.contains(j as nat));
                assert(a.has(j as nat) == b.has(j as nat));
            }
            lemma_bits_determine_word(a.bitfield, b.bitfield);
        }
    }

    #[inline(always)]
    pub fn new() -> (a: Self)
        ensures
            a == Self::empty(),
            a@ == Set::<nat>::empty(),
    {
        let a = Archetype { bitfield: 0 };
        proof {
            assert forall|id: nat| !a.has(id) by {
                if id < 128 {
                    lemma_bit_of_zero(id as u128);
                }
            }
            assert(a@ =~= Set::<nat>::empty());
        }
        a
    }

    #[verifier::when_used_as_spec(spec_bits)]
    #[inline(always)]
    pub fn bits(&self) -> (r: u128)
        ensures
            r == self.spec_bits(),
    {
        self.bitfield
    }

    #[verifier::when_used_as_spec(spec_from_bits)]
    #[inline(always)]
    pub fn from_bits(bits: u128) -> (a: Archetype)
        ensures
            a == Self::spec_from_bits(bits),
    {
        Archetype { bitfield: bits }
    }

    #[inline(always)]
    pub fn set_id(&mut self, id: usize)
        requires
            id < MAX_COMPONENTS,
        ensures
            *final(self) == old(self).with(id as nat),
            final(self)@ == old(self)@.insert(id as nat),
    {
        let ghost before = *self;
        self.bitfield |= 1u128 << (id as u128);
        proof {
            assert forall|j: nat| #[trigger] self.has(j) == (j == id || before.has(j)) by {
                if j < 128 {
                    lemma_bit_after_set(before.bitfield, id as u128, j as u128);
                }
            }
            assert(self@ =~= before@.insert(id as nat));
        }
    }

    #[inline(always)]
    pub fn set(&mut self, metadata: Metadata)
        requires
            metadata.index() < MAX_COMPONENTS,
        ensures
            *final(self) == old(self).with(metadata.index()),
            final(self)@ == old(self)@.insert(metadata.index()),
    {
        self.set_id(metadata.id().0 as usize);
    }

    #[inline(always)]
    pub fn unset_id(&mut self, id: usize)
        requires
            id < MAX_COMPONENTS,
        ensures
            *final(self) == old(self).without(id as nat),
            final(self)@ == old(self)@.remove(id as nat),
    {
        let ghost before = *self;
        self.bitfield &= !(1u128 << (id as u128));
        proof {
            assert forall|j: nat| #[trigger] self.has(j) == (j != id && before.has(j)) by {
                if j < 128 {
                    lemma_bit_after_unset(before.bitfield, id as u128, j as u128);
                }
            }
            assert(self@ =~= before@.remove(id as nat));
        }
    }

    #[inline(always)]
    pub fn unset(&mut self, metadata: Metadata)
        requires
            metadata.index() < MAX_COMPONENTS,
        ensures
            *final(self) == old(self).without(metadata.index()),
            final(self)@ == old(self)@.remove(metadata.index()),
    {
        self.unset_id(metadata.id().0 as usize);
    }

    /// Membership of a component number; numbers at or above the capacity are never members.
    #[inline(always)]
    pub fn contains_id(&self, id: usize) -> (r: bool)
        ensures
            r == self@.contains(id as nat),
    {
        if id < MAX_COMPONENTS {
            proof {
                lemma_bit_test(self.bitfield, id as u128);
            }
            self.bitfield & (1u128 << (id as u128)) > 0
        } else {
            false
        }
    }

    #[inline(always)]
    pub fn contains(&self, metadata: Metadata) -> (r: bool)
        ensures
            r == self@.contains(metadata.index()),
    {
        self.contains_id(metadata.id().0 as usize)
    }

    pub fn subset_of(&self, other: Archetype) -> (r: bool)
        ensures
            r == self@.subset_of(other@),
    {
        let common = Archetype { bitfield: self.bitfield & other.bitfield };
        proof {
            assert forall|j: nat| #[trigger] common.has(j) == (self.has(j) && other.has(j)) by {
                if j < 128 {
                    lemma_bit_of_masked(self.bitfield, other.bitfield, j as u128);
                }
            }
            if self@.subset_of(other@) {
                assert forall|j: nat| #[trigger] common.has(j) == self.has(j) by {
                    assert(self@.contains(j) ==> other@.contains(j));
                }
                assert(common@ =~= self@);
                Self::lemma_equal_iff_same_members(common, *self);
            }
            if common.bitfield == self.bitfield {
                assert forall|j: nat| self@.contains(j) implies other@.contains(j) by {
                    assert(common.has(j));
                }
            }
        }
        common.bitfield == self.bitfield
    }
}

/// Builds the archetype of an entity: the `Entity` component and whatever is added.
#[derive(Clone, Copy)]
pub struct ArchetypeBuilder(Archetype);

impl View for ArchetypeBuilder {
    type V = Set<nat>;

    closed spec fn view(&self) -> Set<nat> {
        self.0@
    }
}

impl ArchetypeBuilder {
    #[allow(clippy::new_without_default)]
    pub fn new() -> (b: ArchetypeBuilder)
        ensures
            b@ == set![0nat],
    {
        let mut archetype = Archetype::new();
        archetype.set_id(0);
        assert(archetype@ =~= set![0nat]);
        ArchetypeBuilder(archetype)
    }

    pub fn set<T: Component>(self) -> (b: ArchetypeBuilder)
        requires
            T::spec_metadata().index() < MAX_COMPONENTS,
        ensures
            b@ == self@.insert(T::spec_metadata().index()),
    {
        let mut archetype = self.0;
        archetype.set(T::metadata_static());
        ArchetypeBuilder(archetype)
    }

    pub fn set_from_metadata(&mut self, metadata: Metadata) -> (b: &mut ArchetypeBuilder)
        requires
            metadata.index() < MAX_COMPONENTS,
        ensures
            b@ == old(self)@.insert(metadata.index()),
            *final(self) == *final(b),
    {
        self.0.set(metadata);
        self
    }

    pub fn build(self) -> (a: Archetype)
        ensures
            a@ == self@,
    {
        self.0
    }
}

} // verus!
