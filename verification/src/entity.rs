//! Entities: the numbers that components are attached to.

use crate::component::{Component, ComponentId, Metadata};
use vstd::prelude::*;

verus! {

/// A handle to an entity. `Entity(0)` marks a dead row and is never alive.
#[derive(Clone, Copy, PartialEq, Eq, PartialOrd, Ord, Debug, Structural)]
pub struct Entity(pub u32);

impl std::ops::Deref for Entity {
    type Target = u32;

    fn deref(&self) -> (r: &u32)
        ensures
            *r == self.0,
    {
        &self.0
    }
}

impl Entity {
    /// The component number of `Entity`, which every table has a column for.
    pub open spec fn spec_id() -> nat {
        0
    }

    /// The byte image of the entity with number `id`.
    pub open spec fn image(id: nat) -> Seq<u8> {
        vstd::bytes::spec_u32_to_le_bytes(id as u32)
    }

    /// The byte image that marks a dead row.
    pub open spec fn tombstone() -> Seq<u8> {
        Self::image(0)
    }

    /// Images are four bytes long and tell entity numbers apart.
    pub proof fn lemma_image(a: nat, b: nat)
        requires
            a <= u32::MAX,
            b <= u32::MAX,
        ensures
            Self::image(a).len() == 4,
            vstd::bytes::spec_u32_from_le_bytes(Self::image(a)) == a,
            Self::image(a) == Self::image(b) <==> a == b,
    {
        vstd::bytes::lemma_auto_spec_u32_to_from_le_bytes();
    }
}

impl Component for Entity {
    open spec fn spec_metadata() -> Metadata {
        Metadata::spec_new(ComponentId(0), 4, 4, "Entity")
    }

    open spec fn bytes(&self) -> Seq<u8> {
        Entity::image(self.0 as nat)
    }

    fn metadata(&self) -> (m: Metadata) {
        Metadata::new(ComponentId(0), 4, 4, "Entity")
    }

    fn metadata_static() -> (m: Metadata) {
        Metadata::new(ComponentId(0), 4, 4, "Entity")
    }

    fn to_bytes(&self) -> (b: Vec<u8>) {
        proof {
            Entity::lemma_image(self.0 as nat, 0);
            Metadata::lemma_parts(ComponentId(0), 4, 4, "Entity");
        }
        vstd::bytes::u32_to_le_bytes(self.0)
    }

    fn from_bytes(bytes: &[u8]) -> (v: Self)
        ensures
            v.0 == vstd::bytes::spec_u32_from_le_bytes(bytes@),
    {
        proof {
            vstd::bytes::lemma_auto_spec_u32_to_from_le_bytes();
            Metadata::lemma_parts(ComponentId(0), 4, 4, "Entity");
        }
        Entity(vstd::bytes::u32_from_le_bytes(bytes))
    }
}

} // verus!
