//! Component numbers, the metadata of component types, and the capability
//! that lets a type be stored as a component.

use crate::view::ValueView;
use vstd::prelude::*;

verus! {

/// Number of distinct component types one world can tell apart.
pub const MAX_COMPONENTS: usize = 128;

/// Dense, process-wide number of a component type. Number 0 belongs to `Entity`.
#[derive(Clone, Copy, PartialEq, Eq, PartialOrd, Ord, Hash, Debug, Structural)]
pub struct ComponentId(pub u32);

impl std::ops::Deref for ComponentId {
    type Target = u32;

    fn deref(&self) -> (r: &u32)
        ensures
            *r == self.0,
    {
        &self.0
    }
}

/// What the world needs to know about a component type.
#[allow(dead_code)]
#[derive(Clone, Copy, PartialEq, Eq, Hash)]
pub struct Metadata {
    id: ComponentId,
    size: usize,
    align: usize,
    name: &'static str,
}

impl Metadata {
    pub closed spec fn spec_id(&self) -> ComponentId {
        self.id
    }

    pub closed spec fn spec_size(&self) -> usize {
        self.size
    }

    pub closed spec fn spec_align(&self) -> usize {
        self.align
    }

    pub closed spec fn spec_name(&self) -> &'static str {
        self.name
    }

    /// The metadata made of these four parts.
    pub closed spec fn spec_new(
        id: ComponentId,
        size: usize,
        align: usize,
        name: &'static str,
    ) -> Metadata {
        Metadata { id, size, align, name }
    }

    /// The parts of a metadata value are the ones it was made of.
    pub proof fn lemma_parts(id: ComponentId, size: usize, align: usize, name: &'static str)
        ensures
            Self::spec_new(id, size, align, name).spec_id() == id,
            Self::spec_new(id, size, align, name).spec_size() == size,
            Self::spec_new(id, size, align, name).spec_align() == align,
            Self::spec_new(id, size, align, name).spec_name() == name,
    {
    }

    /// The component number as an index into per-table column arrays.
    pub open spec fn index(&self) -> nat {
        self.spec_id().0 as nat
    }

    #[verifier::when_used_as_spec(spec_new)]
    pub fn new(id: ComponentId, size: usize, align: usize, name: &'static str) -> (m: Self)
        ensures
            m == Self::spec_new(id, size, align, name),
            m.spec_id() == id,
            m.spec_size() == size,
            m.spec_align() == align,
            m.spec_name() == name,
    {
        Metadata { id, size, align, name }
    }

    #[verifier::when_used_as_spec(spec_id)]
    pub fn id(&self) -> (r: ComponentId)
        ensures
            r == self.spec_id(),
    {
        self.id
    }

    #[verifier::when_used_as_spec(spec_size)]
    pub fn size(&self) -> (r: usize)
        ensures
            r == self.spec_size(),
    {
        self.size
    }

    #[verifier::when_used_as_spec(spec_align)]
    pub fn align(&self) -> (r: usize)
        ensures
            r == self.spec_align(),
    {
        self.align
    }

    #[verifier::when_used_as_spec(spec_name)]
    pub fn name(&self) -> (r: &'static str)
        ensures
            r == self.spec_name(),
    {
        self.name
    }
}

/// The capability that lets a type be stored as a component: its metadata and
/// its image as bytes.
///
/// The world keeps values as byte strings of `metadata().size()` bytes and hands
/// the same bytes back to `from_bytes`. Implementations are relied upon to keep
/// the promises stated here: nothing holds them to it but for the types of this
/// crate.
pub trait Component: Sized {
    /// The metadata of the type; the same for every value. An implementation
    /// may say what it is; where it does not, it is some value that depends on
    /// the type alone.
    open spec fn spec_metadata() -> Metadata {
        arbitrary::<spec_fn(Self) -> Metadata>()(arbitrary::<Self>())
    }

    /// The byte image of a value. An implementation may say what it is; where
    /// it does not, it is some byte string that depends on the value alone.
    open spec fn bytes(&self) -> Seq<u8> {
        arbitrary::<spec_fn(Self) -> Seq<u8>>()(*self)
    }

    /// The metadata of the type of this value.
    fn metadata(&self) -> (m: Metadata)
        ensures
            m == Self::spec_metadata(),
    ;

    /// The metadata of the type.
    fn metadata_static() -> (m: Metadata)
        ensures
            m == Self::spec_metadata(),
    ;

    /// The byte image of the value: as many bytes as the metadata says.
    fn to_bytes(&self) -> (b: Vec<u8>)
        ensures
            b@ == self.bytes(),
            b@.len() == Self::spec_metadata().size(),
    ;

    /// The value with the byte image `bytes`, where the bytes are the image
    /// of a value.
    fn from_bytes(bytes: &[u8]) -> (v: Self)
        requires
            bytes@.len() == Self::spec_metadata().size(),
        ensures
            (exists|w: Self| w.bytes() == bytes@) ==> v.bytes() == bytes@,
    ;
}

/// A component value whose type is known only by its metadata: the metadata
/// and the byte image, which is `metadata().size()` bytes long.
pub struct ComponentValue {
    metadata: Metadata,
    bytes: Vec<u8>,
}

impl View for ComponentValue {
    type V = ValueView;

    closed spec fn view(&self) -> ValueView {
        ValueView { id: self.metadata.index(), bytes: self.bytes@ }
    }
}

impl ComponentValue {
    #[verifier::type_invariant]
    spec fn inv(self) -> bool {
        self.bytes@.len() == self.metadata.size()
    }

    pub closed spec fn spec_metadata(&self) -> Metadata {
        self.metadata
    }

    /// The component number of the view is that of the metadata.
    pub proof fn lemma_view(&self)
        ensures
            self@.id == self.spec_metadata().index(),
    {
    }

    /// The value of the component type that `metadata` describes with the image
    /// `bytes`, if that is as long as the metadata says.
    pub fn new(metadata: Metadata, bytes: Vec<u8>) -> (r: Option<Self>)
        ensures
            r is Some <==> bytes@.len() == metadata.size(),
            r matches Some(v) ==> v.spec_metadata() == metadata && v@.bytes == bytes@,
    {
        if bytes.len() == metadata.size() {
            Some(ComponentValue { metadata, bytes })
        } else {
            None
        }
    }

    /// The value `component` without its type.
    pub fn of<T: Component>(component: &T) -> (v: Self)
        ensures
            v.spec_metadata() == T::spec_metadata(),
            v@.bytes == component.bytes(),
    {
        ComponentValue { metadata: component.metadata(), bytes: component.to_bytes() }
    }

    #[verifier::when_used_as_spec(spec_metadata)]
    pub fn metadata(&self) -> (m: Metadata)
        ensures
            m == self.spec_metadata(),
    {
        self.metadata
    }

    pub fn bytes(&self) -> (b: &[u8])
        ensures
            b@ == self@.bytes,
            b@.len() == self.spec_metadata().size(),
    {
        proof {
            use_type_invariant(self);
        }
        self.bytes.as_slice()
    }
}

} // verus!
