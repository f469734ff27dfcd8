//! Queries: filters over archetypes, made of parameters.

use crate::archetype::Archetype;
use crate::component::{Component, ComponentId};
use std::marker::PhantomData;
use vstd::prelude::*;

verus! {

/// One parameter of a query: what it asks of an entity's archetype, and how
/// the component is used.
#[derive(Clone, Copy, PartialEq, Eq, Debug, Structural)]
pub enum QueryParam {
    /// The component is required and read.
    Read(ComponentId),
    /// The component is required and written.
    Write(ComponentId),
    /// The component is read where the entity has it.
    OptionalRead(ComponentId),
    /// The component is written where the entity has it.
    OptionalWrite(ComponentId),
    /// The component is required and not looked at.
    With(ComponentId),
    /// The component must be missing.
    Without(ComponentId),
}

impl QueryParam {
    /// Whether an entity of archetype `a` meets the parameter.
    pub open spec fn matches(self, a: Archetype) -> bool {
        match self {
            QueryParam::Read(id) => a.has(id.0 as nat),
            QueryParam::Write(id) => a.has(id.0 as nat),
            QueryParam::OptionalRead(id) => true,
            QueryParam::OptionalWrite(id) => true,
            QueryParam::With(id) => a.has(id.0 as nat),
            QueryParam::Without(id) => !a.has(id.0 as nat),
        }
    }

    pub fn match_archetype(&self, archetype: &Archetype) -> (r: bool)
        ensures
            r == self.matches(*archetype),
    {
        match self {
            QueryParam::Read(id) => archetype.contains_id(id.0 as usize),
            QueryParam::Write(id) => archetype.contains_id(id.0 as usize),
            QueryParam::OptionalRead(_) => true,
            QueryParam::OptionalWrite(_) => true,
            QueryParam::With(id) => archetype.contains_id(id.0 as usize),
            QueryParam::Without(id) => !archetype.contains_id(id.0 as usize),
        }
    }
}

/// Marks a query parameter that requires a component of type `T` without looking at it.
pub struct With<T: Component> {
    marker: PhantomData<T>,
}

impl<T: Component> With<T> {
    /// The query parameter that this type stands for.
    pub fn param() -> (p: QueryParam)
        ensures
            p == QueryParam::With(T::spec_metadata().id()),
    {
        QueryParam::With(T::metadata_static().id())
    }
}

/// Marks a query parameter that requires that there is no component of type `T`.
pub struct Without<T: Component> {
    marker: PhantomData<T>,
}

impl<T: Component> Without<T> {
    /// The query parameter that this type stands for.
    pub fn param() -> (p: QueryParam)
        ensures
            p == QueryParam::Without(T::spec_metadata().id()),
    {
        QueryParam::Without(T::metadata_static().id())
    }
}

/// A filter over archetypes: the conjunction of its parameters.
pub struct Query {
    params: Vec<QueryParam>,
}

impl View for Query {
    type V = Seq<QueryParam>;

    closed spec fn view(&self) -> Seq<QueryParam> {
        self.params@
    }
}

impl Query {
    /// Whether an entity of archetype `a` meets every parameter.
    pub open spec fn matches(&self, a: Archetype) -> bool {
        forall|i: int| 0 <= i < self@.len() ==> (#[trigger] self@[i]).matches(a)
    }

    /// The query without parameters, which every entity meets.
    pub fn new() -> (q: Query)
        ensures
            q@ == Seq::<QueryParam>::empty(),
    {
        Query { params: Vec::new() }
    }

    /// The query with one parameter more.
    pub fn param(self, p: QueryParam) -> (q: Query)
        ensures
            q@ == self@.push(p),
    {
        let mut params = self.params;
        params.push(p);
        Query { params }
    }

    /// The query that also requires a component of type `T`, to read it.
    pub fn read<T: Component>(self) -> (q: Query)
        ensures
            q@ == self@.push(QueryParam::Read(T::spec_metadata().id())),
    {
        self.param(QueryParam::Read(T::metadata_static().id()))
    }

    /// The query that also requires a component of type `T`, to write it.
    pub fn write<T: Component>(self) -> (q: Query)
        ensures
            q@ == self@.push(QueryParam::Write(T::spec_metadata().id())),
    {
        self.param(QueryParam::Write(T::metadata_static().id()))
    }

    /// The query that also reads a component of type `T` where there is one.
    pub fn optional_read<T: Component>(self) -> (q: Query)
        ensures
            q@ == self@.push(QueryParam::OptionalRead(T::spec_metadata().id())),
    {
        self.param(QueryParam::OptionalRead(T::metadata_static().id()))
    }

    /// The query that also writes a component of type `T` where there is one.
    pub fn optional_write<T: Component>(self) -> (q: Query)
        ensures
            q@ == self@.push(QueryParam::OptionalWrite(T::spec_metadata().id())),
    {
        self.param(QueryParam::OptionalWrite(T::metadata_static().id()))
    }

    /// The query that also requires a component of type `T`.
    pub fn with<T: Component>(self) -> (q: Query)
        ensures
            q@ == self@.push(QueryParam::With(T::spec_metadata().id())),
    {
        self.param(With::<T>::param())
    }

    /// The query that also requires that there is no component of type `T`.
    pub fn without<T: Component>(self) -> (q: Query)
        ensures
            q@ == self@.push(QueryParam::Without(T::spec_metadata().id())),
    {
        self.param(Without::<T>::param())
    }

    /// Whether an entity of archetype `archetype` meets every parameter.
    pub fn match_archetype(&self, archetype: &Archetype) -> (r: bool)
        ensures
            r == self.matches(*archetype),
    {
        let mut i: usize = 0;
        while i < self.params.len()
            invariant
                i <= self.params.len(),
                forall|j: int| 0 <= j < i ==> (#[trigger] self@[j]).matches(*archetype),
            decreases self.params.len() - i,
        {
            if !self.params[i].match_archetype(archetype) {
                assert(!self@[i as int].matches(*archetype));
                return false;
            }
            i += 1;
        }
        true
    }
}

} // verus!
