//! Bundles: the sets of components that entities are spawned with.

use crate::archetype::Archetype;
use crate::component::{Component, ComponentValue, MAX_COMPONENTS};
use crate::table::Table;
use crate::view::ValueView;
use vstd::prelude::*;

verus! {

/// The views of the values of a slice of component values.
pub open spec fn values_of(bundle: Seq<ComponentValue>) -> Seq<ValueView> {
    Seq::new(bundle.len(), |i: int| bundle[i]@)
}

/// A set of components to spawn an entity with: one component, a tuple of
/// components, or a slice of component values.
pub trait Bundle: Sized {
    /// The components of the bundle, in the order in which they are written.
    spec fn values(&self) -> Seq<ValueView>;

    /// Whether every component of the bundle can be attached to an entity: its
    /// number is that of a component type other than `Entity` that a world can hold.
    fn is_valid(&self) -> (r: bool)
        ensures
            r == crate::view::all_valid(self.values()),
    ;

    /// Adds the component types of the bundle to `archetype`.
    fn set_archetype(&self, archetype: &mut Archetype)
        requires
            crate::view::all_valid(self.values()),
        ensures
            *final(archetype) == crate::view::with_ids(*old(archetype), self.values()),
    ;

    /// Writes the components of the bundle to row `index` of `table`, one after the other.
    fn write_self_to_table(self, index: usize, table: &mut Table)
        requires
            old(table).wf(),
            old(table)@.accepts_all(index as nat, self.values()),
        ensures
            final(table).wf(),
            final(table)@ == old(table)@.write_all(index as nat, self.values()),
    ;
}

impl<T1: Component> Bundle for T1 {
    open spec fn values(&self) -> Seq<ValueView> {
        seq![ValueView { id: T1::spec_metadata().index(), bytes: self.bytes() }]
    }

    fn is_valid(&self) -> (r: bool) {
        let id = self.metadata().id().0;
        proof {
            let v = self.values();
            if 0 < id < MAX_COMPONENTS {
                assert forall|i: int| 0 <= i < v.len() implies (#[trigger] v[i]).valid() by {}
            } else {
                assert(!v[0].valid());
            }
        }
        0 < id && (id as usize) < MAX_COMPONENTS
    }

    fn set_archetype(&self, archetype: &mut Archetype) {
        proof {
            let v = self.values();
            assert(v.drop_last() =~= Seq::<ValueView>::empty());
            assert(v.last() == v[0]);
            assert(v[0].valid());
            assert(crate::view::with_ids(*archetype, v.drop_last()) == *archetype);
        }
        archetype.set(self.metadata());
    }

    fn write_self_to_table(self, index: usize, table: &mut Table) {
        proof {
            let v = self.values();
            assert(v.drop_last() =~= Seq::<ValueView>::empty());
            assert(v.last() == v[0]);
        }
        let bytes = self.to_bytes();
        table.write_any(self.metadata(), index, bytes.as_slice());
    }
}

impl<'a> Bundle for &'a [ComponentValue] {
    open spec fn values(&self) -> Seq<ValueView> {
        values_of(self@)
    }

    fn is_valid(&self) -> (r: bool) {
        let ghost values = values_of(self@);
        let mut i: usize = 0;
        while i < self.len()
            invariant
                i <= self.len(),
                values == values_of(self@),
                forall|j: int| 0 <= j < i ==> (#[trigger] values[j]).valid(),
            decreases self.len() - i,
        {
            let id = self[i].metadata().id().0;
            proof {
                self[i as int].lemma_view();
            }
            if id == 0 || id as usize >= MAX_COMPONENTS {
                assert(!values[i as int].valid());
                return false;
            }
            i += 1;
        }
        true
    }

    fn set_archetype(&self, archetype: &mut Archetype) {
        let ghost values = values_of(self@);
        let ghost a0 = *archetype;
        proof {
            crate::view::lemma_with_ids_prefix(a0, values, 0);
        }
        let mut i: usize = 0;
        while i < self.len()
            invariant
                i <= self.len(),
                values == values_of(self@),
                crate::view::all_valid(values),
                *archetype == crate::view::with_ids(a0, values.take(i as int)),
            decreases self.len() - i,
        {
            proof {
                crate::view::lemma_with_ids_prefix(a0, values, i as int);
                self[i as int].lemma_view();
                assert(values[i as int].valid());
            }
            archetype.set(self[i].metadata());
            i += 1;
        }
        proof {
            crate::view::lemma_with_ids_prefix(a0, values, 0);
        }
    }

    fn write_self_to_table(self, index: usize, table: &mut Table) {
        let ghost values = values_of(self@);
        let ghost t0 = table@;
        proof {
            assert(values.take(0) =~= Seq::<ValueView>::empty());
        }
        let mut i: usize = 0;
        while i < self.len()
            invariant
                i <= self.len(),
                values == values_of(self@),
                table.wf(),
                t0.accepts_all(index as nat, values),
                table@ == t0.write_all(index as nat, values.take(i as int)),
            decreases self.len() - i,
        {
            proof {
                t0.lemma_accepts_prefix(index as nat, values, i as int);
                self[i as int].lemma_view();
            }
            table.write_any(self[i].metadata(), index, self[i].bytes());
            i += 1;
        }
        proof {
            assert(values.take(self.len() as int) =~= values);
        }
    }
}

impl<T1: Component, T2: Component> Bundle for (T1, T2) {
    open spec fn values(&self) -> Seq<ValueView> {
        self.0.values() + self.1.values()
    }

    fn is_valid(&self) -> (r: bool) {
        proof {
            let v0 = self.0.values();
            crate::view::lemma_with_ids_concat(Archetype::empty(), v0, self.1.values());
        }
        self.0.is_valid() && self.1.is_valid()
    }

    fn set_archetype(&self, archetype: &mut Archetype) {
        proof {
            let a = *archetype;
            let v0 = self.0.values();
            crate::view::lemma_with_ids_concat(a, v0, self.1.values());
        }
        self.0.set_archetype(archetype);
        self.1.set_archetype(archetype);
    }

    fn write_self_to_table(self, index: usize, table: &mut Table) {
        proof {
            let t = table@;
            let v0 = self.0.values();
            t.lemma_write_all_concat(index as nat, v0, self.1.values());
        }
        self.0.write_self_to_table(index, table);
        self.1.write_self_to_table(index, table);
    }
}

impl<T1: Component, T2: Component, T3: Component> Bundle for (T1, T2, T3) {
    open spec fn values(&self) -> Seq<ValueView> {
        self.0.values() + self.1.values() + self.2.values()
    }

    fn is_valid(&self) -> (r: bool) {
        proof {
            let v0 = self.0.values();
            let v1 = v0 + self.1.values();
            crate::view::lemma_with_ids_concat(Archetype::empty(), v1, self.2.values());
            crate::view::lemma_with_ids_concat(Archetype::empty(), v0, self.1.values());
        }
        self.0.is_valid() && self.1.is_valid() && self.2.is_valid()
    }

    fn set_archetype(&self, archetype: &mut Archetype) {
        proof {
            let a = *archetype;
            let v0 = self.0.values();
            let v1 = v0 + self.1.values();
            crate::view::lemma_with_ids_concat(a, v1, self.2.values());
            crate::view::lemma_with_ids_concat(a, v0, self.1.values());
        }
        self.0.set_archetype(archetype);
        self.1.set_archetype(archetype);
        self.2.set_archetype(archetype);
    }

    fn write_self_to_table(self, index: usize, table: &mut Table) {
        proof {
            let t = table@;
            let v0 = self.0.values();
            let v1 = v0 + self.1.values();
            t.lemma_write_all_concat(index as nat, v1, self.2.values());
            t.lemma_write_all_concat(index as nat, v0, self.1.values());
        }
        self.0.write_self_to_table(index, table);
        self.1.write_self_to_table(index, table);
        self.2.write_self_to_table(index, table);
    }
}

impl<T1: Component, T2: Component, T3: Component, T4: Component> Bundle for (T1, T2, T3, T4) {
    open spec fn values(&self) -> Seq<ValueView> {
        self.0.values() + self.1.values() + self.2.values() + self.3.values()
    }

    fn is_valid(&self) -> (r: bool) {
        proof {
            let v0 = self.0.values();
            let v1 = v0 + self.1.values();
            let v2 = v1 + self.2.values();
            crate::view::lemma_with_ids_concat(Archetype::empty(), v2, self.3.values());
            crate::view::lemma_with_ids_concat(Archetype::empty(), v1, self.2.values());
            crate::view::lemma_with_ids_concat(Archetype::empty(), v0, self.1.values());
        }
        self.0.is_valid() && self.1.is_valid() && self.2.is_valid() && self.3.is_valid()
    }

    fn set_archetype(&self, archetype: &mut Archetype) {
        proof {
            let a = *archetype;
            let v0 = self.0.values();
            let v1 = v0 + self.1.values();
            let v2 = v1 + self.2.values();
            crate::view::lemma_with_ids_concat(a, v2, self.3.values());
            crate::view::lemma_with_ids_concat(a, v1, self.2.values());
            crate::view::lemma_with_ids_concat(a, v0, self.1.values());
        }
        self.0.set_archetype(archetype);
        self.1.set_archetype(archetype);
        self.2.set_archetype(archetype);
        self.3.set_archetype(archetype);
    }

    fn write_self_to_table(self, index: usize, table: &mut Table) {
        proof {
            let t = table@;
            let v0 = self.0.values();
            let v1 = v0 + self.1.values();
            let v2 = v1 + self.2.values();
            t.lemma_write_all_concat(index as nat, v2, self.3.values());
            t.lemma_write_all_concat(index as nat, v1, self.2.values());
            t.lemma_write_all_concat(index as nat, v0, self.1.values());
        }
        self.0.write_self_to_table(index, table);
        self.1.write_self_to_table(index, table);
        self.2.write_self_to_table(index, table);
        self.3.write_self_to_table(index, table);
    }
}

impl<
    T1: Component,
    T2: Component,
    T3: Component,
    T4: Component,
    T5: Component,
> Bundle for (T1, T2, T3, T4, T5) {
    open spec fn values(&self) -> Seq<ValueView> {
        self.0.values() + self.1.values() + self.2.values() + self.3.values() + self.4.values()
    }

    fn is_valid(&self) -> (r: bool) {
        proof {
            let v0 = self.0.values();
            let v1 = v0 + self.1.values();
            let v2 = v1 + self.2.values();
            let v3 = v2 + self.3.values();
            crate::view::lemma_with_ids_concat(Archetype::empty(), v3, self.4.values());
            crate::view::lemma_with_ids_concat(Archetype::empty(), v2, self.3.values());
            crate::view::lemma_with_ids_concat(Archetype::empty(), v1, self.2.values());
            crate::view::lemma_with_ids_concat(Archetype::empty(), v0, self.1.values());
        }
        self.0.is_valid() && self.1.is_valid() && self.2.is_valid() && self.3.is_valid()
            && self.4.is_valid()
    }

    fn set_archetype(&self, archetype: &mut Archetype) {
        proof {
            let a = *archetype;
            let v0 = self.0.values();
            let v1 = v0 + self.1.values();
            let v2 = v1 + self.2.values();
            let v3 = v2 + self.3.values();
            crate::view::lemma_with_ids_concat(a, v3, self.4.values());
            crate::view::lemma_with_ids_concat(a, v2, self.3.values());
            crate::view::lemma_with_ids_concat(a, v1, self.2.values());
            crate::view::lemma_with_ids_concat(a, v0, self.1.values());
        }
        self.0.set_archetype(archetype);
        self.1.set_archetype(archetype);
        self.2.set_archetype(archetype);
        self.3.set_archetype(archetype);
        self.4.set_archetype(archetype);
    }

    fn write_self_to_table(self, index: usize, table: &mut Table) {
        proof {
            let t = table@;
            let v0 = self.0.values();
            let v1 = v0 + self.1.values();
            let v2 = v1 + self.2.values();
            let v3 = v2 + self.3.values();
            t.lemma_write_all_concat(index as nat, v3, self.4.values());
            t.lemma_write_all_concat(index as nat, v2, self.3.values());
            t.lemma_write_all_concat(index as nat, v1, self.2.values());
            t.lemma_write_all_concat(index as nat, v0, self.1.values());
        }
        self.0.write_self_to_table(index, table);
        self.1.write_self_to_table(index, table);
        self.2.write_self_to_table(index, table);
        self.3.write_self_to_table(index, table);
        self.4.write_self_to_table(index, table);
    }
}

impl<
    T1: Component,
    T2: Component,
    T3: Component,
    T4: Component,
    T5: Component,
    T6: Component,
> Bundle for (T1, T2, T3, T4, T5, T6) {
    open spec fn values(&self) -> Seq<ValueView> {
        self.0.values() + self.1.values() + self.2.values() + self.3.values() + self.4.values()
            + self.5.values()
    }

    fn is_valid(&self) -> (r: bool) {
        proof {
            let v0 = self.0.values();
            let v1 = v0 + self.1.values();
            let v2 = v1 + self.2.values();
            let v3 = v2 + self.3.values();
            let v4 = v3 + self.4.values();
            crate::view::lemma_with_ids_concat(Archetype::empty(), v4, self.5.values());
            crate::view::lemma_with_ids_concat(Archetype::empty(), v3, self.4.values());
            crate::view::lemma_with_ids_concat(Archetype::empty(), v2, self.3.values());
            crate::view::lemma_with_ids_concat(Archetype::empty(), v1, self.2.values());
            crate::view::lemma_with_ids_concat(Archetype::empty(), v0, self.1.values());
        }
        self.0.is_valid() && self.1.is_valid() && self.2.is_valid() && self.3.is_valid()
            && self.4.is_valid() && self.5.is_valid()
    }

    fn set_archetype(&self, archetype: &mut Archetype) {
        proof {
            let a = *archetype;
            let v0 = self.0.values();
            let v1 = v0 + self.1.values();
            let v2 = v1 + self.2.values();
            let v3 = v2 + self.3.values();
            let v4 = v3 + self.4.values();
            crate::view::lemma_with_ids_concat(a, v4, self.5.values());
            crate::view::lemma_with_ids_concat(a, v3, self.4.values());
            crate::view::lemma_with_ids_concat(a, v2, self.3.values());
            crate::view::lemma_with_ids_concat(a, v1, self.2.values());
            crate::view::lemma_with_ids_concat(a, v0, self.1.values());
        }
        self.0.set_archetype(archetype);
        self.1.set_archetype(archetype);
        self.2.set_archetype(archetype);
        self.3.set_archetype(archetype);
        self.4.set_archetype(archetype);
        self.5.set_archetype(archetype);
    }

    fn write_self_to_table(self, index: usize, table: &mut Table) {
        proof {
            let t = table@;
            let v0 = self.0.values();
            let v1 = v0 + self.1.values();
            let v2 = v1 + self.2.values();
            let v3 = v2 + self.3.values();
            let v4 = v3 + self.4.values();
            t.lemma_write_all_concat(index as nat, v4, self.5.values());
            t.lemma_write_all_concat(index as nat, v3, self.4.values());
            t.lemma_write_all_concat(index as nat, v2, self.3.values());
            t.lemma_write_all_concat(index as nat, v1, self.2.values());
            t.lemma_write_all_concat(index as nat, v0, self.1.values());
        }
        self.0.write_self_to_table(index, table);
        self.1.write_self_to_table(index, table);
        self.2.write_self_to_table(index, table);
        self.3.write_self_to_table(index, table);
        self.4.write_self_to_table(index, table);
        self.5.write_self_to_table(index, table);
    }
}

impl<
    T1: Component,
    T2: Component,
    T3: Component,
    T4: Component,
    T5: Component,
    T6: Component,
    T7: Component,
> Bundle for (T1, T2, T3, T4, T5, T6, T7) {
    open spec fn values(&self) -> Seq<ValueView> {
        self.0.values() + self.1.values() + self.2.values() + self.3.values() + self.4.values()
            + self.5.values() + self.6.values()
    }

    fn is_valid(&self) -> (r: bool) {
        proof {
            let v0 = self.0.values();
            let v1 = v0 + self.1.values();
            let v2 = v1 + self.2.values();
            let v3 = v2 + self.3.values();
            let v4 = v3 + self.4.values();
            let v5 = v4 + self.5.values();
            crate::view::lemma_with_ids_concat(Archetype::empty(), v5, self.6.values());
            crate::view::lemma_with_ids_concat(Archetype::empty(), v4, self.5.values());
            crate::view::lemma_with_ids_concat(Archetype::empty(), v3, self.4.values());
            crate::view::lemma_with_ids_concat(Archetype::empty(), v2, self.3.values());
            crate::view::lemma_with_ids_concat(Archetype::empty(), v1, self.2.values());
            crate::view::lemma_with_ids_concat(Archetype::empty(), v0, self.1.values());
        }
        self.0.is_valid() && self.1.is_valid() && self.2.is_valid() && self.3.is_valid()
            && self.4.is_valid() && self.5.is_valid() && self.6.is_valid()
    }

    fn set_archetype(&self, archetype: &mut Archetype) {
        proof {
            let a = *archetype;
            let v0 = self.0.values();
            let v1 = v0 + self.1.values();
            let v2 = v1 + self.2.values();
            let v3 = v2 + self.3.values();
            let v4 = v3 + self.4.values();
            let v5 = v4 + self.5.values();
            crate::view::lemma_with_ids_concat(a, v5, self.6.values());
            crate::view::lemma_with_ids_concat(a, v4, self.5.values());
            crate::view::lemma_with_ids_concat(a, v3, self.4.values());
            crate::view::lemma_with_ids_concat(a, v2, self.3.values());
            crate::view::lemma_with_ids_concat(a, v1, self.2.values());
            crate::view::lemma_with_ids_concat(a, v0, self.1.values());
        }
        self.0.set_archetype(archetype);
        self.1.set_archetype(archetype);
        self.2.set_archetype(archetype);
        self.3.set_archetype(archetype);
        self.4.set_archetype(archetype);
        self.5.set_archetype(archetype);
        self.6.set_archetype(archetype);
    }

    fn write_self_to_table(self, index: usize, table: &mut Table) {
        proof {
            let t = table@;
            let v0 = self.0.values();
            let v1 = v0 + self.1.values();
            let v2 = v1 + self.2.values();
            let v3 = v2 + self.3.values();
            let v4 = v3 + self.4.values();
            let v5 = v4 + self.5.values();
            t.lemma_write_all_concat(index as nat, v5, self.6.values());
            t.lemma_write_all_concat(index as nat, v4, self.5.values());
            t.lemma_write_all_concat(index as nat, v3, self.4.values());
            t.lemma_write_all_concat(index as nat, v2, self.3.values());
            t.lemma_write_all_concat(index as nat, v1, self.2.values());
            t.lemma_write_all_concat(index as nat, v0, self.1.values());
        }
        self.0.write_self_to_table(index, table);
        self.1.write_self_to_table(index, table);
        self.2.write_self_to_table(index, table);
        self.3.write_self_to_table(index, table);
        self.4.write_self_to_table(index, table);
        self.5.write_self_to_table(index, table);
        self.6.write_self_to_table(index, table);
    }
}

impl<
    T1: Component,
    T2: Component,
    T3: Component,
    T4: Component,
    T5: Component,
    T6: Component,
    T7: Component,
    T8: Component,
> Bundle for (T1, T2, T3, T4, T5, T6, T7, T8) {
    open spec fn values(&self) -> Seq<ValueView> {
        self.0.values() + self.1.values() + self.2.values() + self.3.values() + self.4.values()
            + self.5.values() + self.6.values() + self.7.values()
    }

    fn is_valid(&self) -> (r: bool) {
        proof {
            let v0 = self.0.values();
            let v1 = v0 + self.1.values();
            let v2 = v1 + self.2.values();
            let v3 = v2 + self.3.values();
            let v4 = v3 + self.4.values();
            let v5 = v4 + self.5.values();
            let v6 = v5 + self.6.values();
            crate::view::lemma_with_ids_concat(Archetype::empty(), v6, self.7.values());
            crate::view::lemma_with_ids_concat(Archetype::empty(), v5, self.6.values());
            crate::view::lemma_with_ids_concat(Archetype::empty(), v4, self.5.values());
            crate::view::lemma_with_ids_concat(Archetype::empty(), v3, self.4.values());
            crate::view::lemma_with_ids_concat(Archetype::empty(), v2, self.3.values());
            crate::view::lemma_with_ids_concat(Archetype::empty(), v1, self.2.values());
            crate::view::lemma_with_ids_concat(Archetype::empty(), v0, self.1.values());
        }
        self.0.is_valid() && self.1.is_valid() && self.2.is_valid() && self.3.is_valid()
            && self.4.is_valid() && self.5.is_valid() && self.6.is_valid() && self.7.is_valid()
    }

    fn set_archetype(&self, archetype: &mut Archetype) {
        proof {
            let a = *archetype;
            let v0 = self.0.values();
            let v1 = v0 + self.1.values();
            let v2 = v1 + self.2.values();
            let v3 = v2 + self.3.values();
            let v4 = v3 + self.4.values();
            let v5 = v4 + self.5.values();
            let v6 = v5 + self.6.values();
            crate::view::lemma_with_ids_concat(a, v6, self.7.values());
            crate::view::lemma_with_ids_concat(a, v5, self.6.values());
            crate::view::lemma_with_ids_concat(a, v4, self.5.values());
            crate::view::lemma_with_ids_concat(a, v3, self.4.values());
            crate::view::lemma_with_ids_concat(a, v2, self.3.values());
            crate::view::lemma_with_ids_concat(a, v1, self.2.values());
            crate::view::lemma_with_ids_concat(a, v0, self.1.values());
        }
        self.0.set_archetype(archetype);
        self.1.set_archetype(archetype);
        self.2.set_archetype(archetype);
        self.3.set_archetype(archetype);
        self.4.set_archetype(archetype);
        self.5.set_archetype(archetype);
        self.6.set_archetype(archetype);
        self.7.set_archetype(archetype);
    }

    fn write_self_to_table(self, index: usize, table: &mut Table) {
        proof {
            let t = table@;
            let v0 = self.0.values();
            let v1 = v0 + self.1.values();
            let v2 = v1 + self.2.values();
            let v3 = v2 + self.3.values();
            let v4 = v3 + self.4.values();
            let v5 = v4 + self.5.values();
            let v6 = v5 + self.6.values();
            t.lemma_write_all_concat(index as nat, v6, self.7.values());
            t.lemma_write_all_concat(index as nat, v5, self.6.values());
            t.lemma_write_all_concat(index as nat, v4, self.5.values());
            t.lemma_write_all_concat(index as nat, v3, self.4.values());
            t.lemma_write_all_concat(index as nat, v2, self.3.values());
            t.lemma_write_all_concat(index as nat, v1, self.2.values());
            t.lemma_write_all_concat(index as nat, v0, self.1.values());
        }
        self.0.write_self_to_table(index, table);
        self.1.write_self_to_table(index, table);
        self.2.write_self_to_table(index, table);
        self.3.write_self_to_table(index, table);
        self.4.write_self_to_table(index, table);
        self.5.write_self_to_table(index, table);
        self.6.write_self_to_table(index, table);
        self.7.write_self_to_table(index, table);
    }
}

impl<
    T1: Component,
    T2: Component,
    T3: Component,
    T4: Component,
    T5: Component,
    T6: Component,
    T7: Component,
    T8: Component,
    T9: Component,
> Bundle for (T1, T2, T3, T4, T5, T6, T7, T8, T9) {
    open spec fn values(&self) -> Seq<ValueView> {
        self.0.values() + self.1.values() + self.2.values() + self.3.values() + self.4.values()
            + self.5.values() + self.6.values() + self.7.values() + self.8.values()
    }

    fn is_valid(&self) -> (r: bool) {
        proof {
            let v0 = self.0.values();
            let v1 = v0 + self.1.values();
            let v2 = v1 + self.2.values();
            let v3 = v2 + self.3.values();
            let v4 = v3 + self.4.values();
            let v5 = v4 + self.5.values();
            let v6 = v5 + self.6.values();
            let v7 = v6 + self.7.values();
            crate::view::lemma_with_ids_concat(Archetype::empty(), v7, self.8.values());
            crate::view::lemma_with_ids_concat(Archetype::empty(), v6, self.7.values());
            crate::view::lemma_with_ids_concat(Archetype::empty(), v5, self.6.values());
            crate::view::lemma_with_ids_concat(Archetype::empty(), v4, self.5.values());
            crate::view::lemma_with_ids_concat(Archetype::empty(), v3, self.4.values());
            crate::view::lemma_with_ids_concat(Archetype::empty(), v2, self.3.values());
            crate::view::lemma_with_ids_concat(Archetype::empty(), v1, self.2.values());
            crate::view::lemma_with_ids_concat(Archetype::empty(), v0, self.1.values());
        }
        self.0.is_valid() && self.1.is_valid() && self.2.is_valid() && self.3.is_valid()
            && self.4.is_valid() && self.5.is_valid() && self.6.is_valid() && self.7.is_valid()
            && self.8.is_valid()
    }

    fn set_archetype(&self, archetype: &mut Archetype) {
        proof {
            let a = *archetype;
            let v0 = self.0.values();
            let v1 = v0 + self.1.values();
            let v2 = v1 + self.2.values();
            let v3 = v2 + self.3.values();
            let v4 = v3 + self.4.values();
            let v5 = v4 + self.5.values();
            let v6 = v5 + self.6.values();
            let v7 = v6 + self.7.values();
            crate::view::lemma_with_ids_concat(a, v7, self.8.values());
            crate::view::lemma_with_ids_concat(a, v6, self.7.values());
            crate::view::lemma_with_ids_concat(a, v5, self.6.values());
            crate::view::lemma_with_ids_concat(a, v4, self.5.values());
            crate::view::lemma_with_ids_concat(a, v3, self.4.values());
            crate::view::lemma_with_ids_concat(a, v2, self.3.values());
            crate::view::lemma_with_ids_concat(a, v1, self.2.values());
            crate::view::lemma_with_ids_concat(a, v0, self.1.values());
        }
        self.0.set_archetype(archetype);
        self.1.set_archetype(archetype);
        self.2.set_archetype(archetype);
        self.3.set_archetype(archetype);
        self.4.set_archetype(archetype);
        self.5.set_archetype(archetype);
        self.6.set_archetype(archetype);
        self.7.set_archetype(archetype);
        self.8.set_archetype(archetype);
    }

    fn write_self_to_table(self, index: usize, table: &mut Table) {
        proof {
            let t = table@;
            let v0 = self.0.values();
            let v1 = v0 + self.1.values();
            let v2 = v1 + self.2.values();
            let v3 = v2 + self.3.values();
            let v4 = v3 + self.4.values();
            let v5 = v4 + self.5.values();
            let v6 = v5 + self.6.values();
            let v7 = v6 + self.7.values();
            t.lemma_write_all_concat(index as nat, v7, self.8.values());
            t.lemma_write_all_concat(index as nat, v6, self.7.values());
            t.lemma_write_all_concat(index as nat, v5, self.6.values());
            t.lemma_write_all_concat(index as nat, v4, self.5.values());
            t.lemma_write_all_concat(index as nat, v3, self.4.values());
            t.lemma_write_all_concat(index as nat, v2, self.3.values());
            t.lemma_write_all_concat(index as nat, v1, self.2.values());
            t.lemma_write_all_concat(index as nat, v0, self.1.values());
        }
        self.0.write_self_to_table(index, table);
        self.1.write_self_to_table(index, table);
        self.2.write_self_to_table(index, table);
        self.3.write_self_to_table(index, table);
        self.4.write_self_to_table(index, table);
        self.5.write_self_to_table(index, table);
        self.6.write_self_to_table(index, table);
        self.7.write_self_to_table(index, table);
        self.8.write_self_to_table(index, table);
    }
}

impl<
    T1: Component,
    T2: Component,
    T3: Component,
    T4: Component,
    T5: Component,
    T6: Component,
    T7: Component,
    T8: Component,
    T9: Component,
    T10: Component,
> Bundle for (T1, T2, T3, T4, T5, T6, T7, T8, T9, T10) {
    open spec fn values(&self) -> Seq<ValueView> {
        self.0.values() + self.1.values() + self.2.values() + self.3.values() + self.4.values()
            + self.5.values() + self.6.values() + self.7.values() + self.8.values()
            + self.9.values()
    }

    fn is_valid(&self) -> (r: bool) {
        proof {
            let v0 = self.0.values();
            let v1 = v0 + self.1.values();
            let v2 = v1 + self.2.values();
            let v3 = v2 + self.3.values();
            let v4 = v3 + self.4.values();
            let v5 = v4 + self.5.values();
            let v6 = v5 + self.6.values();
            let v7 = v6 + self.7.values();
            let v8 = v7 + self.8.values();
            crate::view::lemma_with_ids_concat(Archetype::empty(), v8, self.9.values());
            crate::view::lemma_with_ids_concat(Archetype::empty(), v7, self.8.values());
            crate::view::lemma_with_ids_concat(Archetype::empty(), v6, self.7.values());
            crate::view::lemma_with_ids_concat(Archetype::empty(), v5, self.6.values());
            crate::view::lemma_with_ids_concat(Archetype::empty(), v4, self.5.values());
            crate::view::lemma_with_ids_concat(Archetype::empty(), v3, self.4.values());
            crate::view::lemma_with_ids_concat(Archetype::empty(), v2, self.3.values());
            crate::view::lemma_with_ids_concat(Archetype::empty(), v1, self.2.values());
            crate::view::lemma_with_ids_concat(Archetype::empty(), v0, self.1.values());
        }
        self.0.is_valid() && self.1.is_valid() && self.2.is_valid() && self.3.is_valid()
            && self.4.is_valid() && self.5.is_valid() && self.6.is_valid() && self.7.is_valid()
            && self.8.is_valid() && self.9.is_valid()
    }

    fn set_archetype(&self, archetype: &mut Archetype) {
        proof {
            let a = *archetype;
            let v0 = self.0.values();
            let v1 = v0 + self.1.values();
            let v2 = v1 + self.2.values();
            let v3 = v2 + self.3.values();
            let v4 = v3 + self.4.values();
            let v5 = v4 + self.5.values();
            let v6 = v5 + self.6.values();
            let v7 = v6 + self.7.values();
            let v8 = v7 + self.8.values();
            crate::view::lemma_with_ids_concat(a, v8, self.9.values());
            crate::view::lemma_with_ids_concat(a, v7, self.8.values());
            crate::view::lemma_with_ids_concat(a, v6, self.7.values());
            crate::view::lemma_with_ids_concat(a, v5, self.6.values());
            crate::view::lemma_with_ids_concat(a, v4, self.5.values());
            crate::view::lemma_with_ids_concat(a, v3, self.4.values());
            crate::view::lemma_with_ids_concat(a, v2, self.3.values());
            crate::view::lemma_with_ids_concat(a, v1, self.2.values());
            crate::view::lemma_with_ids_concat(a, v0, self.1.values());
        }
        self.0.set_archetype(archetype);
        self.1.set_archetype(archetype);
        self.2.set_archetype(archetype);
        self.3.set_archetype(archetype);
        self.4.set_archetype(archetype);
        self.5.set_archetype(archetype);
        self.6.set_archetype(archetype);
        self.7.set_archetype(archetype);
        self.8.set_archetype(archetype);
        self.9.set_archetype(archetype);
    }

    fn write_self_to_table(self, index: usize, table: &mut Table) {
        proof {
            let t = table@;
            let v0 = self.0.values();
            let v1 = v0 + self.1.values();
            let v2 = v1 + self.2.values();
            let v3 = v2 + self.3.values();
            let v4 = v3 + self.4.values();
            let v5 = v4 + self.5.values();
            let v6 = v5 + self.6.values();
            let v7 = v6 + self.7.values();
            let v8 = v7 + self.8.values();
            t.lemma_write_all_concat(index as nat, v8, self.9.values());
            t.lemma_write_all_concat(index as nat, v7, self.8.values());
            t.lemma_write_all_concat(index as nat, v6, self.7.values());
            t.lemma_write_all_concat(index as nat, v5, self.6.values());
            t.lemma_write_all_concat(index as nat, v4, self.5.values());
            t.lemma_write_all_concat(index as nat, v3, self.4.values());
            t.lemma_write_all_concat(index as nat, v2, self.3.values());
            t.lemma_write_all_concat(index as nat, v1, self.2.values());
            t.lemma_write_all_concat(index as nat, v0, self.1.values());
        }
        self.0.write_self_to_table(index, table);
        self.1.write_self_to_table(index, table);
        self.2.write_self_to_table(index, table);
        self.3.write_self_to_table(index, table);
        self.4.write_self_to_table(index, table);
        self.5.write_self_to_table(index, table);
        self.6.write_self_to_table(index, table);
        self.7.write_self_to_table(index, table);
        self.8.write_self_to_table(index, table);
        self.9.write_self_to_table(index, table);
    }
}

impl<
    T1: Component,
    T2: Component,
    T3: Component,
    T4: Component,
    T5: Component,
    T6: Component,
    T7: Component,
    T8: Component,
    T9: Component,
    T10: Component,
    T11: Component,
> Bundle for (T1, T2, T3, T4, T5, T6, T7, T8, T9, T10, T11) {
    open spec fn values(&self) -> Seq<ValueView> {
        self.0.values() + self.1.values() + self.2.values() + self.3.values() + self.4.values()
            + self.5.values() + self.6.values() + self.7.values() + self.8.values()
            + self.9.values() + self.10.values()
    }

    fn is_valid(&self) -> (r: bool) {
        proof {
            let v0 = self.0.values();
            let v1 = v0 + self.1.values();
            let v2 = v1 + self.2.values();
            let v3 = v2 + self.3.values();
            let v4 = v3 + self.4.values();
            let v5 = v4 + self.5.values();
            let v6 = v5 + self.6.values();
            let v7 = v6 + self.7.values();
            let v8 = v7 + self.8.values();
            let v9 = v8 + self.9.values();
            crate::view::lemma_with_ids_concat(Archetype::empty(), v9, self.10.values());
            crate::view::lemma_with_ids_concat(Archetype::empty(), v8, self.9.values());
            crate::view::lemma_with_ids_concat(Archetype::empty(), v7, self.8.values());
            crate::view::lemma_with_ids_concat(Archetype::empty(), v6, self.7.values());
            crate::view::lemma_with_ids_concat(Archetype::empty(), v5, self.6.values());
            crate::view::lemma_with_ids_concat(Archetype::empty(), v4, self.5.values());
            crate::view::lemma_with_ids_concat(Archetype::empty(), v3, self.4.values());
            crate::view::lemma_with_ids_concat(Archetype::empty(), v2, self.3.values());
            crate::view::lemma_with_ids_concat(Archetype::empty(), v1, self.2.values());
            crate::view::lemma_with_ids_concat(Archetype::empty(), v0, self.1.values());
        }
        self.0.is_valid() && self.1.is_valid() && self.2.is_valid() && self.3.is_valid()
            && self.4.is_valid() && self.5.is_valid() && self.6.is_valid() && self.7.is_valid()
            && self.8.is_valid() && self.9.is_valid() && self.10.is_valid()
    }

    fn set_archetype(&self, archetype: &mut Archetype) {
        proof {
            let a = *archetype;
            let v0 = self.0.values();
            let v1 = v0 + self.1.values();
            let v2 = v1 + self.2.values();
            let v3 = v2 + self.3.values();
            let v4 = v3 + self.4.values();
            let v5 = v4 + self.5.values();
            let v6 = v5 + self.6.values();
            let v7 = v6 + self.7.values();
            let v8 = v7 + self.8.values();
            let v9 = v8 + self.9.values();
            crate::view::lemma_with_ids_concat(a, v9, self.10.values());
            crate::view::lemma_with_ids_concat(a, v8, self.9.values());
            crate::view::lemma_with_ids_concat(a, v7, self.8.values());
            crate::view::lemma_with_ids_concat(a, v6, self.7.values());
            crate::view::lemma_with_ids_concat(a, v5, self.6.values());
            crate::view::lemma_with_ids_concat(a, v4, self.5.values());
            crate::view::lemma_with_ids_concat(a, v3, self.4.values());
            crate::view::lemma_with_ids_concat(a, v2, self.3.values());
            crate::view::lemma_with_ids_concat(a, v1, self.2.values());
            crate::view::lemma_with_ids_concat(a, v0, self.1.values());
        }
        self.0.set_archetype(archetype);
        self.1.set_archetype(archetype);
        self.2.set_archetype(archetype);
        self.3.set_archetype(archetype);
        self.4.set_archetype(archetype);
        self.5.set_archetype(archetype);
        self.6.set_archetype(archetype);
        self.7.set_archetype(archetype);
        self.8.set_archetype(archetype);
        self.9.set_archetype(archetype);
        self.10.set_archetype(archetype);
    }

    fn write_self_to_table(self, index: usize, table: &mut Table) {
        proof {
            let t = table@;
            let v0 = self.0.values();
            let v1 = v0 + self.1.values();
            let v2 = v1 + self.2.values();
            let v3 = v2 + self.3.values();
            let v4 = v3 + self.4.values();
            let v5 = v4 + self.5.values();
            let v6 = v5 + self.6.values();
            let v7 = v6 + self.7.values();
            let v8 = v7 + self.8.values();
            let v9 = v8 + self.9.values();
            t.lemma_write_all_concat(index as nat, v9, self.10.values());
            t.lemma_write_all_concat(index as nat, v8, self.9.values());
            t.lemma_write_all_concat(index as nat, v7, self.8.values());
            t.lemma_write_all_concat(index as nat, v6, self.7.values());
            t.lemma_write_all_concat(index as nat, v5, self.6.values());
            t.lemma_write_all_concat(index as nat, v4, self.5.values());
            t.lemma_write_all_concat(index as nat, v3, self.4.values());
            t.lemma_write_all_concat(index as nat, v2, self.3.values());
            t.lemma_write_all_concat(index as nat, v1, self.2.values());
            t.lemma_write_all_concat(index as nat, v0, self.1.values());
        }
        self.0.write_self_to_table(index, table);
        self.1.write_self_to_table(index, table);
        self.2.write_self_to_table(index, table);
        self.3.write_self_to_table(index, table);
        self.4.write_self_to_table(index, table);
        self.5.write_self_to_table(index, table);
        self.6.write_self_to_table(index, table);
        self.7.write_self_to_table(index, table);
        self.8.write_self_to_table(index, table);
        self.9.write_self_to_table(index, table);
        self.10.write_self_to_table(index, table);
    }
}

impl<
    T1: Component,
    T2: Component,
    T3: Component,
    T4: Component,
    T5: Component,
    T6: Component,
    T7: Component,
    T8: Component,
    T9: Component,
    T10: Component,
    T11: Component,
    T12: Component,
> Bundle for (T1, T2, T3, T4, T5, T6, T7, T8, T9, T10, T11, T12) {
    open spec fn values(&self) -> Seq<ValueView> {
        self.0.values() + self.1.values() + self.2.values() + self.3.values() + self.4.values()
            + self.5.values() + self.6.values() + self.7.values() + self.8.values()
            + self.9.values() + self.10.values() + self.11.values()
    }

    fn is_valid(&self) -> (r: bool) {
        proof {
            let v0 = self.0.values();
            let v1 = v0 + self.1.values();
            let v2 = v1 + self.2.values();
            let v3 = v2 + self.3.values();
            let v4 = v3 + self.4.values();
            let v5 = v4 + self.5.values();
            let v6 = v5 + self.6.values();
            let v7 = v6 + self.7.values();
            let v8 = v7 + self.8.values();
            let v9 = v8 + self.9.values();
            let v10 = v9 + self.10.values();
            crate::view::lemma_with_ids_concat(Archetype::empty(), v10, self.11.values());
            crate::view::lemma_with_ids_concat(Archetype::empty(), v9, self.10.values());
            crate::view::lemma_with_ids_concat(Archetype::empty(), v8, self.9.values());
            crate::view::lemma_with_ids_concat(Archetype::empty(), v7, self.8.values());
            crate::view::lemma_with_ids_concat(Archetype::empty(), v6, self.7.values());
            crate::view::lemma_with_ids_concat(Archetype::empty(), v5, self.6.values());
            crate::view::lemma_with_ids_concat(Archetype::empty(), v4, self.5.values());
            crate::view::lemma_with_ids_concat(Archetype::empty(), v3, self.4.values());
            crate::view::lemma_with_ids_concat(Archetype::empty(), v2, self.3.values());
            crate::view::lemma_with_ids_concat(Archetype::empty(), v1, self.2.values());
            crate::view::lemma_with_ids_concat(Archetype::empty(), v0, self.1.values());
        }
        self.0.is_valid() && self.1.is_valid() && self.2.is_valid() && self.3.is_valid()
            && self.4.is_valid() && self.5.is_valid() && self.6.is_valid() && self.7.is_valid()
            && self.8.is_valid() && self.9.is_valid() && self.10.is_valid()
            && self.11.is_valid()
    }

    fn set_archetype(&self, archetype: &mut Archetype) {
        proof {
            let a = *archetype;
            let v0 = self.0.values();
            let v1 = v0 + self.1.values();
            let v2 = v1 + self.2.values();
            let v3 = v2 + self.3.values();
            let v4 = v3 + self.4.values();
            let v5 = v4 + self.5.values();
            let v6 = v5 + self.6.values();
            let v7 = v6 + self.7.values();
            let v8 = v7 + self.8.values();
            let v9 = v8 + self.9.values();
            let v10 = v9 + self.10.values();
            crate::view::lemma_with_ids_concat(a, v10, self.11.values());
            crate::view::lemma_with_ids_concat(a, v9, self.10.values());
            crate::view::lemma_with_ids_concat(a, v8, self.9.values());
            crate::view::lemma_with_ids_concat(a, v7, self.8.values());
            crate::view::lemma_with_ids_concat(a, v6, self.7.values());
            crate::view::lemma_with_ids_concat(a, v5, self.6.values());
            crate::view::lemma_with_ids_concat(a, v4, self.5.values());
            crate::view::lemma_with_ids_concat(a, v3, self.4.values());
            crate::view::lemma_with_ids_concat(a, v2, self.3.values());
            crate::view::lemma_with_ids_concat(a, v1, self.2.values());
            crate::view::lemma_with_ids_concat(a, v0, self.1.values());
        }
        self.0.set_archetype(archetype);
        self.1.set_archetype(archetype);
        self.2.set_archetype(archetype);
        self.3.set_archetype(archetype);
        self.4.set_archetype(archetype);
        self.5.set_archetype(archetype);
        self.6.set_archetype(archetype);
        self.7.set_archetype(archetype);
        self.8.set_archetype(archetype);
        self.9.set_archetype(archetype);
        self.10.set_archetype(archetype);
        self.11.set_archetype(archetype);
    }

    fn write_self_to_table(self, index: usize, table: &mut Table) {
        proof {
            let t = table@;
            let v0 = self.0.values();
            let v1 = v0 + self.1.values();
            let v2 = v1 + self.2.values();
            let v3 = v2 + self.3.values();
            let v4 = v3 + self.4.values();
            let v5 = v4 + self.5.values();
            let v6 = v5 + self.6.values();
            let v7 = v6 + self.7.values();
            let v8 = v7 + self.8.values();
            let v9 = v8 + self.9.values();
            let v10 = v9 + self.10.values();
            t.lemma_write_all_concat(index as nat, v10, self.11.values());
            t.lemma_write_all_concat(index as nat, v9, self.10.values());
            t.lemma_write_all_concat(index as nat, v8, self.9.values());
            t.lemma_write_all_concat(index as nat, v7, self.8.values());
            t.lemma_write_all_concat(index as nat, v6, self.7.values());
            t.lemma_write_all_concat(index as nat, v5, self.6.values());
            t.lemma_write_all_concat(index as nat, v4, self.5.values());
            t.lemma_write_all_concat(index as nat, v3, self.4.values());
            t.lemma_write_all_concat(index as nat, v2, self.3.values());
            t.lemma_write_all_concat(index as nat, v1, self.2.values());
            t.lemma_write_all_concat(index as nat, v0, self.1.values());
        }
        self.0.write_self_to_table(index, table);
        self.1.write_self_to_table(index, table);
        self.2.write_self_to_table(index, table);
        self.3.write_self_to_table(index, table);
        self.4.write_self_to_table(index, table);
        self.5.write_self_to_table(index, table);
        self.6.write_self_to_table(index, table);
        self.7.write_self_to_table(index, table);
        self.8.write_self_to_table(index, table);
        self.9.write_self_to_table(index, table);
        self.10.write_self_to_table(index, table);
        self.11.write_self_to_table(index, table);
    }
}

} // verus!
