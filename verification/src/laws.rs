//! What holds of every well-formed world.

use crate::archetype::Archetype;
use crate::component::MAX_COMPONENTS;
use crate::model::{CommandView, WorldView};
use crate::view::ValueView;
use vstd::prelude::*;

verus! {

/// The empty world is well formed.
pub proof fn law_empty_is_well_formed()
    ensures
        WorldView::empty().wf(),
        WorldView::empty().next_entity() == 1,
{
    let w = WorldView::empty();
    assert(w.free_entities.is_empty());
}

/// After a bundle was spawned, the new entity has each component of the bundle
/// with the value that the bundle has for it (the last one, where the bundle
/// has several of one type), it has `Entity`, and it has no other component.
/// Every other entity is as it was.
pub proof fn law_spawn_then_lookup(w: WorldView, values: Seq<ValueView>)
    requires
        w.wf(),
        w.can_spawn(values),
    ensures
        w.spawn(values).wf(),
        w.spawn(values).is_live(w.next_entity()),
        forall|i: int|
            0 <= i < values.len() && (forall|k: int|
                i < k < values.len() ==> (#[trigger] values[k]).id != values[i].id)
                ==> w.spawn(values).value(w.next_entity(), (#[trigger] values[i]).id) == Some(
                values[i].bytes,
            ),
        forall|id: nat|
            id != 0 && !crate::view::mentions(values, id) ==> (#[trigger] w.spawn(values).value(
                w.next_entity(),
                id,
            )) is None,
        forall|x: nat, id: nat|
            x != w.next_entity() ==> #[trigger] w.spawn(values).value(x, id) == w.value(x, id),
{
    let e = w.next_entity();
    let a = crate::view::bundle_archetype(values);
    let v = w.spawn(values);
    w.lemma_next_entity();
    w.lemma_place(e, values);
    crate::view::lemma_bundle_archetype(values);
    let t0 = w.table(a);
    let row = t0.next_row();
    let t1 = t0.reserve();
    let t2 = t1.write(0, row, crate::entity::Entity::image(e));
    if w.tables.contains_key(a) {
        assert(w.table_ok(a));
    }
    t0.lemma_reserve();
    crate::entity::Entity::lemma_image(e, 0);
    t1.lemma_write_frame(0, row, crate::entity::Entity::image(e));
    assert forall|i: int|
        0 <= i < values.len() && (forall|k: int|
            i < k < values.len() ==> (#[trigger] values[k]).id != values[i].id) implies v.value(
        e,
        (#[trigger] values[i]).id,
    ) == Some(values[i].bytes) by {
        t2.lemma_write_all_value(row, values, i);
        assert(crate::view::mentions(values, values[i].id));
    }
}

/// Adding a component and then removing it leaves the entity with the
/// archetype and the component values it had before; the removal cannot fail.
pub proof fn law_add_then_remove(w: WorldView, e: nat, c: ValueView)
    requires
        w.wf(),
        c.valid(),
        w.add(e, c) is Some,
    ensures
        w.add(e, c).unwrap().value(e, c.id) == Some(c.bytes),
        w.add(e, c).unwrap().remove(e, c.id) is Some,
        w.add(e, c).unwrap().remove(e, c.id).unwrap().wf(),
        w.add(e, c).unwrap().remove(e, c.id).unwrap().archetype_of(e) == w.archetype_of(e),
        forall|id: nat| #[trigger]
            w.add(e, c).unwrap().remove(e, c.id).unwrap().value(e, id) == w.value(e, id),
{
    let from = w.archetype_of(e);
    let to = from.with(c.id);
    let w1 = w.add(e, c).unwrap();
    w.lemma_add(e, c);
    w.lemma_migrate(e, to, from, Some(c));
    from.lemma_members(c.id);
    to.lemma_members(c.id);
    let back = to.without(c.id);
    assert(back@ =~= from@);
    Archetype::lemma_equal_iff_same_members(back, from);
    Archetype::lemma_equal_iff_same_members(to, from);
    // the table the entity came from takes it back
    assert(w1.is_live(e));
    assert(w1.slot_ok(e));
    assert(w1.table_ok(to));
    assert(w1.tables.contains_key(from));
    assert(w1.table_ok(from));
    let src = w1.tables[to];
    let dst = w1.target(e, from);
    assert(dst == w1.tables[from]);
    let k = w.tables[from].kill(w.row_of(e));
    assert(dst == k);
    assert(dst.free.contains(w.row_of(e)));
    let row = dst.next_row();
    crate::view::lemma_least(dst.free, w.row_of(e));
    assert(row < dst.end);
    assert forall|id: nat| #![trigger from.has(id)] from.has(id) implies dst.has(id)
        && dst.col(id).stride == src.col(id).stride && dst.col(id).fits(row) by {
        assert(dst.readable(id, row));
        dst.col(id).lemma_fits_inside(row);
        assert(w.slot_ok(e));
        assert(w.table_ok(from));
        // strides went with the values when the entity moved
        let target = w.target(e, to);
        let new_row = target.next_row();
        if w.tables.contains_key(to) {
            assert(w.table_ok(to));
        } else {
            crate::view::TableView::lemma_like(w.tables[from], to);
        }
        target.lemma_reserve();
        assert(target.reserve().cols == target.cols);
        assert(target.reserve().can_receive(w.tables[from], from, new_row));
        assert forall|j: nat| from.has(j) implies #[trigger] w.tables[from].readable(
            j,
            w.row_of(e),
        ) by {}
        target.reserve().lemma_receive(w.tables[from], from, w.row_of(e), new_row);
        let moved = target.reserve().receive(w.tables[from], from, w.row_of(e), new_row);
        assert(moved.accepts(c.id, c.bytes.len(), new_row)) by {
            assert(moved.cols[c.id as int] == target.cols[c.id as int]);
        }
        moved.lemma_write_frame(c.id, new_row, c.bytes);
        assert(src == moved.write(c.id, new_row, c.bytes));
        assert(src.cols[id as int] == moved.cols[id as int]);
        w.lemma_kill(e);
    }
    assert(w1.can_migrate(e, from, from, None));
    assert(w1.remove(e, c.id) is Some);
    w1.lemma_remove(e, c.id);
    w1.lemma_migrate(e, from, from, None);
}

/// Removing a component a second time fails and changes nothing.
pub proof fn law_remove_twice(w: WorldView, e: nat, id: nat)
    requires
        w.wf(),
        0 < id < MAX_COMPONENTS,
    ensures
        w.remove(e, id) matches Some(w1) ==> w1.remove(e, id) is None,
        w.remove(e, id) is None ==> w.apply(CommandView::Remove { entity: e, id }) == w,
        w.apply(CommandView::Remove { entity: e, id }).apply(CommandView::Remove { entity: e, id })
            == w.apply(CommandView::Remove { entity: e, id }),
{
    if let Some(w1) = w.remove(e, id) {
        let from = w.archetype_of(e);
        let to = from.without(id);
        w.lemma_remove(e, id);
        w.lemma_migrate(e, to, to, None);
        from.lemma_members(id);
        to.lemma_members(id);
        assert(to.without(id)@ =~= to@);
        Archetype::lemma_equal_iff_same_members(to.without(id), to);
    }
}

/// After an entity was despawned, the next spawn reuses a freed number: the
/// least one, which is that of the despawned entity where no other is free,
/// and never a number that was not handed out before.
pub proof fn law_despawn_then_spawn_reuses(w: WorldView, e: nat)
    requires
        w.wf(),
        e != 0,
        w.is_live(e),
    ensures
        w.despawn(e).free_entities == w.free_entities.insert(e),
        crate::view::is_least(w.despawn(e).free_entities, w.despawn(e).next_entity()),
        w.despawn(e).next_entity() <= e,
        w.despawn(e).next_entity() < w.entities.len(),
        w.free_entities.is_empty() ==> w.despawn(e).next_entity() == e,
        forall|id: nat| (#[trigger] w.despawn(e).value(e, id)) is None,
{
    let w1 = w.despawn(e);
    w.lemma_despawn(e);
    assert(w1.free_entities.contains(e));
    crate::view::lemma_least(w1.free_entities, e);
}

/// Despawning an entity a second time changes nothing, and neither does
/// despawning the mark of dead rows or an entity that is not alive.
pub proof fn law_despawn_twice(w: WorldView, e: nat)
    requires
        w.wf(),
    ensures
        w.despawn(e).despawn(e) == w.despawn(e),
        e == 0 || !w.is_live(e) ==> w.despawn(e) == w,
{
    w.lemma_despawn(e);
}

/// A structural change that is issued while a system runs changes no entity
/// and no table: it waits at the end of the queue. When the last running
/// system has finished, the changes that waited have been carried out in the
/// order they were issued.
pub proof fn law_changes_wait_for_running_systems(w: WorldView, c: CommandView)
    requires
        w.wf(),
        c.valid(),
        w.running > 0,
    ensures
        w.issue(c).wf(),
        w.issue(c).entities == w.entities,
        w.issue(c).tables == w.tables,
        w.issue(c).free_entities == w.free_entities,
        forall|x: nat, id: nat| #[trigger] w.issue(c).value(x, id) == w.value(x, id),
        w.issue(c).commands == w.commands.push(c),
        w.running == 1 ==> w.issue(c).end_run() == (WorldView {
            running: 0,
            commands: Seq::empty(),
            ..w
        }).apply_all(w.commands).apply(c),
{
    w.lemma_issue(c);
    let cs = w.commands.push(c);
    assert(cs.drop_last() =~= w.commands);
}

/// A structural change that is issued while no system runs is carried out at once.
pub proof fn law_changes_apply_at_once(w: WorldView, c: CommandView)
    requires
        w.wf(),
        c.valid(),
        w.running == 0,
    ensures
        w.issue(c) == w.apply(c),
        w.issue(c).wf(),
{
    w.lemma_issue(c);
}

/// What the rows below `n` of the table of archetype `a` hold: each live entity
/// of that archetype whose row is below `n`, once and in the order of the
/// rows, and 0 for each dead row unless only live rows are asked for.
proof fn lemma_rows_below(w: WorldView, a: Archetype, n: nat, live_only: bool)
    requires
        w.wf(),
        w.tables.contains_key(a),
        n <= w.tables[a].end,
    ensures
        forall|e: nat|
            e != 0
                ==> (#[trigger] w.tables[a].rows_below(n, live_only).contains(e) <==> (w.is_live(e)
                && w.archetype_of(e) == a && w.row_of(e) < n)),
        live_only ==> !w.tables[a].rows_below(n, live_only).contains(0),
        forall|i: int, j: int|
            0 <= i < j < w.tables[a].rows_below(n, live_only).len() && w.tables[a].rows_below(
                n,
                live_only,
            )[i] != 0 && w.tables[a].rows_below(n, live_only)[j] != 0 ==> w.row_of(
                w.tables[a].rows_below(n, live_only)[i],
            ) < w.row_of(w.tables[a].rows_below(n, live_only)[j]),
    decreases n,
{
    let t = w.tables[a];
    let s = t.rows_below(n, live_only);
    assert(w.table_ok(a));
    if n > 0 {
        let r = (n - 1) as nat;
        let front = t.rows_below(r, live_only);
        let x = t.entity_at(r);
        lemma_rows_below(w, a, r, live_only);
        assert(w.row_ok(a, r));
        assert forall|e: nat| e != 0 implies (#[trigger] s.contains(e) <==> (w.is_live(e)
            && w.archetype_of(e) == a && w.row_of(e) < n)) by {
            if s.contains(e) {
                let i = choose|i: int| 0 <= i < s.len() && s[i] == e;
                if i < front.len() {
                    assert(front[i] == e);
                    assert(front.contains(e));
                }
            }
            if w.is_live(e) && w.archetype_of(e) == a && w.row_of(e) < n {
                assert(w.slot_ok(e));
                if w.row_of(e) < r {
                    assert(front.contains(e));
                    let i = choose|i: int| 0 <= i < front.len() && front[i] == e;
                    assert(s[i] == e);
                } else {
                    assert(x == e);
                    assert(s[front.len() as int] == e);
                }
            }
        }
        if live_only {
            if s.contains(0) {
                let i = choose|i: int| 0 <= i < s.len() && s[i] == 0;
                if i < front.len() {
                    assert(front[i] == 0);
                    assert(front.contains(0));
                }
            }
        }
        assert forall|i: int, j: int|
            0 <= i < j < s.len() && s[i] != 0 && s[j] != 0 implies w.row_of(
            s[i],
        ) < w.row_of(s[j]) by {
            if j < front.len() {
                assert(front[i] == s[i] && front[j] == s[j]);
            } else {
                assert(front[i] == s[i]);
                assert(front.contains(s[i]));
                assert(s[j] == x);
            }
        }
    }
}

/// What a walk over the tables of the archetypes `keys` holds.
proof fn lemma_rows(w: WorldView, keys: Seq<Archetype>, live_only: bool)
    requires
        w.wf(),
        keys.no_duplicates(),
        forall|i: int| 0 <= i < keys.len() ==> w.tables.contains_key(#[trigger] keys[i]),
    ensures
        forall|e: nat|
            e != 0 ==> (#[trigger] w.rows(keys, live_only).contains(e) <==> (w.is_live(e)
                && keys.contains(w.archetype_of(e)))),
        live_only ==> !w.rows(keys, live_only).contains(0),
        forall|i: int, j: int|
            0 <= i < j < w.rows(keys, live_only).len() && w.rows(keys, live_only)[i] != 0 && w.rows(
                keys,
                live_only,
            )[j] != 0
                ==> w.rows(keys, live_only)[i] != w.rows(keys, live_only)[j] && (w.archetype_of(
                w.rows(keys, live_only)[i],
            ) == w.archetype_of(w.rows(keys, live_only)[j]) ==> w.row_of(
                w.rows(keys, live_only)[i],
            ) < w.row_of(w.rows(keys, live_only)[j])),
    decreases keys.len(),
{
    let s = w.rows(keys, live_only);
    if keys.len() > 0 {
        let front_keys = keys.drop_last();
        let a = keys.last();
        let front = w.rows(front_keys, live_only);
        let seg = w.tables[a].rows(live_only);
        assert(keys[keys.len() - 1] == a);
        assert forall|i: int| 0 <= i < front_keys.len() implies w.tables.contains_key(
            #[trigger] front_keys[i],
        ) by {
            assert(front_keys[i] == keys[i]);
        }
        assert(front_keys.no_duplicates());
        lemma_rows(w, front_keys, live_only);
        lemma_rows_below(w, a, w.tables[a].end, live_only);
        assert(!front_keys.contains(a)) by {
            if front_keys.contains(a) {
                let i = choose|i: int| 0 <= i < front_keys.len() && front_keys[i] == a;
                assert(keys[i] == keys[keys.len() - 1]);
            }
        }
        assert forall|b: Archetype| keys.contains(b) <==> (front_keys.contains(b) || b == a) by {
            if keys.contains(b) {
                let i = choose|i: int| 0 <= i < keys.len() && keys[i] == b;
                if i < front_keys.len() {
                    assert(front_keys[i] == b);
                }
            }
            if front_keys.contains(b) {
                let i = choose|i: int| 0 <= i < front_keys.len() && front_keys[i] == b;
                assert(keys[i] == b);
            }
        }
        assert forall|e: nat| e != 0 implies (#[trigger] s.contains(e) <==> (w.is_live(e)
            && keys.contains(w.archetype_of(e)))) by {
            if s.contains(e) {
                let i = choose|i: int| 0 <= i < s.len() && s[i] == e;
                if i < front.len() {
                    assert(front[i] == e);
                    assert(front.contains(e));
                } else {
                    assert(seg[i - front.len()] == e);
                    assert(seg.contains(e));
                }
            }
            if w.is_live(e) && keys.contains(w.archetype_of(e)) {
                assert(w.slot_ok(e));
                if w.archetype_of(e) == a {
                    assert(seg.contains(e));
                    let i = choose|i: int| 0 <= i < seg.len() && seg[i] == e;
                    assert(s[front.len() + i] == e);
                } else {
                    assert(front.contains(e));
                    let i = choose|i: int| 0 <= i < front.len() && front[i] == e;
                    assert(s[i] == e);
                }
            }
        }
        if live_only {
            if s.contains(0) {
                let i = choose|i: int| 0 <= i < s.len() && s[i] == 0;
                if i < front.len() {
                    assert(front[i] == 0);
                    assert(front.contains(0));
                } else {
                    assert(seg[i - front.len()] == 0);
                    assert(seg.contains(0));
                }
            }
        }
        assert forall|i: int, j: int| 0 <= i < j < s.len() && s[i] != 0 && s[j] != 0 implies s[i]
            != s[j] && (w.archetype_of(s[i]) == w.archetype_of(s[j]) ==> w.row_of(s[i])
            < w.row_of(s[j])) by {
            if j < front.len() {
                assert(front[i] == s[i] && front[j] == s[j]);
            } else if i >= front.len() {
                assert(seg[i - front.len()] == s[i] && seg[j - front.len()] == s[j]);
            } else {
                assert(front[i] == s[i]);
                assert(front.contains(s[i]));
                assert(seg[j - front.len()] == s[j]);
                assert(seg.contains(s[j]));
            }
        }
    }
}

/// A query visits exactly the live entities whose archetype meets it, each
/// once; entities of one table come in the order of their rows.
pub proof fn law_query_visits_the_matching(
    w: WorldView,
    chosen: spec_fn(Archetype) -> bool,
    out: Seq<nat>,
)
    requires
        w.wf(),
        w.visits(chosen, true, out),
    ensures
        out.no_duplicates(),
        forall|e: nat| #[trigger] out.contains(e) <==> (w.is_live(e) && chosen(w.archetype_of(e))),
        forall|i: int, j: int|
            0 <= i < j < out.len() && w.archetype_of(out[i]) == w.archetype_of(out[j]) ==> w.row_of(
                out[i],
            ) < w.row_of(out[j]),
{
    let keys = choose|keys: Seq<Archetype>|
        {
            &&& keys.no_duplicates()
            &&& forall|a: Archetype| keys.contains(a) <==> (w.tables.contains_key(a) && chosen(a))
            &&& out == #[trigger] w.rows(keys, true)
        };
    assert forall|i: int| 0 <= i < keys.len() implies w.tables.contains_key(#[trigger] keys[i]) by {
        assert(keys.contains(keys[i]));
    }
    lemma_rows(w, keys, true);
    assert forall|e: nat| #[trigger] out.contains(e) <==> (w.is_live(e) && chosen(
        w.archetype_of(e),
    )) by {
        if w.is_live(e) {
            assert(w.slot_ok(e));
        }
    }
    assert forall|i: int, j: int| 0 <= i < j < out.len() implies out[i] != out[j] by {
        assert(out.contains(out[i]));
        assert(out.contains(out[j]));
    }
    assert forall|i: int, j: int|
        0 <= i < j < out.len() && w.archetype_of(out[i]) == w.archetype_of(out[j]) implies w.row_of(
        out[i],
    ) < w.row_of(out[j]) by {
        assert(out.contains(out[i]));
        assert(out.contains(out[j]));
    }
}

/// A walk over the tables of the chosen archetypes visits every live entity of
/// such an archetype once, and beside them only dead rows, which give 0.
pub proof fn law_walk_visits_the_chosen(
    w: WorldView,
    chosen: spec_fn(Archetype) -> bool,
    out: Seq<nat>,
)
    requires
        w.wf(),
        w.visits(chosen, false, out),
    ensures
        forall|e: nat|
            e != 0
                ==> (#[trigger] out.contains(e) <==> (w.is_live(e) && chosen(w.archetype_of(e)))),
        forall|i: int, j: int| 0 <= i < j < out.len() && out[i] == out[j] ==> out[i] == 0,
{
    let keys = choose|keys: Seq<Archetype>|
        {
            &&& keys.no_duplicates()
            &&& forall|a: Archetype| keys.contains(a) <==> (w.tables.contains_key(a) && chosen(a))
            &&& out == #[trigger] w.rows(keys, false)
        };
    assert forall|i: int| 0 <= i < keys.len() implies w.tables.contains_key(#[trigger] keys[i]) by {
        assert(keys.contains(keys[i]));
    }
    lemma_rows(w, keys, false);
    assert forall|e: nat| e != 0 implies (#[trigger] out.contains(e) <==> (w.is_live(e) && chosen(
        w.archetype_of(e),
    ))) by {
        if w.is_live(e) {
            assert(w.slot_ok(e));
        }
    }
}

} // verus!
