//! The objects and the board tell the same story: what that means, and
//! the proofs that setting up a level, setting an object down and the
//! creatures' turn keep it so.

use vstd::prelude::*;
use crate::grid::{Cell, Grid};
use crate::kind::ObjectID;
use crate::object::Object;
use crate::rules::as_cell;
use crate::adjacency::diagonal_offsets;
use crate::turn::{
    assassin_slots, assassin_targets, can_step, is_killed, is_prey, is_stepped, resolved,
    roam_link, roamed, roams_once, step_x, step_y, stepped_slots, strikes, struck_slots,
    struck_targets, survivors, TurnOutcome,
};
use crate::asset::{footprint_x, footprint_y, ObjectAssetServer};
use crate::drop::{
    covered, drop_accepted, drop_cells, drop_consumed, drop_meets, drop_x, drop_y, set_down,
};
use crate::legal::{lemma_valid_cell_is_occupiable, occupiable};
use crate::level::loaded_slots;
use crate::object::{is_made, ObjectDesc};
use crate::rules::{footprint_seq, has_rule, valid_cells};
use crate::ufo::UFO;
use crate::world::{covers, stamp, World};

verus! {

/// Cell `j` of `object` is the cell with index `i`.
pub open spec fn cell_is(object: Object, grid: &Grid, j: int, i: int) -> bool {
    0 <= j < object.occupied@.len() && grid.index_of(
        object.occupied@[j].x as int,
        object.occupied@[j].y as int,
    ) == i
}

/// `object` covers the cell with index `i`.
pub open spec fn covers_slot(object: Object, grid: &Grid, i: int) -> bool {
    exists|j: int| #[trigger] cell_is(object, grid, j, i)
}

/// Every cell of object `n` is a cell of the board, and the board knows
/// the object to stand there.
pub open spec fn is_recorded(
    objects: Seq<Object>,
    slots: Seq<Option<(u64, ObjectID)>>,
    grid: &Grid,
    n: int,
) -> bool {
    &&& objects[n].occupied@.len() >= 1
    &&& forall|j: int|
        0 <= j < objects[n].occupied@.len() ==> grid.open_at(
            (#[trigger] objects[n].occupied@[j]).x as int,
            objects[n].occupied@[j].y as int,
        ) && slots[grid.index_of(
            objects[n].occupied@[j].x as int,
            objects[n].occupied@[j].y as int,
        )] == Some((objects[n].entity, objects[n].id))
}

/// Object `n` is the one that the board knows to stand on cell `i`.
pub open spec fn owns(
    objects: Seq<Object>,
    slots: Seq<Option<(u64, ObjectID)>>,
    grid: &Grid,
    n: int,
    i: int,
) -> bool {
    0 <= n < objects.len() && covers_slot(objects[n], grid, i) && slots[i] == Some(
        (objects[n].entity, objects[n].id),
    )
}

/// Whatever the board knows to stand on cell `i` is one of the objects,
/// and covers that cell.
pub open spec fn is_claimed(
    objects: Seq<Object>,
    slots: Seq<Option<(u64, ObjectID)>>,
    grid: &Grid,
    i: int,
) -> bool {
    slots[i] is Some ==> exists|n: int| #[trigger] owns(objects, slots, grid, n, i)
}

/// The objects and the board tell the same story: every object stands on
/// cells of the board that the board knows as its own, everything that
/// the board knows to stand somewhere is an object that covers that cell,
/// and no two objects go by the same identifier.
pub open spec fn agrees(
    objects: Seq<Object>,
    slots: Seq<Option<(u64, ObjectID)>>,
    grid: &Grid,
) -> bool {
    &&& grid.wf()
    &&& slots.len() == grid.cells()
    &&& forall|n: int| 0 <= n < objects.len() ==> #[trigger] is_recorded(objects, slots, grid, n)
    &&& forall|i: int| 0 <= i < slots.len() ==> #[trigger] is_claimed(objects, slots, grid, i)
    &&& forall|n: int, m: int|
        0 <= n < objects.len() && 0 <= m < objects.len() && n != m ==> (
        #[trigger] objects[n]).entity != (#[trigger] objects[m]).entity
}

/// The creatures that roam and the prey of the assassins cover one cell each.
pub open spec fn creatures_are_single(objects: Seq<Object>) -> bool {
    forall|n: int|
        0 <= n < objects.len() && ((#[trigger] objects[n]).id == ObjectID::Villager || objects[n].id
            == ObjectID::Cow || objects[n].id == ObjectID::King) ==> objects[n].occupied@.len()
            == 1
}

/// A step keeps the story straight: when object `n` covers one cell and
/// steps to an empty cell of the board, the objects and the board still
/// agree.
pub proof fn lemma_step_keeps_agreement(
    objects: Seq<Object>,
    slots: Seq<Option<(u64, ObjectID)>>,
    grid: &Grid,
    n: int,
    choice: int,
    after: Seq<Object>,
)
    requires
        agrees(objects, slots, grid),
        0 <= n < objects.len(),
        objects[n].occupied@.len() == 1,
        0 <= choice < 4,
        can_step(
            slots,
            grid,
            objects[n].occupied@[0].x as int,
            objects[n].occupied@[0].y as int,
            choice,
        ),
        after.len() == objects.len(),
        forall|m: int| 0 <= m < objects.len() && m != n ==> after[m] == objects[m],
        is_stepped(objects[n], after[n], choice),
    ensures
        agrees(after, stepped_slots(slots, grid, objects[n].entity, objects[n], choice), grid),
{
    let before = objects[n];
    let ax = before.occupied@[0].x as int;
    let ay = before.occupied@[0].y as int;
    let tx = step_x(ax, ay, choice);
    let ty = step_y(ay, choice);
    let from = grid.index_of(ax, ay);
    let to = grid.index_of(tx, ty);
    let next = stepped_slots(slots, grid, before.entity, before, choice);
    assert(is_recorded(objects, slots, grid, n));
    assert(grid.open_at(ax, ay));
    grid.lemma_index_of(ax, ay);
    grid.lemma_index_of(tx, ty);
    grid.lemma_extent(tx, ty);
    assert(slots[from] == Some((before.entity, before.id)));
    assert(slots[to] is None);
    assert(from != to);
    assert(after[n].occupied@[0] == as_cell(tx, ty));
    assert forall|m: int| 0 <= m < after.len() implies #[trigger] is_recorded(
        after,
        next,
        grid,
        m,
    ) by {
        if m != n {
            assert(is_recorded(objects, slots, grid, m));
            assert forall|j: int| 0 <= j < after[m].occupied@.len() implies grid.open_at(
                (#[trigger] after[m].occupied@[j]).x as int,
                after[m].occupied@[j].y as int,
            ) && next[grid.index_of(
                after[m].occupied@[j].x as int,
                after[m].occupied@[j].y as int,
            )] == Some((after[m].entity, after[m].id)) by {
                let c = objects[m].occupied@[j];
                let i = grid.index_of(c.x as int, c.y as int);
                grid.lemma_index_of(c.x as int, c.y as int);
                assert(slots[i] == Some((objects[m].entity, objects[m].id)));
                assert(objects[m].entity != objects[n].entity);
            }
        }
    }
    assert forall|i: int| 0 <= i < next.len() implies #[trigger] is_claimed(
        after,
        next,
        grid,
        i,
    ) by {
        if next[i] is Some {
            if i == to {
                assert(cell_is(after[n], grid, 0, i));
                assert(owns(after, next, grid, n, i));
            } else {
                assert(i != from);
                assert(is_claimed(objects, slots, grid, i));
                let m = choose|m: int| #[trigger] owns(objects, slots, grid, m, i);
                if m == n {
                    let j = choose|j: int| #[trigger] cell_is(objects[n], grid, j, i);
                    assert(j == 0);
                } else {
                    let j = choose|j: int| #[trigger] cell_is(objects[m], grid, j, i);
                    assert(cell_is(after[m], grid, j, i));
                    assert(owns(after, next, grid, m, i));
                }
            }
        }
    }
    assert forall|a: int, b: int|
        0 <= a < after.len() && 0 <= b < after.len() && a != b implies (#[trigger] after[a]).entity
        != (#[trigger] after[b]).entity by {
        assert(objects[a].entity != objects[b].entity);
    }
}

/// One creature's turn keeps the story straight.
proof fn lemma_link_keeps_agreement(
    id: ObjectID,
    mid: Seq<Object>,
    mid_slots: Seq<Option<(u64, ObjectID)>>,
    grid: &Grid,
    i: int,
    after: Seq<Object>,
    after_slots: Seq<Option<(u64, ObjectID)>>,
)
    requires
        agrees(mid, mid_slots, grid),
        creatures_are_single(mid),
        id == ObjectID::Villager || id == ObjectID::Cow,
        0 <= i < mid.len(),
        roam_link(id, mid, mid_slots, grid, i, after, after_slots),
    ensures
        agrees(after, after_slots, grid),
        creatures_are_single(after),
{
    if mid[i].id == id {
        assert(roams_once(mid[i], mid_slots, grid, after[i], after_slots));
        if after[i] == mid[i] && after_slots == mid_slots {
            assert(after =~= mid);
        } else {
            let choice = choose|choice: int|
                0 <= choice < 4 && can_step(
                    mid_slots,
                    grid,
                    mid[i].occupied@[0].x as int,
                    mid[i].occupied@[0].y as int,
                    choice,
                ) && #[trigger] is_stepped(mid[i], after[i], choice) && after_slots
                    == stepped_slots(mid_slots, grid, mid[i].entity, mid[i], choice);
            lemma_step_keeps_agreement(mid, mid_slots, grid, i, choice, after);
            assert forall|n: int|
                0 <= n < after.len() && ((#[trigger] after[n]).id == ObjectID::Villager
                    || after[n].id == ObjectID::Cow || after[n].id == ObjectID::King)
                implies after[n].occupied@.len() == 1 by {
                if n != i {
                    assert(after[n] == mid[n]);
                }
            }
        }
    } else {
        assert(after =~= mid);
    }
}

/// While the villagers or the cows roam, the objects and the board keep
/// telling the same story, as long as every creature covers one cell.
pub proof fn lemma_roaming_keeps_agreement(
    id: ObjectID,
    before: Seq<Object>,
    before_slots: Seq<Option<(u64, ObjectID)>>,
    grid: &Grid,
    n: nat,
    after: Seq<Object>,
    after_slots: Seq<Option<(u64, ObjectID)>>,
)
    requires
        agrees(before, before_slots, grid),
        creatures_are_single(before),
        id == ObjectID::Villager || id == ObjectID::Cow,
        n <= before.len(),
        roamed(id, before, before_slots, grid, n, after, after_slots),
    ensures
        agrees(after, after_slots, grid),
        creatures_are_single(after),
        after.len() == before.len(),
    decreases n,
{
    if n > 0 {
        let (mid, mid_slots) = choose|mid: Seq<Object>, mid_slots: Seq<Option<(u64, ObjectID)>>|
            roamed(id, before, before_slots, grid, (n - 1) as nat, mid, mid_slots)
                && #[trigger] roam_link(id, mid, mid_slots, grid, n - 1, after, after_slots);
        lemma_roaming_keeps_agreement(id, before, before_slots, grid, (n - 1) as nat, mid, mid_slots);
        lemma_link_keeps_agreement(id, mid, mid_slots, grid, n - 1, after, after_slots);
    }
}

/// Slot `i` held the prey `entity` and is empty now.
pub open spec fn emptied_for(
    before: Seq<Option<(u64, ObjectID)>>,
    after: Seq<Option<(u64, ObjectID)>>,
    i: int,
    entity: u64,
) -> bool {
    &&& 0 <= i < before.len()
    &&& after[i] is None
    &&& before[i] matches Some(occupant)
    &&& occupant.0 == entity
    &&& is_prey(occupant.1)
}

/// Some slot held the prey `entity` and is empty now.
pub open spec fn was_emptied(
    before: Seq<Option<(u64, ObjectID)>>,
    after: Seq<Option<(u64, ObjectID)>>,
    entity: u64,
) -> bool {
    exists|i: int| #[trigger] emptied_for(before, after, i, entity)
}

/// Slot `i` is as it was, or it held one of the killed and is empty now.
pub open spec fn kept_or_emptied(
    before: Seq<Option<(u64, ObjectID)>>,
    after: Seq<Option<(u64, ObjectID)>>,
    killed: Seq<u64>,
    i: int,
) -> bool {
    ||| after[i] == before[i]
    ||| {
        &&& after[i] is None
        &&& before[i] matches Some(occupant)
        &&& is_prey(occupant.1)
        &&& is_killed(killed, occupant.0)
    }
}

/// Between `before` and `after` the slots of the `killed` were emptied,
/// and nothing else changed.
pub open spec fn culled(
    before: Seq<Option<(u64, ObjectID)>>,
    after: Seq<Option<(u64, ObjectID)>>,
    killed: Seq<u64>,
) -> bool {
    &&& after.len() == before.len()
    &&& forall|i: int| 0 <= i < before.len() ==> #[trigger] kept_or_emptied(before, after, killed, i)
    &&& forall|k: int| 0 <= k < killed.len() ==> was_emptied(before, after, #[trigger] killed[k])
}

proof fn lemma_struck_is_culled(
    slots: Seq<Option<(u64, ObjectID)>>,
    grid: &Grid,
    ax: int,
    ay: int,
    n: nat,
)
    requires
        grid.wf(),
        slots.len() == grid.cells(),
        n <= 4,
    ensures
        culled(slots, struck_slots(slots, grid, ax, ay, n), struck_targets(slots, grid, ax, ay, n)),
    decreases n,
{
    let now = struck_slots(slots, grid, ax, ay, n);
    let dead = struck_targets(slots, grid, ax, ay, n);
    if n == 0 {
        assert forall|i: int| 0 <= i < slots.len() implies #[trigger] kept_or_emptied(
            slots,
            now,
            dead,
            i,
        ) by {}
    } else {
        let k = (n - 1) as int;
        let rest = struck_slots(slots, grid, ax, ay, k as nat);
        let targets = struck_targets(slots, grid, ax, ay, k as nat);
        lemma_struck_is_culled(slots, grid, ax, ay, k as nat);
        if strikes(rest, grid, ax, ay, k) {
            let tx = ax + diagonal_offsets(ay)[k].0;
            let ty = ay + diagonal_offsets(ay)[k].1;
            let idx = grid.index_of(tx, ty);
            grid.lemma_index_of(tx, ty);
            let prey = rest[idx].unwrap();
            assert(kept_or_emptied(slots, rest, targets, idx));
            assert(slots[idx] == rest[idx]);
            assert(dead[targets.len() as int] == prey.0);
            assert forall|i: int| 0 <= i < slots.len() implies #[trigger] kept_or_emptied(
                slots,
                now,
                dead,
                i,
            ) by {
                assert(kept_or_emptied(slots, rest, targets, i));
                if i != idx && rest[i] != slots[i] {
                    let e = slots[i].unwrap().0;
                    let w = choose|w: int| 0 <= w < targets.len() && targets[w] == e;
                    assert(dead[w] == e);
                }
            }
            assert forall|m: int| 0 <= m < dead.len() implies was_emptied(
                slots,
                now,
                #[trigger] dead[m],
            ) by {
                if m < targets.len() {
                    assert(was_emptied(slots, rest, targets[m]));
                    let i = choose|i: int| #[trigger] emptied_for(slots, rest, i, targets[m]);
                    assert(emptied_for(slots, now, i, dead[m]));
                } else {
                    assert(emptied_for(slots, now, idx, dead[m]));
                }
            }
        }
    }
}

proof fn lemma_culled_twice(
    a: Seq<Option<(u64, ObjectID)>>,
    b: Seq<Option<(u64, ObjectID)>>,
    c: Seq<Option<(u64, ObjectID)>>,
    first: Seq<u64>,
    second: Seq<u64>,
)
    requires
        culled(a, b, first),
        culled(b, c, second),
    ensures
        culled(a, c, first + second),
{
    let all = first + second;
    assert forall|i: int| 0 <= i < a.len() implies #[trigger] kept_or_emptied(a, c, all, i) by {
        assert(kept_or_emptied(a, b, first, i));
        assert(kept_or_emptied(b, c, second, i));
        if b[i] != a[i] {
            let e = a[i].unwrap().0;
            let w = choose|w: int| 0 <= w < first.len() && first[w] == e;
            assert(all[w] == e);
        } else if c[i] != b[i] {
            let e = b[i].unwrap().0;
            let w = choose|w: int| 0 <= w < second.len() && second[w] == e;
            assert(all[first.len() + w] == e);
        }
    }
    assert forall|m: int| 0 <= m < all.len() implies was_emptied(a, c, #[trigger] all[m]) by {
        if m < first.len() {
            assert(was_emptied(a, b, first[m]));
            let i = choose|i: int| #[trigger] emptied_for(a, b, i, first[m]);
            assert(kept_or_emptied(b, c, second, i));
            assert(emptied_for(a, c, i, all[m]));
        } else {
            assert(was_emptied(b, c, second[m - first.len()]));
            let i = choose|i: int| #[trigger] emptied_for(b, c, i, second[m - first.len()]);
            assert(kept_or_emptied(a, b, first, i));
            assert(emptied_for(a, c, i, all[m]));
        }
    }
}

proof fn lemma_assassins_cull(
    objects: Seq<Object>,
    slots: Seq<Option<(u64, ObjectID)>>,
    grid: &Grid,
    n: nat,
)
    requires
        grid.wf(),
        slots.len() == grid.cells(),
    ensures
        culled(
            slots,
            assassin_slots(objects, slots, grid, n),
            assassin_targets(objects, slots, grid, n),
        ),
    decreases n,
{
    if n == 0 {
        assert forall|i: int| 0 <= i < slots.len() implies #[trigger] kept_or_emptied(
            slots,
            assassin_slots(objects, slots, grid, n),
            assassin_targets(objects, slots, grid, n),
            i,
        ) by {}
    } else {
        let rest = assassin_slots(objects, slots, grid, (n - 1) as nat);
        let targets = assassin_targets(objects, slots, grid, (n - 1) as nat);
        lemma_assassins_cull(objects, slots, grid, (n - 1) as nat);
        if objects[n - 1].id == ObjectID::Assassin {
            let ax = objects[n - 1].occupied@[0].x as int;
            let ay = objects[n - 1].occupied@[0].y as int;
            lemma_struck_is_culled(rest, grid, ax, ay, 4);
            lemma_culled_twice(
                slots,
                rest,
                struck_slots(rest, grid, ax, ay, 4),
                targets,
                struck_targets(rest, grid, ax, ay, 4),
            );
        }
    }
}

/// The place among the first `n` objects of survivor `s`.
pub open spec fn origin(objects: Seq<Object>, killed: Seq<u64>, n: nat, s: int) -> int
    decreases n,
{
    if n == 0 {
        0
    } else if is_killed(killed, objects[n - 1].entity) || s < survivors(
        objects,
        killed,
        (n - 1) as nat,
    ).len() {
        origin(objects, killed, (n - 1) as nat, s)
    } else {
        n - 1
    }
}

proof fn lemma_origin(objects: Seq<Object>, killed: Seq<u64>, n: nat, s: int)
    requires
        n <= objects.len(),
        0 <= s < survivors(objects, killed, n).len(),
    ensures
        0 <= origin(objects, killed, n, s) < n,
        survivors(objects, killed, n)[s] == objects[origin(objects, killed, n, s)],
        !is_killed(killed, objects[origin(objects, killed, n, s)].entity),
        survivors(objects, killed, n).len() <= n,
    decreases n,
{
    if n > 0 {
        let rest = survivors(objects, killed, (n - 1) as nat);
        if s < rest.len() {
            lemma_origin(objects, killed, (n - 1) as nat, s);
        } else if rest.len() > 0 {
            lemma_origin(objects, killed, (n - 1) as nat, 0);
        }
    }
}

proof fn lemma_origin_grows(objects: Seq<Object>, killed: Seq<u64>, n: nat, s: int, t: int)
    requires
        n <= objects.len(),
        0 <= s < t < survivors(objects, killed, n).len(),
    ensures
        origin(objects, killed, n, s) < origin(objects, killed, n, t),
    decreases n,
{
    if n > 0 {
        let rest = survivors(objects, killed, (n - 1) as nat);
        if t < rest.len() {
            lemma_origin_grows(objects, killed, (n - 1) as nat, s, t);
        } else {
            lemma_origin(objects, killed, (n - 1) as nat, s);
        }
    }
}

proof fn lemma_survivor_place(objects: Seq<Object>, killed: Seq<u64>, n: nat, m: int)
    requires
        n <= objects.len(),
        0 <= m < n,
        !is_killed(killed, objects[m].entity),
    ensures
        exists|s: int|
            0 <= s < survivors(objects, killed, n).len() && #[trigger] survivors(
                objects,
                killed,
                n,
            )[s] == objects[m],
    decreases n,
{
    let all = survivors(objects, killed, n);
    if m == n - 1 {
        assert(all[all.len() - 1] == objects[m]);
    } else {
        lemma_survivor_place(objects, killed, (n - 1) as nat, m);
        let rest = survivors(objects, killed, (n - 1) as nat);
        let s = choose|s: int| 0 <= s < rest.len() && #[trigger] rest[s] == objects[m];
        assert(all[s] == objects[m]);
    }
}

/// Killing keeps the story straight: when the slots of the killed are
/// emptied and the killed are taken out of the objects, the objects that
/// are left and the board still agree, as long as every creature that can
/// be killed covers one cell.
pub proof fn lemma_cull_keeps_agreement(
    objects: Seq<Object>,
    slots: Seq<Option<(u64, ObjectID)>>,
    grid: &Grid,
    after: Seq<Option<(u64, ObjectID)>>,
    killed: Seq<u64>,
)
    requires
        agrees(objects, slots, grid),
        creatures_are_single(objects),
        culled(slots, after, killed),
    ensures
        agrees(survivors(objects, killed, objects.len()), after, grid),
        creatures_are_single(survivors(objects, killed, objects.len())),
{
    let total = objects.len();
    let left = survivors(objects, killed, total);
    assert forall|s: int| 0 <= s < left.len() implies #[trigger] is_recorded(
        left,
        after,
        grid,
        s,
    ) by {
        lemma_origin(objects, killed, total, s);
        let m = origin(objects, killed, total, s);
        assert(is_recorded(objects, slots, grid, m));
        assert forall|j: int| 0 <= j < left[s].occupied@.len() implies grid.open_at(
            (#[trigger] left[s].occupied@[j]).x as int,
            left[s].occupied@[j].y as int,
        ) && after[grid.index_of(left[s].occupied@[j].x as int, left[s].occupied@[j].y as int)]
            == Some((left[s].entity, left[s].id)) by {
            let c = objects[m].occupied@[j];
            let i = grid.index_of(c.x as int, c.y as int);
            grid.lemma_index_of(c.x as int, c.y as int);
            assert(kept_or_emptied(slots, after, killed, i));
        }
    }
    assert forall|i: int| 0 <= i < after.len() implies #[trigger] is_claimed(
        left,
        after,
        grid,
        i,
    ) by {
        if after[i] is Some {
            assert(kept_or_emptied(slots, after, killed, i));
            assert(is_claimed(objects, slots, grid, i));
            let m = choose|m: int| #[trigger] owns(objects, slots, grid, m, i);
            if is_killed(killed, objects[m].entity) {
                let k = choose|k: int| 0 <= k < killed.len() && killed[k] == objects[m].entity;
                assert(was_emptied(slots, after, killed[k]));
                let gone = choose|gone: int| #[trigger] emptied_for(slots, after, gone, killed[k]);
                assert(is_claimed(objects, slots, grid, gone));
                let owner = choose|owner: int| #[trigger] owns(objects, slots, grid, owner, gone);
                assert(owner == m);
                let a = choose|a: int| #[trigger] cell_is(objects[m], grid, a, i);
                let b = choose|b: int| #[trigger] cell_is(objects[m], grid, b, gone);
                assert(a == 0 && b == 0);
            }
            lemma_survivor_place(objects, killed, total, m);
            let s = choose|s: int| 0 <= s < left.len() && #[trigger] left[s] == objects[m];
            let j = choose|j: int| #[trigger] cell_is(objects[m], grid, j, i);
            assert(cell_is(left[s], grid, j, i));
            assert(owns(left, after, grid, s, i));
        }
    }
    assert forall|a: int, b: int| 0 <= a < left.len() && 0 <= b < left.len() && a != b implies (
    #[trigger] left[a]).entity != (#[trigger] left[b]).entity by {
        lemma_origin(objects, killed, total, a);
        lemma_origin(objects, killed, total, b);
        if a < b {
            lemma_origin_grows(objects, killed, total, a, b);
        } else {
            lemma_origin_grows(objects, killed, total, b, a);
        }
        let p = origin(objects, killed, total, a);
        let q = origin(objects, killed, total, b);
        assert(objects[p].entity != objects[q].entity);
    }
    assert forall|s: int|
        0 <= s < left.len() && ((#[trigger] left[s]).id == ObjectID::Villager || left[s].id
            == ObjectID::Cow || left[s].id == ObjectID::King) implies left[s].occupied@.len()
        == 1 by {
        lemma_origin(objects, killed, total, s);
    }
}

/// The part of the turn that the assassins and the kings take keeps the
/// objects and the board telling the same story.
pub proof fn lemma_resolving_keeps_agreement(
    before: Seq<Object>,
    before_slots: Seq<Option<(u64, ObjectID)>>,
    grid: &Grid,
    after: Seq<Object>,
    world: &World,
    outcome: TurnOutcome,
)
    requires
        agrees(before, before_slots, grid),
        creatures_are_single(before),
        resolved(before, before_slots, grid, after, world, outcome),
    ensures
        agrees(after, world.objects@, grid),
        creatures_are_single(after),
{
    lemma_assassins_cull(before, before_slots, grid, before.len());
    lemma_cull_keeps_agreement(before, before_slots, grid, world.objects@, outcome.killed@);
}

/// A whole turn of the creatures keeps the objects and the board telling
/// the same story, as long as every villager, cow and king covers one cell.
pub proof fn lemma_turn_keeps_agreement(
    before: Seq<Object>,
    before_slots: Seq<Option<(u64, ObjectID)>>,
    grid: &Grid,
    first: Seq<Object>,
    first_slots: Seq<Option<(u64, ObjectID)>>,
    second: Seq<Object>,
    second_slots: Seq<Option<(u64, ObjectID)>>,
    after: Seq<Object>,
    world: &World,
    outcome: TurnOutcome,
)
    requires
        agrees(before, before_slots, grid),
        creatures_are_single(before),
        roamed(ObjectID::Villager, before, before_slots, grid, before.len(), first, first_slots),
        roamed(ObjectID::Cow, first, first_slots, grid, first.len(), second, second_slots),
        resolved(second, second_slots, grid, after, world, outcome),
    ensures
        agrees(after, world.objects@, grid),
        creatures_are_single(after),
{
    lemma_roaming_keeps_agreement(
        ObjectID::Villager,
        before,
        before_slots,
        grid,
        before.len(),
        first,
        first_slots,
    );
    lemma_roaming_keeps_agreement(
        ObjectID::Cow,
        first,
        first_slots,
        grid,
        first.len(),
        second,
        second_slots,
    );
    lemma_resolving_keeps_agreement(second, second_slots, grid, after, world, outcome);
}

/// The cell `c` is a cell of the board on which nothing stands but
/// `entity`.
pub open spec fn free_slot(
    slots: Seq<Option<(u64, ObjectID)>>,
    grid: &Grid,
    entity: u64,
    c: Cell,
) -> bool {
    grid.open_at(c.x as int, c.y as int) && (slots[grid.index_of(c.x as int, c.y as int)] matches Some(
        occupant,
    ) ==> occupant.0 == entity)
}

/// Setting an object down keeps the story straight: when object `i`
/// leaves its cells and takes cells of the board on which nothing stands
/// but itself, or leaves the board for good, the objects and the board
/// still agree.
pub proof fn lemma_set_down_keeps_agreement(
    before: Seq<Object>,
    before_slots: Seq<Option<(u64, ObjectID)>>,
    grid: &Grid,
    i: int,
    cells: Seq<Cell>,
    consumed: bool,
    after: Seq<Object>,
    after_slots: Seq<Option<(u64, ObjectID)>>,
)
    requires
        agrees(before, before_slots, grid),
        0 <= i < before.len(),
        set_down(before, before_slots, grid.size.0 as int, i, cells, consumed, after, after_slots),
        !consumed ==> cells.len() >= 1 && forall|k: int|
            0 <= k < cells.len() ==> free_slot(before_slots, grid, before[i].entity, #[trigger] cells[k]),
    ensures
        agrees(after, after_slots, grid),
{
    let width = grid.size.0 as int;
    let object = before[i];
    let old_cells = object.occupied@;
    let cleared = stamp(before_slots, width, old_cells, None);
    assert(is_recorded(before, before_slots, grid, i));
    // A slot under the old cells held the object itself.
    assert forall|x: int| 0 <= x < before_slots.len() && covers(old_cells, width, x) implies
        before_slots[x] == Some((object.entity, object.id)) && covers_slot(object, grid, x) by {
        let k = choose|k: int|
            0 <= k < old_cells.len() && (#[trigger] old_cells[k]).y * width + old_cells[k].x == x;
        assert(cell_is(object, grid, k, x));
    }
    // A slot that the object covered lies under the old cells.
    assert forall|x: int| covers_slot(object, grid, x) implies covers(old_cells, width, x) by {
        let j = choose|j: int| #[trigger] cell_is(object, grid, j, x);
        assert(old_cells[j].y * width + old_cells[j].x == x);
    }
    if consumed {
        assert forall|m: int| 0 <= m < after.len() implies #[trigger] is_recorded(
            after,
            after_slots,
            grid,
            m,
        ) by {
            let from = if m < i {
                m
            } else {
                m + 1
            };
            assert(after[m] == before[from]);
            assert(is_recorded(before, before_slots, grid, from));
            assert(before[from].entity != object.entity);
            assert forall|j: int| 0 <= j < after[m].occupied@.len() implies grid.open_at(
                (#[trigger] after[m].occupied@[j]).x as int,
                after[m].occupied@[j].y as int,
            ) && after_slots[grid.index_of(
                after[m].occupied@[j].x as int,
                after[m].occupied@[j].y as int,
            )] == Some((after[m].entity, after[m].id)) by {
                let c = before[from].occupied@[j];
                grid.lemma_index_of(c.x as int, c.y as int);
            }
        }
        assert forall|x: int| 0 <= x < after_slots.len() implies #[trigger] is_claimed(
            after,
            after_slots,
            grid,
            x,
        ) by {
            if after_slots[x] is Some {
                assert(!covers(old_cells, width, x));
                assert(is_claimed(before, before_slots, grid, x));
                let m = choose|m: int| #[trigger] owns(before, before_slots, grid, m, x);
                assert(m != i);
                let to = if m < i {
                    m
                } else {
                    m - 1
                };
                assert(after[to] == before[m]);
                assert(owns(after, after_slots, grid, to, x));
            }
        }
        assert forall|a: int, b: int|
            0 <= a < after.len() && 0 <= b < after.len() && a != b implies (
        #[trigger] after[a]).entity != (#[trigger] after[b]).entity by {
            let p = if a < i {
                a
            } else {
                a + 1
            };
            let q = if b < i {
                b
            } else {
                b + 1
            };
            assert(after[a] == before[p] && after[b] == before[q]);
            assert(before[p].entity != before[q].entity);
        }
    } else {
        // A slot under the new cells was empty or the object's own.
        assert forall|x: int| 0 <= x < before_slots.len() && covers(cells, width, x) implies (
        before_slots[x] matches Some(occupant) ==> occupant.0 == object.entity) by {
            let k = choose|k: int|
                0 <= k < cells.len() && (#[trigger] cells[k]).y * width + cells[k].x == x;
            assert(free_slot(before_slots, grid, object.entity, cells[k]));
        }
        assert forall|m: int| 0 <= m < after.len() implies #[trigger] is_recorded(
            after,
            after_slots,
            grid,
            m,
        ) by {
            if m == i {
                assert forall|j: int| 0 <= j < after[m].occupied@.len() implies grid.open_at(
                    (#[trigger] after[m].occupied@[j]).x as int,
                    after[m].occupied@[j].y as int,
                ) && after_slots[grid.index_of(
                    after[m].occupied@[j].x as int,
                    after[m].occupied@[j].y as int,
                )] == Some((after[m].entity, after[m].id)) by {
                    let c = cells[j];
                    assert(free_slot(before_slots, grid, object.entity, c));
                    grid.lemma_index_of(c.x as int, c.y as int);
                    assert(covers(cells, width, grid.index_of(c.x as int, c.y as int)));
                }
            } else {
                assert(after[m] == before[m]);
                assert(is_recorded(before, before_slots, grid, m));
                assert(before[m].entity != object.entity);
                assert forall|j: int| 0 <= j < after[m].occupied@.len() implies grid.open_at(
                    (#[trigger] after[m].occupied@[j]).x as int,
                    after[m].occupied@[j].y as int,
                ) && after_slots[grid.index_of(
                    after[m].occupied@[j].x as int,
                    after[m].occupied@[j].y as int,
                )] == Some((after[m].entity, after[m].id)) by {
                    let c = before[m].occupied@[j];
                    grid.lemma_index_of(c.x as int, c.y as int);
                }
            }
        }
        assert forall|x: int| 0 <= x < after_slots.len() implies #[trigger] is_claimed(
            after,
            after_slots,
            grid,
            x,
        ) by {
            if after_slots[x] is Some {
                if covers(cells, width, x) {
                    let k = choose|k: int|
                        0 <= k < cells.len() && (#[trigger] cells[k]).y * width + cells[k].x == x;
                    assert(cell_is(after[i], grid, k, x));
                    assert(owns(after, after_slots, grid, i, x));
                } else {
                    assert(!covers(old_cells, width, x));
                    assert(is_claimed(before, before_slots, grid, x));
                    let m = choose|m: int| #[trigger] owns(before, before_slots, grid, m, x);
                    assert(m != i);
                    assert(after[m] == before[m]);
                    assert(owns(after, after_slots, grid, m, x));
                }
            }
        }
        assert forall|a: int, b: int|
            0 <= a < after.len() && 0 <= b < after.len() && a != b implies (
        #[trigger] after[a]).entity != (#[trigger] after[b]).entity by {
            assert(before[a].entity != before[b].entity);
            if a != i {
                assert(after[a] == before[a]);
            }
            if b != i {
                assert(after[b] == before[b]);
            }
        }
    }
}

/// What the carrier holds was offered by the rule of its kind for the
/// board as it is, with a cell of the object itself as the cell it is held
/// by; and a villager or a cow covers one cell.
pub open spec fn holds_fairly(
    ufo: UFO,
    object: Object,
    px: int,
    py: int,
    oas: &ObjectAssetServer,
    world: &World,
    grid: &Grid,
) -> bool {
    &&& ufo.selected matches Some(selection)
    &&& has_rule(object.id)
    &&& selection.valid@ == valid_cells(object.entity, object.id, px, py, oas, world, grid)
    &&& exists|j: int|
        0 <= j < object.occupied@.len() && (#[trigger] object.occupied@[j]).x == px
            && object.occupied@[j].y == py
    &&& (object.id == ObjectID::Villager || object.id == ObjectID::Cow) ==> oas.occupy(
        object.id,
    ).len() == 1
}

/// A granted request to set down keeps the objects and the board telling
/// the same story, when the carrier holds the object fairly.
pub proof fn lemma_drop_keeps_agreement(
    ufo: UFO,
    before: Seq<Object>,
    world: &World,
    oas: &ObjectAssetServer,
    grid: &Grid,
    i: int,
    px: int,
    py: int,
    after: Seq<Object>,
    after_slots: Seq<Option<(u64, ObjectID)>>,
)
    requires
        world.fits(grid),
        agrees(before, world.objects@, grid),
        creatures_are_single(before),
        0 <= i < before.len(),
        oas.occupy(before[i].id).len() >= 1,
        holds_fairly(ufo, before[i], px, py, oas, world, grid),
        drop_accepted(ufo, before[i], oas, world, grid),
        set_down(
            before,
            world.objects@,
            grid.size.0 as int,
            i,
            drop_cells(ufo, before[i], oas),
            drop_consumed(ufo, before[i], oas, world, grid),
            after,
            after_slots,
        ),
    ensures
        agrees(after, after_slots, grid),
        creatures_are_single(after),
{
    let object = before[i];
    let slots = world.objects@;
    let cells = drop_cells(ufo, object, oas);
    let consumed = drop_consumed(ufo, object, oas, world, grid);
    let valid = ufo.selected->0.valid@;
    let tx = drop_x(ufo, object, oas);
    let ty = drop_y(ufo, object, oas);
    let offsets = oas.occupy(object.id);
    assert(is_recorded(before, slots, grid, i));
    if !consumed {
        assert forall|k: int| 0 <= k < cells.len() implies free_slot(
            slots,
            grid,
            object.entity,
            #[trigger] cells[k],
        ) by {
            let x = footprint_x(tx, ty, offsets, k);
            let y = footprint_y(ty, offsets, k);
            assert(covered(valid, x, y));
            let m = choose|m: int|
                0 <= m < valid.len() && (#[trigger] valid[m]).x == x && valid[m].y == y;
            lemma_valid_cell_is_occupiable(object.entity, object.id, px, py, oas, world, grid, m);
            let c = valid[m];
            assert(cells[k] == c);
            assert(occupiable(object.entity, object.id, px, py, c, world, grid));
            if object.id == ObjectID::House || object.id == ObjectID::BigHouse {
                if c.x == px && c.y == py {
                    let j = choose|j: int|
                        0 <= j < object.occupied@.len() && (#[trigger] object.occupied@[j]).x
                            == px && object.occupied@[j].y == py;
                    assert(object.occupied@[j] == c);
                }
            } else if object.id == ObjectID::Villager || object.id == ObjectID::Cow {
                assert(k == 0);
                assert(drop_meets(ufo, object, oas, world, grid) is None);
            }
        }
    }
    lemma_set_down_keeps_agreement(before, slots, grid, i, cells, consumed, after, after_slots);
    assert forall|n: int|
        0 <= n < after.len() && ((#[trigger] after[n]).id == ObjectID::Villager || after[n].id
            == ObjectID::Cow || after[n].id == ObjectID::King) implies after[n].occupied@.len()
        == 1 by {
        if consumed {
            let from = if n < i {
                n
            } else {
                n + 1
            };
            assert(after[n] == before[from]);
        } else if n != i {
            assert(after[n] == before[n]);
        }
    }
}

/// The cells that line `k` of a level covers.
pub open spec fn line_cells(objects: Seq<ObjectDesc>, oas: &ObjectAssetServer, k: int) -> Seq<Cell> {
    footprint_seq(
        objects[k].position.0 as int,
        objects[k].position.1 as int,
        oas.occupy(objects[k].id),
    )
}

/// Cell `j` of line `k` is a cell of the board.
pub open spec fn line_cell_is_open(
    objects: Seq<ObjectDesc>,
    oas: &ObjectAssetServer,
    grid: &Grid,
    k: int,
    j: int,
) -> bool {
    grid.open_at(line_cells(objects, oas, k)[j].x as int, line_cells(objects, oas, k)[j].y as int)
}

/// Cell `a` of line `k` is not cell `b` of line `m`.
pub open spec fn line_cells_differ(
    objects: Seq<ObjectDesc>,
    oas: &ObjectAssetServer,
    k: int,
    a: int,
    m: int,
    b: int,
) -> bool {
    line_cells(objects, oas, k)[a] != line_cells(objects, oas, m)[b]
}

/// Every object of the level covers cells of the board, one at least, and
/// no two objects cover the same cell.
pub open spec fn level_is_clean(
    objects: Seq<ObjectDesc>,
    oas: &ObjectAssetServer,
    grid: &Grid,
) -> bool {
    &&& forall|k: int| 0 <= k < objects.len() ==> (#[trigger] line_cells(objects, oas, k)).len() >= 1
    &&& forall|k: int, j: int|
        0 <= k < objects.len() && 0 <= j < line_cells(objects, oas, k).len()
            ==> #[trigger] line_cell_is_open(objects, oas, grid, k, j)
    &&& forall|k: int, a: int, m: int, b: int|
        0 <= k < m < objects.len() && 0 <= a < line_cells(objects, oas, k).len() && 0 <= b
            < line_cells(objects, oas, m).len() ==> #[trigger] line_cells_differ(
            objects,
            oas,
            k,
            a,
            m,
            b,
        )
}

/// The first `n` objects are the ones made of the first `n` lines.
pub open spec fn made_of(
    list: Seq<Object>,
    objects: Seq<ObjectDesc>,
    oas: &ObjectAssetServer,
    n: int,
) -> bool {
    &&& list.len() == n
    &&& forall|k: int|
        0 <= k < n ==> is_made(
            #[trigger] list[k],
            k as u64,
            oas.conf(objects[k].id)->0,
            objects[k].position.0 as int,
            objects[k].position.1 as int,
        ) && list[k].id == objects[k].id
}

/// A clean level starts the story straight: once its first `n` lines are
/// set up on an empty board, the objects and the board agree.
pub proof fn lemma_level_agrees(
    list: Seq<Object>,
    objects: Seq<ObjectDesc>,
    oas: &ObjectAssetServer,
    grid: &Grid,
    n: nat,
)
    requires
        grid.wf(),
        n <= objects.len() <= u64::MAX,
        level_is_clean(objects, oas, grid),
        made_of(list, objects, oas, n as int),
    ensures
        agrees(list, loaded_slots(objects, oas, grid, n), grid),
    decreases n,
{
    let slots = loaded_slots(objects, oas, grid, n);
    if n == 0 {
        assert forall|i: int| 0 <= i < slots.len() implies #[trigger] is_claimed(
            list,
            slots,
            grid,
            i,
        ) by {}
    } else {
        let last = (n - 1) as int;
        let width = grid.size.0 as int;
        let earlier = list.take(last);
        let rest = loaded_slots(objects, oas, grid, last as nat);
        lemma_level_agrees(earlier, objects, oas, grid, last as nat);
        let cells = line_cells(objects, oas, last);
        let entity = last as u64;
        let id = objects[last].id;
        assert(list[last].occupied@ == cells);
        assert forall|j: int| 0 <= j < cells.len() implies grid.open_at(
            (#[trigger] cells[j]).x as int,
            cells[j].y as int,
        ) by {
            assert(line_cell_is_open(objects, oas, grid, last, j));
        }
        // A slot under the new cells was not covered by an earlier object.
        assert forall|m: int, b: int|
            0 <= m < last && 0 <= b < list[m].occupied@.len() implies !covers(
            cells,
            width,
            grid.index_of(
                (#[trigger] list[m].occupied@[b]).x as int,
                list[m].occupied@[b].y as int,
            ),
        ) by {
            let c = list[m].occupied@[b];
            assert(list[m].occupied@ == line_cells(objects, oas, m));
            assert(line_cell_is_open(objects, oas, grid, m, b));
            if covers(cells, width, grid.index_of(c.x as int, c.y as int)) {
                let a = choose|a: int|
                    0 <= a < cells.len() && (#[trigger] cells[a]).y * width + cells[a].x
                        == grid.index_of(c.x as int, c.y as int);
                assert(line_cells_differ(objects, oas, m, b, last, a));
                grid.lemma_index_of(c.x as int, c.y as int);
                grid.lemma_index_of(cells[a].x as int, cells[a].y as int);
                grid.lemma_extent(c.x as int, c.y as int);
                grid.lemma_extent(cells[a].x as int, cells[a].y as int);
            }
        }
        assert forall|m: int| 0 <= m < list.len() implies #[trigger] is_recorded(
            list,
            slots,
            grid,
            m,
        ) by {
            if m == last {
                assert(line_cells(objects, oas, last).len() >= 1);
                assert forall|j: int| 0 <= j < list[m].occupied@.len() implies grid.open_at(
                    (#[trigger] list[m].occupied@[j]).x as int,
                    list[m].occupied@[j].y as int,
                ) && slots[grid.index_of(
                    list[m].occupied@[j].x as int,
                    list[m].occupied@[j].y as int,
                )] == Some((list[m].entity, list[m].id)) by {
                    let c = cells[j];
                    grid.lemma_index_of(c.x as int, c.y as int);
                    assert(covers(cells, width, grid.index_of(c.x as int, c.y as int)));
                }
            } else {
                assert(earlier[m] == list[m]);
                assert(is_recorded(earlier, rest, grid, m));
                assert forall|j: int| 0 <= j < list[m].occupied@.len() implies grid.open_at(
                    (#[trigger] list[m].occupied@[j]).x as int,
                    list[m].occupied@[j].y as int,
                ) && slots[grid.index_of(
                    list[m].occupied@[j].x as int,
                    list[m].occupied@[j].y as int,
                )] == Some((list[m].entity, list[m].id)) by {
                    let c = list[m].occupied@[j];
                    grid.lemma_index_of(c.x as int, c.y as int);
                }
            }
        }
        assert forall|x: int| 0 <= x < slots.len() implies #[trigger] is_claimed(
            list,
            slots,
            grid,
            x,
        ) by {
            if slots[x] is Some {
                if covers(cells, width, x) {
                    let a = choose|a: int|
                        0 <= a < cells.len() && (#[trigger] cells[a]).y * width + cells[a].x == x;
                    assert(cell_is(list[last], grid, a, x));
                    assert(owns(list, slots, grid, last, x));
                } else {
                    assert(is_claimed(earlier, rest, grid, x));
                    let m = choose|m: int| #[trigger] owns(earlier, rest, grid, m, x);
                    assert(earlier[m] == list[m]);
                    let j = choose|j: int| #[trigger] cell_is(earlier[m], grid, j, x);
                    assert(cell_is(list[m], grid, j, x));
                    assert(owns(list, slots, grid, m, x));
                }
            }
        }
        assert forall|a: int, b: int|
            0 <= a < list.len() && 0 <= b < list.len() && a != b implies (
        #[trigger] list[a]).entity != (#[trigger] list[b]).entity by {
            assert(list[a].entity == a as u64);
            assert(list[b].entity == b as u64);
        }
    }
}

} // verus!
