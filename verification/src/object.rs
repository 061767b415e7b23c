//! The objects on the board.

use vstd::prelude::*;
use crate::asset::{footprint_cells, footprint_within, ObjectAssetServer, ObjectConf};
use crate::grid::{Cell, Grid};
use crate::kind::ObjectID;
use crate::rules::{contains_cell, footprint_seq};
use crate::world::{stamp, World};

verus! {

/// One line of a level: an object of kind `id` anchored at `position`.
#[derive(Debug, Clone, Copy, PartialEq, Eq)]
pub struct ObjectDesc {
    pub id: ObjectID,
    pub position: (u32, u32),
}

/// The carrier is over `position`: what stands there is to be marked.
#[derive(Debug, Clone, Copy, PartialEq, Eq, Structural)]
pub struct ObjectSelectEvent {
    pub position: Cell,
}

impl ObjectSelectEvent {
    /// The event for `position`.
    pub fn new(position: Cell) -> (event: ObjectSelectEvent)
        ensures
            event.position == position,
    {
        ObjectSelectEvent { position }
    }
}

/// Carried by the objects that the carrier can lift.
#[derive(Debug, Clone, Copy, PartialEq, Eq, Structural)]
pub struct Selectable {
    pub selected: bool,
}

impl Selectable {
    /// The mark of an object that is not selected.
    pub fn new() -> (s: Selectable)
        ensures
            !s.selected,
    {
        Selectable { selected: false }
    }
}

/// One building or creature on the board.
#[derive(Debug)]
pub struct Object {
    /// The identifier under which the board knows the object.
    pub entity: u64,
    pub id: ObjectID,
    pub name: String,
    /// The cells the object covers, its anchor first.
    pub occupied: Vec<Cell>,
    /// Where the object's picture is drawn, relative to its anchor cell.
    pub offset: Cell,
    pub selectable: Option<Selectable>,
}

/// The object that `Object::new` makes of `conf` at `(x, y)`.
pub open spec fn is_made(object: Object, entity: u64, conf: ObjectConf, x: int, y: int) -> bool {
    &&& object.entity == entity
    &&& object.id == conf.id
    &&& object.name@ == conf.name@
    &&& object.occupied@ == footprint_seq(x, y, conf.occupy@)
    &&& object.offset == conf.offset
    &&& object.selectable == if conf.selectable {
        Some(Selectable { selected: false })
    } else {
        None
    }
}

/// `object` with its mark set to `selected`, if it can be marked.
pub open spec fn marked(object: Object, selected: bool) -> Object {
    Object {
        selectable: match object.selectable {
            Some(_) => Some(Selectable { selected }),
            None => None,
        },
        ..object
    }
}

/// Index of the first of the first `n` objects that can be lifted and
/// covers `position`.
pub open spec fn first_liftable(objects: Seq<Object>, position: Cell, n: nat) -> Option<int>
    decreases n,
{
    if n == 0 {
        None
    } else {
        match first_liftable(objects, position, (n - 1) as nat) {
            Some(i) => Some(i),
            None => if objects[n - 1].selectable is Some && objects[n - 1].occupied@.contains(
                position,
            ) {
                Some(n - 1)
            } else {
                None
            },
        }
    }
}

/// Once found among the first `n` objects, the first object that can be
/// lifted stays the first among more.
pub proof fn lemma_first_liftable_stays(objects: Seq<Object>, position: Cell, n: nat, m: nat)
    requires
        n <= m,
        first_liftable(objects, position, n) is Some,
    ensures
        first_liftable(objects, position, m) == first_liftable(objects, position, n),
    decreases m,
{
    if n < m {
        lemma_first_liftable_stays(objects, position, n, (m - 1) as nat);
    }
}

/// The first object that can be lifted is one of the first `n`, can be
/// lifted, and covers `position`.
pub proof fn lemma_first_liftable(objects: Seq<Object>, position: Cell, n: nat)
    ensures
        first_liftable(objects, position, n) matches Some(i) ==> 0 <= i < n
            && objects[i].selectable is Some && objects[i].occupied@.contains(position),
    decreases n,
{
    if n > 0 {
        lemma_first_liftable(objects, position, (n - 1) as nat);
    }
}

impl Object {
    /// The object covers at least its anchor, and only cells within `grid`.
    pub open spec fn wf(&self, grid: &Grid) -> bool {
        &&& self.occupied@.len() >= 1
        &&& forall|k: int|
            0 <= k < self.occupied@.len() ==> grid.contains(
                (#[trigger] self.occupied@[k]).x as int,
                self.occupied@[k].y as int,
            )
    }

    /// Makes the object `entity` of kind `id` anchored at `position` and
    /// records it on every cell of its footprint. Whether those cells are
    /// free is not looked at.
    pub fn new(
        entity: u64,
        id: ObjectID,
        position: (u32, u32),
        world: &mut World,
        grid: &Grid,
        oas: &ObjectAssetServer,
    ) -> (object: Object)
        requires
            grid.wf(),
            old(world).fits(grid),
            oas.has(id),
            oas.occupy(id).len() >= 1,
            footprint_within(grid, position.0 as int, position.1 as int, oas.occupy(id)),
        ensures
            is_made(object, entity, oas.conf(id)->0, position.0 as int, position.1 as int),
            object.id == id,
            object.wf(grid),
            final(world).fits(grid),
            final(world).objects@ == stamp(
                old(world).objects@,
                grid.size.0 as int,
                object.occupied@,
                Some((entity, id)),
            ),
    {
        let conf = oas.get(id);
        proof {
            oas.lemma_conf_id(id);
        }
        let occupied = footprint_cells(position.0 as i64, position.1 as i64, &conf.occupy, grid).unwrap();
        proof {
            assert(occupied@ =~= footprint_seq(
                position.0 as int,
                position.1 as int,
                conf.occupy@,
            ));
            assert forall|k: int| 0 <= k < occupied@.len() implies grid.contains(
                (#[trigger] occupied@[k]).x as int,
                occupied@[k].y as int,
            ) by {
                assert(grid.contains(
                    crate::asset::footprint_x(
                        position.0 as int,
                        position.1 as int,
                        conf.occupy@,
                        k,
                    ),
                    crate::asset::footprint_y(position.1 as int, conf.occupy@, k),
                ));
            }
        }
        world.place(entity, id, &occupied);
        Object {
            entity,
            id,
            name: conf.name.clone(),
            occupied,
            offset: conf.offset,
            selectable: if conf.selectable {
                Some(Selectable::new())
            } else {
                None
            },
        }
    }
}

/// Marks the first object that can be lifted and covers `position`, and
/// takes the mark off every other one.
pub fn handle_select_object_event(objects: &mut Vec<Object>, position: Cell)
    ensures
        final(objects)@.len() == old(objects)@.len(),
        forall|i: int|
            0 <= i < old(objects)@.len() ==> #[trigger] final(objects)@[i] == marked(
                old(objects)@[i],
                first_liftable(old(objects)@, position, old(objects)@.len()) == Some(i),
            ),
{
    let mut selected = false;
    let mut n: usize = 0;
    while n < objects.len()
        invariant
            n <= objects@.len(),
            objects@.len() == old(objects)@.len(),
            selected == first_liftable(old(objects)@, position, n as nat) is Some,
            forall|i: int| n <= i < objects@.len() ==> objects@[i] == old(objects)@[i],
            forall|i: int|
                0 <= i < n ==> #[trigger] objects@[i] == marked(
                    old(objects)@[i],
                    first_liftable(old(objects)@, position, n as nat) == Some(i),
                ),
        decreases objects@.len() - n,
    {
        proof {
            lemma_first_liftable(old(objects)@, position, n as nat);
        }
        if objects[n].selectable.is_some() {
            let here = contains_cell(&objects[n].occupied, position) && !selected;
            objects[n].selectable = Some(Selectable { selected: here });
            if here {
                selected = true;
            }
        }
        proof {
            let now = first_liftable(old(objects)@, position, n as nat + 1);
            let was = first_liftable(old(objects)@, position, n as nat);
            assert forall|i: int| 0 <= i < n + 1 implies #[trigger] objects@[i] == marked(
                old(objects)@[i],
                now == Some(i),
            ) by {
                if i < n {
                    assert(objects@[i] == marked(old(objects)@[i], was == Some(i)));
                }
            }
        }
        n = n + 1;
    }
}

} // verus!
