//! What is configured for each kind of object, and the footprint of an
//! object: the cells it covers around its anchor.

use vstd::prelude::*;
use crate::grid::{parity, row_parity, Cell, Grid};
use crate::kind::ObjectID;

verus! {

/// What is fixed for every object of one kind.
#[derive(Debug)]
pub struct ObjectConf {
    pub id: ObjectID,
    pub name: String,
    pub selectable: bool,
    pub animated: bool,
    /// The cells an object covers, as offsets from its anchor cell.
    pub occupy: Vec<Cell>,
    /// Where the object's picture is drawn, relative to its anchor cell.
    pub offset: Cell,
}

/// The configuration of each kind, at most one per kind.
#[derive(Debug)]
pub struct ObjectAssetServer {
    assets: Vec<ObjectConf>,
}

/// The first entry of `assets` for `id`.
pub open spec fn lookup(assets: Seq<ObjectConf>, id: ObjectID) -> Option<ObjectConf>
    decreases assets.len(),
{
    if assets.len() == 0 {
        None
    } else if assets[0].id == id {
        Some(assets[0])
    } else {
        lookup(assets.drop_first(), id)
    }
}

proof fn lemma_lookup_id(assets: Seq<ObjectConf>, id: ObjectID)
    requires
        lookup(assets, id) is Some,
    ensures
        lookup(assets, id)->0.id == id,
    decreases assets.len(),
{
    if assets.len() > 0 && assets[0].id != id {
        lemma_lookup_id(assets.drop_first(), id);
    }
}

proof fn lemma_lookup_skip(assets: Seq<ObjectConf>, id: ObjectID, n: int)
    requires
        0 <= n <= assets.len(),
        forall|j: int| 0 <= j < n ==> assets[j].id != id,
    ensures
        lookup(assets, id) == lookup(assets.skip(n), id),
    decreases n,
{
    if n == 0 {
        assert(assets.skip(0) =~= assets);
    } else {
        lemma_lookup_skip(assets.drop_first(), id, n - 1);
        assert(assets.drop_first().skip(n - 1) =~= assets.skip(n));
    }
}

proof fn lemma_lookup_update(assets: Seq<ObjectConf>, n: int, conf: ObjectConf, id: ObjectID)
    requires
        0 <= n < assets.len(),
        assets[n].id == conf.id,
        forall|j: int| 0 <= j < n ==> assets[j].id != conf.id,
    ensures
        lookup(assets.update(n, conf), id) == if id == conf.id {
            Some(conf)
        } else {
            lookup(assets, id)
        },
    decreases n,
{
    let changed = assets.update(n, conf);
    if n == 0 {
        assert(changed.drop_first() =~= assets.drop_first());
    } else {
        lemma_lookup_update(assets.drop_first(), n - 1, conf, id);
        assert(changed.drop_first() =~= assets.drop_first().update(n - 1, conf));
    }
}

proof fn lemma_lookup_push(assets: Seq<ObjectConf>, conf: ObjectConf, id: ObjectID)
    requires
        forall|j: int| 0 <= j < assets.len() ==> assets[j].id != conf.id,
    ensures
        lookup(assets.push(conf), id) == if id == conf.id {
            Some(conf)
        } else {
            lookup(assets, id)
        },
    decreases assets.len(),
{
    let longer = assets.push(conf);
    if assets.len() == 0 {
        assert(longer[0] == conf);
        assert(longer.drop_first() =~= assets);
    } else {
        lemma_lookup_push(assets.drop_first(), conf, id);
        assert(longer[0] == assets[0]);
        assert(longer.drop_first() =~= assets.drop_first().push(conf));
    }
}

impl ObjectAssetServer {
    /// The configuration held for `id`, if any.
    pub closed spec fn conf(&self, id: ObjectID) -> Option<ObjectConf> {
        lookup(self.assets@, id)
    }

    /// A configuration is held for `id`.
    pub open spec fn has(&self, id: ObjectID) -> bool {
        self.conf(id) is Some
    }

    /// The footprint offsets of `id`.
    pub open spec fn occupy(&self, id: ObjectID) -> Seq<Cell> {
        self.conf(id)->0.occupy@
    }

    /// What is held for a kind carries that kind.
    pub proof fn lemma_conf_id(&self, id: ObjectID)
        requires
            self.has(id),
        ensures
            self.conf(id)->0.id == id,
    {
        lemma_lookup_id(self.assets@, id);
    }

    /// A server that holds no configuration yet.
    pub fn new() -> (server: ObjectAssetServer)
        ensures
            forall|id: ObjectID| server.conf(id) is None,
    {
        ObjectAssetServer { assets: Vec::new() }
    }

    /// Index of the entry for `id`, or the number of entries.
    fn position(&self, id: ObjectID) -> (n: usize)
        ensures
            n <= self.assets@.len(),
            forall|j: int| 0 <= j < n ==> self.assets@[j].id != id,
            n < self.assets@.len() ==> self.assets@[n as int].id == id,
    {
        let mut n: usize = 0;
        while n < self.assets.len()
            invariant
                n <= self.assets@.len(),
                forall|j: int| 0 <= j < n ==> self.assets@[j].id != id,
            decreases self.assets@.len() - n,
        {
            if self.assets[n].id == id {
                return n;
            }
            n = n + 1;
        }
        n
    }

    /// Holds `conf` for its kind from now on, in place of any earlier one.
    pub fn insert(&mut self, conf: ObjectConf)
        ensures
            forall|id: ObjectID|
                #[trigger] final(self).conf(id) == if id == conf.id {
                    Some(conf)
                } else {
                    old(self).conf(id)
                },
    {
        let n = self.position(conf.id);
        if n < self.assets.len() {
            proof {
                assert forall|id: ObjectID|
                    lookup(self.assets@.update(n as int, conf), id) == if id == conf.id {
                        Some(conf)
                    } else {
                        lookup(self.assets@, id)
                    } by {
                    lemma_lookup_update(self.assets@, n as int, conf, id);
                }
            }
            self.assets.set(n, conf);
        } else {
            proof {
                assert forall|id: ObjectID|
                    lookup(self.assets@.push(conf), id) == if id == conf.id {
                        Some(conf)
                    } else {
                        lookup(self.assets@, id)
                    } by {
                    lemma_lookup_push(self.assets@, conf, id);
                }
            }
            self.assets.push(conf);
        }
    }

    /// The configuration of `id`, if one is held.
    pub fn find(&self, id: ObjectID) -> (found: Option<&ObjectConf>)
        ensures
            found is Some == self.has(id),
            found matches Some(conf) ==> Some(*conf) == self.conf(id),
    {
        let n = self.position(id);
        proof {
            lemma_lookup_skip(self.assets@, id, n as int);
        }
        if n < self.assets.len() {
            Some(&self.assets[n])
        } else {
            None
        }
    }

    /// Whether a configuration is held for `id`.
    pub fn contains(&self, id: ObjectID) -> (b: bool)
        ensures
            b == self.has(id),
    {
        self.find(id).is_some()
    }

    /// The configuration of `id`.
    pub fn get(&self, id: ObjectID) -> (conf: &ObjectConf)
        requires
            self.has(id),
        ensures
            Some(*conf) == self.conf(id),
    {
        let n = self.position(id);
        proof {
            lemma_lookup_skip(self.assets@, id, n as int);
        }
        &self.assets[n]
    }
}

/// Column of cell `i` of a footprint anchored at `(ax, ay)`. The anchor
/// cell itself is not shifted; every other cell moves right by the parity
/// of the anchor's row.
pub open spec fn footprint_x(ax: int, ay: int, offsets: Seq<Cell>, i: int) -> int {
    ax + offsets[i].x + if i == 0 {
        0
    } else {
        row_parity(ay)
    }
}

/// Row of cell `i` of a footprint anchored on row `ay`.
pub open spec fn footprint_y(ay: int, offsets: Seq<Cell>, i: int) -> int {
    ay + offsets[i].y
}

/// `cells` is the footprint `offsets` anchored at `(ax, ay)`.
pub open spec fn is_footprint(cells: Seq<Cell>, ax: int, ay: int, offsets: Seq<Cell>) -> bool {
    &&& cells.len() == offsets.len()
    &&& forall|i: int|
        0 <= i < cells.len() ==> (#[trigger] cells[i]).x == footprint_x(ax, ay, offsets, i)
            && cells[i].y == footprint_y(ay, offsets, i)
}

/// Every cell of the footprint lies within the extent of `grid`.
pub open spec fn footprint_within(grid: &Grid, ax: int, ay: int, offsets: Seq<Cell>) -> bool {
    forall|i: int|
        0 <= i < offsets.len() ==> grid.contains(
            #[trigger] footprint_x(ax, ay, offsets, i),
            footprint_y(ay, offsets, i),
        )
}

/// `a` is a coordinate that arithmetic on positions can reach.
pub open spec fn anchor_range(a: int) -> bool {
    -0x2_0000_0000 <= a <= 0x2_0000_0000
}

/// The coordinates of cell `i` of the footprint anchored at `(ax, ay)`.
pub fn footprint_point(ax: i64, ay: i64, offsets: &Vec<Cell>, i: usize) -> (at: (i64, i64))
    requires
        anchor_range(ax as int),
        anchor_range(ay as int),
        i < offsets@.len(),
    ensures
        at.0 == footprint_x(ax as int, ay as int, offsets@, i as int),
        at.1 == footprint_y(ay as int, offsets@, i as int),
{
    let shift: i64 = if i == 0 {
        0
    } else {
        parity(ay)
    };
    (ax + offsets[i].x as i64 + shift, ay + offsets[i].y as i64)
}

/// The cells of the footprint anchored at `(ax, ay)`, or nothing when one
/// of them lies outside `grid`.
pub fn footprint_cells(ax: i64, ay: i64, offsets: &Vec<Cell>, grid: &Grid) -> (cells: Option<
    Vec<Cell>,
>)
    requires
        grid.wf(),
        anchor_range(ax as int),
        anchor_range(ay as int),
    ensures
        cells is Some == footprint_within(grid, ax as int, ay as int, offsets@),
        cells matches Some(v) ==> is_footprint(v@, ax as int, ay as int, offsets@),
{
    let mut cells: Vec<Cell> = Vec::new();
    let mut i: usize = 0;
    while i < offsets.len()
        invariant
            i <= offsets@.len(),
            grid.wf(),
            anchor_range(ax as int),
            anchor_range(ay as int),
            cells@.len() == i,
            forall|j: int|
                0 <= j < i ==> (#[trigger] cells@[j]).x == footprint_x(
                    ax as int,
                    ay as int,
                    offsets@,
                    j,
                ) && cells@[j].y == footprint_y(ay as int, offsets@, j),
            forall|j: int|
                0 <= j < i ==> grid.contains(
                    #[trigger] footprint_x(ax as int, ay as int, offsets@, j),
                    footprint_y(ay as int, offsets@, j),
                ),
        decreases offsets@.len() - i,
    {
        let (x, y) = footprint_point(ax, ay, offsets, i);
        if x < 0 || x >= grid.size.0 as i64 || y < 0 || y >= grid.size.1 as i64 {
            return None;
        }
        proof {
            grid.lemma_extent(x as int, y as int);
        }
        cells.push(Cell { x: x as i32, y: y as i32 });
        i = i + 1;
    }
    Some(cells)
}

} // verus!
