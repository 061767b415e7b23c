//! Setting up a level, and the counters of the game.

use vstd::prelude::*;
use crate::agree::{agrees, lemma_level_agrees, level_is_clean};
use crate::asset::{footprint_cells, footprint_within, ObjectAssetServer};
use crate::grid::Grid;
use crate::kind::ObjectID;
use crate::object::{is_made, Object, ObjectDesc};
use crate::rules::footprint_seq;
use crate::world::{stamp, World};

verus! {

/// Why a level cannot be set up.
#[derive(Debug, Clone, Copy, PartialEq, Eq, Structural)]
pub enum LevelError {
    /// A second king stands in the list.
    MoreThanOneKing,
    /// A second castle stands in the list.
    MoreThanOneCastle,
    /// The king or the castle is missing.
    Incomplete,
    /// A kind in the list has no configuration.
    MissingConfiguration,
    /// A kind in the list is configured to cover no cell.
    EmptyFootprint,
    /// An object would cover a position outside the board.
    OutsideBoard,
}

/// One of the first `n` lines is of kind `id`.
pub open spec fn listed_before(objects: Seq<ObjectDesc>, id: ObjectID, n: int) -> bool {
    exists|j: int| 0 <= j < n && (#[trigger] objects[j]).id == id
}

/// What is wrong with line `n`, given the lines before it.
pub open spec fn line_error(
    objects: Seq<ObjectDesc>,
    oas: &ObjectAssetServer,
    grid: &Grid,
    n: int,
) -> Option<LevelError> {
    let line = objects[n];
    if line.id == ObjectID::King && listed_before(objects, ObjectID::King, n) {
        Some(LevelError::MoreThanOneKing)
    } else if line.id == ObjectID::Castle && listed_before(objects, ObjectID::Castle, n) {
        Some(LevelError::MoreThanOneCastle)
    } else if !oas.has(line.id) {
        Some(LevelError::MissingConfiguration)
    } else if oas.occupy(line.id).len() == 0 {
        Some(LevelError::EmptyFootprint)
    } else if !footprint_within(
        grid,
        line.position.0 as int,
        line.position.1 as int,
        oas.occupy(line.id),
    ) {
        Some(LevelError::OutsideBoard)
    } else {
        None
    }
}

/// The first thing wrong among the first `n` lines.
pub open spec fn first_error(
    objects: Seq<ObjectDesc>,
    oas: &ObjectAssetServer,
    grid: &Grid,
    n: nat,
) -> Option<LevelError>
    decreases n,
{
    if n == 0 {
        None
    } else {
        match first_error(objects, oas, grid, (n - 1) as nat) {
            Some(e) => Some(e),
            None => line_error(objects, oas, grid, n - 1),
        }
    }
}

/// How many lines are set up before the first fault among the first `n`
/// lines stops the work: the number of the faulty line, or `n`.
pub open spec fn lines_before_error(
    objects: Seq<ObjectDesc>,
    oas: &ObjectAssetServer,
    grid: &Grid,
    n: nat,
) -> nat
    decreases n,
{
    if n == 0 {
        0
    } else {
        let before = lines_before_error(objects, oas, grid, (n - 1) as nat);
        if before < n - 1 || line_error(objects, oas, grid, n - 1) is Some {
            before
        } else {
            n
        }
    }
}

proof fn lemma_lines_before_error_stays(
    objects: Seq<ObjectDesc>,
    oas: &ObjectAssetServer,
    grid: &Grid,
    n: nat,
    m: nat,
)
    requires
        n < m,
        lines_before_error(objects, oas, grid, n) == n,
        line_error(objects, oas, grid, n as int) is Some,
    ensures
        lines_before_error(objects, oas, grid, m) == n,
    decreases m,
{
    if n + 1 < m {
        lemma_lines_before_error_stays(objects, oas, grid, n, (m - 1) as nat);
    }
}

/// What is wrong with the level, if anything: the first faulty line, or
/// else a missing king or castle.
pub open spec fn level_error(objects: Seq<ObjectDesc>, oas: &ObjectAssetServer, grid: &Grid) -> Option<
    LevelError,
> {
    match first_error(objects, oas, grid, objects.len()) {
        Some(e) => Some(e),
        None => if listed_before(objects, ObjectID::King, objects.len() as int) && listed_before(
            objects,
            ObjectID::Castle,
            objects.len() as int,
        ) {
            None
        } else {
            Some(LevelError::Incomplete)
        },
    }
}

/// The board after the first `n` lines have been set up on an empty
/// board, each object under the number of its line.
pub open spec fn loaded_slots(
    objects: Seq<ObjectDesc>,
    oas: &ObjectAssetServer,
    grid: &Grid,
    n: nat,
) -> Seq<Option<(u64, ObjectID)>>
    decreases n,
{
    if n == 0 {
        Seq::new(grid.cells() as nat, |i: int| None)
    } else {
        let line = objects[n - 1];
        stamp(
            loaded_slots(objects, oas, grid, (n - 1) as nat),
            grid.size.0 as int,
            footprint_seq(line.position.0 as int, line.position.1 as int, oas.occupy(line.id)),
            Some(((n - 1) as u64, line.id)),
        )
    }
}

/// Empties the board and sets up the objects of a level, in the order of
/// the list, up to the first faulty line; the object of line `k` is known
/// to the board as `k`. A level
/// has exactly one king and one castle, every kind in it is configured,
/// and every object lies within the board: the first line that breaks
/// this is reported, and after the last line a missing king or castle.
/// Whether the cells that an object covers are free is not looked at;
/// where every object of the level stands on cells of the board that no
/// other object covers, the objects and the board agree.
pub fn generate_objects(
    objects: &Vec<ObjectDesc>,
    grid: &Grid,
    oas: &ObjectAssetServer,
    world: &mut World,
) -> (made: Result<Vec<Object>, LevelError>)
    requires
        grid.wf(),
        old(world).fits(grid),
    ensures
        final(world).fits(grid),
        final(world).objects@ == loaded_slots(
            objects@,
            oas,
            grid,
            lines_before_error(objects@, oas, grid, objects@.len()),
        ),
        match made {
            Ok(list) => {
                &&& level_error(objects@, oas, grid) is None
                &&& list@.len() == objects@.len()
                &&& final(world).objects@ == loaded_slots(objects@, oas, grid, objects@.len())
                &&& forall|k: int|
                    0 <= k < list@.len() ==> is_made(
                        #[trigger] list@[k],
                        k as u64,
                        oas.conf(objects@[k].id)->0,
                        objects@[k].position.0 as int,
                        objects@[k].position.1 as int,
                    ) && list@[k].wf(grid) && list@[k].id == objects@[k].id
                &&& level_is_clean(objects@, oas, grid) ==> agrees(
                    list@,
                    final(world).objects@,
                    grid,
                )
            },
            Err(e) => level_error(objects@, oas, grid) == Some(e),
        },
{
    world.reset();
    proof {
        assert(world.objects@ =~= loaded_slots(objects@, oas, grid, 0));
    }
    let mut king = false;
    let mut castle = false;
    let mut list: Vec<Object> = Vec::new();
    let mut n: usize = 0;
    while n < objects.len()
        invariant
            n <= objects@.len(),
            grid.wf(),
            world.fits(grid),
            king == listed_before(objects@, ObjectID::King, n as int),
            castle == listed_before(objects@, ObjectID::Castle, n as int),
            first_error(objects@, oas, grid, n as nat) is None,
            lines_before_error(objects@, oas, grid, n as nat) == n,
            world.objects@ == loaded_slots(objects@, oas, grid, n as nat),
            list@.len() == n,
            forall|k: int|
                0 <= k < n ==> is_made(
                    #[trigger] list@[k],
                    k as u64,
                    oas.conf(objects@[k].id)->0,
                    objects@[k].position.0 as int,
                    objects@[k].position.1 as int,
                ) && list@[k].wf(grid) && list@[k].id == objects@[k].id,
        decreases objects@.len() - n,
    {
        let line = objects[n];
        proof {
            lemma_first_error_stays(objects@, oas, grid, n as nat + 1, objects@.len());
            if line_error(objects@, oas, grid, n as int) is Some {
                lemma_lines_before_error_stays(objects@, oas, grid, n as nat, objects@.len());
            }
        }
        if line.id == ObjectID::King {
            if king {
                return Err(LevelError::MoreThanOneKing);
            }
            king = true;
        }
        if line.id == ObjectID::Castle {
            if castle {
                return Err(LevelError::MoreThanOneCastle);
            }
            castle = true;
        }
        let conf = match oas.find(line.id) {
            Some(conf) => conf,
            None => {
                return Err(LevelError::MissingConfiguration);
            },
        };
        if conf.occupy.len() == 0 {
            return Err(LevelError::EmptyFootprint);
        }
        if footprint_cells(line.position.0 as i64, line.position.1 as i64, &conf.occupy, grid).is_none() {
            return Err(LevelError::OutsideBoard);
        }
        let object = Object::new(n as u64, line.id, line.position, world, grid, oas);
        list.push(object);
        proof {
            assert(listed_before(objects@, ObjectID::King, n as int + 1) == (listed_before(
                objects@,
                ObjectID::King,
                n as int,
            ) || line.id == ObjectID::King)) by {
                if listed_before(objects@, ObjectID::King, n as int + 1) {
                    let j = choose|j: int|
                        0 <= j < n + 1 && (#[trigger] objects@[j]).id == ObjectID::King;
                    if j < n {
                        assert(objects@[j].id == ObjectID::King);
                    }
                }
                if listed_before(objects@, ObjectID::King, n as int) {
                    let j = choose|j: int|
                        0 <= j < n && (#[trigger] objects@[j]).id == ObjectID::King;
                    assert(objects@[j].id == ObjectID::King);
                }
                if line.id == ObjectID::King {
                    assert(objects@[n as int].id == ObjectID::King);
                }
            }
            assert(listed_before(objects@, ObjectID::Castle, n as int + 1) == (listed_before(
                objects@,
                ObjectID::Castle,
                n as int,
            ) || line.id == ObjectID::Castle)) by {
                if listed_before(objects@, ObjectID::Castle, n as int + 1) {
                    let j = choose|j: int|
                        0 <= j < n + 1 && (#[trigger] objects@[j]).id == ObjectID::Castle;
                    if j < n {
                        assert(objects@[j].id == ObjectID::Castle);
                    }
                }
                if listed_before(objects@, ObjectID::Castle, n as int) {
                    let j = choose|j: int|
                        0 <= j < n && (#[trigger] objects@[j]).id == ObjectID::Castle;
                    assert(objects@[j].id == ObjectID::Castle);
                }
                if line.id == ObjectID::Castle {
                    assert(objects@[n as int].id == ObjectID::Castle);
                }
            }
        }
        n = n + 1;
    }
    if !king || !castle {
        return Err(LevelError::Incomplete);
    }
    proof {
        if level_is_clean(objects@, oas, grid) {
            lemma_level_agrees(list@, objects@, oas, grid, objects@.len());
        }
    }
    Ok(list)
}

proof fn lemma_first_error_stays(
    objects: Seq<ObjectDesc>,
    oas: &ObjectAssetServer,
    grid: &Grid,
    n: nat,
    m: nat,
)
    requires
        n <= m,
    ensures
        first_error(objects, oas, grid, n) is Some ==> first_error(objects, oas, grid, m)
            == first_error(objects, oas, grid, n),
    decreases m,
{
    if n < m {
        lemma_first_error_stays(objects, oas, grid, n, (m - 1) as nat);
    }
}

/// The scenes of the program.
#[derive(Debug, Clone, Copy, PartialEq, Eq, Hash, Structural)]
pub enum AppState {
    Preload,
    Splash,
    Title,
    Credits,
    Game,
    End,
    Transition,
}

/// The number of levels that the game has.
pub const LEVEL_COUNT: usize = 11;

/// The turns taken in the current level.
#[derive(Debug)]
pub struct TurnCounter {
    pub turn: usize,
}

impl TurnCounter {
    /// A counter at zero.
    pub fn new() -> (counter: TurnCounter)
        ensures
            counter.turn == 0,
    {
        TurnCounter { turn: 0 }
    }

    pub fn value(&self) -> (v: usize)
        ensures
            v == self.turn,
    {
        self.turn
    }
}

/// The points of the player: now, and when the current level began.
#[derive(Debug)]
pub struct Score {
    pub previous: usize,
    pub current: usize,
}

impl Score {
    /// A score of zero.
    pub fn new() -> (score: Score)
        ensures
            score.previous == 0,
            score.current == 0,
    {
        Score { previous: 0, current: 0 }
    }

    pub fn value(&self) -> (v: usize)
        ensures
            v == self.current,
    {
        self.current
    }
}

/// Which level is played, out of how many.
#[derive(Debug)]
pub struct Level {
    pub current: usize,
    pub maximum: usize,
}

impl Level {
    /// Level `current` of the game.
    pub fn new(current: usize) -> (level: Level)
        requires
            current < LEVEL_COUNT,
        ensures
            level.current == current,
            level.maximum == LEVEL_COUNT,
    {
        Level { current, maximum: LEVEL_COUNT }
    }

    pub fn value(&self) -> (v: usize)
        ensures
            v == self.current,
    {
        self.current
    }

    /// Moves on to the next level and says which scene follows: the game
    /// again, or the splash screen after the last level, which then stays
    /// the current one.
    pub fn next(&mut self) -> (scene: AppState)
        requires
            old(self).current < usize::MAX,
            old(self).maximum >= 1,
        ensures
            final(self).maximum == old(self).maximum,
            old(self).current + 1 < old(self).maximum ==> scene == AppState::Game
                && final(self).current == old(self).current + 1,
            old(self).current + 1 >= old(self).maximum ==> scene == AppState::Splash
                && final(self).current == old(self).maximum - 1,
    {
        self.current += 1;
        if self.current >= self.maximum {
            self.current = self.maximum - 1;
            return AppState::Splash;
        }
        AppState::Game
    }
}

} // verus!
