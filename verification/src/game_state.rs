use vstd::prelude::*;

use crate::ecs::{
    entity_count, insert_movable, insert_on_grid, insert_player_tag, insert_position, insert_solid,
    is_solid, movable_position, new_world, position_of, spawn_empty, world_model, WorldModel,
};
use crate::utils::{advance_pos_in_direction, advanced, step_overflows};

verus! {

/// One of the four directions in which things move on the grid.
#[derive(Clone, Copy, Debug, PartialEq, Eq, Structural)]
pub enum Direction {
    North,
    East,
    South,
    West,
}

/// An entity that commands can move.
pub struct Movable;

/// An entity that stands on a grid cell, at its `GridPos`.
pub struct OnGrid;

/// An entity that no other entity may step onto.
pub struct Solid;

/// The entity the player controls.
pub(crate) struct PlayerTag;

/// A cell coordinate on the grid: `x` grows to the east, `y` to the south.
#[derive(Clone, Copy, Debug, PartialEq, Eq, Structural)]
pub struct GridPos {
    pub x: u32,
    pub y: u32,
}

/// `s` with every occurrence of `e` taken out, the rest in order.
pub open spec fn without(s: Seq<u64>, e: u64) -> Seq<u64>
    decreases s.len(),
{
    if s.len() == 0 {
        s
    } else if s.last() == e {
        without(s.drop_last(), e)
    } else {
        without(s.drop_last(), e).push(s.last())
    }
}

/// What a grid holds: its size and, row by row, the entities listed in each cell.
pub struct GridModel {
    pub width: u32,
    pub height: u32,
    pub cells: Seq<Seq<u64>>,
}

impl GridModel {
    /// One list of entities per cell, and a cell count that fits in `u32`.
    pub open spec fn wf(self) -> bool {
        &&& self.cells.len() == self.width * self.height
        &&& self.width * self.height <= u32::MAX
    }

    pub open spec fn in_bounds(self, x: int, y: int) -> bool {
        0 <= x < self.width && 0 <= y < self.height
    }

    /// Where the cell `(x, y)` stands in `cells`.
    pub open spec fn index(self, x: int, y: int) -> int {
        y * self.width + x
    }

    /// The entities listed in cell `(x, y)`.
    pub open spec fn cell(self, x: int, y: int) -> Seq<u64> {
        self.cells[self.index(x, y)]
    }

    /// The grid with `e` listed last in cell `(x, y)`; unchanged when the cell
    /// lies outside the grid.
    pub open spec fn with_added(self, e: u64, x: int, y: int) -> GridModel {
        if self.in_bounds(x, y) {
            GridModel {
                cells: self.cells.update(self.index(x, y), self.cell(x, y).push(e)),
                ..self
            }
        } else {
            self
        }
    }

    /// The grid with `e` taken out of cell `(x, y)`; unchanged when the cell
    /// lies outside the grid.
    pub open spec fn with_removed(self, e: u64, x: int, y: int) -> GridModel {
        if self.in_bounds(x, y) {
            GridModel {
                cells: self.cells.update(self.index(x, y), without(self.cell(x, y), e)),
                ..self
            }
        } else {
            self
        }
    }
}

/// A cell inside the grid has an index inside `cells`, and different cells
/// have different indices.
pub proof fn lemma_index(g: GridModel, x: int, y: int)
    requires
        g.in_bounds(x, y),
    ensures
        0 <= g.index(x, y) < g.width * g.height,
        forall|x2: int, y2: int|
            g.in_bounds(x2, y2) && g.index(x2, y2) == g.index(x, y) ==> x2 == x && y2 == y,
{
    let w = g.width as int;
    let h = g.height as int;
    assert(0 <= y * w + x < w * h) by (nonlinear_arith)
        requires
            0 <= x < w,
            0 <= y < h,
    ;
    assert forall|x2: int, y2: int|
        g.in_bounds(x2, y2) && g.index(x2, y2) == g.index(x, y) implies x2 == x && y2 == y by {
        assert(y2 == y && x2 == x) by (nonlinear_arith)
            requires
                0 <= x < w,
                0 <= x2 < w,
                0 <= y,
                0 <= y2,
                y2 * w + x2 == y * w + x,
        ;
    }
}

/// The cells of the world, each listing the entities that stand on it in the
/// order they arrived.
pub struct Grid {
    cells: Vec<Vec<u64>>,
    width: u32,
    height: u32,
}

impl View for Grid {
    type V = GridModel;

    closed spec fn view(&self) -> GridModel {
        GridModel {
            width: self.width,
            height: self.height,
            cells: self.cells@.map_values(|c: Vec<u64>| c@),
        }
    }
}

impl Grid {
    /// An empty grid of `width` by `height` cells.
    pub fn new(width: u32, height: u32) -> (res: Self)
        requires
            width * height <= u32::MAX,
        ensures
            res@.wf(),
            res@.width == width,
            res@.height == height,
            forall|i: int| 0 <= i < res@.cells.len() ==> #[trigger] res@.cells[i] == Seq::<u64>::empty(),
    {
        let capacity = (width * height) as usize;
        let mut cells: Vec<Vec<u64>> = Vec::with_capacity(capacity);
        let mut i: usize = 0;
        while i < capacity
            invariant
                i <= capacity,
                capacity == width * height,
                cells@.len() == i,
                forall|j: int| 0 <= j < i ==> #[trigger] cells@[j]@ == Seq::<u64>::empty(),
            decreases capacity - i,
        {
            cells.push(Vec::with_capacity(1));
            i += 1;
        }
        Grid { cells, width, height }
    }

    pub fn width(&self) -> (res: u32)
        ensures
            res == self@.width,
    {
        self.width
    }

    pub fn height(&self) -> (res: u32)
        ensures
            res == self@.height,
    {
        self.height
    }

    /// Where cell `(x, y)` stands in the list of cells, if it lies in the grid.
    fn index(&self, x: u32, y: u32) -> (res: Option<usize>)
        requires
            self@.wf(),
        ensures
            match res {
                Some(i) => self@.in_bounds(x as int, y as int) && i == self@.index(x as int, y as int),
                None => !self@.in_bounds(x as int, y as int),
            },
    {
        if x >= self.width || y >= self.height {
            return None;
        }
        proof {
            lemma_index(self@, x as int, y as int);
        }
        Some((y * self.width + x) as usize)
    }

    /// The entities in cell `(x, y)`, if it lies in the grid.
    pub fn get_cell(&self, x: u32, y: u32) -> (res: Option<&[u64]>)
        requires
            self@.wf(),
        ensures
            match res {
                Some(c) => self@.in_bounds(x as int, y as int) && c@ == self@.cell(x as int, y as int),
                None => !self@.in_bounds(x as int, y as int),
            },
    {
        match self.index(x, y) {
            Some(idx) => {
                proof {
                    lemma_index(self@, x as int, y as int);
                }
                Some(self.cells[idx].as_slice())
            },
            None => None,
        }
    }

    /// Lists `entity` last in cell `(x, y)`; does nothing outside the grid.
    fn add_to_cell(&mut self, entity: u64, x: u32, y: u32)
        requires
            old(self)@.wf(),
        ensures
            final(self)@ == old(self)@.with_added(entity, x as int, y as int),
            final(self)@.wf(),
    {
        if let Some(idx) = self.index(x, y) {
            proof {
                lemma_index(self@, x as int, y as int);
            }
            self.cells[idx].push(entity);
            proof {
                assert(self@.cells =~= old(self)@.cells.update(idx as int, old(self)@.cells[idx as int].push(entity)));
            }
        }
    }

    /// Takes every occurrence of `entity` out of cell `(x, y)`; does nothing
    /// outside the grid.
    fn remove_from_cell(&mut self, entity: u64, x: u32, y: u32)
        requires
            old(self)@.wf(),
        ensures
            final(self)@ == old(self)@.with_removed(entity, x as int, y as int),
            final(self)@.wf(),
    {
        if let Some(idx) = self.index(x, y) {
            proof {
                lemma_index(self@, x as int, y as int);
            }
            let cell = &self.cells[idx];
            let mut kept: Vec<u64> = Vec::with_capacity(cell.len());
            let mut i: usize = 0;
            while i < cell.len()
                invariant
                    i <= cell@.len(),
                    kept@ == without(cell@.take(i as int), entity),
                decreases cell@.len() - i,
            {
                if cell[i] != entity {
                    kept.push(cell[i]);
                }
                proof {
                    assert(cell@.take(i + 1).drop_last() =~= cell@.take(i as int));
                }
                i += 1;
            }
            proof {
                assert(cell@.take(i as int) =~= cell@);
            }
            self.cells.set(idx, kept);
            proof {
                assert(self@.cells =~= old(self)@.cells.update(idx as int, without(old(self)@.cells[idx as int], entity)));
            }
        }
    }
}

/// What `without` keeps: everything but `e`, and no element twice if there was none.
pub proof fn lemma_without(s: Seq<u64>, e: u64)
    ensures
        forall|f: u64| #[trigger] without(s, e).contains(f) <==> s.contains(f) && f != e,
        s.no_duplicates() ==> without(s, e).no_duplicates(),
    decreases s.len(),
{
    if s.len() > 0 {
        let d = s.drop_last();
        let l = s.last();
        let wd = without(d, e);
        let ws = without(s, e);
        lemma_without(d, e);
        assert(s =~= d.push(l));
        assert(ws == if l == e { wd } else { wd.push(l) });
        assert forall|f: u64| #[trigger] ws.contains(f) <==> s.contains(f) && f != e by {
            if s.contains(f) && f != e {
                let k = choose|k: int| 0 <= k < s.len() && s[k] == f;
                if k < d.len() {
                    assert(d[k] == f);
                    assert(d.contains(f));
                    assert(wd.contains(f));
                    let j = choose|j: int| 0 <= j < wd.len() && wd[j] == f;
                    assert(ws[j] == f);
                } else {
                    assert(l == f);
                    assert(ws[ws.len() - 1] == f);
                }
            }
            if ws.contains(f) {
                let k = choose|k: int| 0 <= k < ws.len() && ws[k] == f;
                if l == e || k < wd.len() {
                    assert(wd[k] == f);
                    assert(wd.contains(f));
                    let j = choose|j: int| 0 <= j < d.len() && d[j] == f;
                    assert(s[j] == f);
                } else {
                    assert(f == l);
                    assert(s[s.len() - 1] == f);
                }
            }
        }
        if s.no_duplicates() {
            assert(d.no_duplicates()) by {
                assert forall|i: int, j: int|
                    0 <= i < d.len() && 0 <= j < d.len() && i != j implies d[i] != d[j] by {
                    assert(s[i] == d[i] && s[j] == d[j]);
                }
            }
            if l != e {
                assert(!d.contains(l)) by {
                    if d.contains(l) {
                        let j = choose|j: int| 0 <= j < d.len() && d[j] == l;
                        assert(s[j] == s[s.len() - 1]);
                    }
                }
                assert(!wd.contains(l));
                assert forall|i: int, j: int|
                    0 <= i < ws.len() && 0 <= j < ws.len() && i != j implies ws[i] != ws[j] by {
                    if i == wd.len() {
                        assert(wd.contains(wd[j]));
                    } else if j == wd.len() {
                        assert(wd.contains(wd[i]));
                    } else {
                        assert(ws[i] == wd[i] && ws[j] == wd[j]);
                    }
                }
            }
        }
    }
}

/// The whole state of the game: the grid, the world's entities, and which of
/// them the player controls.
pub struct StateModel {
    pub grid: GridModel,
    pub world: WorldModel,
    pub player: Option<u64>,
}

/// What an entity is spawned with, among the components the rules read.
#[derive(Clone, Copy, Debug, PartialEq, Eq, Structural)]
pub struct Components {
    pub position: Option<GridPos>,
    pub movable: bool,
    pub on_grid: bool,
    pub solid: bool,
}

/// `w` with the new entity `id` holding `c`.
pub open spec fn with_spawned(w: WorldModel, id: u64, c: Components) -> WorldModel {
    WorldModel {
        entities: w.entities.insert(id),
        positions: match c.position {
            Some(p) => w.positions.insert(id, p),
            None => w.positions,
        },
        movable: if c.movable { w.movable.insert(id) } else { w.movable },
        on_grid: if c.on_grid { w.on_grid.insert(id) } else { w.on_grid },
        solid: if c.solid { w.solid.insert(id) } else { w.solid },
        player_tagged: w.player_tagged,
    }
}

/// `min(v, limit - 1)`: the coordinate `v` brought inside `0..limit`.
pub open spec fn clamp_below(v: u32, limit: u32) -> u32 {
    if v >= limit { (limit - 1) as u32 } else { v }
}

impl StateModel {
    /// Every entity listed in a cell is alive, on the grid, and placed at that cell.
    pub open spec fn listed_where_placed(self) -> bool {
        forall|x: int, y: int, k: int|
            self.grid.in_bounds(x, y) && 0 <= k < self.grid.cell(x, y).len() ==> {
                let e = #[trigger] self.grid.cell(x, y)[k];
                &&& self.world.entities.contains(e)
                &&& self.world.on_grid.contains(e)
                &&& self.world.positions.dom().contains(e)
                &&& self.world.positions[e] == GridPos { x: x as u32, y: y as u32 }
            }
    }

    /// Every live entity on the grid whose position lies in the grid is listed in that cell.
    pub open spec fn placed_are_listed(self) -> bool {
        forall|e: u64|
            #![trigger self.world.positions[e]]
            self.world.entities.contains(e) && self.world.on_grid.contains(e)
                && self.world.positions.dom().contains(e) && self.grid.in_bounds(
                self.world.positions[e].x as int,
                self.world.positions[e].y as int,
            ) ==> self.grid.cell(
                self.world.positions[e].x as int,
                self.world.positions[e].y as int,
            ).contains(e)
    }

    /// No cell lists an entity twice.
    pub open spec fn cells_without_repeats(self) -> bool {
        forall|x: int, y: int|
            self.grid.in_bounds(x, y) ==> (#[trigger] self.grid.cell(x, y)).no_duplicates()
    }

    /// The grid lists exactly the entities that stand on it, each once, at its position.
    pub open spec fn wf(self) -> bool {
        &&& self.grid.wf()
        &&& self.world.wf()
        &&& self.listed_where_placed()
        &&& self.placed_are_listed()
        &&& self.cells_without_repeats()
    }

    /// Some solid entity is listed in cell `(x, y)`.
    pub open spec fn blocked(self, x: int, y: int) -> bool {
        exists|k: int|
            0 <= k < self.grid.cell(x, y).len() && self.world.solid.contains(
                #[trigger] self.grid.cell(x, y)[k],
            )
    }

    /// The position of `e` when it is movable, on the grid and placed.
    pub open spec fn movable_position(self, e: u64) -> Option<GridPos> {
        if self.world.positions.dom().contains(e) && self.world.movable.contains(e)
            && self.world.on_grid.contains(e) {
            Some(self.world.positions[e])
        } else {
            None
        }
    }

    /// The state after an attempt to move `e` towards cell `(x, y)`: the target
    /// is brought inside the grid; a solid entity there, or an `e` that is not
    /// movable and placed on the grid, leaves everything as it was; otherwise
    /// `e` leaves its cell, is listed last in the target cell and takes its
    /// position.
    pub open spec fn moved(self, e: u64, x: u32, y: u32) -> StateModel {
        let cx = clamp_below(x, self.grid.width);
        let cy = clamp_below(y, self.grid.height);
        if self.blocked(cx as int, cy as int) {
            self
        } else {
            match self.movable_position(e) {
                Some(p) => StateModel {
                    grid: self.grid.with_removed(e, p.x as int, p.y as int).with_added(
                        e,
                        cx as int,
                        cy as int,
                    ),
                    world: WorldModel {
                        positions: self.world.positions.insert(e, GridPos { x: cx, y: cy }),
                        ..self.world
                    },
                    ..self
                },
                None => self,
            }
        }
    }

    /// The state after an attempt to move the player one step in direction `dir`.
    pub open spec fn moved_player(self, dir: Direction) -> StateModel {
        match self.player {
            Some(p) => match self.movable_position(p) {
                Some(pos) => self.moved(p, advanced(pos, dir).x, advanced(pos, dir).y),
                None => self,
            },
            None => self,
        }
    }

    /// A step of the player in direction `dir` would leave the range of `u32`.
    pub open spec fn player_step_overflows(self, dir: Direction) -> bool {
        match self.player {
            Some(p) => match self.movable_position(p) {
                Some(pos) => step_overflows(pos, dir),
                None => false,
            },
            None => false,
        }
    }
}

proof fn lemma_push_no_duplicates(s: Seq<u64>, v: u64)
    requires
        s.no_duplicates(),
        !s.contains(v),
    ensures
        s.push(v).no_duplicates(),
{
    let t = s.push(v);
    assert forall|i: int, j: int| 0 <= i < t.len() && 0 <= j < t.len() && i != j implies t[i] != t[j] by {
        if i == s.len() {
            assert(s.contains(s[j]));
        } else if j == s.len() {
            assert(s.contains(s[i]));
        } else {
            assert(t[i] == s[i] && t[j] == s[j]);
        }
    }
}

/// The cells of a grid after `with_removed`.
proof fn lemma_cell_of_removed(g: GridModel, e: u64, px: int, py: int, x: int, y: int)
    requires
        g.wf(),
    ensures
        g.with_removed(e, px, py).wf(),
        g.with_removed(e, px, py).width == g.width,
        g.with_removed(e, px, py).height == g.height,
        g.in_bounds(x, y) ==> g.with_removed(e, px, py).cell(x, y) == if g.in_bounds(px, py) && px == x && py == y {
            without(g.cell(x, y), e)
        } else {
            g.cell(x, y)
        },
{
    if g.in_bounds(x, y) {
        lemma_index(g, x, y);
    }
    if g.in_bounds(px, py) {
        lemma_index(g, px, py);
    }
}

/// The cells of a grid after `with_added`.
proof fn lemma_cell_of_added(g: GridModel, e: u64, px: int, py: int, x: int, y: int)
    requires
        g.wf(),
    ensures
        g.with_added(e, px, py).wf(),
        g.with_added(e, px, py).width == g.width,
        g.with_added(e, px, py).height == g.height,
        g.in_bounds(x, y) ==> g.with_added(e, px, py).cell(x, y) == if g.in_bounds(px, py) && px == x && py == y {
            g.cell(x, y).push(e)
        } else {
            g.cell(x, y)
        },
{
    if g.in_bounds(x, y) {
        lemma_index(g, x, y);
    }
    if g.in_bounds(px, py) {
        lemma_index(g, px, py);
    }
}

/// An entity listed in a cell of a well-formed state is placed at that cell.
proof fn lemma_listed_is_placed(s: StateModel, x: int, y: int, f: u64)
    requires
        s.wf(),
        s.grid.in_bounds(x, y),
        s.grid.cell(x, y).contains(f),
    ensures
        s.world.entities.contains(f),
        s.world.on_grid.contains(f),
        s.world.positions.dom().contains(f),
        s.world.positions[f] == (GridPos { x: x as u32, y: y as u32 }),
{
    let k = choose|k: int| 0 <= k < s.grid.cell(x, y).len() && s.grid.cell(x, y)[k] == f;
    assert(s.grid.cell(x, y)[k] == f);
}

/// Moving keeps the grid in agreement with the entities' positions.
pub proof fn lemma_moved_wf(s: StateModel, e: u64, x: u32, y: u32)
    requires
        s.wf(),
        s.grid.width >= 1,
        s.grid.height >= 1,
    ensures
        s.moved(e, x, y).wf(),
        s.moved(e, x, y).grid.width == s.grid.width,
        s.moved(e, x, y).grid.height == s.grid.height,
{
    let cx = clamp_below(x, s.grid.width) as int;
    let cy = clamp_below(y, s.grid.height) as int;
    if !s.blocked(cx, cy) && s.movable_position(e) is Some {
        let p = s.world.positions[e];
        let px = p.x as int;
        let py = p.y as int;
        let g = s.grid;
        let g1 = g.with_removed(e, px, py);
        let t = s.moved(e, x, y);
        let g2 = t.grid;
        assert(g2 == g1.with_added(e, cx, cy));
        assert(g.in_bounds(cx, cy));
        lemma_cell_of_removed(g, e, px, py, cx, cy);
        lemma_cell_of_added(g1, e, cx, cy, cx, cy);
        assert(t.world.positions.dom() =~= s.world.positions.dom());
        // e is not yet listed in its target cell, unless it leaves that very cell.
        assert(!g1.cell(cx, cy).contains(e)) by {
            lemma_without(g.cell(cx, cy), e);
            if g.cell(cx, cy).contains(e) {
                lemma_listed_is_placed(s, cx, cy, e);
            }
        }
        assert(t.listed_where_placed()) by {
            assert forall|a: int, b: int, k: int|
                g2.in_bounds(a, b) && 0 <= k < g2.cell(a, b).len() implies {
                let f = #[trigger] g2.cell(a, b)[k];
                &&& t.world.entities.contains(f)
                &&& t.world.on_grid.contains(f)
                &&& t.world.positions.dom().contains(f)
                &&& t.world.positions[f] == GridPos { x: a as u32, y: b as u32 }
            } by {
                lemma_cell_of_removed(g, e, px, py, a, b);
                lemma_cell_of_added(g1, e, cx, cy, a, b);
                let f = g2.cell(a, b)[k];
                if a == cx && b == cy && k == g1.cell(a, b).len() {
                    assert(f == e);
                } else {
                    assert(f == g1.cell(a, b)[k]);
                    assert(g1.cell(a, b).contains(f));
                    lemma_without(g.cell(a, b), e);
                    assert(g.cell(a, b).contains(f));
                    lemma_listed_is_placed(s, a, b, f);
                    assert(f != e);
                }
            }
        }
        assert(t.placed_are_listed()) by {
            assert forall|f: u64|
                #![trigger t.world.positions[f]]
                t.world.entities.contains(f) && t.world.on_grid.contains(f)
                    && t.world.positions.dom().contains(f) && g2.in_bounds(
                    t.world.positions[f].x as int,
                    t.world.positions[f].y as int,
                ) implies g2.cell(
                t.world.positions[f].x as int,
                t.world.positions[f].y as int,
            ).contains(f) by {
                if f == e {
                    assert(g2.cell(cx, cy) == g1.cell(cx, cy).push(e));
                    assert(g2.cell(cx, cy)[g1.cell(cx, cy).len() as int] == e);
                } else {
                    let q = s.world.positions[f];
                    assert(t.world.positions[f] == q);
                    let qx = q.x as int;
                    let qy = q.y as int;
                    assert(g.cell(qx, qy).contains(f));
                    lemma_cell_of_removed(g, e, px, py, qx, qy);
                    lemma_cell_of_added(g1, e, cx, cy, qx, qy);
                    lemma_without(g.cell(qx, qy), e);
                    assert(g1.cell(qx, qy).contains(f));
                    if qx == cx && qy == cy {
                        let j = choose|j: int| 0 <= j < g1.cell(qx, qy).len() && g1.cell(qx, qy)[j] == f;
                        assert(g2.cell(qx, qy)[j] == f);
                    }
                }
            }
        }
        assert(t.cells_without_repeats()) by {
            assert forall|a: int, b: int| g2.in_bounds(a, b) implies (#[trigger] g2.cell(a, b)).no_duplicates() by {
                lemma_cell_of_removed(g, e, px, py, a, b);
                lemma_cell_of_added(g1, e, cx, cy, a, b);
                lemma_without(g.cell(a, b), e);
                assert(g.cell(a, b).no_duplicates());
                assert(g1.cell(a, b).no_duplicates());
                if a == cx && b == cy {
                    lemma_push_no_duplicates(g1.cell(a, b), e);
                }
            }
        }
        assert(t.world.wf()) by {
            assert(t.world.positions.dom().subset_of(t.world.entities));
        }
        lemma_cell_of_added(g1, e, cx, cy, cx, cy);
    }
}

impl StateModel {
    /// The state after spawning the new entity `id` with components `c`: it is
    /// listed in the cell of its position when it has one and stands on the grid.
    pub open spec fn spawned(self, id: u64, c: Components) -> StateModel {
        StateModel {
            grid: match c.position {
                Some(p) => if c.on_grid {
                    self.grid.with_added(id, p.x as int, p.y as int)
                } else {
                    self.grid
                },
                None => self.grid,
            },
            world: with_spawned(self.world, id, c),
            player: self.player,
        }
    }

    /// The state after spawning the new entity `id` with components `c` and
    /// making it the player.
    pub open spec fn spawned_player(self, id: u64, c: Components) -> StateModel {
        let t = self.spawned(id, c);
        StateModel {
            world: WorldModel { player_tagged: t.world.player_tagged.insert(id), ..t.world },
            player: Some(id),
            ..t
        }
    }
}

/// Spawning keeps the grid in agreement with the entities' positions.
pub proof fn lemma_spawned_wf(s: StateModel, id: u64, c: Components)
    requires
        s.wf(),
        !s.world.entities.contains(id),
    ensures
        s.spawned(id, c).wf(),
        s.spawned_player(id, c).wf(),
{
    let t = s.spawned(id, c);
    let g = s.grid;
    let g2 = t.grid;
    let placed = c.position is Some && c.on_grid;
    let px = if placed { c.position->0.x as int } else { 0 };
    let py = if placed { c.position->0.y as int } else { 0 };
    assert(placed ==> g2 == g.with_added(id, px, py));
    assert(!placed ==> g2 == g);
    assert forall|a: int, b: int| g.in_bounds(a, b) implies !(#[trigger] g.cell(a, b)).contains(id) by {
        if g.cell(a, b).contains(id) {
            lemma_listed_is_placed(s, a, b, id);
        }
    }
    assert(t.world.wf()) by {
        assert(t.world.positions.dom().subset_of(t.world.entities));
        assert(t.world.entities.finite());
    }
    assert(t.listed_where_placed()) by {
        assert forall|a: int, b: int, k: int|
            g2.in_bounds(a, b) && 0 <= k < g2.cell(a, b).len() implies {
            let f = #[trigger] g2.cell(a, b)[k];
            &&& t.world.entities.contains(f)
            &&& t.world.on_grid.contains(f)
            &&& t.world.positions.dom().contains(f)
            &&& t.world.positions[f] == GridPos { x: a as u32, y: b as u32 }
        } by {
            if placed {
                lemma_cell_of_added(g, id, px, py, a, b);
            }
            let f = g2.cell(a, b)[k];
            if placed && a == px && b == py && k == g.cell(a, b).len() {
                assert(f == id);
            } else {
                assert(f == g.cell(a, b)[k]);
                assert(g.cell(a, b).contains(f));
                lemma_listed_is_placed(s, a, b, f);
            }
        }
    }
    assert(t.placed_are_listed()) by {
        assert forall|f: u64|
            #![trigger t.world.positions[f]]
            t.world.entities.contains(f) && t.world.on_grid.contains(f)
                && t.world.positions.dom().contains(f) && g2.in_bounds(
                t.world.positions[f].x as int,
                t.world.positions[f].y as int,
            ) implies g2.cell(
            t.world.positions[f].x as int,
            t.world.positions[f].y as int,
        ).contains(f) by {
            if f == id {
                lemma_cell_of_added(g, id, px, py, px, py);
                assert(g2.cell(px, py)[g.cell(px, py).len() as int] == id);
            } else {
                let q = s.world.positions[f];
                let qx = q.x as int;
                let qy = q.y as int;
                assert(g.cell(qx, qy).contains(f));
                if placed {
                    lemma_cell_of_added(g, id, px, py, qx, qy);
                    if qx == px && qy == py {
                        let j = choose|j: int| 0 <= j < g.cell(qx, qy).len() && g.cell(qx, qy)[j] == f;
                        assert(g2.cell(qx, qy)[j] == f);
                    }
                }
            }
        }
    }
    assert(t.cells_without_repeats()) by {
        assert forall|a: int, b: int| g2.in_bounds(a, b) implies (#[trigger] g2.cell(a, b)).no_duplicates() by {
            assert(g.cell(a, b).no_duplicates());
            if placed {
                lemma_cell_of_added(g, id, px, py, a, b);
                if a == px && b == py {
                    lemma_push_no_duplicates(g.cell(a, b), id);
                }
            }
        }
    }
    if placed {
        lemma_cell_of_added(g, id, px, py, 0, 0);
    }
    let u = s.spawned_player(id, c);
    assert(u.world.wf()) by {
        assert(u.world.positions.dom().subset_of(u.world.entities));
    }
}

/// The game world: the grid and the entities that live on it.
/// Its fields are private: only the operations below change the grid and the
/// world, and each keeps them in agreement.
pub struct State {
    grid: Grid,
    world: hecs::World,
    player_entity: Option<u64>,
}

impl View for State {
    type V = StateModel;

    closed spec fn view(&self) -> StateModel {
        StateModel { grid: self.grid@, world: world_model(self.world), player: self.player_entity }
    }
}

impl State {
    /// An empty world on a grid of `width` by `height` cells.
    pub fn with_grid_size(width: u32, height: u32) -> (res: Self)
        requires
            width * height <= u32::MAX,
        ensures
            res@.wf(),
            res@.grid.width == width,
            res@.grid.height == height,
            forall|i: int| 0 <= i < res@.grid.cells.len() ==> #[trigger] res@.grid.cells[i] == Seq::<u64>::empty(),
            res@.world == WorldModel::empty(),
            res@.player is None,
    {
        let grid = Grid::new(width, height);
        let world = new_world();
        let res = Self { grid, world, player_entity: None };
        proof {
            let m = res@;
            assert(m.world.wf());
            assert forall|a: int, b: int| m.grid.in_bounds(a, b) implies (#[trigger] m.grid.cell(a, b)).len() == 0 by {
                lemma_index(m.grid, a, b);
            }
            assert(m.listed_where_placed());
            assert(m.cells_without_repeats()) by {
                assert forall|a: int, b: int| m.grid.in_bounds(a, b) implies (#[trigger] m.grid.cell(a, b)).no_duplicates() by {
                    lemma_index(m.grid, a, b);
                }
            }
        }
        res
    }

    /// The grid, to read.
    pub fn grid(&self) -> (res: &Grid)
        ensures
            res@ == self@.grid,
    {
        &self.grid
    }

    /// The position of `entity`, when it is alive and has one.
    pub fn position(&self, entity: u64) -> (res: Option<GridPos>)
        ensures
            res == if self@.world.positions.dom().contains(entity) {
                Some(self@.world.positions[entity])
            } else {
                None::<GridPos>
            },
    {
        position_of(&self.world, entity)
    }

    /// The number of live entities.
    pub fn entity_count(&mut self) -> (n: u32)
        ensures
            final(self)@ == old(self)@,
            n as int == old(self)@.world.entities.len(),
    {
        entity_count(&mut self.world)
    }

    /// Tries to move `entity` to cell `(x, y)`, brought inside the grid: the
    /// move happens only when no solid entity stands there and the entity is
    /// movable and placed on the grid.
    pub fn move_entity(&mut self, entity: u64, x: u32, y: u32)
        requires
            old(self)@.wf(),
            old(self)@.grid.width >= 1,
            old(self)@.grid.height >= 1,
        ensures
            final(self)@ == old(self)@.moved(entity, x, y),
            final(self)@.wf(),
    {
        proof {
            lemma_moved_wf(self@, entity, x, y);
        }
        let max_horizontal_index = self.grid.width() - 1;
        let max_vertical_index = self.grid.height() - 1;

        // `clamp(0, max)`; an unsigned coordinate is never below 0.
        let x = if x > max_horizontal_index { max_horizontal_index } else { x };
        let y = if y > max_vertical_index { max_vertical_index } else { y };

        let cell_entities = match self.grid.get_cell(x, y) {
            Some(c) => c,
            None => return ,
        };

        let mut has_solid_entities = false;
        let mut k: usize = 0;
        while !has_solid_entities && k < cell_entities.len()
            invariant
                k <= cell_entities@.len(),
                cell_entities@ == self@.grid.cell(x as int, y as int),
                has_solid_entities ==> self@.blocked(x as int, y as int),
                !has_solid_entities ==> forall|j: int|
                    0 <= j < k ==> !self@.world.solid.contains(#[trigger] cell_entities@[j]),
            decreases cell_entities@.len() - k,
        {
            if is_solid(&self.world, cell_entities[k]) {
                assert(self@.grid.cell(x as int, y as int)[k as int] == cell_entities@[k as int]);
                has_solid_entities = true;
            }
            k += 1;
        }
        if has_solid_entities {
            return ;
        }

        if let Some(entity_pos) = movable_position(&mut self.world, entity) {
            self.grid.remove_from_cell(entity, entity_pos.x, entity_pos.y);
            insert_position(&mut self.world, entity, GridPos { x, y });
            self.grid.add_to_cell(entity, x, y);
        }
    }

    /// Moves the player one step in direction `dir`, as `move_entity` does.
    pub fn move_player(&mut self, dir: Direction)
        requires
            old(self)@.wf(),
            old(self)@.grid.width >= 1,
            old(self)@.grid.height >= 1,
            !old(self)@.player_step_overflows(dir),
        ensures
            final(self)@ == old(self)@.moved_player(dir),
            final(self)@.wf(),
    {
        let player_entity = match self.player_entity {
            Some(e) => e,
            None => return ,
        };
        let pos = match movable_position(&mut self.world, player_entity) {
            Some(p) => p,
            None => return ,
        };
        let dest = advance_pos_in_direction(pos, dir);
        self.move_entity(player_entity, dest.x, dest.y);
    }

    /// Moves the player as `move_player` does, unless the step would leave the
    /// range of `u32`; returns whether it made the attempt.
    pub fn try_move_player(&mut self, dir: Direction) -> (attempted: bool)
        requires
            old(self)@.wf(),
            old(self)@.grid.width >= 1,
            old(self)@.grid.height >= 1,
        ensures
            attempted == !old(self)@.player_step_overflows(dir),
            attempted ==> final(self)@ == old(self)@.moved_player(dir),
            !attempted ==> final(self)@ == old(self)@,
            final(self)@.wf(),
    {
        if let Some(player_entity) = self.player_entity {
            if let Some(pos) = movable_position(&mut self.world, player_entity) {
                let overflows = match dir {
                    Direction::East => pos.x == u32::MAX,
                    Direction::South => pos.y == u32::MAX,
                    _ => false,
                };
                if overflows {
                    return false;
                }
            }
        }
        self.move_player(dir);
        true
    }

    /// Spawns an entity with components `c` and lists it in the cell of its
    /// position when it has one and stands on the grid.
    pub fn spawn_entity(&mut self, components: Components) -> (entity: u64)
        requires
            old(self)@.wf(),
            old(self)@.world.entities.len() < u32::MAX,
        ensures
            !old(self)@.world.entities.contains(entity),
            final(self)@ == old(self)@.spawned(entity, components),
            final(self)@.wf(),
    {
        let entity = spawn_empty(&mut self.world);
        proof {
            lemma_spawned_wf(old(self)@, entity, components);
        }
        if let Some(pos) = components.position {
            insert_position(&mut self.world, entity, pos);
        }
        if components.movable {
            insert_movable(&mut self.world, entity);
        }
        if components.on_grid {
            insert_on_grid(&mut self.world, entity);
        }
        if components.solid {
            insert_solid(&mut self.world, entity);
        }
        if let Some(pos) = components.position {
            if components.on_grid {
                self.grid.add_to_cell(entity, pos.x, pos.y);
            }
        }
        proof {
            assert(self@.world == with_spawned(old(self)@.world, entity, components));
        }
        entity
    }

    /// Spawns an entity as `spawn_entity` does and makes it the player.
    pub fn spawn_player(&mut self, components: Components) -> (entity: u64)
        requires
            old(self)@.wf(),
            old(self)@.world.entities.len() < u32::MAX,
        ensures
            !old(self)@.world.entities.contains(entity),
            final(self)@ == old(self)@.spawned_player(entity, components),
            final(self)@.wf(),
    {
        let entity = self.spawn_entity(components);
        insert_player_tag(&mut self.world, entity);
        self.player_entity = Some(entity);
        proof {
            lemma_spawned_wf(old(self)@, entity, components);
        }
        entity
    }
}

/// `without` leaves a list that does not hold `e` as it is.
proof fn lemma_without_absent(s: Seq<u64>, e: u64)
    requires
        !s.contains(e),
    ensures
        without(s, e) == s,
    decreases s.len(),
{
    if s.len() > 0 {
        let d = s.drop_last();
        assert(!d.contains(e)) by {
            if d.contains(e) {
                let j = choose|j: int| 0 <= j < d.len() && d[j] == e;
                assert(s[j] == e);
            }
        }
        assert(s[s.len() - 1] != e);
        lemma_without_absent(d, e);
        assert(s =~= d.push(s.last()));
    }
}

/// Taking an entity out of a cell undoes listing it there, when the cell did
/// not list it before.
pub proof fn lemma_remove_undoes_add(g: GridModel, e: u64, x: int, y: int)
    requires
        g.wf(),
        g.in_bounds(x, y) ==> !g.cell(x, y).contains(e),
    ensures
        g.with_added(e, x, y).with_removed(e, x, y) == g,
{
    if g.in_bounds(x, y) {
        lemma_index(g, x, y);
        let c = g.cell(x, y);
        let g1 = g.with_added(e, x, y);
        assert(g1.cell(x, y) == c.push(e));
        assert(c.push(e).drop_last() =~= c);
        assert(without(c.push(e), e) == without(c, e));
        lemma_without_absent(c, e);
        assert(g1.with_removed(e, x, y).cells =~= g.cells);
    }
}

/// A move changes an entity's position only to the target brought inside the
/// grid, and only when no solid entity stood in that cell; other entities keep
/// their positions.
pub proof fn lemma_moves_avoid_solid_cells(s: StateModel, e: u64, x: u32, y: u32)
    requires
        s.wf(),
        s.grid.width >= 1,
        s.grid.height >= 1,
    ensures
        ({
            let t = s.moved(e, x, y);
            let cx = clamp_below(x, s.grid.width);
            let cy = clamp_below(y, s.grid.height);
            &&& t.world.positions.dom() == s.world.positions.dom()
            &&& forall|f: u64| f != e ==> #[trigger] t.world.positions[f] == s.world.positions[f]
            &&& t.world.positions[e] != s.world.positions[e] ==> {
                &&& !s.blocked(cx as int, cy as int)
                &&& t.world.positions[e] == GridPos { x: cx, y: cy }
                &&& t.grid.in_bounds(cx as int, cy as int)
            }
        }),
{
    let t = s.moved(e, x, y);
    assert(t.world.positions.dom() =~= s.world.positions.dom());
    lemma_moved_wf(s, e, x, y);
}

/// `spawn_player` makes the new entity the player: a later `move_player`
/// moves that entity, exactly as `move_entity` moves it to the cell one step
/// away from where it was spawned, and no other entity (no earlier player
/// among them) changes position. An entity spawned without a position, or not
/// movable, or off the grid, is not moved at all.
pub proof fn lemma_spawned_player_moves(s: StateModel, id: u64, c: Components, dir: Direction)
    requires
        s.wf(),
        !s.world.entities.contains(id),
    ensures
        ({
            let t = s.spawned_player(id, c);
            let placed = c.position is Some && c.movable && c.on_grid;
            &&& t.player == Some(id)
            &&& t.player_step_overflows(dir) == (placed && step_overflows(c.position->0, dir))
            &&& t.moved_player(dir) == if placed {
                t.moved(id, advanced(c.position->0, dir).x, advanced(c.position->0, dir).y)
            } else {
                t
            }
            &&& t.moved_player(dir).world.positions.dom() == t.world.positions.dom()
            &&& forall|f: u64|
                f != id ==> #[trigger] t.moved_player(dir).world.positions[f]
                    == t.world.positions[f]
        }),
{
    let t = s.spawned_player(id, c);
    let placed = c.position is Some && c.movable && c.on_grid;
    assert(placed ==> t.movable_position(id) == Some(c.position->0));
    assert(!placed ==> t.movable_position(id) is None);
    let u = t.moved_player(dir);
    assert(u.world.positions.dom() =~= t.world.positions.dom());
}

/// An entity is spawned with exactly the components it is given, each on its
/// own: it has a position exactly when one is given (and then that one), and
/// it is movable, on the grid and solid exactly when asked, whatever the other
/// components are. It becomes live, and no other entity changes. It is listed
/// last in the cell of its position when it stands on the grid there.
pub proof fn lemma_spawned_components(s: StateModel, id: u64, c: Components)
    requires
        s.wf(),
        !s.world.entities.contains(id),
    ensures
        ({
            let t = s.spawned(id, c);
            &&& t.world.entities == s.world.entities.insert(id)
            &&& t.world.positions.dom().contains(id) == (c.position is Some)
            &&& c.position is Some ==> t.world.positions[id] == c.position->0
            &&& t.world.movable.contains(id) == c.movable
            &&& t.world.on_grid.contains(id) == c.on_grid
            &&& t.world.solid.contains(id) == c.solid
            &&& !t.world.player_tagged.contains(id)
            &&& forall|f: u64|
                f != id ==> {
                    &&& (#[trigger] t.world.positions.dom().contains(f))
                        == s.world.positions.dom().contains(f)
                    &&& t.world.positions[f] == s.world.positions[f]
                    &&& t.world.movable.contains(f) == s.world.movable.contains(f)
                    &&& t.world.on_grid.contains(f) == s.world.on_grid.contains(f)
                    &&& t.world.solid.contains(f) == s.world.solid.contains(f)
                }
            &&& t.player == s.player
            &&& (c.position is Some && c.on_grid && s.grid.in_bounds(
                c.position->0.x as int,
                c.position->0.y as int,
            )) ==> t.grid.cell(c.position->0.x as int, c.position->0.y as int) == s.grid.cell(
                c.position->0.x as int,
                c.position->0.y as int,
            ).push(id)
        }),
        s.spawned_player(id, c).world.player_tagged.contains(id),
        s.spawned_player(id, c).world.solid.contains(id) == c.solid,
{
    if c.position is Some && c.on_grid {
        let p = c.position->0;
        lemma_cell_of_added(s.grid, id, p.x as int, p.y as int, p.x as int, p.y as int);
    }
}

/// Only a solid entity blocks a cell. The target is brought inside the grid
/// (a coordinate past the last cell becomes the last one). When that cell
/// lists no solid entity and `e` is movable, on the grid and placed, `e`
/// moves there and is listed last in that cell; when that cell lists a solid
/// entity, or `e` is not movable, on the grid and placed, nothing changes.
pub proof fn lemma_only_solid_blocks(s: StateModel, e: u64, x: u32, y: u32)
    requires
        s.wf(),
        s.grid.width >= 1,
        s.grid.height >= 1,
    ensures
        ({
            let cx = clamp_below(x, s.grid.width);
            let cy = clamp_below(y, s.grid.height);
            let cell = s.grid.cell(cx as int, cy as int);
            (forall|k: int| 0 <= k < cell.len() ==> !s.world.solid.contains(#[trigger] cell[k]))
                && s.world.positions.dom().contains(e) && s.world.movable.contains(e)
                && s.world.on_grid.contains(e) ==> {
                &&& s.moved(e, x, y).world.positions[e] == GridPos { x: cx, y: cy }
                &&& s.moved(e, x, y).grid.cell(cx as int, cy as int).len() > 0
                &&& s.moved(e, x, y).grid.cell(cx as int, cy as int).last() == e
            }
        }),
        ({
            let cx = clamp_below(x, s.grid.width);
            let cy = clamp_below(y, s.grid.height);
            let cell = s.grid.cell(cx as int, cy as int);
            (exists|k: int| 0 <= k < cell.len() && s.world.solid.contains(#[trigger] cell[k]))
                ==> s.moved(e, x, y) == s
        }),
        !(s.world.positions.dom().contains(e) && s.world.movable.contains(e)
            && s.world.on_grid.contains(e)) ==> s.moved(e, x, y) == s,
        x < s.grid.width ==> clamp_below(x, s.grid.width) == x,
        x >= s.grid.width ==> clamp_below(x, s.grid.width) == s.grid.width - 1,
        y < s.grid.height ==> clamp_below(y, s.grid.height) == y,
        y >= s.grid.height ==> clamp_below(y, s.grid.height) == s.grid.height - 1,
{
    let cx = clamp_below(x, s.grid.width);
    let cy = clamp_below(y, s.grid.height);
    assert(cx == clamp_below(x, s.grid.width) && cy == clamp_below(y, s.grid.height));
    let cell = s.grid.cell(cx as int, cy as int);
    lemma_moved_wf(s, e, x, y);
    if (forall|k: int| 0 <= k < cell.len() ==> !s.world.solid.contains(#[trigger] cell[k]))
        && s.movable_position(e) is Some {
        assert(!s.blocked(cx as int, cy as int));
        let p = s.world.positions[e];
        let g1 = s.grid.with_removed(e, p.x as int, p.y as int);
        lemma_cell_of_removed(s.grid, e, p.x as int, p.y as int, cx as int, cy as int);
        lemma_cell_of_added(g1, e, cx as int, cy as int, cx as int, cy as int);
        assert(s.moved(e, x, y).grid.cell(cx as int, cy as int) == g1.cell(cx as int, cy as int).push(e));
    }
    if exists|k: int| 0 <= k < cell.len() && s.world.solid.contains(#[trigger] cell[k]) {
        let k = choose|k: int| 0 <= k < cell.len() && s.world.solid.contains(#[trigger] cell[k]);
        assert(s.blocked(cx as int, cy as int));
    }
}

} // verus!
