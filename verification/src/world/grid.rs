use vstd::prelude::*;

verus! {

/// A 2D coordinate on the warehouse grid.
#[derive(Debug, Clone, Copy, PartialEq, Eq, Hash, Structural)]
pub struct Position {
    pub x: usize,
    pub y: usize,
}

/// Distance between two coordinates along one axis.
pub open spec fn axis_distance(a: int, b: int) -> nat {
    if a >= b {
        (a - b) as nat
    } else {
        (b - a) as nat
    }
}

/// Manhattan distance between two positions.
pub open spec fn manhattan(a: Position, b: Position) -> nat {
    axis_distance(a.x as int, b.x as int) + axis_distance(a.y as int, b.y as int)
}

/// The orthogonal neighbours of `p` inside a `w` x `h` grid, in the order
/// west, east, north, south.
pub open spec fn neighbors_spec(p: Position, w: usize, h: usize) -> Seq<Position> {
    let west = if p.x > 0 {
        seq![Position { x: (p.x - 1) as usize, y: p.y }]
    } else {
        Seq::<Position>::empty()
    };
    let east = if p.x + 1 < w {
        seq![Position { x: (p.x + 1) as usize, y: p.y }]
    } else {
        Seq::<Position>::empty()
    };
    let north = if p.y > 0 {
        seq![Position { x: p.x, y: (p.y - 1) as usize }]
    } else {
        Seq::<Position>::empty()
    };
    let south = if p.y + 1 < h {
        seq![Position { x: p.x, y: (p.y + 1) as usize }]
    } else {
        Seq::<Position>::empty()
    };
    west + east + north + south
}

/// `q` is one orthogonal step away from `p` and lies inside a `w` x `h` grid.
pub open spec fn adjacent_in(p: Position, q: Position, w: usize, h: usize) -> bool {
    &&& q.x < w
    &&& q.y < h
    &&& manhattan(p, q) == 1
}

impl Position {
    pub fn new(x: usize, y: usize) -> (p: Self)
        ensures
            p == (Position { x, y }),
    {
        Position { x, y }
    }

    /// Manhattan distance to another position.
    /// Used as the A* heuristic — admissible because diagonal movement is not allowed.
    pub fn manhattan_distance(&self, other: &Position) -> (d: usize)
        requires
            manhattan(*self, *other) <= usize::MAX,
        ensures
            d == manhattan(*self, *other),
    {
        let dx = if self.x >= other.x {
            self.x - other.x
        } else {
            other.x - self.x
        };
        let dy = if self.y >= other.y {
            self.y - other.y
        } else {
            other.y - self.y
        };
        dx + dy
    }

    /// All orthogonally adjacent tiles (W, E, N, S) that are within grid bounds.
    pub fn neighbors(&self, grid_width: usize, grid_height: usize) -> (result: Vec<Position>)
        ensures
            result@ == neighbors_spec(*self, grid_width, grid_height),
            self.x < grid_width && self.y < grid_height ==> forall|i: int|
                0 <= i < result@.len() ==> adjacent_in(
                    *self,
                    #[trigger] result@[i],
                    grid_width,
                    grid_height,
                ),
            forall|q: Position|
                adjacent_in(*self, q, grid_width, grid_height) ==> #[trigger] result@.contains(
                    q,
                ),
    {
        let mut result: Vec<Position> = Vec::with_capacity(4);
        let ghost p = *self;
        if self.x > 0 {
            result.push(Position::new(self.x - 1, self.y));
        }
        assert(p.x < grid_width && p.y < grid_height ==> forall|i: int| 0 <= i < result@.len() ==> adjacent_in(p, #[trigger] result@[i], grid_width, grid_height));
        if grid_width > 0 && self.x < grid_width - 1 {
            result.push(Position::new(self.x + 1, self.y));
        }
        assert(p.x < grid_width && p.y < grid_height ==> forall|i: int| 0 <= i < result@.len() ==> adjacent_in(p, #[trigger] result@[i], grid_width, grid_height));
        if self.y > 0 {
            result.push(Position::new(self.x, self.y - 1));
        }
        assert(p.x < grid_width && p.y < grid_height ==> forall|i: int| 0 <= i < result@.len() ==> adjacent_in(p, #[trigger] result@[i], grid_width, grid_height));
        if grid_height > 0 && self.y < grid_height - 1 {
            result.push(Position::new(self.x, self.y + 1));
        }
        proof {
            assert(result@ =~= neighbors_spec(p, grid_width, grid_height));
            assert forall|q: Position| adjacent_in(p, q, grid_width, grid_height) implies result@.contains(q) by {
                if q.x + 1 == p.x {
                    assert(result@[0] == q);
                } else if q.x == p.x + 1 {
                    let k: int = if p.x > 0 { 1 } else { 0 };
                    assert(result@[k] == q);
                } else if q.y + 1 == p.y {
                    let k: int = (if p.x > 0 { 1int } else { 0int }) + (if p.x + 1 < grid_width { 1int } else { 0int });
                    assert(result@[k] == q);
                } else {
                    let k: int = (if p.x > 0 { 1int } else { 0int }) + (if p.x + 1 < grid_width { 1int } else { 0int })
                        + (if p.y > 0 { 1int } else { 0int });
                    assert(result@[k] == q);
                }
            }
        }
        result
    }
}

/// What a single grid tile represents in the warehouse.
#[derive(Debug, Clone, Copy, PartialEq, Eq, Structural)]
pub enum TileKind {
    /// Open floor — robots can enter freely
    Floor,
    /// Permanent wall or obstacle — always impassable
    Wall,
    /// A shelf location; robots navigate here to pick up an order item
    ShelfLocation,
    /// A charging station tile
    ChargingStation,
    /// The drop-off zone where completed orders are delivered
    DispatchZone,
}

/// The 2D warehouse grid. Holds only the static layout of the warehouse.
/// Robot positions are NOT stored here — they live on the Robot component.
#[derive(Debug)]
pub struct Grid {
    pub width: usize,
    pub height: usize,
    /// The tiles in row-major order; its length is `width * height`.
    pub tiles: Vec<TileKind>,
}

impl View for Grid {
    type V = Seq<TileKind>;

    /// The tiles in row-major order.
    open spec fn view(&self) -> Seq<TileKind> {
        self.tiles@
    }
}

/// Row-major index of `p` in a grid of the given width.
pub open spec fn cell_index(p: Position, width: usize) -> int {
    p.y * width + p.x
}

/// The position stored at row-major index `i` of a grid of the given width.
pub open spec fn cell_position(i: int, width: usize) -> Position {
    Position { x: (i % (width as int)) as usize, y: (i / (width as int)) as usize }
}

/// Every position of a `width` x `height` grid, in row-major order.
pub open spec fn all_positions(width: usize, height: usize) -> Seq<Position> {
    Seq::new((width * height) as nat, |i: int| cell_position(i, width))
}

/// In-bounds positions and row-major indices correspond one to one.
pub proof fn lemma_cell_index(p: Position, width: usize, height: usize)
    requires
        p.x < width,
        p.y < height,
    ensures
        0 <= cell_index(p, width) < width * height,
        cell_position(cell_index(p, width), width) == p,
{
    assert(0 <= p.y * width) by (nonlinear_arith);
    assert(p.y * width + p.x < width * height) by (nonlinear_arith)
        requires
            p.x < width,
            p.y < height,
    ;
    let i = p.y * width + p.x;
    assert(i / (width as int) == p.y && i % (width as int) == p.x) by (nonlinear_arith)
        requires
            i == p.y * width + p.x,
            p.x < width,
            0 <= p.y,
    ;
}

/// The position at an index in range is in bounds and maps back to that index.
pub proof fn lemma_cell_position(i: int, width: usize, height: usize)
    requires
        0 <= i < width * height,
    ensures
        cell_position(i, width).x < width,
        cell_position(i, width).y < height,
        cell_index(cell_position(i, width), width) == i,
{
    assert(width > 0) by (nonlinear_arith)
        requires
            0 <= i < width * height,
    ;
    assert(0 <= i % (width as int) < width && 0 <= i / (width as int) < height && (i / (
    width as int)) * width + i % (width as int) == i) by (nonlinear_arith)
        requires
            0 <= i < width * height,
            width > 0,
    ;
}

impl Grid {
    /// The grid's tile vector matches its dimensions.
    pub open spec fn wf(&self) -> bool {
        self@.len() == self.width * self.height
    }

    pub open spec fn in_bounds(&self, p: Position) -> bool {
        p.x < self.width && p.y < self.height
    }

    /// The row-major index of `p` falls inside the tile vector.
    pub open spec fn valid_index(&self, p: Position) -> bool {
        cell_index(p, self.width) < self@.len()
    }

    /// The tile kind at position `p`.
    pub open spec fn tile(&self, p: Position) -> TileKind {
        self@[cell_index(p, self.width)]
    }

    pub open spec fn passable(&self, p: Position) -> bool {
        self.tile(p) != TileKind::Wall
    }

    /// Creates a grid where every tile is Floor.
    pub fn new_empty(width: usize, height: usize) -> (g: Self)
        requires
            width * height <= usize::MAX,
        ensures
            g.wf(),
            g.width == width,
            g.height == height,
            forall|i: int| 0 <= i < g@.len() ==> g@[i] == TileKind::Floor,
    {
        let n = width * height;
        let mut tiles: Vec<TileKind> = Vec::with_capacity(n);
        let mut i: usize = 0;
        while i < n
            invariant
                i <= n,
                tiles@.len() == i,
                forall|j: int| 0 <= j < i ==> tiles@[j] == TileKind::Floor,
            decreases n - i,
        {
            tiles.push(TileKind::Floor);
            i = i + 1;
        }
        Grid { width, height, tiles }
    }

    pub fn get(&self, pos: Position) -> (k: TileKind)
        requires
            self.valid_index(pos),
        ensures
            k == self.tile(pos),
    {
        let n = self.tiles.len();
        proof {
            assert(0 <= pos.y * self.width) by (nonlinear_arith);
        }
        self.tiles[pos.y * self.width + pos.x]
    }

    pub fn set(&mut self, pos: Position, kind: TileKind)
        requires
            old(self).valid_index(pos),
        ensures
            final(self).width == old(self).width,
            final(self).height == old(self).height,
            final(self)@ == old(self)@.update(cell_index(pos, old(self).width), kind),
    {
        let n = self.tiles.len();
        proof {
            assert(0 <= pos.y * self.width) by (nonlinear_arith);
        }
        let i = pos.y * self.width + pos.x;
        self.tiles.set(i, kind);
    }

    /// Returns true if the tile type allows robot entry.
    /// Does NOT check for other robots — that is the pathfinding system's job.
    pub fn is_passable(&self, pos: Position) -> (b: bool)
        requires
            self.valid_index(pos),
        ensures
            b == self.passable(pos),
    {
        match self.get(pos) {
            TileKind::Wall => false,
            _ => true,
        }
    }

    /// Collects all positions of a given tile type, in row-major order.
    pub fn positions_of_kind(&self, kind: TileKind) -> (r: Vec<Position>)
        requires
            self.wf(),
        ensures
            r@ == all_positions(self.width, self.height).filter(
                |p: Position| self.tile(p) == kind,
            ),
    {
        let ghost pred = |p: Position| self.tile(p) == kind;
        let ghost all = all_positions(self.width, self.height);
        let mut result: Vec<Position> = Vec::new();
        let mut y: usize = 0;
        while y < self.height
            invariant
                self.wf(),
                y <= self.height,
                pred == (|p: Position| self.tile(p) == kind),
                all == all_positions(self.width, self.height),
                result@ == all.take(y * self.width).filter(pred),
            decreases self.height - y,
        {
            let mut x: usize = 0;
            while x < self.width
                invariant
                    self.wf(),
                    y < self.height,
                    x <= self.width,
                    pred == (|p: Position| self.tile(p) == kind),
                    all == all_positions(self.width, self.height),
                    result@ == all.take(y * self.width + x).filter(pred),
                decreases self.width - x,
            {
                let pos = Position::new(x, y);
                let ghost k = y * self.width + x;
                proof {
                    lemma_cell_index(pos, self.width, self.height);
                    assert(all[k] == pos);
                    assert(all.take(k + 1).drop_last() =~= all.take(k));
                    assert(all.take(k + 1).last() == pos);
                }
                if self.get(pos) == kind {
                    result.push(pos);
                }
                proof {
                    reveal(Seq::filter);
                    let t = all.take(k + 1);
                    assert(t.len() > 0);
                    assert(t.drop_last() == all.take(k));
                    assert(t.filter(pred) == (if pred(t.last()) {
                        t.drop_last().filter(pred).push(t.last())
                    } else {
                        t.drop_last().filter(pred)
                    }));
                    assert(all.take(k + 1).filter(pred) == (if pred(pos) {
                        all.take(k).filter(pred).push(pos)
                    } else {
                        all.take(k).filter(pred)
                    }));
                }
                x = x + 1;
            }
            proof {
                assert((y + 1) * self.width == y * self.width + self.width) by (nonlinear_arith);
            }
            y = y + 1;
        }
        proof {
            assert(all.take(self.height * self.width) =~= all) by {
                assert(self.height * self.width == self.width * self.height) by (nonlinear_arith);
            }
        }
        result
    }
}

} // verus!
