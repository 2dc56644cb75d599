//! Cells, the square maze grid, and its generation.
//!
//! A cell is a grid position together with the set of compass directions
//! through which it has an open passage, kept as a vector that is strictly
//! sorted by direction index (so it holds no duplicates). A passage is
//! reciprocal: whenever a cell is open toward an orthogonal neighbour, the
//! neighbour is open in the opposite direction. Generation carves a random
//! depth-first spanning tree over the grid, so the finished maze is perfect:
//! connected, with exactly `size * size - 1` passages and no cycles.

use vstd::prelude::*;

use crate::direction::Direction;
use crate::direction::lemma_direction_laws;
use crate::rng::shuffle_directions;

verus! {

/// Largest accepted side length of a grid; keeps the carving stack, the
/// coordinate arithmetic and the allocation small.
pub const MAX_SIZE: i32 = 50;

/// An ARGB colour, the cosmetic attribute of cells and players.
#[derive(Debug, Clone, Copy, PartialEq, Eq, Structural)]
pub struct Color {
    pub a: u8,
    pub r: u8,
    pub g: u8,
    pub b: u8,
}

impl Color {
    /// A colour from its alpha, red, green and blue components.
    pub fn new(a: u8, r: u8, g: u8, b: u8) -> (c: Color)
        ensures
            c == (Color { a, r, g, b }),
    {
        Color { a, r, g, b }
    }

    /// The colour every fresh cell starts with.
    pub open spec fn cell_base_spec() -> Color {
        Color { a: 255, r: 100, g: 100, b: 100 }
    }

    /// The colour that marks the start cell.
    pub open spec fn start_mark_spec() -> Color {
        Color { a: 255, r: 0, g: 255, b: 0 }
    }
}

/// True when the direction sequence is strictly increasing by index, which
/// also rules out duplicates.
pub open spec fn dirs_sorted(s: Seq<Direction>) -> bool {
    forall|i: int, j: int|
        0 <= i < j < s.len() ==> #[trigger] s[i].index_spec() < #[trigger] s[j].index_spec()
}

/// The direction that leads from `a` to `b`, if the two positions are
/// orthogonally adjacent; `None` otherwise.
pub open spec fn dir_between(a: (int, int), b: (int, int)) -> Option<Direction> {
    if b.0 == a.0 && b.1 == a.1 - 1 {
        Some(Direction::Up)
    } else if b.0 == a.0 + 1 && b.1 == a.1 {
        Some(Direction::Right)
    } else if b.0 == a.0 && b.1 == a.1 + 1 {
        Some(Direction::Down)
    } else if b.0 == a.0 - 1 && b.1 == a.1 {
        Some(Direction::Left)
    } else {
        None
    }
}

/// A grid position together with its open passage directions and a colour.
#[derive(Debug)]
pub struct Cell {
    pub pos: (i32, i32),
    pub available_directions: Vec<Direction>,
    pub color: Color,
}

impl Cell {
    /// The stored grid position, as mathematical integers.
    pub open spec fn pos_spec(self) -> (int, int) {
        (self.pos.0 as int, self.pos.1 as int)
    }

    /// The open passage directions, in their stored order.
    pub open spec fn dirs(self) -> Seq<Direction> {
        self.available_directions@
    }

    /// Whether this cell has an open passage toward `d`.
    pub open spec fn open_toward(self, d: Direction) -> bool {
        self.dirs().contains(d)
    }

    /// The stored colour.
    pub open spec fn color_spec(self) -> Color {
        self.color
    }

    /// The passage vector is strictly sorted by direction index.
    pub open spec fn wf(self) -> bool {
        dirs_sorted(self.dirs())
    }

    /// The authoritative adjacency predicate: the two cells are orthogonally
    /// adjacent, this cell is open toward the other, and the other is open in
    /// the opposite direction back.
    pub open spec fn has_link_to_spec(self, other: Cell) -> bool {
        match dir_between(self.pos_spec(), other.pos_spec()) {
            Some(d) => self.open_toward(d) && other.open_toward(d.opposite_spec()),
            None => false,
        }
    }

    /// A cell at `(x, y)` with no open passages and the base colour.
    pub fn new(x: i32, y: i32) -> (c: Cell)
        ensures
            c.pos_spec() == (x as int, y as int),
            c.dirs() == Seq::<Direction>::empty(),
            c.color_spec() == Color::cell_base_spec(),
            c.wf(),
    {
        let c = Cell { pos: (x, y), available_directions: Vec::new(), color: Color::new(255, 100, 100, 100) };
        proof {
            assert(c.dirs() =~= Seq::<Direction>::empty());
        }
        c
    }

    /// True iff there is a reciprocal passage from this cell to `other`:
    /// `other` is orthogonally adjacent, this cell is open toward it, and it
    /// is open back. Cells that are not adjacent never have a link.
    pub fn has_link_to(&self, other: &Cell) -> (r: bool)
        ensures
            r == self.has_link_to_spec(*other),
    {
        let dx = other.pos.0 as i64 - self.pos.0 as i64;
        let dy = other.pos.1 as i64 - self.pos.1 as i64;
        let dir_to_other: Option<Direction> = if dx == 0 && dy == -1 {
            Some(Direction::Up)
        } else if dx == 1 && dy == 0 {
            Some(Direction::Right)
        } else if dx == 0 && dy == 1 {
            Some(Direction::Down)
        } else if dx == -1 && dy == 0 {
            Some(Direction::Left)
        } else {
            None
        };
        match dir_to_other {
            Some(d) => {
                dirs_contain(&self.available_directions, d) && dirs_contain(
                    &other.available_directions,
                    d.opposite(),
                )
            },
            None => false,
        }
    }

    /// The cell's colour.
    pub fn color(&self) -> (c: Color)
        ensures
            c == self.color_spec(),
    {
        self.color
    }

    /// The cell's grid position.
    pub fn pos(&self) -> (p: (i32, i32))
        ensures
            (p.0 as int, p.1 as int) == self.pos_spec(),
    {
        self.pos
    }

    /// Replaces the cell's colour; position and passages are untouched.
    pub fn set_color(&mut self, color: Color)
        ensures
            final(self).color_spec() == color,
            final(self).pos_spec() == old(self).pos_spec(),
            final(self).dirs() == old(self).dirs(),
    {
        self.color = color;
    }

    /// The open passage directions, sorted ascending by direction index.
    pub fn available_directions(&self) -> (r: &Vec<Direction>)
        ensures
            r@ == self.dirs(),
    {
        &self.available_directions
    }

    /// Mutable access to the passage vector. A caller that leaves the vector
    /// unsorted loses the cell's well-formedness.
    pub fn available_directions_mut(&mut self) -> (r: &mut Vec<Direction>)
        ensures
            r@ == old(self).dirs(),
            final(self).dirs() == final(r)@,
            final(self).pos_spec() == old(self).pos_spec(),
            final(self).color_spec() == old(self).color_spec(),
    {
        &mut self.available_directions
    }

    /// Inserts `d` into the open passage set, keeping it sorted and without
    /// duplicates; inserting a direction that is already open is a no-op.
    pub fn add_passage(&mut self, d: Direction)
        requires
            old(self).wf(),
        ensures
            final(self).wf(),
            final(self).pos_spec() == old(self).pos_spec(),
            final(self).color_spec() == old(self).color_spec(),
            forall|x: Direction|
                #[trigger] final(self).open_toward(x) <==> (old(self).open_toward(x) || x == d),
            old(self).open_toward(d) ==> final(self).dirs() == old(self).dirs(),
            !old(self).open_toward(d) ==> final(self).dirs().len() == old(self).dirs().len() + 1,
    {
        let di = d.to_int();
        let n = self.available_directions.len();
        let mut i: usize = 0;
        while i < n && self.available_directions[i].to_int() < di
            invariant
                old(self).wf(),
                *self == *old(self),
                n == self.available_directions.len(),
                i <= n,
                di as int == d.index_spec(),
                forall|k: int| 0 <= k < i ==> #[trigger] self.dirs()[k].index_spec() < di,
            decreases n - i,
        {
            i += 1;
        }
        proof {
            lemma_direction_index_injective();
            if self.dirs().contains(d) {
                let w = choose|w: int| 0 <= w < self.dirs().len() && self.dirs()[w] == d;
                assert(if w < i {
                    self.dirs()[w].index_spec() < di
                } else {
                    true
                });
                assert(w >= i);
                if w > i {
                    assert(self.dirs()[i as int].index_spec() < self.dirs()[w].index_spec());
                }
                assert(w == i);
            }
        }
        if i < n && self.available_directions[i].to_int() == di {
            proof {
                lemma_direction_index_injective();
                assert(self.dirs()[i as int] == d);
                assert(self.dirs().contains(d));
            }
        } else {
            proof {
                if self.dirs().contains(d) {
                    let w = choose|w: int| 0 <= w < self.dirs().len() && self.dirs()[w] == d;
                    assert(w == i);
                    assert(false);
                }
            }
            self.available_directions.insert(i, d);
            proof {
                let s0 = old(self).dirs();
                let s1 = self.dirs();
                assert(s1 == s0.insert(i as int, d));
                assert forall|p: int, q: int| 0 <= p < q < s1.len() implies #[trigger] s1[p].index_spec()
                    < #[trigger] s1[q].index_spec() by {
                    assert(s1[p] == if p < i {
                        s0[p]
                    } else if p == i {
                        d
                    } else {
                        s0[p - 1]
                    });
                    assert(s1[q] == if q < i {
                        s0[q]
                    } else if q == i {
                        d
                    } else {
                        s0[q - 1]
                    });
                }
                assert forall|x: Direction| #[trigger] s1.contains(x) implies s0.contains(x) || x
                    == d by {
                    let w = choose|w: int| 0 <= w < s1.len() && s1[w] == x;
                    if w < i {
                        assert(s0[w] == x);
                        assert(s0.contains(x));
                    } else if w > i {
                        assert(s0[w - 1] == x);
                        assert(s0.contains(x));
                    }
                }
                assert forall|x: Direction| s0.contains(x) implies #[trigger] s1.contains(x) by {
                    let w = choose|w: int| 0 <= w < s0.len() && s0[w] == x;
                    if w < i {
                        assert(s1[w] == x);
                    } else {
                        assert(s1[w + 1] == x);
                    }
                }
                assert(s1[i as int] == d);
                assert(s1.contains(d));
            }
        }
    }
}

/// Direction indices identify directions.
proof fn lemma_direction_index_injective()
    ensures
        forall|a: Direction, b: Direction| a.index_spec() == b.index_spec() ==> a == b,
{
    assert forall|a: Direction, b: Direction| a.index_spec() == b.index_spec() implies a == b by {
        match a {
            Direction::Up => {
                match b {
                    Direction::Up => {},
                    Direction::Right => {},
                    Direction::Down => {},
                    Direction::Left => {},
                }
            },
            Direction::Right => {},
            Direction::Down => {},
            Direction::Left => {},
        }
    }
}

/// Whether the vector holds `d`.
fn dirs_contain(v: &Vec<Direction>, d: Direction) -> (r: bool)
    ensures
        r == v@.contains(d),
{
    let n = v.len();
    let mut i: usize = 0;
    while i < n
        invariant
            i <= n,
            n == v@.len(),
            forall|k: int| 0 <= k < i ==> v@[k] != d,
        decreases n - i,
    {
        if v[i] == d {
            proof {
                assert(v@.contains(d));
            }
            return true;
        }
        i += 1;
    }
    proof {
        if v@.contains(d) {
            let w = choose|w: int| 0 <= w < v@.len() && v@[w] == d;
            assert(false);
        }
    }
    false
}

/// The adjacency predicate is symmetric: a link from `a` to `b` is exactly
/// a link from `b` to `a`.
pub proof fn lemma_has_link_symmetric(a: Cell, b: Cell)
    ensures
        a.has_link_to_spec(b) == b.has_link_to_spec(a),
{
}

/// Grid-level symmetry of the adjacency predicate: the two positions are
/// linked from `a`'s side exactly when they are linked from `b`'s side.
pub proof fn lemma_grid_linked_symmetric(g: MazeGrid, a: (int, int), b: (int, int))
    ensures
        g.linked(a, b) == g.linked(b, a),
{
    lemma_has_link_symmetric(g.cell_spec(a.0, a.1), g.cell_spec(b.0, b.1));
}

/// Whether `(x, y)` lies inside a grid of side length `size`.
pub open spec fn grid_in_bounds(size: int, x: int, y: int) -> bool {
    0 <= x < size && 0 <= y < size
}

/// The row-major index of `(x, y)` in a flat cell array.
pub open spec fn grid_idx(size: int, x: int, y: int) -> int {
    y * size + x
}

/// The cell stored at `(x, y)`.
pub open spec fn cell_at_spec(cells: Seq<Cell>, size: int, x: int, y: int) -> Cell {
    cells[grid_idx(size, x, y)]
}

/// Whether the cell at `(x, y)` is open toward `d`.
pub open spec fn cells_open_at(cells: Seq<Cell>, size: int, x: int, y: int, d: Direction) -> bool {
    cell_at_spec(cells, size, x, y).open_toward(d)
}

/// The array has one cell per grid position, every cell stores its own
/// position, and every passage vector is sorted.
pub open spec fn cells_base_wf(cells: Seq<Cell>, size: int) -> bool {
    &&& cells.len() == size * size
    &&& forall|x: int, y: int|
        grid_in_bounds(size, x, y) ==> (#[trigger] cell_at_spec(cells, size, x, y)).pos_spec() == (
        x,
        y,
        )
    &&& forall|i: int| 0 <= i < cells.len() ==> (#[trigger] cells[i]).wf()
}

/// Reciprocity: an open passage always points at an in-bounds neighbour
/// that is open in the opposite direction back.
pub open spec fn cells_reciprocal(cells: Seq<Cell>, size: int) -> bool {
    forall|x: int, y: int, d: Direction|
        grid_in_bounds(size, x, y) && #[trigger] cells_open_at(cells, size, x, y, d) ==> {
            let nx = x + d.offset_spec().0;
            let ny = y + d.offset_spec().1;
            grid_in_bounds(size, nx, ny) && cells_open_at(cells, size, nx, ny, d.opposite_spec())
        }
}

/// The two positions hold a reciprocal passage between them.
pub open spec fn cells_linked(cells: Seq<Cell>, size: int, a: (int, int), b: (int, int)) -> bool {
    &&& grid_in_bounds(size, a.0, a.1)
    &&& grid_in_bounds(size, b.0, b.1)
    &&& cell_at_spec(cells, size, a.0, a.1).has_link_to_spec(cell_at_spec(cells, size, b.0, b.1))
}

/// `p` walks from `a` to `b` along reciprocal passages.
pub open spec fn cells_is_path(
    cells: Seq<Cell>,
    size: int,
    p: Seq<(int, int)>,
    a: (int, int),
    b: (int, int),
) -> bool {
    &&& p.len() >= 1
    &&& p[0] == a
    &&& p[p.len() - 1] == b
    &&& forall|i: int| 0 <= i < p.len() - 1 ==> #[trigger] cells_linked(cells, size, p[i], p[i + 1])
}

/// Some passage walk leads from `a` to `b`.
pub open spec fn cells_connected(cells: Seq<Cell>, size: int, a: (int, int), b: (int, int)) -> bool {
    exists|p: Seq<(int, int)>| cells_is_path(cells, size, p, a, b)
}

/// The sum of the passage-vector lengths of all cells. With reciprocity this
/// counts every passage twice, once from each of its two ends.
pub open spec fn degree_sum(cells: Seq<Cell>) -> int
    decreases cells.len(),
{
    if cells.len() == 0 {
        0
    } else {
        degree_sum(cells.drop_last()) + cells.last().dirs().len()
    }
}

/// A row-major index of an in-bounds position lies inside the array.
pub proof fn lemma_grid_idx_bounds(size: int, x: int, y: int)
    requires
        grid_in_bounds(size, x, y),
    ensures
        0 <= grid_idx(size, x, y) < size * size,
{
    assert(0 <= y * size + x < size * size) by (nonlinear_arith)
        requires
            0 <= x < size,
            0 <= y < size,
    ;
}

/// Row-major indices of distinct in-bounds positions differ.
pub proof fn lemma_grid_idx_injective(size: int, x1: int, y1: int, x2: int, y2: int)
    requires
        grid_in_bounds(size, x1, y1),
        grid_in_bounds(size, x2, y2),
        grid_idx(size, x1, y1) == grid_idx(size, x2, y2),
    ensures
        x1 == x2 && y1 == y2,
{
    assert(x1 == x2 && y1 == y2) by (nonlinear_arith)
        requires
            0 <= x1 < size,
            0 <= y1 < size,
            0 <= x2 < size,
            0 <= y2 < size,
            y1 * size + x1 == y2 * size + x2,
    ;
}

proof fn lemma_degree_sum_update(cells: Seq<Cell>, i: int, c: Cell)
    requires
        0 <= i < cells.len(),
    ensures
        degree_sum(cells.update(i, c)) == degree_sum(cells) - cells[i].dirs().len()
            + c.dirs().len(),
    decreases cells.len(),
{
    let s2 = cells.update(i, c);
    if i == cells.len() - 1 {
        assert(s2.drop_last() =~= cells.drop_last());
    } else {
        assert(s2.drop_last() =~= cells.drop_last().update(i, c));
        lemma_degree_sum_update(cells.drop_last(), i, c);
    }
}

proof fn lemma_degree_sum_empty(cells: Seq<Cell>)
    requires
        forall|i: int| 0 <= i < cells.len() ==> (#[trigger] cells[i]).dirs().len() == 0,
    ensures
        degree_sum(cells) == 0,
    decreases cells.len(),
{
    if cells.len() > 0 {
        lemma_degree_sum_empty(cells.drop_last());
    }
}

/// The number of `true` entries of a boolean sequence.
spec fn count_true(s: Seq<bool>) -> int
    decreases s.len(),
{
    if s.len() == 0 {
        0
    } else {
        count_true(s.drop_last()) + if s.last() {
            1int
        } else {
            0int
        }
    }
}

proof fn lemma_count_true_bounds(s: Seq<bool>)
    ensures
        0 <= count_true(s) <= s.len(),
    decreases s.len(),
{
    if s.len() > 0 {
        lemma_count_true_bounds(s.drop_last());
    }
}

proof fn lemma_count_true_update(s: Seq<bool>, i: int)
    requires
        0 <= i < s.len(),
        !s[i],
    ensures
        count_true(s.update(i, true)) == count_true(s) + 1,
    decreases s.len(),
{
    let s2 = s.update(i, true);
    if i == s.len() - 1 {
        assert(s2.drop_last() =~= s.drop_last());
    } else {
        assert(s2.drop_last() =~= s.drop_last().update(i, true));
        lemma_count_true_update(s.drop_last(), i);
    }
}

proof fn lemma_count_true_full(s: Seq<bool>)
    requires
        forall|i: int| 0 <= i < s.len() ==> s[i],
    ensures
        count_true(s) == s.len(),
    decreases s.len(),
{
    if s.len() > 0 {
        lemma_count_true_full(s.drop_last());
    }
}

/// One cell gained directions and nothing else changed shape: positions are
/// the same and every passage that was open stays open.
spec fn cells_only_grow(c1: Seq<Cell>, c2: Seq<Cell>) -> bool {
    &&& c1.len() == c2.len()
    &&& forall|i: int| 0 <= i < c1.len() ==> (#[trigger] c2[i]).pos_spec() == c1[i].pos_spec()
    &&& forall|i: int, d: Direction|
        0 <= i < c1.len() && (#[trigger] c1[i].dirs().contains(d)) ==> c2[i].dirs().contains(d)
}

proof fn lemma_path_monotone(
    c1: Seq<Cell>,
    c2: Seq<Cell>,
    size: int,
    p: Seq<(int, int)>,
    a: (int, int),
    b: (int, int),
)
    requires
        c1.len() == size * size,
        cells_only_grow(c1, c2),
        cells_is_path(c1, size, p, a, b),
    ensures
        cells_is_path(c2, size, p, a, b),
{
    assert forall|i: int| 0 <= i < p.len() - 1 implies #[trigger] cells_linked(
        c2,
        size,
        p[i],
        p[i + 1],
    ) by {
        assert(cells_linked(c1, size, p[i], p[i + 1]));
        let u = p[i];
        let v = p[i + 1];
        lemma_grid_idx_bounds(size, u.0, u.1);
        lemma_grid_idx_bounds(size, v.0, v.1);
        let iu = grid_idx(size, u.0, u.1);
        let iv = grid_idx(size, v.0, v.1);
        assert(c2[iu].pos_spec() == c1[iu].pos_spec());
        assert(c2[iv].pos_spec() == c1[iv].pos_spec());
        match dir_between(c1[iu].pos_spec(), c1[iv].pos_spec()) {
            Some(dd) => {
                assert(c1[iu].dirs().contains(dd));
                assert(c2[iu].dirs().contains(dd));
                assert(c1[iv].dirs().contains(dd.opposite_spec()));
                assert(c2[iv].dirs().contains(dd.opposite_spec()));
            },
            None => {
                assert(false);
            },
        }
    }
}

proof fn lemma_connected_monotone(
    c1: Seq<Cell>,
    c2: Seq<Cell>,
    size: int,
    a: (int, int),
    b: (int, int),
)
    requires
        c1.len() == size * size,
        cells_only_grow(c1, c2),
        cells_connected(c1, size, a, b),
    ensures
        cells_connected(c2, size, a, b),
{
    let p = choose|p: Seq<(int, int)>| cells_is_path(c1, size, p, a, b);
    lemma_path_monotone(c1, c2, size, p, a, b);
}

proof fn lemma_connected_self(cells: Seq<Cell>, size: int, c: (int, int))
    requires
        grid_in_bounds(size, c.0, c.1),
    ensures
        cells_connected(cells, size, c, c),
{
    let p: Seq<(int, int)> = seq![c];
    assert(cells_is_path(cells, size, p, c, c));
}

proof fn lemma_path_extend(
    cells: Seq<Cell>,
    size: int,
    start: (int, int),
    a: (int, int),
    b: (int, int),
)
    requires
        cells_connected(cells, size, start, a),
        cells_linked(cells, size, a, b),
    ensures
        cells_connected(cells, size, start, b),
{
    let p = choose|p: Seq<(int, int)>| cells_is_path(cells, size, p, start, a);
    let p2 = p.push(b);
    assert forall|i: int| 0 <= i < p2.len() - 1 implies #[trigger] cells_linked(
        cells,
        size,
        p2[i],
        p2[i + 1],
    ) by {
        if i < p.len() - 1 {
            assert(cells_linked(cells, size, p[i], p[i + 1]));
        }
    }
    assert(p2[p2.len() - 1] == b);
    assert(cells_is_path(cells, size, p2, start, b));
}

/// Adjacent positions via a direction's offset are recognised by
/// `dir_between`.
proof fn lemma_dir_between_offset(a: (int, int), d: Direction)
    ensures
        dir_between(a, (a.0 + d.offset_spec().0, a.1 + d.offset_spec().1)) == Some(d),
{
    match d {
        Direction::Up => {},
        Direction::Right => {},
        Direction::Down => {},
        Direction::Left => {},
    }
}

/// One randomized order in which a carving step tries the four directions.
#[derive(Debug, Clone, Copy, PartialEq, Eq, Structural)]
pub struct DirOrder {
    pub d0: Direction,
    pub d1: Direction,
    pub d2: Direction,
    pub d3: Direction,
}

impl DirOrder {
    /// The direction tried at step `i` of `0..4`.
    pub open spec fn get_spec(self, i: int) -> Direction {
        if i == 0 {
            self.d0
        } else if i == 1 {
            self.d1
        } else if i == 2 {
            self.d2
        } else {
            self.d3
        }
    }

    /// Whether one of the four slots holds `d`.
    pub open spec fn has_dir(self, d: Direction) -> bool {
        self.d0 == d || self.d1 == d || self.d2 == d || self.d3 == d
    }

    /// Every direction occurs: the order is a permutation of the compass.
    pub open spec fn complete(self) -> bool {
        &&& self.has_dir(Direction::Up)
        &&& self.has_dir(Direction::Right)
        &&& self.has_dir(Direction::Down)
        &&& self.has_dir(Direction::Left)
    }

    /// An order from its four slots.
    pub fn new(d0: Direction, d1: Direction, d2: Direction, d3: Direction) -> (r: DirOrder)
        ensures
            r == (DirOrder { d0, d1, d2, d3 }),
    {
        DirOrder { d0, d1, d2, d3 }
    }

    /// The direction tried at step `i`.
    pub fn get(&self, i: usize) -> (r: Direction)
        requires
            i < 4,
        ensures
            r == self.get_spec(i as int),
    {
        if i == 0 {
            self.d0
        } else if i == 1 {
            self.d1
        } else if i == 2 {
            self.d2
        } else {
            self.d3
        }
    }
}

/// The four compass directions in their index order.
pub open spec fn base_dirs() -> Seq<Direction> {
    seq![Direction::Up, Direction::Right, Direction::Down, Direction::Left]
}

/// Packs a shuffled copy of the compass into a `DirOrder`, which is then
/// complete.
fn dir_order_from_shuffled(v: &Vec<Direction>) -> (r: DirOrder)
    requires
        v@.len() == 4,
        v@.to_multiset() == base_dirs().to_multiset(),
    ensures
        r.complete(),
        forall|i: int| 0 <= i < 4 ==> #[trigger] r.get_spec(i) == v@[i],
{
    let r = DirOrder { d0: v[0], d1: v[1], d2: v[2], d3: v[3] };
    proof {
        broadcast use vstd::seq_lib::group_to_multiset_ensures;

        assert forall|d: Direction| base_dirs().contains(d) implies v@.contains(d) by {
            assert(base_dirs().to_multiset().contains(d));
            assert(v@.to_multiset().contains(d));
        }
        assert(base_dirs()[0] == Direction::Up);
        assert(base_dirs().contains(Direction::Up));
        assert(base_dirs()[1] == Direction::Right);
        assert(base_dirs().contains(Direction::Right));
        assert(base_dirs()[2] == Direction::Down);
        assert(base_dirs().contains(Direction::Down));
        assert(base_dirs()[3] == Direction::Left);
        assert(base_dirs().contains(Direction::Left));
        assert forall|d: Direction| v@.contains(d) implies r.has_dir(d) by {
            let w = choose|w: int| 0 <= w < v@.len() && v@[w] == d;
            assert(r.get_spec(w) == d);
        }
    }
    r
}

/// One backtracker stack entry: a cell together with the randomized order
/// in which its candidate directions are tried and how many of them have
/// been tried already.
#[derive(Clone, Copy)]
struct Frame {
    x: i32,
    y: i32,
    order: DirOrder,
    next_dir: usize,
}

/// How many candidate directions the frame still has to try.
spec fn frame_slack(f: Frame) -> int {
    if f.next_dir <= 4 {
        4 - f.next_dir
    } else {
        0
    }
}

/// The total remaining candidate work of the stack.
spec fn frames_work(s: Seq<Frame>) -> int
    decreases s.len(),
{
    if s.len() == 0 {
        0
    } else {
        frames_work(s.drop_last()) + frame_slack(s.last())
    }
}

proof fn lemma_frames_work_nonneg(s: Seq<Frame>)
    ensures
        frames_work(s) >= 0,
    decreases s.len(),
{
    if s.len() > 0 {
        lemma_frames_work_nonneg(s.drop_last());
    }
}

/// The neighbour of `c` in direction `d` lies outside the grid or is
/// already visited.
spec fn neighbor_done(size: int, visited: Seq<bool>, c: (int, int), d: Direction) -> bool {
    let nx = c.0 + d.offset_spec().0;
    let ny = c.1 + d.offset_spec().1;
    !grid_in_bounds(size, nx, ny) || visited[grid_idx(size, nx, ny)]
}

/// A stack frame is sound: its cell is in bounds and visited, its order is
/// complete, and every candidate direction already tried leads out of the
/// grid or to a visited cell.
spec fn frame_ok(size: int, visited: Seq<bool>, f: Frame) -> bool {
    &&& grid_in_bounds(size, f.x as int, f.y as int)
    &&& visited[grid_idx(size, f.x as int, f.y as int)]
    &&& f.next_dir <= 4
    &&& f.order.complete()
    &&& forall|k: int|
        0 <= k < f.next_dir ==> neighbor_done(
            size,
            visited,
            (f.x as int, f.y as int),
            #[trigger] f.order.get_spec(k),
        )
}

spec fn stack_ok(size: int, visited: Seq<bool>, stack: Seq<Frame>) -> bool {
    forall|j: int| 0 <= j < stack.len() ==> frame_ok(size, visited, #[trigger] stack[j])
}

/// Whether some stack frame sits at `(x, y)`.
spec fn on_stack(stack: Seq<Frame>, x: int, y: int) -> bool {
    exists|j: int|
        0 <= j < stack.len() && (#[trigger] stack[j]).x as int == x && stack[j].y as int == y
}

/// Every neighbour of `(x, y)` lies outside the grid or is visited.
spec fn all_neighbors_done(size: int, visited: Seq<bool>, x: int, y: int) -> bool {
    forall|d: Direction| #[trigger] neighbor_done(size, visited, (x, y), d)
}

/// Visited cells that are no longer on the stack have been exhausted: all
/// their in-bounds neighbours are visited too.
spec fn closed_off_stack(size: int, visited: Seq<bool>, stack: Seq<Frame>) -> bool {
    forall|x: int, y: int|
        grid_in_bounds(size, x, y) && #[trigger] visited[grid_idx(size, x, y)] && !on_stack(
            stack,
            x,
            y,
        ) ==> all_neighbors_done(size, visited, x, y)
}

/// A direction's offset components lie in `-1..=1`.
proof fn lemma_offset_bounds(d: Direction)
    ensures
        -1 <= d.offset_spec().0 <= 1,
        -1 <= d.offset_spec().1 <= 1,
        !(d.offset_spec().0 == 0 && d.offset_spec().1 == 0),
{
    match d {
        Direction::Up => {},
        Direction::Right => {},
        Direction::Down => {},
        Direction::Left => {},
    }
}

/// When start is visited and the visited set is closed under grid
/// adjacency, every in-bounds cell is visited; by induction on the
/// Manhattan distance from start.
proof fn lemma_closed_all_visited(size: int, visited: Seq<bool>, sx: int, sy: int, x: int, y: int)
    requires
        visited.len() == size * size,
        grid_in_bounds(size, sx, sy),
        visited[grid_idx(size, sx, sy)],
        forall|a: int, b: int|
            grid_in_bounds(size, a, b) && #[trigger] visited[grid_idx(size, a, b)]
                ==> all_neighbors_done(size, visited, a, b),
        grid_in_bounds(size, x, y),
    ensures
        visited[grid_idx(size, x, y)],
    decreases vstd::math::abs(x - sx) + vstd::math::abs(y - sy),
{
    if x == sx && y == sy {
    } else if x > sx {
        lemma_closed_all_visited(size, visited, sx, sy, x - 1, y);
        assert(neighbor_done(size, visited, (x - 1, y), Direction::Right));
    } else if x < sx {
        lemma_closed_all_visited(size, visited, sx, sy, x + 1, y);
        assert(neighbor_done(size, visited, (x + 1, y), Direction::Left));
    } else if y > sy {
        lemma_closed_all_visited(size, visited, sx, sy, x, y - 1);
        assert(neighbor_done(size, visited, (x, y - 1), Direction::Down));
    } else {
        lemma_closed_all_visited(size, visited, sx, sy, x, y + 1);
        assert(neighbor_done(size, visited, (x, y + 1), Direction::Up));
    }
}

/// Every open passage points at an in-bounds neighbour that is open back,
/// and both of its end cells are visited.
spec fn open_to_visited(cells: Seq<Cell>, visited: Seq<bool>, sz: int) -> bool {
    forall|x: int, y: int, d: Direction|
        grid_in_bounds(sz, x, y) && #[trigger] cells_open_at(cells, sz, x, y, d) ==> {
            let nx = x + d.offset_spec().0;
            let ny = y + d.offset_spec().1;
            &&& grid_in_bounds(sz, nx, ny)
            &&& cells_open_at(cells, sz, nx, ny, d.opposite_spec())
            &&& visited[grid_idx(sz, x, y)]
            &&& visited[grid_idx(sz, nx, ny)]
        }
}

/// The full invariant of the carving loop.
spec fn carve_inv(
    sz: int,
    st: (int, int),
    cells0: Seq<Cell>,
    orders: Seq<DirOrder>,
    cells: Seq<Cell>,
    visited: Seq<bool>,
    stack: Seq<Frame>,
    vc: int,
) -> bool {
    &&& 1 <= sz <= MAX_SIZE as int
    &&& grid_in_bounds(sz, st.0, st.1)
    &&& orders.len() >= sz * sz
    &&& (forall|i: int| 0 <= i < orders.len() ==> (#[trigger] orders[i]).complete())
    &&& cells_base_wf(cells, sz)
    &&& cells0.len() == sz * sz
    &&& visited.len() == sz * sz
    &&& 1 <= vc <= sz * sz
    &&& vc == count_true(visited)
    &&& visited[grid_idx(sz, st.0, st.1)]
    &&& open_to_visited(cells, visited, sz)
    &&& degree_sum(cells) == 2 * (vc - 1)
    &&& (forall|x: int, y: int|
        grid_in_bounds(sz, x, y) && #[trigger] visited[grid_idx(sz, x, y)] ==> cells_connected(
            cells,
            sz,
            st,
            (x, y),
        ))
    &&& stack_ok(sz, visited, stack)
    &&& closed_off_stack(sz, visited, stack)
    &&& (forall|i: int|
        0 <= i < cells.len() ==> (#[trigger] cells[i]).color_spec() == cells0[i].color_spec())
}

proof fn lemma_count_true_none(s: Seq<bool>)
    requires
        forall|i: int| 0 <= i < s.len() ==> !s[i],
    ensures
        count_true(s) == 0,
    decreases s.len(),
{
    if s.len() > 0 {
        lemma_count_true_none(s.drop_last());
    }
}

/// Popping an exhausted frame keeps the invariant: its cell's four
/// candidates have all been tried, so the cell is closed.
proof fn lemma_pop_step(
    sz: int,
    st: (int, int),
    cells0: Seq<Cell>,
    orders: Seq<DirOrder>,
    cells: Seq<Cell>,
    visited: Seq<bool>,
    stack_pre: Seq<Frame>,
    stack_post: Seq<Frame>,
    vc: int,
)
    requires
        carve_inv(sz, st, cells0, orders, cells, visited, stack_pre, vc),
        stack_pre.len() > 0,
        stack_pre.last().next_dir >= 4,
        stack_post == stack_pre.drop_last(),
    ensures
        carve_inv(sz, st, cells0, orders, cells, visited, stack_post, vc),
        frames_work(stack_post) == frames_work(stack_pre),
{
    let f = stack_pre.last();
    assert(frame_ok(sz, visited, stack_pre[stack_pre.len() - 1]));
    assert forall|j: int| 0 <= j < stack_post.len() implies frame_ok(
        sz,
        visited,
        #[trigger] stack_post[j],
    ) by {
        assert(frame_ok(sz, visited, stack_pre[j]));
    }
    assert forall|x: int, y: int|
        grid_in_bounds(sz, x, y) && #[trigger] visited[grid_idx(sz, x, y)] && !on_stack(
            stack_post,
            x,
            y,
        ) implies all_neighbors_done(sz, visited, x, y) by {
        if on_stack(stack_pre, x, y) {
            let j = choose|j: int|
                0 <= j < stack_pre.len() && (#[trigger] stack_pre[j]).x as int == x
                    && stack_pre[j].y as int == y;
            if j < stack_pre.len() - 1 {
                assert(stack_post[j] == stack_pre[j]);
                assert(on_stack(stack_post, x, y));
            } else {
                assert(x == f.x as int && y == f.y as int);
                assert forall|dd: Direction| #[trigger] neighbor_done(
                    sz,
                    visited,
                    (x, y),
                    dd,
                ) by {
                    if f.order.d0 == dd {
                        assert(f.order.get_spec(0) == dd);
                        assert(neighbor_done(sz, visited, (x, y), f.order.get_spec(0)));
                    } else if f.order.d1 == dd {
                        assert(f.order.get_spec(1) == dd);
                        assert(neighbor_done(sz, visited, (x, y), f.order.get_spec(1)));
                    } else if f.order.d2 == dd {
                        assert(f.order.get_spec(2) == dd);
                        assert(neighbor_done(sz, visited, (x, y), f.order.get_spec(2)));
                    } else {
                        assert(f.order.d3 == dd);
                        assert(f.order.get_spec(3) == dd);
                        assert(neighbor_done(sz, visited, (x, y), f.order.get_spec(3)));
                    }
                }
            }
        } else {
            assert(all_neighbors_done(sz, visited, x, y));
        }
    }
}

/// Advancing past a candidate that leads out of the grid or to a visited
/// cell keeps the invariant: only the top frame's progress counter moves.
proof fn lemma_advance_step(
    sz: int,
    st: (int, int),
    cells0: Seq<Cell>,
    orders: Seq<DirOrder>,
    cells: Seq<Cell>,
    visited: Seq<bool>,
    stack_pre: Seq<Frame>,
    stack_b: Seq<Frame>,
    vc: int,
    f: Frame,
    d: Direction,
    fp: Frame,
)
    requires
        carve_inv(sz, st, cells0, orders, cells, visited, stack_pre, vc),
        stack_pre.len() > 0,
        f == stack_pre.last(),
        f.next_dir < 4,
        d == f.order.get_spec(f.next_dir as int),
        neighbor_done(sz, visited, (f.x as int, f.y as int), d),
        fp.x == f.x && fp.y == f.y && fp.order == f.order,
        fp.next_dir as int == f.next_dir as int + 1,
        stack_b == stack_pre.update(stack_pre.len() - 1, fp),
    ensures
        carve_inv(sz, st, cells0, orders, cells, visited, stack_b, vc),
        frames_work(stack_b) == frames_work(stack_pre) - 1,
{
    let top = stack_pre.len() - 1;
    assert(frame_ok(sz, visited, stack_pre[top]));
    assert(stack_b.drop_last() =~= stack_pre.drop_last());
    assert(stack_b.last() == fp);
    assert forall|j: int| 0 <= j < stack_b.len() implies frame_ok(
        sz,
        visited,
        #[trigger] stack_b[j],
    ) by {
        assert(frame_ok(sz, visited, stack_pre[j]));
        if j == top {
            let g = stack_b[j];
            assert(g == fp);
            assert forall|kk: int| 0 <= kk < g.next_dir implies neighbor_done(
                sz,
                visited,
                (g.x as int, g.y as int),
                #[trigger] g.order.get_spec(kk),
            ) by {
                if kk == f.next_dir as int {
                    assert(g.order.get_spec(kk) == d);
                } else {
                    assert(neighbor_done(
                        sz,
                        visited,
                        (f.x as int, f.y as int),
                        f.order.get_spec(kk),
                    ));
                }
            }
        } else {
            assert(stack_b[j] == stack_pre[j]);
        }
    }
    assert forall|x: int, y: int|
        grid_in_bounds(sz, x, y) && #[trigger] visited[grid_idx(sz, x, y)] && !on_stack(
            stack_b,
            x,
            y,
        ) implies all_neighbors_done(sz, visited, x, y) by {
        if on_stack(stack_pre, x, y) {
            let j = choose|j: int|
                0 <= j < stack_pre.len() && (#[trigger] stack_pre[j]).x as int == x
                    && stack_pre[j].y as int == y;
            if j == top {
                assert(stack_b[j].x as int == x && stack_b[j].y as int == y);
            } else {
                assert(stack_b[j] == stack_pre[j]);
            }
            assert(on_stack(stack_b, x, y));
        } else {
            assert(all_neighbors_done(sz, visited, x, y));
        }
    }
}

/// Carving a passage to an unvisited in-bounds neighbour keeps the
/// invariant: the passage is reciprocal, the degree sum grows by two, the
/// neighbour becomes visited, connected to the start, and is pushed.
#[verifier::rlimit(100)]
proof fn lemma_carve_step(
    sz: int,
    st: (int, int),
    cells0: Seq<Cell>,
    orders: Seq<DirOrder>,
    cells_a: Seq<Cell>,
    cells_c: Seq<Cell>,
    visited_pre: Seq<bool>,
    visited_post: Seq<bool>,
    stack_pre: Seq<Frame>,
    stack_c: Seq<Frame>,
    vc: int,
    f: Frame,
    d: Direction,
    nxi: int,
    nyi: int,
    ci: int,
    ni: int,
    c1: Cell,
    c2: Cell,
    fp: Frame,
    nf: Frame,
)
    requires
        carve_inv(sz, st, cells0, orders, cells_a, visited_pre, stack_pre, vc),
        stack_pre.len() > 0,
        f == stack_pre.last(),
        f.next_dir < 4,
        d == f.order.get_spec(f.next_dir as int),
        nxi == f.x as int + d.offset_spec().0,
        nyi == f.y as int + d.offset_spec().1,
        grid_in_bounds(sz, nxi, nyi),
        ci == grid_idx(sz, f.x as int, f.y as int),
        ni == grid_idx(sz, nxi, nyi),
        !visited_pre[ni],
        c1.wf() && c2.wf(),
        c1.pos_spec() == cells_a[ci].pos_spec(),
        c1.color_spec() == cells_a[ci].color_spec(),
        c2.pos_spec() == cells_a[ni].pos_spec(),
        c2.color_spec() == cells_a[ni].color_spec(),
        forall|x: Direction|
            #[trigger] c1.open_toward(x) <==> (cells_a[ci].open_toward(x) || x == d),
        forall|x: Direction|
            #[trigger] c2.open_toward(x) <==> (cells_a[ni].open_toward(x) || x
                == d.opposite_spec()),
        !cells_a[ci].open_toward(d) ==> c1.dirs().len() == cells_a[ci].dirs().len() + 1,
        !cells_a[ni].open_toward(d.opposite_spec()) ==> c2.dirs().len() == cells_a[ni].dirs().len()
            + 1,
        cells_c == cells_a.update(ci, c1).update(ni, c2),
        visited_post == visited_pre.update(ni, true),
        fp.x == f.x && fp.y == f.y && fp.order == f.order,
        fp.next_dir as int == f.next_dir as int + 1,
        nf.x as int == nxi && nf.y as int == nyi && nf.next_dir == 0,
        nf.order == orders[vc],
        stack_c == stack_pre.update(stack_pre.len() - 1, fp).push(nf),
    ensures
        carve_inv(sz, st, cells0, orders, cells_c, visited_post, stack_c, vc + 1),
        frames_work(stack_c) == frames_work(stack_pre) + 3,
{
    let top = stack_pre.len() - 1;
    let fx = f.x as int;
    let fy = f.y as int;
    let stack_b = stack_pre.update(top, fp);
    assert(frame_ok(sz, visited_pre, stack_pre[top]));
    lemma_offset_bounds(d);
    lemma_grid_idx_bounds(sz, fx, fy);
    lemma_grid_idx_bounds(sz, nxi, nyi);
    lemma_grid_idx_bounds(sz, st.0, st.1);
    if ci == ni {
        lemma_grid_idx_injective(sz, fx, fy, nxi, nyi);
    }
    assert(ci != ni);
    // the current cell cannot already be open toward d, nor the unvisited
    // neighbour open at all: both would make the neighbour visited
    if cells_a[ci].open_toward(d) {
        assert(cells_open_at(cells_a, sz, fx, fy, d));
        assert(visited_pre[ni]);
    }
    if cells_a[ni].open_toward(d.opposite_spec()) {
        assert(cells_open_at(cells_a, sz, nxi, nyi, d.opposite_spec()));
        assert(visited_pre[ni]);
    }
    assert(c1.dirs().len() == cells_a[ci].dirs().len() + 1);
    assert(c2.dirs().len() == cells_a[ni].dirs().len() + 1);

    lemma_count_true_update(visited_pre, ni);
    lemma_count_true_bounds(visited_post);

    // cells only grew
    assert(cells_only_grow(cells_a, cells_c)) by {
        assert forall|i: int| 0 <= i < cells_a.len() implies (#[trigger] cells_c[i]).pos_spec()
            == cells_a[i].pos_spec() by {}
        assert forall|i: int, dd: Direction|
            0 <= i < cells_a.len() && (#[trigger] cells_a[i].dirs().contains(
                dd,
            )) implies cells_c[i].dirs().contains(dd) by {
            if i == ci {
                assert(cells_a[i].open_toward(dd));
                assert(c1.open_toward(dd));
            } else if i == ni {
                assert(cells_a[i].open_toward(dd));
                assert(c2.open_toward(dd));
            } else {
                assert(cells_c[i] == cells_a[i]);
            }
        }
    }

    // base well-formedness
    assert(cells_base_wf(cells_c, sz)) by {
        assert forall|x: int, y: int| grid_in_bounds(sz, x, y) implies (#[trigger] cell_at_spec(
            cells_c,
            sz,
            x,
            y,
        )).pos_spec() == (x, y) by {
            lemma_grid_idx_bounds(sz, x, y);
            assert(cell_at_spec(cells_a, sz, x, y).pos_spec() == (x, y));
        }
        assert forall|i: int| 0 <= i < cells_c.len() implies (#[trigger] cells_c[i]).wf() by {
            if i != ci && i != ni {
                assert(cells_c[i] == cells_a[i]);
            }
        }
    }

    // every open passage still points at a visited, reciprocally open
    // neighbour
    assert(open_to_visited(cells_c, visited_post, sz)) by {
        assert forall|x: int, y: int, dd: Direction|
            grid_in_bounds(sz, x, y) && #[trigger] cells_open_at(
                cells_c,
                sz,
                x,
                y,
                dd,
            ) implies {
            let nx2 = x + dd.offset_spec().0;
            let ny2 = y + dd.offset_spec().1;
            &&& grid_in_bounds(sz, nx2, ny2)
            &&& cells_open_at(cells_c, sz, nx2, ny2, dd.opposite_spec())
            &&& visited_post[grid_idx(sz, x, y)]
            &&& visited_post[grid_idx(sz, nx2, ny2)]
        } by {
            let idx = grid_idx(sz, x, y);
            lemma_grid_idx_bounds(sz, x, y);
            let nx2 = x + dd.offset_spec().0;
            let ny2 = y + dd.offset_spec().1;
            lemma_offset_bounds(dd);
            if idx == ci && dd == d {
                lemma_grid_idx_injective(sz, x, y, fx, fy);
                assert((nx2, ny2) == (nxi, nyi));
                lemma_direction_laws(d);
                assert(c2.open_toward(d.opposite_spec()));
                assert(cells_open_at(cells_c, sz, nx2, ny2, dd.opposite_spec()));
                assert(visited_post[grid_idx(sz, nx2, ny2)]);
                assert(visited_post[idx] == visited_pre[idx]);
            } else if idx == ni && dd == d.opposite_spec() {
                lemma_grid_idx_injective(sz, x, y, nxi, nyi);
                lemma_direction_laws(d);
                assert((nx2, ny2) == (fx, fy));
                assert(c1.open_toward(d));
                assert(cells_open_at(cells_c, sz, nx2, ny2, dd.opposite_spec()));
                assert(visited_post[grid_idx(sz, nx2, ny2)] == visited_pre[grid_idx(
                    sz,
                    nx2,
                    ny2,
                )]);
            } else {
                if idx == ci {
                    assert(c1.open_toward(dd));
                    assert(cells_a[idx].open_toward(dd));
                } else if idx == ni {
                    assert(c2.open_toward(dd));
                    assert(cells_a[idx].open_toward(dd));
                } else {
                    assert(cells_c[idx] == cells_a[idx]);
                }
                assert(cells_open_at(cells_a, sz, x, y, dd));
                assert(grid_in_bounds(sz, nx2, ny2));
                lemma_grid_idx_bounds(sz, nx2, ny2);
                assert(cells_open_at(cells_a, sz, nx2, ny2, dd.opposite_spec()));
                assert(cells_a[grid_idx(sz, nx2, ny2)].open_toward(dd.opposite_spec()));
                assert(cells_c[grid_idx(sz, nx2, ny2)].open_toward(dd.opposite_spec()));
                assert(visited_pre[idx] && visited_pre[grid_idx(sz, nx2, ny2)]);
            }
        }
    }

    // the degree sum grew by two
    assert(degree_sum(cells_c) == 2 * (vc + 1 - 1)) by {
        lemma_degree_sum_update(cells_a, ci, c1);
        lemma_degree_sum_update(cells_a.update(ci, c1), ni, c2);
        assert(cells_a.update(ci, c1)[ni] == cells_a[ni]);
    }

    // every visited cell is connected to the start
    assert forall|x: int, y: int|
        grid_in_bounds(sz, x, y) && #[trigger] visited_post[grid_idx(
            sz,
            x,
            y,
        )] implies cells_connected(cells_c, sz, st, (x, y)) by {
        let idx = grid_idx(sz, x, y);
        lemma_grid_idx_bounds(sz, x, y);
        if idx == ni {
            lemma_grid_idx_injective(sz, x, y, nxi, nyi);
            assert(visited_pre[grid_idx(sz, fx, fy)]);
            assert(cells_connected(cells_a, sz, st, (fx, fy)));
            lemma_connected_monotone(cells_a, cells_c, sz, st, (fx, fy));
            lemma_dir_between_offset((fx, fy), d);
            lemma_direction_laws(d);
            assert(cell_at_spec(cells_c, sz, fx, fy) == c1);
            assert(cell_at_spec(cells_c, sz, nxi, nyi) == c2);
            assert(c1.pos_spec() == (fx, fy));
            assert(c2.pos_spec() == (nxi, nyi));
            assert(c1.open_toward(d));
            assert(c2.open_toward(d.opposite_spec()));
            assert(c1.has_link_to_spec(c2));
            assert(cells_linked(cells_c, sz, (fx, fy), (x, y)));
            lemma_path_extend(cells_c, sz, st, (fx, fy), (x, y));
        } else {
            assert(visited_pre[idx]);
            assert(cells_connected(cells_a, sz, st, (x, y)));
            lemma_connected_monotone(cells_a, cells_c, sz, st, (x, y));
        }
    }

    // stack frames stay sound
    assert forall|j: int| 0 <= j < stack_c.len() implies frame_ok(
        sz,
        visited_post,
        #[trigger] stack_c[j],
    ) by {
        if j == stack_c.len() - 1 {
            assert(stack_c[j] == nf);
            assert(nf.order.complete());
            assert(visited_post[ni]);
        } else {
            let g = stack_c[j];
            assert(g == stack_b[j]);
            assert(frame_ok(sz, visited_pre, stack_pre[j]));
            lemma_grid_idx_bounds(sz, g.x as int, g.y as int);
            assert forall|kk: int| 0 <= kk < g.next_dir implies neighbor_done(
                sz,
                visited_post,
                (g.x as int, g.y as int),
                #[trigger] g.order.get_spec(kk),
            ) by {
                if j == top && kk == f.next_dir as int {
                    assert(g.order.get_spec(kk) == d);
                    assert(visited_post[ni]);
                } else {
                    assert(neighbor_done(
                        sz,
                        visited_pre,
                        (g.x as int, g.y as int),
                        g.order.get_spec(kk),
                    ));
                    let nx2 = g.x as int + g.order.get_spec(kk).offset_spec().0;
                    let ny2 = g.y as int + g.order.get_spec(kk).offset_spec().1;
                    if grid_in_bounds(sz, nx2, ny2) {
                        lemma_grid_idx_bounds(sz, nx2, ny2);
                    }
                }
            }
        }
    }

    // exhausted cells stay exhausted
    assert forall|x: int, y: int|
        grid_in_bounds(sz, x, y) && #[trigger] visited_post[grid_idx(sz, x, y)] && !on_stack(
            stack_c,
            x,
            y,
        ) implies all_neighbors_done(sz, visited_post, x, y) by {
        let idx = grid_idx(sz, x, y);
        lemma_grid_idx_bounds(sz, x, y);
        if idx == ni {
            lemma_grid_idx_injective(sz, x, y, nxi, nyi);
            assert((stack_c[stack_c.len() - 1]).x as int == x);
            assert(on_stack(stack_c, x, y));
        } else {
            assert(visited_pre[idx]);
            if on_stack(stack_pre, x, y) {
                let j = choose|j: int|
                    0 <= j < stack_pre.len() && (#[trigger] stack_pre[j]).x as int == x
                        && stack_pre[j].y as int == y;
                if j == top {
                    assert(stack_c[j].x as int == x && stack_c[j].y as int == y);
                } else {
                    assert(stack_c[j] == stack_pre[j]);
                }
                assert(on_stack(stack_c, x, y));
            } else {
                assert(all_neighbors_done(sz, visited_pre, x, y));
                assert forall|dd: Direction| #[trigger] neighbor_done(
                    sz,
                    visited_post,
                    (x, y),
                    dd,
                ) by {
                    assert(neighbor_done(sz, visited_pre, (x, y), dd));
                    let nx2 = x + dd.offset_spec().0;
                    let ny2 = y + dd.offset_spec().1;
                    if grid_in_bounds(sz, nx2, ny2) {
                        lemma_grid_idx_bounds(sz, nx2, ny2);
                    }
                }
            }
        }
    }

    // colours untouched
    assert forall|i: int| 0 <= i < cells_c.len() implies (#[trigger] cells_c[i]).color_spec()
        == cells0[i].color_spec() by {
        if i != ci && i != ni {
            assert(cells_c[i] == cells_a[i]);
        }
    }

    // the measure dropped
    assert(stack_b.drop_last() =~= stack_pre.drop_last());
    assert(stack_b.last() == fp);
    assert(frames_work(stack_b) == frames_work(stack_pre) - 1);
    assert(stack_c.drop_last() =~= stack_b);
    assert(frames_work(stack_c) == frames_work(stack_b) + 4);
}

/// Carves a random depth-first spanning tree into a grid of empty cells,
/// using one direction order per newly visited cell. This is the iterative
/// form of the recursive backtracker: a stack of (cell, shuffled candidate
/// directions) frames, where each step tries the top frame's next candidate
/// and, when it leads to an unvisited in-bounds neighbour, opens a
/// reciprocal passage and pushes the neighbour.
fn carve_tree(size: i32, start: (i32, i32), orders: &Vec<DirOrder>, cells: &mut Vec<Cell>)
    requires
        1 <= size <= MAX_SIZE,
        grid_in_bounds(size as int, start.0 as int, start.1 as int),
        orders@.len() >= (size as int) * (size as int),
        forall|i: int| 0 <= i < orders@.len() ==> (#[trigger] orders@[i]).complete(),
        cells_base_wf(old(cells)@, size as int),
        forall|i: int|
            0 <= i < old(cells)@.len() ==> (#[trigger] old(cells)@[i]).dirs() == Seq::<
                Direction,
            >::empty(),
    ensures
        cells_base_wf(final(cells)@, size as int),
        cells_reciprocal(final(cells)@, size as int),
        degree_sum(final(cells)@) == 2 * ((size as int) * (size as int) - 1),
        forall|x: int, y: int|
            grid_in_bounds(size as int, x, y) ==> #[trigger] cells_connected(
                final(cells)@,
                size as int,
                (start.0 as int, start.1 as int),
                (x, y),
            ),
        forall|i: int|
            0 <= i < final(cells)@.len() ==> (#[trigger] final(cells)@[i]).color_spec() == old(
                cells,
            )@[i].color_spec(),
{
    let ghost sz: int = size as int;
    let ghost st: (int, int) = (start.0 as int, start.1 as int);
    let ghost cells0: Seq<Cell> = cells@;
    proof {
        assert(sz * sz <= 2500) by (nonlinear_arith)
            requires
                1 <= sz <= 50,
        ;
        assert(sz * sz >= 1) by (nonlinear_arith)
            requires
                1 <= sz,
        ;
    }
    let n: usize = (size as usize) * (size as usize);
    let mut visited: Vec<bool> = Vec::new();
    while visited.len() < n
        invariant
            n as int == sz * sz,
            visited@.len() <= n,
            forall|i: int| 0 <= i < visited@.len() ==> !visited@[i],
        decreases n - visited@.len(),
    {
        visited.push(false);
    }
    let si = flat_index(size, start.0, start.1);
    proof {
        lemma_count_true_none(visited@);
        lemma_count_true_update(visited@, si as int);
    }
    visited.set(si, true);
    let mut visited_count: usize = 1;
    let mut stack: Vec<Frame> = Vec::new();
    let first_order = orders[0];
    stack.push(Frame { x: start.0, y: start.1, order: first_order, next_dir: 0 });
    proof {
        assert(stack@.drop_last() =~= Seq::<Frame>::empty());
        assert forall|x: int, y: int|
            grid_in_bounds(sz, x, y) && #[trigger] visited@[grid_idx(sz, x, y)] implies cells_connected(
            cells@,
            sz,
            st,
            (x, y),
        ) by {
            lemma_grid_idx_bounds(sz, x, y);
            lemma_grid_idx_injective(sz, x, y, st.0, st.1);
            lemma_connected_self(cells@, sz, st);
        }
        assert forall|x: int, y: int, d: Direction|
            grid_in_bounds(sz, x, y) && #[trigger] cells_open_at(cells@, sz, x, y, d) implies false by {
            lemma_grid_idx_bounds(sz, x, y);
        }
        lemma_degree_sum_empty(cells@);
        assert forall|j: int| 0 <= j < stack@.len() implies frame_ok(
            sz,
            visited@,
            #[trigger] stack@[j],
        ) by {
            lemma_grid_idx_bounds(sz, st.0, st.1);
        }
        assert forall|x: int, y: int|
            grid_in_bounds(sz, x, y) && #[trigger] visited@[grid_idx(sz, x, y)] && !on_stack(
                stack@,
                x,
                y,
            ) implies all_neighbors_done(sz, visited@, x, y) by {
            lemma_grid_idx_bounds(sz, x, y);
            lemma_grid_idx_injective(sz, x, y, st.0, st.1);
            assert(stack@[0].x as int == x && stack@[0].y as int == y);
            assert(on_stack(stack@, x, y));
        }
        assert(carve_inv(sz, st, cells0, orders@, cells@, visited@, stack@, visited_count as int));
    }
    while stack.len() > 0
        invariant
            sz == size as int,
            st == (start.0 as int, start.1 as int),
            n as int == sz * sz,
            n <= 2500,
            orders@.len() >= sz * sz,
            carve_inv(sz, st, cells0, orders@, cells@, visited@, stack@, visited_count as int),
        decreases 6 * (n as int - visited_count as int) + frames_work(stack@) + stack@.len(),
    {
        proof {
            lemma_frames_work_nonneg(stack@);
            lemma_frames_work_nonneg(stack@.drop_last());
        }
        let top = stack.len() - 1;
        let f = stack[top];
        proof {
            assert(frame_ok(sz, visited@, stack@[top as int]));
        }
        let ghost stack_pre = stack@;
        let ghost visited_pre = visited@;
        if f.next_dir >= 4 {
            stack.pop();
            proof {
                assert(stack@ =~= stack_pre.drop_last());
                lemma_pop_step(
                    sz,
                    st,
                    cells0,
                    orders@,
                    cells@,
                    visited@,
                    stack_pre,
                    stack@,
                    visited_count as int,
                );
            }
        } else {
            let fp = Frame { x: f.x, y: f.y, order: f.order, next_dir: f.next_dir + 1 };
            stack.set(top, fp);
            let ghost stack_b = stack@;
            let d = f.order.get(f.next_dir);
            proof {
                lemma_offset_bounds(d);
                assert(stack_b == stack_pre.update(top as int, fp));
            }
            let (dx, dy) = d.grid_dir();
            let nx = f.x + dx;
            let ny = f.y + dy;
            let ghost nxi: int = f.x as int + d.offset_spec().0;
            let ghost nyi: int = f.y as int + d.offset_spec().1;
            let mut carved = false;
            if check_in_bounds(size, nx, ny) {
                let ni = flat_index(size, nx, ny);
                if !visited[ni] {
                    carved = true;
                    let ci = flat_index(size, f.x, f.y);
                    proof {
                        lemma_grid_idx_bounds(sz, f.x as int, f.y as int);
                        lemma_grid_idx_bounds(sz, nxi, nyi);
                        if ci == ni {
                            lemma_grid_idx_injective(sz, f.x as int, f.y as int, nxi, nyi);
                        }
                        assert(ci != ni);
                        if cells@[ci as int].open_toward(d) {
                            assert(cells_open_at(cells@, sz, f.x as int, f.y as int, d));
                            assert(visited@[ni as int]);
                        }
                        if cells@[ni as int].open_toward(d.opposite_spec()) {
                            assert(cells_open_at(cells@, sz, nxi, nyi, d.opposite_spec()));
                            assert(visited@[ni as int]);
                        }
                    }
                    let ghost cells_a = cells@;
                    let cref = &mut cells[ci];
                    cref.add_passage(d);
                    let opp = d.opposite();
                    let cref2 = &mut cells[ni];
                    cref2.add_passage(opp);
                    let ghost cells_c = cells@;
                    let ghost c1 = cells_c[ci as int];
                    let ghost c2 = cells_c[ni as int];
                    visited.set(ni, true);
                    proof {
                        lemma_count_true_update(visited_pre, ni as int);
                        lemma_count_true_bounds(visited@);
                    }
                    visited_count += 1;
                    let next_order = orders[visited_count - 1];
                    let nf = Frame { x: nx, y: ny, order: next_order, next_dir: 0 };
                    stack.push(nf);
                    proof {
                        assert(cells_c =~= cells_a.update(ci as int, c1).update(ni as int, c2));
                        assert(stack@ == stack_b.push(nf));
                        lemma_carve_step(
                            sz,
                            st,
                            cells0,
                            orders@,
                            cells_a,
                            cells_c,
                            visited_pre,
                            visited@,
                            stack_pre,
                            stack@,
                            visited_count as int - 1,
                            f,
                            d,
                            nxi,
                            nyi,
                            ci as int,
                            ni as int,
                            c1,
                            c2,
                            fp,
                            nf,
                        );
                    }
                }
            }
            if !carved {
                proof {
                    assert(neighbor_done(sz, visited@, (f.x as int, f.y as int), d)) by {
                        if grid_in_bounds(sz, nxi, nyi) {
                            lemma_grid_idx_bounds(sz, nxi, nyi);
                        }
                    }
                    lemma_advance_step(
                        sz,
                        st,
                        cells0,
                        orders@,
                        cells@,
                        visited@,
                        stack_pre,
                        stack_b,
                        visited_count as int,
                        f,
                        d,
                        fp,
                    );
                }
            }
        }
    }
    proof {
        // the stack is empty: the visited set is closed under adjacency,
        // so every cell is visited, and everything proved of visited cells
        // holds of the whole grid
        assert forall|a: int, b: int|
            grid_in_bounds(sz, a, b) && #[trigger] visited@[grid_idx(sz, a, b)] implies all_neighbors_done(
            sz,
            visited@,
            a,
            b,
        ) by {
            assert(!on_stack(stack@, a, b));
        }
        assert forall|x: int, y: int| grid_in_bounds(sz, x, y) implies #[trigger] visited@[grid_idx(
            sz,
            x,
            y,
        )] by {
            lemma_closed_all_visited(sz, visited@, st.0, st.1, x, y);
        }
        assert forall|i: int| 0 <= i < visited@.len() implies visited@[i] by {
            let yy = i / sz;
            let xx = i % sz;
            vstd::arithmetic::div_mod::lemma_fundamental_div_mod(i, sz);
            vstd::arithmetic::div_mod::lemma_mod_bound(i, sz);
            assert(0 <= yy < sz) by (nonlinear_arith)
                requires
                    0 <= i < sz * sz,
                    1 <= sz,
                    i == sz * yy + xx,
                    0 <= xx < sz,
            ;
            assert(i == grid_idx(sz, xx, yy)) by (nonlinear_arith)
                requires
                    i == sz * yy + xx,
            ;
            assert(visited@[grid_idx(sz, xx, yy)]);
        }
        lemma_count_true_full(visited@);
        assert(visited_count as int == sz * sz);
        assert forall|x: int, y: int| grid_in_bounds(sz, x, y) implies #[trigger] cells_connected(
            cells@,
            sz,
            st,
            (x, y),
        ) by {
            assert(visited@[grid_idx(sz, x, y)]);
        }
        assert forall|x: int, y: int, d: Direction|
            grid_in_bounds(sz, x, y) && #[trigger] cells_open_at(cells@, sz, x, y, d) implies {
            let nx = x + d.offset_spec().0;
            let ny = y + d.offset_spec().1;
            grid_in_bounds(sz, nx, ny) && cells_open_at(cells@, sz, nx, ny, d.opposite_spec())
        } by {}
    }
}

/// A square grid of cells with a designated start and end position.
///
/// After construction the grid is well formed: every cell knows its own
/// position, passage vectors are sorted, and passages are reciprocal. When
/// the start position is in bounds the passage graph is moreover a spanning
/// tree of the grid: connected with exactly `size * size - 1` passages.
#[derive(Debug)]
pub struct MazeGrid {
    pub cells: Vec<Cell>,
    pub size: i32,
    pub start: (i32, i32),
    pub end: (i32, i32),
}

impl MazeGrid {
    /// The side length, as a mathematical integer.
    pub open spec fn size_spec(self) -> int {
        self.size as int
    }

    /// The start position.
    pub open spec fn start_spec(self) -> (int, int) {
        (self.start.0 as int, self.start.1 as int)
    }

    /// The end position.
    pub open spec fn end_spec(self) -> (int, int) {
        (self.end.0 as int, self.end.1 as int)
    }

    /// Whether `(x, y)` lies inside this grid.
    pub open spec fn in_bounds(self, x: int, y: int) -> bool {
        grid_in_bounds(self.size_spec(), x, y)
    }

    /// The cell at `(x, y)`.
    pub open spec fn cell_spec(self, x: int, y: int) -> Cell {
        cell_at_spec(self.cells@, self.size_spec(), x, y)
    }

    /// Structural well-formedness: bounded size, one cell per position,
    /// positions stored correctly, sorted passage vectors, reciprocity.
    pub open spec fn wf(self) -> bool {
        &&& 0 <= self.size <= MAX_SIZE
        &&& cells_base_wf(self.cells@, self.size_spec())
        &&& cells_reciprocal(self.cells@, self.size_spec())
    }

    /// The two positions hold a reciprocal passage between them.
    pub open spec fn linked(self, a: (int, int), b: (int, int)) -> bool {
        cells_linked(self.cells@, self.size_spec(), a, b)
    }

    /// Some passage walk leads from `a` to `b`.
    pub open spec fn connected(self, a: (int, int), b: (int, int)) -> bool {
        cells_connected(self.cells@, self.size_spec(), a, b)
    }

    /// Every in-bounds cell is reachable from the start position.
    pub open spec fn fully_connected(self) -> bool {
        forall|x: int, y: int|
            self.in_bounds(x, y) ==> #[trigger] self.connected(self.start_spec(), (x, y))
    }

    /// Twice the number of passages: the sum of all passage-vector lengths.
    pub open spec fn degree_sum_spec(self) -> int {
        degree_sum(self.cells@)
    }

    /// A perfect maze: fully connected with exactly `size * size - 1`
    /// passages, each passage counted twice in the degree sum.
    pub open spec fn is_perfect(self) -> bool {
        &&& self.fully_connected()
        &&& self.degree_sum_spec() == 2 * (self.size_spec() * self.size_spec() - 1)
    }

    /// The side length.
    pub fn size(&self) -> (r: i32)
        ensures
            r == self.size,
    {
        self.size
    }

    /// The start position.
    pub fn start_pos(&self) -> (r: (i32, i32))
        ensures
            r == self.start,
    {
        self.start
    }

    /// The end position.
    pub fn end_pos(&self) -> (r: (i32, i32))
        ensures
            r == self.end,
    {
        self.end
    }

    /// The cell at `(x, y)`, or `None` when the position lies outside the
    /// grid; an absent cell is never fabricated.
    pub fn cell_at(&self, x: i32, y: i32) -> (r: Option<&Cell>)
        requires
            self.wf(),
        ensures
            match r {
                Some(c) => self.in_bounds(x as int, y as int) && *c == self.cell_spec(
                    x as int,
                    y as int,
                ),
                None => !self.in_bounds(x as int, y as int),
            },
    {
        if x < 0 || x >= self.size || y < 0 || y >= self.size {
            None
        } else {
            let i = flat_index(self.size, x, y);
            Some(&self.cells[i])
        }
    }

    /// Mutable access to the cell at `(x, y)`, or `None` when the position
    /// lies outside the grid.
    pub fn cell_mut_at(&mut self, x: i32, y: i32) -> (r: Option<&mut Cell>)
        requires
            old(self).wf(),
        ensures
            match r {
                Some(c) => {
                    &&& old(self).in_bounds(x as int, y as int)
                    &&& *c == old(self).cell_spec(x as int, y as int)
                    &&& final(self).cells@ == old(self).cells@.update(
                        grid_idx(old(self).size_spec(), x as int, y as int),
                        *final(c),
                    )
                    &&& final(self).size == old(self).size
                    &&& final(self).start == old(self).start
                    &&& final(self).end == old(self).end
                },
                None => {
                    &&& !old(self).in_bounds(x as int, y as int)
                    &&& *final(self) == *old(self)
                },
            },
    {
        if x < 0 || x >= self.size || y < 0 || y >= self.size {
            None
        } else {
            let i = flat_index(self.size, x, y);
            Some(&mut self.cells[i])
        }
    }

    /// A maze grid generated with the given candidate-direction orders, one
    /// consumed per newly visited cell in visiting order. With the orders
    /// fixed the layout is deterministic, which makes generation
    /// reproducible for regression testing.
    ///
    /// When the start position is in bounds the result is a perfect maze;
    /// otherwise every cell is left isolated, a valid degenerate grid.
    /// The start cell is marked with the distinguishing colour.
    pub fn new_with_orders(
        size: i32,
        start_pos: (i32, i32),
        end_pos: (i32, i32),
        orders: &Vec<DirOrder>,
    ) -> (g: MazeGrid)
        requires
            0 <= size <= MAX_SIZE,
            orders@.len() >= (size as int) * (size as int),
            forall|i: int| 0 <= i < orders@.len() ==> (#[trigger] orders@[i]).complete(),
        ensures
            g.wf(),
            g.size == size,
            g.start == start_pos,
            g.end == end_pos,
            grid_in_bounds(size as int, start_pos.0 as int, start_pos.1 as int) ==> g.is_perfect()
                && g.cell_spec(start_pos.0 as int, start_pos.1 as int).color_spec()
                == Color::start_mark_spec(),
            !grid_in_bounds(size as int, start_pos.0 as int, start_pos.1 as int) ==> {
                &&& g.degree_sum_spec() == 0
                &&& forall|x: int, y: int, d: Direction|
                    g.in_bounds(x, y) ==> !(#[trigger] g.cell_spec(x, y).open_toward(d))
            },
    {
        let ghost sz: int = size as int;
        let ghost st: (int, int) = (start_pos.0 as int, start_pos.1 as int);
        let mut cells = build_empty_cells(size);
        if check_in_bounds(size, start_pos.0, start_pos.1) {
            let si = flat_index(size, start_pos.0, start_pos.1);
            let ghost cells_pre = cells@;
            let cref = &mut cells[si];
            cref.set_color(Color::new(255, 0, 255, 0));
            proof {
                let ghost cells_m = cells@;
                assert(cells_m[si as int].dirs() == cells_pre[si as int].dirs());
                assert(cells_base_wf(cells_m, sz)) by {
                    assert forall|x: int, y: int| grid_in_bounds(sz, x, y) implies (
                    #[trigger] cell_at_spec(cells_m, sz, x, y)).pos_spec() == (x, y) by {
                        lemma_grid_idx_bounds(sz, x, y);
                        assert(cell_at_spec(cells_pre, sz, x, y).pos_spec() == (x, y));
                    }
                    assert forall|i: int| 0 <= i < cells_m.len() implies (
                    #[trigger] cells_m[i]).wf() by {
                        if i != si as int {
                            assert(cells_m[i] == cells_pre[i]);
                        }
                    }
                }
                assert forall|i: int| 0 <= i < cells_m.len() implies (#[trigger] cells_m[i]).dirs()
                    == Seq::<Direction>::empty() by {
                    if i != si as int {
                        assert(cells_m[i] == cells_pre[i]);
                    }
                }
            }
            carve_tree(size, start_pos, orders, &mut cells);
            let g = MazeGrid { cells, size, start: start_pos, end: end_pos };
            proof {
                assert(g.cell_spec(st.0, st.1).color_spec() == Color::start_mark_spec()) by {
                    lemma_grid_idx_bounds(sz, st.0, st.1);
                }
                assert forall|x: int, y: int| g.in_bounds(x, y) implies #[trigger] g.connected(
                    g.start_spec(),
                    (x, y),
                ) by {
                    assert(cells_connected(g.cells@, sz, st, (x, y)));
                }
            }
            g
        } else {
            let g = MazeGrid { cells, size, start: start_pos, end: end_pos };
            proof {
                assert forall|x: int, y: int, d: Direction| g.in_bounds(x, y) implies !(
                #[trigger] g.cell_spec(x, y).open_toward(d)) by {
                    lemma_grid_idx_bounds(sz, x, y);
                    assert(g.cell_spec(x, y).dirs() == Seq::<Direction>::empty());
                }
                assert forall|x: int, y: int, d: Direction|
                    grid_in_bounds(sz, x, y) && #[trigger] cells_open_at(
                        g.cells@,
                        sz,
                        x,
                        y,
                        d,
                    ) implies false by {
                    assert(!g.cell_spec(x, y).open_toward(d));
                }
                lemma_degree_sum_empty(g.cells@);
            }
            g
        }
    }

    /// A freshly generated maze grid: a `size * size` array of cells carved
    /// into a random perfect maze when `start_pos` is in bounds, with the
    /// start cell marked. An out-of-bounds start leaves every cell isolated.
    pub fn new(size: i32, start_pos: (i32, i32), end_pos: (i32, i32)) -> (g: MazeGrid)
        requires
            0 <= size <= MAX_SIZE,
        ensures
            g.wf(),
            g.size == size,
            g.start == start_pos,
            g.end == end_pos,
            grid_in_bounds(size as int, start_pos.0 as int, start_pos.1 as int) ==> g.is_perfect()
                && g.cell_spec(start_pos.0 as int, start_pos.1 as int).color_spec()
                == Color::start_mark_spec(),
            !grid_in_bounds(size as int, start_pos.0 as int, start_pos.1 as int) ==> {
                &&& g.degree_sum_spec() == 0
                &&& forall|x: int, y: int, d: Direction|
                    g.in_bounds(x, y) ==> !(#[trigger] g.cell_spec(x, y).open_toward(d))
            },
    {
        proof {
            assert((size as int) * (size as int) <= 2500) by (nonlinear_arith)
                requires
                    0 <= (size as int) <= 50,
            ;
        }
        let n: usize = (size as usize) * (size as usize);
        let mut orders: Vec<DirOrder> = Vec::new();
        while orders.len() < n
            invariant
                n as int == (size as int) * (size as int),
                orders@.len() <= n,
                forall|i: int| 0 <= i < orders@.len() ==> (#[trigger] orders@[i]).complete(),
            decreases n - orders@.len(),
        {
            let mut v: Vec<Direction> = Vec::new();
            v.push(Direction::Up);
            v.push(Direction::Right);
            v.push(Direction::Down);
            v.push(Direction::Left);
            proof {
                assert(v@ =~= base_dirs());
            }
            shuffle_directions(&mut v);
            let ord = dir_order_from_shuffled(&v);
            orders.push(ord);
        }
        MazeGrid::new_with_orders(size, start_pos, end_pos, &orders)
    }
}

/// Bounds check against a grid of side length `size`.
fn check_in_bounds(size: i32, x: i32, y: i32) -> (r: bool)
    ensures
        r == grid_in_bounds(size as int, x as int, y as int),
{
    x >= 0 && x < size && y >= 0 && y < size
}

/// The row-major index of an in-bounds position, as a vector index.
fn flat_index(size: i32, x: i32, y: i32) -> (i: usize)
    requires
        0 <= size <= MAX_SIZE,
        grid_in_bounds(size as int, x as int, y as int),
    ensures
        i as int == grid_idx(size as int, x as int, y as int),
        (i as int) < (size as int) * (size as int),
{
    proof {
        lemma_grid_idx_bounds(size as int, x as int, y as int);
        assert((y as int) * (size as int) <= 49 * 50) by (nonlinear_arith)
            requires
                0 <= (y as int) <= 49,
                0 <= (size as int) <= 50,
        ;
    }
    (y as usize) * (size as usize) + (x as usize)
}

/// A `size * size` array of fresh cells, each knowing its position, with no
/// passages anywhere.
fn build_empty_cells(size: i32) -> (cells: Vec<Cell>)
    requires
        0 <= size <= MAX_SIZE,
    ensures
        cells@.len() == (size as int) * (size as int),
        cells_base_wf(cells@, size as int),
        forall|i: int|
            0 <= i < cells@.len() ==> (#[trigger] cells@[i]).dirs() == Seq::<Direction>::empty()
                && cells@[i].color_spec() == Color::cell_base_spec(),
{
    let ghost sz: int = size as int;
    let mut cells: Vec<Cell> = Vec::new();
    let mut y: i32 = 0;
    while y < size
        invariant
            0 <= size <= MAX_SIZE,
            0 <= y <= size,
            cells@.len() == (y as int) * sz,
            sz == size as int,
            forall|xx: int, yy: int|
                grid_in_bounds(sz, xx, yy) && grid_idx(sz, xx, yy) < cells@.len() ==> {
                    &&& (#[trigger] cell_at_spec(cells@, sz, xx, yy)).pos_spec() == (xx, yy)
                    &&& cell_at_spec(cells@, sz, xx, yy).wf()
                },
            forall|i: int|
                0 <= i < cells@.len() ==> (#[trigger] cells@[i]).dirs() == Seq::<
                    Direction,
                >::empty() && cells@[i].color_spec() == Color::cell_base_spec() && cells@[i].wf(),
        decreases size - y,
    {
        let mut x: i32 = 0;
        proof {
            assert((y as int) * sz >= 0) by (nonlinear_arith)
                requires
                    0 <= y as int,
                    0 <= sz,
            ;
        }
        while x < size
            invariant
                0 <= size <= MAX_SIZE,
                0 <= y < size,
                0 <= x <= size,
                sz == size as int,
                cells@.len() == (y as int) * sz + x as int,
                forall|xx: int, yy: int|
                    grid_in_bounds(sz, xx, yy) && grid_idx(sz, xx, yy) < cells@.len() ==> {
                        &&& (#[trigger] cell_at_spec(cells@, sz, xx, yy)).pos_spec() == (xx, yy)
                        &&& cell_at_spec(cells@, sz, xx, yy).wf()
                    },
                forall|i: int|
                    0 <= i < cells@.len() ==> (#[trigger] cells@[i]).dirs() == Seq::<
                        Direction,
                    >::empty() && cells@[i].color_spec() == Color::cell_base_spec()
                        && cells@[i].wf(),
        decreases size - x,
        {
            proof {
                lemma_grid_idx_bounds(sz, x as int, y as int);
                assert((y as int) * sz + x < 2500) by (nonlinear_arith)
                    requires
                        0 <= x < sz,
                        0 <= (y as int) < sz,
                        sz <= 50,
                ;
            }
            let c = Cell::new(x, y);
            let ghost cells_pre = cells@;
            cells.push(c);
            proof {
                assert forall|xx: int, yy: int|
                    grid_in_bounds(sz, xx, yy) && grid_idx(sz, xx, yy)
                        < cells@.len() implies {
                    &&& (#[trigger] cell_at_spec(cells@, sz, xx, yy)).pos_spec() == (xx, yy)
                    &&& cell_at_spec(cells@, sz, xx, yy).wf()
                } by {
                    let k = grid_idx(sz, xx, yy);
                    if k == cells@.len() - 1 {
                        lemma_grid_idx_injective(sz, xx, yy, x as int, y as int);
                        assert(cell_at_spec(cells@, sz, xx, yy) == c);
                    } else {
                        assert(cells@[k] == cells_pre[k]);
                        assert(cell_at_spec(cells@, sz, xx, yy) == cell_at_spec(
                            cells_pre,
                            sz,
                            xx,
                            yy,
                        ));
                    }
                }
            }
            x += 1;
        }
        proof {
            assert((y as int) * sz + sz == (y as int + 1) * sz) by (nonlinear_arith);
        }
        y += 1;
    }
    proof {
        assert(cells@.len() == sz * sz);
        assert forall|xx: int, yy: int| grid_in_bounds(sz, xx, yy) implies (
        #[trigger] cell_at_spec(cells@, sz, xx, yy)).pos_spec() == (xx, yy) by {
            lemma_grid_idx_bounds(sz, xx, yy);
        }
    }
    cells
}

} // verus!
