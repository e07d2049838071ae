//! Points, cells and the rectangular grid they live on.
use vstd::prelude::*;

verus! {

/// A coordinate on the grid.
#[derive(Debug, Clone, Copy, PartialEq, Eq, Hash, PartialOrd, Ord, Structural)]
pub struct Point {
    pub x: usize,
    pub y: usize,
}

impl Point {
    pub fn new(x: usize, y: usize) -> (r: Self)
        ensures
            r == (Point { x, y }),
    {
        Point { x, y }
    }
}

/// The state of one grid cell.
#[derive(Debug, Clone, Copy, PartialEq, Eq, Structural)]
pub enum Cell {
    /// An impassable wall.
    Blocked,
    /// An open space that can be traversed.
    Free,
    /// A cell that lies on a computed path.
    Path,
}

/// Two points one horizontal or vertical unit step apart.
pub open spec fn adjacent(p: Point, q: Point) -> bool {
    (p.y == q.y && (q.x + 1 == p.x || p.x + 1 == q.x)) || (p.x == q.x && (q.y + 1 == p.y || p.y
        + 1 == q.y))
}

/// The number of blocked cells in `s`.
pub open spec fn count_blocked(s: Seq<Cell>) -> nat
    decreases s.len(),
{
    if s.len() == 0 {
        0
    } else {
        count_blocked(s.drop_last()) + if s.last() == Cell::Blocked {
            1nat
        } else {
            0nat
        }
    }
}

proof fn lemma_count_blocked_update(s: Seq<Cell>, i: int, c: Cell)
    requires
        0 <= i < s.len(),
    ensures
        count_blocked(s.update(i, c)) + (if s[i] == Cell::Blocked { 1int } else { 0int })
            == count_blocked(s) + (if c == Cell::Blocked { 1int } else { 0int }),
    decreases s.len(),
{
    let t = s.update(i, c);
    if i < s.len() - 1 {
        assert(t.drop_last() == s.drop_last().update(i, c));
        lemma_count_blocked_update(s.drop_last(), i, c);
    } else {
        assert(t.drop_last() == s.drop_last());
    }
}

/// A rectangular grid of cells, stored row by row.
#[derive(Debug, Clone)]
pub struct Grid {
    width: usize,
    height: usize,
    cells: Vec<Cell>,
}

impl Grid {
    pub closed spec fn spec_width(&self) -> nat {
        self.width as nat
    }

    pub closed spec fn spec_height(&self) -> nat {
        self.height as nat
    }

    /// The cell storage holds exactly one cell per coordinate (a vector of
    /// bytes never reaches `usize::MAX` elements).
    pub closed spec fn wf(&self) -> bool {
        self.cells@.len() == self.width * self.height && self.width * self.height < usize::MAX
    }

    /// The cell at `p`; meaningful for points inside the grid.
    pub closed spec fn cell(&self, p: Point) -> Cell {
        self.cells@[p.y * self.width + p.x]
    }

    /// How many cells are blocked.
    pub closed spec fn blocked_count(&self) -> nat {
        count_blocked(self.cells@)
    }

    pub open spec fn in_bounds(&self, p: Point) -> bool {
        p.x < self.spec_width() && p.y < self.spec_height()
    }

    /// A point that a path may enter: inside the grid and not blocked.
    pub open spec fn passable(&self, p: Point) -> bool {
        self.in_bounds(p) && self.cell(p) != Cell::Blocked
    }

    /// One step of a path: to an adjacent passable point.
    pub open spec fn is_move(&self, p: Point, q: Point) -> bool {
        adjacent(p, q) && self.passable(q)
    }

    /// The passable neighbours of `p`, in the order left, right, up, down.
    pub open spec fn spec_neighbors(&self, p: Point) -> Seq<Point> {
        let l = Point { x: (p.x - 1) as usize, y: p.y };
        let r = Point { x: (p.x + 1) as usize, y: p.y };
        let u = Point { x: p.x, y: (p.y - 1) as usize };
        let d = Point { x: p.x, y: (p.y + 1) as usize };
        (if p.x > 0 && self.passable(l) { seq![l] } else { seq![] })
            + (if p.x + 1 < self.spec_width() && self.passable(r) { seq![r] } else { seq![] })
            + (if p.y > 0 && self.passable(u) { seq![u] } else { seq![] })
            + (if p.y + 1 < self.spec_height() && self.passable(d) { seq![d] } else { seq![] })
    }

    proof fn lemma_cell_index(&self, p: Point)
        requires
            self.wf(),
            self.in_bounds(p),
        ensures
            0 <= p.y * self.width + p.x < self.cells@.len(),
            p.y * self.width <= p.y * self.width + p.x,
    {
        assert(p.y * self.width + p.x < self.width * self.height) by (nonlinear_arith)
            requires
                p.x < self.width,
                p.y < self.height,
        ;
    }

    /// The dimensions are machine integers.
    pub proof fn lemma_dims(&self)
        ensures
            self.spec_width() <= usize::MAX,
            self.spec_height() <= usize::MAX,
    {
    }

    /// The number of cells of a well-formed grid is below `usize::MAX`.
    pub proof fn lemma_size(&self)
        requires
            self.wf(),
        ensures
            self.spec_width() * self.spec_height() < usize::MAX,
    {
    }

    /// Creates a grid of the given size with every cell set to `initial_cell`.
    pub fn new(width: usize, height: usize, initial_cell: Cell) -> (r: Self)
        requires
            width * height < usize::MAX,
        ensures
            r.wf(),
            r.spec_width() == width,
            r.spec_height() == height,
            forall|p: Point| r.in_bounds(p) ==> r.cell(p) == initial_cell,
    {
        let n: usize = width * height;
        let mut cells: Vec<Cell> = Vec::new();
        let mut i: usize = 0;
        while i < n
            invariant
                i <= n,
                cells@.len() == i,
                forall|j: int| 0 <= j < i ==> cells@[j] == initial_cell,
            decreases n - i,
        {
            cells.push(initial_cell);
            i = i + 1;
        }
        let r = Grid { width, height, cells };
        assert forall|p: Point| r.in_bounds(p) implies r.cell(p) == initial_cell by {
            r.lemma_cell_index(p);
        }
        r
    }

    pub fn width(&self) -> (r: usize)
        ensures
            r == self.spec_width(),
    {
        self.width
    }

    pub fn height(&self) -> (r: usize)
        ensures
            r == self.spec_height(),
    {
        self.height
    }

    /// The cell at `p`.
    pub fn get(&self, p: Point) -> (r: Cell)
        requires
            self.wf(),
            self.in_bounds(p),
        ensures
            r == self.cell(p),
    {
        proof {
            self.lemma_cell_index(p);
        }
        self.cells[p.y * self.width + p.x]
    }

    /// Overwrites the cell at `p`, leaving every other cell as it was.
    pub fn set(&mut self, p: Point, c: Cell)
        requires
            old(self).wf(),
            old(self).in_bounds(p),
        ensures
            final(self).wf(),
            final(self).spec_width() == old(self).spec_width(),
            final(self).spec_height() == old(self).spec_height(),
            final(self).cell(p) == c,
            final(self).blocked_count() + (if old(self).cell(p) == Cell::Blocked { 1int } else { 0int })
                == old(self).blocked_count() + (if c == Cell::Blocked { 1int } else { 0int }),
            forall|q: Point|
                final(self).in_bounds(q) && q != p ==> final(self).cell(q) == old(self).cell(q),
    {
        proof {
            self.lemma_cell_index(p);
        }
        let i = p.y * self.width + p.x;
        proof {
            lemma_count_blocked_update(self.cells@, i as int, c);
        }
        self.cells.set(i, c);
        proof {
            assert forall|q: Point| self.in_bounds(q) && q != p implies self.cell(q) == old(
                self,
            ).cell(q) by {
                self.lemma_cell_index(q);
                let w = self.width as int;
                if q.y * w + q.x == p.y * w + p.x {
                    if q.y < p.y {
                        assert(q.y * w + w <= p.y * w) by (nonlinear_arith)
                            requires
                                q.y < p.y,
                                w >= 0,
                        ;
                    } else if q.y > p.y {
                        assert(p.y * w + w <= q.y * w) by (nonlinear_arith)
                            requires
                                q.y > p.y,
                                w >= 0,
                        ;
                    }
                }
            }
        }
    }

    /// The passable neighbours of `point`: left, right, up, down, each kept only
    /// when it lies inside the grid and is not blocked.
    pub fn neighbors(&self, point: Point) -> (r: Vec<Point>)
        requires
            self.wf(),
        ensures
            r@ == self.spec_neighbors(point),
            forall|q: Point| r@.contains(q) <==> self.is_move(point, q),
    {
        let mut r: Vec<Point> = Vec::new();
        let ghost l = Point { x: (point.x - 1) as usize, y: point.y };
        let ghost rt = Point { x: (point.x + 1) as usize, y: point.y };
        let ghost u = Point { x: point.x, y: (point.y - 1) as usize };
        let ghost d = Point { x: point.x, y: (point.y + 1) as usize };
        if point.x > 0 && point.y < self.height && point.x - 1 < self.width {
            let q = Point::new(point.x - 1, point.y);
            if self.get(q) != Cell::Blocked {
                r.push(q);
            }
        }
        let ghost s1 = r@;
        assert(s1 == (if point.x > 0 && self.passable(l) { seq![l] } else { seq![] }));
        if self.width > 0 && point.x < self.width - 1 && point.y < self.height {
            let q = Point::new(point.x + 1, point.y);
            if self.get(q) != Cell::Blocked {
                r.push(q);
            }
        }
        let ghost s2 = r@;
        assert(s2 == s1 + (if point.x + 1 < self.spec_width() && self.passable(rt) { seq![rt] } else { seq![] }));
        if point.y > 0 && point.x < self.width && point.y - 1 < self.height {
            let q = Point::new(point.x, point.y - 1);
            if self.get(q) != Cell::Blocked {
                r.push(q);
            }
        }
        let ghost s3 = r@;
        assert(s3 == s2 + (if point.y > 0 && self.passable(u) { seq![u] } else { seq![] }));
        if self.height > 0 && point.y < self.height - 1 && point.x < self.width {
            let q = Point::new(point.x, point.y + 1);
            if self.get(q) != Cell::Blocked {
                r.push(q);
            }
        }
        assert(r@ == s3 + (if point.y + 1 < self.spec_height() && self.passable(d) { seq![d] } else { seq![] }));
        proof {
            assert forall|q: Point| r@.contains(q) <==> self.is_move(point, q) by {
                if self.is_move(point, q) {
                    if q == l {
                        assert(r@[0] == q);
                    } else if q == rt {
                        assert(r@[s1.len() as int] == q);
                    } else if q == u {
                        assert(r@[s2.len() as int] == q);
                    } else {
                        assert(q == d);
                        assert(r@[s3.len() as int] == q);
                    }
                }
            }
        }
        r
    }
}

} // verus!
