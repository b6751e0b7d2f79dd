//! The automaton: grid dimensions, the set of live cells, seeding and the
//! B3/S23 transition.
use rand::Rng;
use crate::seqs::{lemma_distinct_len, lemma_push_contains, lemma_push_fresh, lemma_push_set};
use vstd::prelude::*;

verus! {

/// A grid position `(x, y)`.
pub type Cell = (usize, usize);

/// `c` lies inside a grid of `w` columns and `h` rows.
pub open spec fn in_bounds(w: nat, h: nat, c: Cell) -> bool {
    (c.0 as nat) < w && (c.1 as nat) < h
}

/// `a` and `b` are distinct and touch by an edge or a corner.
pub open spec fn adjacent(a: Cell, b: Cell) -> bool {
    a != b && -1 <= a.0 - b.0 <= 1 && -1 <= a.1 - b.1 <= 1
}

/// The in-bounds cells adjacent to `c`; there is no wrap-around.
pub open spec fn neighbor_set(w: nat, h: nat, c: Cell) -> Set<Cell> {
    Set::new(|n: Cell| in_bounds(w, h, n) && adjacent(c, n))
}

/// How many of the coordinates `i - 1`, `i`, `i + 1` lie in `0..n`.
pub open spec fn span(i: nat, n: nat) -> nat {
    1 + (if i > 0 { 1nat } else { 0nat }) + (if i + 1 < n { 1nat } else { 0nat })
}

/// The number of in-bounds neighbours of `c`.
pub open spec fn neighbor_total(w: nat, h: nat, c: Cell) -> nat {
    (span(c.0 as nat, w) * span(c.1 as nat, h) - 1) as nat
}

/// The neighbours of `c` in the order in which `World::neighbors` lists them:
/// right, lower right, upper right, below, above, left, lower left, upper left.
pub open spec fn neighbor_seq(w: nat, h: nat, c: Cell) -> Seq<Cell> {
    let x = c.0;
    let y = c.1;
    let right = x + 1 < w;
    let bot = y + 1 < h;
    let top = y > 0;
    let left = x > 0;
    let s0 = Seq::<Cell>::empty();
    let s1 = if right { s0.push(((x + 1) as usize, y)) } else { s0 };
    let s2 = if right && bot { s1.push(((x + 1) as usize, (y + 1) as usize)) } else { s1 };
    let s3 = if right && top { s2.push(((x + 1) as usize, (y - 1) as usize)) } else { s2 };
    let s4 = if bot { s3.push((x, (y + 1) as usize)) } else { s3 };
    let s5 = if top { s4.push((x, (y - 1) as usize)) } else { s4 };
    let s6 = if left { s5.push(((x - 1) as usize, y)) } else { s5 };
    let s7 = if left && bot { s6.push(((x - 1) as usize, (y + 1) as usize)) } else { s6 };
    if left && top { s7.push(((x - 1) as usize, (y - 1) as usize)) } else { s7 }
}

/// One step of `neighbor_seq`: append `a` when `cond` holds.
proof fn lemma_push_when(s: Seq<Cell>, cond: bool, a: Cell)
    requires
        s.no_duplicates(),
        cond ==> !s.to_set().contains(a),
    ensures
        (if cond { s.push(a) } else { s }).no_duplicates(),
        (if cond { s.push(a) } else { s }).to_set() == (if cond { s.to_set().insert(a) } else { s.to_set() }),
{
    if cond {
        assert(!s.contains(a)) by {
            if s.contains(a) {
                let i = choose|i: int| 0 <= i < s.len() && s[i] == a;
                assert(s.to_set().contains(s[i]));
            }
        }
        lemma_push_fresh(s, a);
    }
}

/// The listed neighbours are exactly the neighbour set, each once.
pub proof fn lemma_neighbor_seq(w: nat, h: nat, c: Cell)
    requires
        in_bounds(w, h, c),
        w <= usize::MAX,
        h <= usize::MAX,
    ensures
        neighbor_seq(w, h, c).no_duplicates(),
        neighbor_seq(w, h, c).to_set() == neighbor_set(w, h, c),
        neighbor_seq(w, h, c).len() == neighbor_total(w, h, c),
        neighbor_set(w, h, c).finite(),
        neighbor_set(w, h, c).len() == neighbor_total(w, h, c),
{
    let x = c.0;
    let y = c.1;
    let right = x + 1 < w;
    let bot = y + 1 < h;
    let top = y > 0;
    let left = x > 0;
    let a1 = ((x + 1) as usize, y);
    let a2 = ((x + 1) as usize, (y + 1) as usize);
    let a3 = ((x + 1) as usize, (y - 1) as usize);
    let a4 = (x, (y + 1) as usize);
    let a5 = (x, (y - 1) as usize);
    let a6 = ((x - 1) as usize, y);
    let a7 = ((x - 1) as usize, (y + 1) as usize);
    let a8 = ((x - 1) as usize, (y - 1) as usize);
    let s0 = Seq::<Cell>::empty();
    assert(s0.to_set() =~= Set::empty());
    let s1 = if right { s0.push(a1) } else { s0 };
    lemma_push_when(s0, right, a1);
    let s2 = if right && bot { s1.push(a2) } else { s1 };
    lemma_push_when(s1, right && bot, a2);
    let s3 = if right && top { s2.push(a3) } else { s2 };
    lemma_push_when(s2, right && top, a3);
    let s4 = if bot { s3.push(a4) } else { s3 };
    lemma_push_when(s3, bot, a4);
    let s5 = if top { s4.push(a5) } else { s4 };
    lemma_push_when(s4, top, a5);
    let s6 = if left { s5.push(a6) } else { s5 };
    lemma_push_when(s5, left, a6);
    let s7 = if left && bot { s6.push(a7) } else { s6 };
    lemma_push_when(s6, left && bot, a7);
    let s8 = if left && top { s7.push(a8) } else { s7 };
    lemma_push_when(s7, left && top, a8);
    assert(s8 == neighbor_seq(w, h, c));
    assert(s8.to_set() =~= neighbor_set(w, h, c));
    let sx = span(x as nat, w);
    let sy = span(y as nat, h);
    assert(s8.len() + 1 == sx * sy) by (nonlinear_arith)
        requires
            sx == 1 + (if left { 1nat } else { 0nat }) + (if right { 1nat } else { 0nat }),
            sy == 1 + (if top { 1nat } else { 0nat }) + (if bot { 1nat } else { 0nat }),
            s8.len() == (if right { 1nat } else { 0nat }) + (if right && bot { 1nat } else { 0nat })
                + (if right && top { 1nat } else { 0nat }) + (if bot { 1nat } else { 0nat })
                + (if top { 1nat } else { 0nat }) + (if left { 1nat } else { 0nat })
                + (if left && bot { 1nat } else { 0nat }) + (if left && top { 1nat } else { 0nat }),
    ;
    lemma_distinct_len(s8);
}

/// The number of live cells among the neighbours of `c`.
pub open spec fn live_neighbors(w: nat, h: nat, live: Set<Cell>, c: Cell) -> nat {
    neighbor_set(w, h, c).intersect(live).len()
}

/// The B3/S23 rule: a live cell stays alive with two or three live
/// neighbours, a dead cell comes alive with exactly three.
pub open spec fn rule(alive: bool, n: nat) -> bool {
    if alive {
        n == 2 || n == 3
    } else {
        n == 3
    }
}

/// The next generation, defined cell by cell over the whole grid.
pub open spec fn next_gen(w: nat, h: nat, live: Set<Cell>) -> Set<Cell> {
    Set::new(|c: Cell| in_bounds(w, h, c) && rule(live.contains(c), live_neighbors(w, h, live, c)))
}

/// In a grid at least two cells wide and tall, a corner cell has three
/// neighbours, another cell on the border five, and an inner cell eight.
pub proof fn lemma_neighbor_counts(w: nat, h: nat, c: Cell)
    requires
        2 <= w <= usize::MAX,
        2 <= h <= usize::MAX,
        in_bounds(w, h, c),
    ensures
        neighbor_set(w, h, c).len() == (if (c.0 == 0 || c.0 + 1 == w) && (c.1 == 0 || c.1 + 1 == h) {
            3nat
        } else if c.0 == 0 || c.0 + 1 == w || c.1 == 0 || c.1 + 1 == h {
            5nat
        } else {
            8nat
        }),
{
    lemma_neighbor_seq(w, h, c);
}

/// A live cell with no live neighbour, or with four or more, is dead in the
/// next generation.
pub proof fn lemma_lonely_or_crowded_dies(w: nat, h: nat, live: Set<Cell>, c: Cell)
    requires
        live.contains(c),
        live_neighbors(w, h, live, c) == 0 || live_neighbors(w, h, live, c) >= 4,
    ensures
        !next_gen(w, h, live).contains(c),
{
}

/// A single live cell dies, and nothing is born around it.
pub proof fn lemma_single_cell_dies(w: nat, h: nat, c: Cell)
    requires
        w <= usize::MAX,
        h <= usize::MAX,
    ensures
        next_gen(w, h, set![c]) == Set::<Cell>::empty(),
{
    assert forall|d: Cell| !next_gen(w, h, set![c]).contains(d) by {
        if in_bounds(w, h, d) {
            lemma_neighbor_seq(w, h, d);
            let s = neighbor_set(w, h, d).intersect(set![c]);
            vstd::set_lib::lemma_len_subset(s, set![c]);
            assert(set![c].len() == 1);
            if d == c {
                assert(s =~= Set::empty());
            }
        }
    }
    assert(next_gen(w, h, set![c]) =~= Set::<Cell>::empty());
}

/// 1 when `x` is an in-bounds neighbour of `d`, else 0.
pub open spec fn touches(w: nat, h: nat, d: Cell, x: Cell) -> nat {
    if in_bounds(w, h, x) && adjacent(d, x) {
        1
    } else {
        0
    }
}

/// Adding a cell to a finite live set adds one live neighbour to `d` exactly
/// when that cell is a new in-bounds neighbour of `d`.
proof fn lemma_count_insert(w: nat, h: nat, s: Set<Cell>, x: Cell, d: Cell)
    requires
        s.finite(),
    ensures
        live_neighbors(w, h, s.insert(x), d) == live_neighbors(w, h, s, d) + (if !s.contains(x) {
            touches(w, h, d, x)
        } else {
            0
        }),
{
    let n = neighbor_set(w, h, d);
    vstd::set_lib::lemma_len_intersect(s, n);
    if n.contains(x) && !s.contains(x) {
        assert(s.insert(x).intersect(n) =~= s.intersect(n).insert(x));
        assert(n.intersect(s.insert(x)) =~= n.intersect(s).insert(x));
    } else {
        assert(n.intersect(s.insert(x)) =~= n.intersect(s));
    }
}

/// The live neighbours of `d` among three distinct cells.
proof fn lemma_count3(w: nat, h: nat, a: Cell, b: Cell, c: Cell, d: Cell)
    requires
        a != b && a != c && b != c,
    ensures
        live_neighbors(w, h, set![a, b, c], d) == touches(w, h, d, a) + touches(w, h, d, b) + touches(
            w,
            h,
            d,
            c,
        ),
{
    let e = Set::<Cell>::empty();
    assert(neighbor_set(w, h, d).intersect(e) =~= e);
    lemma_count_insert(w, h, e, a, d);
    lemma_count_insert(w, h, e.insert(a), b, d);
    lemma_count_insert(w, h, e.insert(a).insert(b), c, d);
}

/// The live neighbours of `d` among four distinct cells.
proof fn lemma_count4(w: nat, h: nat, a: Cell, b: Cell, c: Cell, f: Cell, d: Cell)
    requires
        a != b && a != c && a != f && b != c && b != f && c != f,
    ensures
        live_neighbors(w, h, set![a, b, c, f], d) == touches(w, h, d, a) + touches(w, h, d, b)
            + touches(w, h, d, c) + touches(w, h, d, f),
{
    lemma_count3(w, h, a, b, c, d);
    lemma_count_insert(w, h, set![a, b, c], f, d);
}

/// A two-by-two block in a grid of at least five by five is a still life.
pub proof fn lemma_block_is_still(w: nat, h: nat)
    requires
        w >= 5,
        h >= 5,
    ensures
        next_gen(w, h, set![(2, 2), (3, 2), (2, 3), (3, 3)]) == set![(2usize, 2usize), (3, 2), (2, 3), (3, 3)],
{
    let block = set![(2usize, 2usize), (3, 2), (2, 3), (3, 3)];
    assert forall|d: Cell| next_gen(w, h, block).contains(d) <==> block.contains(d) by {
        lemma_count4(w, h, (2, 2), (3, 2), (2, 3), (3, 3), d);
    }
    assert(next_gen(w, h, block) =~= block);
}

/// A row of three in a grid of at least five by five turns into a column of
/// three and back.
pub proof fn lemma_blinker_oscillates(w: nat, h: nat)
    requires
        w >= 5,
        h >= 5,
    ensures
        next_gen(w, h, set![(1, 2), (2, 2), (3, 2)]) == set![(2usize, 1usize), (2, 2), (2, 3)],
        next_gen(w, h, set![(2, 1), (2, 2), (2, 3)]) == set![(1usize, 2usize), (2, 2), (3, 2)],
{
    let row = set![(1usize, 2usize), (2, 2), (3, 2)];
    let col = set![(2usize, 1usize), (2, 2), (2, 3)];
    assert forall|d: Cell| next_gen(w, h, row).contains(d) <==> col.contains(d) by {
        lemma_count3(w, h, (1, 2), (2, 2), (3, 2), d);
    }
    assert(next_gen(w, h, row) =~= col);
    assert forall|d: Cell| next_gen(w, h, col).contains(d) <==> row.contains(d) by {
        lemma_count3(w, h, (2, 1), (2, 2), (2, 3), d);
    }
    assert(next_gen(w, h, col) =~= row);
}

/// What a world is: its dimensions and its live cells.
pub struct WorldView {
    pub width: nat,
    pub height: nat,
    pub live: Set<Cell>,
}

impl WorldView {
    /// Positive dimensions whose product fits a `usize`, and every live cell
    /// inside the grid.
    pub open spec fn wf(self) -> bool {
        &&& self.width > 0
        &&& self.height > 0
        &&& self.width * self.height <= usize::MAX
        &&& forall|c: Cell| self.live.contains(c) ==> in_bounds(self.width, self.height, c)
    }
}

/// A bounded grid and the set of its live cells.
pub struct World {
    height: usize,
    width: usize,
    grid: Vec<Cell>,
}

impl View for World {
    type V = WorldView;

    closed spec fn view(&self) -> WorldView {
        WorldView { width: self.width as nat, height: self.height as nat, live: self.grid@.to_set() }
    }
}

/// Whether `v` holds `c`.
fn has_cell(v: &Vec<Cell>, c: Cell) -> (r: bool)
    ensures
        r == v@.contains(c),
{
    let mut i: usize = 0;
    while i < v.len()
        invariant
            i <= v.len(),
            forall|j: int| 0 <= j < i ==> v@[j] != c,
        decreases v.len() - i,
    {
        if v[i].0 == c.0 && v[i].1 == c.1 {
            return true;
        }
        i = i + 1;
    }
    false
}

impl World {
    /// The stored cells are distinct and the view is well formed.
    pub closed spec fn inv(&self) -> bool {
        &&& self.grid@.no_duplicates()
        &&& self@.wf()
    }

    /// An empty world of `size.0` columns and `size.1` rows.
    pub fn new(size: Cell) -> (r: World)
        requires
            size.0 > 0,
            size.1 > 0,
            size.0 * size.1 <= usize::MAX,
        ensures
            r.inv(),
            r@.width == size.0,
            r@.height == size.1,
            r@.live == Set::<Cell>::empty(),
    {
        let r = World { height: size.1, width: size.0, grid: Vec::new() };
        assert(r.grid@.to_set() =~= Set::empty());
        r
    }

    /// The number of columns.
    pub fn width(&self) -> (r: usize)
        ensures
            r == self@.width,
    {
        self.width
    }

    /// The number of rows.
    pub fn height(&self) -> (r: usize)
        ensures
            r == self@.height,
    {
        self.height
    }

    /// The live cells, each once, in no particular order.
    pub fn live_cells(&self) -> (r: Vec<Cell>)
        requires
            self.inv(),
        ensures
            r@.no_duplicates(),
            r@.to_set() == self@.live,
    {
        let mut r: Vec<Cell> = Vec::new();
        let mut i: usize = 0;
        while i < self.grid.len()
            invariant
                i <= self.grid@.len(),
                r@ == self.grid@.take(i as int),
            decreases self.grid.len() - i,
        {
            r.push(self.grid[i]);
            proof {
                assert(self.grid@.take(i + 1) =~= self.grid@.take(i as int).push(self.grid@[i as int]));
            }
            i = i + 1;
        }
        proof {
            assert(self.grid@.take(self.grid@.len() as int) =~= self.grid@);
        }
        r
    }

    /// Whether `c` is alive.
    pub fn is_alive(&self, c: Cell) -> (r: bool)
        ensures
            r == self@.live.contains(c),
    {
        has_cell(&self.grid, c)
    }

    /// The in-bounds neighbours of `cell`, each once.
    pub fn neighbors(&self, cell: &Cell) -> (r: Vec<Cell>)
        requires
            self.inv(),
            in_bounds(self@.width, self@.height, *cell),
        ensures
            r@ == neighbor_seq(self@.width, self@.height, *cell),
            r@.no_duplicates(),
            r@.to_set() == neighbor_set(self@.width, self@.height, *cell),
            r@.len() == neighbor_total(self@.width, self@.height, *cell),
    {
        let mut neighbors: Vec<Cell> = Vec::new();
        let x = cell.0;
        let y = cell.1;
        let top = y > 0;
        let bot = y + 1 < self.height;
        let right = x + 1 < self.width;
        let left = x > 0;
        if right {
            neighbors.push((x + 1, y));
        }
        if right && bot {
            neighbors.push((x + 1, y + 1));
        }
        if right && top {
            neighbors.push((x + 1, y - 1));
        }
        if bot {
            neighbors.push((x, y + 1));
        }
        if top {
            neighbors.push((x, y - 1));
        }
        if left {
            neighbors.push((x - 1, y));
        }
        if left && bot {
            neighbors.push((x - 1, y + 1));
        }
        if left && top {
            neighbors.push((x - 1, y - 1));
        }
        proof {
            lemma_neighbor_seq(self@.width, self@.height, *cell);
        }
        neighbors
    }

    /// The neighbours of `cell` split into the live ones and the dead ones.
    pub fn neighbor_count(&self, cell: &Cell) -> (r: (Vec<Cell>, Vec<Cell>))
        requires
            self.inv(),
            in_bounds(self@.width, self@.height, *cell),
        ensures
            r.0@.no_duplicates(),
            r.1@.no_duplicates(),
            r.0@.to_set() == neighbor_set(self@.width, self@.height, *cell).intersect(self@.live),
            r.1@.to_set() == neighbor_set(self@.width, self@.height, *cell).difference(self@.live),
            r.0@.len() == live_neighbors(self@.width, self@.height, self@.live, *cell),
    {
        let nb = self.neighbors(cell);
        let ghost live = self@.live;
        let mut living: Vec<Cell> = Vec::new();
        let mut dead: Vec<Cell> = Vec::new();
        let mut k: usize = 0;
        proof {
            assert(nb@.take(0).to_set() =~= Set::empty());
            assert(living@.to_set() =~= Set::empty());
            assert(dead@.to_set() =~= Set::empty());
        }
        while k < nb.len()
            invariant
                self.inv(),
                live == self@.live,
                k <= nb@.len(),
                nb@.no_duplicates(),
                living@.no_duplicates(),
                dead@.no_duplicates(),
                living@.to_set() == nb@.take(k as int).to_set().intersect(live),
                dead@.to_set() == nb@.take(k as int).to_set().difference(live),
            decreases nb.len() - k,
        {
            let n = nb[k];
            proof {
                assert(nb@.take(k + 1) =~= nb@.take(k as int).push(n));
                lemma_push_set(nb@.take(k as int), n);
                assert(!nb@.take(k as int).contains(n)) by {
                    if nb@.take(k as int).contains(n) {
                        let j = choose|j: int| 0 <= j < k && nb@.take(k as int)[j] == n;
                        assert(nb@[j] == nb@[k as int]);
                    }
                }
                assert(!nb@.take(k as int).to_set().contains(n));
            }
            if self.is_alive(n) {
                proof {
                    assert(!living@.to_set().contains(n));
                    lemma_push_fresh(living@, n);
                }
                living.push(n);
                proof {
                    assert(living@.to_set() =~= nb@.take(k + 1).to_set().intersect(live));
                    assert(dead@.to_set() =~= nb@.take(k + 1).to_set().difference(live));
                }
            } else {
                proof {
                    assert(!dead@.to_set().contains(n));
                    lemma_push_fresh(dead@, n);
                }
                dead.push(n);
                proof {
                    assert(living@.to_set() =~= nb@.take(k + 1).to_set().intersect(live));
                    assert(dead@.to_set() =~= nb@.take(k + 1).to_set().difference(live));
                }
            }
            k = k + 1;
        }
        proof {
            assert(nb@.take(nb@.len() as int) =~= nb@);
            lemma_distinct_len(living@);
        }
        (living, dead)
    }
}

/// Cell `c` is one of the first `i` live cells, or a dead neighbour of one.
spec fn reached(grid: Seq<Cell>, live: Set<Cell>, i: int, c: Cell) -> bool {
    exists|j: int| 0 <= j < i && (#[trigger] grid[j] == c || (adjacent(grid[j], c) && !live.contains(c)))
}

/// A cell that the rule brings to life has a live neighbour.
proof fn lemma_birth_has_parent(w: nat, h: nat, live: Set<Cell>, c: Cell)
    requires
        in_bounds(w, h, c),
        w <= usize::MAX,
        h <= usize::MAX,
        live_neighbors(w, h, live, c) > 0,
    ensures
        exists|l: Cell| live.contains(l) && adjacent(l, c),
{
    lemma_neighbor_seq(w, h, c);
    let s = neighbor_set(w, h, c).intersect(live);
    if s =~= Set::empty() {
        assert(s.len() == 0);
    }
    let l = choose|l: Cell| s.contains(l);
    assert(live.contains(l) && adjacent(l, c));
}

impl World {
    /// Replaces the live cells with the next generation.
    ///
    /// Only the live cells and their neighbours are examined; the result is
    /// the whole-grid rule `next_gen`.
    pub fn step(&mut self)
        requires
            old(self).inv(),
        ensures
            final(self).inv(),
            final(self)@.width == old(self)@.width,
            final(self)@.height == old(self)@.height,
            final(self)@.live == next_gen(old(self)@.width, old(self)@.height, old(self)@.live),
    {
        let ghost w = self@.width;
        let ghost h = self@.height;
        let ghost live = self@.live;
        let ghost next = next_gen(w, h, live);
        let mut new_state: Vec<Cell> = Vec::new();
        let n = self.grid.len();
        let mut i: usize = 0;
        while i < n
            invariant
                self.inv(),
                w == self@.width,
                h == self@.height,
                live == self@.live,
                next == next_gen(w, h, live),
                n == self.grid@.len(),
                i <= n,
                new_state@.no_duplicates(),
                forall|c: Cell|
                    #[trigger] new_state@.contains(c) <==> (next.contains(c) && reached(self.grid@, live, i as int, c)),
            decreases n - i,
        {
            let cell = self.grid[i];
            assert(live.contains(cell)) by {
                assert(self.grid@.to_set().contains(self.grid@[i as int]));
            }
            let ghost before = new_state@;
            let (living, dead) = self.neighbor_count(&cell);
            if (living.len() == 2 || living.len() == 3) && !has_cell(&new_state, cell) {
                proof {
                    lemma_push_set(new_state@, cell);
                    lemma_push_fresh(new_state@, cell);
                }
                new_state.push(cell);
            }
            proof {
                assert(in_bounds(w, h, cell));
                assert(next.contains(cell) <==> (living@.len() == 2 || living@.len() == 3));
                assert forall|c: Cell| c != cell implies (new_state@.contains(c) <==> before.contains(c)) by {
                    if new_state@ != before {
                        lemma_push_contains(before, cell, c);
                    }
                }
                if new_state@ != before {
                    lemma_push_contains(before, cell, cell);
                }
                assert(new_state@.contains(cell) <==> next.contains(cell));
                assert(dead@.take(0) =~= Seq::<Cell>::empty());
                assert forall|c: Cell|
                    #[trigger] new_state@.contains(c) <==> (next.contains(c) && (reached(self.grid@, live, i as int, c)
                        || c == cell || dead@.take(0).contains(c))) by {
                    if c != cell {
                        assert(new_state@.contains(c) <==> before.contains(c));
                    }
                }
            }
            let mut k: usize = 0;
            while k < dead.len()
                invariant
                    self.inv(),
                    w == self@.width,
                    h == self@.height,
                    live == self@.live,
                    next == next_gen(w, h, live),
                    n == self.grid@.len(),
                    i < n,
                    cell == self.grid@[i as int],
                    k <= dead@.len(),
                    dead@.to_set() == neighbor_set(w, h, cell).difference(live),
                    new_state@.no_duplicates(),
                    forall|c: Cell|
                        #[trigger] new_state@.contains(c) <==> (next.contains(c) && (reached(self.grid@, live, i as int, c) || c == cell
                            || dead@.take(k as int).contains(c))),
                decreases dead.len() - k,
            {
                let d = dead[k];
                let ghost prev = new_state@;
                assert(dead@.to_set().contains(d));
                let (l2, _) = self.neighbor_count(&d);
                if l2.len() == 3 && !has_cell(&new_state, d) {
                    proof {
                        lemma_push_fresh(new_state@, d);
                    }
                    new_state.push(d);
                }
                proof {
                    assert(dead@.take(k + 1) =~= dead@.take(k as int).push(d));
                    assert(in_bounds(w, h, d) && !live.contains(d));
                    assert(next.contains(d) <==> l2@.len() == 3);
                    assert forall|c: Cell|
                        #[trigger] new_state@.contains(c) <==> (next.contains(c) && (reached(self.grid@, live, i as int, c) || c == cell
                            || dead@.take(k + 1).contains(c))) by {
                        lemma_push_contains(dead@.take(k as int), d, c);
                        assert(prev.contains(c) <==> (next.contains(c) && (reached(self.grid@, live, i as int, c) || c == cell
                            || dead@.take(k as int).contains(c))));
                        if new_state@ != prev {
                            lemma_push_contains(prev, d, c);
                        }
                        if c == d && new_state@ == prev && l2@.len() == 3 {
                            assert(prev.contains(d));
                        }
                    }
                }
                k = k + 1;
            }
            proof {
                assert(dead@.take(dead@.len() as int) =~= dead@);
                assert forall|c: Cell|
                    #[trigger] new_state@.contains(c) <==> (next.contains(c) && reached(self.grid@, live, i + 1, c)) by {
                    if reached(self.grid@, live, i + 1, c) && !reached(self.grid@, live, i as int, c) {
                        assert(self.grid@[i as int] == c || (adjacent(cell, c) && !live.contains(c)));
                        if c != cell && next.contains(c) {
                            assert(neighbor_set(w, h, cell).contains(c));
                            assert(dead@.to_set().contains(c));
                        }
                    }
                    if c == cell {
                        assert(reached(self.grid@, live, i + 1, c)) by {
                            assert(self.grid@[i as int] == c);
                        }
                    }
                    if dead@.contains(c) {
                        assert(dead@.to_set().contains(c));
                        assert(adjacent(cell, c) && !live.contains(c));
                        assert(reached(self.grid@, live, i + 1, c)) by {
                            assert(self.grid@[i as int] == cell);
                        }
                    }
                    if reached(self.grid@, live, i as int, c) {
                        let j = choose|j: int| 0 <= j < i && (#[trigger] self.grid@[j] == c || (adjacent(self.grid@[j], c) && !live.contains(c)));
                        assert(self.grid@[j] == c || (adjacent(self.grid@[j], c) && !live.contains(c)));
                    }
                }
            }
            i = i + 1;
        }
        proof {
            assert forall|c: Cell| next.contains(c) implies reached(self.grid@, live, n as int, c) by {
                if live.contains(c) {
                    assert(self.grid@.to_set().contains(c));
                    let j = choose|j: int| 0 <= j < n && self.grid@[j] == c;
                    assert(self.grid@[j] == c);
                } else {
                    lemma_birth_has_parent(w, h, live, c);
                    let l = choose|l: Cell| live.contains(l) && adjacent(l, c);
                    assert(self.grid@.to_set().contains(l));
                    let j = choose|j: int| 0 <= j < n && self.grid@[j] == l;
                    assert(adjacent(self.grid@[j], c));
                }
            }
            assert(new_state@.to_set() =~= next);
        }
        self.grid = new_state;
    }
}


/// The position of cell `(x, y)` in a sequence of draws made column by
/// column: `x` in the outer loop, `y` in the inner one.
pub open spec fn draw_index(h: nat, c: Cell) -> int {
    c.0 * h + c.1
}

/// The cells whose draw came up true.
pub open spec fn seeded_cells(w: nat, h: nat, draws: Seq<bool>) -> Set<Cell> {
    Set::new(|c: Cell| in_bounds(w, h, c) && draws[draw_index(h, c)])
}

/// Cells before `(x, y)` in column-by-column order whose draw came up true.
spec fn seeded_prefix(w: nat, h: nat, draws: Seq<bool>, x: int, y: int) -> Set<Cell> {
    Set::new(|c: Cell| in_bounds(w, h, c) && (c.0 < x || (c.0 == x && c.1 < y)) && draws[draw_index(h, c)])
}

proof fn lemma_index_bound(w: nat, h: nat, x: nat, y: nat)
    requires
        x < w,
        y < h,
    ensures
        0 <= x * h + y < w * h,
{
    assert(x * h + y < (x + 1) * h) by (nonlinear_arith)
        requires y < h;
    assert((x + 1) * h <= w * h) by (nonlinear_arith)
        requires x + 1 <= w;
}

/// Relies on `rand::Rng::gen_weighted_bool` on `rand::thread_rng()`: true
/// with probability `1/n`, and always true when `n <= 1`.
#[verifier::external_body]
fn weighted_draw(n: u32) -> (r: bool)
    ensures
        n <= 1 ==> r,
{
    rand::thread_rng().gen_weighted_bool(n)
}

/// The chance, one in this many, that seeding makes a cell alive.
pub const SEED_ODDS: u32 = 30;

impl World {
    /// Replaces the live cells with those whose draw is true; the draw of
    /// cell `(x, y)` is `draws[x * height + y]`. Nothing of the previous live
    /// set remains.
    pub fn seed_from(&mut self, draws: &Vec<bool>)
        requires
            old(self).inv(),
            draws@.len() == old(self)@.width * old(self)@.height,
        ensures
            final(self).inv(),
            final(self)@.width == old(self)@.width,
            final(self)@.height == old(self)@.height,
            final(self)@.live == seeded_cells(old(self)@.width, old(self)@.height, draws@),
    {
        let ghost w = self@.width;
        let ghost h = self@.height;
        let mut grid: Vec<Cell> = Vec::new();
        let mut x: usize = 0;
        proof {
            assert(grid@.to_set() =~= seeded_prefix(w, h, draws@, 0, 0));
        }
        while x < self.width
            invariant
                self.inv(),
                w == self@.width,
                h == self@.height,
                draws@.len() == w * h,
                x <= w,
                grid@.no_duplicates(),
                grid@.to_set() == seeded_prefix(w, h, draws@, x as int, 0),
            decreases self.width - x,
        {
            let mut y: usize = 0;
            while y < self.height
                invariant
                    self.inv(),
                    w == self@.width,
                    h == self@.height,
                    draws@.len() == w * h,
                    x < w,
                    y <= h,
                    grid@.no_duplicates(),
                    grid@.to_set() == seeded_prefix(w, h, draws@, x as int, y as int),
                decreases self.height - y,
            {
                proof {
                    lemma_index_bound(w, h, x as nat, y as nat);
                }
                let i = x * self.height + y;
                if draws[i] {
                    proof {
                        assert(!grid@.to_set().contains((x, y)));
                        lemma_push_fresh(grid@, (x, y));
                    }
                    grid.push((x, y));
                }
                proof {
                    assert(grid@.to_set() =~= seeded_prefix(w, h, draws@, x as int, y + 1));
                }
                y = y + 1;
            }
            proof {
                assert(seeded_prefix(w, h, draws@, x as int, h as int) =~= seeded_prefix(w, h, draws@, x + 1, 0));
            }
            x = x + 1;
        }
        proof {
            assert(seeded_prefix(w, h, draws@, w as int, 0) =~= seeded_cells(w, h, draws@));
        }
        self.grid = grid;
    }

    /// One random draw per cell, each true with chance one in `SEED_ODDS`.
    pub fn random_draws(&self) -> (r: Vec<bool>)
        requires
            self.inv(),
        ensures
            r@.len() == self@.width * self@.height,
    {
        let total = self.width * self.height;
        let mut draws: Vec<bool> = Vec::new();
        let mut i: usize = 0;
        while i < total
            invariant
                i <= total,
                draws@.len() == i,
            decreases total - i,
        {
            draws.push(weighted_draw(SEED_ODDS));
            i = i + 1;
        }
        draws
    }

    /// Reseeds the grid: each cell independently becomes alive with chance
    /// one in `SEED_ODDS`. Nothing of the previous live set remains.
    pub fn gen(&mut self)
        requires
            old(self).inv(),
        ensures
            final(self).inv(),
            final(self)@.width == old(self)@.width,
            final(self)@.height == old(self)@.height,
            exists|draws: Seq<bool>|
                draws.len() == old(self)@.width * old(self)@.height && final(self)@.live == seeded_cells(
                    old(self)@.width,
                    old(self)@.height,
                    draws,
                ),
    {
        let draws = self.random_draws();
        self.seed_from(&draws);
    }
}

} // verus!
