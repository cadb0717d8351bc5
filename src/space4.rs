//! The automaton in four dimensions.
use std::collections::BTreeSet;
use vstd::prelude::*;

use vstd::seq_lib::{lemma_seq_contains_after_push, seq_to_set_is_finite};
use vstd::std_specs::btree::spec_btree_keys_iter;
use vstd::std_specs::iter::IteratorSpec;

use crate::{lemma_prefix_push, rows_fit, survives, text_rows};

verus! {

/// A cell of the four-dimensional lattice, `(x, y, z, w)`.
pub type Coord4 = (i64, i64, i64, i64);

/// `n` lies within distance one of `c` along every axis and is not `c`.
pub open spec fn is_neighbour4(c: Coord4, n: Coord4) -> bool {
    &&& n != c
    &&& -1 <= n.0 - c.0 <= 1
    &&& -1 <= n.1 - c.1 <= 1
    &&& -1 <= n.2 - c.2 <= 1
    &&& -1 <= n.3 - c.3 <= 1
}

/// Every coordinate of `c` stays `m` away from the ends of `i64`.
pub open spec fn within4(c: Coord4, m: int) -> bool {
    &&& i64::MIN + m <= c.0 <= i64::MAX - m
    &&& i64::MIN + m <= c.1 <= i64::MAX - m
    &&& i64::MIN + m <= c.2 <= i64::MAX - m
    &&& i64::MIN + m <= c.3 <= i64::MAX - m
}

/// `n` comes before the cell `(x, y, z, w)` in lexicographic order.
spec fn before4(n: Coord4, x: int, y: int, z: int, w: int) -> bool {
    n.0 < x || (n.0 == x && (n.1 < y || (n.1 == y && (n.2 < z || (n.2 == z && n.3 < w)))))
}

/// The 80 cells around `(cx, cy, cz, cw)`, each once.
pub fn get_4d_neigbour_coords(cx: i64, cy: i64, cz: i64, cw: i64) -> (r: Vec<Coord4>)
    requires
        within4((cx, cy, cz, cw), 1),
    ensures
        r@.len() == 80,
        r@.no_duplicates(),
        forall|n: Coord4| r@.contains(n) <==> is_neighbour4((cx, cy, cz, cw), n),
{
    let c: Ghost<Coord4> = Ghost((cx, cy, cz, cw));
    let mut neighbours: Vec<Coord4> = Vec::new();
    let mut dx: i64 = -1;
    while dx <= 1
        invariant
            -1 <= dx <= 2,
            within4(c@, 1),
            c@ == (cx, cy, cz, cw),
            neighbours@.no_duplicates(),
            neighbours@.len() == 27 * (dx + 1) - (if dx > 0 { 1int } else { 0 }),
            forall|k: int| #![trigger neighbours@[k]] 0 <= k < neighbours@.len() ==> is_neighbour4(c@, neighbours@[k])
                && before4(neighbours@[k], cx + dx, cy - 1, cz - 1, cw - 1),
            forall|n: Coord4| is_neighbour4(c@, n) && before4(n, cx + dx, cy - 1, cz - 1, cw - 1)
                ==> neighbours@.contains(n),
        decreases 2 - dx,
    {
        let x = cx + dx;
        let mut dy: i64 = -1;
        while dy <= 1
            invariant
                -1 <= dx <= 1,
                -1 <= dy <= 2,
                x == cx + dx,
                within4(c@, 1),
                c@ == (cx, cy, cz, cw),
                neighbours@.no_duplicates(),
                neighbours@.len() == 27 * (dx + 1) + 9 * (dy + 1) - (if dx > 0 || (dx == 0 && dy > 0) { 1int } else { 0 }),
                forall|k: int| #![trigger neighbours@[k]] 0 <= k < neighbours@.len() ==> is_neighbour4(c@, neighbours@[k])
                    && before4(neighbours@[k], x as int, cy + dy, cz - 1, cw - 1),
                forall|n: Coord4| is_neighbour4(c@, n) && before4(n, x as int, cy + dy, cz - 1, cw - 1)
                    ==> neighbours@.contains(n),
            decreases 2 - dy,
        {
            let y = cy + dy;
            let mut dz: i64 = -1;
            while dz <= 1
                invariant
                    -1 <= dx <= 1,
                    -1 <= dy <= 1,
                    -1 <= dz <= 2,
                    x == cx + dx,
                    y == cy + dy,
                    within4(c@, 1),
                    c@ == (cx, cy, cz, cw),
                    neighbours@.no_duplicates(),
                    neighbours@.len() == 27 * (dx + 1) + 9 * (dy + 1) + 3 * (dz + 1) - (if dx > 0 || (dx == 0 && (dy > 0 || (dy == 0 && dz > 0))) { 1int } else { 0 }),
                    forall|k: int| #![trigger neighbours@[k]] 0 <= k < neighbours@.len() ==> is_neighbour4(c@, neighbours@[k])
                        && before4(neighbours@[k], x as int, y as int, cz + dz, cw - 1),
                    forall|n: Coord4| is_neighbour4(c@, n) && before4(n, x as int, y as int, cz + dz, cw - 1)
                        ==> neighbours@.contains(n),
                decreases 2 - dz,
            {
                let z = cz + dz;
                let mut dw: i64 = -1;
                while dw <= 1
                    invariant
                        -1 <= dx <= 1,
                        -1 <= dy <= 1,
                        -1 <= dz <= 1,
                        -1 <= dw <= 2,
                        x == cx + dx,
                        y == cy + dy,
                        z == cz + dz,
                        within4(c@, 1),
                        c@ == (cx, cy, cz, cw),
                        neighbours@.no_duplicates(),
                        neighbours@.len() == 27 * (dx + 1) + 9 * (dy + 1) + 3 * (dz + 1) + (dw + 1) - (if dx > 0 || (dx == 0 && (dy > 0 || (dy == 0 && (dz > 0 || (dz == 0 && dw > 0))))) { 1int } else { 0 }),
                        forall|k: int| #![trigger neighbours@[k]] 0 <= k < neighbours@.len() ==> is_neighbour4(c@, neighbours@[k])
                            && before4(neighbours@[k], x as int, y as int, z as int, cw + dw),
                        forall|n: Coord4| is_neighbour4(c@, n) && before4(n, x as int, y as int, z as int, cw + dw)
                            ==> neighbours@.contains(n),
                    decreases 2 - dw,
                {
                    let w = cw + dw;
                    let ghost prev = neighbours@;
                    if dx != 0 || dy != 0 || dz != 0 || dw != 0 {
                        assert(!prev.contains((x, y, z, w))) by {
                            if prev.contains((x, y, z, w)) {
                                let k = choose|k: int| 0 <= k < prev.len() && prev[k] == (x, y, z, w);
                                assert(is_neighbour4(c@, prev[k]));
                            }
                        }
                        neighbours.push((x, y, z, w));
                        assert(neighbours@ == prev.push((x, y, z, w)));
                    }
                    assert forall|n: Coord4| is_neighbour4(c@, n) && before4(n, x as int, y as int, z as int, cw + dw + 1)
                        implies neighbours@.contains(n) by {
                        if n == (x, y, z, w) {
                            assert(neighbours@[neighbours@.len() - 1] == n);
                        } else {
                            assert(prev.contains(n));
                            let k = choose|k: int| 0 <= k < prev.len() && prev[k] == n;
                            assert(neighbours@[k] == n);
                        }
                    }
                    assert forall|k: int| #![trigger neighbours@[k]] 0 <= k < neighbours@.len() implies is_neighbour4(c@, neighbours@[k])
                        && before4(neighbours@[k], x as int, y as int, z as int, cw + dw + 1) by {
                        if k < prev.len() {
                            assert(neighbours@[k] == prev[k]);
                            assert(is_neighbour4(c@, prev[k]));
                        }
                    }
                    dw = dw + 1;
                }
                assert forall|k: int| #![trigger neighbours@[k]] 0 <= k < neighbours@.len() implies is_neighbour4(c@, neighbours@[k])
                    && before4(neighbours@[k], x as int, y as int, cz + dz + 1, cw - 1) by {
                    assert(is_neighbour4(c@, neighbours@[k]));
                }
                dz = dz + 1;
            }
            assert forall|k: int| #![trigger neighbours@[k]] 0 <= k < neighbours@.len() implies is_neighbour4(c@, neighbours@[k])
                && before4(neighbours@[k], x as int, cy + dy + 1, cz - 1, cw - 1) by {
                assert(is_neighbour4(c@, neighbours@[k]));
            }
            dy = dy + 1;
        }
        assert forall|k: int| #![trigger neighbours@[k]] 0 <= k < neighbours@.len() implies is_neighbour4(c@, neighbours@[k])
            && before4(neighbours@[k], cx + dx + 1, cy - 1, cz - 1, cw - 1) by {
            assert(is_neighbour4(c@, neighbours@[k]));
        }
        dx = dx + 1;
    }
    neighbours
}

/// The active cells among the neighbours of `c`.
pub open spec fn active_neighbours4(g: Set<Coord4>, c: Coord4) -> Set<Coord4> {
    g.filter(|n: Coord4| is_neighbour4(c, n))
}

/// The cells next to some cell of `g`: the only ones that can be active after
/// one generation.
pub open spec fn examined4(g: Set<Coord4>) -> Set<Coord4> {
    Set::new(|c: Coord4| exists|a: Coord4| g.contains(a) && #[trigger] is_neighbour4(a, c))
}

/// The cells of the next generation of `g`.
pub open spec fn step4(g: Set<Coord4>) -> Set<Coord4> {
    Set::new(|c: Coord4| survives(g.contains(c), active_neighbours4(g, c).len()))
}

/// `g` after `n` generations.
pub open spec fn steps4(g: Set<Coord4>, n: nat) -> Set<Coord4>
    decreases n,
{
    if n == 0 {
        g
    } else {
        step4(steps4(g, (n - 1) as nat))
    }
}

/// The active cells of a grid of text rows: the cell `(x, y, 0, 0)` for each
/// `#` at column `x` of row `y`.
pub open spec fn initial4(rows: Seq<Seq<char>>) -> Set<Coord4> {
    Set::new(
        |c: Coord4|
            {
                &&& c.2 == 0
                &&& c.3 == 0
                &&& 0 <= c.1 < rows.len()
                &&& 0 <= c.0 < rows[c.1 as int].len()
                &&& rows[c.1 as int][c.0 as int] == '#'
            },
    )
}

/// Every cell of `g` stays `m` away from the ends of `i64`.
pub open spec fn bounded4(g: Set<Coord4>, m: int) -> bool {
    forall|c: Coord4| g.contains(c) ==> within4(c, m)
}

/// A cell is active in the next generation only if it lies next to a cell
/// that is active now: nothing comes to life out of nowhere.
pub proof fn lemma_step_within_examined4(g: Set<Coord4>)
    ensures
        step4(g).subset_of(examined4(g)),
{
    assert forall|c: Coord4| step4(g).contains(c) implies examined4(g).contains(c) by {
        let s = active_neighbours4(g, c);
        if s =~= Set::empty() {
            assert(s.len() == 0);
        }
        let a = choose|a: Coord4| s.contains(a);
        assert(is_neighbour4(a, c));
    }
}

/// One generation moves the live region at most one cell outward.
pub proof fn lemma_step_bounded4(g: Set<Coord4>, m: int)
    requires
        bounded4(g, m),
    ensures
        bounded4(step4(g), m - 1),
{
    lemma_step_within_examined4(g);
    assert forall|c: Coord4| step4(g).contains(c) implies within4(c, m - 1) by {
        let a = choose|a: Coord4| g.contains(a) && #[trigger] is_neighbour4(a, c);
    }
}

/// Running `n + 1` generations is running `n` and then one more, so that
/// `cycle_n_times(n)` ends where `n` successive calls of `cycle` end.
pub proof fn lemma_steps_one_at_a_time4(g: Set<Coord4>, n: nat)
    ensures
        steps4(g, 0) == g,
        steps4(g, n + 1) == step4(steps4(g, n)),
{
}

/// After `k` generations the live region has moved at most `k` cells outward.
pub proof fn lemma_steps_bounded4(g: Set<Coord4>, m: int, k: nat)
    requires
        bounded4(g, m),
    ensures
        bounded4(steps4(g, k), m - k),
    decreases k,
{
    if k > 0 {
        lemma_steps_bounded4(g, m, (k - 1) as nat);
        lemma_step_bounded4(steps4(g, (k - 1) as nat), m - (k - 1));
    }
}

/// Running `a` generations and then `b` more is running `a + b` generations.
pub proof fn lemma_steps_add4(g: Set<Coord4>, a: nat, b: nat)
    ensures
        steps4(steps4(g, a), b) == steps4(g, a + b),
    decreases b,
{
    if b > 0 {
        lemma_steps_add4(g, a, (b - 1) as nat);
        assert((a + b - 1) as nat == a + (b - 1) as nat);
    }
}

/// The four-dimensional space, as the set of its active cells.
#[derive(Clone, Debug, PartialEq, Eq)]
pub struct FourSpace {
    grid: BTreeSet<Coord4>,
}

impl View for FourSpace {
    type V = Set<Coord4>;

    closed spec fn view(&self) -> Set<Coord4> {
        self.grid@
    }
}

/// The active set of a space is finite.
proof fn lemma_view_finite4(s: &FourSpace)
    ensures
        s@.finite(),
{
    let cells = spec_btree_keys_iter(&s.grid).remaining().unref();
    assert(cells.to_set() == s.grid@);
    seq_to_set_is_finite(cells);
}

impl FourSpace {
    /// The space whose active cells are the `#` characters of the rows, at
    /// `(column, row, 0, 0)`.
    pub fn new(initial_state: &[&str]) -> (r: FourSpace)
        requires
            rows_fit(initial_state@),
        ensures
            r@ == initial4(text_rows(initial_state@)),
    {
        let ghost rows = text_rows(initial_state@);
        let mut grid: BTreeSet<Coord4> = BTreeSet::new();
        let mut y: usize = 0;
        while y < initial_state.len()
            invariant
                y <= initial_state@.len(),
                rows_fit(initial_state@),
                rows == text_rows(initial_state@),
                forall|c: Coord4| grid@.contains(c) <==> initial4(rows).contains(c) && c.1 < y,
            decreases initial_state@.len() - y,
        {
            let line: &str = initial_state[y];
            assert(line@ == rows[y as int]);
            assert(line@.len() <= i64::MAX) by {
                assert(initial_state@[y as int]@.len() <= i64::MAX);
            }
            let mut x: i64 = 0;
            for ch in it: line.chars()
                invariant
                    y < initial_state@.len(),
                    rows_fit(initial_state@),
                    rows == text_rows(initial_state@),
                    line@ == rows[y as int],
                    line@.len() <= i64::MAX,
                    it.seq() == line@,
                    x == it.index(),
                    forall|c: Coord4| grid@.contains(c) <==> initial4(rows).contains(c) && (c.1 < y
                        || (c.1 == y && c.0 < x)),
            {
                assert(x < line@.len());
                assert(ch == line@[x as int]);
                if ch == '#' {
                    grid.insert((x, y as i64, 0, 0));
                }
                x = x + 1;
            }
            y = y + 1;
        }
        FourSpace { grid }
    }

    /// Advances the space by one generation.
    pub fn cycle(&mut self)
        requires
            bounded4(old(self)@, 2),
        ensures
            final(self)@ == step4(old(self)@),
    {
        let to_examine = self.get_coords_to_examine();
        let mut next: BTreeSet<Coord4> = BTreeSet::new();
        let mut i: usize = 0;
        while i < to_examine.len()
            invariant
                i <= to_examine@.len(),
                bounded4(self@, 2),
                forall|c: Coord4| to_examine@.contains(c) <==> examined4(self@).contains(c),
                forall|c: Coord4| next@.contains(c) <==> to_examine@.subrange(0, i as int).contains(c)
                    && step4(self@).contains(c),
            decreases to_examine@.len() - i,
        {
            proof {
                lemma_prefix_push(to_examine@, i as int);
            }
            let (x, y, z, w) = to_examine[i];
            assert(to_examine@.contains(to_examine@[i as int]));
            assert(within4((x, y, z, w), 1)) by {
                let a = choose|a: Coord4| self@.contains(a) && #[trigger] is_neighbour4(a, (x, y, z, w));
            }
            let active_count = self.get_active_neighbour_count(x, y, z, w);
            if (self.grid.contains(&(x, y, z, w)) && active_count == 2) || active_count == 3 {
                next.insert((x, y, z, w));
            }
            i = i + 1;
        }
        proof {
            lemma_step_within_examined4(self@);
            assert(to_examine@.subrange(0, i as int) == to_examine@);
            assert(next@ =~= step4(self@));
        }
        self.grid = next;
    }

    /// Advances the space by `n` generations.
    pub fn cycle_n_times(&mut self, n: usize)
        requires
            n > 0 ==> bounded4(old(self)@, n + 1),
        ensures
            final(self)@ == steps4(old(self)@, n as nat),
            n == 0 ==> final(self)@ == old(self)@,
    {
        let ghost start = self@;
        let mut i: usize = 0;
        while i < n
            invariant
                i <= n,
                self@ == steps4(start, i as nat),
                i < n ==> bounded4(self@, n - i + 1),
            decreases n - i,
        {
            proof {
                lemma_step_bounded4(self@, n - i + 1);
            }
            self.cycle();
            i = i + 1;
        }
    }

    /// Whether the cell `c` is active.
    pub fn is_active(&self, c: Coord4) -> (r: bool)
        ensures
            r == self@.contains(c),
    {
        self.grid.contains(&c)
    }

    /// The number of active cells.
    pub fn get_active_count(&self) -> (r: usize)
        ensures
            self@.finite(),
            r == self@.len(),
    {
        proof {
            lemma_view_finite4(self);
        }
        self.grid.len()
    }

    /// Every cell next to an active cell, each once.
    fn get_coords_to_examine(&self) -> (r: Vec<Coord4>)
        requires
            forall|c: Coord4| self@.contains(c) ==> within4(c, 1),
        ensures
            r@.no_duplicates(),
            forall|c: Coord4| r@.contains(c) <==> examined4(self@).contains(c),
    {
        let mut to_examine: BTreeSet<Coord4> = BTreeSet::new();
        let mut r: Vec<Coord4> = Vec::new();
        let ghost mut visited: Set<Coord4> = Set::empty();
        for cell in it: self.grid.iter()
            invariant
                forall|c: Coord4| self@.contains(c) ==> within4(c, 1),
                it.seq().unref().to_set() == self.grid@,
                visited == it.seq().unref().subrange(0, it.index()).to_set(),
                it.index() == it.seq().len() ==> visited == self.grid@,
                r@.no_duplicates(),
                forall|c: Coord4| r@.contains(c) <==> to_examine@.contains(c),
                forall|c: Coord4| to_examine@.contains(c) <==> examined4(visited).contains(c),
        {
            let ghost seen = it.index();
            assert(it.seq().unref()[seen] == *cell);
            assert(self@.contains(*cell));
            let neighbours = get_4d_neigbour_coords(cell.0, cell.1, cell.2, cell.3);
            let mut j: usize = 0;
            while j < neighbours.len()
                invariant
                    j <= neighbours@.len(),
                    r@.no_duplicates(),
                    forall|c: Coord4| r@.contains(c) <==> to_examine@.contains(c),
                    forall|c: Coord4| to_examine@.contains(c) <==> examined4(visited).contains(c)
                        || neighbours@.subrange(0, j as int).contains(c),
                decreases neighbours@.len() - j,
            {
                proof {
                    lemma_prefix_push(neighbours@, j as int);
                }
                let n = neighbours[j];
                let ghost prev = r@;
                if to_examine.insert(n) {
                    r.push(n);
                    assert forall|c: Coord4| r@.contains(c) <==> to_examine@.contains(c) by {
                        lemma_seq_contains_after_push(prev, n, c);
                    }
                }
                j = j + 1;
            }
            assert(neighbours@.subrange(0, j as int) == neighbours@);
            proof {
                lemma_prefix_push(it.seq().unref(), seen);
                assert(it.seq().unref().subrange(0, seen + 1).to_set() == visited.insert(*cell));
                assert forall|c: Coord4| examined4(visited.insert(*cell)).contains(c) <==> (
                examined4(visited).contains(c) || is_neighbour4(*cell, c)) by {
                    if examined4(visited.insert(*cell)).contains(c) {
                        let a = choose|a: Coord4| visited.insert(*cell).contains(a) && #[trigger] is_neighbour4(a, c);
                    }
                }
                visited = visited.insert(*cell);
            }
            assert(seen + 1 == it.seq().len() ==> it.seq().unref().subrange(0, seen + 1)
                =~= it.seq().unref());
        }
        r
    }

    /// How many neighbours of `(x, y, z, w)` are active.
    fn get_active_neighbour_count(&self, x: i64, y: i64, z: i64, w: i64) -> (r: usize)
        requires
            within4((x, y, z, w), 1),
        ensures
            r == active_neighbours4(self@, (x, y, z, w)).len(),
    {
        let neighbours = get_4d_neigbour_coords(x, y, z, w);
        let ghost mut counted: Set<Coord4> = Set::empty();
        let mut count: usize = 0;
        let mut i: usize = 0;
        while i < neighbours.len()
            invariant
                i <= neighbours@.len() == 80,
                neighbours@.no_duplicates(),
                counted.finite(),
                counted.len() == count,
                count <= i,
                forall|n: Coord4| #[trigger] counted.contains(n) <==> self.grid@.contains(n)
                    && neighbours@.subrange(0, i as int).contains(n),
            decreases neighbours@.len() - i,
        {
            let n = neighbours[i];
            assert(!neighbours@.subrange(0, i as int).contains(n)) by {
                if neighbours@.subrange(0, i as int).contains(n) {
                    let k = choose|k: int| 0 <= k < i && neighbours@.subrange(0, i as int)[k] == n;
                    assert(neighbours@[k] == neighbours@[i as int]);
                }
            }
            if self.grid.contains(&n) {
                proof {
                    counted = counted.insert(n);
                }
                count = count + 1;
            }
            proof {
                lemma_prefix_push(neighbours@, i as int);
            }
            i = i + 1;
        }
        assert(neighbours@.subrange(0, i as int) == neighbours@);
        assert(counted == active_neighbours4(self@, (x, y, z, w)));
        count
    }
}

} // verus!
