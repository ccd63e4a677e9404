//! The simulation core: the game state and the tick update algorithm.
//!
//! The state owns the snake body, the current heading, the per-tick vote
//! tally, the food cells and the cached free cells. One call to
//! [`Inner::update`] performs a full tick: anti-reversal suppression,
//! weighted direction choice, toroidal head advance, collision reset or
//! growth, and the probabilistic food spawn.

use rand::Rng;
use vstd::prelude::*;

use crate::direction::Direction;

verus! {

/// Largest supported board edge. Keeps every cell count and every index
/// computation comfortably inside `usize`.
pub const MAX_SIZE: usize = 10000;

/// Per-tick vote counts; all four directions are always present.
#[derive(Clone, Copy, PartialEq, Eq, Structural, Debug)]
pub struct Tally {
    pub up: u32,
    pub down: u32,
    pub left: u32,
    pub right: u32,
}

impl Tally {
    /// The count stored for one direction.
    pub open spec fn count(self, d: Direction) -> u32 {
        match d {
            Direction::up => self.up,
            Direction::down => self.down,
            Direction::right => self.right,
            Direction::left => self.left,
        }
    }

    /// The sum of all four counts.
    pub open spec fn total(self) -> int {
        self.up + self.down + self.left + self.right
    }

    /// All four counts are zero.
    pub open spec fn is_zero(self) -> bool {
        self.up == 0 && self.down == 0 && self.left == 0 && self.right == 0
    }

    /// The tally with the entry for `d` forced to zero, all others kept.
    pub open spec fn suppress(self, d: Direction) -> Tally {
        match d {
            Direction::up => Tally { up: 0, ..self },
            Direction::down => Tally { down: 0, ..self },
            Direction::right => Tally { right: 0, ..self },
            Direction::left => Tally { left: 0, ..self },
        }
    }
}

/// Weighted selection: walk the directions in the fixed order up, down,
/// left, right, accumulating counts; the first direction whose accumulated
/// sum exceeds the draw `r` wins. For a uniform `r` in `[0, total)` each
/// direction wins with probability `count/total`, and a zero-count
/// direction never wins.
pub open spec fn spec_select(t: Tally, r: int) -> Direction {
    if r < t.up {
        Direction::up
    } else if r < t.up + t.down {
        Direction::down
    } else if r < t.up + t.down + t.left {
        Direction::left
    } else {
        Direction::right
    }
}

/// The heading one tick chooses, given the (already suppressed) tally and
/// the draw: with no votes at all the old heading is kept, otherwise the
/// weighted selection decides.
pub open spec fn spec_choose(t: Tally, heading: Direction, r: int) -> Direction {
    if t.total() == 0 {
        heading
    } else {
        spec_select(t, r)
    }
}

/// A direction that wins the weighted selection holds at least one vote.
pub proof fn lemma_select_positive(t: Tally, r: int)
    requires
        0 <= r < t.total(),
    ensures
        t.count(spec_select(t, r)) > 0,
{
}

/// No-reverse law: whatever the draw, a tick whose tally holds no votes for
/// the opposite of the incoming heading never chooses that opposite. This is
/// exactly the situation after anti-reversal suppression.
pub proof fn lemma_no_reverse(t: Tally, heading: Direction, r: int)
    requires
        t.count(heading.spec_opposite()) == 0,
        t.total() > 0 ==> 0 <= r < t.total(),
    ensures
        spec_choose(t, heading, r) != heading.spec_opposite(),
{
    if t.total() > 0 {
        lemma_select_positive(t, r);
    }
}

/// Sole-candidate law: if exactly one direction holds votes, the weighted
/// selection returns it regardless of the draw.
pub proof fn lemma_single_candidate(t: Tally, d: Direction, r: int)
    requires
        t.count(d) > 0,
        forall|d2: Direction| d2 != d ==> #[trigger] t.count(d2) == 0,
        0 <= r < t.total(),
    ensures
        spec_select(t, r) == d,
{
    assert(t.count(Direction::up) == t.up);
    assert(t.count(Direction::down) == t.down);
    assert(t.count(Direction::left) == t.left);
    assert(t.count(Direction::right) == t.right);
}

/// One toroidal step from cell `c` in direction `d` on a `size` x `size`
/// board: leaving one edge re-enters at the opposite edge.
pub open spec fn spec_step(size: usize, c: (usize, usize), d: Direction) -> (usize, usize) {
    match d {
        Direction::up => if c.1 == 0 {
            (c.0, (size - 1) as usize)
        } else {
            (c.0, (c.1 - 1) as usize)
        },
        Direction::down => if c.1 == size - 1 {
            (c.0, 0usize)
        } else {
            (c.0, (c.1 + 1) as usize)
        },
        Direction::right => if c.0 == size - 1 {
            (0usize, c.1)
        } else {
            ((c.0 + 1) as usize, c.1)
        },
        Direction::left => if c.0 == 0 {
            ((size - 1) as usize, c.1)
        } else {
            ((c.0 - 1) as usize, c.1)
        },
    }
}

/// Toroidal wraparound law: heading up from row 0 lands on the last row of
/// the same column, heading right from the last column lands on column 0 of
/// the same row, and symmetrically for down and left. Interior steps move by
/// exactly one cell.
pub proof fn lemma_toroidal_wraparound(size: usize, x: usize, y: usize)
    requires
        1 <= size,
        x < size,
        y < size,
    ensures
        spec_step(size, (x, 0), Direction::up) == ((x, (size - 1) as usize)),
        spec_step(size, (x, (size - 1) as usize), Direction::down) == ((x, 0usize)),
        spec_step(size, ((size - 1) as usize, y), Direction::right) == ((0usize, y)),
        spec_step(size, (0, y), Direction::left) == (((size - 1) as usize, y)),
        y > 0 ==> spec_step(size, (x, y), Direction::up) == ((x, (y - 1) as usize)),
        y < size - 1 ==> spec_step(size, (x, y), Direction::down) == ((x, (y + 1) as usize)),
        x < size - 1 ==> spec_step(size, (x, y), Direction::right) == (((x + 1) as usize, y)),
        x > 0 ==> spec_step(size, (x, y), Direction::left) == (((x - 1) as usize, y)),
{
}

/// Executable toroidal step; mirrors [`spec_step`] exactly.
pub fn step_cell(size: usize, c: (usize, usize), d: Direction) -> (r: (usize, usize))
    requires
        1 <= size,
        c.0 < size,
        c.1 < size,
    ensures
        r == spec_step(size, c, d),
        r.0 < size,
        r.1 < size,
{
    match d {
        Direction::up => if c.1 == 0 {
            (c.0, size - 1)
        } else {
            (c.0, c.1 - 1)
        },
        Direction::down => if c.1 == size - 1 {
            (c.0, 0)
        } else {
            (c.0, c.1 + 1)
        },
        Direction::right => if c.0 == size - 1 {
            (0, c.1)
        } else {
            (c.0 + 1, c.1)
        },
        Direction::left => if c.0 == 0 {
            (size - 1, c.1)
        } else {
            (c.0 - 1, c.1)
        },
    }
}

/// Membership and duplicate-freedom across a `push`.
proof fn lemma_push_facts<A>(s: Seq<A>, v: A)
    ensures
        forall|c: A| #[trigger] s.push(v).contains(c) <==> s.contains(c) || c == v,
        s.no_duplicates() && !s.contains(v) ==> s.push(v).no_duplicates(),
{
    assert forall|c: A| #[trigger] s.push(v).contains(c) implies s.contains(c) || c == v by {
        let i = choose|i: int| 0 <= i < s.push(v).len() && s.push(v)[i] == c;
        if i < s.len() {
            assert(s[i] == c);
        }
    }
    assert forall|c: A| s.contains(c) || c == v implies #[trigger] s.push(v).contains(c) by {
        if s.contains(c) {
            let i = choose|i: int| 0 <= i < s.len() && s[i] == c;
            assert(s.push(v)[i] == c);
        } else {
            assert(s.push(v)[s.len() as int] == c);
        }
    }
    if s.no_duplicates() && !s.contains(v) {
        assert forall|i: int, j: int|
            0 <= i < s.push(v).len() && 0 <= j < s.push(v).len() && i != j implies s.push(v)[i]
            != s.push(v)[j] by {
            if i < s.len() && j < s.len() {
            } else if i == s.len() {
                assert(s.contains(s[j]));
            } else {
                assert(s.contains(s[i]));
            }
        }
    }
}

/// Membership and duplicate-freedom across a `remove` on a duplicate-free
/// sequence: exactly the removed value disappears.
proof fn lemma_remove_facts<A>(s: Seq<A>, i: int)
    requires
        s.no_duplicates(),
        0 <= i < s.len(),
    ensures
        s.remove(i).no_duplicates(),
        forall|c: A| #[trigger] s.remove(i).contains(c) <==> s.contains(c) && c != s[i],
{
    s.remove_ensures(i);
    assert forall|c: A| #[trigger] s.remove(i).contains(c) implies s.contains(c) && c != s[i] by {
        let j = choose|j: int| 0 <= j < s.remove(i).len() && s.remove(i)[j] == c;
        if j < i {
            assert(s[j] == c);
        } else {
            assert(s[j + 1] == c);
        }
    }
    assert forall|c: A| s.contains(c) && c != s[i] implies #[trigger] s.remove(i).contains(c) by {
        let j = choose|j: int| 0 <= j < s.len() && s[j] == c;
        if j < i {
            assert(s.remove(i)[j] == c);
        } else {
            assert(s.remove(i)[j - 1] == c);
        }
    }
    assert forall|a: int, b: int|
        0 <= a < s.remove(i).len() && 0 <= b < s.remove(i).len() && a != b implies s.remove(
        i,
    )[a] != s.remove(i)[b] by {
        let a2 = if a < i {
            a
        } else {
            a + 1
        };
        let b2 = if b < i {
            b
        } else {
            b + 1
        };
        assert(s.remove(i)[a] == s[a2]);
        assert(s.remove(i)[b] == s[b2]);
    }
}

/// Membership and duplicate-freedom across prepending one element.
proof fn lemma_cons_facts<A>(s: Seq<A>, v: A)
    ensures
        forall|c: A| #[trigger] (seq![v] + s).contains(c) <==> c == v || s.contains(c),
        (seq![v] + s).len() == s.len() + 1,
        (seq![v] + s)[0] == v,
        forall|j: int| 0 <= j < s.len() ==> #[trigger] (seq![v] + s)[j + 1] == s[j],
        s.no_duplicates() && !s.contains(v) ==> (seq![v] + s).no_duplicates(),
{
    let w = seq![v] + s;
    assert forall|c: A| #[trigger] w.contains(c) implies c == v || s.contains(c) by {
        let i = choose|i: int| 0 <= i < w.len() && w[i] == c;
        if i > 0 {
            assert(s[i - 1] == c);
        }
    }
    assert forall|c: A| c == v || s.contains(c) implies #[trigger] w.contains(c) by {
        if c == v {
            assert(w[0] == c);
        } else {
            let i = choose|i: int| 0 <= i < s.len() && s[i] == c;
            assert(w[i + 1] == c);
        }
    }
    if s.no_duplicates() && !s.contains(v) {
        assert forall|i: int, j: int| 0 <= i < w.len() && 0 <= j < w.len() && i != j implies w[i]
            != w[j] by {
            if i == 0 {
                assert(s.contains(s[j - 1]));
            } else if j == 0 {
                assert(s.contains(s[i - 1]));
            } else {
                assert(w[i] == s[i - 1] && w[j] == s[j - 1]);
            }
        }
    }
}

/// Membership and duplicate-freedom across dropping the last element.
proof fn lemma_drop_last_facts<A>(s: Seq<A>)
    requires
        s.len() > 0,
        s.no_duplicates(),
    ensures
        s.drop_last().no_duplicates(),
        forall|c: A| #[trigger] s.drop_last().contains(c) <==> s.contains(c) && c != s.last(),
{
    assert forall|c: A| #[trigger] s.drop_last().contains(c) implies s.contains(c) && c
        != s.last() by {
        let i = choose|i: int| 0 <= i < s.drop_last().len() && s.drop_last()[i] == c;
        assert(s[i] == c);
        assert(s.contains(c));
    }
    assert forall|c: A| s.contains(c) && c != s.last() implies #[trigger] s.drop_last().contains(
        c,
    ) by {
        let i = choose|i: int| 0 <= i < s.len() && s[i] == c;
        assert(i < s.len() - 1);
        assert(s.drop_last()[i] == c);
    }
}

/// A cell of the starting snake: the fixed three-cell row on the top edge.
pub open spec fn is_start_cell(c: (usize, usize)) -> bool {
    c.1 == 0 && c.0 <= 2
}

/// The starting snake body, head first: the snake sits on the top row and
/// heads right.
pub open spec fn start_snake() -> Seq<(usize, usize)> {
    seq![(2usize, 0usize), (1usize, 0usize), (0usize, 0usize)]
}

/// All mutable simulation data of one game.
pub struct Inner {
    /// Board edge length; the board is `size` x `size` and toroidal.
    pub size: usize,
    /// The snake body, head at index 0, tail last.
    pub snake: Vec<(usize, usize)>,
    /// The current heading.
    pub heading: Direction,
    /// Votes accumulated since the last tick.
    pub tally: Tally,
    /// Cells currently holding food.
    pub food: Vec<(usize, usize)>,
    /// Cached complement of snake and food within the board.
    pub free: Vec<(usize, usize)>,
}

impl Inner {
    /// The cell lies on the board.
    pub open spec fn in_board(self, c: (usize, usize)) -> bool {
        c.0 < self.size && c.1 < self.size
    }

    /// The board edge is in the supported range.
    pub open spec fn size_ok(self) -> bool {
        3 <= self.size && self.size <= MAX_SIZE
    }

    /// Well-formedness: the three cell collections are duplicate-free,
    /// on-board and pairwise disjoint, and together they cover the whole
    /// board; the snake never shrinks below its starting length.
    pub open spec fn wf(self) -> bool {
        &&& self.size_ok()
        &&& self.snake@.len() >= 3
        &&& self.snake@.no_duplicates()
        &&& self.food@.no_duplicates()
        &&& self.free@.no_duplicates()
        &&& forall|c: (usize, usize)| #[trigger]
            self.snake@.contains(c) ==> self.in_board(c) && !self.food@.contains(c)
                && !self.free@.contains(c)
        &&& forall|c: (usize, usize)| #[trigger]
            self.food@.contains(c) ==> self.in_board(c) && !self.free@.contains(c)
        &&& forall|c: (usize, usize)| #[trigger] self.free@.contains(c) ==> self.in_board(c)
        &&& forall|c: (usize, usize)|
            self.in_board(c) && !self.snake@.contains(c) && !self.food@.contains(c)
                ==> #[trigger] self.free@.contains(c)
    }

    /// The state is the fixed starting configuration on a `size` board:
    /// starting snake, heading right, no food, no pending votes.
    pub open spec fn is_start(self, size: usize) -> bool {
        &&& self.size == size
        &&& self.snake@ == start_snake()
        &&& self.heading == Direction::right
        &&& self.food@.len() == 0
        &&& self.tally.is_zero()
    }

    /// Reinitializes the state in place to the starting configuration:
    /// food cleared, snake back on its starting cells, free cells rebuilt as
    /// the rest of the board, tally zeroed, heading right.
    pub fn reset(&mut self)
        requires
            old(self).size_ok(),
        ensures
            final(self).wf(),
            final(self).is_start(old(self).size),
            final(self).size == old(self).size,
    {
        self.food.clear();
        self.snake.clear();
        self.snake.push((2, 0));
        self.snake.push((1, 0));
        self.snake.push((0, 0));

        self.free.clear();
        let size = self.size;
        let mut x: usize = 0;
        while x < size
            invariant
                size == self.size,
                self.size_ok(),
                x <= size,
                self.free@.no_duplicates(),
                forall|c: (usize, usize)| #[trigger]
                    self.free@.contains(c) ==> c.0 < x && c.1 < size && !is_start_cell(c),
                forall|a: usize, b: usize|
                    a < x && b < size && !is_start_cell((a, b)) ==> #[trigger]
                        self.free@.contains((a, b)),
                self.snake@ == start_snake(),
                self.food@.len() == 0,
                self.size == old(self).size,
            decreases size - x,
        {
            let mut y: usize = 0;
            while y < size
                invariant
                    size == self.size,
                    self.size_ok(),
                    x < size,
                    y <= size,
                    self.free@.no_duplicates(),
                    forall|c: (usize, usize)| #[trigger]
                        self.free@.contains(c) ==> (c.0 < x || (c.0 == x && c.1 < y)) && c.0
                            < size && c.1 < size && !is_start_cell(c),
                    forall|a: usize, b: usize|
                        ((a < x && b < size) || (a == x && b < y)) && !is_start_cell((a, b))
                            ==> #[trigger] self.free@.contains((a, b)),
                    self.snake@ == start_snake(),
                    self.food@.len() == 0,
                    self.size == old(self).size,
                decreases size - y,
            {
                if !(y == 0 && x <= 2) {
                    proof {
                        lemma_push_facts(self.free@, (x, y));
                        assert(!self.free@.contains((x, y)));
                    }
                    self.free.push((x, y));
                }
                y = y + 1;
            }
            x = x + 1;
        }

        self.tally = Tally { up: 0, down: 0, left: 0, right: 0 };
        self.heading = Direction::right;

        proof {
            assert(self.snake@ == start_snake());
            assert forall|c: (usize, usize)| #[trigger] self.snake@.contains(c) implies
                self.in_board(c) && !self.food@.contains(c) && !self.free@.contains(c) by {
                assert(c == (2usize, 0usize) || c == (1usize, 0usize) || c == (0usize, 0usize));
                assert(is_start_cell(c));
            }
            assert forall|c: (usize, usize)|
                self.in_board(c) && !self.snake@.contains(c) && !self.food@.contains(c) implies
                #[trigger] self.free@.contains(c) by {
                if is_start_cell(c) {
                    if c.0 == 0 {
                        assert(self.snake@[2] == c);
                    } else if c.0 == 1 {
                        assert(self.snake@[1] == c);
                    } else {
                        assert(self.snake@[0] == c);
                    }
                    assert(self.snake@.contains(c));
                } else {
                    assert(self.free@.contains((c.0, c.1)));
                }
            }
            assert(self.snake@.no_duplicates());
        }
    }

    /// Fresh game state on a `size` board in the starting configuration.
    pub fn new(size: usize) -> (s: Inner)
        requires
            3 <= size <= MAX_SIZE,
        ensures
            s.wf(),
            s.is_start(size),
    {
        let mut s = Inner {
            size,
            snake: Vec::new(),
            heading: Direction::right,
            tally: Tally { up: 0, down: 0, left: 0, right: 0 },
            food: Vec::new(),
            free: Vec::new(),
        };
        s.reset();
        s
    }

    /// Records one vote for `d`. The count saturates at the integer bound
    /// instead of overflowing; no other part of the state moves.
    pub fn record_vote(&mut self, d: Direction)
        ensures
            final(self).tally.count(d) == if old(self).tally.count(d) < u32::MAX {
                old(self).tally.count(d) + 1
            } else {
                old(self).tally.count(d) as int
            },
            forall|d2: Direction| d2 != d ==> #[trigger]
                final(self).tally.count(d2) == old(self).tally.count(d2),
            final(self).size == old(self).size,
            final(self).snake == old(self).snake,
            final(self).heading == old(self).heading,
            final(self).food == old(self).food,
            final(self).free == old(self).free,
    {
        match d {
            Direction::up => if self.tally.up < u32::MAX {
                self.tally.up = self.tally.up + 1;
            },
            Direction::down => if self.tally.down < u32::MAX {
                self.tally.down = self.tally.down + 1;
            },
            Direction::right => if self.tally.right < u32::MAX {
                self.tally.right = self.tally.right + 1;
            },
            Direction::left => if self.tally.left < u32::MAX {
                self.tally.left = self.tally.left + 1;
            },
        }
    }

    /// Anti-reversal suppression: zeroes the tally entry for the direction
    /// opposite the current heading; everything else stays.
    pub fn suppress_reverse(&mut self)
        ensures
            final(self).tally == old(self).tally.suppress(old(self).heading.spec_opposite()),
            final(self).size == old(self).size,
            final(self).snake == old(self).snake,
            final(self).heading == old(self).heading,
            final(self).food == old(self).food,
            final(self).free == old(self).free,
    {
        let opp = self.heading.opposite();
        match opp {
            Direction::up => self.tally.up = 0,
            Direction::down => self.tally.down = 0,
            Direction::right => self.tally.right = 0,
            Direction::left => self.tally.left = 0,
        }
    }

    /// The current vote total, summed in the fixed direction order.
    pub fn total_votes(&self) -> (t: u64)
        ensures
            t == self.tally.total(),
    {
        self.tally.up as u64 + self.tally.down as u64 + self.tally.left as u64
            + self.tally.right as u64
    }

    /// Consumes the tally: sets the heading to the weighted choice for the
    /// draw `r` (keeping it when there are no votes) and zeroes all counts.
    pub fn choose_heading(&mut self, r: u64)
        requires
            old(self).tally.total() > 0 ==> r < old(self).tally.total(),
        ensures
            final(self).heading == spec_choose(old(self).tally, old(self).heading, r as int),
            final(self).tally.is_zero(),
            final(self).size == old(self).size,
            final(self).snake == old(self).snake,
            final(self).food == old(self).food,
            final(self).free == old(self).free,
    {
        let up = self.tally.up as u64;
        let down = self.tally.down as u64;
        let left = self.tally.left as u64;
        let right = self.tally.right as u64;
        let total = up + down + left + right;
        if total > 0 {
            self.heading = if r < up {
                Direction::up
            } else if r < up + down {
                Direction::down
            } else if r < up + down + left {
                Direction::left
            } else {
                Direction::right
            };
        }
        self.tally = Tally { up: 0, down: 0, left: 0, right: 0 };
    }
}

/// Linear search for a cell, returning its index exactly when present.
pub(crate) fn find_cell(v: &Vec<(usize, usize)>, c: (usize, usize)) -> (r: Option<usize>)
    ensures
        match r {
            Some(i) => i < v@.len() && v@[i as int] == c,
            None => !v@.contains(c),
        },
        r is Some <==> v@.contains(c),
{
    let mut i: usize = 0;
    while i < v.len()
        invariant
            i <= v@.len(),
            forall|j: int| 0 <= j < i ==> v@[j] != c,
        decreases v@.len() - i,
    {
        let e = v[i];
        if e.0 == c.0 && e.1 == c.1 {
            return Some(i);
        }
        i = i + 1;
    }
    proof {
        if v@.contains(c) {
            let j = choose|j: int| 0 <= j < v@.len() && v@[j] == c;
            assert(false);
        }
    }
    None
}

/// Relies on `rand::Rng::gen_range` of the `rand` crate, drawn on the
/// thread-local generator over `0..n`: it panics only on an empty range and
/// always returns a value of the range.
#[verifier::external_body]
fn rand_below_u64(n: u64) -> (r: u64)
    requires
        n > 0,
    ensures
        r < n,
{
    rand::thread_rng().gen_range(0..n)
}

/// Relies on `rand::Rng::gen_range` of the `rand` crate at `usize`, drawn on
/// the thread-local generator over `0..n`: it panics only on an empty range
/// and always returns a value of the range.
#[verifier::external_body]
fn rand_below_usize(n: usize) -> (r: usize)
    requires
        n > 0,
    ensures
        r < n,
{
    rand::thread_rng().gen_range(0..n)
}

/// The new head cell a tick computes when it advances in direction `d`.
pub open spec fn new_head(pre: Inner, d: Direction) -> (usize, usize) {
    spec_step(pre.size, pre.snake@[0], d)
}

/// The advance in direction `d` would run the head into the snake body.
pub open spec fn collides(pre: Inner, d: Direction) -> bool {
    pre.snake@.contains(new_head(pre, d))
}

/// The advance in direction `d` lands the head on food.
pub open spec fn eats(pre: Inner, d: Direction) -> bool {
    pre.food@.contains(new_head(pre, d))
}

/// The snake body after a collision-free advance in direction `d`: the new
/// head is prepended, and the tail is kept exactly when the head ate.
pub open spec fn moved_snake(pre: Inner, d: Direction) -> Seq<(usize, usize)> {
    if eats(pre, d) {
        seq![new_head(pre, d)] + pre.snake@
    } else {
        seq![new_head(pre, d)] + pre.snake@.drop_last()
    }
}

/// Food membership after a collision-free advance, before any spawn: the
/// eaten cell (if any) is gone.
pub open spec fn mid_food(pre: Inner, d: Direction, c: (usize, usize)) -> bool {
    pre.food@.contains(c) && c != new_head(pre, d)
}

/// Free membership after a collision-free advance, before any spawn: the
/// vacated tail (on a non-eating move) is free, the new head cell is not.
pub open spec fn mid_free(pre: Inner, d: Direction, c: (usize, usize)) -> bool {
    (pre.free@.contains(c) || (!eats(pre, d) && c == pre.snake@.last())) && c != new_head(pre, d)
}

impl Inner {
    /// Advances the snake one cell in the current heading: on self-collision
    /// the whole state resets, otherwise the head moves (growing by one on
    /// food) and the free-cell cache is kept exact.
    pub fn advance(&mut self) -> (collided: bool)
        requires
            old(self).wf(),
        ensures
            final(self).wf(),
            final(self).size == old(self).size,
            collided == collides(*old(self), old(self).heading),
            collided ==> final(self).is_start(old(self).size),
            !collided ==> ({
                &&& final(self).heading == old(self).heading
                &&& final(self).tally == old(self).tally
                &&& final(self).snake@ == moved_snake(*old(self), old(self).heading)
                &&& forall|c: (usize, usize)| #[trigger]
                    final(self).food@.contains(c) <==> mid_food(*old(self), old(self).heading, c)
                &&& forall|c: (usize, usize)| #[trigger]
                    final(self).free@.contains(c) <==> mid_free(*old(self), old(self).heading, c)
            }),
    {
        let ghost pre = *old(self);
        let head = self.snake[0];
        proof {
            assert(pre.snake@.contains(pre.snake@[0]));
        }
        let h = step_cell(self.size, head, self.heading);
        proof {
            assert(h == new_head(pre, pre.heading));
        }
        match find_cell(&self.snake, h) {
            Some(_) => {
                self.reset();
                return true;
            },
            None => {},
        }
        match find_cell(&self.food, h) {
            Some(i) => {
                self.food.remove(i);
                self.snake.insert(0, h);
                proof {
                    lemma_remove_facts(pre.food@, i as int);
                    lemma_cons_facts(pre.snake@, h);
                    assert(self.snake@ =~= seq![h] + pre.snake@);
                    assert forall|c: (usize, usize)|
                        self.in_board(c) && !self.snake@.contains(c) && !self.food@.contains(c)
                            implies #[trigger] self.free@.contains(c) by {
                        assert(!pre.snake@.contains(c) && c != h);
                        assert(!pre.food@.contains(c) || c == h);
                    }
                }
            },
            None => {
                let t = self.snake.len() - 1;
                let tail = self.snake.remove(t);
                self.snake.insert(0, h);
                proof {
                    lemma_drop_last_facts(pre.snake@);
                    assert(pre.snake@.remove(pre.snake@.len() - 1) =~= pre.snake@.drop_last());
                    assert(tail == pre.snake@.last());
                    lemma_cons_facts(pre.snake@.drop_last(), h);
                    assert(self.snake@ =~= seq![h] + pre.snake@.drop_last());
                    assert(pre.snake@.contains(tail));
                    lemma_push_facts(pre.free@, tail);
                    assert(!pre.free@.contains(tail));
                }
                self.free.push(tail);
                let ghost free1 = self.free@;
                match find_cell(&self.free, h) {
                    Some(i) => {
                        proof {
                            lemma_remove_facts(free1, i as int);
                        }
                        self.free.remove(i);
                    },
                    None => {
                        proof {
                            assert(pre.in_board(h));
                            assert(!pre.snake@.contains(h));
                            assert(!pre.food@.contains(h));
                            assert(pre.free@.contains(h));
                            assert(free1.contains(h));
                            assert(false);
                        }
                    },
                }
                proof {
                    assert forall|c: (usize, usize)| #[trigger]
                        self.free@.contains(c) <==> mid_free(pre, pre.heading, c) by {}
                    assert forall|c: (usize, usize)|
                        self.in_board(c) && !self.snake@.contains(c) && !self.food@.contains(c)
                            implies #[trigger] self.free@.contains(c) by {
                        if c == tail {
                            assert(tail != h);
                        } else {
                            assert(!pre.snake@.contains(c) && c != h);
                            assert(pre.free@.contains(c));
                        }
                    }
                }
            },
        }
        false
    }

    /// Moves the free cell at index `i` into the food set; nothing else
    /// changes.
    pub fn spawn_food_at(&mut self, i: usize)
        requires
            old(self).wf(),
            i < old(self).free@.len(),
        ensures
            final(self).wf(),
            final(self).size == old(self).size,
            final(self).heading == old(self).heading,
            final(self).tally == old(self).tally,
            final(self).snake == old(self).snake,
            final(self).food@ == old(self).food@.push(old(self).free@[i as int]),
            forall|c: (usize, usize)| #[trigger]
                final(self).free@.contains(c) <==> old(self).free@.contains(c) && c != old(
                    self,
                ).free@[i as int],
    {
        let ghost pre = *old(self);
        proof {
            assert(pre.free@.contains(pre.free@[i as int]));
            lemma_remove_facts(pre.free@, i as int);
            lemma_push_facts(pre.food@, pre.free@[i as int]);
        }
        let c = self.free.remove(i);
        self.food.push(c);
        proof {
            assert forall|b: (usize, usize)|
                self.in_board(b) && !self.snake@.contains(b) && !self.food@.contains(b)
                    implies #[trigger] self.free@.contains(b) by {
                assert(!pre.food@.contains(b) && b != c);
            }
        }
    }
}

/// The headings one tick could choose from `pre`, over all possible draws:
/// the old heading when the suppressed tally is empty, otherwise any result
/// of the weighted selection.
pub open spec fn may_choose(pre: Inner, d: Direction) -> bool {
    let t = pre.tally.suppress(pre.heading.spec_opposite());
    if t.total() == 0 {
        d == pre.heading
    } else {
        exists|r: int| 0 <= r < t.total() && d == spec_select(t, r)
    }
}

/// Food and free cells after a tick without a food spawn: exactly the
/// post-advance contents.
pub open spec fn tick_no_spawn(pre: Inner, d: Direction, post: Inner) -> bool {
    &&& forall|c: (usize, usize)| #[trigger] post.food@.contains(c) <==> mid_food(pre, d, c)
    &&& forall|c: (usize, usize)| #[trigger] post.free@.contains(c) <==> mid_free(pre, d, c)
}

/// Food and free cells after a tick that spawned food on the free cell
/// `sc`: that one cell moved from free to food.
pub open spec fn tick_spawn(pre: Inner, d: Direction, post: Inner, sc: (usize, usize)) -> bool {
    &&& mid_free(pre, d, sc)
    &&& forall|c: (usize, usize)| #[trigger]
        post.food@.contains(c) <==> mid_food(pre, d, c) || c == sc
    &&& forall|c: (usize, usize)| #[trigger]
        post.free@.contains(c) <==> mid_free(pre, d, c) && c != sc
}

/// The full outcome of one tick that chose direction `d`: either the new
/// head hits the body and the state is the starting configuration again, or
/// the snake advances (growing exactly when it eats) and at most one free
/// cell turns into food.
pub open spec fn tick_outcome(pre: Inner, d: Direction, post: Inner) -> bool {
    if collides(pre, d) {
        post.is_start(pre.size)
    } else {
        &&& post.size == pre.size
        &&& post.heading == d
        &&& post.tally.is_zero()
        &&& post.snake@ == moved_snake(pre, d)
        &&& (tick_no_spawn(pre, d, post) || (exists|sc: (usize, usize)|
            tick_spawn(pre, d, post, sc)))
    }
}

/// Everything one tick may do: some permitted heading choice, followed by
/// its exact outcome.
pub open spec fn tick_rel(pre: Inner, post: Inner) -> bool {
    exists|d: Direction| #[trigger] may_choose(pre, d) && tick_outcome(pre, d, post)
}

impl Inner {
    /// One full simulation tick: suppress reverse votes, choose the heading
    /// by a weighted random draw, clear the tally, advance the head with
    /// toroidal wraparound, reset on self-collision, grow on food, and with
    /// probability one in five spawn food on a uniformly chosen free cell
    /// (skipped when no cell is free).
    ///
    /// The relation `tick_rel` pins the outcome down to the random draws;
    /// the remaining clauses state the invariant and the length laws
    /// directly: the state is well formed again, the snake never shrinks
    /// except by reset, it grows by exactly one cell exactly when the new
    /// head landed on food, and the chosen heading never reverses the one
    /// the tick entered with.
    pub fn update(&mut self)
        requires
            old(self).wf(),
        ensures
            final(self).wf(),
            final(self).size == old(self).size,
            final(self).tally.is_zero(),
            tick_rel(*old(self), *final(self)),
            final(self).is_start(old(self).size) || final(self).snake@.len() >= old(
                self,
            ).snake@.len(),
            !final(self).is_start(old(self).size) ==> ({
                &&& final(self).heading != old(self).heading.spec_opposite()
                &&& (old(self).tally.is_zero() ==> final(self).heading == old(self).heading)
                &&& final(self).snake@.len() <= old(self).snake@.len() + 1
                &&& (final(self).snake@.len() == old(self).snake@.len() + 1 <==> old(
                    self,
                ).food@.contains(final(self).snake@[0]))
            }),
    {
        let ghost pre = *old(self);
        self.suppress_reverse();
        let total = self.total_votes();
        let r = if total > 0 {
            rand_below_u64(total)
        } else {
            0
        };
        self.choose_heading(r);
        let ghost t = pre.tally.suppress(pre.heading.spec_opposite());
        let ghost d = self.heading;
        proof {
            if t.total() == 0 {
                assert(d == pre.heading);
            } else {
                assert(0 <= (r as int) && (r as int) < t.total() && d == spec_select(
                    t,
                    r as int,
                ));
            }
            assert(may_choose(pre, d));
            lemma_no_reverse(t, pre.heading, r as int);
            assert(d != pre.heading.spec_opposite());
            assert(self.wf());
        }
        let ghost mid0 = *self;
        let collided = self.advance();
        proof {
            assert(collides(mid0, d) == collides(pre, d));
            assert(eats(mid0, d) == eats(pre, d));
            assert(new_head(mid0, d) == new_head(pre, d));
            assert(moved_snake(mid0, d) == moved_snake(pre, d));
        }
        if collided {
            proof {
                assert(tick_outcome(pre, d, *self));
                assert(may_choose(pre, d) && tick_outcome(pre, d, *self));
            }
            return;
        }
        let ghost mid = *self;
        proof {
            assert(tick_no_spawn(pre, d, mid));
        }
        let roll = rand_below_u64(5);
        if roll == 2 {
            let n = self.free.len();
            if n > 0 {
                let i = rand_below_usize(n);
                let ghost sc = self.free@[i as int];
                proof {
                    lemma_push_facts(mid.food@, sc);
                    assert(mid.free@.contains(sc));
                }
                self.spawn_food_at(i);
                proof {
                    assert(mid_free(pre, d, sc));
                    assert forall|c: (usize, usize)| #[trigger]
                        self.food@.contains(c) <==> mid_food(pre, d, c) || c == sc by {
                        assert(self.food@ == mid.food@.push(sc));
                    }
                    assert(tick_spawn(pre, d, *self, sc));
                    assert(tick_outcome(pre, d, *self));
                }
            }
        }
        proof {
            assert(tick_outcome(pre, d, *self));
            assert(may_choose(pre, d) && tick_outcome(pre, d, *self));
            lemma_cons_facts(pre.snake@, new_head(pre, d));
            lemma_cons_facts(pre.snake@.drop_last(), new_head(pre, d));
        }
    }
}

} // verus!
