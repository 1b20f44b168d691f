//! Elastic-chase rope simulator.
//!
//! A chain of knots lives on an unbounded integer grid. The head (knot 0) is
//! moved one unit at a time; every later knot is pulled towards its
//! predecessor by the move-towards rule, which keeps adjacent knots within
//! Chebyshev distance 1 after every unit step.
use vstd::prelude::*;

use crate::text::all_digits;
use crate::text::digits_val;
use crate::text::lines_of;
use crate::text::parse_digits;
use crate::text::split_lines;

verus! {

/// Direction of a single head move.
#[derive(Clone, Copy, PartialEq, Eq, Structural, Debug)]
pub enum Dir {
    U,
    D,
    L,
    R,
}

/// A parsed move command: walk `steps` units in direction `dir`.
#[derive(Clone, Copy, Debug)]
pub struct Move {
    pub dir: Dir,
    pub steps: isize,
}

/// One knot position on the grid.
#[derive(Clone, Copy, PartialEq, Eq, Structural, Hash, Debug)]
pub struct Point {
    pub x: isize,
    pub y: isize,
}

impl View for Point {
    type V = (int, int);

    open spec fn view(&self) -> (int, int) {
        (self.x as int, self.y as int)
    }
}

impl Default for Point {
    /// The origin, where every knot of a fresh chain starts.
    fn default() -> (p: Self)
        ensures
            p@ == ((0int, 0int)),
    {
        Point { x: 0, y: 0 }
    }
}

/// Sign of an integer: -1, 0 or 1.
pub open spec fn sgn(d: int) -> int {
    if d > 0 {
        1
    } else if d < 0 {
        -1
    } else {
        0
    }
}

/// Chebyshev distance: the larger of the two coordinate gaps.
pub open spec fn cheb(a: (int, int), b: (int, int)) -> int {
    let dx = if a.0 >= b.0 {
        a.0 - b.0
    } else {
        b.0 - a.0
    };
    let dy = if a.1 >= b.1 {
        a.1 - b.1
    } else {
        b.1 - a.1
    };
    if dx >= dy {
        dx
    } else {
        dy
    }
}

/// Where a point lands after one unit move in direction `d`.
pub open spec fn step_dir(p: (int, int), d: Dir) -> (int, int) {
    match d {
        Dir::U => (p.0, p.1 + 1),
        Dir::D => (p.0, p.1 - 1),
        Dir::L => (p.0 - 1, p.1),
        Dir::R => (p.0 + 1, p.1),
    }
}

/// The move-towards rule for one follower knot `t` chasing `h`: a touching
/// follower stays put, any other follower moves one unit towards `h` on each
/// axis with a gap.
pub open spec fn chase_one(t: (int, int), h: (int, int)) -> (int, int) {
    if cheb(h, t) <= 1 {
        t
    } else {
        (t.0 + sgn(h.0 - t.0), t.1 + sgn(h.1 - t.1))
    }
}

impl Point {
    /// Move this point one unit in direction `dir`.
    #[must_use]
    pub fn move_dir(self, dir: Dir) -> (r: Self)
        requires
            isize::MIN < self.x < isize::MAX,
            isize::MIN < self.y < isize::MAX,
        ensures
            r@ == step_dir(self@, dir),
    {
        let mut p = self;
        match dir {
            Dir::U => p.y = p.y + 1,
            Dir::D => p.y = p.y - 1,
            Dir::L => p.x = p.x - 1,
            Dir::R => p.x = p.x + 1,
        }
        p
    }

    /// Move this point, the tail, towards the given head.
    ///
    /// The rule is only meaningful for adjacent-or-one-step-separated states,
    /// so the head may be at most two units away on each axis.
    #[must_use]
    pub fn move_towards(self, head: &Self) -> (r: Self)
        requires
            cheb(head@, self@) <= 2,
        ensures
            r@ == chase_one(self@, head@),
    {
        let mut tail = self;
        let dx = head.x - tail.x;
        let dy = head.y - tail.y;

        // If they're touching, no move is necessary. Diagonally adjacent and
        // even overlapping both count as touching.
        if -1 <= dx && dx <= 1 && -1 <= dy && dy <= 1 {
            return tail;
        }
        // If the head is two steps directly up, down, left, or right from the
        // tail, the tail moves one step in that direction.
        if dx == 0 {
            if dy == 2 {
                tail.y = tail.y + 1;
                return tail;
            }
            if dy == -2 {
                tail.y = tail.y - 1;
                return tail;
            }
        }
        if dy == 0 {
            if dx == 2 {
                tail.x = tail.x + 1;
                return tail;
            }
            if dx == -2 {
                tail.x = tail.x - 1;
                return tail;
            }
        }
        // Otherwise, move diagonally towards the head.
        if dx > 0 {
            tail.x = tail.x + 1;
        } else {
            tail.x = tail.x - 1;
        }
        if dy > 0 {
            tail.y = tail.y + 1;
        } else {
            tail.y = tail.y - 1;
        }
        tail
    }
}

/// The whole chain after one head move in direction `d`: knot 0 follows the
/// move, knot `j` chases the already-updated knot `j - 1` of the same step.
pub open spec fn advance_at(c: Seq<(int, int)>, d: Dir, j: int) -> (int, int)
    decreases j,
{
    if j <= 0 {
        step_dir(c[0], d)
    } else {
        chase_one(c[j], advance_at(c, d, j - 1))
    }
}

/// The chain after one unit step of the head.
pub open spec fn advance(c: Seq<(int, int)>, d: Dir) -> Seq<(int, int)> {
    Seq::new(c.len(), |j: int| advance_at(c, d, j))
}

/// Every pair of adjacent knots is within Chebyshev distance 1.
pub open spec fn linked(c: Seq<(int, int)>) -> bool {
    forall|j: int| 1 <= j < c.len() ==> cheb(c[j - 1], #[trigger] c[j]) <= 1
}

/// Every knot's coordinates have absolute value at most `b`.
pub open spec fn bounded(c: Seq<(int, int)>, b: int) -> bool {
    forall|j: int| 0 <= j < c.len() ==> -b <= (#[trigger] c[j]).0 <= b && -b <= c[j].1 <= b
}

/// The chain after applying a whole sequence of unit steps.
pub open spec fn apply_all(c: Seq<(int, int)>, dirs: Seq<Dir>) -> Seq<(int, int)>
    decreases dirs.len(),
{
    if dirs.len() == 0 {
        c
    } else {
        apply_all(advance(c, dirs[0]), dirs.drop_first())
    }
}

/// The position of the last knot after each unit step, in step order.
pub open spec fn tail_trace(c: Seq<(int, int)>, dirs: Seq<Dir>) -> Seq<(int, int)>
    decreases dirs.len(),
{
    if dirs.len() == 0 {
        Seq::empty()
    } else {
        let c2 = advance(c, dirs[0]);
        seq![c2.last()] + tail_trace(c2, dirs.drop_first())
    }
}

/// `n` knots stacked on the origin: a fresh chain.
pub open spec fn init_chain(n: nat) -> Seq<(int, int)> {
    Seq::new(n, |j: int| (0int, 0int))
}

/// `n` copies of direction `d`.
pub open spec fn repeat_dir(d: Dir, n: nat) -> Seq<Dir> {
    Seq::new(n, |i: int| d)
}

/// How many unit steps a move contributes (a non-positive count walks nowhere).
pub open spec fn steps_nat(m: Move) -> nat {
    if m.steps >= 0 {
        m.steps as nat
    } else {
        0
    }
}

/// A move list flattened into its unit steps, in strict order.
pub open spec fn unit_dirs(moves: Seq<Move>) -> Seq<Dir>
    decreases moves.len(),
{
    if moves.len() == 0 {
        Seq::empty()
    } else {
        repeat_dir(moves[0].dir, steps_nat(moves[0])) + unit_dirs(moves.drop_first())
    }
}

/// The number of distinct positions the last knot of an `n`-knot chain
/// visits while the whole move list is replayed one unit step at a time.
pub open spec fn tail_visit_count(moves: Seq<Move>, n: nat) -> nat {
    tail_trace(init_chain(n), unit_dirs(moves)).to_set().len()
}

/// A follower within Chebyshev distance 2 of its head ends within distance 1
/// of it after the move-towards rule, and itself moves at most one unit.
pub proof fn lemma_chase_one_close(t: (int, int), h: (int, int))
    requires
        cheb(h, t) <= 2,
    ensures
        cheb(h, chase_one(t, h)) <= 1,
        cheb(chase_one(t, h), t) <= 1,
{
}

/// One unit step of a linked chain keeps it linked: after the head moves one
/// unit, each pair of adjacent knots is at most 2 apart when the follower is
/// updated, and at most 1 apart once the move-towards rule has been applied.
/// Every knot moves at most one unit.
pub proof fn lemma_advance_linked(c: Seq<(int, int)>, d: Dir, j: int)
    requires
        linked(c),
        0 <= j < c.len(),
    ensures
        cheb(advance_at(c, d, j), c[j]) <= 1,
        j >= 1 ==> cheb(advance_at(c, d, j - 1), c[j]) <= 2,
        j >= 1 ==> cheb(advance_at(c, d, j - 1), advance_at(c, d, j)) <= 1,
    decreases j,
{
    if j == 0 {
        assert(cheb(step_dir(c[0], d), c[0]) <= 1);
    } else {
        lemma_advance_linked(c, d, j - 1);
        assert(cheb(c[j - 1], c[j]) <= 1);
        lemma_chase_one_close(c[j], advance_at(c, d, j - 1));
    }
}

/// A linked chain stays linked over a unit step; this is the chain invariant
/// of the simulation.
pub proof fn lemma_advance_keeps_linked(c: Seq<(int, int)>, d: Dir)
    requires
        linked(c),
    ensures
        linked(advance(c, d)),
{
    assert forall|j: int| 1 <= j < advance(c, d).len() implies cheb(
        advance(c, d)[j - 1],
        #[trigger] advance(c, d)[j],
    ) <= 1 by {
        lemma_advance_linked(c, d, j);
    }
}

/// A bounded chain grows its bound by at most one unit per step.
proof fn lemma_advance_bounded(c: Seq<(int, int)>, d: Dir, b: int)
    requires
        linked(c),
        bounded(c, b),
    ensures
        bounded(advance(c, d), b + 1),
{
    assert forall|j: int| 0 <= j < advance(c, d).len() implies -(b + 1) <= (
    #[trigger] advance(c, d)[j]).0 <= b + 1 && -(b + 1) <= advance(c, d)[j].1 <= b + 1 by {
        lemma_advance_linked(c, d, j);
    }
}

proof fn lemma_apply_all_push(c: Seq<(int, int)>, dirs: Seq<Dir>, d: Dir)
    ensures
        apply_all(c, dirs.push(d)) == advance(apply_all(c, dirs), d),
    decreases dirs.len(),
{
    if dirs.len() == 0 {
        reveal_with_fuel(apply_all, 2);
        assert(dirs.push(d)[0] == d);
        assert(dirs.push(d).drop_first() =~= Seq::<Dir>::empty());
    } else {
        assert(dirs.push(d)[0] == dirs[0]);
        assert(dirs.push(d).drop_first() =~= dirs.drop_first().push(d));
        lemma_apply_all_push(advance(c, dirs[0]), dirs.drop_first(), d);
    }
}

proof fn lemma_tail_trace_push(c: Seq<(int, int)>, dirs: Seq<Dir>, d: Dir)
    ensures
        tail_trace(c, dirs.push(d)) == tail_trace(c, dirs) + seq![
            advance(apply_all(c, dirs), d).last(),
        ],
    decreases dirs.len(),
{
    if dirs.len() == 0 {
        reveal_with_fuel(tail_trace, 2);
        assert(dirs.push(d)[0] == d);
        assert(dirs.push(d).drop_first() =~= Seq::<Dir>::empty());
        assert(tail_trace(c, dirs.push(d)) =~= tail_trace(c, dirs) + seq![
            advance(apply_all(c, dirs), d).last(),
        ]);
    } else {
        assert(dirs.push(d)[0] == dirs[0]);
        assert(dirs.push(d).drop_first() =~= dirs.drop_first().push(d));
        lemma_tail_trace_push(advance(c, dirs[0]), dirs.drop_first(), d);
        assert(tail_trace(c, dirs.push(d)) =~= tail_trace(c, dirs) + seq![
            advance(apply_all(c, dirs), d).last(),
        ]);
    }
}

proof fn lemma_unit_dirs_push(moves: Seq<Move>, m: Move)
    ensures
        unit_dirs(moves.push(m)) == unit_dirs(moves) + repeat_dir(m.dir, steps_nat(m)),
    decreases moves.len(),
{
    if moves.len() == 0 {
        reveal_with_fuel(unit_dirs, 2);
        assert(moves.push(m)[0] == m);
        assert(moves.push(m).drop_first() =~= Seq::<Move>::empty());
        assert(unit_dirs(moves.push(m)) =~= unit_dirs(moves) + repeat_dir(m.dir, steps_nat(m)));
    } else {
        assert(moves.push(m)[0] == moves[0]);
        assert(moves.push(m).drop_first() =~= moves.drop_first().push(m));
        lemma_unit_dirs_push(moves.drop_first(), m);
        assert(unit_dirs(moves.push(m)) =~= unit_dirs(moves) + repeat_dir(m.dir, steps_nat(m)));
    }
}

/// The mathematical positions of a chain of knots.
pub open spec fn chain_view(ps: Seq<Point>) -> Seq<(int, int)> {
    ps.map_values(|p: Point| p@)
}

proof fn lemma_to_set_snoc(s: Seq<(int, int)>, e: (int, int))
    ensures
        (s + seq![e]).to_set() == s.to_set().insert(e),
{
    assert forall|x: (int, int)| (s + seq![e]).to_set().contains(x) implies s.to_set().insert(
        e,
    ).contains(x) by {
        let i = choose|i: int| 0 <= i < (s + seq![e]).len() && (s + seq![e])[i] == x;
        if i < s.len() {
            assert(s[i] == x);
        }
    }
    assert forall|x: (int, int)| s.to_set().insert(e).contains(x) implies (s
        + seq![e]).to_set().contains(x) by {
        if s.to_set().contains(x) {
            let i = choose|i: int| 0 <= i < s.len() && s[i] == x;
            assert((s + seq![e])[i] == x);
        } else {
            assert((s + seq![e])[s.len() as int] == e);
        }
    }
    assert((s + seq![e]).to_set() =~= s.to_set().insert(e));
}

/// Flatten a move list into its unit steps, preserving strict ordering.
pub fn expand(moves: &Vec<Move>) -> (dirs: Vec<Dir>)
    ensures
        dirs@ == unit_dirs(moves@),
{
    let mut dirs: Vec<Dir> = Vec::new();
    for i in 0..moves.len()
        invariant
            dirs@ == unit_dirs(moves@.take(i as int)),
    {
        let m = moves[i];
        let mut k: isize = 0;
        while k < m.steps
            invariant
                0 <= k,
                m.steps >= 0 ==> k <= m.steps,
                m.steps < 0 ==> k == 0,
                dirs@ == unit_dirs(moves@.take(i as int)) + repeat_dir(m.dir, k as nat),
            decreases m.steps - k,
        {
            proof {
                assert(repeat_dir(m.dir, (k + 1) as nat) =~= repeat_dir(m.dir, k as nat).push(
                    m.dir,
                ));
            }
            dirs.push(m.dir);
            k = k + 1;
        }
        proof {
            assert(moves@.take(i + 1) =~= moves@.take(i as int).push(moves@[i as int]));
            lemma_unit_dirs_push(moves@.take(i as int), moves@[i as int]);
            assert(repeat_dir(m.dir, k as nat) =~= repeat_dir(m.dir, steps_nat(moves@[i as int])));
        }
    }
    proof {
        assert(moves@.take(moves@.len() as int) =~= moves@);
    }
    dirs
}

/// Returns the number of distinct positions the last knot of the chain
/// visits at least once while the move list is replayed one unit step at a
/// time. Simulates `knots` points; the head is knot 0, the tail the last.
/// The step-printing switch only selects debug rendering, which is the
/// surrounding application's business: the simulation ignores it.
#[verifier::rlimit(100)]
pub fn simulate(moves: &Vec<Move>, _print_steps: bool, knots: usize) -> (r: usize)
    requires
        knots >= 1,
        unit_dirs(moves@).len() + 1 < isize::MAX,
    ensures
        r == tail_visit_count(moves@, knots as nat),
{
    let dirs = expand(moves);
    let ghost init = init_chain(knots as nat);
    let mut points: Vec<Point> = Vec::new();
    for j in 0..knots
        invariant
            points@.len() == j,
            forall|k: int| 0 <= k < j ==> (#[trigger] points@[k])@ == ((0int, 0int)),
    {
        points.push(Point::default());
    }
    proof {
        assert(chain_view(points@) =~= init);
        assert(dirs@.take(0) =~= Seq::<Dir>::empty());
    }
    let mut visited: Vec<Point> = Vec::new();
    for t in 0..dirs.len()
        invariant
            dirs@ == unit_dirs(moves@),
            dirs@.len() + 1 < isize::MAX,
            knots >= 1,
            points@.len() == knots,
            chain_view(points@) == apply_all(init, dirs@.take(t as int)),
            linked(chain_view(points@)),
            bounded(chain_view(points@), t as int),
            visited@.map_values(|p: Point| p@).no_duplicates(),
            visited@.map_values(|p: Point| p@).to_set() == tail_trace(
                init,
                dirs@.take(t as int),
            ).to_set(),
    {
        let ghost pre = chain_view(points@);
        let d = dirs[t];
        let head0 = points[0];
        proof {
            assert(pre[0] == points@[0]@);
            assert(-(t as int) <= pre[0].0 <= t as int && -(t as int) <= pre[0].1 <= t as int);
        }
        points[0] = head0.move_dir(d);
        for i in 1..knots
            invariant
                1 <= i <= knots,
                points@.len() == knots,
                pre.len() == knots,
                linked(pre),
                bounded(pre, t as int),
                0 <= t < dirs@.len(),
                dirs@.len() + 1 < isize::MAX,
                d == dirs@[t as int],
                forall|k: int| 0 <= k < i ==> (#[trigger] points@[k])@ == advance_at(pre, d, k),
                forall|k: int| i <= k < knots ==> (#[trigger] points@[k])@ == pre[k],
        {
            let head = points[i - 1];
            let tail = points[i];
            proof {
                lemma_advance_linked(pre, d, i as int);
            }
            points[i] = tail.move_towards(&head);
        }
        proof {
            assert(chain_view(points@) =~= advance(pre, d));
            assert(dirs@.take(t + 1) =~= dirs@.take(t as int).push(d));
            lemma_apply_all_push(init, dirs@.take(t as int), d);
            lemma_tail_trace_push(init, dirs@.take(t as int), d);
            lemma_advance_keeps_linked(pre, d);
            lemma_advance_bounded(pre, d, t as int);
        }
        let last = points[knots - 1];
        proof {
            assert(chain_view(points@)[knots - 1] == last@);
            assert(advance(pre, d).last() == last@);
        }
        let mut found = false;
        let mut s: usize = 0;
        while s < visited.len()
            invariant
                0 <= s <= visited@.len(),
                found <==> (exists|k: int| 0 <= k < s && visited@[k] == last),
            decreases visited@.len() - s,
        {
            if visited[s].x == last.x && visited[s].y == last.y {
                found = true;
                proof {
                    assert(visited@[s as int] == last);
                }
            }
            s = s + 1;
        }
        let ghost old_tails = tail_trace(init, dirs@.take(t as int));
        proof {
            lemma_to_set_snoc(old_tails, last@);
        }
        if !found {
            proof {
                let m = visited@.map_values(|p: Point| p@);
                assert forall|k: int| 0 <= k < m.len() implies m[k] != last@ by {
                    assert(visited@[k] != last);
                    assert((visited@[k].x, visited@[k].y) != (last.x, last.y));
                }
                assert(!m.contains(last@));
                assert(m.push(last@).no_duplicates());
                assert(visited@.push(last).map_values(|p: Point| p@) =~= m.push(last@));
                assert(m.push(last@) =~= m + seq![last@]);
                lemma_to_set_snoc(m, last@);
            }
            visited.push(last);
        } else {
            proof {
                let k = choose|k: int| 0 <= k < visited@.len() && visited@[k] == last;
                let m = visited@.map_values(|p: Point| p@);
                assert(m[k] == last@);
                assert(m.to_set().contains(last@));
                assert(m.to_set() =~= m.to_set().insert(last@));
            }
        }
    }
    proof {
        assert(dirs@.take(dirs@.len() as int) =~= dirs@);
        visited@.map_values(|p: Point| p@).unique_seq_to_set();
    }
    visited.len()
}

/// Whether one input line is a well-formed move: a direction letter, one
/// space, then the decimal step count (at most 255, as in the input format).
pub open spec fn valid_move_line(s: Seq<char>) -> bool {
    &&& s.len() >= 3
    &&& (s[0] == 'U' || s[0] == 'D' || s[0] == 'L' || s[0] == 'R')
    &&& s[1] == ' '
    &&& all_digits(s.skip(2))
    &&& 0 <= digits_val(s.skip(2)) <= 255
}

/// The move a well-formed input line denotes.
pub open spec fn line_move(s: Seq<char>) -> Move {
    let d = if s[0] == 'U' {
        Dir::U
    } else if s[0] == 'D' {
        Dir::D
    } else if s[0] == 'L' {
        Dir::L
    } else {
        Dir::R
    };
    Move { dir: d, steps: digits_val(s.skip(2)) as isize }
}

/// Read a move list, one move per line.
pub fn parse(input: &str) -> (r: Vec<Move>)
    requires
        forall|i: int| 0 <= i < lines_of(input@).len() ==> valid_move_line(
            #[trigger] lines_of(input@)[i],
        ),
    ensures
        r@.len() == lines_of(input@).len(),
        forall|i: int| 0 <= i < r@.len() ==> r@[i] == line_move(lines_of(input@)[i]),
{
    let lines = split_lines(input);
    let mut r: Vec<Move> = Vec::new();
    for i in 0..lines.len()
        invariant
            lines@.map_values(|line: Vec<char>| line@) == lines_of(input@),
            forall|k: int| 0 <= k < lines_of(input@).len() ==> valid_move_line(
                #[trigger] lines_of(input@)[k],
            ),
            r@.len() == i,
            forall|k: int| 0 <= k < i ==> r@[k] == line_move(lines_of(input@)[k]),
    {
        let line = &lines[i];
        proof {
            assert(line@ == lines_of(input@)[i as int]);
            assert(valid_move_line(line@));
            assert(line@.skip(2) =~= line@.subrange(2, line@.len() as int));
        }
        let c = line[0];
        let d = if c == 'U' {
            Dir::U
        } else if c == 'D' {
            Dir::D
        } else if c == 'L' {
            Dir::L
        } else {
            Dir::R
        };
        let v = parse_digits(line, 2, line.len());
        r.push(Move { dir: d, steps: v as isize });
    }
    r
}

} // verus!
