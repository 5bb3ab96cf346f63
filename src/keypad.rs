//! Minimal keystroke counts for a chain of robot-operated keypads.
//!
//! A human types on a directional pad; each directional pad drives a robot arm
//! over the next pad, and the last arm types a code on the numeric pad.
use crate::text::{lines_of, text_lines};
use crate::utils::{chars_of, fit, PointT};
use itertools::Itertools;
use std::collections::HashMap;
use vstd::prelude::*;

verus! {

broadcast use vstd::std_specs::hash::group_hash_axioms;

/// The two keypad layouts.
#[derive(PartialEq, Eq, Clone, Copy, Debug, Structural)]
pub enum Pad {
    /// `789 / 456 / 123 / _0A`, three columns and four rows.
    Numeric,
    /// `_^A / <v>`, three columns and two rows.
    Directional,
}

pub const UP: char = '^';

pub const DOWN: char = 'v';

pub const LEFT: char = '<';

pub const RIGHT: char = '>';

pub const ACTION: char = 'A';

/// Where a key sits on a pad, as (column, row); `None` for a key the pad lacks.
pub open spec fn key_pos(pad: Pad, c: char) -> Option<(int, int)> {
    match pad {
        Pad::Numeric => {
            if c == '7' {
                Some((0, 0))
            } else if c == '8' {
                Some((1, 0))
            } else if c == '9' {
                Some((2, 0))
            } else if c == '4' {
                Some((0, 1))
            } else if c == '5' {
                Some((1, 1))
            } else if c == '6' {
                Some((2, 1))
            } else if c == '1' {
                Some((0, 2))
            } else if c == '2' {
                Some((1, 2))
            } else if c == '3' {
                Some((2, 2))
            } else if c == '0' {
                Some((1, 3))
            } else if c == 'A' {
                Some((2, 3))
            } else {
                None
            }
        },
        Pad::Directional => {
            if c == '^' {
                Some((1, 0))
            } else if c == 'A' {
                Some((2, 0))
            } else if c == '<' {
                Some((0, 1))
            } else if c == 'v' {
                Some((1, 1))
            } else if c == '>' {
                Some((2, 1))
            } else {
                None
            }
        },
    }
}

/// The cell that holds the action key, where every arm starts.
pub open spec fn start_pos(pad: Pad) -> (int, int) {
    key_pos(pad, ACTION).unwrap()
}

/// A cell of the pad that holds a key: inside the grid and not the gap.
pub open spec fn on_pad(pad: Pad, p: (int, int)) -> bool {
    match pad {
        Pad::Numeric => 0 <= p.0 < 3 && 0 <= p.1 < 4 && p != (0int, 3int),
        Pad::Directional => 0 <= p.0 < 3 && 0 <= p.1 < 2 && p != (0int, 0int),
    }
}

pub open spec fn is_move(c: char) -> bool {
    c == UP || c == DOWN || c == LEFT || c == RIGHT
}

/// A key of the directional pad.
pub open spec fn is_dir_key(c: char) -> bool {
    is_move(c) || c == ACTION
}

/// Every symbol of `s` is a key of the directional pad.
pub open spec fn all_dir_keys(s: Seq<char>) -> bool {
    forall|i: int| 0 <= i < s.len() ==> is_dir_key(#[trigger] s[i])
}

/// The cell one move away from `p`.
pub open spec fn step(p: (int, int), c: char) -> (int, int) {
    if c == UP {
        (p.0, p.1 - 1)
    } else if c == DOWN {
        (p.0, p.1 + 1)
    } else if c == LEFT {
        (p.0 - 1, p.1)
    } else if c == RIGHT {
        (p.0 + 1, p.1)
    } else {
        p
    }
}

/// `s` is made of moves only, and the cursor that follows it from `p` stays on keys.
pub open spec fn path_valid(pad: Pad, p: (int, int), s: Seq<char>) -> bool
    decreases s.len(),
{
    s.len() == 0 || (is_move(s[0]) && on_pad(pad, step(p, s[0])) && path_valid(
        pad,
        step(p, s[0]),
        s.drop_first(),
    ))
}

/// `n` copies of `c`.
pub open spec fn run(c: char, n: int) -> Seq<char> {
    Seq::new(n as nat, |_i: int| c)
}

pub open spec fn abs(a: int) -> int {
    if a < 0 {
        -a
    } else {
        a
    }
}

/// The horizontal moves, then the vertical ones, that cover a displacement.
pub open spec fn moves_for(dx: int, dy: int) -> Seq<char> {
    run(if dx > 0 { RIGHT } else { LEFT }, abs(dx)) + run(if dy > 0 { DOWN } else { UP }, abs(dy))
}

/// The moves, in one order, that take a cursor from `from` to `to`.
pub open spec fn moves_between(from: (int, int), to: (int, int)) -> Seq<char> {
    moves_for(to.0 - from.0, to.1 - from.1)
}

/// A shortest way from `from` to `to` on the pad: an ordering of the required
/// moves whose every step lands on a key.
#[verifier::opaque]
pub open spec fn is_candidate(pad: Pad, from: (int, int), to: (int, int), p: Seq<char>) -> bool {
    p.to_multiset() == moves_between(from, to).to_multiset() && path_valid(pad, from, p)
}

/// The directional-pad cell of a directional key.
pub open spec fn dir_pos(c: char) -> (int, int) {
    key_pos(Pad::Directional, c).unwrap()
}

/// Where the cursor of the directional pad rests before the `i`-th symbol of `s` is typed.
pub open spec fn cursor_before(s: Seq<char>, i: int) -> (int, int) {
    if i == 0 {
        start_pos(Pad::Directional)
    } else {
        dir_pos(s[i - 1])
    }
}

/// `m` is what some shortest way from `from` to `to`, followed by the action
/// key, costs under `lower`, and no such way costs less.
pub open spec fn is_least(
    lower: spec_fn(Seq<char>) -> nat,
    pad: Pad,
    from: (int, int),
    to: (int, int),
    m: nat,
) -> bool {
    &&& exists|p: Seq<char>| #[trigger] is_candidate(pad, from, to, p) && lower(p.push(ACTION)) == m
    &&& forall|p: Seq<char>| #[trigger] is_candidate(pad, from, to, p) ==> m <= lower(p.push(ACTION))
}

/// The least cost under `lower` of moving a cursor from `from` to `to` on `pad`
/// by a shortest way and pressing the action key.
pub open spec fn least(lower: spec_fn(Seq<char>) -> nat, pad: Pad, from: (int, int), to: (int, int)) -> nat {
    choose|m: nat| is_least(lower, pad, from, to, m)
}

/// The keystrokes one level up for an arm on the directional pad to type `s`,
/// when typing a sequence one level up costs `lower`.
pub open spec fn typing_cost(lower: spec_fn(Seq<char>) -> nat, s: Seq<char>) -> nat
    decreases s.len(),
{
    if s.len() == 0 {
        0
    } else {
        typing_cost(lower, s.drop_last()) + least(
            lower,
            Pad::Directional,
            cursor_before(s, s.len() - 1),
            dir_pos(s.last()),
        )
    }
}

/// What typing a sequence on a directional pad costs the human, with `d`
/// further directional pads between them.
#[verifier::opaque]
pub open spec fn level_cost(d: nat) -> spec_fn(Seq<char>) -> nat
    decreases d,
{
    if d == 0 {
        |s: Seq<char>| s.len()
    } else {
        let lower = level_cost((d - 1) as nat);
        |s: Seq<char>| typing_cost(lower, s)
    }
}

/// The fewest keystrokes of the human for the arm below `d` directional pads
/// to type `s` on a directional pad.
pub open spec fn cost(d: nat, s: Seq<char>) -> nat {
    level_cost(d)(s)
}

/// The least cost, through `e` directional pads, of moving a cursor from
/// `from` to `to` on `pad` by a shortest way and pressing the action key.
pub open spec fn best(e: nat, pad: Pad, from: (int, int), to: (int, int)) -> nat {
    least(level_cost(e), pad, from, to)
}

/// Looks up where `c` sits on `pad`.
pub fn position_of(pad: Pad, c: char) -> (r: Option<PointT>)
    ensures
        match key_pos(pad, c) {
            Some(q) => r.is_some() && r.unwrap()@ == q,
            None => r.is_none(),
        },
{
    let (x, y): (i64, i64) = match pad {
        Pad::Numeric => {
            if c == '7' {
                (0, 0)
            } else if c == '8' {
                (1, 0)
            } else if c == '9' {
                (2, 0)
            } else if c == '4' {
                (0, 1)
            } else if c == '5' {
                (1, 1)
            } else if c == '6' {
                (2, 1)
            } else if c == '1' {
                (0, 2)
            } else if c == '2' {
                (1, 2)
            } else if c == '3' {
                (2, 2)
            } else if c == '0' {
                (1, 3)
            } else if c == ACTION {
                (2, 3)
            } else {
                return None;
            }
        },
        Pad::Directional => {
            if c == UP {
                (1, 0)
            } else if c == ACTION {
                (2, 0)
            } else if c == LEFT {
                (0, 1)
            } else if c == DOWN {
                (1, 1)
            } else if c == RIGHT {
                (2, 1)
            } else {
                return None;
            }
        },
    };
    Some(PointT { x, y })
}

/// Whether `p` is a cell of `pad` that holds a key.
pub fn is_valid(pad: Pad, p: &PointT) -> (r: bool)
    ensures
        r == on_pad(pad, p@),
{
    match pad {
        Pad::Numeric => 0 <= p.x && p.x < 3 && 0 <= p.y && p.y < 4 && !(p.x == 0 && p.y == 3),
        Pad::Directional => 0 <= p.x && p.x < 3 && 0 <= p.y && p.y < 2 && !(p.x == 0 && p.y
            == 0),
    }
}

/// The horizontal moves, then the vertical ones, that cover `delta`.
pub fn delta_to_path(delta: PointT) -> (r: Vec<char>)
    requires
        delta.x > i64::MIN,
        delta.y > i64::MIN,
    ensures
        r@ == moves_for(delta@.0, delta@.1),
{
    let mut ret: Vec<char> = Vec::new();
    let h = if delta.x > 0 {
        RIGHT
    } else {
        LEFT
    };
    let nx: i64 = if delta.x < 0 {
        -delta.x
    } else {
        delta.x
    };
    let mut k: i64 = 0;
    while k < nx
        invariant
            0 <= k <= nx,
            nx == abs(delta@.0),
            ret@ =~= run(h, k as int),
        decreases nx - k,
    {
        ret.push(h);
        k += 1;
    }
    let v = if delta.y > 0 {
        DOWN
    } else {
        UP
    };
    let ny: i64 = if delta.y < 0 {
        -delta.y
    } else {
        delta.y
    };
    let mut k: i64 = 0;
    while k < ny
        invariant
            0 <= k <= ny,
            ny == abs(delta@.1),
            ret@ =~= run(h, nx as int) + run(v, k as int),
        decreases ny - k,
    {
        ret.push(v);
        k += 1;
    }
    ret
}

/// Whether following `path` from `start` keeps the cursor on keys of `pad`.
pub fn is_path_valid(start: &PointT, path: &Vec<char>, pad: Pad) -> (r: bool)
    requires
        start.x > i64::MIN,
        start.x < i64::MAX,
        start.y > i64::MIN,
        start.y < i64::MAX,
    ensures
        r == path_valid(pad, start@, path@),
{
    let mut p = *start;
    let mut i: usize = 0;
    assert(path@.skip(0) =~= path@);
    while i < path.len()
        invariant
            0 <= i <= path.len(),
            path_valid(pad, start@, path@) == path_valid(pad, p@, path@.skip(i as int)),
            i == 0 ==> p == *start,
            i > 0 ==> on_pad(pad, p@),
            p.x > i64::MIN,
            p.x < i64::MAX,
            p.y > i64::MIN,
            p.y < i64::MAX,
        decreases path.len() - i,
    {
        let c = path[i];
        assert(path@.skip(i as int)[0] == c);
        assert(path@.skip(i as int).drop_first() =~= path@.skip(i + 1));
        if c == UP {
            p = PointT { x: p.x, y: p.y - 1 };
        } else if c == DOWN {
            p = PointT { x: p.x, y: p.y + 1 };
        } else if c == LEFT {
            p = PointT { x: p.x - 1, y: p.y };
        } else if c == RIGHT {
            p = PointT { x: p.x + 1, y: p.y };
        } else {
            return false;
        }
        if !is_valid(pad, &p) {
            return false;
        }
        i += 1;
    }
    assert(path@.skip(i as int).len() == 0);
    true
}

/// Relies on itertools' `Itertools::permutations` with `k` equal to the number
/// of items: it yields one vector per ordering of the items' positions, and a
/// single empty vector when there are no items.
#[verifier::external_body]
fn orderings(items: Vec<char>) -> (r: Vec<Vec<char>>)
    ensures
        forall|i: int|
            0 <= i < r.len() ==> (#[trigger] r[i])@.to_multiset() == items@.to_multiset(),
        forall|p: Seq<char>|
            #[trigger] p.to_multiset() == items@.to_multiset() ==> exists|i: int|
                0 <= i < r.len() && (#[trigger] r[i])@ == p,
{
    let len = items.len();
    items.into_iter().permutations(len).collect()
}

/// Every shortest way from `from` to `to` on `pad` that stays on keys, each
/// followed by the action key.
pub fn candidate_paths(pad: Pad, from: &PointT, to: &PointT) -> (r: Vec<Vec<char>>)
    requires
        on_pad(pad, from@),
        on_pad(pad, to@),
    ensures
        forall|i: int|
            0 <= i < r.len() ==> (#[trigger] r[i])@.len() > 0 && r[i]@.last() == ACTION
                && is_candidate(pad, from@, to@, r[i]@.drop_last()),
        forall|p: Seq<char>|
            #[trigger] is_candidate(pad, from@, to@, p) ==> exists|i: int|
                0 <= i < r.len() && (#[trigger] r[i])@ == p.push(ACTION),
        r.len() > 0,
        forall|i: int| 0 <= i < r.len() ==> path_valid(pad, from@, (#[trigger] r[i])@.drop_last()),
        from@ == to@ ==> forall|i: int| 0 <= i < r.len() ==> (#[trigger] r[i])@ == seq![ACTION],
{
    reveal(is_candidate);
    let path = delta_to_path(to.sub(*from));
    let ghost moves = path@;
    let perms = orderings(path);
    let mut out: Vec<Vec<char>> = Vec::new();
    let mut j: usize = 0;
    while j < perms.len()
        invariant
            0 <= j <= perms.len(),
            moves == moves_between(from@, to@),
            on_pad(pad, from@),
            forall|i: int| 0 <= i < perms.len() ==> (#[trigger] perms[i])@.to_multiset() == moves.to_multiset(),
            forall|i: int|
                0 <= i < out.len() ==> (#[trigger] out[i])@.len() > 0 && out[i]@.last() == ACTION
                    && is_candidate(pad, from@, to@, out[i]@.drop_last()),
            forall|q: int|
                0 <= q < j && #[trigger] path_valid(pad, from@, perms[q]@) ==> exists|i: int|
                    0 <= i < out.len() && (#[trigger] out[i])@ == perms[q]@.push(ACTION),
        decreases perms.len() - j,
    {
        let mut cand = perms[j].clone();
        assert(cand@ == perms[j as int]@);
        reveal(is_candidate);
        if is_path_valid(from, &cand, pad) {
            let ghost before = cand@;
            cand.push(ACTION);
            assert(cand@.drop_last() =~= before);
            let ghost old_out = out@;
            out.push(cand);
            assert forall|q: int|
                0 <= q < j + 1 && #[trigger] path_valid(pad, from@, perms[q]@) implies exists|i: int|
                    0 <= i < out.len() && (#[trigger] out[i])@ == perms[q]@.push(ACTION) by {
                if q == j {
                    assert(out[out.len() - 1]@ == perms[q]@.push(ACTION));
                } else {
                    let i = choose|i: int|
                        0 <= i < old_out.len() && (#[trigger] old_out[i])@ == perms[q]@.push(ACTION);
                    assert(out@[i] == old_out[i]);
                }
            }
        }
        j += 1;
    }
    assert forall|p: Seq<char>| #[trigger] is_candidate(pad, from@, to@, p) implies exists|i: int|
        0 <= i < out.len() && (#[trigger] out[i])@ == p.push(ACTION) by {
        assert(p.to_multiset() == moves.to_multiset());
        let q = choose|q: int| 0 <= q < perms.len() && (#[trigger] perms[q])@ == p;
        assert(path_valid(pad, from@, perms[q]@));
    }
    proof {
        lemma_candidate_list(pad, from@, to@, out@);
    }
    out
}

proof fn lemma_candidate_list(pad: Pad, from: (int, int), to: (int, int), out: Seq<Vec<char>>)
    requires
        on_pad(pad, from),
        on_pad(pad, to),
        forall|i: int|
            0 <= i < out.len() ==> (#[trigger] out[i])@.len() > 0 && out[i]@.last() == ACTION
                && is_candidate(pad, from, to, out[i]@.drop_last()),
        forall|p: Seq<char>|
            #[trigger] is_candidate(pad, from, to, p) ==> exists|i: int|
                0 <= i < out.len() && (#[trigger] out[i])@ == p.push(ACTION),
    ensures
        out.len() > 0,
        forall|i: int| 0 <= i < out.len() ==> path_valid(pad, from, (#[trigger] out[i])@.drop_last()),
        from == to ==> forall|i: int| 0 <= i < out.len() ==> (#[trigger] out[i])@ == seq![ACTION],
{
    lemma_candidate_exists(pad, from, to);
    let p = choose|p: Seq<char>| #[trigger] is_candidate(pad, from, to, p);
    assert(exists|i: int| 0 <= i < out.len() && (#[trigger] out[i])@ == p.push(ACTION));
    assert forall|i: int| 0 <= i < out.len() implies path_valid(pad, from, (#[trigger] out[i])@.drop_last()) by {
        lemma_candidate_stays_on_pad(pad, from, to, out[i]@.drop_last());
    }
    if from == to {
        assert forall|i: int| 0 <= i < out.len() implies (#[trigger] out[i])@ == seq![ACTION] by {
            lemma_no_op_transition(pad, from, out[i]@.drop_last());
            assert(out[i]@ =~= out[i]@.drop_last().push(ACTION));
        }
    }
}

/// The least cost is unique: any `m` with the defining property is `least`.
pub proof fn lemma_least_unique(
    lower: spec_fn(Seq<char>) -> nat,
    pad: Pad,
    from: (int, int),
    to: (int, int),
    m: nat,
)
    requires
        is_least(lower, pad, from, to, m),
    ensures
        least(lower, pad, from, to) == m,
{
    let b = least(lower, pad, from, to);
    assert(is_least(lower, pad, from, to, b));
    let pb = choose|p: Seq<char>| #[trigger] is_candidate(pad, from, to, p) && lower(p.push(ACTION)) == b;
    let pm = choose|p: Seq<char>| #[trigger] is_candidate(pad, from, to, p) && lower(p.push(ACTION)) == m;
    assert(m <= lower(pb.push(ACTION)));
    assert(b <= lower(pm.push(ACTION)));
}

/// Staying on a key takes no move: the only shortest way from a key to itself is empty.
pub proof fn lemma_no_op_transition(pad: Pad, p: (int, int), q: Seq<char>)
    ensures
        is_candidate(pad, p, p, q) <==> q == Seq::<char>::empty(),
{
    reveal(is_candidate);
    assert(moves_between(p, p) =~= Seq::<char>::empty());
    if is_candidate(pad, p, p, q) {
        q.to_multiset_ensures();
        Seq::<char>::empty().to_multiset_ensures();
        assert(q.len() == 0);
        assert(q =~= Seq::<char>::empty());
    }
    if q == Seq::<char>::empty() {
        assert(q.to_multiset() =~= Seq::<char>::empty().to_multiset());
    }
}

/// Pressing the key under the cursor again costs exactly what a fresh transition
/// from that key to itself costs: a single press of the action key one level up.
pub proof fn lemma_repress(e: nat, pad: Pad, p: (int, int))
    ensures
        best(e, pad, p, p) == cost(e, seq![ACTION]),
{
    let lower = level_cost(e);
    let empty = Seq::<char>::empty();
    lemma_no_op_transition(pad, p, empty);
    assert(empty.push(ACTION) =~= seq![ACTION]);
    assert forall|q: Seq<char>| #[trigger] is_candidate(pad, p, p, q) implies lower(seq![ACTION])
        <= lower(q.push(ACTION)) by {
        lemma_no_op_transition(pad, p, q);
    }
    assert(is_least(lower, pad, p, p, lower(seq![ACTION])));
    lemma_least_unique(lower, pad, p, p, lower(seq![ACTION]));
}

/// The cell `k` moves of kind `c` away from `p`.
pub open spec fn shift(p: (int, int), c: char, k: int) -> (int, int) {
    if c == UP {
        (p.0, p.1 - k)
    } else if c == DOWN {
        (p.0, p.1 + k)
    } else if c == LEFT {
        (p.0 - k, p.1)
    } else {
        (p.0 + k, p.1)
    }
}

proof fn lemma_run_valid(pad: Pad, p: (int, int), c: char, n: nat, rest: Seq<char>)
    requires
        is_move(c),
        forall|k: int| 1 <= k <= n ==> on_pad(pad, #[trigger] shift(p, c, k)),
        path_valid(pad, shift(p, c, n as int), rest),
    ensures
        path_valid(pad, p, run(c, n as int) + rest),
    decreases n,
{
    let s = run(c, n as int) + rest;
    if n == 0 {
        assert(s =~= rest);
        assert(shift(p, c, 0) == p);
    } else {
        let q = step(p, c);
        assert(q == shift(p, c, 1));
        assert forall|k: int| 1 <= k <= n - 1 implies on_pad(pad, #[trigger] shift(q, c, k)) by {
            assert(shift(q, c, k) == shift(p, c, k + 1));
        }
        assert(shift(q, c, (n - 1) as int) == shift(p, c, n as int));
        lemma_run_valid(pad, q, c, (n - 1) as nat, rest);
        assert(s[0] == c);
        assert(s.drop_first() =~= run(c, n - 1) + rest);
    }
}

/// Between two keys of a pad there is always a shortest way that stays on keys.
pub proof fn lemma_candidate_exists(pad: Pad, from: (int, int), to: (int, int))
    requires
        on_pad(pad, from),
        on_pad(pad, to),
    ensures
        exists|p: Seq<char>| #[trigger] is_candidate(pad, from, to, p),
{
    reveal(is_candidate);
    let dx = to.0 - from.0;
    let dy = to.1 - from.1;
    let h = if dx > 0 { RIGHT } else { LEFT };
    let v = if dy > 0 { DOWN } else { UP };
    let gap_row: int = match pad {
        Pad::Numeric => 3,
        Pad::Directional => 0,
    };
    let empty = Seq::<char>::empty();
    if from.1 == gap_row && to.0 == 0 {
        let corner = (from.0, to.1);
        assert(shift(from, v, abs(dy)) == corner);
        assert(shift(corner, h, abs(dx)) == to);
        lemma_run_valid(pad, corner, h, abs(dx) as nat, empty);
        assert(run(h, abs(dx)) + empty =~= run(h, abs(dx)));
        lemma_run_valid(pad, from, v, abs(dy) as nat, run(h, abs(dx)));
        let p = run(v, abs(dy)) + run(h, abs(dx));
        vstd::seq_lib::lemma_seq_union_to_multiset_commutative(run(v, abs(dy)), run(h, abs(dx)));
        assert(run(h, abs(dx)) + run(v, abs(dy)) =~= moves_between(from, to));
        assert(is_candidate(pad, from, to, p));
    } else {
        let corner = (to.0, from.1);
        assert(shift(from, h, abs(dx)) == corner);
        assert(shift(corner, v, abs(dy)) == to);
        lemma_run_valid(pad, corner, v, abs(dy) as nat, empty);
        assert(run(v, abs(dy)) + empty =~= run(v, abs(dy)));
        lemma_run_valid(pad, from, h, abs(dx) as nat, run(v, abs(dy)));
        let p = run(h, abs(dx)) + run(v, abs(dy));
        assert(p =~= moves_between(from, to));
        assert(path_valid(pad, from, p));
        assert(is_candidate(pad, from, to, p));
    }
}

proof fn lemma_cost_unfold(d: nat, s: Seq<char>)
    requires
        d > 0,
    ensures
        cost(d, s) == typing_cost(level_cost((d - 1) as nat), s),
{
    reveal(level_cost);
}

/// With no pad in between, the human types the sequence directly: one keystroke per symbol.
pub proof fn lemma_base_case(s: Seq<char>)
    ensures
        cost(0, s) == s.len(),
{
    reveal(level_cost);
}

/// Typing one more symbol adds the least cost of reaching its key from the previous one.
proof fn lemma_cost_prefix(d: nat, s: Seq<char>, i: int)
    requires
        d > 0,
        0 <= i < s.len(),
    ensures
        cost(d, s.take(i + 1)) == cost(d, s.take(i)) + best(
            (d - 1) as nat,
            Pad::Directional,
            cursor_before(s, i),
            dir_pos(s[i]),
        ),
{
    let t = s.take(i + 1);
    lemma_cost_unfold(d, t);
    lemma_cost_unfold(d, s.take(i));
    assert(t.drop_last() =~= s.take(i));
    assert(cursor_before(t, i) == cursor_before(s, i));
}

/// Typing more never costs less.
proof fn lemma_cost_prefix_le(d: nat, s: Seq<char>, i: int)
    requires
        0 <= i <= s.len(),
    ensures
        cost(d, s.take(i)) <= cost(d, s),
    decreases s.len() - i,
{
    if i == s.len() {
        assert(s.take(i) =~= s);
    } else if d == 0 {
        lemma_base_case(s);
        lemma_base_case(s.take(i));
    } else {
        lemma_cost_prefix(d, s, i);
        lemma_cost_prefix_le(d, s, i + 1);
    }
}

/// How many directional pads a signed depth stands for.
pub open spec fn levels(depth: i32) -> nat {
    if depth <= 0 {
        0
    } else {
        depth as nat
    }
}

/// The digit, from 1 to 5, that stands for a directional key in a memo key.
pub open spec fn key_digit(c: char) -> nat {
    if c == UP {
        1
    } else if c == DOWN {
        2
    } else if c == LEFT {
        3
    } else if c == RIGHT {
        4
    } else {
        5
    }
}

/// `s` read as a number in base six, one digit per key.
pub open spec fn seq_code(s: Seq<char>) -> nat
    decreases s.len(),
{
    if s.len() == 0 {
        0
    } else {
        seq_code(s.drop_last()) * 6 + key_digit(s.last())
    }
}

/// The number under which the cost of `s` through `d` pads is remembered.
pub open spec fn memo_code(d: nat, s: Seq<char>) -> nat {
    seq_code(s) * 64 + d
}

pub open spec fn memo_slot(d: nat, s: Seq<char>) -> u64 {
    memo_code(d, s) as u64
}

proof fn lemma_digits(q1: nat, r1: nat, q2: nat, r2: nat, b: nat)
    requires
        r1 < b,
        r2 < b,
        q1 * b + r1 == q2 * b + r2,
    ensures
        q1 == q2,
        r1 == r2,
{
    if q1 < q2 {
        assert(q1 * b + b <= q2 * b) by (nonlinear_arith)
            requires
                q1 < q2,
        ;
    } else if q2 < q1 {
        assert(q2 * b + b <= q1 * b) by (nonlinear_arith)
            requires
                q2 < q1,
        ;
    }
}

proof fn lemma_seq_code_injective(a: Seq<char>, b: Seq<char>)
    requires
        all_dir_keys(a),
        all_dir_keys(b),
        seq_code(a) == seq_code(b),
    ensures
        a == b,
    decreases a.len(),
{
    if a.len() == 0 || b.len() == 0 {
        assert(a.len() == 0 && b.len() == 0);
        assert(a =~= b);
    } else {
        let a1 = a.drop_last();
        let b1 = b.drop_last();
        assert(key_digit(a.last()) < 6 && key_digit(b.last()) < 6);
        lemma_digits(seq_code(a1), key_digit(a.last()), seq_code(b1), key_digit(b.last()), 6);
        assert(all_dir_keys(a1) && all_dir_keys(b1)) by {
            assert forall|i: int| 0 <= i < a1.len() implies is_dir_key(#[trigger] a1[i]) by {
                assert(a1[i] == a[i]);
            }
            assert forall|i: int| 0 <= i < b1.len() implies is_dir_key(#[trigger] b1[i]) by {
                assert(b1[i] == b[i]);
            }
        }
        lemma_seq_code_injective(a1, b1);
        assert(is_dir_key(a[a.len() - 1]) && is_dir_key(b[b.len() - 1]));
        assert(a.last() == b.last());
        assert(a =~= b1.push(b.last()));
        assert(b =~= b1.push(b.last()));
    }
}

proof fn lemma_memo_slot_injective(d1: nat, s1: Seq<char>, d2: nat, s2: Seq<char>)
    requires
        d1 < 64,
        d2 < 64,
        all_dir_keys(s1),
        all_dir_keys(s2),
        memo_code(d1, s1) <= u64::MAX,
        memo_code(d2, s2) <= u64::MAX,
        memo_slot(d1, s1) == memo_slot(d2, s2),
    ensures
        d1 == d2,
        s1 == s2,
{
    lemma_digits(seq_code(s1), d1, seq_code(s2), d2, 64);
    lemma_seq_code_injective(s1, s2);
}

/// Costs already worked out, by depth and sequence.
pub struct Memo {
    table: HashMap<u64, u64>,
}

impl Memo {
    /// Every remembered value is the true cost of its depth and sequence.
    pub closed spec fn wf(&self) -> bool {
        forall|d: nat, s: Seq<char>|
            d < 64 && all_dir_keys(s) && memo_code(d, s) <= u64::MAX
                && #[trigger] self.table@.contains_key(memo_slot(d, s)) ==> self.table@[memo_slot(
                d,
                s,
            )] == cost(d, s)
    }

    /// An empty memo.
    pub fn new() -> (r: Memo)
        ensures
            r.wf(),
    {
        Memo { table: HashMap::new() }
    }
}

/// The memo slot of `path` at `depth`, where memoising it is possible.
fn slot_of(depth: i32, path: &Vec<char>) -> (r: Option<u64>)
    requires
        all_dir_keys(path@),
    ensures
        match r {
            Some(k) => 0 <= depth < 64 && memo_code(depth as nat, path@) <= u64::MAX && k
                == memo_slot(depth as nat, path@),
            None => true,
        },
{
    if depth < 0 || depth >= 64 {
        return None;
    }
    let mut code: u64 = 0;
    let mut i: usize = 0;
    while i < path.len()
        invariant
            0 <= i <= path.len(),
            code == seq_code(path@.take(i as int)),
        decreases path.len() - i,
    {
        let c = path[i];
        let digit: u64 = if c == UP {
            1
        } else if c == DOWN {
            2
        } else if c == LEFT {
            3
        } else if c == RIGHT {
            4
        } else {
            5
        };
        if code > (u64::MAX - 5) / 6 {
            return None;
        }
        assert(path@.take(i + 1).drop_last() =~= path@.take(i as int));
        code = code * 6 + digit;
        i += 1;
    }
    assert(path@.take(i as int) =~= path@);
    if code > (u64::MAX - 63) / 64 {
        return None;
    }
    Some(code * 64 + depth as u64)
}

/// The fewest keystrokes of the human, through `depth` directional pads, for
/// moving a cursor from `from` to `to` on `pad` and pressing the key there.
/// `None` where that count does not fit in a `u64`.
pub fn cheapest(memo: &mut Memo, depth: i32, pad: Pad, from: &PointT, to: &PointT) -> (r: Option<u64>)
    requires
        old(memo).wf(),
        depth >= 0,
        on_pad(pad, from@),
        on_pad(pad, to@),
    ensures
        final(memo).wf(),
        r == fit(best(depth as nat, pad, from@, to@)),
    decreases 2 * depth + 1,
{
    let ghost d = depth as nat;
    let cands = candidate_paths(pad, from, to);
    let mut min: Option<u64> = None;
    let ghost mut gmin: nat = 0;
    let mut j: usize = 0;
    while j < cands.len()
        invariant
            memo.wf(),
            0 <= j <= cands.len(),
            d == depth as nat,
            depth >= 0,
            j > 0 ==> exists|k: int| 0 <= k < j && cost(d, #[trigger] cands[k]@) == gmin,
            forall|k: int| 0 <= k < j ==> gmin <= cost(d, #[trigger] cands[k]@),
            min == (if j == 0 {
                None
            } else {
                fit(gmin)
            }),
            forall|i: int|
                0 <= i < cands.len() ==> (#[trigger] cands[i])@.len() > 0 && cands[i]@.last()
                    == ACTION && is_candidate(pad, from@, to@, cands[i]@.drop_last()),
            forall|p: Seq<char>|
                #[trigger] is_candidate(pad, from@, to@, p) ==> exists|i: int|
                    0 <= i < cands.len() && (#[trigger] cands[i])@ == p.push(ACTION),
        decreases cands.len() - j,
    {
        let cand = cands[j].clone();
        assert(cand@ == cands[j as int]@);
        proof {
            lemma_candidate_keys(pad, from@, to@, cand@);
        }
        let v = rec_dir(memo, depth, cand);
        proof {
            if j == 0 || cost(d, cands[j as int]@) < gmin {
                gmin = cost(d, cands[j as int]@);
            }
        }
        min = match (min, v) {
            (None, _) => v,
            (Some(m), None) => Some(m),
            (Some(m), Some(x)) => if x < m {
                Some(x)
            } else {
                Some(m)
            },
        };
        j += 1;
    }
    proof {
        lemma_least_of_list(d, pad, from@, to@, cands@, gmin);
    }
    min
}

proof fn lemma_path_moves(pad: Pad, from: (int, int), p: Seq<char>, i: int)
    requires
        path_valid(pad, from, p),
        0 <= i < p.len(),
    ensures
        is_move(p[i]),
    decreases i,
{
    if i > 0 {
        lemma_path_moves(pad, step(from, p[0]), p.drop_first(), i - 1);
        assert(p.drop_first()[i - 1] == p[i]);
    }
}

/// The fewest keystrokes of the human for the arm below `depth` directional
/// pads (none where `depth <= 0`) to type `path` on a directional pad.
/// `None` where that count does not fit in a `u64`. The answer does not depend
/// on what `memo` already holds; what it learns is added to `memo`.
pub fn rec_dir(memo: &mut Memo, depth: i32, path: Vec<char>) -> (r: Option<u64>)
    requires
        old(memo).wf(),
        all_dir_keys(path@),
    ensures
        final(memo).wf(),
        r == fit(cost(levels(depth), path@)),
    decreases 2 * levels(depth),
{
    let ghost d = levels(depth);
    let slot = slot_of(depth, &path);
    if let Some(k) = slot {
        if let Some(v) = memo.table.get(&k) {
            return Some(*v);
        }
    }
    let result: u64;
    if depth <= 0 {
        proof {
            lemma_base_case(path@);
        }
        result = path.len() as u64;
    } else {
        let mut total: u64 = 0;
        let mut cursor = PointT { x: 2, y: 0 };
        let mut i: usize = 0;
        proof {
            lemma_cost_unfold(d, path@.take(0));
        }
        while i < path.len()
            invariant
                memo.wf(),
                0 <= i <= path.len(),
                depth > 0,
                d == depth as nat,
                all_dir_keys(path@),
                total == cost(d, path@.take(i as int)),
                cursor@ == cursor_before(path@, i as int),
                on_pad(Pad::Directional, cursor@),
            decreases path.len() - i,
        {
            let c = path[i];
            assert(is_dir_key(path@[i as int]));
            let target = match position_of(Pad::Directional, c) {
                Some(t) => t,
                None => {
                    return None;
                },
            };
            let step_cost = if i > 0 && path[i - 1] == c {
                proof {
                    lemma_repress((d - 1) as nat, Pad::Directional, cursor@);
                }
                let press = vec![ACTION];
                assert(press@ =~= seq![ACTION]);
                rec_dir(memo, depth - 1, press)
            } else {
                cheapest(memo, depth - 1, Pad::Directional, &cursor, &target)
            };
            proof {
                lemma_cost_prefix(d, path@, i as int);
                lemma_cost_prefix_le(d, path@, i + 1);
            }
            match step_cost {
                None => {
                    return None;
                },
                Some(v) => {
                    if total > u64::MAX - v {
                        return None;
                    }
                    total = total + v;
                },
            }
            cursor = target;
            i += 1;
        }
        assert(path@.take(i as int) =~= path@);
        result = total;
    }
    if let Some(k) = slot {
        let ghost before = memo.table@;
        memo.table.insert(k, result);
        proof {
            assert forall|d2: nat, s2: Seq<char>|
                d2 < 64 && all_dir_keys(s2) && memo_code(d2, s2) <= u64::MAX
                    && #[trigger] memo.table@.contains_key(memo_slot(d2, s2)) implies memo.table@[memo_slot(
                d2,
                s2,
            )] == cost(d2, s2) by {
                if memo_slot(d2, s2) == k {
                    lemma_memo_slot_injective(d2, s2, d, path@);
                } else {
                    assert(before.contains_key(memo_slot(d2, s2)));
                }
            }
        }
    }
    Some(result)
}

proof fn lemma_candidate_keys(pad: Pad, from: (int, int), to: (int, int), c: Seq<char>)
    requires
        c.len() > 0,
        c.last() == ACTION,
        is_candidate(pad, from, to, c.drop_last()),
    ensures
        all_dir_keys(c),
{
    reveal(is_candidate);
    let p = c.drop_last();
    assert forall|i: int| 0 <= i < c.len() implies is_dir_key(#[trigger] c[i]) by {
        if i < c.len() - 1 {
            assert(p[i] == c[i]);
            lemma_path_moves(pad, from, p, i);
        }
    }
}

/// The least cost over a list that holds every shortest way, each followed by
/// the action key, is the least cost over all shortest ways.
proof fn lemma_least_of_list(
    d: nat,
    pad: Pad,
    from: (int, int),
    to: (int, int),
    cands: Seq<Vec<char>>,
    gmin: nat,
)
    requires
        on_pad(pad, from),
        on_pad(pad, to),
        forall|i: int|
            0 <= i < cands.len() ==> (#[trigger] cands[i])@.len() > 0 && cands[i]@.last()
                == ACTION && is_candidate(pad, from, to, cands[i]@.drop_last()),
        forall|p: Seq<char>|
            #[trigger] is_candidate(pad, from, to, p) ==> exists|i: int|
                0 <= i < cands.len() && (#[trigger] cands[i])@ == p.push(ACTION),
        cands.len() > 0 ==> exists|k: int| 0 <= k < cands.len() && cost(d, #[trigger] cands[k]@) == gmin,
        forall|k: int| 0 <= k < cands.len() ==> gmin <= cost(d, #[trigger] cands[k]@),
    ensures
        cands.len() > 0,
        best(d, pad, from, to) == gmin,
{
    lemma_candidate_exists(pad, from, to);
    let p = choose|p: Seq<char>| #[trigger] is_candidate(pad, from, to, p);
    let i0 = choose|i: int| 0 <= i < cands.len() && (#[trigger] cands[i])@ == p.push(ACTION);
    let k = choose|k: int| 0 <= k < cands.len() && cost(d, #[trigger] cands[k]@) == gmin;
    let pk = cands[k]@.drop_last();
    assert(cands[k]@ =~= pk.push(ACTION));
    assert(is_candidate(pad, from, to, pk));
    assert forall|q: Seq<char>| #[trigger] is_candidate(pad, from, to, q) implies gmin <= level_cost(
        d,
    )(q.push(ACTION)) by {
        let i = choose|i: int| 0 <= i < cands.len() && (#[trigger] cands[i])@ == q.push(ACTION);
        assert(gmin <= cost(d, cands[i]@));
    }
    assert(is_least(level_cost(d), pad, from, to, gmin));
    lemma_least_unique(level_cost(d), pad, from, to, gmin);
}

/// Why a code could not be costed.
#[derive(PartialEq, Eq, Clone, Copy, Debug, Structural)]
pub enum KeypadError {
    /// A symbol has no key on the pad it is typed on.
    UnknownSymbol,
    /// The count does not fit in a `u64`.
    Overflow,
}

/// Every symbol of `code` is a key of the numeric pad.
pub open spec fn on_numeric(code: Seq<char>) -> bool {
    forall|i: int| 0 <= i < code.len() ==> (#[trigger] key_pos(Pad::Numeric, code[i])) is Some
}

/// The numeric-pad cell of a numeric key.
pub open spec fn num_pos(c: char) -> (int, int) {
    key_pos(Pad::Numeric, c).unwrap()
}

/// Where the arm on the numeric pad rests before the `i`-th symbol of `code` is typed.
pub open spec fn num_cursor_before(code: Seq<char>, i: int) -> (int, int) {
    if i == 0 {
        start_pos(Pad::Numeric)
    } else {
        num_pos(code[i - 1])
    }
}

/// The fewest keystrokes of the human, through `d` directional pads, for the
/// arm on the numeric pad to type `code`.
pub open spec fn code_cost(d: nat, code: Seq<char>) -> nat
    decreases code.len(),
{
    if code.len() == 0 {
        0
    } else {
        code_cost(d, code.drop_last()) + best(
            d,
            Pad::Numeric,
            num_cursor_before(code, code.len() - 1),
            num_pos(code.last()),
        )
    }
}

proof fn lemma_code_cost_prefix(d: nat, s: Seq<char>, i: int)
    requires
        0 <= i < s.len(),
    ensures
        code_cost(d, s.take(i + 1)) == code_cost(d, s.take(i)) + best(
            d,
            Pad::Numeric,
            num_cursor_before(s, i),
            num_pos(s[i]),
        ),
{
    let t = s.take(i + 1);
    assert(t.drop_last() =~= s.take(i));
    assert(num_cursor_before(t, i) == num_cursor_before(s, i));
}

proof fn lemma_code_cost_prefix_le(d: nat, s: Seq<char>, i: int)
    requires
        0 <= i <= s.len(),
    ensures
        code_cost(d, s.take(i)) <= code_cost(d, s),
    decreases s.len() - i,
{
    if i == s.len() {
        assert(s.take(i) =~= s);
    } else {
        lemma_code_cost_prefix(d, s, i);
        lemma_code_cost_prefix_le(d, s, i + 1);
    }
}

/// The outcome of costing `code` through `d` directional pads.
pub open spec fn code_outcome(d: nat, code: Seq<char>) -> Result<u64, KeypadError> {
    if !on_numeric(code) {
        Err(KeypadError::UnknownSymbol)
    } else if code_cost(d, code) > u64::MAX {
        Err(KeypadError::Overflow)
    } else {
        Ok(code_cost(d, code) as u64)
    }
}

/// The fewest keystrokes of the human for the arm on the numeric pad to type
/// `code`, with `depth` directional pads (none where `depth <= 0`) above the
/// one that drives that arm.
pub fn solve_line(code: &str, depth: i32) -> (r: Result<u64, KeypadError>)
    ensures
        r == code_outcome(levels(depth), code@),
{
    let symbols = chars_of(code);
    code_keystrokes(&symbols, depth)
}

/// `solve_line` on a code given as its symbols.
pub fn code_keystrokes(code: &Vec<char>, depth: i32) -> (r: Result<u64, KeypadError>)
    ensures
        r == code_outcome(levels(depth), code@),
{
    let symbols = code;
    let ghost s = code@;
    let ghost d = levels(depth);
    let lower: i32 = if depth < 0 {
        0
    } else {
        depth
    };
    let mut k: usize = 0;
    while k < symbols.len()
        invariant
            0 <= k <= symbols.len(),
            symbols@ == s,
            s == code@,
            forall|i: int| 0 <= i < k ==> (#[trigger] key_pos(Pad::Numeric, s[i])) is Some,
        decreases symbols.len() - k,
    {
        if position_of(Pad::Numeric, symbols[k]).is_none() {
            assert(key_pos(Pad::Numeric, s[k as int]) is None);
            assert(!on_numeric(s));
            assert(code_outcome(d, s) == Err::<u64, KeypadError>(KeypadError::UnknownSymbol));
            return Err(KeypadError::UnknownSymbol);
        }
        k += 1;
    }
    let mut memo = Memo::new();
    let mut total: u64 = 0;
    let mut cursor = PointT { x: 2, y: 3 };
    let mut i: usize = 0;
    while i < symbols.len()
        invariant
            memo.wf(),
            0 <= i <= symbols.len(),
            symbols@ == s,
            s == code@,
            d == levels(depth),
            on_numeric(s),
            lower as nat == d,
            lower >= 0,
            total == code_cost(d, s.take(i as int)),
            cursor@ == num_cursor_before(s, i as int),
            on_pad(Pad::Numeric, cursor@),
        decreases symbols.len() - i,
    {
        let target = match position_of(Pad::Numeric, symbols[i]) {
            Some(t) => t,
            None => {
                return Err(KeypadError::UnknownSymbol);
            },
        };
        let step_cost = cheapest(&mut memo, lower, Pad::Numeric, &cursor, &target);
        proof {
            lemma_code_cost_prefix(d, s, i as int);
            lemma_code_cost_prefix_le(d, s, i + 1);
        }
        assert(target@ == num_pos(s[i as int]));
        match step_cost {
            None => {
                assert(code_cost(d, s) > u64::MAX);
                return Err(KeypadError::Overflow);
            },
            Some(v) => {
                if total > u64::MAX - v {
                    assert(code_cost(d, s) > u64::MAX);
                    return Err(KeypadError::Overflow);
                }
                total = total + v;
            },
        }
        cursor = target;
        i += 1;
    }
    assert(s.take(i as int) =~= s);
    Ok(total)
}

/// The number written by the decimal digits of `s`, other symbols skipped.
pub open spec fn code_value(s: Seq<char>) -> nat
    decreases s.len(),
{
    if s.len() == 0 {
        0
    } else if '0' <= s.last() <= '9' {
        code_value(s.drop_last()) * 10 + (s.last() as u32 - 48u32) as nat
    } else {
        code_value(s.drop_last())
    }
}

/// The number written by the digits of `code`, or `None` where it does not fit in a `u64`.
pub fn digits_value(code: &Vec<char>) -> (r: Option<u64>)
    ensures
        r == fit(code_value(code@)),
{
    let mut v: u64 = 0;
    let mut i: usize = 0;
    let mut big = false;
    while i < code.len()
        invariant
            0 <= i <= code.len(),
            !big ==> v == code_value(code@.take(i as int)),
            big ==> code_value(code@.take(i as int)) > u64::MAX,
        decreases code.len() - i,
    {
        let c = code[i];
        assert(code@.take(i + 1).drop_last() =~= code@.take(i as int));
        assert(code@.take(i + 1).last() == c);
        if '0' <= c && c <= '9' {
            let digit = (c as u32 - '0' as u32) as u64;
            if big || v > (u64::MAX - digit) / 10 {
                big = true;
            } else {
                v = v * 10 + digit;
            }
        }
        i += 1;
    }
    assert(code@.take(i as int) =~= code@);
    if big {
        None
    } else {
        Some(v)
    }
}

/// The sum over `lines` of each code's number times its fewest keystrokes.
pub open spec fn score(d: nat, lines: Seq<Seq<char>>) -> nat
    decreases lines.len(),
{
    if lines.len() == 0 {
        0
    } else {
        score(d, lines.drop_last()) + code_value(lines.last()) * code_cost(d, lines.last())
    }
}

/// The outcome of scoring the codes of `text` through `d` directional pads.
pub open spec fn solve_outcome(d: nat, text: Seq<char>) -> Result<u64, KeypadError> {
    let lines = lines_of(text);
    if exists|i: int| 0 <= i < lines.len() && !on_numeric(#[trigger] lines[i]) {
        Err(KeypadError::UnknownSymbol)
    } else if exists|i: int| 0 <= i < lines.len() && code_value(#[trigger] lines[i]) > u64::MAX {
        Err(KeypadError::Overflow)
    } else if score(d, lines) > u64::MAX {
        Err(KeypadError::Overflow)
    } else {
        Ok(score(d, lines) as u64)
    }
}

proof fn lemma_score_prefix_le(d: nat, lines: Seq<Seq<char>>, i: int)
    requires
        0 <= i <= lines.len(),
    ensures
        score(d, lines.take(i)) <= score(d, lines),
    decreases lines.len() - i,
{
    if i < lines.len() {
        assert(lines.take(i + 1).drop_last() =~= lines.take(i));
        lemma_score_prefix_le(d, lines, i + 1);
    } else {
        assert(lines.take(i) =~= lines);
    }
}

/// The sum, over the codes of `input` (one per line), of the number that each
/// code's digits write times the fewest keystrokes of the human for that code
/// with `depth` directional pads (none where `depth <= 0`) in the chain.
pub fn solve(input: &str, depth: i32) -> (r: Result<u64, KeypadError>)
    ensures
        r == solve_outcome(levels(depth), input@),
{
    let text = chars_of(input);
    let lines = text_lines(&text);
    let ghost ls = lines_of(input@);
    let ghost d = levels(depth);
    let mut k: usize = 0;
    while k < lines.len()
        invariant
            0 <= k <= lines.len(),
            lines.len() == ls.len(),
            forall|i: int| 0 <= i < lines.len() ==> (#[trigger] lines[i])@ == ls[i],
            forall|i: int| 0 <= i < k ==> on_numeric(#[trigger] ls[i]),
            ls == lines_of(input@),
        decreases lines.len() - k,
    {
        if let Err(e) = code_keystrokes(&lines[k], 0) {
            if e == KeypadError::UnknownSymbol {
                assert(!on_numeric(ls[k as int]));
                assert(exists|i: int| 0 <= i < ls.len() && !on_numeric(#[trigger] ls[i]));
                return Err(KeypadError::UnknownSymbol);
            }
        }
        k += 1;
    }
    let mut values: Vec<u64> = Vec::new();
    let mut k: usize = 0;
    while k < lines.len()
        invariant
            0 <= k <= lines.len(),
            values.len() == k,
            lines.len() == ls.len(),
            forall|i: int| 0 <= i < lines.len() ==> (#[trigger] lines[i])@ == ls[i],
            forall|i: int| 0 <= i < k ==> values[i] == code_value(#[trigger] ls[i]),
            forall|i: int| 0 <= i < lines.len() ==> on_numeric(#[trigger] ls[i]),
            ls == lines_of(input@),
        decreases lines.len() - k,
    {
        match digits_value(&lines[k]) {
            Some(v) => values.push(v),
            None => {
                assert(code_value(ls[k as int]) > u64::MAX);
                assert(exists|i: int| 0 <= i < ls.len() && code_value(#[trigger] ls[i]) > u64::MAX);
                return Err(KeypadError::Overflow);
            },
        }
        k += 1;
    }
    let mut total: u64 = 0;
    let mut k: usize = 0;
    while k < lines.len()
        invariant
            0 <= k <= lines.len(),
            values.len() == lines.len(),
            lines.len() == ls.len(),
            d == levels(depth),
            ls == lines_of(input@),
            forall|i: int| 0 <= i < lines.len() ==> (#[trigger] lines[i])@ == ls[i],
            forall|i: int| 0 <= i < lines.len() ==> values[i] == code_value(#[trigger] ls[i]),
            forall|i: int| 0 <= i < lines.len() ==> on_numeric(#[trigger] ls[i]),
            total == score(d, ls.take(k as int)),
        decreases lines.len() - k,
    {
        let v = values[k];
        assert(ls.take(k + 1).drop_last() =~= ls.take(k as int));
        assert(ls.take(k + 1).last() == ls[k as int]);
        proof {
            lemma_score_prefix_le(d, ls, k + 1);
        }
        if v == 0 {
            assert(code_value(ls[k as int]) * code_cost(d, ls[k as int]) == 0);
        } else {
            let c = match code_keystrokes(&lines[k], depth) {
                Ok(c) => c,
                Err(_) => {
                    assert(code_value(ls[k as int]) * code_cost(d, ls[k as int]) > u64::MAX) by (nonlinear_arith)
                        requires
                            code_value(ls[k as int]) >= 1,
                            code_cost(d, ls[k as int]) > u64::MAX,
                    ;
                    return Err(KeypadError::Overflow);
                },
            };
            if c != 0 && v > u64::MAX / c {
                assert(v * c > u64::MAX) by (nonlinear_arith)
                    requires
                        c > 0,
                        v > u64::MAX / c,
                ;
                return Err(KeypadError::Overflow);
            }
            assert(v * c <= u64::MAX) by (nonlinear_arith)
                requires
                    c == 0 || v <= u64::MAX / c,
            ;
            let p = v * c;
            assert(p == code_value(ls[k as int]) * code_cost(d, ls[k as int]));
            if total > u64::MAX - p {
                return Err(KeypadError::Overflow);
            }
            total = total + p;
        }
        k += 1;
    }
    assert(ls.take(k as int) =~= ls);
    assert(!exists|i: int| 0 <= i < ls.len() && !on_numeric(#[trigger] ls[i]));
    assert(!exists|i: int| 0 <= i < ls.len() && code_value(#[trigger] ls[i]) > u64::MAX);
    Ok(total)
}

/// Every shortest way that `candidate_paths` may hand out keeps the cursor on
/// keys at every step, starting from `from`.
pub proof fn lemma_candidate_stays_on_pad(pad: Pad, from: (int, int), to: (int, int), p: Seq<char>)
    requires
        is_candidate(pad, from, to, p),
    ensures
        path_valid(pad, from, p),
        p.len() == moves_between(from, to).len(),
{
    reveal(is_candidate);
    p.to_multiset_ensures();
    moves_between(from, to).to_multiset_ensures();
}

} // verus!
