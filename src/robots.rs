//! Robots walking across a wrapping floor, and the safety factor of their
//! spread over the four quadrants.
use crate::text::{decimal_value, is_decimal, is_digits, lines_of, parse_decimal, split_on, split_pieces, text_lines};
use crate::utils::{chars_of, PointT, RectT};
use vstd::prelude::*;

verus! {

/// A robot: where it starts, and how far it moves each second.
pub struct Robot {
    pub position: PointT,
    pub velocity: PointT,
    pub bounds: RectT,
}

/// All robots on one floor.
pub struct Day {
    pub bounds: RectT,
    pub robots: Vec<Robot>,
}

/// A character that may belong to a signed decimal number.
pub open spec fn is_num_char(c: char) -> bool {
    ('0' <= c && c <= '9') || c == '-'
}

/// The longest tail of `s` made of digits and minus signs.
pub open spec fn number_tail(s: Seq<char>) -> Seq<char>
    decreases s.len(),
{
    if s.len() > 0 && is_num_char(s.last()) {
        number_tail(s.drop_last()).push(s.last())
    } else {
        Seq::empty()
    }
}

/// The number that `s` writes: digits, after an optional minus sign; `None`
/// where `s` is not such a number or it does not fit in an `i64`.
pub open spec fn signed_value(s: Seq<char>) -> Option<i64> {
    if s.len() > 0 && s[0] == '-' {
        if is_decimal(s.drop_first()) && decimal_value(s.drop_first()) <= 0x8000_0000_0000_0000 {
            Some((-decimal_value(s.drop_first())) as i64)
        } else {
            None
        }
    } else if is_decimal(s) && decimal_value(s) <= i64::MAX {
        Some(decimal_value(s) as i64)
    } else {
        None
    }
}

/// The numbers that the tails of the pieces write, pieces without one skipped.
pub open spec fn values_of(pieces: Seq<Seq<char>>) -> Seq<i64>
    decreases pieces.len(),
{
    if pieces.len() == 0 {
        Seq::empty()
    } else {
        let prev = values_of(pieces.drop_last());
        match signed_value(number_tail(pieces.last())) {
            Some(v) => prev.push(v),
            None => prev,
        }
    }
}

/// A point written as two comma-separated numbers, each possibly after a label.
pub open spec fn point_of(part: Seq<char>) -> Option<PointT> {
    let vs = values_of(split_pieces(part, ','));
    if vs.len() == 2 {
        Some(PointT { x: vs[0], y: vs[1] })
    } else {
        None
    }
}

/// A robot line: a position and a velocity separated by one space.
pub open spec fn robot_line(line: Seq<char>) -> Option<(PointT, PointT)> {
    let parts = split_pieces(line, ' ');
    if parts.len() != 2 {
        None
    } else {
        match (point_of(parts[0]), point_of(parts[1])) {
            (Some(p), Some(v)) => Some((p, v)),
            _ => None,
        }
    }
}

fn tail_of(s: &Vec<char>) -> (r: Vec<char>)
    ensures
        r@ == number_tail(s@),
{
    let n = s.len();
    let mut j: usize = n;
    assert(s@.take(n as int) =~= s@);
    assert(s@.subrange(n as int, n as int) =~= Seq::<char>::empty());
    while j > 0 && (('0' <= s[j - 1] && s[j - 1] <= '9') || s[j - 1] == '-')
        invariant
            0 <= j <= n,
            n == s@.len(),
            number_tail(s@) == number_tail(s@.take(j as int)) + s@.subrange(j as int, n as int),
        decreases j,
    {
        let ghost t = s@.take(j as int);
        assert(t.drop_last() =~= s@.take(j - 1));
        assert(t.last() == s@[j - 1]);
        assert(s@.subrange(j - 1, n as int) =~= seq![s@[j - 1]] + s@.subrange(j as int, n as int));
        assert(number_tail(t.drop_last()).push(t.last()) + s@.subrange(j as int, n as int)
            =~= number_tail(t.drop_last()) + s@.subrange(j - 1, n as int));
        j -= 1;
    }
    assert(number_tail(s@.take(j as int)) =~= Seq::<char>::empty()) by {
        if j > 0 {
            assert(s@.take(j as int).last() == s@[j - 1]);
        }
    }
    assert(Seq::<char>::empty() + s@.subrange(j as int, n as int) =~= s@.subrange(j as int, n as int));
    let mut r: Vec<char> = Vec::new();
    let mut k: usize = j;
    while k < n
        invariant
            j <= k <= n,
            n == s@.len(),
            r@ =~= s@.subrange(j as int, k as int),
        decreases n - k,
    {
        r.push(s[k]);
        k += 1;
    }
    r
}

/// Reads a number written as digits after an optional minus sign.
pub fn parse_signed(s: &Vec<char>) -> (r: Option<i64>)
    ensures
        r == signed_value(s@),
{
    if s.len() > 0 && s[0] == '-' {
        let mut rest: Vec<char> = Vec::new();
        let mut k: usize = 1;
        while k < s.len()
            invariant
                1 <= k <= s@.len(),
                rest@ =~= s@.subrange(1, k as int),
            decreases s.len() - k,
        {
            rest.push(s[k]);
            k += 1;
        }
        assert(rest@ =~= s@.drop_first());
        if !is_digits(&rest) {
            return None;
        }
        match parse_decimal(&rest) {
            Some(v) => {
                if v > 0x8000_0000_0000_0000u64 {
                    None
                } else if v == 0x8000_0000_0000_0000u64 {
                    Some(i64::MIN)
                } else {
                    Some(-(v as i64))
                }
            },
            None => None,
        }
    } else {
        if !is_digits(s) {
            return None;
        }
        match parse_decimal(s) {
            Some(v) => {
                if v > i64::MAX as u64 {
                    None
                } else {
                    Some(v as i64)
                }
            },
            None => None,
        }
    }
}

fn parse_point(part: &Vec<char>) -> (r: Option<PointT>)
    ensures
        r == point_of(part@),
{
    let pieces = split_on(part, ',');
    let ghost ps = split_pieces(part@, ',');
    let mut vals: Vec<i64> = Vec::new();
    let mut k: usize = 0;
    while k < pieces.len()
        invariant
            0 <= k <= pieces.len(),
            pieces.len() == ps.len(),
            forall|j: int| 0 <= j < pieces.len() ==> (#[trigger] pieces[j])@ == ps[j],
            vals@ == values_of(ps.take(k as int)),
        decreases pieces.len() - k,
    {
        assert(ps.take(k + 1).drop_last() =~= ps.take(k as int));
        assert(ps.take(k + 1).last() == pieces[k as int]@);
        let t = tail_of(&pieces[k]);
        match parse_signed(&t) {
            Some(v) => vals.push(v),
            None => {},
        }
        k += 1;
    }
    assert(ps.take(k as int) =~= ps);
    if vals.len() == 2 {
        Some(PointT { x: vals[0], y: vals[1] })
    } else {
        None
    }
}

/// Where `a` lands in `0..m`, counting from `a` down or up by whole `m`s.
pub fn wrap(a: i64, m: i64) -> (r: i64)
    requires
        m > 0,
    ensures
        r == a as int % m as int,
{
    if a >= 0 {
        a % m
    } else {
        let t = -(a + 1);
        let q = t % m;
        proof {
            let k = (t as int) / (m as int);
            vstd::arithmetic::div_mod::lemma_fundamental_div_mod(t as int, m as int);
            assert(t == m * k + q);
            assert(a == (-k - 1) * m + (m - 1 - q)) by (nonlinear_arith)
                requires
                    t == m * k + q,
                    a == -t - 1,
            ;
            vstd::arithmetic::div_mod::lemma_fundamental_div_mod_converse(
                a as int,
                m as int,
                -k - 1,
                m - 1 - q,
            );
        }
        m - 1 - q
    }
}

impl Robot {
    /// Reads `"p=<x>,<y> v=<dx>,<dy>"`.
    pub fn parse(line: &str, bounds: &RectT) -> (r: Option<Robot>)
        ensures
            match robot_line(line@) {
                Some((p, v)) => r == Some(Robot { position: p, velocity: v, bounds: *bounds }),
                None => r.is_none(),
            },
    {
        let text = chars_of(line);
        Robot::parse_chars(&text, bounds)
    }

    /// `parse` on a line given as its characters.
    pub fn parse_chars(text: &Vec<char>, bounds: &RectT) -> (r: Option<Robot>)
        ensures
            match robot_line(text@) {
                Some((p, v)) => r == Some(Robot { position: p, velocity: v, bounds: *bounds }),
                None => r.is_none(),
            },
    {
        let parts = split_on(text, ' ');
        let ghost ps = split_pieces(text@, ' ');
        if parts.len() != 2 {
            return None;
        }
        assert(parts[0]@ == ps[0] && parts[1]@ == ps[1]);
        let pos = parse_point(&parts[0]);
        let vel = parse_point(&parts[1]);
        match (pos, vel) {
            (Some(p), Some(v)) => Some(Robot { position: p, velocity: v, bounds: *bounds }),
            _ => None,
        }
    }

    /// Where the robot is after `seconds`, the floor wrapping around.
    pub fn get_position(&self, seconds: i64) -> (r: PointT)
        requires
            self.bounds.width > 0,
            self.bounds.height > 0,
            i64::MIN <= self.position.x + self.velocity.x * seconds <= i64::MAX,
            i64::MIN <= self.position.y + self.velocity.y * seconds <= i64::MAX,
        ensures
            r@ == (
                (self.position.x + self.velocity.x * seconds) % (self.bounds.width as int),
                (self.position.y + self.velocity.y * seconds) % (self.bounds.height as int),
            ),
    {
        assert(-0x4000_0000_0000_0000_0000_0000_0000_0000 <= self.velocity.x * seconds
            <= 0x4000_0000_0000_0000_0000_0000_0000_0000) by (nonlinear_arith)
            requires
                i64::MIN <= self.velocity.x <= i64::MAX,
                i64::MIN <= seconds <= i64::MAX,
        ;
        assert(-0x4000_0000_0000_0000_0000_0000_0000_0000 <= self.velocity.y * seconds
            <= 0x4000_0000_0000_0000_0000_0000_0000_0000) by (nonlinear_arith)
            requires
                i64::MIN <= self.velocity.y <= i64::MAX,
                i64::MIN <= seconds <= i64::MAX,
        ;
        let x = (self.position.x as i128 + self.velocity.x as i128 * seconds as i128) as i64;
        let y = (self.position.y as i128 + self.velocity.y as i128 * seconds as i128) as i64;
        PointT { x: wrap(x, self.bounds.width), y: wrap(y, self.bounds.height) }
    }
}

/// The robots that the lines describe, lines that are not robots skipped.
pub open spec fn robots_of(lines: Seq<Seq<char>>) -> Seq<(PointT, PointT)>
    decreases lines.len(),
{
    if lines.len() == 0 {
        Seq::empty()
    } else {
        match robot_line(lines.last()) {
            Some(pv) => robots_of(lines.drop_last()).push(pv),
            None => robots_of(lines.drop_last()),
        }
    }
}

/// How many of `ps` lie inside `q`.
pub open spec fn count_inside(ps: Seq<PointT>, q: RectT) -> nat
    decreases ps.len(),
{
    if ps.len() == 0 {
        0
    } else {
        count_inside(ps.drop_last(), q) + if q.x <= ps.last().x < q.x + q.width && q.y <= ps.last().y
            < q.y + q.height {
            1nat
        } else {
            0nat
        }
    }
}

/// Where each robot stands after `seconds`.
pub open spec fn positions_after(robots: Seq<Robot>, b: RectT, seconds: int) -> Seq<PointT> {
    robots.map_values(
        |r: Robot|
            PointT {
                x: ((r.position.x + r.velocity.x * seconds) % (b.width as int)) as i64,
                y: ((r.position.y + r.velocity.y * seconds) % (b.height as int)) as i64,
            },
    )
}

/// Robots whose coordinates are small enough to move for a hundred seconds.
pub open spec fn modest(robots: Seq<Robot>, b: RectT) -> bool {
    forall|i: int|
        0 <= i < robots.len() ==> {
            let r = #[trigger] robots[i];
            &&& -0x10_0000_0000 <= r.position.x <= 0x10_0000_0000
            &&& -0x10_0000_0000 <= r.position.y <= 0x10_0000_0000
            &&& -0x10_0000_0000 <= r.velocity.x <= 0x10_0000_0000
            &&& -0x10_0000_0000 <= r.velocity.y <= 0x10_0000_0000
            &&& r.bounds == b
        }
}

impl Day {
    /// Reads one robot per line; lines that are not robots are skipped.
    pub fn parse(input: &str, bounds: &RectT) -> (r: Option<Day>)
        ensures
            r.is_some(),
            r.unwrap().bounds == *bounds,
            r.unwrap().robots@.len() == robots_of(lines_of(input@)).len(),
            forall|i: int|
                0 <= i < r.unwrap().robots@.len() ==> {
                    let rb = #[trigger] r.unwrap().robots@[i];
                    &&& rb.position == robots_of(lines_of(input@))[i].0
                    &&& rb.velocity == robots_of(lines_of(input@))[i].1
                    &&& rb.bounds == *bounds
                },
    {
        let text = chars_of(input);
        let lines = text_lines(&text);
        let ghost ls = lines_of(input@);
        let mut robots: Vec<Robot> = Vec::new();
        let mut k: usize = 0;
        while k < lines.len()
            invariant
                0 <= k <= lines.len(),
                lines.len() == ls.len(),
                forall|j: int| 0 <= j < lines.len() ==> (#[trigger] lines[j])@ == ls[j],
                robots@.len() == robots_of(ls.take(k as int)).len(),
                forall|i: int|
                    0 <= i < robots@.len() ==> {
                        let rb = #[trigger] robots@[i];
                        &&& rb.position == robots_of(ls.take(k as int))[i].0
                        &&& rb.velocity == robots_of(ls.take(k as int))[i].1
                        &&& rb.bounds == *bounds
                    },
            decreases lines.len() - k,
        {
            assert(ls.take(k + 1).drop_last() =~= ls.take(k as int));
            assert(ls.take(k + 1).last() == lines[k as int]@);
            match Robot::parse_chars(&lines[k], bounds) {
                Some(r) => robots.push(r),
                None => {},
            }
            k += 1;
        }
        assert(ls.take(k as int) =~= ls);
        Some(Day { bounds: *bounds, robots })
    }

    /// The product of the robot counts in the four quadrants after a hundred seconds.
    pub fn part1(&self) -> (r: i64)
        requires
            self.bounds.x == 0,
            self.bounds.y == 0,
            0 < self.bounds.width <= 0x1_0000_0000,
            0 < self.bounds.height <= 0x1_0000_0000,
            self.robots@.len() <= 0x7FFF,
            modest(self.robots@, self.bounds),
        ensures
            ({
                let ps = positions_after(self.robots@, self.bounds, 100);
                let qs = quadrants(self.bounds);
                r == count_inside(ps, qs[0]) * count_inside(ps, qs[1]) * count_inside(ps, qs[2])
                    * count_inside(ps, qs[3])
            }),
    {
        let mut positions: Vec<PointT> = Vec::new();
        let mut k: usize = 0;
        while k < self.robots.len()
            invariant
                0 <= k <= self.robots.len(),
                0 < self.bounds.width,
                0 < self.bounds.height,
                modest(self.robots@, self.bounds),
                positions@ =~= positions_after(self.robots@, self.bounds, 100).take(k as int),
            decreases self.robots.len() - k,
        {
            let r = &self.robots[k];
            assert(self.robots@[k as int] == *r);
            assert(-0x1000_0000_0000 <= r.velocity.x * 100 <= 0x1000_0000_0000) by (nonlinear_arith)
                requires
                    -0x10_0000_0000 <= r.velocity.x <= 0x10_0000_0000,
            ;
            assert(-0x1000_0000_0000 <= r.velocity.y * 100 <= 0x1000_0000_0000) by (nonlinear_arith)
                requires
                    -0x10_0000_0000 <= r.velocity.y <= 0x10_0000_0000,
            ;
            positions.push(r.get_position(100));
            k += 1;
        }
        let ghost all = positions_after(self.robots@, self.bounds, 100);
        assert(all.take(k as int) =~= all);
        let qs = self.bounds.get_quadrants();
        let ghost sq = quadrants(self.bounds);
        assert(qs[0] == sq[0] && qs[1] == sq[1] && qs[2] == sq[2] && qs[3] == sq[3]);
        let a = count_in(&positions, &qs[0]);
        let b = count_in(&positions, &qs[1]);
        let c = count_in(&positions, &qs[2]);
        let d = count_in(&positions, &qs[3]);
        assert(a * b * c * d <= 0x7FFF * 0x7FFF * 0x7FFF * 0x7FFF) by (nonlinear_arith)
            requires
                0 <= a <= 0x7FFF,
                0 <= b <= 0x7FFF,
                0 <= c <= 0x7FFF,
                0 <= d <= 0x7FFF,
        ;
        assert(0 <= a * b) by (nonlinear_arith)
            requires
                0 <= a,
                0 <= b,
        ;
        assert(0 <= a * b * c) by (nonlinear_arith)
            requires
                0 <= a * b,
                0 <= c,
        ;
        assert(a * b <= 0x7FFF * 0x7FFF) by (nonlinear_arith)
            requires
                0 <= a <= 0x7FFF,
                0 <= b <= 0x7FFF,
        ;
        assert(a * b * c <= 0x7FFF * 0x7FFF * 0x7FFF) by (nonlinear_arith)
            requires
                0 <= a * b <= 0x7FFF * 0x7FFF,
                0 <= c <= 0x7FFF,
        ;
        a * b * c * d
    }
}

/// The quadrants of the floor, as `RectT::get_quadrants` gives them.
pub open spec fn quadrants(b: RectT) -> [RectT; 4] {
    let hw = (b.width / 2) as i64;
    let hh = (b.height / 2) as i64;
    [
        RectT { x: b.x, y: b.y, width: hw, height: hh },
        RectT { x: (b.width - hw) as i64, y: b.y, width: hw, height: hh },
        RectT { x: b.x, y: (b.height - hh) as i64, width: hw, height: hh },
        RectT { x: (b.width - hw) as i64, y: (b.height - hh) as i64, width: hw, height: hh },
    ]
}

fn count_in(ps: &Vec<PointT>, q: &RectT) -> (r: i64)
    requires
        ps@.len() <= 0x7FFF,
    ensures
        r == count_inside(ps@, *q),
        0 <= r <= ps@.len(),
{
    let mut n: i64 = 0;
    let mut k: usize = 0;
    while k < ps.len()
        invariant
            0 <= k <= ps.len(),
            ps@.len() <= 0x7FFF,
            n == count_inside(ps@.take(k as int), *q),
            0 <= n <= k,
        decreases ps.len() - k,
    {
        assert(ps@.take(k + 1).drop_last() =~= ps@.take(k as int));
        if q.contains_point(&ps[k]) {
            n += 1;
        }
        k += 1;
    }
    assert(ps@.take(k as int) =~= ps@);
    n
}

} // verus!
