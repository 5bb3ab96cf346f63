//! Equations whose operators were lost: can the numbers, combined left to
//! right, reach the stated result?
use crate::text::{decimal_value, is_decimal, is_digits, parse_decimal, split_on, split_pieces};
use crate::utils::chars_of;
use vstd::prelude::*;

verus! {

/// An operator that combines the running value with the next number.
#[derive(PartialEq, Eq, Clone, Copy, Debug, Structural)]
pub enum Op {
    Mult,
    Add,
    Concat,
}

/// The product of two numbers.
pub fn mult(a: i64, b: i64) -> (r: i64)
    requires
        i64::MIN <= a * b <= i64::MAX,
    ensures
        r == a * b,
{
    a * b
}

/// The sum of two numbers.
pub fn add(a: i64, b: i64) -> (r: i64)
    requires
        i64::MIN <= a + b <= i64::MAX,
    ensures
        r == a + b,
{
    a + b
}

/// The power of ten just above `b`: ten for a one-digit number, a hundred for
/// a two-digit one, and so on.
pub open spec fn shift_for(b: nat) -> nat
    decreases b,
{
    if b < 10 {
        10
    } else {
        10 * shift_for(b / 10)
    }
}

/// `shift_for` of a number's remaining digits, one when none remain.
pub open spec fn shift_rest(t: nat) -> nat {
    if t == 0 {
        1
    } else {
        shift_for(t)
    }
}

proof fn lemma_shift_step(t: nat)
    ensures
        shift_for(t) == 10 * shift_rest(t / 10),
        shift_for(t) >= 10,
    decreases t,
{
    if t >= 10 {
        lemma_shift_step(t / 10);
    }
}

proof fn lemma_shift_bound(b: nat)
    ensures
        shift_for(b) <= 10 * (if b == 0 { 1 } else { b }),
    decreases b,
{
    if b >= 10 {
        lemma_shift_bound(b / 10);
    }
}

/// The digits of `a` followed by those of `b`.
pub open spec fn concat_value(a: int, b: int) -> int {
    a * shift_for(b as nat) + b
}

/// The number whose decimal digits are those of `a` followed by those of `b`.
pub fn concat(a: i64, b: i64) -> (r: i64)
    requires
        a >= 0,
        b >= 0,
        concat_value(a as int, b as int) <= i64::MAX,
    ensures
        r == concat_value(a as int, b as int),
{
    let ghost bn = b as nat;
    let mut tmp = b / 10;
    proof {
        lemma_shift_step(bn);
        assert(a * 10 <= a * shift_for(bn)) by (nonlinear_arith)
            requires
                a >= 0,
                shift_for(bn) >= 10,
        ;
        assert(0 <= a * shift_for(bn));
    }
    let mut tmp2 = a * 10;
    let ghost mut q: nat = 10;
    while tmp != 0
        invariant
            0 <= tmp,
            a >= 0,
            b >= 0,
            bn == b as nat,
            q >= 10,
            tmp2 == a * q,
            shift_for(bn) == q * shift_rest(tmp as nat),
            a * shift_for(bn) + b <= i64::MAX,
        decreases tmp,
    {
        proof {
            lemma_shift_step(tmp as nat);
            let rest = shift_rest((tmp / 10) as nat);
            assert(rest >= 1);
            assert(shift_for(bn) == (q * 10) * rest) by (nonlinear_arith)
                requires
                    shift_for(bn) == q * (10 * rest),
            ;
            assert(a * (q * 10) <= a * shift_for(bn)) by (nonlinear_arith)
                requires
                    a >= 0,
                    rest >= 1,
                    shift_for(bn) == (q * 10) * rest,
            ;
            assert(a * q * 10 == a * (q * 10)) by (nonlinear_arith);
            assert(0 <= a * shift_for(bn));
        }
        tmp = tmp / 10;
        tmp2 = tmp2 * 10;
        proof {
            q = q * 10;
        }
    }
    tmp2 + b
}

/// What `op` makes of the running value `a` and the next number `b`.
pub open spec fn apply_op(op: Op, a: int, b: int) -> int {
    match op {
        Op::Mult => a * b,
        Op::Add => a + b,
        Op::Concat => concat_value(a, b),
    }
}

/// `apply_op` on non-negative numbers; `None` where the result does not fit in an `i64`.
pub fn apply(op: Op, a: i64, b: i64) -> (r: Option<i64>)
    requires
        a >= 0,
        b >= 0,
    ensures
        match r {
            Some(v) => v == apply_op(op, a as int, b as int),
            None => apply_op(op, a as int, b as int) > i64::MAX,
        },
{
    match op {
        Op::Mult => {
            if b != 0 && a > i64::MAX / b {
                assert(a * b > i64::MAX) by (nonlinear_arith)
                    requires
                        b > 0,
                        a > i64::MAX / b,
                ;
                None
            } else {
                assert(0 <= a * b <= i64::MAX) by (nonlinear_arith)
                    requires
                        a >= 0,
                        b >= 0,
                        b == 0 || a <= i64::MAX / b,
                ;
                Some(mult(a, b))
            }
        },
        Op::Add => {
            if a > i64::MAX - b {
                None
            } else {
                Some(crate::calibration::add(a, b))
            }
        },
        Op::Concat => {
            if a == 0 {
                return Some(b);
            }
            let mut shift: u128 = 10;
            let mut t = b / 10;
            let ghost mut q: nat = 10;
            proof {
                lemma_shift_step(b as nat);
                lemma_shift_bound(b as nat);
            }
            while t != 0
                invariant
                    0 <= t,
                    b >= 0,
                    shift == q,
                    q >= 10,
                    shift_for(b as nat) == q * shift_rest(t as nat),
                    shift_for(b as nat) <= 10 * i64::MAX,
                decreases t,
            {
                proof {
                    lemma_shift_step(t as nat);
                    let rest = shift_rest((t / 10) as nat);
                    assert(shift_for(b as nat) == (q * 10) * rest) by (nonlinear_arith)
                        requires
                            shift_for(b as nat) == q * (10 * rest),
                    ;
                    assert(q * 10 <= shift_for(b as nat)) by (nonlinear_arith)
                        requires
                            shift_for(b as nat) == (q * 10) * rest,
                            rest >= 1,
                    ;
                    q = q * 10;
                }
                shift = shift * 10;
                t = t / 10;
            }
            assert(shift == shift_for(b as nat));
            if shift > i64::MAX as u128 {
                assert(a * shift_for(b as nat) >= shift_for(b as nat)) by (nonlinear_arith)
                    requires
                        a >= 1,
                ;
                return None;
            }
            assert(0 <= a * shift <= i64::MAX * i64::MAX) by (nonlinear_arith)
                requires
                    0 <= a <= i64::MAX,
                    0 <= shift <= i64::MAX,
            ;
            let wide = (a as i128) * (shift as i128) + (b as i128);
            if wide > i64::MAX as i128 {
                None
            } else {
                Some(concat(a, b))
            }
        },
    }
}

/// An equation: a result, and the numbers that should reach it.
pub struct Solver {
    pub solution: i64,
    pub numbers: Vec<i64>,
}

/// Starting from `sum` at number `i`, some choice of operators from `ops`
/// for the numbers after `i` ends exactly at `target`. A running value above
/// the target is abandoned, as no operator makes non-negative values smaller.
pub open spec fn reaches(target: int, nums: Seq<i64>, ops: Seq<Op>, i: int, sum: int) -> bool
    decreases nums.len() - i,
{
    if sum > target {
        false
    } else if i + 1 >= nums.len() {
        sum == target
    } else {
        exists|k: int|
            0 <= k < ops.len() && reaches(
                target,
                nums,
                ops,
                i + 1,
                #[trigger] apply_op(ops[k], sum, nums[i + 1] as int),
            )
    }
}

/// The numbers are all non-negative.
pub open spec fn all_non_negative(nums: Seq<i64>) -> bool {
    forall|k: int| 0 <= k < nums.len() ==> 0 <= #[trigger] nums[k]
}

/// The line `"<result>: <n1> <n2> ..."` as an equation, with at least two numbers.
pub open spec fn equation_line(line: Seq<char>) -> Option<(nat, Seq<nat>)> {
    let parts = split_pieces(line, ':');
    if parts.len() != 2 || !is_decimal(parts[0]) || parts[1].len() == 0 || parts[1][0] != ' ' {
        None
    } else {
        let words = split_pieces(parts[1].drop_first(), ' ');
        if words.len() < 2 || exists|k: int| 0 <= k < words.len() && !is_decimal(#[trigger] words[k]) {
            None
        } else {
            Some((decimal_value(parts[0]), words.map_values(|w: Seq<char>| decimal_value(w))))
        }
    }
}

/// An equation was read, and its result and numbers fit in an `i64`.
pub open spec fn fits_i64(eq: Option<(nat, Seq<nat>)>) -> bool {
    &&& eq is Some
    &&& eq.unwrap().0 <= i64::MAX
    &&& forall|k: int| 0 <= k < eq.unwrap().1.len() ==> #[trigger] eq.unwrap().1[k] <= i64::MAX
}

impl Solver {
    /// Reads `"<result>: <n1> <n2> ..."`, with at least two numbers, each of
    /// them at most `i64::MAX`.
    pub fn new(line: &str) -> (r: Option<Solver>)
        ensures
            r.is_some() == fits_i64(equation_line(line@)),
            r.is_some() ==> r.unwrap().solution == equation_line(line@).unwrap().0 && r.unwrap().numbers@.len()
                == equation_line(line@).unwrap().1.len() && forall|k: int|
                0 <= k < r.unwrap().numbers@.len() ==> r.unwrap().numbers@[k] == #[trigger] equation_line(
                    line@,
                ).unwrap().1[k],
    {
        let text = chars_of(line);
        let parts = split_on(&text, ':');
        let ghost ps = split_pieces(line@, ':');
        assert(parts.len() == ps.len());
        if parts.len() != 2 {
            return None;
        }
        assert(parts[0]@ == ps[0] && parts[1]@ == ps[1]);
        if parts[1].len() == 0 || parts[1][0] != ' ' {
            return None;
        }
        if !is_digits(&parts[0]) {
            return None;
        }
        let sol = parse_decimal(&parts[0]);
        let mut rest: Vec<char> = Vec::new();
        let mut i: usize = 1;
        while i < parts[1].len()
            invariant
                parts.len() == 2,
                1 <= i <= parts[1]@.len(),
                parts[1]@.len() > 0,
                rest@ =~= parts[1]@.subrange(1, i as int),
            decreases parts[1].len() - i,
        {
            rest.push(parts[1][i]);
            i += 1;
        }
        assert(rest@ =~= ps[1].drop_first());
        let words = split_on(&rest, ' ');
        if words.len() < 2 {
            return None;
        }
        let mut numbers: Vec<i64> = Vec::new();
        let mut too_big = false;
        let mut k: usize = 0;
        while k < words.len()
            invariant
                0 <= k <= words.len(),
                words.len() == split_pieces(rest@, ' ').len(),
                forall|j: int| 0 <= j < words.len() ==> (#[trigger] words[j])@ == split_pieces(rest@, ' ')[j],
                numbers.len() == k,
                forall|j: int| 0 <= j < k ==> is_decimal(#[trigger] words[j]@),
                !too_big ==> forall|j: int| 0 <= j < k ==> numbers@[j] == decimal_value(#[trigger] words[j]@),
                too_big ==> exists|j: int| 0 <= j < k && decimal_value(#[trigger] words[j]@) > i64::MAX,
                ps == split_pieces(line@, ':'),
                ps.len() == 2,
                is_decimal(ps[0]),
                ps[1].len() > 0,
                ps[1][0] == ' ',
                rest@ == ps[1].drop_first(),
            decreases words.len() - k,
        {
            if !is_digits(&words[k]) {
                assert(!is_decimal(split_pieces(rest@, ' ')[k as int]));
                return None;
            }
            match parse_decimal(&words[k]) {
                Some(v) => {
                    if v > i64::MAX as u64 {
                        too_big = true;
                        numbers.push(0);
                    } else {
                        numbers.push(v as i64);
                    }
                },
                None => {
                    too_big = true;
                    numbers.push(0);
                },
            }
            k += 1;
        }
        let ghost ws = split_pieces(rest@, ' ');
        let ghost nums = ws.map_values(|w: Seq<char>| decimal_value(w));
        assert forall|j: int| 0 <= j < ws.len() implies is_decimal(#[trigger] ws[j]) by {
            assert(words[j]@ == ws[j]);
        }
        assert(equation_line(line@) == Some((decimal_value(ps[0]), nums)));
        if too_big {
            let ghost j = choose|j: int| 0 <= j < k && decimal_value(#[trigger] words[j]@) > i64::MAX;
            assert(words[j]@ == ws[j]);
            assert(nums[j] > i64::MAX);
            assert(0 <= j < nums.len());
            assert(!(forall|k2: int| 0 <= k2 < nums.len() ==> #[trigger] nums[k2] <= i64::MAX));
            assert(equation_line(line@).unwrap().1[j] > i64::MAX);
            assert(!fits_i64(equation_line(line@)));
            return None;
        }
        match sol {
            Some(v) => {
                if v > i64::MAX as u64 {
                    return None;
                }
                let r = Solver { solution: v as i64, numbers };
                assert(r.numbers@.len() == nums.len());
                assert forall|j: int| 0 <= j < nums.len() implies r.numbers@[j] == #[trigger] nums[j] by {
                    assert(words[j]@ == ws[j]);
                }
                Some(r)
            },
            None => None,
        }
    }

    /// Whether, from `sum` at number `i`, some choice of operators from `ops`
    /// for the remaining numbers ends exactly at the solution.
    pub fn rec(&self, ops: &Vec<Op>, i: usize, sum: i64) -> (r: bool)
        requires
            all_non_negative(self.numbers@),
            i < self.numbers.len(),
            sum >= 0,
        ensures
            r == reaches(self.solution as int, self.numbers@, ops@, i as int, sum as int),
        decreases self.numbers.len() - i,
    {
        if sum > self.solution {
            return false;
        }
        if i == self.numbers.len() - 1 {
            return sum == self.solution;
        }
        let b = self.numbers[i + 1];
        assert(0 <= self.numbers@[i + 1]);
        let mut k: usize = 0;
        while k < ops.len()
            invariant
                0 <= k <= ops.len(),
                i + 1 < self.numbers.len(),
                b == self.numbers@[i + 1],
                b >= 0,
                sum >= 0,
                sum <= self.solution,
                all_non_negative(self.numbers@),
                forall|j: int|
                    0 <= j < k ==> !reaches(
                        self.solution as int,
                        self.numbers@,
                        ops@,
                        i + 1,
                        #[trigger] apply_op(ops@[j], sum as int, b as int),
                    ),
            decreases ops.len() - k,
        {
            match apply(ops[k], sum, b) {
                Some(next) => {
                    if self.rec(ops, i + 1, next) {
                        return true;
                    }
                },
                None => {},
            }
            k += 1;
        }
        false
    }

    /// Whether some choice of operators from `ops` between the numbers,
    /// applied left to right, gives the solution.
    pub fn solve(&self, ops: &Vec<Op>) -> (r: bool)
        requires
            all_non_negative(self.numbers@),
        ensures
            r == (self.numbers.len() > 0 && reaches(
                self.solution as int,
                self.numbers@,
                ops@,
                0,
                self.numbers@[0] as int,
            )),
    {
        if self.numbers.len() == 0 {
            return false;
        }
        assert(0 <= self.numbers@[0]);
        self.rec(ops, 0, self.numbers[0])
    }
}

} // verus!
