//! Stones that change every time one blinks, kept as counts per engraved number.
use crate::text::{
    decimal_value, is_decimal, is_digits, lemma_split_nonempty, parse_decimal, split_on, split_pieces,
};
use crate::utils::chars_of;
use std::collections::HashMap;
use vstd::prelude::*;

verus! {

broadcast use vstd::std_specs::hash::group_hash_axioms;

/// `count` stones engraved with `value`.
#[derive(PartialEq, Eq, Hash, Clone, Copy, Debug, Structural)]
pub struct Stone {
    pub value: i64,
    pub count: i64,
}

/// Stones by engraved number.
pub type StoneMap = HashMap<i64, Stone>;

/// How many decimal digits `v` has.
pub open spec fn num_digits(v: nat) -> nat
    decreases v,
{
    if v < 10 {
        1
    } else {
        1 + num_digits(v / 10)
    }
}

pub open spec fn pow10(n: nat) -> nat
    decreases n,
{
    if n == 0 {
        1
    } else {
        10 * pow10((n - 1) as nat)
    }
}

proof fn lemma_digits_bound(v: nat, k: nat)
    requires
        k >= 1,
        v < pow10(k),
    ensures
        num_digits(v) <= k,
    decreases k,
{
    if v >= 10 {
        if k == 1 {
            assert(pow10(1) == 10) by {
                reveal_with_fuel(pow10, 2);
            }
        } else {
            lemma_digits_bound(v / 10, (k - 1) as nat);
        }
    }
}

/// The halves of a number with an even count of digits: its upper digits
/// and its lower digits (the lower half may start with zeros).
pub open spec fn halves(v: nat) -> Option<(nat, nat)> {
    let d = num_digits(v);
    if d % 2 == 1 {
        None
    } else {
        Some((v / pow10(d / 2), v % pow10(d / 2)))
    }
}

/// Splits a number with an even count of digits into its two halves of digits.
pub fn split_value(value: i64) -> (r: Option<(i64, i64)>)
    requires
        value >= 0,
    ensures
        match halves(value as nat) {
            None => r.is_none(),
            Some((a, b)) => r == Some((a as i64, b as i64)),
        },
{
    let ghost v = value as nat;
    let mut tmp = value / 10;
    let mut digits: u32 = 1;
    proof {
        assert(pow10(19) == 10000000000000000000nat) by {
            reveal_with_fuel(pow10, 20);
        }
        lemma_digits_bound(v, 19);
    }
    while tmp != 0
        invariant
            0 <= tmp,
            v == value as nat,
            num_digits(v) <= 19,
            num_digits(v) == digits + (if tmp == 0 { 0 } else { num_digits(tmp as nat) }),
        decreases tmp,
    {
        tmp = tmp / 10;
        digits += 1;
    }
    if digits & 1 == 1 {
        assert(digits % 2 == 1) by (bit_vector)
            requires
                digits & 1 == 1,
        ;
        return None;
    }
    assert(digits % 2 == 0) by (bit_vector)
        requires
            digits & 1 != 1,
    ;
    let mut half: i64 = 1;
    let mut k: u32 = 0;
    while k < digits / 2
        invariant
            0 <= k <= digits / 2,
            digits <= 19,
            half == pow10(k as nat),
            1 <= half <= 1_000_000_000,
            k <= 9,
        decreases digits / 2 - k,
    {
        proof {
            reveal_with_fuel(pow10, 2);
        }
        assert(k + 1 <= 9);
        assert(half * 10 <= 1_000_000_000) by {
            assert(pow10((k + 1) as nat) == 10 * pow10(k as nat));
            lemma_pow10_le((k + 1) as nat, 9);
            assert(pow10(9) == 1_000_000_000nat) by {
                reveal_with_fuel(pow10, 10);
            }
        }
        half = half * 10;
        k += 1;
    }
    Some((value / half, value % half))
}

proof fn lemma_pow10_le(a: nat, b: nat)
    requires
        a <= b,
    ensures
        pow10(a) <= pow10(b),
    decreases b,
{
    if a < b {
        lemma_pow10_le(a, (b - 1) as nat);
    }
}

/// `m` with `s` added: its count joins the count already held for its
/// number, or it becomes a new entry.
pub open spec fn merged(m: Map<i64, Stone>, s: Stone) -> Map<i64, Stone> {
    if m.contains_key(s.value) {
        m.insert(s.value, Stone { value: m[s.value].value, count: (m[s.value].count + s.count) as i64 })
    } else {
        m.insert(s.value, s)
    }
}

/// What one stone becomes after a blink: a 0 turns into a 1; a number with an
/// even count of digits splits into its halves; any other is multiplied by 2024.
pub open spec fn blink(s: Stone) -> Seq<Stone> {
    if s.value == 0 {
        seq![Stone { value: 1, count: s.count }]
    } else {
        match halves(s.value as nat) {
            Some((a, b)) => seq![
                Stone { value: a as i64, count: s.count },
                Stone { value: b as i64, count: s.count },
            ],
            None => seq![Stone { value: (s.value * 2024) as i64, count: s.count }],
        }
    }
}

/// `m` with each stone of `ss` added in turn.
pub open spec fn merged_all(m: Map<i64, Stone>, ss: Seq<Stone>) -> Map<i64, Stone>
    decreases ss.len(),
{
    if ss.len() == 0 {
        m
    } else {
        merged(merged_all(m, ss.drop_last()), ss.last())
    }
}

/// The counts held are between zero and `bound`.
pub open spec fn counts_within(m: Map<i64, Stone>, bound: int) -> bool {
    forall|k: i64| m.contains_key(k) ==> 0 <= #[trigger] m[k].count <= bound
}

/// The stones written, space-separated, in a line; pieces that are not a
/// number that fits in an `i64` are skipped.
pub open spec fn stones_of(words: Seq<Seq<char>>) -> Map<i64, Stone>
    decreases words.len(),
{
    if words.len() == 0 {
        Map::empty()
    } else {
        let w = words.last();
        let prev = stones_of(words.drop_last());
        if is_decimal(w) && decimal_value(w) <= i64::MAX {
            merged(prev, Stone { value: decimal_value(w) as i64, count: 1 })
        } else {
            prev
        }
    }
}

proof fn lemma_split_count(s: Seq<char>, sep: char)
    ensures
        split_pieces(s, sep).len() <= s.len() + 1,
    decreases s.len(),
{
    if s.len() > 0 {
        lemma_split_count(s.drop_last(), sep);
        lemma_split_nonempty(s.drop_last(), sep);
    }
}

impl Stone {
    /// Adds this stone to `dict`.
    pub fn add_to(self, dict: &mut StoneMap)
        requires
            old(dict)@.contains_key(self.value) ==> i64::MIN <= old(dict)@[self.value].count
                + self.count <= i64::MAX,
        ensures
            final(dict)@ == merged(old(dict)@, self),
    {
        let existing = match dict.get(&self.value) {
            Some(o) => Some(*o),
            None => None,
        };
        match existing {
            Some(o) => {
                dict.insert(self.value, Stone { value: o.value, count: o.count + self.count });
            },
            None => {
                dict.insert(self.value, self);
            },
        }
    }

    /// Adds what this stone becomes after a blink to `out_dict`.
    pub fn simulate(self, out_dict: &mut StoneMap)
        requires
            self.value >= 0,
            self.value * 2024 <= i64::MAX,
            0 <= self.count,
            2 * self.count <= i64::MAX,
            counts_within(old(out_dict)@, i64::MAX - 2 * self.count),
        ensures
            final(out_dict)@ == merged_all(old(out_dict)@, blink(self)),
    {
        let ghost start = out_dict@;
        let ghost b = blink(self);
        if self.value == 0 {
            let one = Stone { value: 1, count: self.count };
            one.add_to(out_dict);
            assert(b.drop_last() =~= Seq::<Stone>::empty());
            assert(b.last() == one);
            assert(merged_all(start, b.drop_last()) == start);
        } else {
            match split_value(self.value) {
                Some((x, y)) => {
                    let first = Stone { value: x, count: self.count };
                    first.add_to(out_dict);
                    let ghost mid = out_dict@;
                    proof {
                        if start.contains_key(y) {
                            assert(0 <= start[y].count <= i64::MAX - 2 * self.count);
                        }
                        if start.contains_key(x) {
                            assert(0 <= start[x].count <= i64::MAX - 2 * self.count);
                        }
                    }
                    assert(mid.contains_key(y) ==> i64::MIN <= mid[y].count + self.count <= i64::MAX);
                    let second = Stone { value: y, count: self.count };
                    second.add_to(out_dict);
                    assert(b.drop_last().drop_last() =~= Seq::<Stone>::empty());
                    assert(b.drop_last() =~= seq![first]);
                    assert(b.drop_last().last() == first);
                    assert(b.last() == second);
                    assert(merged_all(start, b.drop_last().drop_last()) == start);
                    assert(merged_all(start, b.drop_last()) == mid);
                },
                None => {
                    let grown = Stone { value: self.value * 2024, count: self.count };
                    grown.add_to(out_dict);
                    assert(b.drop_last() =~= Seq::<Stone>::empty());
                    assert(b.last() == grown);
                    assert(merged_all(start, b.drop_last()) == start);
                },
            }
        }
    }

    /// Reads the space-separated numbers of `s`, one stone each.
    pub fn parse(s: &str) -> (r: StoneMap)
        requires
            s@.len() < i64::MAX,
        ensures
            r@ == stones_of(split_pieces(s@, ' ')),
    {
        let text = chars_of(s);
        let words = split_on(&text, ' ');
        let ghost ws = split_pieces(s@, ' ');
        proof {
            lemma_split_count(s@, ' ');
        }
        let mut ret: StoneMap = HashMap::new();
        let mut i: usize = 0;
        while i < words.len()
            invariant
                0 <= i <= words.len(),
                words.len() == ws.len(),
                ws.len() <= s@.len() + 1,
                s@.len() < i64::MAX,
                forall|k: int| 0 <= k < words.len() ==> (#[trigger] words[k])@ == ws[k],
                ret@ == stones_of(ws.take(i as int)),
                counts_within(ret@, i as int),
            decreases words.len() - i,
        {
            assert(ws.take(i + 1).drop_last() =~= ws.take(i as int));
            assert(ws.take(i + 1).last() == words[i as int]@);
            if is_digits(&words[i]) {
                match parse_decimal(&words[i]) {
                    Some(v) => {
                        if v <= i64::MAX as u64 {
                            let st = Stone { value: v as i64, count: 1 };
                            st.add_to(&mut ret);
                        }
                    },
                    None => {},
                }
            }
            i += 1;
        }
        assert(ws.take(i as int) =~= ws);
        ret
    }
}

} // verus!
