//! Counting the ways to lay out a design from an unlimited supply of towels.
use crate::text::{lines_of, split_on, split_pieces, text_lines, trim_spaces, trimmed, views};
use crate::utils::{chars_of, fit};
use vstd::prelude::*;

verus! {

/// The ways to cover `d` exactly with towels, counting only those whose first
/// towel is `towels[k]` or comes after it. Empty towels cover nothing and are
/// not counted.
pub open spec fn ways_from(towels: Seq<Seq<char>>, d: Seq<char>, k: int) -> nat
    decreases d.len(), towels.len() - k,
{
    if k < 0 || k >= towels.len() {
        0
    } else {
        let t = towels[k];
        let here: nat = if 0 < t.len() <= d.len() && d.take(t.len() as int) == t {
            if t.len() == d.len() {
                1
            } else {
                ways_from(towels, d.skip(t.len() as int), 0)
            }
        } else {
            0
        };
        here + ways_from(towels, d, k + 1)
    }
}

/// The ways to cover the design `d` exactly with a row of towels.
pub open spec fn ways(towels: Seq<Seq<char>>, d: Seq<char>) -> nat {
    ways_from(towels, d, 0)
}

/// The towels and designs that the lines of a text hold, and whether the
/// towel section is still being read: towels come comma-separated on the lines
/// before the first empty one, designs on the non-empty lines after it.
pub open spec fn sections(lines: Seq<Seq<char>>) -> (Seq<Seq<char>>, Seq<Seq<char>>, bool)
    decreases lines.len(),
{
    if lines.len() == 0 {
        (Seq::empty(), Seq::empty(), true)
    } else {
        let (towels, designs, reading) = sections(lines.drop_last());
        let l = lines.last();
        if reading {
            if l.len() == 0 {
                (towels, designs, false)
            } else {
                (towels + split_pieces(l, ',').map_values(|p: Seq<char>| trim_spaces(p)), designs, true)
            }
        } else if l.len() == 0 {
            (towels, designs, false)
        } else {
            (towels, designs.push(l), false)
        }
    }
}

/// Towels, designs, and the number of ways to make each design once solved.
pub struct Day19 {
    pub towels: Vec<Vec<char>>,
    pub designs: Vec<Vec<char>>,
    pub solutions: Vec<Option<u64>>,
}

impl Day19 {
    /// Reads the towels and the designs from `input`.
    pub fn parse(input: &str) -> (r: Day19)
        ensures
            views(r.towels@) == sections(lines_of(input@)).0,
            views(r.designs@) == sections(lines_of(input@)).1,
            r.solutions@.len() == 0,
    {
        let text = chars_of(input);
        let lines = text_lines(&text);
        let ghost ls = lines_of(input@);
        let mut towels: Vec<Vec<char>> = Vec::new();
        let mut designs: Vec<Vec<char>> = Vec::new();
        let mut reading = true;
        let mut i: usize = 0;
        while i < lines.len()
            invariant
                0 <= i <= lines.len(),
                lines.len() == ls.len(),
                forall|k: int| 0 <= k < lines.len() ==> (#[trigger] lines[k])@ == ls[k],
                sections(ls.take(i as int)) == (views(towels@), views(designs@), reading),
            decreases lines.len() - i,
        {
            let ghost before_t = views(towels@);
            assert(ls.take(i + 1).drop_last() =~= ls.take(i as int));
            assert(ls.take(i + 1).last() == lines[i as int]@);
            if reading {
                if lines[i].len() == 0 {
                    reading = false;
                } else {
                    let pieces = split_on(&lines[i], ',');
                    let ghost ps = split_pieces(lines[i as int]@, ',');
                    let mut k: usize = 0;
                    while k < pieces.len()
                        invariant
                            0 <= k <= pieces.len(),
                            pieces.len() == ps.len(),
                            forall|j: int| 0 <= j < pieces.len() ==> (#[trigger] pieces[j])@ == ps[j],
                            views(towels@) =~= before_t + ps.take(k as int).map_values(
                                |p: Seq<char>| trim_spaces(p),
                            ),
                        decreases pieces.len() - k,
                    {
                        let t = trimmed(&pieces[k]);
                        let ghost old_t = towels@;
                        towels.push(t);
                        assert(views(towels@) =~= views(old_t).push(t@));
                        k += 1;
                    }
                    assert(ps.take(k as int) =~= ps);
                }
            } else if lines[i].len() > 0 {
                let ghost old_d = designs@;
                designs.push(lines[i].clone());
                assert(views(designs@) =~= views(old_d).push(ls[i as int]));
            }
            i += 1;
        }
        assert(ls.take(i as int) =~= ls);
        Day19 { towels, designs, solutions: Vec::new() }
    }

    /// The number of ways to make `design` from the towels; `None` where it
    /// does not fit in a `u64`.
    pub fn rec(&self, design: &Vec<char>) -> (r: Option<u64>)
        ensures
            r == fit(ways(views(self.towels@), design@)),
    {
        let ghost ts = views(self.towels@);
        let n = design.len();
        let mut table: Vec<Option<u64>> = Vec::new();
        let mut j: usize = 0;
        while j < n
            invariant
                0 <= j <= n,
                n == design@.len(),
                table.len() == j,
            decreases n - j,
        {
            table.push(Some(0));
            j += 1;
        }
        table.push(Some(0));
        let mut i: usize = n;
        while i > 0
            invariant
                0 <= i <= n,
                n == design@.len(),
                table.len() == n + 1,
                ts == views(self.towels@),
                forall|m: int| i <= m < n ==> #[trigger] table[m] == fit(ways(ts, design@.skip(m))),
            decreases i,
        {
            i -= 1;
            let v = self.count_at(design, i, &table);
            table.set(i, v);
        }
        if n == 0 {
            proof {
                lemma_ways_empty(ts, design@, 0);
            }
            return Some(0);
        }
        assert(design@.skip(0) =~= design@);
        table[0]
    }

    /// `ways` for the part of `design` from position `i` on, given the counts
    /// for every later position.
    fn count_at(&self, design: &Vec<char>, i: usize, table: &Vec<Option<u64>>) -> (r: Option<u64>)
        requires
            i < design@.len(),
            table.len() == design@.len() + 1,
            forall|m: int|
                i < m < design@.len() ==> #[trigger] table[m] == fit(
                    ways(views(self.towels@), design@.skip(m)),
                ),
        ensures
            r == fit(ways(views(self.towels@), design@.skip(i as int))),
    {
        let ghost ts = views(self.towels@);
        let ghost d = design@.skip(i as int);
        let n = design.len();
        let mut acc: Option<u64> = Some(0);
        let mut k: usize = self.towels.len();
        while k > 0
            invariant
                0 <= k <= self.towels.len(),
                ts == views(self.towels@),
                ts.len() == self.towels.len(),
                d == design@.skip(i as int),
                i < n,
                n == design@.len(),
                table.len() == n + 1,
                forall|m: int| i < m < n ==> #[trigger] table[m] == fit(ways(ts, design@.skip(m))),
                acc == fit(ways_from(ts, d, k as int)),
            decreases k,
        {
            k -= 1;
            let t = &self.towels[k];
            assert(ts[k as int] == t@);
            let tl = t.len();
            let here: Option<u64> = if tl > 0 && tl <= n - i && starts_with_at(design, i, t) {
                assert(d.take(tl as int) =~= design@.subrange(i as int, i + tl));
                if tl == n - i {
                    Some(1)
                } else {
                    assert(d.skip(tl as int) =~= design@.skip(i + tl));
                    table[i + tl]
                }
            } else {
                proof {
                    if 0 < tl <= n - i {
                        assert(d.take(tl as int) =~= design@.subrange(i as int, i + tl));
                    }
                }
                Some(0)
            };
            acc = match (here, acc) {
                (Some(a), Some(b)) => if a > u64::MAX - b {
                    None
                } else {
                    Some(a + b)
                },
                _ => None,
            };
        }
        assert(ways(ts, d) == ways_from(ts, d, 0));
        acc
    }

    /// Counts the ways for every design, once.
    pub fn solve(&mut self)
        ensures
            final(self).towels == old(self).towels,
            final(self).designs == old(self).designs,
            old(self).solutions@.len() == 0 ==> final(self).solutions@.len() == old(self).designs@.len()
                && forall|k: int|
                0 <= k < final(self).solutions@.len() ==> #[trigger] final(self).solutions@[k] == fit(
                    ways(views(old(self).towels@), old(self).designs@[k]@),
                ),
            old(self).solutions@.len() != 0 ==> final(self).solutions == old(self).solutions,
    {
        if self.solutions.len() != 0 {
            return;
        }
        let mut k: usize = 0;
        while k < self.designs.len()
            invariant
                0 <= k <= self.designs.len(),
                self.towels == old(self).towels,
                self.designs == old(self).designs,
                self.solutions@.len() == k,
                forall|j: int|
                    0 <= j < k ==> #[trigger] self.solutions@[j] == fit(
                        ways(views(self.towels@), self.designs@[j]@),
                    ),
            decreases self.designs.len() - k,
        {
            let v = self.rec(&self.designs[k]);
            self.solutions.push(v);
            k += 1;
        }
    }

    /// How many designs can be made at all.
    pub fn part1(&self) -> (r: usize)
        requires
            self.solutions@.len() > 0,
        ensures
            r == possible_count(self.solutions@),
    {
        let mut count: usize = 0;
        let mut k: usize = 0;
        while k < self.solutions.len()
            invariant
                0 <= k <= self.solutions.len(),
                count == possible_count(self.solutions@.take(k as int)),
                count <= k,
            decreases self.solutions.len() - k,
        {
            assert(self.solutions@.take(k + 1).drop_last() =~= self.solutions@.take(k as int));
            if self.solutions[k] != Some(0u64) {
                count += 1;
            }
            k += 1;
        }
        assert(self.solutions@.take(k as int) =~= self.solutions@);
        count
    }

    /// The ways summed over all designs; `None` where a count or the sum does
    /// not fit in a `u64`.
    pub fn part2(&self) -> (r: Option<u64>)
        requires
            self.solutions@.len() > 0,
        ensures
            r == total_ways(self.solutions@),
    {
        let mut sum: Option<u64> = Some(0);
        let mut k: usize = 0;
        while k < self.solutions.len()
            invariant
                0 <= k <= self.solutions.len(),
                sum == total_ways(self.solutions@.take(k as int)),
            decreases self.solutions.len() - k,
        {
            assert(self.solutions@.take(k + 1).drop_last() =~= self.solutions@.take(k as int));
            sum = match (sum, self.solutions[k]) {
                (Some(a), Some(b)) => if a > u64::MAX - b {
                    None
                } else {
                    Some(a + b)
                },
                _ => None,
            };
            k += 1;
        }
        assert(self.solutions@.take(k as int) =~= self.solutions@);
        sum
    }
}

/// How many of the counts are not zero (a count too large to hold is not zero).
pub open spec fn possible_count(s: Seq<Option<u64>>) -> nat
    decreases s.len(),
{
    if s.len() == 0 {
        0
    } else {
        possible_count(s.drop_last()) + if s.last() == Some(0u64) {
            0nat
        } else {
            1nat
        }
    }
}

/// The sum of the counts, `None` once a count or a partial sum does not fit.
pub open spec fn total_ways(s: Seq<Option<u64>>) -> Option<u64>
    decreases s.len(),
{
    if s.len() == 0 {
        Some(0)
    } else {
        match (total_ways(s.drop_last()), s.last()) {
            (Some(a), Some(b)) => fit((a + b) as nat),
            _ => None,
        }
    }
}

proof fn lemma_ways_empty(towels: Seq<Seq<char>>, d: Seq<char>, k: int)
    requires
        d.len() == 0,
        k >= 0,
    ensures
        ways_from(towels, d, k) == 0,
    decreases towels.len() - k,
{
    if k < towels.len() {
        lemma_ways_empty(towels, d, k + 1);
    }
}

/// Whether `t` occurs in `design` at position `i`.
fn starts_with_at(design: &Vec<char>, i: usize, t: &Vec<char>) -> (r: bool)
    requires
        i + t@.len() <= design@.len(),
    ensures
        r == (design@.subrange(i as int, i + t@.len()) == t@),
{
    let n = design.len();
    let mut k: usize = 0;
    while k < t.len()
        invariant
            0 <= k <= t.len(),
            n == design@.len(),
            i + t@.len() <= design@.len(),
            forall|m: int| 0 <= m < k ==> design@[i + m] == t@[m],
        decreases t.len() - k,
    {
        assert(i + k < design@.len());
        if design[i + k] != t[k] {
            assert(design@.subrange(i as int, i + t@.len())[k as int] != t@[k as int]);
            return false;
        }
        k += 1;
    }
    assert(design@.subrange(i as int, i + t@.len()) =~= t@);
    true
}

} // verus!
