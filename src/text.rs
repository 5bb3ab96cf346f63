//! Splitting text into pieces and reading decimal numbers.
use crate::utils::fit;
use vstd::prelude::*;

verus! {

/// The pieces of `s` between occurrences of `sep`: `n` separators give `n + 1` pieces.
pub open spec fn split_pieces(s: Seq<char>, sep: char) -> Seq<Seq<char>>
    decreases s.len(),
{
    if s.len() == 0 {
        seq![Seq::empty()]
    } else {
        let prev = split_pieces(s.drop_last(), sep);
        if s.last() == sep {
            prev.push(Seq::empty())
        } else {
            prev.update(prev.len() - 1, prev.last().push(s.last()))
        }
    }
}

pub proof fn lemma_split_nonempty(s: Seq<char>, sep: char)
    ensures
        split_pieces(s, sep).len() >= 1,
    decreases s.len(),
{
    if s.len() > 0 {
        lemma_split_nonempty(s.drop_last(), sep);
    }
}

/// The pieces of `s` between occurrences of `sep`.
pub fn split_on(s: &Vec<char>, sep: char) -> (r: Vec<Vec<char>>)
    ensures
        r.len() == split_pieces(s@, sep).len(),
        forall|k: int| 0 <= k < r.len() ==> (#[trigger] r[k])@ == split_pieces(s@, sep)[k],
{
    let mut done: Vec<Vec<char>> = Vec::new();
    let mut cur: Vec<char> = Vec::new();
    let mut i: usize = 0;
    assert(s@.take(0) =~= Seq::<char>::empty());
    while i < s.len()
        invariant
            0 <= i <= s.len(),
            done.len() + 1 == split_pieces(s@.take(i as int), sep).len(),
            forall|k: int| 0 <= k < done.len() ==> (#[trigger] done[k])@ == split_pieces(s@.take(i as int), sep)[k],
            cur@ == split_pieces(s@.take(i as int), sep).last(),
        decreases s.len() - i,
    {
        let c = s[i];
        assert(s@.take(i + 1).drop_last() =~= s@.take(i as int));
        proof {
            lemma_split_nonempty(s@.take(i as int), sep);
        }
        if c == sep {
            let piece = cur;
            cur = Vec::new();
            done.push(piece);
        } else {
            cur.push(c);
        }
        i += 1;
    }
    assert(s@.take(i as int) =~= s@);
    done.push(cur);
    done
}

/// The value of a decimal digit.
pub open spec fn digit_value(c: char) -> nat {
    (c as u32 - '0' as u32) as nat
}

/// `s` is one or more decimal digits.
pub open spec fn is_decimal(s: Seq<char>) -> bool {
    s.len() > 0 && forall|i: int| 0 <= i < s.len() ==> '0' <= #[trigger] s[i] <= '9'
}

/// The number that the decimal digits `s` write.
pub open spec fn decimal_value(s: Seq<char>) -> nat
    decreases s.len(),
{
    if s.len() == 0 {
        0
    } else {
        decimal_value(s.drop_last()) * 10 + digit_value(s.last())
    }
}

/// The number that `s` writes in decimal digits; `None` where `s` is not one
/// or more digits, or the number does not fit in a `u64`.
pub fn parse_decimal(s: &Vec<char>) -> (r: Option<u64>)
    ensures
        r == (if is_decimal(s@) {
            fit(decimal_value(s@))
        } else {
            None
        }),
{
    if s.len() == 0 {
        return None;
    }
    let mut v: u64 = 0;
    let mut big = false;
    let mut i: usize = 0;
    while i < s.len()
        invariant
            0 <= i <= s.len(),
            forall|k: int| 0 <= k < i ==> '0' <= #[trigger] s@[k] <= '9',
            !big ==> v == decimal_value(s@.take(i as int)),
            big ==> decimal_value(s@.take(i as int)) > u64::MAX,
        decreases s.len() - i,
    {
        let c = s[i];
        if c < '0' || c > '9' {
            return None;
        }
        assert(s@.take(i + 1).drop_last() =~= s@.take(i as int));
        let d = (c as u32 - '0' as u32) as u64;
        if big || v > (u64::MAX - d) / 10 {
            big = true;
        } else {
            v = v * 10 + d;
        }
        i += 1;
    }
    assert(s@.take(i as int) =~= s@);
    if big {
        None
    } else {
        Some(v)
    }
}

/// Whether `s` is one or more decimal digits.
pub fn is_digits(s: &Vec<char>) -> (r: bool)
    ensures
        r == is_decimal(s@),
{
    if s.len() == 0 {
        return false;
    }
    let mut i: usize = 0;
    while i < s.len()
        invariant
            0 <= i <= s.len(),
            forall|k: int| 0 <= k < i ==> '0' <= #[trigger] s@[k] <= '9',
        decreases s.len() - i,
    {
        if s[i] < '0' || s[i] > '9' {
            return false;
        }
        i += 1;
    }
    true
}

/// The lines of a text: the pieces between line feeds, without carriage
/// returns, and without an empty piece after the last line feed.
pub open spec fn split_text(s: Seq<char>) -> (Seq<Seq<char>>, Seq<char>)
    decreases s.len(),
{
    if s.len() == 0 {
        (Seq::empty(), Seq::empty())
    } else {
        let (done, cur) = split_text(s.drop_last());
        if s.last() == '\n' {
            (done.push(cur), Seq::empty())
        } else if s.last() == '\r' {
            (done, cur)
        } else {
            (done, cur.push(s.last()))
        }
    }
}

pub open spec fn lines_of(s: Seq<char>) -> Seq<Seq<char>> {
    let (done, cur) = split_text(s);
    if cur.len() > 0 {
        done.push(cur)
    } else {
        done
    }
}

/// The splitting of a text into lines, one line per element.
pub fn text_lines(text: &Vec<char>) -> (r: Vec<Vec<char>>)
    ensures
        r.len() == lines_of(text@).len(),
        forall|i: int| 0 <= i < r.len() ==> (#[trigger] r[i])@ == lines_of(text@)[i],
{
    let mut done: Vec<Vec<char>> = Vec::new();
    let mut cur: Vec<char> = Vec::new();
    let mut i: usize = 0;
    while i < text.len()
        invariant
            0 <= i <= text.len(),
            done.len() == split_text(text@.take(i as int)).0.len(),
            forall|k: int| 0 <= k < done.len() ==> (#[trigger] done[k])@ == split_text(text@.take(i as int)).0[k],
            cur@ == split_text(text@.take(i as int)).1,
        decreases text.len() - i,
    {
        let c = text[i];
        assert(text@.take(i + 1).drop_last() =~= text@.take(i as int));
        if c == '\n' {
            let line = cur;
            cur = Vec::new();
            done.push(line);
        } else if c != '\r' {
            cur.push(c);
        }
        i += 1;
    }
    assert(text@.take(i as int) =~= text@);
    if cur.len() > 0 {
        done.push(cur);
    }
    done
}

/// The characters held by each vector.
pub open spec fn views(v: Seq<Vec<char>>) -> Seq<Seq<char>> {
    v.map_values(|t: Vec<char>| t@)
}

/// `s` without its leading spaces.
pub open spec fn trim_front(s: Seq<char>) -> Seq<char>
    decreases s.len(),
{
    if s.len() > 0 && s[0] == ' ' {
        trim_front(s.drop_first())
    } else {
        s
    }
}

/// `s` without its trailing spaces.
pub open spec fn trim_back(s: Seq<char>) -> Seq<char>
    decreases s.len(),
{
    if s.len() > 0 && s.last() == ' ' {
        trim_back(s.drop_last())
    } else {
        s
    }
}

/// `s` without its leading and trailing spaces.
pub open spec fn trim_spaces(s: Seq<char>) -> Seq<char> {
    trim_back(trim_front(s))
}

/// A copy of `s` without its leading and trailing spaces.
pub fn trimmed(s: &Vec<char>) -> (r: Vec<char>)
    ensures
        r@ == trim_spaces(s@),
{
    let n = s.len();
    let mut a: usize = 0;
    assert(s@.skip(0) =~= s@);
    while a < n && s[a] == ' '
        invariant
            0 <= a <= n,
            n == s@.len(),
            trim_front(s@) == trim_front(s@.skip(a as int)),
        decreases n - a,
    {
        assert(s@.skip(a as int).drop_first() =~= s@.skip(a + 1));
        a += 1;
    }
    let ghost front = s@.skip(a as int);
    assert(trim_front(front) == front);
    let mut b: usize = n;
    assert(front =~= s@.subrange(a as int, n as int));
    while b > a && s[b - 1] == ' '
        invariant
            a <= b <= n,
            n == s@.len(),
            trim_back(front) == trim_back(s@.subrange(a as int, b as int)),
            front == s@.subrange(a as int, n as int),
        decreases b - a,
    {
        assert(s@.subrange(a as int, b as int).drop_last() =~= s@.subrange(a as int, b - 1));
        b -= 1;
    }
    let mut r: Vec<char> = Vec::new();
    let mut k: usize = a;
    while k < b
        invariant
            a <= k <= b,
            b <= n,
            n == s@.len(),
            r@ =~= s@.subrange(a as int, k as int),
        decreases b - k,
    {
        r.push(s[k]);
        k += 1;
    }
    r
}

} // verus!
