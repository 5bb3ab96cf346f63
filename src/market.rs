//! Secret numbers of market buyers, their prices, and the four-change
//! patterns that precede each price.
use std::collections::HashMap;
use vstd::prelude::*;

verus! {

broadcast use vstd::std_specs::hash::group_hash_axioms;

/// Secrets are kept below this bound.
pub const PRUNE: i64 = 16_777_216;

/// The last four price changes, one byte each, the newest in the lowest byte.
pub struct IntBuffer {
    pub value: i32,
    pub items: usize,
}

/// `w` with its highest byte dropped, the rest shifted up a byte, and `d`
/// (as an unsigned byte) put in the lowest byte.
pub open spec fn push_byte(w: u32, d: i8) -> u32 {
    ((w as int % 0x100_0000) * 256 + (d as u8) as int) as u32
}

/// The bytes of `s` packed in order, each pushed with `push_byte`.
pub open spec fn pack(s: Seq<i8>) -> u32
    decreases s.len(),
{
    if s.len() == 0 {
        0
    } else {
        push_byte(pack(s.drop_last()), s.last())
    }
}

fn shifted_in(w: i32, d: i8) -> (r: i32)
    ensures
        r as u32 == push_byte(w as u32, d),
{
    #[verifier::truncate]
    let x = w as u32;
    #[verifier::truncate]
    let b = d as u8;
    let low = x % 0x100_0000;
    let r = low * 256 + b as u32;
    #[verifier::truncate]
    let out = r as i32;
    assert(out as u32 == r) by (bit_vector)
        requires
            out == r as i32,
    ;
    out
}

impl IntBuffer {
    /// An empty buffer.
    pub fn new() -> (r: IntBuffer)
        ensures
            r.value == 0,
            r.items == 0,
    {
        IntBuffer { value: 0, items: 0 }
    }

    /// Pushes `item` as the newest byte.
    pub fn push(&mut self, item: i8)
        ensures
            final(self).value as u32 == push_byte(old(self).value as u32, item),
            final(self).items == if old(self).items < 4 {
                old(self).items + 1
            } else {
                4
            },
    {
        self.value = shifted_in(self.value, item);
        self.items = if self.items < 4 {
            self.items + 1
        } else {
            4
        };
    }

    /// The packed bytes.
    pub fn get(&self) -> (r: i32)
        ensures
            r == self.value,
    {
        self.value
    }

    /// How many bytes have been pushed, at most four.
    pub fn len(&self) -> (r: usize)
        ensures
            r == if self.items < 4 {
                self.items
            } else {
                4
            },
    {
        if self.items < 4 {
            self.items
        } else {
            4
        }
    }

    /// `digits` packed as the buffer would hold them after pushing each in turn.
    pub fn _pack(digits: &[i8]) -> (r: i32)
        ensures
            r as u32 == pack(digits@),
    {
        let mut ret: i32 = 0;
        let mut k: usize = 0;
        while k < digits.len()
            invariant
                0 <= k <= digits@.len(),
                ret as u32 == pack(digits@.take(k as int)),
            decreases digits@.len() - k,
        {
            assert(digits@.take(k + 1).drop_last() =~= digits@.take(k as int));
            ret = shifted_in(ret, digits[k]);
            k += 1;
        }
        assert(digits@.take(k as int) =~= digits@);
        ret
    }

    /// The four bytes of `packed`, highest first, each read as a signed number,
    /// written as `"(a, b, c, d)"`.
    pub fn _unpack(packed: i32) -> (r: String)
        ensures
            r@ == unpacked_text(packed as u32),
    {
        let p = packed as u32;
        let mut out: Vec<char> = Vec::new();
        out.push('(');
        push_signed(&mut out, signed_byte((p / 0x100_0000) as u32));
        out.push(',');
        out.push(' ');
        push_signed(&mut out, signed_byte((p / 0x1_0000) % 256));
        out.push(',');
        out.push(' ');
        push_signed(&mut out, signed_byte((p / 256) % 256));
        out.push(',');
        out.push(' ');
        push_signed(&mut out, signed_byte(p % 256));
        out.push(')');
        assert(out@ =~= unpacked_text(p));
        string_from(out)
    }
}

/// A byte read as a signed number.
pub open spec fn signed(b: int) -> int {
    if b >= 128 {
        b - 256
    } else {
        b
    }
}

fn signed_byte(b: u32) -> (r: i32)
    requires
        b < 256,
    ensures
        r == signed(b as int),
{
    if b >= 128 {
        b as i32 - 256
    } else {
        b as i32
    }
}

/// The decimal digit for `d`.
pub open spec fn digit_char(d: nat) -> char {
    ((d + 48) as u8) as char
}

/// The decimal digits of `n`.
pub open spec fn nat_text(n: nat) -> Seq<char>
    decreases n,
{
    if n < 10 {
        seq![digit_char(n)]
    } else {
        nat_text(n / 10).push(digit_char(n % 10))
    }
}

/// `v` in decimal, with a minus sign when negative.
pub open spec fn int_text(v: int) -> Seq<char> {
    if v < 0 {
        seq!['-'] + nat_text((-v) as nat)
    } else {
        nat_text(v as nat)
    }
}

/// The text `_unpack` gives for the packed bytes `p`.
pub open spec fn unpacked_text(p: u32) -> Seq<char> {
    seq!['('] + int_text(signed((p / 0x100_0000) as int)) + seq![',', ' '] + int_text(
        signed(((p / 0x1_0000) % 256) as int),
    ) + seq![',', ' '] + int_text(signed(((p / 256) % 256) as int)) + seq![',', ' '] + int_text(
        signed((p % 256) as int),
    ) + seq![')']
}

fn push_nat(out: &mut Vec<char>, n: u32)
    ensures
        final(out)@ == old(out)@ + nat_text(n as nat),
    decreases n,
{
    if n >= 10 {
        push_nat(out, n / 10);
    }
    let d = (n % 10) as u8;
    out.push((d + 48) as char);
    assert(final(out)@ =~= old(out)@ + nat_text(n as nat));
}

fn push_signed(out: &mut Vec<char>, v: i32)
    requires
        v > i32::MIN,
    ensures
        final(out)@ == old(out)@ + int_text(v as int),
{
    if v < 0 {
        out.push('-');
        push_nat(out, (-v) as u32);
        assert(final(out)@ =~= old(out)@ + int_text(v as int));
    } else {
        push_nat(out, v as u32);
    }
}

/// Relies on `String`'s `FromIterator<char>`: the string holds the characters in order.
#[verifier::external_body]
fn string_from(chars: Vec<char>) -> (r: String)
    ensures
        r@ == chars@,
{
    chars.into_iter().collect()
}

/// The next secret: mix in the secret times 64, prune, mix in the secret
/// divided by 32, prune, mix in the secret times 2048, prune. Mixing is a
/// bitwise exclusive or, pruning the remainder by `PRUNE`.
pub open spec fn next_secret(n: u64) -> u64 {
    let a = (n ^ ((n * 64) as u64)) % 16_777_216;
    let b = (a ^ (a / 32)) % 16_777_216;
    (b ^ ((b * 2048) as u64)) % 16_777_216
}

/// The state after `k` rounds from `secret`: the secret, the last price, the
/// packed last four changes and how many there are, and for each pattern of
/// four changes the price that first followed it.
pub open spec fn rounds_after(secret: u64, k: nat) -> (u64, int, u32, nat, Map<i32, i32>)
    decreases k,
{
    if k == 0 {
        (secret, (secret % 10) as int, 0, 0, Map::empty())
    } else {
        let (n, last, w, len, pats) = rounds_after(secret, (k - 1) as nat);
        let n2 = next_secret(n);
        let price = (n2 % 10) as int;
        let w2 = push_byte(w, (price - last) as i8);
        let len2: nat = if len < 4 {
            len + 1
        } else {
            4
        };
        let pats2 = if len2 == 4 && !pats.contains_key(w2 as i32) {
            pats.insert(w2 as i32, price as i32)
        } else {
            pats
        };
        (n2, price, w2, len2, pats2)
    }
}

/// A buyer's last secret, and the price that first followed each pattern of
/// four price changes.
pub struct CalcResult {
    pub number: i64,
    pub patterns: HashMap<i32, i32>,
}

fn step_secret(n: u64) -> (r: u64)
    requires
        n < 16_777_216,
    ensures
        r == next_secret(n),
        r < 16_777_216,
{
    let a = (n ^ (n * 64)) % 16_777_216;
    let b = (a ^ (a / 32)) % 16_777_216;
    (b ^ (b * 2048)) % 16_777_216
}

/// Runs `rounds` rounds (none where `rounds <= 0`) from `secret`.
pub fn calculate(secret: i64, rounds: i64) -> (r: CalcResult)
    requires
        0 <= secret < PRUNE,
    ensures
        ({
            let (n, _last, _w, _len, pats) = rounds_after(
                secret as u64,
                if rounds <= 0 {
                    0
                } else {
                    rounds as nat
                },
            );
            r.number == n && r.patterns@ == pats
        }),
{
    let mut patterns: HashMap<i32, i32> = HashMap::new();
    let mut seq_buf = IntBuffer::new();
    let mut num: u64 = secret as u64;
    let mut last_price: i8 = (num % 10) as i8;
    let mut k: i64 = 0;
    while k < rounds
        invariant
            0 <= k,
            rounds <= 0 ==> k == 0,
            rounds > 0 ==> k <= rounds,
            0 <= secret < PRUNE,
            num < 16_777_216,
            0 <= last_price < 10,
            seq_buf.items <= 4,
            rounds_after(secret as u64, k as nat) == (
                num,
                last_price as int,
                seq_buf.value as u32,
                seq_buf.items as nat,
                patterns@,
            ),
        decreases rounds - k,
    {
        num = step_secret(num);
        let price = (num % 10) as i8;
        seq_buf.push(price - last_price);
        last_price = price;
        if seq_buf.len() == 4 {
            let key = seq_buf.get();
            assert((key as u32) as i32 == key) by (bit_vector);
            if !patterns.contains_key(&key) {
                patterns.insert(key, price as i32);
            }
        }
        k += 1;
    }
    CalcResult { number: num as i64, patterns }
}

} // verus!
