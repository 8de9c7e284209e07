//! Decimal text for integers. In frame headers and integer frames it is an
//! optional minus sign followed by one or more ASCII digits; where a count
//! of milliseconds is read from text, it is an optional plus sign followed
//! by one or more ASCII digits.

use vstd::prelude::*;

verus! {

/// ASCII `-`.
pub const MINUS: u8 = 45;

/// ASCII `0`.
pub const ZERO: u8 = 48;

pub open spec fn is_digit(b: u8) -> bool {
    48 <= b <= 57
}

pub open spec fn all_digits(t: Seq<u8>) -> bool {
    forall|i: int| 0 <= i < t.len() ==> is_digit(#[trigger] t[i])
}

/// The number that a run of digits denotes, most significant digit first.
pub open spec fn digits_value(t: Seq<u8>) -> nat
    decreases t.len(),
{
    if t.len() == 0 {
        0
    } else {
        digits_value(t.drop_last()) * 10 + (t.last() - 48) as nat
    }
}

/// Whether `t` is decimal text: `-`? digit+.
pub open spec fn is_decimal(t: Seq<u8>) -> bool {
    if t.len() > 0 && t[0] == MINUS {
        t.len() > 1 && all_digits(t.skip(1))
    } else {
        t.len() > 0 && all_digits(t)
    }
}

/// The integer that decimal text denotes.
pub open spec fn decimal_value(t: Seq<u8>) -> int {
    if t.len() > 0 && t[0] == MINUS {
        -(digits_value(t.skip(1)) as int)
    } else {
        digits_value(t) as int
    }
}

/// The shortest run of digits that denotes `n`.
pub open spec fn digits_of(n: nat) -> Seq<u8>
    decreases n,
{
    if n < 10 {
        seq![(48 + n) as u8]
    } else {
        digits_of(n / 10).push((48 + n % 10) as u8)
    }
}

/// The canonical decimal text of `n`.
pub open spec fn decimal(n: int) -> Seq<u8> {
    if n < 0 {
        seq![MINUS] + digits_of((-n) as nat)
    } else {
        digits_of(n as nat)
    }
}

/// ASCII `+`.
pub const PLUS: u8 = 43;

/// The digits of unsigned decimal text: what is left of `t` after an optional
/// leading `+`.
pub open spec fn unsigned_digits(t: Seq<u8>) -> Seq<u8> {
    if t.len() > 0 && t[0] == PLUS {
        t.skip(1)
    } else {
        t
    }
}

/// Whether `t` is unsigned decimal text: `+`? digit+.
pub open spec fn is_unsigned_decimal(t: Seq<u8>) -> bool {
    unsigned_digits(t).len() > 0 && all_digits(unsigned_digits(t))
}

/// The number that unsigned decimal text denotes.
pub open spec fn unsigned_value(t: Seq<u8>) -> nat {
    digits_value(unsigned_digits(t))
}

/// Whether `t` is unsigned decimal text for a number that fits 64 bits.
pub open spec fn is_u64_text(t: Seq<u8>) -> bool {
    is_unsigned_decimal(t) && unsigned_value(t) <= u64::MAX
}

pub proof fn lemma_digits_of(n: nat)
    ensures
        digits_of(n).len() >= 1,
        all_digits(digits_of(n)),
        digits_value(digits_of(n)) == n,
    decreases n,
{
    if n < 10 {
        let t = digits_of(n);
        assert(t.drop_last().len() == 0);
        assert(digits_value(t.drop_last()) == 0);
    } else {
        lemma_digits_of(n / 10);
        let t = digits_of(n);
        assert(t.drop_last() =~= digits_of(n / 10));
    }
}

/// Canonical text reads back as the number it was written from.
pub proof fn lemma_decimal_round_trip(n: int)
    ensures
        is_decimal(decimal(n)),
        decimal_value(decimal(n)) == n,
        decimal(n).len() >= 1,
        forall|i: int|
            0 <= i < decimal(n).len() ==> #[trigger] decimal(n)[i] != 13 && decimal(n)[i] != 10,
{
    let t = decimal(n);
    if n < 0 {
        let m = (-n) as nat;
        lemma_digits_of(m);
        assert(t.skip(1) =~= digits_of(m));
        assert forall|i: int| 0 <= i < t.len() implies #[trigger] t[i] != 13 && t[i] != 10 by {
            if i > 0 {
                assert(t[i] == digits_of(m)[i - 1]);
                assert(is_digit(digits_of(m)[i - 1]));
            }
        }
    } else {
        lemma_digits_of(n as nat);
        assert(is_digit(t[0]));
        assert forall|i: int| 0 <= i < t.len() implies #[trigger] t[i] != 13 && t[i] != 10 by {
            assert(is_digit(t[i]));
        }
    }
}

/// A run of digits denotes at least as much as any of its prefixes.
pub proof fn lemma_digits_value_prefix(t: Seq<u8>, j: int)
    requires
        all_digits(t),
        0 <= j <= t.len(),
    ensures
        digits_value(t.take(j)) <= digits_value(t),
    decreases t.len() - j,
{
    if j == t.len() {
        assert(t.take(j) =~= t);
    } else {
        lemma_digits_value_prefix(t.drop_last(), j);
        assert(t.drop_last().take(j) =~= t.take(j));
        assert(is_digit(t.last()));
    }
}

/// Appends the digits of `m` to `out`.
fn push_digits(out: &mut Vec<u8>, m: u64)
    ensures
        final(out)@ == old(out)@ + digits_of(m as nat),
    decreases m,
{
    if m >= 10 {
        push_digits(out, m / 10);
    }
    let d: u8 = (m % 10) as u8;
    out.push(ZERO + d);
    proof {
        if m < 10 {
            assert(final(out)@ =~= old(out)@ + digits_of(m as nat));
        } else {
            assert(final(out)@ =~= old(out)@ + digits_of(m as nat));
        }
    }
}

/// Appends the canonical decimal text of `n` to `out`.
pub fn push_decimal(out: &mut Vec<u8>, n: i64)
    ensures
        final(out)@ == old(out)@ + decimal(n as int),
{
    if n < 0 {
        out.push(MINUS);
        let m: u64 = (0 - (n as i128)) as u64;
        push_digits(out, m);
        assert(final(out)@ =~= old(out)@ + decimal(n as int));
    } else {
        push_digits(out, n as u64);
    }
}

/// Appends the canonical decimal text of a length to `out`.
pub fn push_length(out: &mut Vec<u8>, n: usize)
    ensures
        final(out)@ == old(out)@ + decimal(n as int),
{
    push_digits(out, n as u64);
}

/// Reads decimal text from `buf[start..end]`. `None` when the text is not
/// decimal or denotes a number outside the signed 64-bit range.
pub fn parse_decimal(buf: &[u8], start: usize, end: usize) -> (r: Option<i64>)
    requires
        start <= end <= buf.len(),
    ensures
        ({
            let t = buf@.subrange(start as int, end as int);
            r == if is_decimal(t) && i64::MIN <= decimal_value(t) <= i64::MAX {
                Some(decimal_value(t) as i64)
            } else {
                None
            }
        }),
{
    let ghost t = buf@.subrange(start as int, end as int);
    if start == end {
        return None;
    }
    let negative = buf[start] == MINUS;
    let first: usize = if negative { start + 1 } else { start };
    let ghost ds = if negative { t.skip(1) } else { t };
    assert(ds =~= buf@.subrange(first as int, end as int));
    if first == end {
        return None;
    }
    let limit: u64 = 0x8000_0000_0000_0000;
    let mut acc: u64 = 0;
    let mut i: usize = first;
    while i < end
        invariant
            first <= i <= end <= buf.len(),
            t == buf@.subrange(start as int, end as int),
            t.len() > 0,
            negative == (t[0] == MINUS),
            ds == if negative { t.skip(1) } else { t },
            ds == buf@.subrange(first as int, end as int),
            all_digits(ds.take(i - first)),
            acc == digits_value(ds.take(i - first)),
            acc <= limit,
            limit == 0x8000_0000_0000_0000,
        decreases end - i,
    {
        let b = buf[i];
        let ghost pre = ds.take(i - first);
        let ghost cur = ds.take(i - first + 1);
        assert(cur.drop_last() =~= pre);
        assert(cur.last() == b);
        if b < 48 || b > 57 {
            assert(!is_digit(ds[i - first]));
            return None;
        }
        assert(all_digits(cur)) by {
            assert forall|k: int| 0 <= k < cur.len() implies is_digit(#[trigger] cur[k]) by {
                if k < cur.len() - 1 {
                    assert(cur[k] == pre[k]);
                }
            }
        }
        let wide: u128 = (acc as u128) * 10 + ((b - 48) as u128);
        if wide > limit as u128 {
            proof {
                // The rest of the digits may still be anything: rule them out first.
                if all_digits(ds) {
                    lemma_digits_value_prefix(ds, i - first + 1);
                }
            }
            if !rest_all_digits(buf, i + 1, end) {
                assert(!all_digits(ds)) by {
                    let k = choose|k: int| i + 1 <= k < end && !is_digit(buf@[k]);
                    assert(ds[k - first] == buf@[k]);
                }
                return None;
            }
            assert(all_digits(ds)) by {
                assert forall|k: int| 0 <= k < ds.len() implies is_digit(#[trigger] ds[k]) by {
                    if k < cur.len() {
                        assert(ds[k] == cur[k]);
                    } else {
                        assert(ds[k] == buf@[k + first]);
                    }
                }
            }
            return None;
        }
        acc = wide as u64;
        i = i + 1;
    }
    assert(ds.take(i - first) =~= ds);
    if negative {
        let v: i64 = (0 - (acc as i128)) as i64;
        Some(v)
    } else if acc == limit {
        None
    } else {
        Some(acc as i64)
    }
}

/// Whether every byte of `buf[from..end]` is a digit.
fn rest_all_digits(buf: &[u8], from: usize, end: usize) -> (r: bool)
    requires
        from <= end <= buf.len(),
    ensures
        r == (forall|k: int| from <= k < end ==> is_digit(#[trigger] buf@[k])),
{
    let mut i: usize = from;
    while i < end
        invariant
            from <= i <= end <= buf.len(),
            forall|k: int| from <= k < i ==> is_digit(#[trigger] buf@[k]),
        decreases end - i,
    {
        if buf[i] < 48 || buf[i] > 57 {
            return false;
        }
        i = i + 1;
    }
    true
}

} // verus!
