//! Decimal text: the place-field test mirrors how an unsigned integer is
//! read from text (optional leading `+`, one or more digits, value within
//! range), and the history codec prints and reads lengths in decimal.

use vstd::prelude::*;

verus! {

pub open spec fn is_digit(b: u8) -> bool {
    0x30 <= b <= 0x39
}

pub open spec fn all_digits(s: Seq<u8>) -> bool {
    forall|i: int| 0 <= i < s.len() ==> is_digit(#[trigger] s[i])
}

/// Value of a digit string, most significant first.
pub open spec fn digits_val(s: Seq<u8>) -> nat
    decreases s.len(),
{
    if s.len() == 0 {
        0
    } else {
        (digits_val(s.take(s.len() - 1)) * 10 + (s[s.len() - 1] - 0x30)) as nat
    }
}

/// The digit body of an unsigned decimal literal: everything after one
/// optional leading `+`.
pub open spec fn u32_body(s: Seq<u8>) -> Seq<u8> {
    if s.len() >= 1 && s[0] == 0x2b {
        s.skip(1)
    } else {
        s
    }
}

/// Whether `s` reads as a `u32`: an optional `+`, then one or more digits,
/// with the value in range.
pub open spec fn parse_u32_ok(s: Seq<u8>) -> bool {
    let b = u32_body(s);
    b.len() >= 1 && all_digits(b) && digits_val(b) <= u32::MAX
}

pub open spec fn parse_u32_val(s: Seq<u8>) -> nat {
    digits_val(u32_body(s))
}

pub proof fn lemma_digits_val_mono(s: Seq<u8>, i: int)
    requires
        0 <= i <= s.len(),
        all_digits(s),
    ensures
        digits_val(s.take(i)) <= digits_val(s),
    decreases s.len() - i,
{
    if i < s.len() {
        assert(s.take(s.len() - 1).take(i) =~= s.take(i));
        assert(all_digits(s.take(s.len() - 1))) by {
            assert(forall|j: int|
                0 <= j < s.len() - 1 ==> is_digit(#[trigger] s.take(s.len() - 1)[j]));
        }
        lemma_digits_val_mono(s.take(s.len() - 1), i);
        assert(is_digit(s[s.len() - 1]));
    } else {
        assert(s.take(i) =~= s);
    }
}

proof fn lemma_digits_val_snoc(s: Seq<u8>, d: u8)
    requires
        is_digit(d),
    ensures
        digits_val(s.push(d)) == digits_val(s) * 10 + (d - 0x30),
{
    assert(s.push(d).take(s.push(d).len() - 1) =~= s);
}

/// Executable mirror of `parse_u32_ok` / `parse_u32_val`.
#[verifier::loop_isolation(false)]
pub fn parse_u32(s: &[u8]) -> (r: Option<u32>)
    ensures
        match r {
            Some(v) => parse_u32_ok(s@) && v == parse_u32_val(s@),
            None => !parse_u32_ok(s@),
        },
{
    let start: usize = if s.len() >= 1 && s[0] == 0x2b {
        1
    } else {
        0
    };
    let ghost body = u32_body(s@);
    proof {
        assert(body =~= s@.skip(start as int));
    }
    if s.len() == start {
        return None;
    }
    let mut acc: u32 = 0;
    let mut i: usize = start;
    while i < s.len()
        invariant
            start <= i <= s@.len(),
            s@.len() > start,
            body == s@.skip(start as int),
            all_digits(body.take(i - start)),
            acc == digits_val(body.take(i - start)),
        decreases s@.len() - i,
    {
        let b = s[i];
        if b < 0x30 || b > 0x39 {
            proof {
                assert(body[i - start] == s@[i as int]);
                assert(!all_digits(body));
            }
            return None;
        }
        let d: u32 = (b - 0x30) as u32;
        if acc > (u32::MAX - d) / 10 {
            proof {
                assert(body.take(i - start).push(b) =~= body.take(i - start + 1));
                lemma_digits_val_snoc(body.take(i - start), b);
                if all_digits(body) {
                    lemma_digits_val_mono(body, i - start + 1);
                    assert(digits_val(body) > u32::MAX);
                }
            }
            return None;
        }
        proof {
            assert(body.take(i - start).push(b) =~= body.take(i - start + 1));
            lemma_digits_val_snoc(body.take(i - start), b);
        }
        acc = acc * 10 + d;
        i += 1;
    }
    proof {
        assert(body.take(i - start) =~= body);
    }
    Some(acc)
}

/// Decimal digits of `n`, most significant first, no sign, no leading zero
/// except for zero itself.
pub open spec fn dec_digits(n: nat) -> Seq<u8>
    decreases n,
{
    if n < 10 {
        seq![(0x30 + n) as u8]
    } else {
        dec_digits(n / 10).push((0x30 + n % 10) as u8)
    }
}

pub proof fn lemma_dec_digits(n: nat)
    ensures
        dec_digits(n).len() >= 1,
        all_digits(dec_digits(n)),
        digits_val(dec_digits(n)) == n,
    decreases n,
{
    if n < 10 {
        let c = (0x30 + n) as u8;
        assert(seq![c].take(0) =~= Seq::<u8>::empty());
        assert(digits_val(Seq::<u8>::empty()) == 0);
        assert(digits_val(seq![c]) == (digits_val(seq![c].take(0)) * 10 + (c - 0x30)) as nat);
    } else {
        lemma_dec_digits(n / 10);
        lemma_digits_val_snoc(dec_digits(n / 10), (0x30 + n % 10) as u8);
        assert(all_digits(dec_digits(n))) by {
            let s = dec_digits(n / 10);
            let t = s.push((0x30 + n % 10) as u8);
            assert forall|i: int| 0 <= i < t.len() implies is_digit(#[trigger] t[i]) by {
                if i < s.len() {
                    assert(t[i] == s[i]);
                }
            }
        }
    }
}

/// Appends the decimal digits of `n` to `out`.
pub fn push_decimal(out: &mut Vec<u8>, n: u64)
    ensures
        final(out)@ == old(out)@ + dec_digits(n as nat),
    decreases n,
{
    if n < 10 {
        out.push((0x30 + n) as u8);
        proof {
            assert(out@ =~= old(out)@ + dec_digits(n as nat));
        }
        // single digit appended
    } else {
        push_decimal(out, n / 10);
        out.push((0x30 + (n % 10)) as u8);
        proof {
            assert(out@ =~= old(out)@ + dec_digits(n as nat));
        }
    }
}

/// Reads a greedy run of digits beginning at `pos` as a `u64`.
/// `None` when there is no digit at `pos` or the run overflows.
#[verifier::loop_isolation(false)]
pub fn read_decimal(s: &[u8], pos: usize) -> (r: Option<(u64, usize)>)
    requires
        pos <= s@.len(),
    ensures
        match r {
            Some(p) => {
                let (v, end) = p;
                &&& pos < end <= s@.len()
                &&& all_digits(s@.subrange(pos as int, end as int))
                &&& v == digits_val(s@.subrange(pos as int, end as int))
                &&& (end == s@.len() || !is_digit(s@[end as int]))
            },
            None => s@.len() == pos || !is_digit(s@[pos as int]) || digits_val(
                s@.subrange(pos as int, pos + digit_run(s@, pos as int)),
            ) > u64::MAX,
        },
{
    if pos == s.len() {
        return None;
    }
    if s[pos] < 0x30 || s[pos] > 0x39 {
        return None;
    }
    let mut acc: u64 = 0;
    let mut i: usize = pos;
    proof {
        lemma_digit_run(s@, pos as int);
    }
    while i < s.len() && s[i] >= 0x30 && s[i] <= 0x39
        invariant
            pos <= i <= s@.len(),
            all_digits(s@.subrange(pos as int, i as int)),
            acc == digits_val(s@.subrange(pos as int, i as int)),
            i - pos <= digit_run(s@, pos as int),
            forall|j: int| pos <= j < i ==> is_digit(#[trigger] s@[j]),
        decreases s@.len() - i,
    {
        let d: u64 = (s[i] - 0x30) as u64;
        if acc > (u64::MAX - d) / 10 {
            proof {
                let run = digit_run(s@, pos as int);
                lemma_digit_run(s@, pos as int);
                assert(s@.subrange(pos as int, i as int).push(s@[i as int]) =~= s@.subrange(
                    pos as int,
                    i + 1,
                ));
                lemma_digits_val_snoc(s@.subrange(pos as int, i as int), s@[i as int]);
                assert(i + 1 - pos <= run) by {
                    assert(is_digit(s@[i as int]));
                }
                assert(s@.subrange(pos as int, pos + run).take(i + 1 - pos) =~= s@.subrange(
                    pos as int,
                    i + 1,
                ));
                lemma_digits_val_mono(s@.subrange(pos as int, pos + run), i + 1 - pos);
            }
            return None;
        }
        proof {
            assert(s@.subrange(pos as int, i as int).push(s@[i as int]) =~= s@.subrange(
                pos as int,
                i + 1,
            ));
            lemma_digits_val_snoc(s@.subrange(pos as int, i as int), s@[i as int]);
            lemma_digit_run(s@, pos as int);
        }
        acc = acc * 10 + d;
        i += 1;
    }
    Some((acc, i))
}

/// Length of the digit run starting at `pos`.
pub open spec fn digit_run(s: Seq<u8>, pos: int) -> int
    decreases s.len() - pos,
{
    if pos < 0 || pos >= s.len() || !is_digit(s[pos]) {
        0
    } else {
        1 + digit_run(s, pos + 1)
    }
}

pub proof fn lemma_digit_run(s: Seq<u8>, pos: int)
    requires
        0 <= pos <= s.len(),
    ensures
        0 <= digit_run(s, pos),
        pos + digit_run(s, pos) <= s.len(),
        forall|j: int| pos <= j < pos + digit_run(s, pos) ==> is_digit(#[trigger] s[j]),
        pos + digit_run(s, pos) == s.len() || !is_digit(s[pos + digit_run(s, pos)]),
    decreases s.len() - pos,
{
    if pos < s.len() && is_digit(s[pos]) {
        lemma_digit_run(s, pos + 1);
    }
}

} // verus!
