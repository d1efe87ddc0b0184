//! Byte-sequence utilities shared by every decoder: searching, trimming,
//! splitting and token tests, each with a spec-level definition and an
//! executable counterpart proved against it.

use vstd::prelude::*;

verus! {

/// ASCII whitespace, as the record and token trimming understands it.
/// The trimming and token splitting are deliberately byte-level and treat
/// only these six bytes as whitespace; multi-byte Unicode whitespace in a
/// field is kept as field content.
pub open spec fn is_ws(b: u8) -> bool {
    b == 0x20 || b == 0x09 || b == 0x0a || b == 0x0d || b == 0x0b || b == 0x0c
}

/// First index of `b` in `s`, if any.
pub open spec fn find_byte(s: Seq<u8>, b: u8) -> Option<int>
    decreases s.len(),
{
    if s.len() == 0 {
        None
    } else if s[0] == b {
        Some(0)
    } else {
        match find_byte(s.skip(1), b) {
            Some(i) => Some(i + 1),
            None => None,
        }
    }
}

/// Last index of `b` in `s`, if any.
pub open spec fn rfind_byte(s: Seq<u8>, b: u8) -> Option<int>
    decreases s.len(),
{
    if s.len() == 0 {
        None
    } else if s[s.len() - 1] == b {
        Some(s.len() - 1)
    } else {
        rfind_byte(s.take(s.len() - 1), b)
    }
}

pub open spec fn contains_byte(s: Seq<u8>, b: u8) -> bool {
    exists|i: int| 0 <= i < s.len() && s[i] == b
}

/// First index at which `pat` occurs as a contiguous subrange of `s`.
pub open spec fn find_seq(s: Seq<u8>, pat: Seq<u8>) -> Option<int>
    decreases s.len(),
{
    if pat.len() == 0 {
        Some(0)
    } else if s.len() < pat.len() {
        None
    } else if s.take(pat.len() as int) == pat {
        Some(0)
    } else {
        match find_seq(s.skip(1), pat) {
            Some(i) => Some(i + 1),
            None => None,
        }
    }
}

pub open spec fn contains_seq(s: Seq<u8>, pat: Seq<u8>) -> bool {
    find_seq(s, pat) is Some
}

pub proof fn lemma_find_byte(s: Seq<u8>, b: u8)
    ensures
        match find_byte(s, b) {
            Some(i) => 0 <= i < s.len() && s[i] == b && forall|j: int| 0 <= j < i ==> s[j] != b,
            None => forall|j: int| 0 <= j < s.len() ==> s[j] != b,
        },
    decreases s.len(),
{
    if s.len() == 0 {
    } else if s[0] == b {
    } else {
        lemma_find_byte(s.skip(1), b);
        match find_byte(s.skip(1), b) {
            Some(i) => {
                assert(s[i + 1] == s.skip(1)[i]);
                assert forall|j: int| 0 <= j < i + 1 implies s[j] != b by {
                    if j > 0 {
                        assert(s[j] == s.skip(1)[j - 1]);
                    }
                }
            },
            None => {
                assert forall|j: int| 0 <= j < s.len() implies s[j] != b by {
                    if j > 0 {
                        assert(s[j] == s.skip(1)[j - 1]);
                    }
                }
            },
        }
    }
}

pub proof fn lemma_find_byte_contains(s: Seq<u8>, b: u8)
    ensures
        (find_byte(s, b) is Some) == contains_byte(s, b),
{
    lemma_find_byte(s, b);
    match find_byte(s, b) {
        Some(i) => {
            assert(contains_byte(s, b));
        },
        None => {},
    }
}

pub proof fn lemma_rfind_byte(s: Seq<u8>, b: u8)
    ensures
        match rfind_byte(s, b) {
            Some(i) => 0 <= i < s.len() && s[i] == b && forall|j: int| i < j < s.len() ==> s[j] != b,
            None => forall|j: int| 0 <= j < s.len() ==> s[j] != b,
        },
    decreases s.len(),
{
    if s.len() == 0 {
    } else if s[s.len() - 1] == b {
    } else {
        lemma_rfind_byte(s.take(s.len() - 1), b);
        match rfind_byte(s.take(s.len() - 1), b) {
            Some(i) => {
                assert(s.take(s.len() - 1)[i] == s[i]);
                assert forall|j: int| i < j < s.len() implies s[j] != b by {
                    if j < s.len() - 1 {
                        assert(s[j] == s.take(s.len() - 1)[j]);
                    }
                }
            },
            None => {
                assert forall|j: int| 0 <= j < s.len() implies s[j] != b by {
                    if j < s.len() - 1 {
                        assert(s[j] == s.take(s.len() - 1)[j]);
                    }
                }
            },
        }
    }
}

pub proof fn lemma_find_seq(s: Seq<u8>, pat: Seq<u8>)
    ensures
        match find_seq(s, pat) {
            Some(i) => 0 <= i && i + pat.len() <= s.len() && s.subrange(i, i + pat.len() as int)
                == pat && forall|j: int|
                0 <= j < i ==> #[trigger] s.subrange(j, j + pat.len() as int) != pat,
            None => forall|j: int|
                0 <= j && j + pat.len() <= s.len() ==> #[trigger] s.subrange(
                    j,
                    j + pat.len() as int,
                ) != pat,
        },
    decreases s.len(),
{
    if pat.len() == 0 {
        assert(s.subrange(0, 0) =~= pat);
    } else if s.len() < pat.len() {
    } else if s.take(pat.len() as int) == pat {
        assert(s.subrange(0, pat.len() as int) =~= s.take(pat.len() as int));
    } else {
        lemma_find_seq(s.skip(1), pat);
        assert(s.subrange(0, pat.len() as int) =~= s.take(pat.len() as int));
        match find_seq(s.skip(1), pat) {
            Some(i) => {
                assert(s.skip(1).subrange(i, i + pat.len() as int) =~= s.subrange(
                    i + 1,
                    i + 1 + pat.len() as int,
                ));
                assert forall|j: int| 0 <= j < i + 1 implies #[trigger] s.subrange(
                    j,
                    j + pat.len() as int,
                ) != pat by {
                    if j > 0 {
                        assert(s.subrange(j, j + pat.len() as int) =~= s.skip(1).subrange(
                            j - 1,
                            j - 1 + pat.len() as int,
                        ));
                    }
                }
            },
            None => {
                assert forall|j: int| 0 <= j && j + pat.len() <= s.len() implies #[trigger] s.subrange(
                    j,
                    j + pat.len() as int,
                ) != pat by {
                    if j > 0 {
                        assert(s.subrange(j, j + pat.len() as int) =~= s.skip(1).subrange(
                            j - 1,
                            j - 1 + pat.len() as int,
                        ));
                    }
                }
            },
        }
    }
}

/// Executable first-occurrence search for a single byte.
#[verifier::loop_isolation(false)]
pub fn scan_byte(s: &[u8], b: u8) -> (r: Option<usize>)
    ensures
        match r {
            Some(i) => find_byte(s@, b) == Some(i as int),
            None => find_byte(s@, b) is None,
        },
{
    proof {
        lemma_find_byte(s@, b);
    }
    let mut i: usize = 0;
    while i < s.len()
        invariant
            0 <= i <= s@.len(),
            forall|j: int| 0 <= j < i ==> s@[j] != b,
        decreases s@.len() - i,
    {
        if s[i] == b {
            proof {
                lemma_find_byte(s@, b);
            }
            return Some(i);
        }
        i += 1;
    }
    proof {
        lemma_find_byte(s@, b);
    }
    None
}

/// Executable last-occurrence search for a single byte.
#[verifier::loop_isolation(false)]
pub fn scan_byte_back(s: &[u8], b: u8) -> (r: Option<usize>)
    ensures
        match r {
            Some(i) => rfind_byte(s@, b) == Some(i as int),
            None => rfind_byte(s@, b) is None,
        },
{
    let mut i: usize = s.len();
    while i > 0
        invariant
            0 <= i <= s@.len(),
            forall|j: int| i <= j < s@.len() ==> s@[j] != b,
        decreases i,
    {
        i -= 1;
        if s[i] == b {
            proof {
                lemma_rfind_byte(s@, b);
            }
            return Some(i);
        }
    }
    proof {
        lemma_rfind_byte(s@, b);
    }
    None
}

/// Executable first-occurrence search for a byte pattern.
#[verifier::loop_isolation(false)]
pub fn scan_seq(s: &[u8], pat: &[u8]) -> (r: Option<usize>)
    requires
        pat@.len() >= 1,
    ensures
        match r {
            Some(i) => find_seq(s@, pat@) == Some(i as int),
            None => find_seq(s@, pat@) is None,
        },
{
    if s.len() < pat.len() {
        proof {
            lemma_find_seq(s@, pat@);
        }
        return None;
    }
    let mut i: usize = 0;
    while i <= s.len() - pat.len()
        invariant
            pat@.len() >= 1,
            pat@.len() <= s@.len(),
            0 <= i <= s@.len() - pat@.len() + 1,
            forall|j: int| 0 <= j < i ==> #[trigger] s@.subrange(j, j + pat@.len() as int) != pat@,
        decreases s@.len() - i,
    {
        let mut k: usize = 0;
        let mut ok: bool = true;
        while k < pat.len()
            invariant
                0 <= k <= pat@.len(),
                i + pat@.len() <= s@.len(),
                ok == (forall|m: int| 0 <= m < k ==> s@[i + m] == pat@[m]),
            decreases pat@.len() - k,
        {
            if s[i + k] != pat[k] {
                ok = false;
                k = pat.len();
            } else {
                k += 1;
            }
        }
        if ok {
            proof {
                assert(s@.subrange(i as int, i + pat@.len() as int) =~= pat@);
                lemma_find_seq(s@, pat@);
            }
            return Some(i);
        }
        proof {
            assert(s@.subrange(i as int, i + pat@.len() as int)[0] != pat@[0] || exists|m: int|
                0 < m < pat@.len() && s@.subrange(i as int, i + pat@.len() as int)[m] != pat@[m]);
        }
        i += 1;
    }
    proof {
        lemma_find_seq(s@, pat@);
    }
    None
}

/// Leading whitespace removed.
pub open spec fn trim_front(s: Seq<u8>) -> Seq<u8>
    decreases s.len(),
{
    if s.len() > 0 && is_ws(s[0]) {
        trim_front(s.skip(1))
    } else {
        s
    }
}

/// Trailing whitespace removed.
pub open spec fn trim_back(s: Seq<u8>) -> Seq<u8>
    decreases s.len(),
{
    if s.len() > 0 && is_ws(s[s.len() - 1]) {
        trim_back(s.take(s.len() - 1))
    } else {
        s
    }
}

/// Both ends trimmed of ASCII whitespace.
pub open spec fn trim(s: Seq<u8>) -> Seq<u8> {
    trim_back(trim_front(s))
}

proof fn lemma_trim_front_skip(s: Seq<u8>, i: int)
    requires
        0 <= i <= s.len(),
        forall|j: int| 0 <= j < i ==> is_ws(s[j]),
    ensures
        trim_front(s) == trim_front(s.skip(i)),
    decreases i,
{
    if i > 0 {
        assert(is_ws(s[0]));
        assert(s.skip(1).skip(i - 1) =~= s.skip(i));
        lemma_trim_front_skip(s.skip(1), i - 1);
    } else {
        assert(s.skip(0) =~= s);
    }
}

proof fn lemma_trim_front_id(s: Seq<u8>)
    requires
        s.len() == 0 || !is_ws(s[0]),
    ensures
        trim_front(s) == s,
{
}

proof fn lemma_trim_back_take(s: Seq<u8>, i: int)
    requires
        0 <= i <= s.len(),
        forall|j: int| i <= j < s.len() ==> is_ws(s[j]),
    ensures
        trim_back(s) == trim_back(s.take(i)),
    decreases s.len() - i,
{
    if i < s.len() {
        assert(is_ws(s[s.len() - 1]));
        assert(s.take(s.len() - 1).take(i) =~= s.take(i));
        lemma_trim_back_take(s.take(s.len() - 1), i);
    } else {
        assert(s.take(s.len() as int) =~= s);
    }
}

proof fn lemma_trim_back_id(s: Seq<u8>)
    requires
        s.len() == 0 || !is_ws(s[s.len() - 1]),
    ensures
        trim_back(s) == s,
{
}

/// Executable trim: copies the non-whitespace core of `s`.
#[verifier::loop_isolation(false)]
pub fn trim_bytes(s: &[u8]) -> (r: Vec<u8>)
    ensures
        r@ == trim(s@),
{
    let mut a: usize = 0;
    while a < s.len() && ascii_ws_byte(s[a])
        invariant
            0 <= a <= s@.len(),
            forall|j: int| 0 <= j < a ==> is_ws(s@[j]),
        decreases s@.len() - a,
    {
        a += 1;
    }
    proof {
        lemma_trim_front_skip(s@, a as int);
        lemma_trim_front_id(s@.skip(a as int));
    }
    // trim_front(s@) == s@.skip(a)
    let mut b: usize = s.len();
    while b > a && ascii_ws_byte(s[b - 1])
        invariant
            a <= b <= s@.len(),
            forall|j: int| b <= j < s@.len() ==> is_ws(s@[j]),
        decreases b,
    {
        b -= 1;
    }
    proof {
        let core = s@.skip(a as int);
        lemma_trim_back_take(core, b - a);
        assert(core.take(b - a) =~= s@.subrange(a as int, b as int));
        lemma_trim_back_id(core.take(b - a));
    }
    let out = vstd::slice::slice_to_vec(vstd::slice::slice_subrange(s, a, b));
    proof {
        assert(out@ == s@.subrange(a as int, b as int));
    }
    out
}

fn ascii_ws_byte(b: u8) -> (r: bool)
    ensures
        r == is_ws(b),
{
    b == 0x20 || b == 0x09 || b == 0x0a || b == 0x0d || b == 0x0b || b == 0x0c
}

/// Split `s` on every occurrence of `d`; adjacent delimiters and delimiters
/// at either end give empty segments, as text splitting conventionally does.
pub open spec fn split_on(s: Seq<u8>, d: u8) -> Seq<Seq<u8>>
    decreases s.len(),
    via split_on_decreases
{
    match find_byte(s, d) {
        Some(i) => seq![s.take(i)] + split_on(s.skip(i + 1), d),
        None => seq![s],
    }
}

#[via_fn]
proof fn split_on_decreases(s: Seq<u8>, d: u8) {
    lemma_find_byte(s, d);
}

pub proof fn lemma_split_on_len(s: Seq<u8>, d: u8)
    ensures
        split_on(s, d).len() >= 1,
    decreases s.len(),
{
    match find_byte(s, d) {
        Some(i) => {
            lemma_find_byte(s, d);
            lemma_split_on_len(s.skip(i + 1), d);
        },
        None => {},
    }
}

/// Executable split: returns the owned segments of `s` between delimiters.
#[verifier::loop_isolation(false)]
pub fn split_bytes(s: &[u8], d: u8) -> (r: Vec<Vec<u8>>)
    ensures
        r.deep_view() == split_on(s@, d),
{
    let mut out: Vec<Vec<u8>> = Vec::new();
    let mut rest: &[u8] = s;
    proof {
        assert(out.deep_view() + split_on(s@, d) =~~= split_on(s@, d));
    }
    loop
        invariant
            split_on(s@, d) == out.deep_view() + split_on(rest@, d),
        decreases rest@.len(),
    {
        match scan_byte(rest, d) {
            Some(i) => {
                proof {
                    lemma_find_byte(rest@, d);
                }
                let rlen = rest.len();
                let seg = vstd::slice::slice_to_vec(vstd::slice::slice_subrange(rest, 0, i));
                let ghost prev = out.deep_view();
                let ghost prev_rest = rest@;
                out.push(seg);
                rest = vstd::slice::slice_subrange(rest, i + 1, rlen);
                proof {
                    assert(prev_rest.take(i as int) =~= seg@);
                    assert(prev_rest.skip(i + 1) =~= rest@);
                    assert(out.deep_view() =~~= prev + seq![seg@]);
                    assert(split_on(prev_rest, d) == seq![seg@] + split_on(rest@, d));
                    assert(out.deep_view() + split_on(rest@, d) =~~= prev + (seq![seg@] + split_on(
                        rest@,
                        d,
                    )));
                }
            },
            None => {
                let seg = vstd::slice::slice_to_vec(rest);
                let ghost prev = out.deep_view();
                out.push(seg);
                proof {
                    assert(split_on(rest@, d) == seq![rest@]);
                    assert(out.deep_view() =~~= prev + seq![rest@]);
                    assert(split_on(s@, d) =~~= out.deep_view());
                }
                return out;
            },
        }
    }
}

/// Byte-for-byte equality of two slices.
#[verifier::loop_isolation(false)]
pub fn bytes_eq(a: &[u8], b: &[u8]) -> (r: bool)
    ensures
        r == (a@ == b@),
{
    if a.len() != b.len() {
        proof {
            assert(a@ != b@);
        }
        return false;
    }
    let mut i: usize = 0;
    while i < a.len()
        invariant
            a@.len() == b@.len(),
            0 <= i <= a@.len(),
            forall|j: int| 0 <= j < i ==> a@[j] == b@[j],
        decreases a@.len() - i,
    {
        if a[i] != b[i] {
            proof {
                assert(a@ != b@);
            }
            return false;
        }
        i += 1;
    }
    proof {
        assert(a@ =~= b@);
    }
    true
}

/// Removes the first `k` bytes of `v`.
pub fn drop_front(v: &mut Vec<u8>, k: usize)
    requires
        k <= old(v)@.len(),
    ensures
        final(v)@ == old(v)@.skip(k as int),
{
    let nv = vstd::slice::slice_to_vec(vstd::slice::slice_subrange(v.as_slice(), k, v.len()));
    proof {
        assert(nv@ =~= v@.skip(k as int));
    }
    *v = nv;
}


pub proof fn lemma_find_byte_concat_left(s1: Seq<u8>, s2: Seq<u8>, d: u8)
    requires
        contains_byte(s1, d),
    ensures
        find_byte(s1 + s2, d) == find_byte(s1, d),
{
    lemma_find_byte(s1, d);
    lemma_find_byte(s1 + s2, d);
    lemma_find_byte_contains(s1, d);
    let i = find_byte(s1, d).unwrap();
    assert((s1 + s2)[i] == s1[i]);
    match find_byte(s1 + s2, d) {
        Some(r) => {
            if r < i {
                assert((s1 + s2)[r] == s1[r]);
            }
            if r > i {
            }
        },
        None => {
            assert((s1 + s2)[i] == d);
        },
    }
}

/// Splitting a concatenation whose left part ends with the delimiter:
/// the left part's records (except its trailing empty segment) followed by
/// the right part's records.
pub proof fn lemma_split_concat_ends_delim(s1: Seq<u8>, s2: Seq<u8>, d: u8)
    requires
        s1.len() > 0,
        s1[s1.len() - 1] == d,
    ensures
        split_on(s1 + s2, d) == split_on(s1, d).take(split_on(s1, d).len() - 1) + split_on(s2, d),
    decreases s1.len(),
{
    lemma_find_byte(s1, d);
    lemma_find_byte_contains(s1, d);
    assert(contains_byte(s1, d));
    lemma_find_byte_concat_left(s1, s2, d);
    let i = find_byte(s1, d).unwrap();
    assert((s1 + s2).take(i) =~= s1.take(i));
    assert((s1 + s2).skip(i + 1) =~= s1.skip(i + 1) + s2);
    lemma_split_on_len(s1.skip(i + 1), d);
    lemma_split_on_len(s2, d);
    if i == s1.len() - 1 {
        assert(s1.skip(i + 1) =~= Seq::<u8>::empty());
        assert(s1.skip(i + 1) + s2 =~= s2);
        assert(find_byte(Seq::<u8>::empty(), d) is None);
        assert(split_on(s1, d) == seq![s1.take(i)] + seq![Seq::<u8>::empty()]);
        assert(split_on(s1, d).take(split_on(s1, d).len() - 1) =~= seq![s1.take(i)]);
        assert(split_on(s1 + s2, d) =~= seq![s1.take(i)] + split_on(s2, d));
    } else {
        let s1p = s1.skip(i + 1);
        assert(s1p.len() > 0 && s1p[s1p.len() - 1] == d) by {
            assert(s1p[s1p.len() - 1] == s1[s1.len() - 1]);
        }
        lemma_split_concat_ends_delim(s1p, s2, d);
        lemma_split_on_len(s1p, d);
        assert(split_on(s1, d) == seq![s1.take(i)] + split_on(s1p, d));
        assert(split_on(s1 + s2, d) == seq![s1.take(i)] + split_on(s1p + s2, d));
        assert(split_on(s1, d).take(split_on(s1, d).len() - 1) =~= seq![s1.take(i)] + split_on(
            s1p,
            d,
        ).take(split_on(s1p, d).len() - 1));
        assert(split_on(s1 + s2, d) =~= split_on(s1, d).take(split_on(s1, d).len() - 1)
            + split_on(s2, d));
    }
}

} // verus!
