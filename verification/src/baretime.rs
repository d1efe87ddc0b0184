//! The bare clock-time decoder: plain text split on whitespace, a
//! `*start`-marked token setting the gun time, and the last plain
//! colon-bearing token setting the running clock. The whole buffer is
//! consumed in one pass; input that is not valid UTF-8 is left untouched.

use vstd::prelude::*;

use crate::bytes;
use crate::csv::race_index;
use crate::csv::lemma_race_index;
use crate::state::RaceData;
use crate::state::RaceModel;
use crate::state::ScoreboardState;
use crate::state::StateModel;
use crate::state::state_wf;
use crate::state::copy_bytes;

verus! {

pub open spec fn is_cont(b: u8) -> bool {
    0x80 <= b <= 0xbf
}

/// Standard UTF-8 validity, as text decoding accepts it.
pub open spec fn is_utf8(s: Seq<u8>) -> bool
    decreases s.len(),
{
    if s.len() == 0 {
        true
    } else {
        let b0 = s[0];
        if b0 < 0x80 {
            is_utf8(s.skip(1))
        } else if 0xc2 <= b0 <= 0xdf {
            s.len() >= 2 && is_cont(s[1]) && is_utf8(s.skip(2))
        } else if b0 == 0xe0 {
            s.len() >= 3 && 0xa0 <= s[1] <= 0xbf && is_cont(s[2]) && is_utf8(s.skip(3))
        } else if 0xe1 <= b0 <= 0xec || b0 == 0xee || b0 == 0xef {
            s.len() >= 3 && is_cont(s[1]) && is_cont(s[2]) && is_utf8(s.skip(3))
        } else if b0 == 0xed {
            s.len() >= 3 && 0x80 <= s[1] <= 0x9f && is_cont(s[2]) && is_utf8(s.skip(3))
        } else if b0 == 0xf0 {
            s.len() >= 4 && 0x90 <= s[1] <= 0xbf && is_cont(s[2]) && is_cont(s[3]) && is_utf8(
                s.skip(4),
            )
        } else if 0xf1 <= b0 <= 0xf3 {
            s.len() >= 4 && is_cont(s[1]) && is_cont(s[2]) && is_cont(s[3]) && is_utf8(s.skip(4))
        } else if b0 == 0xf4 {
            s.len() >= 4 && 0x80 <= s[1] <= 0x8f && is_cont(s[2]) && is_cont(s[3]) && is_utf8(
                s.skip(4),
            )
        } else {
            false
        }
    }
}

/// Executable UTF-8 validity check mirroring [`is_utf8`].
#[verifier::loop_isolation(false)]
pub fn check_utf8(s: &[u8]) -> (r: bool)
    ensures
        r == is_utf8(s@),
{
    let n = s.len();
    let mut i: usize = 0;
    proof {
        assert(s@.skip(0) =~= s@);
    }
    while i < n
        invariant
            0 <= i <= n,
            n == s@.len(),
            is_utf8(s@) == is_utf8(s@.skip(i as int)),
        decreases n - i,
    {
        let ghost rest = s@.skip(i as int);
        proof {
            assert(rest[0] == s@[i as int]);
            if rest.len() >= 2 {
                assert(rest[1] == s@[i + 1]);
            }
            if rest.len() >= 3 {
                assert(rest[2] == s@[i + 2]);
            }
            if rest.len() >= 4 {
                assert(rest[3] == s@[i + 3]);
            }
        }
        let b0 = s[i];
        let step: usize = if b0 < 0x80 {
            1
        } else if 0xc2 <= b0 && b0 <= 0xdf {
            if !(n - i > 1 && 0x80 <= s[i + 1] && s[i + 1] <= 0xbf) {
                return false;
            }
            2
        } else if b0 == 0xe0 {
            if !(n - i > 2 && 0xa0 <= s[i + 1] && s[i + 1] <= 0xbf && 0x80 <= s[i + 2] && s[i + 2]
                <= 0xbf) {
                return false;
            }
            3
        } else if (0xe1 <= b0 && b0 <= 0xec) || b0 == 0xee || b0 == 0xef {
            if !(n - i > 2 && 0x80 <= s[i + 1] && s[i + 1] <= 0xbf && 0x80 <= s[i + 2] && s[i + 2]
                <= 0xbf) {
                return false;
            }
            3
        } else if b0 == 0xed {
            if !(n - i > 2 && 0x80 <= s[i + 1] && s[i + 1] <= 0x9f && 0x80 <= s[i + 2] && s[i + 2]
                <= 0xbf) {
                return false;
            }
            3
        } else if b0 == 0xf0 {
            if !(n - i > 3 && 0x90 <= s[i + 1] && s[i + 1] <= 0xbf && 0x80 <= s[i + 2] && s[i + 2]
                <= 0xbf && 0x80 <= s[i + 3] && s[i + 3] <= 0xbf) {
                return false;
            }
            4
        } else if 0xf1 <= b0 && b0 <= 0xf3 {
            if !(n - i > 3 && 0x80 <= s[i + 1] && s[i + 1] <= 0xbf && 0x80 <= s[i + 2] && s[i + 2]
                <= 0xbf && 0x80 <= s[i + 3] && s[i + 3] <= 0xbf) {
                return false;
            }
            4
        } else if b0 == 0xf4 {
            if !(n - i > 3 && 0x80 <= s[i + 1] && s[i + 1] <= 0x8f && 0x80 <= s[i + 2] && s[i + 2]
                <= 0xbf && 0x80 <= s[i + 3] && s[i + 3] <= 0xbf) {
                return false;
            }
            4
        } else {
            return false;
        };
        proof {
            assert(rest.skip(step as int) =~= s@.skip(i + step));
        }
        i += step;
    }
    proof {
        assert(s@.skip(n as int) =~= Seq::<u8>::empty());
    }
    true
}

/// Index of the first whitespace byte, or the length when there is none.
pub open spec fn find_ws(s: Seq<u8>) -> int
    decreases s.len(),
{
    if s.len() == 0 {
        0
    } else if bytes::is_ws(s[0]) {
        0
    } else {
        1 + find_ws(s.skip(1))
    }
}

pub proof fn lemma_find_ws(s: Seq<u8>)
    ensures
        0 <= find_ws(s) <= s.len(),
        forall|j: int| 0 <= j < find_ws(s) ==> !bytes::is_ws(#[trigger] s[j]),
        find_ws(s) == s.len() || bytes::is_ws(s[find_ws(s)]),
    decreases s.len(),
{
    if s.len() == 0 {
    } else if bytes::is_ws(s[0]) {
    } else {
        lemma_find_ws(s.skip(1));
        assert forall|j: int| 0 <= j < find_ws(s) implies !bytes::is_ws(#[trigger] s[j]) by {
            if j > 0 {
                assert(s[j] == s.skip(1)[j - 1]);
            }
        }
        if find_ws(s) < s.len() {
            assert(s[find_ws(s)] == s.skip(1)[find_ws(s.skip(1))]);
        }
    }
}

/// Whitespace-separated tokens, with no empty tokens.
pub open spec fn split_ws(s: Seq<u8>) -> Seq<Seq<u8>>
    decreases s.len(),
    via split_ws_decreases
{
    if s.len() == 0 {
        Seq::empty()
    } else if bytes::is_ws(s[0]) {
        split_ws(s.skip(1))
    } else {
        seq![s.take(find_ws(s))] + split_ws(s.skip(find_ws(s)))
    }
}

#[via_fn]
proof fn split_ws_decreases(s: Seq<u8>) {
    if s.len() > 0 && !bytes::is_ws(s[0]) {
        lemma_find_ws(s);
        assert(find_ws(s) >= 1);
    }
}

/// Whitespace-splitting, executably.
#[verifier::loop_isolation(false)]
pub fn split_ws_bytes(s: &[u8]) -> (out: Vec<Vec<u8>>)
    ensures
        out.deep_view() == split_ws(s@),
{
    let n = s.len();
    let mut out: Vec<Vec<u8>> = Vec::new();
    let mut i: usize = 0;
    proof {
        assert(s@.skip(0) =~= s@);
        assert(out.deep_view() + split_ws(s@.skip(0)) =~~= split_ws(s@));
    }
    while i < n
        invariant
            0 <= i <= n,
            n == s@.len(),
            split_ws(s@) == out.deep_view() + split_ws(s@.skip(i as int)),
        decreases n - i,
    {
        let ghost rest = s@.skip(i as int);
        proof {
            assert(rest[0] == s@[i as int]);
        }
        if is_ws_byte(s[i]) {
            proof {
                assert(rest.skip(1) =~= s@.skip(i + 1));
            }
            i += 1;
        } else {
            let start: usize = i;
            let mut j: usize = i + 1;
            while j < n && !is_ws_byte_at(s, j)
                invariant
                    start < j <= n,
                    forall|k: int| start < k < j ==> !bytes::is_ws(#[trigger] s@[k]),
                decreases n - j,
            {
                j += 1;
            }
            proof {
                lemma_find_ws(rest);
                assert forall|k: int| 0 <= k < j - start implies !bytes::is_ws(
                    #[trigger] rest[k],
                ) by {
                    assert(rest[k] == s@[i + k]);
                }
                if j < n {
                    assert(rest[j - start] == s@[j as int]);
                    assert(bytes::is_ws(rest[j - start]));
                }
                assert(find_ws(rest) == j - start) by {
                    if find_ws(rest) < j - start {
                        assert(bytes::is_ws(rest[find_ws(rest)]) || find_ws(rest) == rest.len());
                    }
                    if find_ws(rest) > j - start {
                        assert(j - start < rest.len());
                        assert(!bytes::is_ws(rest[j - start]) || j as int == n);
                    }
                }
            }
            let tok = vstd::slice::slice_to_vec(vstd::slice::slice_subrange(s, start, j));
            let ghost prev = out.deep_view();
            out.push(tok);
            proof {
                assert(tok@ =~= rest.take(find_ws(rest)));
                assert(out.deep_view() =~~= prev + seq![rest.take(find_ws(rest))]);
                assert(rest.skip(find_ws(rest)) =~= s@.skip(j as int));
                assert(split_ws(rest) == seq![rest.take(find_ws(rest))] + split_ws(
                    s@.skip(j as int),
                ));
                assert(split_ws(s@) =~~= out.deep_view() + split_ws(s@.skip(j as int)));
            }
            i = j;
        }
    }
    proof {
        assert(s@.skip(n as int) =~= Seq::<u8>::empty());
        assert(out.deep_view() =~~= split_ws(s@));
    }
    out
}

fn is_ws_byte(b: u8) -> (r: bool)
    ensures
        r == bytes::is_ws(b),
{
    b == 0x20 || b == 0x09 || b == 0x0a || b == 0x0d || b == 0x0b || b == 0x0c
}

fn is_ws_byte_at(s: &[u8], j: usize) -> (r: bool)
    requires
        j < s@.len(),
    ensures
        r == bytes::is_ws(s@[j as int]),
{
    is_ws_byte(s[j])
}

/// The gun-start marker `*start`.
pub open spec fn star_start() -> Seq<u8> {
    seq![0x2au8, 0x73u8, 0x74u8, 0x61u8, 0x72u8, 0x74u8]
}

pub fn star_start_bytes() -> (v: Vec<u8>)
    ensures
        v@ == star_start(),
{
    let mut v: Vec<u8> = Vec::new();
    v.push(0x2au8);
    v.push(0x73u8);
    v.push(0x74u8);
    v.push(0x61u8);
    v.push(0x72u8);
    v.push(0x74u8);
    proof {
        assert(v@ =~= star_start());
    }
    v
}

/// Every occurrence of `tok` removed, left to right, as text replacement
/// with an empty replacement does.
pub open spec fn remove_all(s: Seq<u8>, tok: Seq<u8>) -> Seq<u8>
    decreases s.len(),
    via remove_all_decreases
{
    if tok.len() == 0 {
        s
    } else {
        match bytes::find_seq(s, tok) {
            Some(i) => s.take(i) + remove_all(s.skip(i + tok.len()), tok),
            None => s,
        }
    }
}

#[via_fn]
proof fn remove_all_decreases(s: Seq<u8>, tok: Seq<u8>) {
    bytes::lemma_find_seq(s, tok);
}

/// Executable token removal mirroring [`remove_all`].
#[verifier::loop_isolation(false)]
pub fn remove_all_bytes(s: &[u8], tok: &[u8]) -> (out: Vec<u8>)
    requires
        tok@.len() >= 1,
    ensures
        out@ == remove_all(s@, tok@),
{
    let mut out: Vec<u8> = Vec::new();
    let mut rest: &[u8] = s;
    proof {
        assert(out@ + remove_all(s@, tok@) =~= remove_all(s@, tok@));
    }
    loop
        invariant
            tok@.len() >= 1,
            remove_all(s@, tok@) == out@ + remove_all(rest@, tok@),
        decreases rest@.len(),
    {
        match bytes::scan_seq(rest, tok) {
            Some(i) => {
                proof {
                    bytes::lemma_find_seq(rest@, tok@);
                }
                let rlen = rest.len();
                let ghost prev_rest = rest@;
                let ghost prev_out = out@;
                let mut piece = vstd::slice::slice_to_vec(
                    vstd::slice::slice_subrange(rest, 0, i),
                );
                out.append(&mut piece);
                rest = vstd::slice::slice_subrange(rest, i + tok.len(), rlen);
                proof {
                    assert(out@ =~= prev_out + prev_rest.take(i as int));
                    assert(rest@ =~= prev_rest.skip(i + tok@.len()));
                    assert(remove_all(prev_rest, tok@) == prev_rest.take(i as int) + remove_all(
                        rest@,
                        tok@,
                    ));
                    assert(remove_all(s@, tok@) =~= out@ + remove_all(rest@, tok@));
                }
            },
            None => {
                let mut tail = vstd::slice::slice_to_vec(rest);
                let ghost prev_out = out@;
                out.append(&mut tail);
                proof {
                    assert(remove_all(rest@, tok@) == rest@);
                    assert(out@ =~= prev_out + rest@);
                }
                return out;
            },
        }
    }
}

/// Whether a token is read as the running clock: it holds a colon and no
/// comma, semicolon or gun marker.
pub open spec fn is_clock_token(p: Seq<u8>) -> bool {
    &&& bytes::contains_byte(p, 0x3au8)
    &&& !bytes::contains_byte(p, 0x2cu8)
    &&& !bytes::contains_byte(p, 0x3bu8)
    &&& !bytes::contains_seq(p, star_start())
}

/// First token carrying the gun marker.
pub open spec fn first_gun_token(parts: Seq<Seq<u8>>) -> Option<int>
    decreases parts.len(),
{
    if parts.len() == 0 {
        None
    } else if bytes::contains_seq(parts[0], star_start()) {
        Some(0)
    } else {
        match first_gun_token(parts.skip(1)) {
            Some(i) => Some(i + 1),
            None => None,
        }
    }
}

pub proof fn lemma_first_gun_token(parts: Seq<Seq<u8>>)
    ensures
        match first_gun_token(parts) {
            Some(i) => 0 <= i < parts.len() && bytes::contains_seq(parts[i], star_start())
                && forall|j: int|
                0 <= j < i ==> !bytes::contains_seq(#[trigger] parts[j], star_start()),
            None => forall|j: int|
                0 <= j < parts.len() ==> !bytes::contains_seq(#[trigger] parts[j], star_start()),
        },
    decreases parts.len(),
{
    if parts.len() == 0 {
    } else if bytes::contains_seq(parts[0], star_start()) {
    } else {
        lemma_first_gun_token(parts.skip(1));
        match first_gun_token(parts.skip(1)) {
            Some(i) => {
                assert(parts[i + 1] == parts.skip(1)[i]);
                assert forall|j: int| 0 <= j < i + 1 implies !bytes::contains_seq(
                    #[trigger] parts[j],
                    star_start(),
                ) by {
                    if j > 0 {
                        assert(parts[j] == parts.skip(1)[j - 1]);
                    }
                }
            },
            None => {
                assert forall|j: int| 0 <= j < parts.len() implies !bytes::contains_seq(
                    #[trigger] parts[j],
                    star_start(),
                ) by {
                    if j > 0 {
                        assert(parts[j] == parts.skip(1)[j - 1]);
                    }
                }
            },
        }
    }
}

/// Last token read as the running clock.
pub open spec fn last_clock_token(parts: Seq<Seq<u8>>) -> Option<int>
    decreases parts.len(),
{
    if parts.len() == 0 {
        None
    } else if is_clock_token(parts[parts.len() - 1]) {
        Some(parts.len() - 1)
    } else {
        last_clock_token(parts.take(parts.len() - 1))
    }
}

pub proof fn lemma_last_clock_token(parts: Seq<Seq<u8>>)
    ensures
        match last_clock_token(parts) {
            Some(i) => 0 <= i < parts.len() && is_clock_token(parts[i]) && forall|j: int|
                i < j < parts.len() ==> !is_clock_token(#[trigger] parts[j]),
            None => forall|j: int| 0 <= j < parts.len() ==> !is_clock_token(#[trigger] parts[j]),
        },
    decreases parts.len(),
{
    if parts.len() == 0 {
    } else if is_clock_token(parts[parts.len() - 1]) {
    } else {
        lemma_last_clock_token(parts.take(parts.len() - 1));
        match last_clock_token(parts.take(parts.len() - 1)) {
            Some(i) => {
                assert(parts.take(parts.len() - 1)[i] == parts[i]);
                assert forall|j: int| i < j < parts.len() implies !is_clock_token(
                    #[trigger] parts[j],
                ) by {
                    if j < parts.len() - 1 {
                        assert(parts[j] == parts.take(parts.len() - 1)[j]);
                    }
                }
            },
            None => {
                assert forall|j: int| 0 <= j < parts.len() implies !is_clock_token(
                    #[trigger] parts[j],
                ) by {
                    if j < parts.len() - 1 {
                        assert(parts[j] == parts.take(parts.len() - 1)[j]);
                    }
                }
            },
        }
    }
}

/// The gun-time step: the first `*start` token, marker stripped, becomes the
/// gun time, and amends the current event's race when one exists.
pub open spec fn gun_step(st: StateModel, parts: Seq<Seq<u8>>) -> (StateModel, bool) {
    match first_gun_token(parts) {
        Some(i) => {
            let tstr = remove_all(parts[i], star_start());
            if tstr.len() > 0 {
                let races2 = if st.event_number.len() > 0 {
                    match race_index(st.races, st.event_number) {
                        Some(k) => st.races.update(
                            k,
                            RaceModel { gun_time: tstr, ..st.races[k] },
                        ),
                        None => st.races,
                    }
                } else {
                    st.races
                };
                let touched = st.event_number.len() > 0 && race_index(st.races, st.event_number)
                    is Some;
                (StateModel { gun_time: tstr, races: races2, ..st }, touched)
            } else {
                (st, false)
            }
        },
        None => (st, false),
    }
}

/// The clock step: the last clock-like token becomes the running time.
pub open spec fn clock_step(st: StateModel, parts: Seq<Seq<u8>>) -> StateModel {
    match last_clock_token(parts) {
        Some(i) => StateModel { time: parts[i], running: true, ..st },
        None => st,
    }
}

/// One bare-time pass: on valid UTF-8 the gun step then the clock step run
/// and the whole buffer is consumed; otherwise nothing changes.
pub open spec fn time_pass(buf: Seq<u8>, st: StateModel) -> (Seq<u8>, StateModel, bool) {
    if is_utf8(buf) {
        let parts = split_ws(buf);
        let (st1, touched) = gun_step(st, parts);
        (Seq::empty(), clock_step(st1, parts), touched)
    } else {
        (buf, st, false)
    }
}

pub proof fn lemma_time_pass_wf(buf: Seq<u8>, st: StateModel)
    requires
        state_wf(st),
    ensures
        state_wf(time_pass(buf, st).1),
{
    let parts = split_ws(buf);
    let out = gun_step(st, parts).0;
    match first_gun_token(parts) {
        Some(i) => {
            lemma_race_index(st.races, st.event_number);
            assert(forall|a: int|
                0 <= a < out.races.len() ==> (#[trigger] out.races[a]).event_number
                    == st.races[a].event_number);
            assert(forall|a: int|
                0 <= a < out.races.len() ==> (#[trigger] out.races[a]).results
                    == st.races[a].results);
        },
        None => {},
    }
}

/// Executable bare-time pass mirroring [`time_pass`].
#[verifier::loop_isolation(false)]
pub fn decode_baretime(buffer: &mut Vec<u8>, state: &mut ScoreboardState) -> (touched: bool)
    ensures
        (final(buffer)@, final(state)@, touched) == time_pass(old(buffer)@, old(state)@),
{
    let ghost buf0 = buffer@;
    let ghost st0 = state@;
    if !check_utf8(buffer.as_slice()) {
        return false;
    }
    let parts = split_ws_bytes(buffer.as_slice());
    let ghost pview = split_ws(buf0);
    let marker = star_start_bytes();
    let mut touched = false;

    // gun step
    let mut gi: usize = 0;
    let mut gun_found = false;
    while gi < parts.len() && !gun_found
        invariant
            0 <= gi <= parts@.len(),
            parts.deep_view() == pview,
            marker@ == star_start(),
            !gun_found ==> forall|j: int|
                0 <= j < gi ==> !bytes::contains_seq(#[trigger] pview[j], star_start()),
            gun_found ==> gi < parts@.len() && first_gun_token(pview) == Some(gi as int),
            state@ == st0,
            touched == false,
        decreases parts@.len() - gi, (if gun_found { 0int } else { 1int }),
    {
        proof {
            assert(parts[gi as int]@ =~= pview[gi as int]);
        }
        if bytes::scan_seq(parts[gi].as_slice(), marker.as_slice()).is_some() {
            gun_found = true;
            proof {
                lemma_first_gun_token(pview);
            }
        } else {
            gi += 1;
        }
    }
    proof {
        lemma_first_gun_token(pview);
    }
    if gun_found {
        proof {
            assert(parts[gi as int]@ =~= pview[gi as int]);
        }
        let tstr = remove_all_bytes(parts[gi].as_slice(), marker.as_slice());
        if tstr.len() > 0 {
            state.gun_time = copy_bytes(&tstr);
            if state.event_number.len() > 0 {
                proof {
                    lemma_race_index(st0.races, st0.event_number);
                }
                let ghost races0 = st0.races;
                let mut ri: usize = 0;
                let mut found = false;
                let rn = state.races.len();
                while ri < rn && !found
                    invariant
                        0 <= ri <= rn,
                        rn == state.races@.len(),
                        tstr@ == remove_all(pview[gi as int], star_start()),
                        tstr@.len() > 0,
                        first_gun_token(pview) == Some(gi as int),
                        0 <= gi < pview.len(),
                        races0 == st0.races,
                        st0.event_number.len() > 0,
                        touched == found,
                        !found ==> state@ == (StateModel { gun_time: tstr@, ..st0 }),
                        !found ==> forall|j: int|
                            0 <= j < ri ==> (#[trigger] races0[j]).event_number
                                != st0.event_number,
                        found ==> state@ == gun_step(st0, pview).0 && gun_step(st0, pview).1,
                    decreases rn - ri, (if found { 0int } else { 1int }),
                {
                    let same = crate::state::bytes_eq_vec(
                        &state.races[ri].event_number,
                        &state.event_number,
                    );
                    if same {
                        proof {
                            assert(races0[ri as int].event_number == st0.event_number);
                            assert(race_index(races0, st0.event_number) == Some(ri as int));
                        }
                        let amended = RaceData {
                            event_name: copy_bytes(&state.races[ri].event_name),
                            event_number: copy_bytes(&state.races[ri].event_number),
                            gun_time: copy_bytes(&tstr),
                            results: crate::state::copy_results(&state.races[ri].results),
                        };
                        state.races.set(ri, amended);
                        touched = true;
                        found = true;
                        proof {
                            assert(state@.races =~~= races0.update(
                                ri as int,
                                RaceModel { gun_time: tstr@, ..races0[ri as int] },
                            ));
                            assert(state@ =~~= gun_step(st0, pview).0);
                        }
                    } else {
                        proof {
                            assert(races0[ri as int].event_number != st0.event_number);
                        }
                        ri += 1;
                    }
                }
                proof {
                    if !found {
                        assert(race_index(races0, st0.event_number) is None);
                        assert(state@ =~~= gun_step(st0, pview).0);
                    }
                    assert(touched == gun_step(st0, pview).1);
                }
            } else {
                proof {
                    assert(state@ =~~= gun_step(st0, pview).0);
                    assert(touched == gun_step(st0, pview).1);
                }
            }
        } else {
            proof {
                assert(state@ =~~= gun_step(st0, pview).0);
                assert(touched == gun_step(st0, pview).1);
            }
        }
    } else {
        proof {
            assert(state@ =~~= gun_step(st0, pview).0);
            assert(touched == gun_step(st0, pview).1);
        }
    }
    let ghost st1 = gun_step(st0, pview).0;

    // clock step
    let mut ci: usize = parts.len();
    let mut clock_found = false;
    while ci > 0 && !clock_found
        invariant
            0 <= ci <= parts@.len(),
            parts.deep_view() == pview,
            state@ == st1,
            !clock_found ==> forall|j: int|
                ci <= j < pview.len() ==> !is_clock_token(#[trigger] pview[j]),
            clock_found ==> ci < pview.len() && last_clock_token(pview) == Some(ci as int),
        decreases ci, (if clock_found { 0int } else { 1int }),
    {
        let cand: usize = ci - 1;
        proof {
            assert(parts[cand as int]@ =~= pview[cand as int]);
        }
        let p = parts[cand].as_slice();
        let has_colon = bytes::scan_byte(p, 0x3au8).is_some();
        let has_comma = bytes::scan_byte(p, 0x2cu8).is_some();
        let has_semi = bytes::scan_byte(p, 0x3bu8).is_some();
        let has_marker = bytes::scan_seq(p, marker.as_slice()).is_some();
        proof {
            bytes::lemma_find_byte_contains(pview[cand as int], 0x3au8);
            bytes::lemma_find_byte_contains(pview[cand as int], 0x2cu8);
            bytes::lemma_find_byte_contains(pview[cand as int], 0x3bu8);
        }
        if has_colon && !has_comma && !has_semi && !has_marker {
            clock_found = true;
            ci = cand;
            proof {
                lemma_last_clock_token(pview);
            }
        } else {
            ci = cand;
        }
    }
    proof {
        lemma_last_clock_token(pview);
    }
    if clock_found {
        proof {
            assert(parts[ci as int]@ =~= pview[ci as int]);
        }
        state.time = copy_bytes(&parts[ci]);
        state.running = true;
        proof {
            assert(state@ =~~= clock_step(st1, pview));
        }
    } else {
        proof {
            assert(state@ =~~= clock_step(st1, pview));
        }
    }
    buffer.clear();
    proof {
        assert(buffer@ =~= Seq::<u8>::empty());
    }
    touched
}

} // verus!
