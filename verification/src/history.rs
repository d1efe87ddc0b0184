//! The persisted race-history document: a line-oriented text format, one
//! length-prefixed field per line, written wholesale after every merge that
//! touches a keyed race and read back once at startup. Decoding an encoded
//! history gives back exactly the same races; anything malformed reads as
//! an empty history.
//!
//! The format is this library's own, chosen deliberately so that the
//! round trip can be stated and proved byte for byte. A document keyed by
//! event number in any other shape (for example a JSON object from an
//! earlier deployment) does not decode: it reads as an empty history, the
//! same recovery the startup path takes for any malformed file.

use vstd::prelude::*;

use crate::numbers;
use crate::state::AthleteResult;
use crate::state::AthleteRow;
use crate::state::RaceData;
use crate::state::RaceModel;
use crate::state::copy_bytes;
use crate::state::lanes_unique;
use crate::state::races_wf;

verus! {

/// One field: its length in decimal, a space, the raw bytes, a newline.
pub open spec fn enc_str(s: Seq<u8>) -> Seq<u8> {
    numbers::dec_digits(s.len()) + seq![0x20u8] + s + seq![0x0au8]
}

pub open spec fn enc_row(r: AthleteRow) -> Seq<u8> {
    enc_str(r.place) + enc_str(r.lane) + enc_str(r.id) + enc_str(r.name) + enc_str(r.affiliation)
        + enc_str(r.time) + enc_str(r.delta_time)
}

pub open spec fn enc_rows(rs: Seq<AthleteRow>) -> Seq<u8>
    decreases rs.len(),
{
    if rs.len() == 0 {
        Seq::empty()
    } else {
        enc_row(rs[0]) + enc_rows(rs.skip(1))
    }
}

/// One race: name, number and gun time, then the row count and the rows.
pub open spec fn enc_race(r: RaceModel) -> Seq<u8> {
    enc_str(r.event_name) + enc_str(r.event_number) + enc_str(r.gun_time) + numbers::dec_digits(
        r.results.len(),
    ) + seq![0x0au8] + enc_rows(r.results)
}

pub open spec fn enc_races(rs: Seq<RaceModel>) -> Seq<u8>
    decreases rs.len(),
{
    if rs.len() == 0 {
        Seq::empty()
    } else {
        enc_race(rs[0]) + enc_races(rs.skip(1))
    }
}

/// The whole document: the race count, then each race in order.
pub open spec fn enc_history(rs: Seq<RaceModel>) -> Seq<u8> {
    numbers::dec_digits(rs.len()) + seq![0x0au8] + enc_races(rs)
}

/// A decimal number at the head of `s`: the digit run and what follows.
pub open spec fn dec_num(s: Seq<u8>) -> Option<(nat, Seq<u8>)> {
    let run = numbers::digit_run(s, 0);
    let d = s.subrange(0, run);
    if run >= 1 && numbers::digits_val(d) <= u64::MAX {
        Some((numbers::digits_val(d), s.skip(run)))
    } else {
        None
    }
}

/// A field at the head of `s`.
pub open spec fn dec_str(s: Seq<u8>) -> Option<(Seq<u8>, Seq<u8>)> {
    match dec_num(s) {
        Some((n, rest)) => {
            if rest.len() >= n + 2 && rest[0] == 0x20u8 && rest[n as int + 1] == 0x0au8 {
                Some((rest.subrange(1, n as int + 1), rest.skip(n as int + 2)))
            } else {
                None
            }
        },
        None => None,
    }
}

pub open spec fn dec_row(s: Seq<u8>) -> Option<(AthleteRow, Seq<u8>)> {
    match dec_str(s) {
        Some((place, s1)) => match dec_str(s1) {
            Some((lane, s2)) => match dec_str(s2) {
                Some((id, s3)) => match dec_str(s3) {
                    Some((name, s4)) => match dec_str(s4) {
                        Some((affiliation, s5)) => match dec_str(s5) {
                            Some((time, s6)) => match dec_str(s6) {
                                Some((delta_time, s7)) => Some(
                                    (
                                        AthleteRow {
                                            place,
                                            lane,
                                            id,
                                            name,
                                            affiliation,
                                            time,
                                            delta_time,
                                        },
                                        s7,
                                    ),
                                ),
                                None => None,
                            },
                            None => None,
                        },
                        None => None,
                    },
                    None => None,
                },
                None => None,
            },
            None => None,
        },
        None => None,
    }
}

pub open spec fn dec_rows(s: Seq<u8>, k: nat) -> Option<(Seq<AthleteRow>, Seq<u8>)>
    decreases k,
{
    if k == 0 {
        Some((Seq::empty(), s))
    } else {
        match dec_row(s) {
            Some((r, s1)) => match dec_rows(s1, (k - 1) as nat) {
                Some((rs, s2)) => Some((seq![r] + rs, s2)),
                None => None,
            },
            None => None,
        }
    }
}

pub open spec fn dec_race(s: Seq<u8>) -> Option<(RaceModel, Seq<u8>)> {
    match dec_str(s) {
        Some((event_name, s1)) => match dec_str(s1) {
            Some((event_number, s2)) => match dec_str(s2) {
                Some((gun_time, s3)) => match dec_num(s3) {
                    Some((k, s4)) => {
                        if s4.len() >= 1 && s4[0] == 0x0au8 {
                            match dec_rows(s4.skip(1), k) {
                                Some((rows, s5)) => Some(
                                    (
                                        RaceModel {
                                            event_name,
                                            event_number,
                                            gun_time,
                                            results: rows,
                                        },
                                        s5,
                                    ),
                                ),
                                None => None,
                            }
                        } else {
                            None
                        }
                    },
                    None => None,
                },
                None => None,
            },
            None => None,
        },
        None => None,
    }
}

pub open spec fn dec_races(s: Seq<u8>, k: nat) -> Option<(Seq<RaceModel>, Seq<u8>)>
    decreases k,
{
    if k == 0 {
        Some((Seq::empty(), s))
    } else {
        match dec_race(s) {
            Some((r, s1)) => match dec_races(s1, (k - 1) as nat) {
                Some((rs, s2)) => Some((seq![r] + rs, s2)),
                None => None,
            },
            None => None,
        }
    }
}

/// The whole document, which must be consumed exactly.
pub open spec fn dec_history(s: Seq<u8>) -> Option<Seq<RaceModel>> {
    match dec_num(s) {
        Some((k, s1)) => {
            if s1.len() >= 1 && s1[0] == 0x0au8 {
                match dec_races(s1.skip(1), k) {
                    Some((rs, s2)) => {
                        if s2.len() == 0 {
                            Some(rs)
                        } else {
                            None
                        }
                    },
                    None => None,
                }
            } else {
                None
            }
        },
        None => None,
    }
}

/// Every length the encoding writes fits the machine.
pub open spec fn row_bounded(r: AthleteRow) -> bool {
    &&& r.place.len() <= u64::MAX
    &&& r.lane.len() <= u64::MAX
    &&& r.id.len() <= u64::MAX
    &&& r.name.len() <= u64::MAX
    &&& r.affiliation.len() <= u64::MAX
    &&& r.time.len() <= u64::MAX
    &&& r.delta_time.len() <= u64::MAX
}

pub open spec fn race_bounded(r: RaceModel) -> bool {
    &&& r.event_name.len() <= u64::MAX
    &&& r.event_number.len() <= u64::MAX
    &&& r.gun_time.len() <= u64::MAX
    &&& r.results.len() <= u64::MAX
    &&& forall|i: int| 0 <= i < r.results.len() ==> row_bounded(#[trigger] r.results[i])
}

pub open spec fn history_bounded(rs: Seq<RaceModel>) -> bool {
    &&& rs.len() <= u64::MAX
    &&& forall|i: int| 0 <= i < rs.len() ==> race_bounded(#[trigger] rs[i])
}

proof fn lemma_digit_run_exact(s: Seq<u8>, k: int)
    requires
        0 <= k <= s.len(),
        forall|j: int| 0 <= j < k ==> numbers::is_digit(#[trigger] s[j]),
        k == s.len() || !numbers::is_digit(s[k]),
    ensures
        numbers::digit_run(s, 0) == k,
{
    numbers::lemma_digit_run(s, 0);
    let run = numbers::digit_run(s, 0);
    if run < k {
        assert(numbers::is_digit(s[run]));
    }
    if run > k {
        assert(numbers::is_digit(s[k]));
    }
}

proof fn lemma_dec_num_enc(n: nat, rest: Seq<u8>)
    requires
        n <= u64::MAX,
        rest.len() == 0 || !numbers::is_digit(rest[0]),
    ensures
        dec_num(numbers::dec_digits(n) + rest) == Some((n, rest)),
{
    let d = numbers::dec_digits(n);
    let s = d + rest;
    numbers::lemma_dec_digits(n);
    assert forall|j: int| 0 <= j < d.len() implies numbers::is_digit(#[trigger] s[j]) by {
        assert(s[j] == d[j]);
    }
    if rest.len() > 0 {
        assert(s[d.len() as int] == rest[0]);
    }
    lemma_digit_run_exact(s, d.len() as int);
    assert(s.subrange(0, d.len() as int) =~= d);
    assert(s.skip(d.len() as int) =~= rest);
}

proof fn lemma_dec_str_enc(v: Seq<u8>, rest: Seq<u8>)
    requires
        v.len() <= u64::MAX,
    ensures
        dec_str(enc_str(v) + rest) == Some((v, rest)),
{
    let tail = seq![0x20u8] + v + seq![0x0au8] + rest;
    assert(enc_str(v) + rest =~= numbers::dec_digits(v.len()) + tail);
    assert(tail[0] == 0x20u8);
    lemma_dec_num_enc(v.len(), tail);
    assert(tail.len() >= v.len() + 2);
    assert(tail[v.len() as int + 1] == 0x0au8);
    assert(tail.subrange(1, v.len() as int + 1) =~= v);
    assert(tail.skip(v.len() as int + 2) =~= rest);
}

#[verifier::rlimit(50)]
proof fn lemma_dec_row_enc(r: AthleteRow, rest: Seq<u8>)
    requires
        row_bounded(r),
    ensures
        dec_row(enc_row(r) + rest) == Some((r, rest)),
{
    let t6 = enc_str(r.delta_time) + rest;
    let t5 = enc_str(r.time) + t6;
    let t4 = enc_str(r.affiliation) + t5;
    let t3 = enc_str(r.name) + t4;
    let t2 = enc_str(r.id) + t3;
    let t1 = enc_str(r.lane) + t2;
    assert(enc_row(r) + rest =~= enc_str(r.place) + t1);
    lemma_dec_str_enc(r.place, t1);
    assert(t1 =~= enc_str(r.lane) + t2);
    lemma_dec_str_enc(r.lane, t2);
    lemma_dec_str_enc(r.id, t3);
    lemma_dec_str_enc(r.name, t4);
    lemma_dec_str_enc(r.affiliation, t5);
    lemma_dec_str_enc(r.time, t6);
    lemma_dec_str_enc(r.delta_time, rest);
    assert(dec_row(enc_row(r) + rest) == Some(
        (
            AthleteRow {
                place: r.place,
                lane: r.lane,
                id: r.id,
                name: r.name,
                affiliation: r.affiliation,
                time: r.time,
                delta_time: r.delta_time,
            },
            rest,
        ),
    ));
    assert(r =~= AthleteRow {
        place: r.place,
        lane: r.lane,
        id: r.id,
        name: r.name,
        affiliation: r.affiliation,
        time: r.time,
        delta_time: r.delta_time,
    });
}

proof fn lemma_dec_rows_enc(rs: Seq<AthleteRow>, rest: Seq<u8>)
    requires
        rs.len() <= u64::MAX,
        forall|i: int| 0 <= i < rs.len() ==> row_bounded(#[trigger] rs[i]),
    ensures
        dec_rows(enc_rows(rs) + rest, rs.len() as nat) == Some((rs, rest)),
    decreases rs.len(),
{
    if rs.len() == 0 {
        assert(enc_rows(rs) + rest =~= rest);
        assert(dec_rows(rest, 0) == Some((Seq::<AthleteRow>::empty(), rest)));
        assert(rs =~= Seq::<AthleteRow>::empty());
    } else {
        let tail = enc_rows(rs.skip(1)) + rest;
        assert(enc_rows(rs) + rest =~= enc_row(rs[0]) + tail);
        lemma_dec_row_enc(rs[0], tail);
        lemma_dec_rows_enc(rs.skip(1), rest);
        assert(seq![rs[0]] + rs.skip(1) =~= rs);
    }
}

proof fn lemma_dec_race_enc(r: RaceModel, rest: Seq<u8>)
    requires
        race_bounded(r),
    ensures
        dec_race(enc_race(r) + rest) == Some((r, rest)),
{
    let t4 = enc_rows(r.results) + rest;
    let t3 = numbers::dec_digits(r.results.len()) + seq![0x0au8] + t4;
    let t2 = enc_str(r.gun_time) + t3;
    let t1 = enc_str(r.event_number) + t2;
    assert(enc_race(r) + rest =~= enc_str(r.event_name) + t1);
    lemma_dec_str_enc(r.event_name, t1);
    assert(t1 =~= enc_str(r.event_number) + t2);
    lemma_dec_str_enc(r.event_number, t2);
    lemma_dec_str_enc(r.gun_time, t3);
    let nl_tail = seq![0x0au8] + t4;
    assert(t3 =~= numbers::dec_digits(r.results.len()) + nl_tail);
    assert(nl_tail[0] == 0x0au8);
    lemma_dec_num_enc(r.results.len(), nl_tail);
    assert(nl_tail.skip(1) =~= t4);
    lemma_dec_rows_enc(r.results, rest);
    assert(r =~= RaceModel {
        event_name: r.event_name,
        event_number: r.event_number,
        gun_time: r.gun_time,
        results: r.results,
    });
}

proof fn lemma_dec_races_enc(rs: Seq<RaceModel>, rest: Seq<u8>)
    requires
        rs.len() <= u64::MAX,
        forall|i: int| 0 <= i < rs.len() ==> race_bounded(#[trigger] rs[i]),
    ensures
        dec_races(enc_races(rs) + rest, rs.len() as nat) == Some((rs, rest)),
    decreases rs.len(),
{
    if rs.len() == 0 {
        assert(enc_races(rs) + rest =~= rest);
        assert(rs =~= Seq::<RaceModel>::empty());
    } else {
        let tail = enc_races(rs.skip(1)) + rest;
        assert(enc_races(rs) + rest =~= enc_race(rs[0]) + tail);
        lemma_dec_race_enc(rs[0], tail);
        lemma_dec_races_enc(rs.skip(1), rest);
        assert(seq![rs[0]] + rs.skip(1) =~= rs);
    }
}

/// Round trip: decoding an encoded history gives back exactly the same
/// races, field for field and in the same order. Persistence through this
/// format is lossless for every modeled field.
pub proof fn lemma_history_round_trip(rs: Seq<RaceModel>)
    requires
        history_bounded(rs),
    ensures
        dec_history(enc_history(rs)) == Some(rs),
{
    let nl_tail = seq![0x0au8] + enc_races(rs);
    assert(enc_history(rs) =~= numbers::dec_digits(rs.len()) + nl_tail);
    assert(nl_tail[0] == 0x0au8);
    lemma_dec_num_enc(rs.len(), nl_tail);
    assert(nl_tail.skip(1) =~= enc_races(rs));
    assert(enc_races(rs) =~= enc_races(rs) + Seq::<u8>::empty());
    lemma_dec_races_enc(rs, Seq::empty());
}

/// Appends one encoded field.
fn push_field(out: &mut Vec<u8>, v: &Vec<u8>)
    ensures
        final(out)@ == old(out)@ + enc_str(v@),
{
    let ghost base = out@;
    numbers::push_decimal(out, v.len() as u64);
    out.push(0x20u8);
    let mut body = copy_bytes(v);
    out.append(&mut body);
    out.push(0x0au8);
    proof {
        assert(out@ =~= base + enc_str(v@));
    }
}

/// Appends one encoded row.
fn push_row(out: &mut Vec<u8>, r: &AthleteResult)
    ensures
        final(out)@ == old(out)@ + enc_row(r@),
{
    let ghost base = out@;
    push_field(out, &r.place);
    push_field(out, &r.lane);
    push_field(out, &r.id);
    push_field(out, &r.name);
    push_field(out, &r.affiliation);
    push_field(out, &r.time);
    push_field(out, &r.delta_time);
    proof {
        assert(out@ =~= base + enc_row(r@));
    }
}

proof fn lemma_enc_rows_snoc(rs: Seq<AthleteRow>, r: AthleteRow)
    ensures
        enc_rows(rs.push(r)) == enc_rows(rs) + enc_row(r),
    decreases rs.len(),
{
    if rs.len() == 0 {
        assert(rs.push(r)[0] == r);
        assert(rs.push(r).skip(1) =~= Seq::<AthleteRow>::empty());
        assert(enc_rows(Seq::<AthleteRow>::empty()) == Seq::<u8>::empty());
        assert(enc_rows(rs.push(r)) == enc_row(r) + Seq::<u8>::empty());
        assert(enc_rows(rs.push(r)) =~= enc_rows(rs) + enc_row(r));
    } else {
        assert(rs.push(r).skip(1) =~= rs.skip(1).push(r));
        lemma_enc_rows_snoc(rs.skip(1), r);
        assert(rs.push(r)[0] == rs[0]);
        assert(enc_rows(rs.push(r)) == enc_row(rs[0]) + enc_rows(rs.skip(1).push(r)));
        assert(enc_rows(rs) == enc_row(rs[0]) + enc_rows(rs.skip(1)));
        assert(enc_rows(rs.push(r)) =~= enc_rows(rs) + enc_row(r));
    }
}

proof fn lemma_enc_races_snoc(rs: Seq<RaceModel>, r: RaceModel)
    ensures
        enc_races(rs.push(r)) == enc_races(rs) + enc_race(r),
    decreases rs.len(),
{
    if rs.len() == 0 {
        assert(rs.push(r)[0] == r);
        assert(rs.push(r).skip(1) =~= Seq::<RaceModel>::empty());
        assert(enc_races(Seq::<RaceModel>::empty()) == Seq::<u8>::empty());
        assert(enc_races(rs.push(r)) == enc_race(r) + Seq::<u8>::empty());
        assert(enc_races(rs.push(r)) =~= enc_races(rs) + enc_race(r));
    } else {
        assert(rs.push(r).skip(1) =~= rs.skip(1).push(r));
        lemma_enc_races_snoc(rs.skip(1), r);
        assert(rs.push(r)[0] == rs[0]);
        assert(enc_races(rs.push(r)) == enc_race(rs[0]) + enc_races(rs.skip(1).push(r)));
        assert(enc_races(rs) == enc_race(rs[0]) + enc_races(rs.skip(1)));
        assert(enc_races(rs.push(r)) =~= enc_races(rs) + enc_race(r));
    }
}

/// Appends one encoded race.
#[verifier::loop_isolation(false)]
fn push_race(out: &mut Vec<u8>, r: &RaceData)
    ensures
        final(out)@ == old(out)@ + enc_race(r@),
{
    let ghost base = out@;
    push_field(out, &r.event_name);
    push_field(out, &r.event_number);
    push_field(out, &r.gun_time);
    numbers::push_decimal(out, r.results.len() as u64);
    out.push(0x0au8);
    let ghost mid = out@;
    let ghost rows = r@.results;
    let mut i: usize = 0;
    proof {
        assert(out@ =~= mid + enc_rows(rows.take(0)));
    }
    while i < r.results.len()
        invariant
            0 <= i <= r.results@.len(),
            rows == r@.results,
            out@ == mid + enc_rows(rows.take(i as int)),
        decreases r.results@.len() - i,
    {
        push_row(out, &r.results[i]);
        proof {
            assert(rows.take(i as int).push(rows[i as int]) =~= rows.take(i + 1));
            lemma_enc_rows_snoc(rows.take(i as int), rows[i as int]);
            assert(rows[i as int] == r.results@[i as int]@);
        }
        i += 1;
    }
    proof {
        assert(rows.take(rows.len() as int) =~= rows);
        assert(out@ =~= base + enc_race(r@));
    }
}

/// The whole history as its persisted document.
#[verifier::loop_isolation(false)]
pub fn encode_history(races: &Vec<RaceData>) -> (out: Vec<u8>)
    ensures
        out@ == enc_history(races@.map_values(|r: RaceData| r@)),
{
    let ghost rs = races@.map_values(|r: RaceData| r@);
    let mut out: Vec<u8> = Vec::new();
    numbers::push_decimal(&mut out, races.len() as u64);
    out.push(0x0au8);
    let ghost mid = out@;
    let mut i: usize = 0;
    proof {
        assert(out@ =~= mid + enc_races(rs.take(0)));
    }
    while i < races.len()
        invariant
            0 <= i <= races@.len(),
            rs == races@.map_values(|r: RaceData| r@),
            out@ == mid + enc_races(rs.take(i as int)),
        decreases races@.len() - i,
    {
        push_race(&mut out, &races[i]);
        proof {
            assert(rs.take(i as int).push(rs[i as int]) =~= rs.take(i + 1));
            lemma_enc_races_snoc(rs.take(i as int), rs[i as int]);
            assert(rs[i as int] == races@[i as int]@);
        }
        i += 1;
    }
    proof {
        assert(rs.take(rs.len() as int) =~= rs);
        assert(out@ =~= enc_history(rs));
    }
    out
}


proof fn lemma_digit_run_shift(s: Seq<u8>, pos: int, k: int)
    requires
        0 <= pos,
        0 <= k,
        pos + k <= s.len(),
    ensures
        numbers::digit_run(s.skip(pos), k) == numbers::digit_run(s, pos + k),
    decreases s.len() - pos - k,
{
    if pos + k < s.len() {
        assert(s.skip(pos)[k] == s[pos + k]);
        if numbers::is_digit(s[pos + k]) {
            lemma_digit_run_shift(s, pos, k + 1);
        }
    }
}

/// One field read at `pos`, mirroring [`dec_str`] on the remaining input.
#[verifier::loop_isolation(false)]
fn read_field(s: &[u8], pos: usize) -> (r: Option<(Vec<u8>, usize)>)
    requires
        pos <= s@.len(),
    ensures
        match r {
            Some(p) => {
                &&& dec_str(s@.skip(pos as int)) == Some((p.0@, s@.skip(p.1 as int)))
                &&& pos < p.1 <= s@.len()
            },
            None => dec_str(s@.skip(pos as int)) is None,
        },
{
    let ghost rem = s@.skip(pos as int);
    proof {
        lemma_digit_run_shift(s@, pos as int, 0);
        numbers::lemma_digit_run(s@, pos as int);
    }
    let (v, end) = match numbers::read_decimal(s, pos) {
        Some(p) => p,
        None => {
            proof {
                assert(rem.subrange(0, numbers::digit_run(rem, 0)) =~= s@.subrange(
                    pos as int,
                    pos + numbers::digit_run(s@, pos as int),
                ));
                assert(dec_num(rem) is None);
            }
            return None;
        },
    };
    proof {
        let run = numbers::digit_run(s@, pos as int);
        assert(run == end - pos) by {
            if run < end - pos {
                assert(s@.subrange(pos as int, end as int)[run] == s@[pos + run]);
                assert(numbers::is_digit(s@[pos + run]));
            }
            if run > end - pos {
                assert(forall|m: int|
                    pos <= m < pos + run ==> numbers::is_digit(#[trigger] s@[m]));
                assert(end < s@.len() && numbers::is_digit(s@[end as int]));
            }
        }
        assert(rem.subrange(0, end - pos) =~= s@.subrange(pos as int, end as int));
        assert(rem.skip(end - pos) =~= s@.skip(end as int));
        assert(dec_num(rem) == Some((v as nat, s@.skip(end as int))));
    }
    let slen = s.len();
    if v >= (slen - end) as u64 {
        proof {
            assert(s@.skip(end as int).len() < v + 2);
        }
        return None;
    }
    let n = v as usize;
    // end + n + 2 <= slen must hold for the frame to be complete
    if slen - end < n + 2 {
        proof {
            assert(s@.skip(end as int).len() < n + 2);
        }
        return None;
    }
    let ghost rest = s@.skip(end as int);
    proof {
        assert(rest[0] == s@[end as int]);
        assert(rest[n as int + 1] == s@[end + 1 + n]);
    }
    if s[end] != 0x20u8 {
        return None;
    }
    if s[end + 1 + n] != 0x0au8 {
        return None;
    }
    let field = vstd::slice::slice_to_vec(vstd::slice::slice_subrange(s, end + 1, end + 1 + n));
    let newpos = end + n + 2;
    proof {
        assert(field@ =~= rest.subrange(1, n as int + 1));
        assert(rest.skip(n as int + 2) =~= s@.skip(newpos as int));
    }
    Some((field, newpos))
}

/// One row read at `pos`, mirroring [`dec_row`].
fn read_row(s: &[u8], pos: usize) -> (r: Option<(AthleteResult, usize)>)
    requires
        pos <= s@.len(),
    ensures
        match r {
            Some(p) => {
                &&& dec_row(s@.skip(pos as int)) == Some((p.0@, s@.skip(p.1 as int)))
                &&& pos < p.1 <= s@.len()
            },
            None => dec_row(s@.skip(pos as int)) is None,
        },
{
    let (place, p1) = match read_field(s, pos) {
        Some(p) => p,
        None => {
            return None;
        },
    };
    let (lane, p2) = match read_field(s, p1) {
        Some(p) => p,
        None => {
            return None;
        },
    };
    let (id, p3) = match read_field(s, p2) {
        Some(p) => p,
        None => {
            return None;
        },
    };
    let (name, p4) = match read_field(s, p3) {
        Some(p) => p,
        None => {
            return None;
        },
    };
    let (affiliation, p5) = match read_field(s, p4) {
        Some(p) => p,
        None => {
            return None;
        },
    };
    let (time, p6) = match read_field(s, p5) {
        Some(p) => p,
        None => {
            return None;
        },
    };
    let (delta_time, p7) = match read_field(s, p6) {
        Some(p) => p,
        None => {
            return None;
        },
    };
    let row = AthleteResult { place, lane, id, name, affiliation, time, delta_time };
    Some((row, p7))
}

/// One race read at `pos`, mirroring [`dec_race`].
#[verifier::loop_isolation(false)]
fn read_race(s: &[u8], pos: usize) -> (r: Option<(RaceData, usize)>)
    requires
        pos <= s@.len(),
    ensures
        match r {
            Some(p) => {
                &&& dec_race(s@.skip(pos as int)) == Some((p.0@, s@.skip(p.1 as int)))
                &&& pos < p.1 <= s@.len()
            },
            None => dec_race(s@.skip(pos as int)) is None,
        },
{
    let (event_name, p1) = match read_field(s, pos) {
        Some(p) => p,
        None => {
            return None;
        },
    };
    let (event_number, p2) = match read_field(s, p1) {
        Some(p) => p,
        None => {
            return None;
        },
    };
    let (gun_time, p3) = match read_field(s, p2) {
        Some(p) => p,
        None => {
            return None;
        },
    };
    let ghost rem3 = s@.skip(p3 as int);
    proof {
        lemma_digit_run_shift(s@, p3 as int, 0);
        numbers::lemma_digit_run(s@, p3 as int);
    }
    let (k, p4) = match numbers::read_decimal(s, p3) {
        Some(p) => p,
        None => {
            proof {
                assert(rem3.subrange(0, numbers::digit_run(rem3, 0)) =~= s@.subrange(
                    p3 as int,
                    p3 + numbers::digit_run(s@, p3 as int),
                ));
                assert(dec_num(rem3) is None);
            }
            return None;
        },
    };
    proof {
        let run = numbers::digit_run(s@, p3 as int);
        assert(run == p4 - p3) by {
            if run < p4 - p3 {
                assert(s@.subrange(p3 as int, p4 as int)[run] == s@[p3 + run]);
                assert(numbers::is_digit(s@[p3 + run]));
            }
            if run > p4 - p3 {
                assert(forall|m: int|
                    p3 <= m < p3 + run ==> numbers::is_digit(#[trigger] s@[m]));
                assert(p4 < s@.len() && numbers::is_digit(s@[p4 as int]));
            }
        }
        assert(rem3.subrange(0, p4 - p3) =~= s@.subrange(p3 as int, p4 as int));
        assert(rem3.skip(p4 - p3) =~= s@.skip(p4 as int));
        assert(dec_num(rem3) == Some((k as nat, s@.skip(p4 as int))));
    }
    if p4 == s.len() {
        return None;
    }
    proof {
        assert(s@.skip(p4 as int)[0] == s@[p4 as int]);
    }
    if s[p4] != 0x0au8 {
        return None;
    }
    let p5 = p4 + 1;
    proof {
        assert(s@.skip(p4 as int).skip(1) =~= s@.skip(p5 as int));
    }
    let mut rows: Vec<AthleteResult> = Vec::new();
    let mut j: u64 = 0;
    let mut cur: usize = p5;
    proof {
        assert(rows@.map_values(|x: AthleteResult| x@) =~= Seq::<AthleteRow>::empty());
    }
    while j < k
        invariant
            0 <= j <= k,
            p5 <= cur <= s@.len(),
            ({
                let acc = rows@.map_values(|x: AthleteResult| x@);
                dec_rows(s@.skip(p5 as int), k as nat) == (match dec_rows(
                    s@.skip(cur as int),
                    (k - j) as nat,
                ) {
                    Some(p) => Some((acc + p.0, p.1)),
                    None => None,
                })
            }),
        decreases k - j,
    {
        let ghost acc0 = rows@.map_values(|x: AthleteResult| x@);
        let (row, nx) = match read_row(s, cur) {
            Some(p) => p,
            None => {
                proof {
                    assert(dec_rows(s@.skip(cur as int), (k - j) as nat) is None);
                }
                return None;
            },
        };
        rows.push(row);
        proof {
            let acc1 = rows@.map_values(|x: AthleteResult| x@);
            assert(acc1 =~= acc0.push(row@));
            assert(dec_rows(s@.skip(cur as int), (k - j) as nat) == (match dec_rows(
                s@.skip(nx as int),
                (k - j - 1) as nat,
            ) {
                Some(p) => Some((seq![row@] + p.0, p.1)),
                None => None,
            }));
            match dec_rows(s@.skip(nx as int), (k - j - 1) as nat) {
                Some(p) => {
                    assert(acc0 + (seq![row@] + p.0) =~= acc1 + p.0);
                },
                None => {},
            }
        }
        cur = nx;
        j += 1;
    }
    proof {
        assert(dec_rows(s@.skip(cur as int), 0) == Some(
            (Seq::<AthleteRow>::empty(), s@.skip(cur as int)),
        ));
        let acc = rows@.map_values(|x: AthleteResult| x@);
        assert(acc + Seq::<AthleteRow>::empty() =~= acc);
    }
    let race = RaceData { event_name, event_number, gun_time, results: rows };
    proof {
        assert(dec_race(s@.skip(pos as int)) == Some((race@, s@.skip(cur as int))));
    }
    Some((race, cur))
}

/// The whole document read back, mirroring [`dec_history`].
#[verifier::loop_isolation(false)]
pub fn decode_history(s: &[u8]) -> (r: Option<Vec<RaceData>>)
    ensures
        match r {
            Some(v) => dec_history(s@) == Some(v@.map_values(|x: RaceData| x@)),
            None => dec_history(s@) is None,
        },
{
    proof {
        assert(s@.skip(0) =~= s@);
        lemma_digit_run_shift(s@, 0, 0);
        numbers::lemma_digit_run(s@, 0);
    }
    let (k, p1) = match numbers::read_decimal(s, 0) {
        Some(p) => p,
        None => {
            proof {
                assert(s@.subrange(0, numbers::digit_run(s@, 0)) =~= s@.subrange(
                    0,
                    numbers::digit_run(s@, 0),
                ));
                assert(dec_num(s@) is None);
            }
            return None;
        },
    };
    proof {
        let run = numbers::digit_run(s@, 0);
        assert(run == p1) by {
            if run < p1 {
                assert(s@.subrange(0, p1 as int)[run] == s@[run]);
                assert(numbers::is_digit(s@[run]));
            }
            if run > p1 {
                assert(forall|m: int| 0 <= m < run ==> numbers::is_digit(#[trigger] s@[m]));
                assert(p1 < s@.len() && numbers::is_digit(s@[p1 as int]));
            }
        }
        assert(dec_num(s@) == Some((k as nat, s@.skip(p1 as int))));
    }
    if p1 == s.len() {
        return None;
    }
    proof {
        assert(s@.skip(p1 as int)[0] == s@[p1 as int]);
    }
    if s[p1] != 0x0au8 {
        return None;
    }
    let p2 = p1 + 1;
    proof {
        assert(s@.skip(p1 as int).skip(1) =~= s@.skip(p2 as int));
    }
    let mut races: Vec<RaceData> = Vec::new();
    let mut j: u64 = 0;
    let mut cur: usize = p2;
    proof {
        assert(races@.map_values(|x: RaceData| x@) =~= Seq::<RaceModel>::empty());
    }
    while j < k
        invariant
            0 <= j <= k,
            p2 <= cur <= s@.len(),
            ({
                let acc = races@.map_values(|x: RaceData| x@);
                dec_races(s@.skip(p2 as int), k as nat) == (match dec_races(
                    s@.skip(cur as int),
                    (k - j) as nat,
                ) {
                    Some(p) => Some((acc + p.0, p.1)),
                    None => None,
                })
            }),
        decreases k - j,
    {
        let ghost acc0 = races@.map_values(|x: RaceData| x@);
        let (race, nx) = match read_race(s, cur) {
            Some(p) => p,
            None => {
                proof {
                    assert(dec_races(s@.skip(cur as int), (k - j) as nat) is None);
                }
                return None;
            },
        };
        races.push(race);
        proof {
            let acc1 = races@.map_values(|x: RaceData| x@);
            assert(acc1 =~= acc0.push(race@));
            match dec_races(s@.skip(nx as int), (k - j - 1) as nat) {
                Some(p) => {
                    assert(acc0 + (seq![race@] + p.0) =~= acc1 + p.0);
                },
                None => {},
            }
        }
        cur = nx;
        j += 1;
    }
    proof {
        assert(dec_races(s@.skip(cur as int), 0) == Some(
            (Seq::<RaceModel>::empty(), s@.skip(cur as int)),
        ));
        let acc = races@.map_values(|x: RaceData| x@);
        assert(acc + Seq::<RaceModel>::empty() =~= acc);
    }
    if cur != s.len() {
        proof {
            assert(s@.skip(cur as int).len() != 0);
        }
        return None;
    }
    proof {
        assert(s@.skip(cur as int).len() == 0);
        assert(dec_history(s@) == Some(races@.map_values(|x: RaceData| x@)));
    }
    Some(races)
}

/// Decides [`lanes_unique`] on a result list.
#[verifier::loop_isolation(false)]
fn check_lanes_unique(rs: &Vec<AthleteResult>) -> (r: bool)
    ensures
        r == lanes_unique(rs@.map_values(|x: AthleteResult| x@)),
{
    let ghost rows = rs@.map_values(|x: AthleteResult| x@);
    let mut i: usize = 0;
    while i < rs.len()
        invariant
            0 <= i <= rs@.len(),
            rows == rs@.map_values(|x: AthleteResult| x@),
            forall|a: int, b: int|
                0 <= a < b < rs@.len() && a < i && (#[trigger] rows[a]).lane.len() > 0 ==> rows[a].lane
                    != (#[trigger] rows[b]).lane,
        decreases rs@.len() - i,
    {
        if rs[i].lane.len() > 0 {
            let mut j: usize = i + 1;
            while j < rs.len()
                invariant
                    i < j <= rs@.len(),
                    i < rs@.len(),
                    rows == rs@.map_values(|x: AthleteResult| x@),
                    rows[i as int].lane.len() > 0,
                    forall|b: int| i < b < j ==> rows[i as int].lane != (#[trigger] rows[b]).lane,
                decreases rs@.len() - j,
            {
                if crate::state::bytes_eq_vec(&rs[i].lane, &rs[j].lane) {
                    proof {
                        assert(rows[i as int].lane == rows[j as int].lane);
                        assert(!lanes_unique(rows));
                    }
                    return false;
                }
                j += 1;
            }
        }
        i += 1;
    }
    true
}

/// Decides [`races_wf`] on a decoded history.
#[verifier::loop_isolation(false)]
fn check_races_wf(races: &Vec<RaceData>) -> (r: bool)
    ensures
        r == races_wf(races@.map_values(|x: RaceData| x@)),
{
    let ghost rs = races@.map_values(|x: RaceData| x@);
    let mut i: usize = 0;
    while i < races.len()
        invariant
            0 <= i <= races@.len(),
            rs == races@.map_values(|x: RaceData| x@),
            forall|a: int| 0 <= a < i ==> (#[trigger] rs[a]).event_number.len() > 0,
            forall|a: int, b: int|
                0 <= a < b < rs.len() && a < i ==> (#[trigger] rs[a]).event_number != (
                #[trigger] rs[b]).event_number,
            forall|a: int| 0 <= a < i ==> lanes_unique((#[trigger] rs[a]).results),
        decreases races@.len() - i,
    {
        if races[i].event_number.len() == 0 {
            proof {
                assert(rs[i as int].event_number.len() == 0);
            }
            return false;
        }
        if !check_lanes_unique(&races[i].results) {
            proof {
                assert(!lanes_unique(rs[i as int].results));
            }
            return false;
        }
        let mut j: usize = i + 1;
        while j < races.len()
            invariant
                i < j <= races@.len(),
                i < races@.len(),
                rs == races@.map_values(|x: RaceData| x@),
                forall|b: int| i < b < j ==> (#[trigger] rs[b]).event_number != rs[i as int].event_number,
            decreases races@.len() - j,
        {
            if crate::state::bytes_eq_vec(&races[i].event_number, &races[j].event_number) {
                proof {
                    assert(rs[i as int].event_number == rs[j as int].event_number);
                }
                return false;
            }
            j += 1;
        }
        i += 1;
    }
    true
}

/// Reads a persisted history document: a well-formed decode comes back
/// exactly; anything else (malformed, or with duplicate keys) reads as an
/// empty history, never a failure.
pub fn load_races(bytes: &[u8]) -> (out: Vec<RaceData>)
    ensures
        races_wf(out@.map_values(|x: RaceData| x@)),
        match dec_history(bytes@) {
            Some(m) => {
                if races_wf(m) {
                    out@.map_values(|x: RaceData| x@) == m
                } else {
                    out@.map_values(|x: RaceData| x@) == Seq::<RaceModel>::empty()
                }
            },
            None => out@.map_values(|x: RaceData| x@) == Seq::<RaceModel>::empty(),
        },
{
    match decode_history(bytes) {
        Some(races) => {
            if check_races_wf(&races) {
                races
            } else {
                let out: Vec<RaceData> = Vec::new();
                proof {
                    assert(out@.map_values(|x: RaceData| x@) =~= Seq::<RaceModel>::empty());
                }
                out
            }
        },
        None => {
            let out: Vec<RaceData> = Vec::new();
            proof {
                assert(out@.map_values(|x: RaceData| x@) =~= Seq::<RaceModel>::empty());
            }
            out
        },
    }
}

} // verus!
