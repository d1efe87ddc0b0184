//! CSV record handling, shared by the single-byte and double-byte text
//! paths: record classification (event header, result row, redraw command)
//! and the fold of decoded records into the scoreboard.

use vstd::prelude::*;

use crate::bytes;
use crate::numbers;
use crate::state::AthleteResult;
use crate::state::AthleteRow;
use crate::state::RaceData;
use crate::state::RaceModel;
use crate::state::ScoreboardState;
use crate::state::StateModel;
use crate::state::lanes_unique;
use crate::state::lemma_upsert_preserves_unique;
use crate::state::races_wf;
use crate::state::state_wf;
use crate::state::upsert_row;
use crate::state::upsert_into;
use crate::state::copy_bytes;
use crate::state::copy_results;

verus! {

pub open spec fn official() -> Seq<u8> {
    seq![0x4fu8, 0x46u8, 0x46u8, 0x49u8, 0x43u8, 0x49u8, 0x41u8, 0x4cu8]
}

pub open spec fn unofficial() -> Seq<u8> {
    seq![0x55u8, 0x4eu8, 0x4fu8, 0x46u8, 0x46u8, 0x49u8, 0x43u8, 0x49u8, 0x41u8, 0x4cu8]
}

/// The console's full-redraw command token.
pub open spec fn layout_draw() -> Seq<u8> {
    seq![
        0x43u8,
        0x6fu8,
        0x6du8,
        0x6du8,
        0x61u8,
        0x6eu8,
        0x64u8,
        0x3du8,
        0x4cu8,
        0x61u8,
        0x79u8,
        0x6fu8,
        0x75u8,
        0x74u8,
        0x44u8,
        0x72u8,
        0x61u8,
        0x77u8,
    ]
}

pub fn official_bytes() -> (v: Vec<u8>)
    ensures
        v@ == official(),
{
    let mut v: Vec<u8> = Vec::new();
    v.push(0x4fu8);
    v.push(0x46u8);
    v.push(0x46u8);
    v.push(0x49u8);
    v.push(0x43u8);
    v.push(0x49u8);
    v.push(0x41u8);
    v.push(0x4cu8);
    proof {
        assert(v@ =~= official());
    }
    v
}

pub fn unofficial_bytes() -> (v: Vec<u8>)
    ensures
        v@ == unofficial(),
{
    let mut v: Vec<u8> = Vec::new();
    v.push(0x55u8);
    v.push(0x4eu8);
    v.push(0x4fu8);
    v.push(0x46u8);
    v.push(0x46u8);
    v.push(0x49u8);
    v.push(0x43u8);
    v.push(0x49u8);
    v.push(0x41u8);
    v.push(0x4cu8);
    proof {
        assert(v@ =~= unofficial());
    }
    v
}

pub fn layout_draw_bytes() -> (v: Vec<u8>)
    ensures
        v@ == layout_draw(),
{
    let mut v: Vec<u8> = Vec::new();
    v.push(0x43u8);
    v.push(0x6fu8);
    v.push(0x6du8);
    v.push(0x6du8);
    v.push(0x61u8);
    v.push(0x6eu8);
    v.push(0x64u8);
    v.push(0x3du8);
    v.push(0x4cu8);
    v.push(0x61u8);
    v.push(0x79u8);
    v.push(0x6fu8);
    v.push(0x75u8);
    v.push(0x74u8);
    v.push(0x44u8);
    v.push(0x72u8);
    v.push(0x61u8);
    v.push(0x77u8);
    proof {
        assert(v@ =~= layout_draw());
    }
    v
}

/// An event header record: its first comma-separated field is exactly
/// `OFFICIAL` or `UNOFFICIAL`.
pub open spec fn is_header_record(clean: Seq<u8>) -> bool {
    clean_fields(clean)[0] == official() || clean_fields(clean)[0] == unofficial()
}

/// A record carrying the console's full-redraw command token.
pub open spec fn is_layout_record(clean: Seq<u8>) -> bool {
    bytes::contains_seq(clean, layout_draw())
}

/// The comma-separated fields of a record, each trimmed.
pub open spec fn clean_fields(clean: Seq<u8>) -> Seq<Seq<u8>> {
    bytes::split_on(clean, 0x2cu8).map_values(|f: Seq<u8>| bytes::trim(f))
}

/// The result-row heuristic: at least four fields, and a numeric place or a
/// non-empty lane or ID.
pub open spec fn could_be_result(fs: Seq<Seq<u8>>) -> bool {
    fs.len() >= 4 && (numbers::parse_u32_ok(fs[0]) || fs[1].len() > 0 || fs[2].len() > 0)
}

/// Field mapping of an accepted result row: place, lane, ID, name,
/// affiliation, time; the delta stays empty.
pub open spec fn row_of_fields(fs: Seq<Seq<u8>>) -> AthleteRow {
    AthleteRow {
        place: fs[0],
        lane: fs[1],
        id: fs[2],
        name: fs[3],
        affiliation: if fs.len() > 4 {
            fs[4]
        } else {
            Seq::empty()
        },
        time: if fs.len() > 5 {
            fs[5]
        } else {
            Seq::empty()
        },
        delta_time: Seq::empty(),
    }
}

/// First race whose event number equals `key`.
pub open spec fn race_index(races: Seq<RaceModel>, key: Seq<u8>) -> Option<int>
    decreases races.len(),
{
    if races.len() == 0 {
        None
    } else if races[0].event_number == key {
        Some(0)
    } else {
        match race_index(races.skip(1), key) {
            Some(i) => Some(i + 1),
            None => None,
        }
    }
}

pub proof fn lemma_race_index(races: Seq<RaceModel>, key: Seq<u8>)
    ensures
        match race_index(races, key) {
            Some(i) => 0 <= i < races.len() && races[i].event_number == key && forall|j: int|
                0 <= j < i ==> (#[trigger] races[j]).event_number != key,
            None => forall|j: int| 0 <= j < races.len() ==> (#[trigger] races[j]).event_number != key,
        },
    decreases races.len(),
{
    if races.len() == 0 {
    } else if races[0].event_number == key {
    } else {
        lemma_race_index(races.skip(1), key);
        match race_index(races.skip(1), key) {
            Some(i) => {
                assert(races[i + 1] == races.skip(1)[i]);
                assert forall|j: int| 0 <= j < i + 1 implies (#[trigger] races[j]).event_number
                    != key by {
                    if j > 0 {
                        assert(races[j] == races.skip(1)[j - 1]);
                    }
                }
            },
            None => {
                assert forall|j: int| 0 <= j < races.len() implies (#[trigger] races[j]).event_number
                    != key by {
                    if j > 0 {
                        assert(races[j] == races.skip(1)[j - 1]);
                    }
                }
            },
        }
    }
}

/// Merging one accepted row: upsert into the live list, and, when a current
/// event number is set, into that event's race history (creating the race on
/// first sight). The boolean of [`apply_record`] reports whether the keyed
/// history was touched.
pub open spec fn apply_result(st: StateModel, r: AthleteRow) -> StateModel {
    let results2 = upsert_row(st.results, r);
    if st.event_number.len() > 0 {
        let races2 = match race_index(st.races, st.event_number) {
            Some(i) => st.races.update(
                i,
                RaceModel { results: upsert_row(st.races[i].results, r), ..st.races[i] },
            ),
            None => st.races.push(
                RaceModel {
                    event_name: st.event_name,
                    event_number: st.event_number,
                    gun_time: st.gun_time,
                    results: seq![r],
                },
            ),
        };
        StateModel { results: results2, races: races2, ..st }
    } else {
        StateModel { results: results2, ..st }
    }
}

/// One trimmed, classified record folded into the state. A redraw token in
/// the record clears the live results first, as a side effect of this very
/// record; then the record is handled as a header, a result row or noise.
/// The boolean says whether a keyed race history entry was touched (and so
/// must be persisted).
pub open spec fn apply_record(st: StateModel, rec: Seq<u8>) -> (StateModel, bool) {
    let clean = bytes::trim(rec);
    let st0 = if is_layout_record(clean) {
        StateModel { results: Seq::empty(), ..st }
    } else {
        st
    };
    if clean.len() == 0 {
        (st0, false)
    } else if is_header_record(clean) {
        let st1 = StateModel { results: Seq::empty(), ..st0 };
        let params = clean_fields(clean);
        if params.len() > 3 {
            (StateModel { event_name: params[1], event_number: params[3], ..st1 }, false)
        } else {
            (st1, false)
        }
    } else {
        let fs = clean_fields(clean);
        if could_be_result(fs) {
            (apply_result(st0, row_of_fields(fs)), st0.event_number.len() > 0)
        } else {
            (st0, false)
        }
    }
}

/// Left fold of [`apply_record`] over a record list; the boolean is the
/// disjunction of the per-record flags.
pub open spec fn apply_records(st: StateModel, recs: Seq<Seq<u8>>) -> (StateModel, bool)
    decreases recs.len(),
{
    if recs.len() == 0 {
        (st, false)
    } else {
        let (s1, t1) = apply_record(st, recs[0]);
        let (s2, t2) = apply_records(s1, recs.skip(1));
        (s2, t1 || t2)
    }
}

/// One whole CSV text pass: the `;`-separated records folded in order.
/// A record holding the redraw token clears the live results at its own
/// position in that order.
pub open spec fn parse_csv_text(st: StateModel, text: Seq<u8>) -> (StateModel, bool) {
    apply_records(st, bytes::split_on(text, 0x3bu8))
}

pub proof fn lemma_apply_records_one(st: StateModel, rec: Seq<u8>)
    ensures
        apply_records(st, seq![rec]) == apply_record(st, rec),
{
    let one = seq![rec];
    assert(one[0] == rec);
    assert(one.skip(1) =~= Seq::<Seq<u8>>::empty());
    let (s1, t1) = apply_record(st, rec);
    assert(apply_records(s1, one.skip(1)) == (s1, false));
}

pub proof fn lemma_apply_records_concat(st: StateModel, a: Seq<Seq<u8>>, b: Seq<Seq<u8>>)
    ensures
        ({
            let (s1, t1) = apply_records(st, a);
            let (s2, t2) = apply_records(s1, b);
            apply_records(st, a + b) == (s2, t1 || t2)
        }),
    decreases a.len(),
{
    if a.len() == 0 {
        assert(a + b =~= b);
    } else {
        let (s1, t1) = apply_record(st, a[0]);
        lemma_apply_records_concat(s1, a.skip(1), b);
        assert((a + b).skip(1) =~= a.skip(1) + b);
        assert((a + b)[0] == a[0]);
    }
}

/// An `OFFICIAL`/`UNOFFICIAL` header record always clears the live result
/// list before any later record is applied: after the prefix ending at the
/// header the live list is empty, and the rest of the fold starts from that
/// emptied state.
pub proof fn lemma_header_resets_results(st: StateModel, recs: Seq<Seq<u8>>, k: int)
    requires
        0 <= k < recs.len(),
        is_header_record(bytes::trim(recs[k])),
    ensures
        apply_records(st, recs.take(k + 1)).0.results.len() == 0,
        apply_records(st, recs).0 == apply_records(
            apply_records(st, recs.take(k + 1)).0,
            recs.skip(k + 1),
        ).0,
{
    let pre = recs.take(k + 1);
    let post = recs.skip(k + 1);
    assert(pre + post =~= recs);
    lemma_apply_records_concat(st, pre, post);
    // the prefix itself splits at the header record
    let head = recs.take(k);
    let hrec = seq![recs[k]];
    assert(head + hrec =~= pre);
    lemma_apply_records_concat(st, head, hrec);
    let s_before = apply_records(st, head).0;
    let clean = bytes::trim(recs[k]);
    assert(clean.len() > 0) by {
        if clean.len() == 0 {
            assert(bytes::find_byte(Seq::<u8>::empty(), 0x2cu8) is None);
            assert(bytes::split_on(Seq::<u8>::empty(), 0x2cu8) == seq![Seq::<u8>::empty()]);
            assert(bytes::trim(Seq::<u8>::empty()) =~= Seq::<u8>::empty());
            assert(clean_fields(clean)[0] == bytes::trim(Seq::<u8>::empty()));
        }
    }
    lemma_apply_records_one(s_before, recs[k]);
    assert(apply_record(s_before, recs[k]).0.results.len() == 0);
}

/// A `Command=LayoutDraw` token anywhere in a record clears the live
/// results as a side effect of that record, regardless of its other
/// content: the record's outcome never depends on the live rows present
/// before it.
pub proof fn lemma_layout_draw_clears(st: StateModel, rec: Seq<u8>)
    requires
        is_layout_record(bytes::trim(rec)),
    ensures
        apply_record(st, rec) == apply_record(StateModel { results: Seq::empty(), ..st }, rec),
{
    let cleared = StateModel { results: Seq::empty(), ..st };
    assert((StateModel { results: Seq::empty(), ..cleared }) == cleared);
}

pub proof fn lemma_apply_result_wf(st: StateModel, r: AthleteRow)
    requires
        state_wf(st),
    ensures
        state_wf(apply_result(st, r)),
{
    let out = apply_result(st, r);
    lemma_upsert_preserves_unique(st.results, r);
    if st.event_number.len() > 0 {
        lemma_race_index(st.races, st.event_number);
        match race_index(st.races, st.event_number) {
            Some(i) => {
                lemma_upsert_preserves_unique(st.races[i].results, r);
                assert forall|a: int, b: int|
                    0 <= a < b < out.races.len() implies (#[trigger] out.races[a]).event_number != (
                #[trigger] out.races[b]).event_number by {
                    assert(out.races[a].event_number == st.races[a].event_number);
                    assert(out.races[b].event_number == st.races[b].event_number);
                }
                assert(races_wf(out.races)) by {
                    assert(forall|a: int|
                        0 <= a < out.races.len() ==> (#[trigger] out.races[a]).event_number
                            == st.races[a].event_number);
                    assert(forall|a: int|
                        0 <= a < out.races.len() && a != i ==> (#[trigger] out.races[a]).results
                            == st.races[a].results);
                    assert(lanes_unique(out.races[i].results));
                }
            },
            None => {
                assert(races_wf(out.races)) by {
                    let nr = out.races[st.races.len() as int];
                    assert(forall|a: int|
                        0 <= a < st.races.len() ==> #[trigger] out.races[a] == st.races[a]);
                    assert(nr.event_number == st.event_number);
                    assert(lanes_unique(nr.results)) by {
                        assert(nr.results.len() == 1);
                    }
                }
            },
        }
    }
}

pub proof fn lemma_apply_record_wf(st: StateModel, rec: Seq<u8>)
    requires
        state_wf(st),
    ensures
        state_wf(apply_record(st, rec).0),
{
    let clean = bytes::trim(rec);
    let st0 = if is_layout_record(clean) {
        StateModel { results: Seq::empty(), ..st }
    } else {
        st
    };
    assert(state_wf(st0)) by {
        assert(lanes_unique(Seq::<AthleteRow>::empty()));
    }
    if clean.len() == 0 {
    } else if is_header_record(clean) {
        assert(lanes_unique(Seq::<AthleteRow>::empty()));
    } else {
        let fs = clean_fields(clean);
        if could_be_result(fs) {
            lemma_apply_result_wf(st0, row_of_fields(fs));
        }
    }
}

pub proof fn lemma_apply_records_wf(st: StateModel, recs: Seq<Seq<u8>>)
    requires
        state_wf(st),
    ensures
        state_wf(apply_records(st, recs).0),
    decreases recs.len(),
{
    if recs.len() > 0 {
        lemma_apply_record_wf(st, recs[0]);
        lemma_apply_records_wf(apply_record(st, recs[0]).0, recs.skip(1));
    }
}

/// Merges one accepted row into the live list and the keyed race history,
/// mirroring [`apply_result`]. Returns whether a keyed race was touched.
#[verifier::loop_isolation(false)]
pub fn merge_result(state: &mut ScoreboardState, r: AthleteResult) -> (touched: bool)
    requires
        state_wf(old(state)@),
    ensures
        final(state)@ == apply_result(old(state)@, r@),
        touched == (old(state)@.event_number.len() > 0),
        state_wf(final(state)@),
{
    proof {
        lemma_apply_result_wf(old(state)@, r@);
        lemma_race_index(old(state)@.races, old(state)@.event_number);
    }
    let ghost st0 = state@;
    upsert_into(&mut state.results, r.duplicate());
    if state.event_number.len() == 0 {
        proof {
            assert(state@ =~~= apply_result(st0, r@));
        }
        return false;
    }
    let ghost races0 = st0.races;
    proof {
        assert(state@ =~~= StateModel { results: upsert_row(st0.results, r@), ..st0 });
    }
    let mut i: usize = 0;
    let n = state.races.len();
    while i < n
        invariant
            0 <= i <= n,
            n == state.races@.len(),
            state@ == (StateModel { results: upsert_row(st0.results, r@), ..st0 }),
            forall|j: int| 0 <= j < i ==> (#[trigger] races0[j]).event_number != st0.event_number,
        decreases n - i,
    {
        let same = crate::state::bytes_eq_vec(&state.races[i].event_number, &state.event_number);
        if same {
            proof {
                assert(races0[i as int].event_number == st0.event_number);
                assert(race_index(races0, st0.event_number) == Some(i as int));
            }
            let mut new_results = copy_results(&state.races[i].results);
            upsert_into(&mut new_results, r);
            let updated = RaceData {
                event_name: copy_bytes(&state.races[i].event_name),
                event_number: copy_bytes(&state.races[i].event_number),
                gun_time: copy_bytes(&state.races[i].gun_time),
                results: new_results,
            };
            let ghost updated_model = updated@;
            state.races.set(i, updated);
            proof {
                assert(updated_model =~~= RaceModel {
                    results: upsert_row(races0[i as int].results, r@),
                    ..races0[i as int]
                });
                assert(state@.races =~~= races0.update(
                    i as int,
                    RaceModel {
                        results: upsert_row(races0[i as int].results, r@),
                        ..races0[i as int]
                    },
                ));
                assert(state@ =~~= apply_result(st0, r@));
            }
            return true;
        }
        proof {
            assert(races0[i as int].event_number != st0.event_number);
        }
        i += 1;
    }
    proof {
        assert(race_index(races0, st0.event_number) is None);
    }
    let ghost fresh_model = RaceModel {
        event_name: st0.event_name,
        event_number: st0.event_number,
        gun_time: st0.gun_time,
        results: seq![r@],
    };
    let mut only = Vec::new();
    only.push(r);
    let fresh = RaceData {
        event_name: copy_bytes(&state.event_name),
        event_number: copy_bytes(&state.event_number),
        gun_time: copy_bytes(&state.gun_time),
        results: only,
    };
    proof {
        assert(fresh@ =~~= fresh_model);
    }
    state.races.push(fresh);
    proof {
        assert(state@.races =~~= races0.push(fresh_model));
        assert(state@ =~~= apply_result(st0, r@));
    }
    true
}

/// Splits one record on commas and trims each field.
#[verifier::loop_isolation(false)]
fn fields_of(clean: &[u8]) -> (out: Vec<Vec<u8>>)
    ensures
        out.deep_view() == clean_fields(clean@),
{
    let raw = bytes::split_bytes(clean, 0x2cu8);
    let mut out: Vec<Vec<u8>> = Vec::new();
    proof {
        assert(out.deep_view() =~~= raw.deep_view().map_values(|f: Seq<u8>| bytes::trim(f)).take(
            0,
        ));
    }
    let mut i: usize = 0;
    while i < raw.len()
        invariant
            0 <= i <= raw@.len(),
            raw.deep_view() == bytes::split_on(clean@, 0x2cu8),
            out.deep_view() == raw.deep_view().map_values(|f: Seq<u8>| bytes::trim(f)).take(
                i as int,
            ),
        decreases raw@.len() - i,
    {
        out.push(bytes::trim_bytes(raw[i].as_slice()));
        proof {
            assert(raw[i as int]@ =~= raw.deep_view()[i as int]);
            assert(out.deep_view() =~~= raw.deep_view().map_values(|f: Seq<u8>| bytes::trim(f)).take(
                i + 1,
            ));
        }
        i += 1;
    }
    proof {
        let m = raw.deep_view().map_values(|f: Seq<u8>| bytes::trim(f));
        assert(m.take(raw@.len() as int) =~= m);
    }
    out
}


/// Classifies and folds one record, mirroring [`apply_record`].
pub fn handle_record(state: &mut ScoreboardState, rec: &[u8]) -> (touched: bool)
    requires
        state_wf(old(state)@),
    ensures
        (final(state)@, touched) == apply_record(old(state)@, rec@),
        state_wf(final(state)@),
{
    proof {
        lemma_apply_record_wf(old(state)@, rec@);
    }
    let ghost st0 = state@;
    let clean = bytes::trim_bytes(rec);
    let token = layout_draw_bytes();
    if bytes::scan_seq(clean.as_slice(), token.as_slice()).is_some() {
        state.results = Vec::new();
    }
    let ghost st1 = if is_layout_record(bytes::trim(rec@)) {
        StateModel { results: Seq::empty(), ..st0 }
    } else {
        st0
    };
    proof {
        assert(state@ =~~= st1);
        assert(state_wf(st1)) by {
            assert(lanes_unique(Seq::<AthleteRow>::empty()));
        }
    }
    if clean.len() == 0 {
        return false;
    }
    let params = fields_of(clean.as_slice());
    let ghost fs = clean_fields(clean@);
    proof {
        bytes::lemma_split_on_len(clean@, 0x2cu8);
        assert(params@.len() >= 1);
        assert(params.deep_view()[0] =~= params[0]@);
    }
    let off = official_bytes();
    let unoff = unofficial_bytes();
    let is_hdr = {
        let a = bytes::bytes_eq(params[0].as_slice(), off.as_slice());
        let b = bytes::bytes_eq(params[0].as_slice(), unoff.as_slice());
        a || b
    };
    proof {
        assert(is_hdr == is_header_record(clean@));
    }
    if is_hdr {
        state.results = Vec::new();
        if params.len() > 3 {
            state.event_name = copy_bytes(&params[1]);
            state.event_number = copy_bytes(&params[3]);
            proof {
                assert(params.deep_view()[1] =~= params[1]@);
                assert(params.deep_view()[3] =~= params[3]@);
                assert(state@.results =~= Seq::<AthleteRow>::empty());
                assert(state@ =~~= apply_record(st0, rec@).0);
            }
        } else {
            proof {
                assert(state@.results =~= Seq::<AthleteRow>::empty());
                assert(state@ =~~= apply_record(st0, rec@).0);
            }
        }
        return false;
    }
    let accept = params.len() >= 4 && {
        let num_place = numbers::parse_u32(params[0].as_slice()).is_some();
        num_place || params[1].len() > 0 || params[2].len() > 0
    };
    proof {
        if params@.len() >= 4 {
            assert(params.deep_view()[0] =~= params[0]@);
            assert(params.deep_view()[1] =~= params[1]@);
            assert(params.deep_view()[2] =~= params[2]@);
        }
    }
    if !accept {
        proof {
            assert(!could_be_result(fs));
            assert(state@ =~~= apply_record(st0, rec@).0);
        }
        return false;
    }
    let mut row = AthleteResult::empty();
    row.place = copy_bytes(&params[0]);
    row.lane = copy_bytes(&params[1]);
    row.id = copy_bytes(&params[2]);
    row.name = copy_bytes(&params[3]);
    if params.len() > 4 {
        row.affiliation = copy_bytes(&params[4]);
    }
    if params.len() > 5 {
        row.time = copy_bytes(&params[5]);
    }
    proof {
        assert(params.deep_view()[3] =~= params[3]@);
        if params@.len() > 4 {
            assert(params.deep_view()[4] =~= params[4]@);
        }
        if params@.len() > 5 {
            assert(params.deep_view()[5] =~= params[5]@);
        }
        assert(row@ =~~= row_of_fields(fs));
    }
    let touched = merge_result(state, row);
    touched
}

/// One whole CSV text pass, mirroring [`parse_csv_text`].
#[verifier::loop_isolation(false)]
pub fn parse_csv_bytes(state: &mut ScoreboardState, text: &[u8]) -> (touched: bool)
    requires
        state_wf(old(state)@),
    ensures
        (final(state)@, touched) == parse_csv_text(old(state)@, text@),
        state_wf(final(state)@),
{
    let ghost st0 = old(state)@;
    let records = bytes::split_bytes(text, 0x3bu8);
    let ghost recs = bytes::split_on(text@, 0x3bu8);
    let mut touched = false;
    let mut i: usize = 0;
    while i < records.len()
        invariant
            0 <= i <= records@.len(),
            records.deep_view() == recs,
            state_wf(state@),
            (state@, touched) == apply_records(st0, recs.take(i as int)),
        decreases records@.len() - i,
    {
        let ghost st_pre = state@;
        let ghost t_pre = touched;
        let t = handle_record(state, records[i].as_slice());
        touched = touched || t;
        proof {
            assert(records[i as int]@ =~= recs[i as int]);
            lemma_apply_records_concat(st0, recs.take(i as int), seq![recs[i as int]]);
            assert(recs.take(i as int) + seq![recs[i as int]] =~= recs.take(i + 1));
            lemma_apply_records_one(st_pre, recs[i as int]);
        }
        i += 1;
    }
    proof {
        assert(recs.take(records@.len() as int) =~= recs);
    }
    touched
}


/// A CSV text that ends at a record boundary composes: folding `a + b` in
/// one pass equals folding `a` then `b`. The trailing empty record that the
/// boundary split leaves behind is a no-op.
pub proof fn lemma_parse_csv_split(st: StateModel, a: Seq<u8>, b: Seq<u8>)
    requires
        a.len() > 0,
        a[a.len() - 1] == 0x3bu8,
    ensures
        ({
            let (s1, t1) = parse_csv_text(st, a);
            let (s2, t2) = parse_csv_text(s1, b);
            parse_csv_text(st, a + b) == (s2, t1 || t2)
        }),
{
    let recs_a = bytes::split_on(a, 0x3bu8);
    let recs_b = bytes::split_on(b, 0x3bu8);
    bytes::lemma_split_concat_ends_delim(a, b, 0x3bu8);
    bytes::lemma_split_on_len(a, 0x3bu8);
    let head = recs_a.take(recs_a.len() - 1);
    // split(a) itself is head + [empty]
    assert(a + Seq::<u8>::empty() =~= a);
    bytes::lemma_split_concat_ends_delim(a, Seq::empty(), 0x3bu8);
    assert(bytes::find_byte(Seq::<u8>::empty(), 0x3bu8) is None);
    assert(bytes::split_on(Seq::<u8>::empty(), 0x3bu8) == seq![Seq::<u8>::empty()]);
    assert(recs_a == head + seq![Seq::<u8>::empty()]);
    lemma_apply_records_concat(st, head, seq![Seq::<u8>::empty()]);
    lemma_apply_records_one(apply_records(st, head).0, Seq::empty());
    assert(bytes::trim(Seq::<u8>::empty()) =~= Seq::<u8>::empty());
    assert(bytes::find_seq(Seq::<u8>::empty(), layout_draw()) is None);
    assert(apply_record(apply_records(st, head).0, Seq::empty()) == (
        apply_records(st, head).0,
        false,
    ));
    assert(apply_records(st, recs_a) == apply_records(st, head));
    lemma_apply_records_concat(st, head, recs_b);
    assert(parse_csv_text(st, a + b) == apply_records(st, head + recs_b));
}
} // verus!
