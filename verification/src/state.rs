//! The live scoreboard state and the per-event race history, with the
//! upsert-by-lane merge rule. All text fields are raw bytes; callers decode
//! them for display at the edge.

use vstd::prelude::*;

use crate::bytes;
use crate::numbers;
use vstd::multiset::Multiset;

verus! {

/// One athlete's row: place, lane, bib/ID, name, affiliation, elapsed time
/// and delta time, all free-form text. Identity for merging is the lane
/// field when it is non-empty.
pub struct AthleteResult {
    pub place: Vec<u8>,
    pub lane: Vec<u8>,
    pub id: Vec<u8>,
    pub name: Vec<u8>,
    pub affiliation: Vec<u8>,
    pub time: Vec<u8>,
    pub delta_time: Vec<u8>,
}

/// Mathematical image of an [`AthleteResult`].
#[verifier::ext_equal]
pub ghost struct AthleteRow {
    pub place: Seq<u8>,
    pub lane: Seq<u8>,
    pub id: Seq<u8>,
    pub name: Seq<u8>,
    pub affiliation: Seq<u8>,
    pub time: Seq<u8>,
    pub delta_time: Seq<u8>,
}

impl View for AthleteResult {
    type V = AthleteRow;

    open spec fn view(&self) -> AthleteRow {
        AthleteRow {
            place: self.place@,
            lane: self.lane@,
            id: self.id@,
            name: self.name@,
            affiliation: self.affiliation@,
            time: self.time@,
            delta_time: self.delta_time@,
        }
    }
}

/// One event's last-known result set: created on the first result or header
/// for an unknown event number, amended in place afterwards, never removed.
pub struct RaceData {
    pub event_name: Vec<u8>,
    pub event_number: Vec<u8>,
    pub gun_time: Vec<u8>,
    pub results: Vec<AthleteResult>,
}

/// Mathematical image of a [`RaceData`].
#[verifier::ext_equal]
pub ghost struct RaceModel {
    pub event_name: Seq<u8>,
    pub event_number: Seq<u8>,
    pub gun_time: Seq<u8>,
    pub results: Seq<AthleteRow>,
}

impl View for RaceData {
    type V = RaceModel;

    open spec fn view(&self) -> RaceModel {
        RaceModel {
            event_name: self.event_name@,
            event_number: self.event_number@,
            gun_time: self.gun_time@,
            results: self.results@.map_values(|r: AthleteResult| r@),
        }
    }
}

/// The shared live view: running clock, current event header fields, the
/// active result list, console messages and the append-only race history in
/// the order event numbers were first seen.
pub struct ScoreboardState {
    pub time: Vec<u8>,
    pub running: bool,
    pub results: Vec<AthleteResult>,
    pub messages: Vec<Vec<u8>>,
    pub event_name: Vec<u8>,
    pub event_number: Vec<u8>,
    pub gun_time: Vec<u8>,
    pub races: Vec<RaceData>,
}

/// Mathematical image of a [`ScoreboardState`].
#[verifier::ext_equal]
pub ghost struct StateModel {
    pub time: Seq<u8>,
    pub running: bool,
    pub results: Seq<AthleteRow>,
    pub messages: Seq<Seq<u8>>,
    pub event_name: Seq<u8>,
    pub event_number: Seq<u8>,
    pub gun_time: Seq<u8>,
    pub races: Seq<RaceModel>,
}

impl View for ScoreboardState {
    type V = StateModel;

    open spec fn view(&self) -> StateModel {
        StateModel {
            time: self.time@,
            running: self.running,
            results: self.results@.map_values(|r: AthleteResult| r@),
            messages: self.messages.deep_view(),
            event_name: self.event_name@,
            event_number: self.event_number@,
            gun_time: self.gun_time@,
            races: self.races@.map_values(|r: RaceData| r@),
        }
    }
}

/// At most one row per non-empty lane.
pub open spec fn lanes_unique(rs: Seq<AthleteRow>) -> bool {
    forall|i: int, j: int|
        0 <= i < j < rs.len() && (#[trigger] rs[i]).lane.len() > 0 ==> rs[i].lane != (
        #[trigger] rs[j]).lane
}

/// Race history well-formedness: every key non-empty and no key twice, and
/// each race's result list merged by lane.
pub open spec fn races_wf(races: Seq<RaceModel>) -> bool {
    &&& forall|i: int| 0 <= i < races.len() ==> (#[trigger] races[i]).event_number.len() > 0
    &&& forall|i: int, j: int|
        0 <= i < j < races.len() ==> (#[trigger] races[i]).event_number != (
        #[trigger] races[j]).event_number
    &&& forall|i: int| 0 <= i < races.len() ==> lanes_unique((#[trigger] races[i]).results)
}

/// The state invariant every mutation preserves.
pub open spec fn state_wf(s: StateModel) -> bool {
    &&& lanes_unique(s.results)
    &&& races_wf(s.races)
}

/// First index whose row has exactly this (non-empty) lane.
pub open spec fn find_lane(rs: Seq<AthleteRow>, lane: Seq<u8>) -> Option<int>
    decreases rs.len(),
{
    if rs.len() == 0 {
        None
    } else if rs[0].lane == lane {
        Some(0)
    } else {
        match find_lane(rs.skip(1), lane) {
            Some(i) => Some(i + 1),
            None => None,
        }
    }
}

pub proof fn lemma_find_lane(rs: Seq<AthleteRow>, lane: Seq<u8>)
    ensures
        match find_lane(rs, lane) {
            Some(i) => 0 <= i < rs.len() && rs[i].lane == lane && forall|j: int|
                0 <= j < i ==> (#[trigger] rs[j]).lane != lane,
            None => forall|j: int| 0 <= j < rs.len() ==> (#[trigger] rs[j]).lane != lane,
        },
    decreases rs.len(),
{
    if rs.len() == 0 {
    } else if rs[0].lane == lane {
    } else {
        lemma_find_lane(rs.skip(1), lane);
        match find_lane(rs.skip(1), lane) {
            Some(i) => {
                assert(rs[i + 1] == rs.skip(1)[i]);
                assert forall|j: int| 0 <= j < i + 1 implies (#[trigger] rs[j]).lane != lane by {
                    if j > 0 {
                        assert(rs[j] == rs.skip(1)[j - 1]);
                    }
                }
            },
            None => {
                assert forall|j: int| 0 <= j < rs.len() implies (#[trigger] rs[j]).lane != lane by {
                    if j > 0 {
                        assert(rs[j] == rs.skip(1)[j - 1]);
                    }
                }
            },
        }
    }
}

/// The merge rule: a row with a non-empty lane replaces the first row that
/// already carries that lane; otherwise the row is appended.
pub open spec fn upsert_row(rs: Seq<AthleteRow>, r: AthleteRow) -> Seq<AthleteRow> {
    if r.lane.len() > 0 && find_lane(rs, r.lane) is Some {
        rs.update(find_lane(rs, r.lane).unwrap(), r)
    } else {
        rs.push(r)
    }
}

pub proof fn lemma_upsert_preserves_unique(rs: Seq<AthleteRow>, r: AthleteRow)
    requires
        lanes_unique(rs),
    ensures
        lanes_unique(upsert_row(rs, r)),
{
    lemma_find_lane(rs, r.lane);
    let out = upsert_row(rs, r);
    if r.lane.len() > 0 && find_lane(rs, r.lane) is Some {
        let k = find_lane(rs, r.lane).unwrap();
        assert forall|i: int, j: int|
            0 <= i < j < out.len() && (#[trigger] out[i]).lane.len() > 0 implies out[i].lane != (
        #[trigger] out[j]).lane by {
            if i != k && j != k {
                assert(out[i] == rs[i] && out[j] == rs[j]);
            } else if i == k {
                assert(out[i].lane == rs[k].lane && out[j] == rs[j]);
            } else {
                assert(out[j].lane == rs[k].lane && out[i] == rs[i]);
            }
        }
    } else {
        assert forall|i: int, j: int|
            0 <= i < j < out.len() && (#[trigger] out[i]).lane.len() > 0 implies out[i].lane != (
        #[trigger] out[j]).lane by {
            if j < rs.len() {
                assert(out[i] == rs[i] && out[j] == rs[j]);
            } else {
                assert(out[j] == r && out[i] == rs[i]);
            }
        }
    }
}

/// Upserting twice under one non-empty lane leaves exactly one row for that
/// lane, holding the later values, wherever the list was already merged by
/// lane. The same rule runs inside each race history entry, so the claim
/// covers the live list and the history alike.
pub proof fn lemma_upsert_same_lane_twice(rs: Seq<AthleteRow>, r1: AthleteRow, r2: AthleteRow)
    requires
        lanes_unique(rs),
        r1.lane == r2.lane,
        r1.lane.len() > 0,
    ensures
        ({
            let out = upsert_row(upsert_row(rs, r1), r2);
            &&& exists|i: int| 0 <= i < out.len() && out[i] == r2
            &&& forall|i: int| 0 <= i < out.len() && (#[trigger] out[i]).lane == r2.lane ==> out[i] == r2
            &&& out.len() == upsert_row(rs, r1).len()
        }),
{
    let mid = upsert_row(rs, r1);
    let out = upsert_row(mid, r2);
    lemma_find_lane(rs, r1.lane);
    lemma_upsert_preserves_unique(rs, r1);
    lemma_find_lane(mid, r2.lane);
    match find_lane(rs, r1.lane) {
        Some(k) => {
            assert(mid[k] == r1);
            let k2 = find_lane(mid, r2.lane).unwrap();
            assert(out == mid.update(k2, r2));
            assert(out[k2] == r2);
            assert forall|i: int|
                0 <= i < out.len() && (#[trigger] out[i]).lane == r2.lane implies out[i] == r2 by {
                if i != k2 {
                    assert(out[i] == mid[i]);
                    if i < k2 {
                        assert(mid[i].lane != r2.lane);
                    } else {
                        assert(lanes_unique(mid));
                        assert(mid[k2].lane == r2.lane);
                    }
                }
            }
        },
        None => {
            assert(mid == rs.push(r1));
            assert(mid[rs.len() as int] == r1);
            let k2 = find_lane(mid, r2.lane).unwrap();
            assert(out == mid.update(k2, r2));
            assert(out[k2] == r2);
            assert forall|i: int|
                0 <= i < out.len() && (#[trigger] out[i]).lane == r2.lane implies out[i] == r2 by {
                if i != k2 {
                    assert(out[i] == mid[i]);
                    if i < k2 {
                        assert(mid[i].lane != r2.lane);
                    } else {
                        assert(lanes_unique(mid));
                        assert(mid[k2].lane == r2.lane);
                    }
                }
            }
        },
    }
}

/// A row with an empty lane is never merged: every upsert appends it.
pub proof fn lemma_upsert_empty_lane_appends(rs: Seq<AthleteRow>, r: AthleteRow)
    requires
        r.lane.len() == 0,
    ensures
        upsert_row(rs, r) == rs.push(r),
        upsert_row(rs, r).len() == rs.len() + 1,
{
}

impl AthleteResult {
    /// A fresh row with every field empty.
    pub fn empty() -> (r: AthleteResult)
        ensures
            r@.place == Seq::<u8>::empty(),
            r@.lane == Seq::<u8>::empty(),
            r@.id == Seq::<u8>::empty(),
            r@.name == Seq::<u8>::empty(),
            r@.affiliation == Seq::<u8>::empty(),
            r@.time == Seq::<u8>::empty(),
            r@.delta_time == Seq::<u8>::empty(),
    {
        let r = AthleteResult {
            place: Vec::new(),
            lane: Vec::new(),
            id: Vec::new(),
            name: Vec::new(),
            affiliation: Vec::new(),
            time: Vec::new(),
            delta_time: Vec::new(),
        };
        proof {
            assert(r@.place =~= Seq::<u8>::empty());
            assert(r@.lane =~= Seq::<u8>::empty());
            assert(r@.id =~= Seq::<u8>::empty());
            assert(r@.name =~= Seq::<u8>::empty());
            assert(r@.affiliation =~= Seq::<u8>::empty());
            assert(r@.time =~= Seq::<u8>::empty());
            assert(r@.delta_time =~= Seq::<u8>::empty());
        }
        r
    }

    /// A field-for-field copy.
    pub fn duplicate(&self) -> (r: AthleteResult)
        ensures
            r@ == self@,
    {
        AthleteResult {
            place: copy_bytes(&self.place),
            lane: copy_bytes(&self.lane),
            id: copy_bytes(&self.id),
            name: copy_bytes(&self.name),
            affiliation: copy_bytes(&self.affiliation),
            time: copy_bytes(&self.time),
            delta_time: copy_bytes(&self.delta_time),
        }
    }
}

/// Copies a result list field-for-field.
#[verifier::loop_isolation(false)]
pub fn copy_results(rs: &Vec<AthleteResult>) -> (out: Vec<AthleteResult>)
    ensures
        out@.map_values(|x: AthleteResult| x@) == rs@.map_values(|x: AthleteResult| x@),
{
    let mut out: Vec<AthleteResult> = Vec::new();
    let mut i: usize = 0;
    while i < rs.len()
        invariant
            0 <= i <= rs@.len(),
            out@.map_values(|x: AthleteResult| x@) =~= rs@.map_values(|x: AthleteResult| x@).take(
                i as int,
            ),
        decreases rs@.len() - i,
    {
        out.push(rs[i].duplicate());
        proof {
            assert(out@.map_values(|x: AthleteResult| x@) =~= rs@.map_values(
                |x: AthleteResult| x@,
            ).take(i + 1));
        }
        i += 1;
    }
    proof {
        assert(rs@.map_values(|x: AthleteResult| x@).take(rs@.len() as int) =~= rs@.map_values(
            |x: AthleteResult| x@,
        ));
    }
    out
}

/// A byte-for-byte copy of a byte vector.
pub fn copy_bytes(v: &Vec<u8>) -> (r: Vec<u8>)
    ensures
        r@ == v@,
{
    vstd::slice::slice_to_vec(v.as_slice())
}

/// Applies the merge rule to a result list in place.
#[verifier::loop_isolation(false)]
pub fn upsert_into(rs: &mut Vec<AthleteResult>, r: AthleteResult)
    ensures
        final(rs)@.map_values(|x: AthleteResult| x@) == upsert_row(
            old(rs)@.map_values(|x: AthleteResult| x@),
            r@,
        ),
{
    let ghost rows = old(rs)@.map_values(|x: AthleteResult| x@);
    proof {
        lemma_find_lane(rows, r@.lane);
    }
    if r.lane.len() > 0 {
        let mut i: usize = 0;
        while i < rs.len()
            invariant
                0 <= i <= rs@.len(),
                rs@ == old(rs)@,
                rows == old(rs)@.map_values(|x: AthleteResult| x@),
                forall|j: int| 0 <= j < i ==> (#[trigger] rows[j]).lane != r@.lane,
            decreases rs@.len() - i,
        {
            let hit = bytes_eq_vec(&rs[i].lane, &r.lane);
            if hit {
                proof {
                    assert(rows[i as int].lane == r@.lane);
                    assert(find_lane(rows, r@.lane) == Some(i as int));
                }
                rs.set(i, r);
                proof {
                    assert(rs@.map_values(|x: AthleteResult| x@) =~= rows.update(i as int, r@));
                }
                return ;
            }
            proof {
                assert(rows[i as int].lane != r@.lane);
            }
            i += 1;
        }
        proof {
            assert(find_lane(rows, r@.lane) is None);
        }
        rs.push(r);
        proof {
            assert(rs@.map_values(|x: AthleteResult| x@) =~= rows.push(r@));
        }
    } else {
        rs.push(r);
        proof {
            assert(rs@.map_values(|x: AthleteResult| x@) =~= rows.push(r@));
        }
    }
}

/// Byte equality on vectors.
pub fn bytes_eq_vec(a: &Vec<u8>, b: &Vec<u8>) -> (r: bool)
    ensures
        r == (a@ == b@),
{
    bytes::bytes_eq(a.as_slice(), b.as_slice())
}

/// A scoreboard that starts empty but for a previously persisted history.
pub fn initialize_state(races: Vec<RaceData>) -> (s: ScoreboardState)
    requires
        races_wf(races@.map_values(|r: RaceData| r@)),
    ensures
        s@.time.len() == 0,
        !s@.running,
        s@.results.len() == 0,
        s@.messages.len() == 0,
        s@.event_name.len() == 0,
        s@.event_number.len() == 0,
        s@.gun_time.len() == 0,
        s@.races == races@.map_values(|r: RaceData| r@),
        state_wf(s@),
{
    let s = ScoreboardState {
        time: Vec::new(),
        running: false,
        results: Vec::new(),
        messages: Vec::new(),
        event_name: Vec::new(),
        event_number: Vec::new(),
        gun_time: Vec::new(),
        races,
    };
    proof {
        assert(s@.results =~= Seq::<AthleteRow>::empty());
        assert(s@.messages =~= Seq::<Seq<u8>>::empty());
    }
    s
}

/// Sort key: the place when it reads as a number (lower first, absent places
/// last), then the lane number (unreadable lanes rank as 999).
pub open spec fn place_rank(r: AthleteRow) -> int {
    if numbers::parse_u32_ok(r.place) {
        numbers::parse_u32_val(r.place) as int
    } else {
        0x1_0000_0000
    }
}

pub open spec fn lane_rank(r: AthleteRow) -> int {
    if numbers::parse_u32_ok(r.lane) {
        numbers::parse_u32_val(r.lane) as int
    } else {
        999
    }
}

/// The display order: by place rank, ties by lane rank.
pub open spec fn row_le(a: AthleteRow, b: AthleteRow) -> bool {
    place_rank(a) < place_rank(b) || (place_rank(a) == place_rank(b) && lane_rank(a) <= lane_rank(
        b,
    ))
}

pub open spec fn sorted_rows(rs: Seq<AthleteRow>) -> bool {
    forall|i: int, j: int| 0 <= i < j < rs.len() ==> row_le(#[trigger] rs[i], #[trigger] rs[j])
}

fn rank_of(place: &Vec<u8>) -> (r: u64)
    ensures
        ({
            let row_place = place@;
            r as int == (if numbers::parse_u32_ok(row_place) {
                numbers::parse_u32_val(row_place) as int
            } else {
                0x1_0000_0000
            })
        }),
{
    match numbers::parse_u32(place.as_slice()) {
        Some(v) => v as u64,
        None => 0x1_0000_0000u64,
    }
}

fn lane_rank_of(lane: &Vec<u8>) -> (r: u64)
    ensures
        ({
            let l = lane@;
            r as int == (if numbers::parse_u32_ok(l) {
                numbers::parse_u32_val(l) as int
            } else {
                999
            })
        }),
{
    match numbers::parse_u32(lane.as_slice()) {
        Some(v) => v as u64,
        None => 999u64,
    }
}

/// Exec comparison deciding `row_le` on the two rows' views.
fn row_le_exec(a: &AthleteResult, b: &AthleteResult) -> (r: bool)
    ensures
        r == row_le(a@, b@),
{
    let pa = rank_of(&a.place);
    let pb = rank_of(&b.place);
    if pa < pb {
        true
    } else if pa > pb {
        false
    } else {
        let la = lane_rank_of(&a.lane);
        let lb = lane_rank_of(&b.lane);
        la <= lb
    }
}

/// Stable insertion into a sorted list: the new row goes after every row
/// ordered at-or-before it, so rows it ties with keep their earlier place.
pub open spec fn insert_row_sorted(s: Seq<AthleteRow>, r: AthleteRow) -> Seq<AthleteRow>
    decreases s.len(),
{
    if s.len() == 0 {
        seq![r]
    } else if row_le(s[s.len() - 1], r) {
        s.push(r)
    } else {
        insert_row_sorted(s.take(s.len() - 1), r).push(s[s.len() - 1])
    }
}

/// The stable sort: rows inserted one by one in their original order.
/// Equal-rank rows therefore come out in the order they went in.
pub open spec fn sort_spec(rs: Seq<AthleteRow>) -> Seq<AthleteRow>
    decreases rs.len(),
{
    if rs.len() == 0 {
        Seq::empty()
    } else {
        insert_row_sorted(sort_spec(rs.take(rs.len() - 1)), rs[rs.len() - 1])
    }
}

proof fn lemma_insert_row_arrangement(s: Seq<AthleteRow>, r: AthleteRow, p: int)
    requires
        0 <= p <= s.len(),
        p > 0 ==> row_le(s[p - 1], r),
        forall|k: int| p <= k < s.len() ==> !row_le(#[trigger] s[k], r),
    ensures
        insert_row_sorted(s, r) == s.take(p) + seq![r] + s.skip(p),
    decreases s.len(),
{
    if s.len() == 0 {
        assert(insert_row_sorted(s, r) =~= s.take(p) + seq![r] + s.skip(p));
    } else if row_le(s[s.len() - 1], r) {
        assert(p == s.len()) by {
            if p < s.len() {
                assert(!row_le(s[s.len() - 1], r));
            }
        }
        assert(insert_row_sorted(s, r) =~= s.take(p) + seq![r] + s.skip(p));
    } else {
        assert(p < s.len()) by {
            if p == s.len() {
                assert(row_le(s[p - 1], r));
            }
        }
        let d = s.take(s.len() - 1);
        assert(forall|k: int| p <= k < d.len() ==> !row_le(#[trigger] d[k], r)) by {
            assert(forall|k: int| 0 <= k < d.len() ==> #[trigger] d[k] == s[k]);
        }
        assert(p > 0 ==> row_le(d[p - 1], r));
        lemma_insert_row_arrangement(d, r, p);
        assert(insert_row_sorted(s, r) =~= s.take(p) + seq![r] + s.skip(p)) by {
            assert(insert_row_sorted(s, r) == (d.take(p) + seq![r] + d.skip(p)).push(
                s[s.len() - 1],
            ));
            assert(d.take(p) =~= s.take(p));
        }
    }
}

/// Sorting a list that is already sorted changes nothing. Together with
/// [`sort_results`]' contract this makes sorting idempotent: a second call
/// on an untouched list is the identity.
pub proof fn lemma_sort_spec_of_sorted(rs: Seq<AthleteRow>)
    requires
        sorted_rows(rs),
    ensures
        sort_spec(rs) == rs,
    decreases rs.len(),
{
    if rs.len() == 0 {
        assert(sort_spec(rs) =~= rs);
    } else {
        let d = rs.take(rs.len() - 1);
        assert(sorted_rows(d)) by {
            assert(forall|k: int| 0 <= k < d.len() ==> #[trigger] d[k] == rs[k]);
        }
        lemma_sort_spec_of_sorted(d);
        if rs.len() >= 2 {
            assert(row_le(rs[rs.len() - 2], rs[rs.len() - 1]));
            assert(d[d.len() - 1] == rs[rs.len() - 2]);
            assert(insert_row_sorted(d, rs[rs.len() - 1]) == d.push(rs[rs.len() - 1]));
            assert(d.push(rs[rs.len() - 1]) =~= rs);
        } else {
            assert(d =~= Seq::<AthleteRow>::empty());
            assert(insert_row_sorted(Seq::<AthleteRow>::empty(), rs[0]) =~= seq![rs[0]]);
            assert(seq![rs[0]] =~= rs);
        }
    }
}

/// Sorts a result list for display: readable places first in numeric order,
/// ties and place-less rows by lane number, stably — rows with equal ranks
/// keep their relative order. The output is exactly [`sort_spec`] of the
/// input, which also keeps the rows as a multiset.
#[verifier::loop_isolation(false)]
#[verifier::rlimit(100)]
#[verifier::spinoff_prover]
pub fn sort_results(results: &mut Vec<AthleteResult>)
    ensures
        final(results)@.map_values(|x: AthleteResult| x@) == sort_spec(
            old(results)@.map_values(|x: AthleteResult| x@),
        ),
        sorted_rows(final(results)@.map_values(|x: AthleteResult| x@)),
        final(results)@.map_values(|x: AthleteResult| x@).to_multiset() == old(
            results,
        )@.map_values(|x: AthleteResult| x@).to_multiset(),
{
    let ghost orig = old(results)@.map_values(|x: AthleteResult| x@);
    let n = results.len();
    if n <= 1 {
        proof {
            if n == 0 {
                assert(sort_spec(orig) =~= orig);
            } else {
                assert(orig.take(0) =~= Seq::<AthleteRow>::empty());
                assert(sort_spec(Seq::<AthleteRow>::empty()) =~= Seq::<AthleteRow>::empty());
                assert(insert_row_sorted(Seq::<AthleteRow>::empty(), orig[0]) =~= seq![orig[0]]);
                assert(sort_spec(orig) =~= orig);
            }
        }
        return ;
    }
    proof {
        assert(orig.take(1).take(0) =~= Seq::<AthleteRow>::empty());
        assert(sort_spec(Seq::<AthleteRow>::empty()) =~= Seq::<AthleteRow>::empty());
        assert(insert_row_sorted(Seq::<AthleteRow>::empty(), orig.take(1)[0]) =~= seq![orig[0]]);
        assert(sort_spec(orig.take(1)) =~= seq![orig[0]]);
        assert(seq![orig[0]] + orig.skip(1) =~= orig);
    }
    let mut i: usize = 1;
    while i < n
        invariant
            n == results@.len(),
            1 <= i <= n,
            orig == old(results)@.map_values(|x: AthleteResult| x@),
            sorted_rows(results@.map_values(|x: AthleteResult| x@).take(i as int)),
            results@.map_values(|x: AthleteResult| x@) == sort_spec(orig.take(i as int))
                + orig.skip(i as int),
            results@.map_values(|x: AthleteResult| x@).to_multiset() == old(results)@.map_values(
                |x: AthleteResult| x@,
            ).to_multiset(),
        decreases n - i,
    {
        let ghost sorted_prefix = sort_spec(orig.take(i as int));
        let ghost x = orig[i as int];
        proof {
            let cur = results@.map_values(|x2: AthleteResult| x2@);
            assert(sorted_prefix.len() == i) by {
                assert(cur.len() == n);
                assert(orig.skip(i as int).len() == n - i);
            }
            assert(cur.take(i as int) =~= sorted_prefix);
            assert(orig.skip(i as int) =~= seq![x] + orig.skip(i + 1));
            assert(sorted_prefix.take(i as int) =~= sorted_prefix);
            assert(sorted_prefix.skip(i as int) =~= Seq::<AthleteRow>::empty());
            assert(cur =~= sorted_prefix.take(i as int) + seq![x] + sorted_prefix.skip(i as int)
                + orig.skip(i + 1));
        }
        let mut j: usize = i;
        while j > 0
            invariant
                0 <= j <= i < n,
                n == results@.len(),
                sorted_prefix.len() == i,
                results@.map_values(|x2: AthleteResult| x2@).to_multiset() == old(
                    results,
                )@.map_values(|x2: AthleteResult| x2@).to_multiset(),
                sorted_rows(
                    results@.map_values(|x2: AthleteResult| x2@).take(i + 1).remove(j as int),
                ),
                ({
                    let cur = results@.map_values(|x2: AthleteResult| x2@);
                    forall|k: int| j < k <= i ==> row_le(cur[j as int], #[trigger] cur[k])
                }),
                results@.map_values(|x2: AthleteResult| x2@) == sorted_prefix.take(j as int)
                    + seq![x] + sorted_prefix.skip(j as int) + orig.skip(i + 1),
                forall|k: int| j <= k < i ==> !row_le(#[trigger] sorted_prefix[k], x),
            decreases j,
        {
            let swap_needed = !row_le_exec(&results[j - 1], &results[j]);
            if !swap_needed {
                break ;
            }
            let ghost before = results@.map_values(|x2: AthleteResult| x2@);
            let a = results.remove(j - 1);
            results.insert(j, a);
            proof {
                let after = results@.map_values(|x2: AthleteResult| x2@);
                assert(after =~= before.update(j - 1, before[j as int]).update(j as int, before[j - 1]));
                lemma_swap_adjacent_multiset(before, j - 1);
                assert(after.take(i + 1).remove(j - 1) =~= before.take(i + 1).remove(j as int));
                assert(before[j as int] == x);
                assert(before[j - 1] == sorted_prefix[j - 1]);
                assert(after =~= sorted_prefix.take(j - 1) + seq![x] + sorted_prefix.skip(j - 1)
                    + orig.skip(i + 1));
            }
            j -= 1;
        }
        proof {
            let cur = results@.map_values(|x2: AthleteResult| x2@);
            assert(cur.take(i + 1).remove(j as int).push(cur[j as int]).to_multiset()
                =~= cur.take(i + 1).to_multiset()) by {
                assert(cur.take(i + 1).remove(j as int) =~= cur.take(i + 1).remove(j as int));
                lemma_remove_push_multiset(cur.take(i + 1), j as int);
            }
            assert(sorted_rows(cur.take(i + 1))) by {
                lemma_sorted_insert(cur, i as int, j as int);
            }
            // the inner loop realized the stable insertion of x into the
            // sorted prefix
            assert(cur[j as int] == x);
            if j > 0 {
                assert(cur[j - 1] == sorted_prefix[j - 1]);
                assert(row_le(sorted_prefix[j - 1], x));
            }
            lemma_insert_row_arrangement(sorted_prefix, x, j as int);
            assert(orig.take(i + 1).take(i as int) =~= orig.take(i as int));
            assert(orig.take(i + 1)[i as int] == x);
            assert(sort_spec(orig.take(i + 1)) == insert_row_sorted(sorted_prefix, x));
            assert(cur =~= sort_spec(orig.take(i + 1)) + orig.skip(i + 1));
        }
        i += 1;
    }
    proof {
        let cur = results@.map_values(|x: AthleteResult| x@);
        assert(cur.take(n as int) =~= cur);
        assert(orig.take(n as int) =~= orig);
        assert(orig.skip(n as int) =~= Seq::<AthleteRow>::empty());
        assert(cur =~= sort_spec(orig));
    }
}

proof fn lemma_swap_adjacent_multiset(s: Seq<AthleteRow>, j: int)
    requires
        0 <= j < s.len() - 1,
    ensures
        s.update(j, s[j + 1]).update(j + 1, s[j]).to_multiset() == s.to_multiset(),
{
    let t = s.update(j, s[j + 1]).update(j + 1, s[j]);
    vstd::seq_lib::lemma_multiset_commutative(s.take(j), s.skip(j));
    broadcast use vstd::seq_lib::group_to_multiset_ensures;

    assert(t =~= s.take(j) + seq![s[j + 1], s[j]] + s.skip(j + 2));
    assert(s =~= s.take(j) + seq![s[j], s[j + 1]] + s.skip(j + 2));
    let mid1 = seq![s[j + 1], s[j]];
    let mid2 = seq![s[j], s[j + 1]];
    assert(mid1.to_multiset() =~= mid2.to_multiset()) by {
        assert(mid1 =~= Seq::empty().push(s[j + 1]).push(s[j]));
        assert(mid2 =~= Seq::empty().push(s[j]).push(s[j + 1]));
        assert(Seq::empty().push(s[j + 1]).push(s[j]).to_multiset() =~= Multiset::empty().insert(
            s[j + 1],
        ).insert(s[j]));
        assert(Seq::empty().push(s[j]).push(s[j + 1]).to_multiset() =~= Multiset::empty().insert(
            s[j],
        ).insert(s[j + 1]));
    }
    vstd::seq_lib::lemma_multiset_commutative(s.take(j) + mid1, s.skip(j + 2));
    vstd::seq_lib::lemma_multiset_commutative(s.take(j) + mid2, s.skip(j + 2));
    vstd::seq_lib::lemma_multiset_commutative(s.take(j), mid1);
    vstd::seq_lib::lemma_multiset_commutative(s.take(j), mid2);
}

proof fn lemma_remove_push_multiset(s: Seq<AthleteRow>, j: int)
    requires
        0 <= j < s.len(),
    ensures
        s.remove(j).push(s[j]).to_multiset() == s.to_multiset(),
{
    broadcast use vstd::seq_lib::group_to_multiset_ensures;

    assert(s.remove(j).to_multiset() =~= s.to_multiset().remove(s[j]));
    assert(s.remove(j).push(s[j]).to_multiset() =~= s.remove(j).to_multiset().insert(s[j]));
    assert(s.to_multiset().count(s[j]) > 0) by {
        assert(s.contains(s[j]));
    }
    assert(s.to_multiset().remove(s[j]).insert(s[j]) =~= s.to_multiset());
}

proof fn lemma_sorted_insert(cur: Seq<AthleteRow>, i: int, j: int)
    requires
        0 <= j <= i < cur.len(),
        sorted_rows(cur.take(i + 1).remove(j)),
        forall|k: int| j < k <= i ==> row_le(cur[j], #[trigger] cur[k]),
        j > 0 ==> row_le(cur[j - 1], cur[j]),
    ensures
        sorted_rows(cur.take(i + 1)),
{
    let t = cur.take(i + 1);
    let rest = t.remove(j);
    assert forall|a: int, b: int| 0 <= a < b < t.len() implies row_le(
        #[trigger] t[a],
        #[trigger] t[b],
    ) by {
        if a == j {
            assert(row_le(cur[j], cur[b]));
        } else if b == j {
            // a < j: chain through position j - 1
            if a == j - 1 {
            } else {
                assert(rest[a] == t[a]);
                assert(rest[j - 1] == t[j - 1]);
                assert(row_le(t[a], t[j - 1]));
                assert(row_le(t[j - 1], t[j]));
                lemma_row_le_trans(t[a], t[j - 1], t[j]);
            }
        } else {
            let a2 = if a < j {
                a
            } else {
                a - 1
            };
            let b2 = if b < j {
                b
            } else {
                b - 1
            };
            assert(rest[a2] == t[a]);
            assert(rest[b2] == t[b]);
            assert(row_le(rest[a2], rest[b2]));
        }
    }
}

proof fn lemma_row_le_trans(a: AthleteRow, b: AthleteRow, c: AthleteRow)
    requires
        row_le(a, b),
        row_le(b, c),
    ensures
        row_le(a, c),
{
}

} // verus!
