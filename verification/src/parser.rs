//! The per-connection decoder: an accumulation buffer, a classifier that
//! picks exactly one decoding strategy per chunk arrival, and the strategy
//! passes themselves. A pass consumes a decoded prefix of the buffer and
//! folds the records into the scoreboard; undecodable trailing bytes stay
//! buffered for the next chunk.

use vstd::prelude::*;

use crate::baretime;
use crate::binary;
use crate::bytes;
use crate::csv;
use crate::state::ScoreboardState;
use crate::state::StateModel;
use crate::state::lanes_unique;
use crate::state::state_wf;
use crate::utf16;

verus! {

/// Buffers that stay unclassifiable beyond this many bytes are dropped to
/// bound memory and resynchronize.
pub open spec fn garbage_ceiling() -> int {
    100
}

/// The single-byte CSV pass: on valid UTF-8 text, everything through the
/// last `;` is decoded as records and drained; with no `;` (or invalid
/// text) nothing is consumed.
pub open spec fn ascii_csv_pass(buf: Seq<u8>, st: StateModel) -> (Seq<u8>, StateModel, bool) {
    if baretime::is_utf8(buf) {
        match bytes::rfind_byte(buf, 0x3bu8) {
            Some(e) => {
                let (st2, touched) = csv::parse_csv_text(st, buf.take(e + 1));
                (buf.skip(e + 1), st2, touched)
            },
            None => (buf, st, false),
        }
    } else {
        (buf, st, false)
    }
}

/// The double-byte CSV pass: the even prefix is read as UTF-16LE code
/// units; everything through the last `;` unit is decoded to UTF-8 text,
/// folded as records, and the matching bytes drained.
pub open spec fn utf16_csv_pass(buf: Seq<u8>, st: StateModel) -> (Seq<u8>, StateModel, bool) {
    let safe = 2 * (buf.len() as int / 2);
    if safe == 0 {
        (buf, st, false)
    } else {
        let units = utf16::units_of(buf.take(safe));
        match utf16::rfind_unit(units, 0x3bu16) {
            Some(i) => {
                let text = utf16::utf16_to_utf8(units.take(i + 1));
                let (st2, touched) = csv::parse_csv_text(st, text);
                (buf.skip(2 * (i + 1)), st2, touched)
            },
            None => (buf, st, false),
        }
    }
}

/// One chunk arrival: the chunk joins the buffer, the classifier picks one
/// strategy (first match wins), and that one pass runs. The boolean reports
/// whether a keyed race history entry was touched, which obliges the caller
/// to persist the history.
pub open spec fn chunk_step(buf: Seq<u8>, chunk: Seq<u8>, st: StateModel) -> (
    Seq<u8>,
    StateModel,
    bool,
) {
    let b = buf + chunk;
    if b.len() == 0 {
        (b, st, false)
    } else if 0x10 <= b[0] <= 0x18 {
        let (b2, st2) = binary::binary_pass(b, st);
        (b2, st2, false)
    } else if bytes::contains_seq(b, binary::signature()) {
        let (b2, st2) = binary::signature_pass(b, st);
        (b2, st2, false)
    } else if bytes::contains_byte(b, 0x00u8) {
        utf16_csv_pass(b, st)
    } else if bytes::contains_byte(b, 0x3bu8) || bytes::contains_byte(b, 0x2cu8) {
        ascii_csv_pass(b, st)
    } else if bytes::contains_byte(b, 0x3au8) {
        baretime::time_pass(b, st)
    } else if b.len() > garbage_ceiling() {
        (Seq::empty(), st, false)
    } else {
        (b, st, false)
    }
}

pub proof fn lemma_parse_csv_text_wf(st: StateModel, text: Seq<u8>)
    requires
        state_wf(st),
    ensures
        state_wf(csv::parse_csv_text(st, text).0),
{
    csv::lemma_apply_records_wf(st, bytes::split_on(text, 0x3bu8));
}

/// Every chunk step keeps the state well formed.
pub proof fn lemma_chunk_step_wf(buf: Seq<u8>, chunk: Seq<u8>, st: StateModel)
    requires
        state_wf(st),
    ensures
        state_wf(chunk_step(buf, chunk, st).1),
{
    let b = buf + chunk;
    if b.len() == 0 {
    } else if 0x10 <= b[0] <= 0x18 {
        binary::lemma_binary_pass_frame(b, st);
    } else if bytes::contains_seq(b, binary::signature()) {
        binary::lemma_signature_pass_frame(b, st);
    } else if bytes::contains_byte(b, 0x00u8) {
        let safe = 2 * (b.len() as int / 2);
        if safe != 0 {
            let units = utf16::units_of(b.take(safe));
            match utf16::rfind_unit(units, 0x3bu16) {
                Some(i) => {
                    lemma_parse_csv_text_wf(st, utf16::utf16_to_utf8(units.take(i + 1)));
                },
                None => {},
            }
        }
    } else if bytes::contains_byte(b, 0x3bu8) || bytes::contains_byte(b, 0x2cu8) {
        if baretime::is_utf8(b) {
            match bytes::rfind_byte(b, 0x3bu8) {
                Some(e) => {
                    lemma_parse_csv_text_wf(st, b.take(e + 1));
                },
                None => {},
            }
        }
    } else if bytes::contains_byte(b, 0x3au8) {
        baretime::lemma_time_pass_wf(b, st);
    }
}

/// Binary group input whose terminator has not arrived consumes nothing:
/// the chunk only joins the buffer, and the state does not move. This holds
/// on every delivery until a terminator byte shows up.
pub proof fn lemma_chunk_step_binary_partial(buf: Seq<u8>, chunk: Seq<u8>, st: StateModel)
    requires
        (buf + chunk).len() > 0,
        (buf + chunk)[0] == binary::group_time() || (buf + chunk)[0]
            == binary::group_message_header() || (buf + chunk)[0] == binary::group_message(),
        forall|i: int|
            0 <= i < (buf + chunk).len() ==> #[trigger] (buf + chunk)[i] != 0x02u8 && (buf
                + chunk)[i] != 0x03u8 && (buf + chunk)[i] != 0x04u8 && (buf + chunk)[i] != 0x05u8,
    ensures
        chunk_step(buf, chunk, st) == (buf + chunk, st, false),
{
    binary::lemma_binary_no_terminator(buf + chunk, st);
}

/// One decoder instance: the private accumulation buffer of one connection.
pub struct LynxParser {
    pub buffer: Vec<u8>,
}

impl View for LynxParser {
    type V = Seq<u8>;

    open spec fn view(&self) -> Seq<u8> {
        self.buffer@
    }
}

impl LynxParser {
    /// A decoder with an empty buffer.
    pub fn new() -> (p: LynxParser)
        ensures
            p@ == Seq::<u8>::empty(),
    {
        let p = LynxParser { buffer: Vec::new() };
        proof {
            assert(p@ =~= Seq::<u8>::empty());
        }
        p
    }

    /// Feeds one transport chunk: appends it to the buffer, classifies, and
    /// runs exactly one decode pass, mirroring [`chunk_step`]. The result
    /// says whether the keyed race history was touched; the caller then
    /// persists a snapshot of it.
    #[verifier::loop_isolation(false)]
    pub fn process_chunk(&mut self, state: &mut ScoreboardState, chunk: &[u8]) -> (touched: bool)
        requires
            state_wf(old(state)@),
        ensures
            (final(self)@, final(state)@, touched) == chunk_step(old(self)@, chunk@, old(state)@),
            state_wf(final(state)@),
    {
        proof {
            lemma_chunk_step_wf(old(self)@, chunk@, old(state)@);
        }
        let mut tail = vstd::slice::slice_to_vec(chunk);
        self.buffer.append(&mut tail);
        let ghost b = old(self)@ + chunk@;
        proof {
            assert(self@ =~= b);
        }
        if self.buffer.len() == 0 {
            return false;
        }
        let b0 = self.buffer[0];
        if 0x10 <= b0 && b0 <= 0x18 {
            binary::decode_binary(&mut self.buffer, state);
            return false;
        }
        let sig = binary::signature_bytes();
        if bytes::scan_seq(self.buffer.as_slice(), sig.as_slice()).is_some() {
            binary::decode_signature(&mut self.buffer, state);
            return false;
        }
        let has_null = bytes::scan_byte(self.buffer.as_slice(), 0x00u8).is_some();
        proof {
            bytes::lemma_find_byte_contains(b, 0x00u8);
        }
        if has_null {
            let blen = self.buffer.len();
            let safe: usize = 2 * (blen / 2);
            if safe == 0 {
                return false;
            }
            let units = utf16::units_from(self.buffer.as_slice());
            let ghost uview = utf16::units_of(b.take(2 * (b.len() as int / 2)));
            match utf16::scan_unit_back(units.as_slice(), 0x3bu16) {
                Some(i) => {
                    proof {
                        utf16::lemma_rfind_unit(uview, 0x3bu16);
                    }
                    let upref = vstd::slice::slice_subrange(units.as_slice(), 0, i + 1);
                    let text = utf16::decode_units(upref);
                    proof {
                        assert(upref@ =~= uview.take(i + 1));
                    }
                    let touched = csv::parse_csv_bytes(state, text.as_slice());
                    proof {
                        assert(2 * (i + 1) <= 2 * (blen / 2));
                    }
                    bytes::drop_front(&mut self.buffer, 2 * (i + 1));
                    return touched;
                },
                None => {
                    return false;
                },
            }
        }
        let has_semi = bytes::scan_byte(self.buffer.as_slice(), 0x3bu8).is_some();
        let has_comma = bytes::scan_byte(self.buffer.as_slice(), 0x2cu8).is_some();
        let has_colon = bytes::scan_byte(self.buffer.as_slice(), 0x3au8).is_some();
        proof {
            bytes::lemma_find_byte_contains(b, 0x3bu8);
            bytes::lemma_find_byte_contains(b, 0x2cu8);
            bytes::lemma_find_byte_contains(b, 0x3au8);
        }
        if has_semi || has_comma {
            if !baretime::check_utf8(self.buffer.as_slice()) {
                return false;
            }
            match bytes::scan_byte_back(self.buffer.as_slice(), 0x3bu8) {
                Some(e) => {
                    proof {
                        bytes::lemma_rfind_byte(b, 0x3bu8);
                    }
                    let prefix = vstd::slice::slice_to_vec(
                        vstd::slice::slice_subrange(self.buffer.as_slice(), 0, e + 1),
                    );
                    proof {
                        assert(prefix@ =~= b.take(e + 1));
                    }
                    let touched = csv::parse_csv_bytes(state, prefix.as_slice());
                    bytes::drop_front(&mut self.buffer, e + 1);
                    return touched;
                },
                None => {
                    return false;
                },
            }
        }
        if has_colon {
            let touched = baretime::decode_baretime(&mut self.buffer, state);
            return touched;
        }
        if self.buffer.len() > 100 {
            self.buffer.clear();
            proof {
                assert(self@ =~= Seq::<u8>::empty());
            }
        }
        false
    }
}


/// The text a pure-ASCII double-byte frame carries: every other byte.
pub open spec fn ascii_text(frame: Seq<u8>) -> Seq<u8> {
    Seq::new((frame.len() as int / 2) as nat, |i: int| frame[2 * i])
}

proof fn lemma_ascii_units_decode(units: Seq<u16>)
    requires
        forall|i: int| 0 <= i < units.len() ==> #[trigger] units[i] < 0x80,
    ensures
        utf16::utf16_to_utf8(units) == Seq::new(units.len(), |i: int| units[i] as u8),
    decreases units.len(),
{
    let img = Seq::new(units.len(), |i: int| units[i] as u8);
    if units.len() == 0 {
        assert(utf16::utf16_to_utf8(units) =~= img);
    } else {
        lemma_ascii_units_decode(units.skip(1));
        assert(utf16::enc_bmp(units[0]) == seq![units[0] as u8]);
        assert(Seq::new(units.skip(1).len(), |i: int| units.skip(1)[i] as u8) =~= img.skip(1));
        assert(utf16::utf16_to_utf8(units) =~= img);
    }
}

proof fn lemma_no_signature(b: Seq<u8>)
    requires
        forall|j: int| 0 <= j < b.len() ==> #[trigger] b[j] != 0x01u8,
    ensures
        !bytes::contains_seq(b, binary::signature()),
{
    bytes::lemma_find_seq(b, binary::signature());
    match bytes::find_seq(b, binary::signature()) {
        Some(i) => {
            assert(b.subrange(i, i + 3)[0] == b[i]);
            assert(b[i] == 0x01u8);
        },
        None => {},
    }
}

/// The alternating byte pattern of a pure-ASCII double-byte frame.
pub open spec fn ascii_frame(b: Seq<u8>) -> bool {
    &&& b.len() % 2 == 0
    &&& forall|i: int| 0 <= i < b.len() && i % 2 == 0 ==> 0x20 <= #[trigger] b[i] <= 0x7e
    &&& forall|i: int| 0 <= i < b.len() && i % 2 == 1 ==> #[trigger] b[i] == 0x00u8
}

proof fn lemma_ascii_frame_units(b: Seq<u8>)
    requires
        ascii_frame(b),
    ensures
        forall|i: int|
            0 <= i < utf16::units_of(b).len() ==> #[trigger] utf16::units_of(b)[i] == b[2 * i]
                as u16,
        utf16::utf16_to_utf8(utf16::units_of(b)) == ascii_text(b),
{
    let units = utf16::units_of(b);
    assert forall|i: int| 0 <= i < units.len() implies #[trigger] units[i] == b[2 * i] as u16 by {
        assert(b[2 * i + 1] == 0x00u8);
    }
    assert(forall|i: int| 0 <= i < units.len() ==> #[trigger] units[i] < 0x80);
    lemma_ascii_units_decode(units);
    assert(utf16::utf16_to_utf8(units) =~= ascii_text(b));
}

/// A complete ASCII double-byte frame, fed as one full buffer, is consumed
/// whole: the pass folds its text and leaves the buffer empty.
proof fn lemma_ascii_frame_full_pass(b: Seq<u8>, st: StateModel)
    requires
        ascii_frame(b),
        b.len() >= 2,
        b[b.len() - 2] == 0x3bu8,
    ensures
        ({
            let r = csv::parse_csv_text(st, ascii_text(b));
            chunk_step(b, Seq::empty(), st) == (Seq::<u8>::empty(), r.0, r.1)
        }),
{
    let n = b.len() as int;
    let un = n / 2;
    let units = utf16::units_of(b);
    lemma_ascii_frame_units(b);
    assert(b + Seq::<u8>::empty() =~= b);
    assert(!(0x10 <= b[0] <= 0x18));
    lemma_no_signature(b);
    assert(bytes::contains_byte(b, 0x00u8)) by {
        assert(b[1] == 0x00u8);
    }
    assert(b.take(2 * (n / 2)) =~= b);
    assert(units[un - 1] == 0x3bu16) by {
        assert(units[un - 1] == b[2 * (un - 1)] as u16);
    }
    assert(utf16::rfind_unit(units, 0x3bu16) == Some(un - 1));
    assert(units.take(un) =~= units);
    assert(b.skip(2 * un) =~= Seq::<u8>::empty());
}

/// The first chunk of a split frame: either nothing is consumable yet (no
/// `;` unit among its complete pairs), or the pass folds the text through
/// the last such unit and drains exactly those byte pairs.
proof fn lemma_ascii_frame_first_chunk(frame: Seq<u8>, cut: int, st: StateModel)
    requires
        ascii_frame(frame),
        frame.len() >= 2,
        frame[0] != 0x3bu8,
        2 <= cut <= frame.len(),
    ensures
        ({
            let c1 = frame.take(cut);
            let w = cut / 2;
            let units1 = utf16::units_of(frame).take(w);
            match utf16::rfind_unit(units1, 0x3bu16) {
                Some(i) => chunk_step(Seq::empty(), c1, st) == (
                    c1.skip(2 * (i + 1)),
                    csv::parse_csv_text(st, ascii_text(frame).take(i + 1)).0,
                    csv::parse_csv_text(st, ascii_text(frame).take(i + 1)).1,
                ),
                None => chunk_step(Seq::empty(), c1, st) == (c1, st, false),
            }
        }),
{
    let c1 = frame.take(cut);
    let units = utf16::units_of(frame);
    lemma_ascii_frame_units(frame);
    assert(Seq::<u8>::empty() + c1 =~= c1);
    assert(!(0x10 <= c1[0] <= 0x18));
    lemma_no_signature(c1);
    assert(bytes::contains_byte(c1, 0x00u8)) by {
        assert(c1[1] == 0x00u8);
    }
    let w = cut / 2;
    assert(w >= 1);
    let units1 = utf16::units_of(c1.take(2 * (cut / 2)));
    assert(units1 =~= units.take(w)) by {
        assert forall|i: int| 0 <= i < w implies #[trigger] units1[i] == units.take(w)[i] by {
            assert(c1.take(2 * (cut / 2))[2 * i] == frame[2 * i]);
            assert(c1.take(2 * (cut / 2))[2 * i + 1] == frame[2 * i + 1]);
        }
    }
    utf16::lemma_rfind_unit(units.take(w), 0x3bu16);
    match utf16::rfind_unit(units.take(w), 0x3bu16) {
        None => {},
        Some(i) => {
            assert(0 <= i < w);
            let a_units = units1.take(i + 1);
            assert(a_units =~= units.take(i + 1));
            let a = ascii_text(frame).take(i + 1);
            assert(utf16::utf16_to_utf8(a_units) =~= a) by {
                assert(forall|k: int| 0 <= k < a_units.len() ==> #[trigger] a_units[k] < 0x80);
                lemma_ascii_units_decode(a_units);
                assert forall|k: int| 0 <= k < i + 1 implies Seq::new(
                    a_units.len(),
                    |m: int| a_units[m] as u8,
                )[k] == a[k] by {
                    assert(a_units[k] == units[k]);
                }
            }
        },
    }
}

/// A complete double-byte CSV frame of ASCII text, split into two chunks at
/// any byte offset (a character pair may be cut in half), decodes to the
/// same final scoreboard state, the same (empty) buffer and the same
/// persistence obligation as the frame fed whole, once both chunks are in.
/// The frame must not open with `;` or `:`: on such inputs the two
/// schedules genuinely differ.
#[verifier::rlimit(100)]
#[verifier::spinoff_prover]
pub proof fn lemma_utf16_frame_split(frame: Seq<u8>, cut: int, st: StateModel)
    requires
        frame.len() >= 2,
        ascii_frame(frame),
        frame[frame.len() - 2] == 0x3bu8,
        frame[0] != 0x3bu8,
        frame[0] != 0x3au8,
        0 <= cut <= frame.len(),
    ensures
        ({
            let whole = chunk_step(Seq::empty(), frame, st);
            let first = chunk_step(Seq::empty(), frame.take(cut), st);
            let second = chunk_step(first.0, frame.skip(cut), first.1);
            &&& second.0 == whole.0
            &&& second.1 == whole.1
            &&& (first.2 || second.2) == whole.2
        }),
{
    let text = ascii_text(frame);
    let units = utf16::units_of(frame);
    let n = frame.len() as int;
    let un = n / 2;
    lemma_ascii_frame_units(frame);

    // the frame fed whole
    let whole = chunk_step(Seq::empty(), frame, st);
    assert(frame + Seq::<u8>::empty() =~= frame);
    assert(Seq::<u8>::empty() + frame =~= frame);
    lemma_ascii_frame_full_pass(frame, st);
    assert(chunk_step(Seq::empty(), frame, st) == chunk_step(frame, Seq::empty(), st));
    let whole_res = csv::parse_csv_text(st, text);
    assert(whole == (Seq::<u8>::empty(), whole_res.0, whole_res.1));

    // the two chunks
    let c1 = frame.take(cut);
    let c2 = frame.skip(cut);
    let first = chunk_step(Seq::empty(), c1, st);
    if cut == 0 {
        assert(Seq::<u8>::empty() + c1 =~= c1);
        assert(c1.len() == 0);
        assert(first == (c1, st, false));
        let second = chunk_step(first.0, c2, first.1);
        assert(c1 + c2 =~= frame);
        assert(second == whole);
    } else if cut == 1 {
        assert(Seq::<u8>::empty() + c1 =~= c1);
        assert(c1 =~= seq![frame[0]]);
        assert(!(0x10 <= c1[0] <= 0x18));
        lemma_no_signature(c1);
        assert(!bytes::contains_byte(c1, 0x00u8));
        assert(!bytes::contains_byte(c1, 0x3bu8));
        assert(!bytes::contains_byte(c1, 0x3au8));
        if bytes::contains_byte(c1, 0x2cu8) {
            // single-byte CSV path: ASCII is valid text, and no record
            // terminator is in sight, so nothing is consumed
            assert(baretime::is_utf8(c1)) by {
                assert(0x20 <= c1[0] <= 0x7e);
                assert(c1.skip(1) =~= Seq::<u8>::empty());
                assert(baretime::is_utf8(Seq::<u8>::empty()));
            }
            bytes::lemma_rfind_byte(c1, 0x3bu8);
            match bytes::rfind_byte(c1, 0x3bu8) {
                Some(e) => {
                    assert(c1[e] == 0x3bu8);
                },
                None => {},
            }
            assert(first == (c1, st, false));
        } else {
            assert(c1.len() <= 100);
            assert(first == (c1, st, false));
        }
        let second = chunk_step(first.0, c2, first.1);
        assert(c1 + c2 =~= frame);
        assert(second == whole);
    } else {
        lemma_ascii_frame_first_chunk(frame, cut, st);
        let w = cut / 2;
        let units1 = units.take(w);
        utf16::lemma_rfind_unit(units1, 0x3bu16);
        match utf16::rfind_unit(units1, 0x3bu16) {
            None => {
                assert(first == (c1, st, false));
                let second = chunk_step(first.0, c2, first.1);
                assert(c1 + c2 =~= frame);
                assert(second == whole);
            },
            Some(i) => {
                assert(0 <= i < w);
                assert(units1[i] == 0x3bu16);
                let a = text.take(i + 1);
                let b = text.skip(i + 1);
                let st1 = csv::parse_csv_text(st, a);
                assert(first == (c1.skip(2 * (i + 1)), st1.0, st1.1));
                let second = chunk_step(first.0, c2, first.1);
                let m = 2 * (i + 1);
                let b2 = c1.skip(m) + c2;
                assert(b2 =~= frame.skip(m));
                assert(second == chunk_step(frame.skip(m), Seq::empty(), first.1)) by {
                    assert(c1.skip(m) + c2 + Seq::<u8>::empty() =~= c1.skip(m) + c2);
                    assert(Seq::<u8>::empty() + (c1.skip(m) + c2) =~= c1.skip(m) + c2);
                    assert(chunk_step(first.0, c2, first.1) == chunk_step(
                        frame.skip(m),
                        Seq::empty(),
                        first.1,
                    ));
                }
                if m == cut && cut == frame.len() {
                    // the first chunk already held the whole frame
                    assert(c1 =~= frame);
                    assert(c1.skip(m) =~= Seq::<u8>::empty());
                    assert(c2 =~= Seq::<u8>::empty());
                    assert(first.0 + c2 =~= Seq::<u8>::empty());
                    assert(second == (Seq::<u8>::empty(), st1.0, false));
                    assert(units1 =~= units);
                    assert(i == un - 1) by {
                        utf16::lemma_rfind_unit(units, 0x3bu16);
                        assert(units[un - 1] == frame[2 * (un - 1)] as u16);
                    }
                    assert(a =~= text);
                    assert(second.1 == whole.1 && second.0 == whole.0 && (first.2 || second.2)
                        == whole.2);
                    return ;
                }
                assert(m < frame.len()) by {
                    assert(m <= 2 * w <= cut);
                    if m == cut {
                        assert(cut < frame.len() || (m == cut && cut == frame.len()));
                    }
                }
                let sfx = frame.skip(m);
                assert(ascii_frame(sfx)) by {
                    assert forall|j: int| 0 <= j < sfx.len() && j % 2 == 0 implies 0x20
                        <= #[trigger] sfx[j] <= 0x7e by {
                        assert(sfx[j] == frame[m + j]);
                        assert((m + j) % 2 == 0);
                    }
                    assert forall|j: int| 0 <= j < sfx.len() && j % 2 == 1 implies #[trigger] sfx[j]
                        == 0x00u8 by {
                        assert(sfx[j] == frame[m + j]);
                        assert((m + j) % 2 == 1);
                    }
                }
                assert(sfx.len() >= 2) by {
                    assert(m < n && m % 2 == 0 && n % 2 == 0);
                    assert(n - m >= 2);
                }
                assert(sfx[sfx.len() - 2] == 0x3bu8) by {
                    assert(sfx[sfx.len() - 2] == frame[n - 2]);
                }
                lemma_ascii_frame_full_pass(sfx, first.1);
                let bt = ascii_text(sfx);
                assert(bt =~= b) by {
                    assert forall|k: int| 0 <= k < bt.len() implies bt[k] == b[k] by {
                        assert(bt[k] == sfx[2 * k]);
                        assert(sfx[2 * k] == frame[m + 2 * k]);
                        assert(b[k] == text[i + 1 + k]);
                        assert(text[i + 1 + k] == frame[2 * (i + 1 + k)]);
                    }
                }
                let st2 = csv::parse_csv_text(st1.0, b);
                assert(second == (Seq::<u8>::empty(), st2.0, st2.1));
                // the two passes compose into the single whole-frame pass
                assert(a.len() > 0 && a[a.len() - 1] == 0x3bu8) by {
                    assert(a[i] == text[i]);
                    assert(text[i] == frame[2 * i]);
                    assert(units1[i] == units[i]);
                    assert(units[i] == frame[2 * i] as u16);
                }
                assert(a + b =~= text);
                csv::lemma_parse_csv_split(st, a, b);
                assert(st2.0 == whole_res.0);
                assert((st1.1 || st2.1) == whole_res.1);
            },
        }
    }
}

} // verus!
