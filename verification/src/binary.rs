//! The legacy binary group-code decoder and the signature-framed message
//! decoder. The binary loop consumes recognizable groups (time packets,
//! message headers, messages) from the front of the buffer and skips one
//! byte on any unknown group code; it stops when the current group's
//! terminator has not arrived yet.

use vstd::prelude::*;

use crate::bytes;
use crate::state::ScoreboardState;
use crate::state::StateModel;

verus! {

pub open spec fn group_time() -> u8 {
    0x11u8
}

pub open spec fn group_message_header() -> u8 {
    0x15u8
}

pub open spec fn group_message() -> u8 {
    0x16u8
}

/// The trailer closing a time packet or a message batch.
pub open spec fn trailer() -> Seq<u8> {
    seq![0x03u8, 0x04u8]
}

/// The 3-byte signature that opens a signature-framed message.
pub open spec fn signature() -> Seq<u8> {
    seq![0x01u8, 0x4du8, 0x02u8]
}

pub fn trailer_bytes() -> (v: Vec<u8>)
    ensures
        v@ == trailer(),
{
    let mut v: Vec<u8> = Vec::new();
    v.push(0x03u8);
    v.push(0x04u8);
    proof {
        assert(v@ =~= trailer());
    }
    v
}

pub fn signature_bytes() -> (v: Vec<u8>)
    ensures
        v@ == signature(),
{
    let mut v: Vec<u8> = Vec::new();
    v.push(0x01u8);
    v.push(0x4du8);
    v.push(0x02u8);
    proof {
        assert(v@ =~= signature());
    }
    v
}

/// One full binary-group pass: what remains buffered and the state after
/// consuming every recognizable group from the front.
pub open spec fn binary_pass(buf: Seq<u8>, st: StateModel) -> (Seq<u8>, StateModel)
    decreases buf.len(),
    via binary_pass_decreases
{
    if buf.len() == 0 {
        (buf, st)
    } else {
        let g = buf[0];
        if g == group_time() {
            match bytes::find_seq(buf, trailer()) {
                Some(e) => {
                    let st2 = match bytes::find_byte(buf, 0x02u8) {
                        Some(s) => if s < e {
                            StateModel {
                                time: bytes::trim(buf.subrange(s + 1, e)),
                                running: true,
                                ..st
                            }
                        } else {
                            st
                        },
                        None => st,
                    };
                    binary_pass(buf.skip(e + 2), st2)
                },
                None => (buf, st),
            }
        } else if g == group_message_header() {
            match bytes::find_byte(buf, 0x02u8) {
                Some(e) => binary_pass(
                    buf.skip(e + 1),
                    StateModel { messages: Seq::empty(), ..st },
                ),
                None => match bytes::find_seq(buf, trailer()) {
                    Some(e) => binary_pass(buf.skip(e + 2), st),
                    None => (buf, st),
                },
            }
        } else if g == group_message() {
            match bytes::find_byte(buf, 0x05u8) {
                Some(e) => {
                    let st2 = if buf.len() > 2 && buf[1] == 0x01u8 {
                        StateModel { messages: st.messages.push(buf.subrange(2, e)), ..st }
                    } else {
                        st
                    };
                    binary_pass(buf.skip(e + 1), st2)
                },
                None => (buf, st),
            }
        } else {
            binary_pass(buf.skip(1), st)
        }
    }
}

#[via_fn]
proof fn binary_pass_decreases(buf: Seq<u8>, st: StateModel) {
    bytes::lemma_find_seq(buf, trailer());
    bytes::lemma_find_byte(buf, 0x02u8);
    bytes::lemma_find_byte(buf, 0x05u8);
}

/// The binary pass never touches results, races or the event header fields.
pub proof fn lemma_binary_pass_frame(buf: Seq<u8>, st: StateModel)
    ensures
        ({
            let out = binary_pass(buf, st).1;
            &&& out.results == st.results
            &&& out.races == st.races
            &&& out.event_name == st.event_name
            &&& out.event_number == st.event_number
            &&& out.gun_time == st.gun_time
        }),
    decreases buf.len(),
{
    if buf.len() == 0 {
    } else {
        let g = buf[0];
        bytes::lemma_find_seq(buf, trailer());
        bytes::lemma_find_byte(buf, 0x02u8);
        bytes::lemma_find_byte(buf, 0x05u8);
        if g == group_time() {
            match bytes::find_seq(buf, trailer()) {
                Some(e) => {
                    let st2 = match bytes::find_byte(buf, 0x02u8) {
                        Some(s) => if s < e {
                            StateModel {
                                time: bytes::trim(buf.subrange(s + 1, e)),
                                running: true,
                                ..st
                            }
                        } else {
                            st
                        },
                        None => st,
                    };
                    lemma_binary_pass_frame(buf.skip(e + 2), st2);
                },
                None => {},
            }
        } else if g == group_message_header() {
            match bytes::find_byte(buf, 0x02u8) {
                Some(e) => {
                    lemma_binary_pass_frame(
                        buf.skip(e + 1),
                        StateModel { messages: Seq::empty(), ..st },
                    );
                },
                None => {
                    match bytes::find_seq(buf, trailer()) {
                        Some(e) => {
                            lemma_binary_pass_frame(buf.skip(e + 2), st);
                        },
                        None => {},
                    }
                },
            }
        } else if g == group_message() {
            match bytes::find_byte(buf, 0x05u8) {
                Some(e) => {
                    let st2 = if buf.len() > 2 && buf[1] == 0x01u8 {
                        StateModel { messages: st.messages.push(buf.subrange(2, e)), ..st }
                    } else {
                        st
                    };
                    lemma_binary_pass_frame(buf.skip(e + 1), st2);
                },
                None => {},
            }
        } else {
            lemma_binary_pass_frame(buf.skip(1), st);
        }
    }
}

/// Binary input whose current group has no terminator byte at all is left
/// fully intact: not one byte is consumed and the state does not move, no
/// matter how often the pass runs, until a terminator arrives.
pub proof fn lemma_binary_no_terminator(buf: Seq<u8>, st: StateModel)
    requires
        buf.len() > 0,
        buf[0] == group_time() || buf[0] == group_message_header() || buf[0] == group_message(),
        forall|i: int|
            0 <= i < buf.len() ==> #[trigger] buf[i] != 0x02u8 && buf[i] != 0x03u8 && buf[i]
                != 0x04u8 && buf[i] != 0x05u8,
    ensures
        binary_pass(buf, st) == (buf, st),
{
    bytes::lemma_find_seq(buf, trailer());
    bytes::lemma_find_byte(buf, 0x02u8);
    bytes::lemma_find_byte(buf, 0x05u8);
    if bytes::find_seq(buf, trailer()) is Some {
        let e = bytes::find_seq(buf, trailer()).unwrap();
        assert(buf[e] == 0x03u8);
    }
}

/// Executable binary pass, mirroring [`binary_pass`].
#[verifier::loop_isolation(false)]
pub fn decode_binary(buffer: &mut Vec<u8>, state: &mut ScoreboardState)
    ensures
        (final(buffer)@, final(state)@) == binary_pass(old(buffer)@, old(state)@),
{
    let ghost start = (old(buffer)@, old(state)@);
    let trl = trailer_bytes();
    loop
        invariant
            binary_pass(buffer@, state@) == binary_pass(start.0, start.1),
            trl@ == trailer(),
        decreases buffer@.len(),
    {
        if buffer.len() == 0 {
            return ;
        }
        let g = buffer[0];
        let ghost buf0 = buffer@;
        let ghost st0 = state@;
        if g == 0x11u8 {
            match bytes::scan_seq(buffer.as_slice(), trl.as_slice()) {
                Some(e) => {
                    proof {
                        bytes::lemma_find_seq(buf0, trailer());
                    }
                    match bytes::scan_byte(buffer.as_slice(), 0x02u8) {
                        Some(s) => {
                            proof {
                                bytes::lemma_find_byte(buf0, 0x02u8);
                            }
                            if s < e {
                                let piece = vstd::slice::slice_subrange(
                                    buffer.as_slice(),
                                    s + 1,
                                    e,
                                );
                                state.time = bytes::trim_bytes(piece);
                                state.running = true;
                            }
                        },
                        None => {},
                    }
                    bytes::drop_front(buffer, e + 2);
                    proof {
                        assert(state@ =~~= ({
                            let st2 = match bytes::find_byte(buf0, 0x02u8) {
                                Some(s) => if s < bytes::find_seq(buf0, trailer()).unwrap() {
                                    StateModel {
                                        time: bytes::trim(
                                            buf0.subrange(
                                                s + 1,
                                                bytes::find_seq(buf0, trailer()).unwrap(),
                                            ),
                                        ),
                                        running: true,
                                        ..st0
                                    }
                                } else {
                                    st0
                                },
                                None => st0,
                            };
                            st2
                        }));
                    }
                },
                None => {
                    return ;
                },
            }
        } else if g == 0x15u8 {
            match bytes::scan_byte(buffer.as_slice(), 0x02u8) {
                Some(e) => {
                    proof {
                        bytes::lemma_find_byte(buf0, 0x02u8);
                    }
                    state.messages = Vec::new();
                    bytes::drop_front(buffer, e + 1);
                    proof {
                        assert(state@ =~~= (StateModel { messages: Seq::empty(), ..st0 }));
                    }
                },
                None => {
                    match bytes::scan_seq(buffer.as_slice(), trl.as_slice()) {
                        Some(e) => {
                            proof {
                                bytes::lemma_find_seq(buf0, trailer());
                            }
                            bytes::drop_front(buffer, e + 2);
                        },
                        None => {
                            return ;
                        },
                    }
                },
            }
        } else if g == 0x16u8 {
            match bytes::scan_byte(buffer.as_slice(), 0x05u8) {
                Some(e) => {
                    proof {
                        bytes::lemma_find_byte(buf0, 0x05u8);
                    }
                    if buffer.len() > 2 && buffer[1] == 0x01u8 {
                        proof {
                            assert(buf0[1] == 0x01u8 && buf0[1] != 0x05u8);
                            assert(e >= 2);
                        }
                        let payload = vstd::slice::slice_to_vec(
                            vstd::slice::slice_subrange(buffer.as_slice(), 2, e),
                        );
                        state.messages.push(payload);
                        proof {
                            assert(state@ =~~= (StateModel {
                                messages: st0.messages.push(buf0.subrange(2, bytes::find_byte(buf0, 0x05u8).unwrap())),
                                ..st0
                            }));
                        }
                    }
                    bytes::drop_front(buffer, e + 1);
                },
                None => {
                    return ;
                },
            }
        } else {
            bytes::drop_front(buffer, 1);
        }
    }
}

/// One signature-framed message decode, as a spec: the frame runs from the
/// 3-byte signature to the first `0x03 0x04` trailer at or after its end.
/// Without that trailer nothing is consumed. On a match the message list is
/// replaced by the payload (one optional trailing `0x05` stripped), or
/// cleared outright when the payload is empty.
pub open spec fn signature_pass(buf: Seq<u8>, st: StateModel) -> (Seq<u8>, StateModel) {
    match bytes::find_seq(buf, signature()) {
        Some(si) => {
            let he = si + 3;
            match bytes::find_seq(buf.skip(he), trailer()) {
                Some(t0) => {
                    let t = he + t0;
                    let content = buf.subrange(he, t);
                    let payload = if content.len() > 0 && content[content.len() - 1] == 0x05u8 {
                        content.take(content.len() - 1)
                    } else {
                        content
                    };
                    let st2 = if payload.len() > 0 {
                        StateModel { messages: seq![payload], ..st }
                    } else {
                        StateModel { messages: Seq::empty(), ..st }
                    };
                    (buf.skip(t + 2), st2)
                },
                None => (buf, st),
            }
        },
        None => (buf, st),
    }
}

pub proof fn lemma_signature_pass_frame(buf: Seq<u8>, st: StateModel)
    ensures
        ({
            let out = signature_pass(buf, st).1;
            &&& out.results == st.results
            &&& out.races == st.races
            &&& out.event_name == st.event_name
            &&& out.event_number == st.event_number
            &&& out.gun_time == st.gun_time
        }),
{
}

/// Executable signature-framed decode, mirroring [`signature_pass`].
pub fn decode_signature(buffer: &mut Vec<u8>, state: &mut ScoreboardState)
    ensures
        (final(buffer)@, final(state)@) == signature_pass(old(buffer)@, old(state)@),
{
    let ghost buf0 = buffer@;
    let ghost st0 = state@;
    let blen = buffer.len();
    let sig = signature_bytes();
    let trl = trailer_bytes();
    let si = match bytes::scan_seq(buffer.as_slice(), sig.as_slice()) {
        Some(si) => si,
        None => {
            return ;
        },
    };
    proof {
        bytes::lemma_find_seq(buf0, signature());
    }
    let he = si + 3;
    let rest = vstd::slice::slice_subrange(buffer.as_slice(), he, blen);
    proof {
        assert(rest@ =~= buf0.skip(he as int));
    }
    let t = match bytes::scan_seq(rest, trl.as_slice()) {
        Some(t0) => {
            proof {
                bytes::lemma_find_seq(buf0.skip(he as int), trailer());
            }
            he + t0
        },
        None => {
            return ;
        },
    };
    state.messages = Vec::new();
    let content = vstd::slice::slice_subrange(buffer.as_slice(), he, t);
    let clen = content.len();
    let payload: &[u8] = if clen > 0 && content[clen - 1] == 0x05u8 {
        vstd::slice::slice_subrange(content, 0, clen - 1)
    } else {
        content
    };
    proof {
        let c = buf0.subrange(he as int, t as int);
        if c.len() > 0 && c[c.len() - 1] == 0x05u8 {
            assert(payload@ =~= c.take(c.len() - 1));
        } else {
            assert(payload@ =~= c);
        }
    }
    if payload.len() > 0 {
        let msg = vstd::slice::slice_to_vec(payload);
        state.messages.push(msg);
    }
    bytes::drop_front(buffer, t + 2);
    proof {
        let c = buf0.subrange(he as int, t as int);
        let p = if c.len() > 0 && c[c.len() - 1] == 0x05u8 {
            c.take(c.len() - 1)
        } else {
            c
        };
        if p.len() > 0 {
            assert(state@.messages =~~= seq![p]);
            assert(state@ =~~= (StateModel { messages: seq![p], ..st0 }));
        } else {
            assert(state@.messages =~~= Seq::<Seq<u8>>::empty());
            assert(state@ =~~= (StateModel { messages: Seq::empty(), ..st0 }));
        }
    }
}

} // verus!
