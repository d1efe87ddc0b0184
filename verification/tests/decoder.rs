use lynx_bridge::parser::LynxParser;
use lynx_bridge::state::initialize_state;
use lynx_bridge::state::ScoreboardState;

fn fresh_state() -> ScoreboardState {
    initialize_state(Vec::new())
}

fn utf16le(text: &str) -> Vec<u8> {
    let mut out = Vec::new();
    for u in text.encode_utf16() {
        out.push((u & 0xff) as u8);
        out.push((u >> 8) as u8);
    }
    out
}

#[test]
fn csv_header_and_two_rows() {
    let mut state = fresh_state();
    let mut parser = LynxParser::new();
    let input = b"UNOFFICIAL,100m Final,,101,1,1;1,3,55,J. Doe,Club A,10.21;2,1,56,A. Roe,Club B,10.30;";
    let touched = parser.process_chunk(&mut state, input);
    assert!(touched);
    assert_eq!(state.event_number, b"101".to_vec());
    assert_eq!(state.event_name, b"100m Final".to_vec());
    assert_eq!(state.results.len(), 2);
    assert_eq!(state.results[0].lane, b"3".to_vec());
    assert_eq!(state.results[0].place, b"1".to_vec());
    assert_eq!(state.results[0].name, b"J. Doe".to_vec());
    assert_eq!(state.results[1].lane, b"1".to_vec());
    assert_eq!(state.results[1].place, b"2".to_vec());
    assert_eq!(state.results[1].time, b"10.30".to_vec());
    // the keyed history got the same two rows
    assert_eq!(state.races.len(), 1);
    assert_eq!(state.races[0].event_number, b"101".to_vec());
    assert_eq!(state.races[0].results.len(), 2);
}

#[test]
fn gun_start_sets_gun_time_only() {
    let mut state = fresh_state();
    let mut parser = LynxParser::new();
    let touched = parser.process_chunk(&mut state, b"*start10:00:00.0");
    assert!(!touched);
    assert_eq!(state.gun_time, b"10:00:00.0".to_vec());
    assert_eq!(state.time, b"".to_vec());
    assert!(!state.running);
    assert!(parser.buffer.is_empty());
}

#[test]
fn bare_clock_sets_running_time() {
    let mut state = fresh_state();
    let mut parser = LynxParser::new();
    parser.process_chunk(&mut state, b"  12:16:03.0  ");
    assert_eq!(state.time, b"12:16:03.0".to_vec());
    assert!(state.running);
    assert!(parser.buffer.is_empty());
}

#[test]
fn binary_time_packet() {
    let mut state = fresh_state();
    let mut parser = LynxParser::new();
    let input = [0x11u8, 0x02, b'1', b'2', b':', b'0', b'1', 0x03, 0x04];
    parser.process_chunk(&mut state, &input);
    assert_eq!(state.time, b"12:01".to_vec());
    assert!(state.running);
    assert!(parser.buffer.is_empty());
}

#[test]
fn binary_time_packet_trims_spaces() {
    let mut state = fresh_state();
    let mut parser = LynxParser::new();
    let input = [0x11u8, 0x02, b' ', b'1', b':', b'2', b' ', 0x03, 0x04];
    parser.process_chunk(&mut state, &input);
    assert_eq!(state.time, b"1:2".to_vec());
}

#[test]
fn binary_without_terminator_keeps_buffer() {
    let mut state = fresh_state();
    let mut parser = LynxParser::new();
    let chunk1 = [0x11u8, 0x30, 0x31];
    parser.process_chunk(&mut state, &chunk1);
    assert_eq!(parser.buffer, chunk1.to_vec());
    assert_eq!(state.time, b"".to_vec());
    assert!(!state.running);
    // a second delivery without a terminator still consumes nothing
    let chunk2 = [0x32u8, 0x33];
    parser.process_chunk(&mut state, &chunk2);
    assert_eq!(parser.buffer, vec![0x11, 0x30, 0x31, 0x32, 0x33]);
    assert!(!state.running);
    // the terminator completes the packet: 0x02 starts the clock text
    let chunk3 = [0x02u8, b'9', 0x03, 0x04];
    parser.process_chunk(&mut state, &chunk3);
    assert_eq!(state.time, b"9".to_vec());
    assert!(state.running);
    assert!(parser.buffer.is_empty());
}

#[test]
fn binary_message_group() {
    let mut state = fresh_state();
    let mut parser = LynxParser::new();
    let mut input = vec![0x16u8, 0x01];
    input.extend_from_slice(b"  hello  ");
    input.push(0x05);
    parser.process_chunk(&mut state, &input);
    // message text is kept verbatim, spacing included
    assert_eq!(state.messages, vec![b"  hello  ".to_vec()]);
}

#[test]
fn binary_message_header_clears_messages() {
    let mut state = fresh_state();
    state.messages.push(b"old".to_vec());
    let mut parser = LynxParser::new();
    let input = [0x15u8, 0x00, 0x01, 0x4d, 0x02];
    parser.process_chunk(&mut state, &input);
    assert!(state.messages.is_empty());
}

#[test]
fn signature_framed_message() {
    let mut state = fresh_state();
    state.messages.push(b"old".to_vec());
    let mut parser = LynxParser::new();
    let mut input = vec![0x01u8, 0x4d, 0x02];
    input.extend_from_slice(b"Lane 4 DQ");
    input.push(0x05);
    input.push(0x03);
    input.push(0x04);
    parser.process_chunk(&mut state, &input);
    assert_eq!(state.messages, vec![b"Lane 4 DQ".to_vec()]);
    assert!(parser.buffer.is_empty());
}

#[test]
fn signature_without_trailer_waits() {
    let mut state = fresh_state();
    let mut parser = LynxParser::new();
    let mut input = vec![0x01u8, 0x4d, 0x02];
    input.extend_from_slice(b"partial");
    parser.process_chunk(&mut state, &input);
    assert!(state.messages.is_empty());
    assert_eq!(parser.buffer, input);
}

#[test]
fn upsert_same_lane_twice_keeps_latest() {
    let mut state = fresh_state();
    let mut parser = LynxParser::new();
    parser.process_chunk(&mut state, b"UNOFFICIAL,Heat,,7,1,1;");
    parser.process_chunk(&mut state, b"1,4,55,J. Doe,Club A,10.21;");
    parser.process_chunk(&mut state, b"2,4,55,J. Doe,Club A,10.45;");
    assert_eq!(state.results.len(), 1);
    assert_eq!(state.results[0].place, b"2".to_vec());
    assert_eq!(state.results[0].time, b"10.45".to_vec());
    assert_eq!(state.races[0].results.len(), 1);
    assert_eq!(state.races[0].results[0].time, b"10.45".to_vec());
}

#[test]
fn upsert_empty_lane_always_appends() {
    let mut state = fresh_state();
    let mut parser = LynxParser::new();
    parser.process_chunk(&mut state, b"1,,55,J. Doe,Club A,10.21;");
    parser.process_chunk(&mut state, b"1,,55,J. Doe,Club A,10.21;");
    assert_eq!(state.results.len(), 2);
}

#[test]
fn header_clears_live_results() {
    let mut state = fresh_state();
    let mut parser = LynxParser::new();
    parser.process_chunk(&mut state, b"1,4,55,J. Doe,Club A,10.21;");
    assert_eq!(state.results.len(), 1);
    parser.process_chunk(&mut state, b"OFFICIAL,200m,,9,1,1;");
    assert!(state.results.is_empty());
    assert_eq!(state.event_number, b"9".to_vec());
}

#[test]
fn layout_draw_clears_live_results() {
    let mut state = fresh_state();
    let mut parser = LynxParser::new();
    parser.process_chunk(&mut state, b"1,4,55,J. Doe,Club A,10.21;");
    assert_eq!(state.results.len(), 1);
    parser.process_chunk(&mut state, b"Command=LayoutDraw,1,2;");
    assert!(state.results.is_empty());
}

#[test]
fn utf16_frame_decodes_like_ascii() {
    let mut state = fresh_state();
    let mut parser = LynxParser::new();
    let frame = utf16le("UNOFFICIAL,100m Final,,101,1,1;1,3,55,J. Doe,Club A,10.21;");
    parser.process_chunk(&mut state, &frame);
    assert_eq!(state.event_number, b"101".to_vec());
    assert_eq!(state.results.len(), 1);
    assert_eq!(state.results[0].lane, b"3".to_vec());
    assert!(parser.buffer.is_empty());
}

#[test]
fn utf16_frame_split_any_offset() {
    let frame = utf16le("UNOFFICIAL,100m Final,,101,1,1;1,3,55,J. Doe,Club A,10.21;2,1,56,A. Roe,Club B,10.30;");
    // the whole frame in one delivery
    let mut whole_state = fresh_state();
    let mut whole_parser = LynxParser::new();
    whole_parser.process_chunk(&mut whole_state, &frame);
    for cut in 0..=frame.len() {
        let mut state = fresh_state();
        let mut parser = LynxParser::new();
        parser.process_chunk(&mut state, &frame[..cut]);
        parser.process_chunk(&mut state, &frame[cut..]);
        assert_eq!(state.results.len(), whole_state.results.len(), "cut {}", cut);
        for (a, b) in state.results.iter().zip(whole_state.results.iter()) {
            assert_eq!(a.place, b.place);
            assert_eq!(a.lane, b.lane);
            assert_eq!(a.name, b.name);
            assert_eq!(a.time, b.time);
        }
        assert_eq!(state.event_number, whole_state.event_number, "cut {}", cut);
        assert_eq!(state.event_name, whole_state.event_name, "cut {}", cut);
        assert_eq!(state.races.len(), whole_state.races.len(), "cut {}", cut);
        assert!(parser.buffer.is_empty(), "cut {}", cut);
    }
}

#[test]
fn unclassifiable_buffer_over_ceiling_is_dropped() {
    let mut state = fresh_state();
    let mut parser = LynxParser::new();
    let junk = vec![b'x'; 101];
    parser.process_chunk(&mut state, &junk);
    assert!(parser.buffer.is_empty());
    // below the ceiling the bytes stay buffered
    let mut parser2 = LynxParser::new();
    let junk2 = vec![b'x'; 50];
    parser2.process_chunk(&mut state, &junk2);
    assert_eq!(parser2.buffer.len(), 50);
}

#[test]
fn noise_row_without_place_lane_or_id_is_ignored() {
    let mut state = fresh_state();
    let mut parser = LynxParser::new();
    parser.process_chunk(&mut state, b"abc,,,x,y,z;");
    assert!(state.results.is_empty());
}

#[test]
fn row_accepted_by_place_number_alone() {
    let mut state = fresh_state();
    let mut parser = LynxParser::new();
    parser.process_chunk(&mut state, b"3,,,J. Doe;");
    assert_eq!(state.results.len(), 1);
    assert_eq!(state.results[0].place, b"3".to_vec());
    assert_eq!(state.results[0].lane, b"".to_vec());
}

#[test]
fn incomplete_csv_record_stays_buffered() {
    let mut state = fresh_state();
    let mut parser = LynxParser::new();
    parser.process_chunk(&mut state, b"1,3,55,J. D");
    assert!(state.results.is_empty());
    assert_eq!(parser.buffer, b"1,3,55,J. D".to_vec());
    parser.process_chunk(&mut state, b"oe,Club A,10.21;");
    assert_eq!(state.results.len(), 1);
    assert_eq!(state.results[0].name, b"J. Doe".to_vec());
    assert!(parser.buffer.is_empty());
}

#[test]
fn gun_time_amends_existing_race() {
    let mut state = fresh_state();
    let mut parser = LynxParser::new();
    parser.process_chunk(&mut state, b"UNOFFICIAL,Final,,5,1,1;1,2,9,A,Club,11.0;");
    assert_eq!(state.races.len(), 1);
    let touched = parser.process_chunk(&mut state, b"*start09:30:00.0");
    assert!(touched);
    assert_eq!(state.gun_time, b"09:30:00.0".to_vec());
    assert_eq!(state.races[0].gun_time, b"09:30:00.0".to_vec());
}

#[test]
fn utf16_odd_buffer_without_terminator_stays() {
    let mut state = fresh_state();
    let mut parser = LynxParser::new();
    let mut frame = utf16le("1,3,55,J");
    frame.pop();
    parser.process_chunk(&mut state, &frame);
    assert!(state.results.is_empty());
    assert_eq!(parser.buffer, frame);
}

#[test]
fn binary_group_wins_over_csv_content() {
    let mut state = fresh_state();
    let mut parser = LynxParser::new();
    // a leading group code sends the whole buffer to the binary decoder,
    // even though the payload holds CSV delimiters
    let mut input = vec![0x11u8, 0x02];
    input.extend_from_slice(b"a;b,c");
    input.push(0x03);
    input.push(0x04);
    parser.process_chunk(&mut state, &input);
    assert_eq!(state.time, b"a;b,c".to_vec());
    assert!(state.results.is_empty());
}

#[test]
fn signature_frame_drains_preceding_junk() {
    let mut state = fresh_state();
    let mut parser = LynxParser::new();
    let mut input = b"junk".to_vec();
    input.extend_from_slice(&[0x01, 0x4d, 0x02]);
    input.extend_from_slice(b"msg");
    input.extend_from_slice(&[0x03, 0x04]);
    parser.process_chunk(&mut state, &input);
    assert_eq!(state.messages, vec![b"msg".to_vec()]);
    assert!(parser.buffer.is_empty());
}

#[test]
fn message_batch_header_then_messages() {
    let mut state = fresh_state();
    state.messages.push(b"stale".to_vec());
    let mut parser = LynxParser::new();
    // header group with its 0x02 terminator clears, then two message groups
    let mut input = vec![0x15u8, 0x00, 0x02];
    input.push(0x16);
    input.push(0x01);
    input.extend_from_slice(b"one");
    input.push(0x05);
    input.push(0x16);
    input.push(0x01);
    input.extend_from_slice(b"two");
    input.push(0x05);
    parser.process_chunk(&mut state, &input);
    assert_eq!(state.messages, vec![b"one".to_vec(), b"two".to_vec()]);
}

#[test]
fn unknown_group_codes_are_skipped() {
    let mut state = fresh_state();
    let mut parser = LynxParser::new();
    // 0x10 is in the binary range but unhandled: skipped byte by byte until
    // the recognizable time group decodes
    let input = [0x10u8, 0x12, 0x11, 0x02, b'7', 0x03, 0x04];
    parser.process_chunk(&mut state, &input);
    assert_eq!(state.time, b"7".to_vec());
    assert!(parser.buffer.is_empty());
}

#[test]
fn officials_row_is_not_a_header() {
    let mut state = fresh_state();
    let mut parser = LynxParser::new();
    parser.process_chunk(&mut state, b"OFFICIAL,100m Final,,101,1,1;");
    assert_eq!(state.event_number, b"101".to_vec());
    // a first field that merely starts with the keyword is a result row
    parser.process_chunk(&mut state, b"OFFICIALS,1,1,1;");
    assert_eq!(state.event_number, b"101".to_vec());
    assert_eq!(state.results.len(), 1);
    assert_eq!(state.results[0].place, b"OFFICIALS".to_vec());
    assert_eq!(state.results[0].lane, b"1".to_vec());
}

#[test]
fn layout_draw_clears_rows_of_the_same_pass() {
    let mut state = fresh_state();
    let mut parser = LynxParser::new();
    // the redraw record clears at its own position: the row accepted just
    // before it in the same pass does not survive
    parser.process_chunk(&mut state, b"1,1,1,1;Command=LayoutDraw;");
    assert!(state.results.is_empty());
    // but rows after the redraw record do
    let mut state2 = fresh_state();
    let mut parser2 = LynxParser::new();
    parser2.process_chunk(&mut state2, b"Command=LayoutDraw;1,1,1,1;");
    assert_eq!(state2.results.len(), 1);
}

#[test]
fn signature_frame_with_trailer_in_junk_decodes() {
    let mut state = fresh_state();
    let mut parser = LynxParser::new();
    // stray trailer bytes before the signature do not block the frame
    let input = [0x03u8, 0x04, 0x01, 0x4d, 0x02, b'm', 0x03, 0x04];
    parser.process_chunk(&mut state, &input);
    assert_eq!(state.messages, vec![b"m".to_vec()]);
    assert!(parser.buffer.is_empty());
}
