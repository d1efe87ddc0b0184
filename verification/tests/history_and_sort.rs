use lynx_bridge::history::encode_history;
use lynx_bridge::history::load_races;
use lynx_bridge::state::sort_results;
use lynx_bridge::state::AthleteResult;
use lynx_bridge::state::RaceData;

fn row(place: &str, lane: &str, name: &str, time: &str) -> AthleteResult {
    AthleteResult {
        place: place.as_bytes().to_vec(),
        lane: lane.as_bytes().to_vec(),
        id: Vec::new(),
        name: name.as_bytes().to_vec(),
        affiliation: Vec::new(),
        time: time.as_bytes().to_vec(),
        delta_time: Vec::new(),
    }
}

#[test]
fn history_round_trip_is_lossless() {
    let races = vec![
        RaceData {
            event_name: b"100m Final".to_vec(),
            event_number: b"101".to_vec(),
            gun_time: b"10:00:00.0".to_vec(),
            results: vec![row("1", "3", "J. Doe", "10.21"), row("2", "1", "A. Roe", "10.30")],
        },
        RaceData {
            event_name: b"200m Heat 1, juniors; with \"odd\" text\nand a newline".to_vec(),
            event_number: b"102".to_vec(),
            gun_time: Vec::new(),
            results: vec![row("", "", "no place or lane", "")],
        },
    ];
    let bytes = encode_history(&races);
    let back = load_races(&bytes);
    assert_eq!(back.len(), 2);
    assert_eq!(back[0].event_name, races[0].event_name);
    assert_eq!(back[0].event_number, races[0].event_number);
    assert_eq!(back[0].gun_time, races[0].gun_time);
    assert_eq!(back[0].results.len(), 2);
    assert_eq!(back[0].results[0].place, b"1".to_vec());
    assert_eq!(back[0].results[0].lane, b"3".to_vec());
    assert_eq!(back[0].results[0].name, b"J. Doe".to_vec());
    assert_eq!(back[0].results[1].time, b"10.30".to_vec());
    assert_eq!(back[1].event_name, races[1].event_name);
    assert_eq!(back[1].results.len(), 1);
    assert_eq!(back[1].results[0].name, b"no place or lane".to_vec());
}

#[test]
fn empty_history_round_trips() {
    let races: Vec<RaceData> = Vec::new();
    let bytes = encode_history(&races);
    let back = load_races(&bytes);
    assert!(back.is_empty());
}

#[test]
fn malformed_history_reads_as_empty() {
    assert!(load_races(b"").is_empty());
    assert!(load_races(b"not a history").is_empty());
    assert!(load_races(b"2\n5 abc").is_empty());
    // truncated document: one race promised, none present
    assert!(load_races(b"1\n").is_empty());
}

#[test]
fn history_with_duplicate_keys_reads_as_empty() {
    let races = vec![
        RaceData {
            event_name: b"A".to_vec(),
            event_number: b"7".to_vec(),
            gun_time: Vec::new(),
            results: Vec::new(),
        },
        RaceData {
            event_name: b"B".to_vec(),
            event_number: b"7".to_vec(),
            gun_time: Vec::new(),
            results: Vec::new(),
        },
    ];
    let bytes = encode_history(&races);
    assert!(load_races(&bytes).is_empty());
}

#[test]
fn sort_orders_by_place_then_lane() {
    let mut results = vec![
        row("", "5", "lane five, no place", ""),
        row("2", "1", "second", "10.30"),
        row("", "2", "lane two, no place", ""),
        row("1", "3", "first", "10.21"),
        row("2", "0", "second tie, lane zero", "10.30"),
    ];
    sort_results(&mut results);
    assert_eq!(results[0].name, b"first".to_vec());
    assert_eq!(results[1].name, b"second tie, lane zero".to_vec());
    assert_eq!(results[2].name, b"second".to_vec());
    // place-less rows come after placed ones, ordered by lane
    assert_eq!(results[3].name, b"lane two, no place".to_vec());
    assert_eq!(results[4].name, b"lane five, no place".to_vec());
}

#[test]
fn sort_unreadable_lane_ranks_as_999() {
    let mut results = vec![
        row("", "abc", "lane unreadable", ""),
        row("", "998", "lane 998", ""),
        row("", "1000", "lane 1000", ""),
    ];
    sort_results(&mut results);
    assert_eq!(results[0].name, b"lane 998".to_vec());
    assert_eq!(results[1].name, b"lane unreadable".to_vec());
    assert_eq!(results[2].name, b"lane 1000".to_vec());
}

#[test]
fn sort_is_stable_and_idempotent() {
    // equal place and lane ranks: original order must be kept
    let mut results = vec![
        row("2", "9", "first of the tie", "10.30"),
        row("1", "5", "winner", "10.21"),
        row("2", "9", "second of the tie", "10.30"),
    ];
    sort_results(&mut results);
    assert_eq!(results[0].name, b"winner".to_vec());
    assert_eq!(results[1].name, b"first of the tie".to_vec());
    assert_eq!(results[2].name, b"second of the tie".to_vec());
    // sorting again changes nothing
    let snapshot: Vec<Vec<u8>> = results.iter().map(|r| r.name.clone()).collect();
    sort_results(&mut results);
    let again: Vec<Vec<u8>> = results.iter().map(|r| r.name.clone()).collect();
    assert_eq!(snapshot, again);
}
