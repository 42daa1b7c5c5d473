use flate2::write::GzEncoder;
use flate2::Compression;
use std::io::Write;
use traffic_analyzer::keyed::Groups;
use traffic_analyzer::replay::{
    decompress_umami_replay, drawn_visits, escape_quotes, extract_hex_payload, gather_moves,
    mouse_moves, movement_row, parse_replay, strip_mark, EventData, ReplayEvent, ReplayRow,
};

fn packed(text: &str) -> String {
    let mut e = GzEncoder::new(Vec::new(), Compression::default());
    e.write_all(text.as_bytes()).unwrap();
    hex::encode(e.finish().unwrap())
}

#[test]
fn payloads_are_unpacked() {
    let text = "[{\"type\":3,\"data\":{}}] 한글";
    assert_eq!(decompress_umami_replay(&packed(text)).as_deref(), Some(text));
    assert_eq!(decompress_umami_replay(&packed(text).to_uppercase()).as_deref(), Some(text));
}

#[test]
fn payloads_that_are_no_hexadecimal_notation() {
    let good = packed("x");
    assert_eq!(decompress_umami_replay(&good[1..]), None);
    assert_eq!(decompress_umami_replay(&format!("{}zz", good)), None);
    assert_eq!(decompress_umami_replay("é"), None);
}

#[test]
fn payloads_that_are_not_compressed_text() {
    assert_eq!(decompress_umami_replay(""), None);
    assert_eq!(decompress_umami_replay("00ff"), None);
    let mut e = GzEncoder::new(Vec::new(), Compression::default());
    e.write_all(&[0xff, 0xfe]).unwrap();
    assert_eq!(decompress_umami_replay(&hex::encode(e.finish().unwrap())), None);
}

#[test]
fn rows_of_the_table_of_replays() {
    let row = parse_replay("r\tw\ts\tv\t0\t\\\\x1f8b\t9").unwrap();
    assert_eq!(
        (row.replay_id.as_str(), row.session_id.as_str(), row.visit_id.as_str()),
        ("r", "s", "v")
    );
    assert_eq!(row.payload, "1f8b");
    assert_eq!(parse_replay("r\tw\ts\tv\t0\t\\xab").unwrap().payload, "ab");
    assert!(parse_replay("r\tw\ts\tv\t0\t1f8b").is_none());
    assert!(parse_replay("r\tw\ts\tv\t\\xab").is_none());
    for start in ["--", "CREATE", "ALTER", "COPY"] {
        assert!(parse_replay(&format!("{}\tw\ts\tv\t0\t\\xab", start)).is_none());
    }
    assert_eq!(strip_mark("x"), None);
}

#[test]
fn payloads_are_found_in_lines() {
    assert_eq!(extract_hex_payload("a\t\\x1f8b00ff\t62").as_deref(), Some("1f8b00ff"));
    assert_eq!(extract_hex_payload("a\t\\x1f8b00ff").as_deref(), Some("1f8b00ff"));
    let long = format!("id 1f8b{} tail", "0".repeat(100));
    assert_eq!(extract_hex_payload(&long), Some(format!("1f8b{}", "0".repeat(100))));
    assert_eq!(extract_hex_payload("id 1f8b00 tail"), None);
    assert_eq!(extract_hex_payload("nothing"), None);
    let edge = format!("1f8b{}", "0".repeat(96));
    assert_eq!(extract_hex_payload(&edge), None);
    assert_eq!(extract_hex_payload(&format!("{}0", edge)), Some(format!("{}0", edge)));
    assert!(!extract_hex_payload(&long).unwrap().contains(' '));
}

#[test]
fn bytes_inside_a_word_begin_no_payload() {
    let tail = "0".repeat(200);
    assert_eq!(extract_hex_payload(&format!("ab1f8b{}", tail)), None);
    assert_eq!(extract_hex_payload(&format!("id\tab1f8b{}", tail)), None);
    for before in ["", " ", "id ", "id\t", "3a1f8b2c-id\t"] {
        let line = format!("{}1f8b{}\t62", before, tail);
        assert_eq!(extract_hex_payload(&line), Some(format!("1f8b{}", tail)));
    }
    let marked = format!("3a1f8b2c \\x1f8b{} 62", tail);
    assert_eq!(extract_hex_payload(&marked), Some(format!("1f8b{}", tail)));
}

fn event(event_type: i32, source: Option<i32>, positions: Option<Vec<u8>>) -> ReplayEvent<u8> {
    ReplayEvent { event_type, data: EventData { source, positions } }
}

#[test]
fn only_mouse_movements_are_taken() {
    let events = vec![
        event(3, Some(1), Some(vec![1, 2])),
        event(2, Some(1), Some(vec![9])),
        event(3, Some(2), Some(vec![9])),
        event(3, None, Some(vec![9])),
        event(3, Some(1), None),
        event(3, Some(1), Some(vec![3])),
    ];
    assert_eq!(mouse_moves(events), [1, 2, 3]);
}

#[test]
fn movements_are_gathered_by_visit() {
    let mut visits: Groups<u8> = Groups::new();
    gather_moves(&mut visits, "a", vec![1, 2, 3]);
    gather_moves(&mut visits, "b", vec![7]);
    gather_moves(&mut visits, "a", vec![4, 5]);
    gather_moves(&mut visits, "c", vec![]);
    assert_eq!(visits.len(), 2);
    assert_eq!(visits.list(0), &vec![1, 2, 3, 4, 5]);
    assert_eq!(visits.list(1), &vec![7]);
    assert_eq!(drawn_visits(&visits), [0]);
}

#[test]
fn rows_of_the_table_of_movements() {
    let row = ReplayRow {
        replay_id: "r".to_string(),
        session_id: "s".to_string(),
        visit_id: "v".to_string(),
        payload: String::new(),
    };
    assert_eq!(
        movement_row(&row, 12, "0.500000", "[{\"x\":1}]"),
        "r,s,v,12,0.500000,\"[{\"\"x\"\":1}]\""
    );
}

#[test]
fn quotes_are_doubled_and_can_be_halved_again() {
    for s in ["", "\"", "a\"b", "\"\"", "plain"] {
        let doubled = escape_quotes(s);
        assert_eq!(doubled, s.replace("\"", "\"\""));
        assert_eq!(doubled.replace("\"\"", "\""), s);
    }
}

#[test]
fn hexadecimal_notation_takes_two_characters_for_a_byte() {
    let text = "0123456789".repeat(50);
    let notation = packed(&text);
    assert_eq!(notation.len() % 2, 0);
    assert_eq!(decompress_umami_replay(&notation).unwrap(), text);
}

#[test]
fn the_case_of_the_digits_plays_no_part() {
    let text = "mixed \u{1f5b1}";
    let lower = packed(text);
    let mixed: String = lower
        .chars()
        .enumerate()
        .map(|(i, c)| if i % 3 == 0 { c.to_ascii_uppercase() } else { c })
        .collect();
    for notation in [lower.clone(), lower.to_uppercase(), mixed] {
        assert_eq!(decompress_umami_replay(&notation).as_deref(), Some(text));
    }
}

#[test]
fn damaged_notation_holds_nothing() {
    let good = packed("text");
    assert_eq!(decompress_umami_replay(&good[..good.len() - 1]), None);
    for i in [0, good.len() / 2, good.len() - 1] {
        let mut changed = good.clone();
        changed.replace_range(i..i + 1, "g");
        assert_eq!(decompress_umami_replay(&changed), None);
        let mut grown = good.clone();
        grown.insert(i, ' ');
        assert_eq!(decompress_umami_replay(&grown), None);
    }
}
