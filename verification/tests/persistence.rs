use elo_rater::codec::{
    encode_store, first_unwritable_id, parse_decimal_milli, parse_store, rating_to_string,
};
use elo_rater::store::{build_store, Record, Store};

fn record(id: &str, rating: i64, games: u64) -> Record {
    Record { id: id.to_string(), rating, games }
}

#[test]
fn merge_keeps_persisted_values_and_adds_discovered_defaults() {
    let persisted = vec![record("a.jpg", 1_234_500, 7), record("b.jpg", 900_000, 3)];
    let discovered = vec!["a.jpg".to_string(), "b.jpg".to_string(), "c.jpg".to_string()];
    let store = build_store(&persisted, &discovered).unwrap();
    assert_eq!(store.get(&"a.jpg".to_string()).unwrap(), (1_234_500, 7));
    assert_eq!(store.get(&"b.jpg".to_string()).unwrap(), (900_000, 3));
    assert_eq!(store.get(&"c.jpg".to_string()).unwrap(), (1_200_000, 0));
    assert_eq!(store.len(), 3);
}

#[test]
fn merge_fails_fast_on_a_missing_image() {
    let persisted = vec![record("a.jpg", 1_234_500, 7), record("gone.jpg", 1_000_000, 1)];
    let discovered = vec!["a.jpg".to_string()];
    let r = build_store(&persisted, &discovered);
    assert_eq!(r.err().unwrap(), "gone.jpg");
}

#[test]
fn merge_never_overwrites_a_persisted_record_with_the_default() {
    let persisted = vec![record("a.jpg", 1_500_250, 12)];
    let discovered = vec!["a.jpg".to_string()];
    let store = build_store(&persisted, &discovered).unwrap();
    assert_eq!(store.get(&"a.jpg".to_string()).unwrap(), (1_500_250, 12));
    assert_eq!(store.len(), 1);
}

#[test]
fn encode_writes_header_and_decimal_ratings() {
    let store = Store {
        records: vec![record("a.jpg", 1_177_764, 6), record("b.jpg", 1_200_000, 0)],
    };
    let text = encode_store(&store).unwrap();
    assert_eq!(text, "Path,Rating,Games\na.jpg,1177.764,6\nb.jpg,1200,0\n");
}

#[test]
fn encode_refuses_an_identifier_with_a_separator() {
    let store = Store { records: vec![record("a,b.jpg", 1_200_000, 0)] };
    let r = encode_store(&store);
    assert_eq!(r.err().unwrap(), "a,b.jpg");
}

#[test]
fn written_table_reads_back_unchanged() {
    let store = Store {
        records: vec![
            record("a.jpg", 1_177_764, 6),
            record("b.jpg", 1_200_000, 0),
            record("deep/dir/c.jpg", -5_500, 123),
            record("d.jpg", 40_000_000, 9999),
        ],
    };
    let text = encode_store(&store).unwrap();
    let back = parse_store(&text).unwrap();
    assert_eq!(back.len(), store.records.len());
    for (orig, readback) in store.records.iter().zip(back.iter()) {
        assert_eq!(orig.id, readback.id);
        assert_eq!(orig.rating, readback.rating);
        assert_eq!(orig.games, readback.games);
    }
}

#[test]
fn parser_reads_plain_and_fractional_ratings() {
    let text = "Path,Rating,Games\nA,1200,0\nB,-5.5,3\nC,0.25,1\n";
    let recs = parse_store(text).unwrap();
    assert_eq!(recs[0].rating, 1_200_000);
    assert_eq!(recs[0].games, 0);
    assert_eq!(recs[1].rating, -5_500);
    assert_eq!(recs[1].games, 3);
    assert_eq!(recs[2].rating, 250);
}

#[test]
fn parser_rejects_malformed_tables() {
    assert!(parse_store("").is_none());
    assert!(parse_store("Rating,Path,Games\n").is_none());
    assert!(parse_store("Path,Rating,Games\nA,notanumber,0\n").is_none());
    assert!(parse_store("Path,Rating,Games\nA,1200\n").is_none());
    assert!(parse_store("Path,Rating,Games\nA,1200,0").is_none());
    assert!(parse_store("Path,Rating,Games\nA,1200,0.5\n").is_none());
}

#[test]
fn empty_table_round_trips_through_the_format() {
    let store = Store { records: vec![] };
    let text = encode_store(&store).unwrap();
    assert_eq!(text, "Path,Rating,Games\n");
    let back = parse_store(&text).unwrap();
    assert!(back.is_empty());
}

#[test]
fn parser_truncates_fractional_digits_beyond_thousandths() {
    let text = "Path,Rating,Games\nA,1177.76412,6\nB,0.9999,0\n";
    let recs = parse_store(text).unwrap();
    assert_eq!(recs[0].rating, 1_177_764);
    assert_eq!(recs[1].rating, 999);
}

#[test]
fn config_values_accept_long_fractions() {
    assert_eq!(parse_decimal_milli("40"), Some(40_000));
    assert_eq!(parse_decimal_milli("40.5"), Some(40_500));
    assert_eq!(parse_decimal_milli("40.12345"), Some(40_123));
    assert_eq!(parse_decimal_milli("-0.25"), Some(-250));
    assert_eq!(parse_decimal_milli("forty"), None);
    assert_eq!(parse_decimal_milli("1."), None);
}

#[test]
fn unwritable_identifier_is_reported_up_front() {
    let store = Store {
        records: vec![record("ok.jpg", 1_200_000, 0), record("a,b.jpg", 1_200_000, 0)],
    };
    assert_eq!(first_unwritable_id(&store).unwrap(), "a,b.jpg");
    let clean = Store { records: vec![record("ok.jpg", 1_200_000, 0)] };
    assert!(first_unwritable_id(&clean).is_none());
}

#[test]
fn ratings_render_as_the_persisted_decimal_text() {
    assert_eq!(rating_to_string(1_177_764), "1177.764");
    assert_eq!(rating_to_string(1_200_000), "1200");
    assert_eq!(rating_to_string(-5_500), "-5.500");
    assert_eq!(rating_to_string(250), "0.250");
}
