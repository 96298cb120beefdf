use elo_rater::selector::{eligible_pool, select_pair, sort_by_games, viable_records, SelectError};
use elo_rater::session::{Config, Session, Token};
use elo_rater::store::{Record, Store};
use rand::SeedableRng;

fn record(id: &str, rating: i64, games: u64) -> Record {
    Record { id: id.to_string(), rating, games }
}

#[test]
fn viable_subset_excludes_images_below_the_cutoff() {
    let store = Store {
        records: vec![
            record("A", 1_200_000, 0),
            record("B", 1_200_000, 0),
            record("C", 1_050_000, 0),
        ],
    };
    let viable = viable_records(&store, 1_100_000);
    let ids: Vec<&str> = viable.iter().map(|r| r.id.as_str()).collect();
    assert_eq!(ids, vec!["A", "B"]);
}

#[test]
fn below_cutoff_image_is_never_selected() {
    let store = Store {
        records: vec![
            record("A", 1_200_000, 0),
            record("B", 1_200_000, 0),
            record("C", 1_050_000, 0),
        ],
    };
    let config = Config { k: 40_000, min_score: 1_100_000 };
    let rng = rand::rngs::StdRng::seed_from_u64(42);
    let mut session = Session::new(store, config, rng);
    for _ in 0..50 {
        match session.next_pair() {
            Ok(pair) => {
                assert_ne!(pair.0, "C");
                assert_ne!(pair.1, "C");
                assert_ne!(pair.0, pair.1);
                session.submit(Token::Draw);
            }
            Err(SelectError::NotEnoughEligible { count }) => {
                assert!(count < 2);
            }
            Err(e) => panic!("unexpected selection failure: {:?}", e),
        }
    }
}

#[test]
fn too_few_viable_images_is_reported_with_the_count() {
    let store = Store { records: vec![record("A", 1_200_000, 0)] };
    let mut rng = rand::rngs::StdRng::seed_from_u64(3);
    let r = select_pair(&store, 1_100_000, &mut rng);
    assert_eq!(r, Err(SelectError::NotEnoughViable { count: 1 }));
}

#[test]
fn sorting_orders_by_ascending_play_count() {
    let v = vec![record("A", 1_200_000, 9), record("B", 1_200_000, 2), record("C", 1_200_000, 5)];
    let sorted = sort_by_games(v);
    let games: Vec<u64> = sorted.iter().map(|r| r.games).collect();
    assert_eq!(games, vec![2, 5, 9]);
}

#[test]
fn pool_admits_underplayed_records_and_caps_at_the_threshold() {
    // threshold is the play count at index 3/3 = 1 of the ascending order
    let sorted = vec![
        record("A", 1_200_000, 1),
        record("B", 1_200_000, 4),
        record("C", 1_200_000, 9),
    ];
    let draws = vec![0, 0, 0];
    let pool = eligible_pool(&sorted, 4, &draws);
    let ids: Vec<&str> = pool.iter().map(|r| r.id.as_str()).collect();
    assert_eq!(ids, vec!["A", "B"]);
}

#[test]
fn tied_records_enter_with_decreasing_chances() {
    // all records tie at the threshold; a draw below the running chance
    // admits the record and lowers the chance by one tenth
    let sorted: Vec<Record> =
        (0..12).map(|i| record(&format!("img{}", i), 1_200_000, 3)).collect();
    let draws_low = vec![0u64; 12];
    let pool = eligible_pool(&sorted, 3, &draws_low);
    // the chance runs 10, 9, ..., 1 and then sticks at zero
    assert_eq!(pool.len(), 10);

    let draws_high = vec![9u64; 12];
    let pool2 = eligible_pool(&sorted, 3, &draws_high);
    // only the first record sees a chance above nine tenths
    assert_eq!(pool2.len(), 1);
    assert_eq!(pool2[0].id, "img0");
}

#[test]
fn pool_is_deterministic_for_fixed_draws() {
    let sorted = vec![
        record("A", 1_200_000, 2),
        record("B", 1_200_000, 2),
        record("C", 1_200_000, 2),
    ];
    let draws = vec![5, 8, 1];
    let p1 = eligible_pool(&sorted, 2, &draws);
    let p2 = eligible_pool(&sorted, 2, &draws);
    let ids1: Vec<&str> = p1.iter().map(|r| r.id.as_str()).collect();
    let ids2: Vec<&str> = p2.iter().map(|r| r.id.as_str()).collect();
    assert_eq!(ids1, ids2);
}

#[test]
fn long_runs_keep_play_counts_balanced() {
    let store = Store {
        records: vec![
            record("A", 1_200_000, 0),
            record("B", 1_200_000, 0),
            record("C", 1_200_000, 0),
            record("D", 1_200_000, 0),
            record("E", 1_200_000, 0),
        ],
    };
    // the draw penalty pulls every rating down over time, so a very low
    // cutoff keeps the whole field viable for the balance measurement
    let config = Config { k: 40_000, min_score: -1_000_000_000_000 };
    let rng = rand::rngs::StdRng::seed_from_u64(11);
    let mut session = Session::new(store, config, rng);
    let mut rounds = 0;
    while rounds < 200 {
        match session.next_pair() {
            Ok(_) => {
                session.submit(Token::Draw);
                rounds += 1;
            }
            Err(SelectError::NotEnoughEligible { .. }) => {
                // a thin pool this round; selection may be retried
                rounds += 1;
            }
            Err(e) => panic!("unexpected selection failure: {:?}", e),
        }
    }
    let store = session.finish();
    let mut lo = u64::MAX;
    let mut hi = 0u64;
    for rec in store.records.iter() {
        lo = lo.min(rec.games);
        hi = hi.max(rec.games);
    }
    assert!(hi - lo <= 10, "play counts drifted apart: {} .. {}", lo, hi);
}
