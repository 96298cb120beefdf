use elo_rater::elo::{update_ratings, Judgment};
use elo_rater::session::{Config, Session, StepOutcome, Token, parse_token};
use elo_rater::store::{Record, Store};
use rand::SeedableRng;

fn record(id: &str, rating: i64, games: u64) -> Record {
    Record { id: id.to_string(), rating, games }
}

#[test]
fn draw_between_equal_unplayed_images_changes_nothing() {
    let (r1, r2) = update_ratings(1_200_000, 0, 1_200_000, 0, Judgment::Draw, 40_000);
    assert_eq!(r1, 1_200_000);
    assert_eq!(r2, 1_200_000);
}

#[test]
fn left_win_between_equal_unplayed_images_moves_both() {
    let (r1, r2) = update_ratings(1_200_000, 0, 1_200_000, 0, Judgment::LeftWins, 40_000);
    assert!(r1 > 1_200_000);
    assert!(r2 < 1_200_000);
    assert_eq!(r1, 1_220_000);
    assert_eq!(r2, 1_180_000);
}

#[test]
fn left_win_after_five_games_applies_penalty() {
    // penalty = sqrt(5) Elo = 2.236 Elo; winner 1220, loser 1177.764
    let (r1, r2) = update_ratings(1_200_000, 5, 1_200_000, 5, Judgment::LeftWins, 40_000);
    assert_eq!(r1, 1_220_000);
    assert_eq!(r2, 1_177_764);
}

#[test]
fn judged_pair_increments_both_play_counts() {
    let store = Store {
        records: vec![record("A", 1_200_000, 5), record("B", 1_200_000, 5)],
    };
    let rng = rand::rngs::StdRng::seed_from_u64(7);
    let mut session = Session {
        store,
        config: Config { k: 40_000, min_score: 1_100_000 },
        rng,
        current: Some(("A".to_string(), "B".to_string())),
    };
    let outcome = session.submit(Token::Left);
    assert_eq!(outcome, StepOutcome::Updated);
    let store = session.finish();
    let a = store.get(&"A".to_string()).unwrap();
    let b = store.get(&"B".to_string()).unwrap();
    assert_eq!(a, (1_220_000, 6));
    assert_eq!(b, (1_177_764, 6));
}

#[test]
fn invalid_token_changes_nothing_and_reprompts() {
    let store = Store {
        records: vec![record("A", 1_200_000, 0), record("B", 1_200_000, 0)],
    };
    let rng = rand::rngs::StdRng::seed_from_u64(7);
    let mut session = Session {
        store,
        config: Config { k: 40_000, min_score: 1_100_000 },
        rng,
        current: Some(("A".to_string(), "B".to_string())),
    };
    let outcome = session.submit(Token::Invalid);
    assert_eq!(outcome, StepOutcome::Reprompt);
    assert!(session.current.is_some());
    let store = session.finish();
    assert_eq!(store.get(&"A".to_string()).unwrap(), (1_200_000, 0));
    assert_eq!(store.get(&"B".to_string()).unwrap(), (1_200_000, 0));
}

#[test]
fn quit_token_ends_the_session_without_rating() {
    let store = Store {
        records: vec![record("A", 1_200_000, 0), record("B", 1_200_000, 0)],
    };
    let rng = rand::rngs::StdRng::seed_from_u64(7);
    let mut session = Session {
        store,
        config: Config { k: 40_000, min_score: 1_100_000 },
        rng,
        current: Some(("A".to_string(), "B".to_string())),
    };
    let outcome = session.submit(Token::Quit);
    assert_eq!(outcome, StepOutcome::Finished);
    assert!(session.current.is_none());
    let store = session.finish();
    assert_eq!(store.get(&"A".to_string()).unwrap(), (1_200_000, 0));
}

#[test]
fn tokens_follow_the_prompt_legend() {
    assert_eq!(parse_token("l"), Token::Left);
    assert_eq!(parse_token("a"), Token::Left);
    assert_eq!(parse_token("r"), Token::Right);
    assert_eq!(parse_token("d"), Token::Draw);
    assert_eq!(parse_token("q"), Token::Quit);
    assert_eq!(parse_token("x"), Token::Invalid);
    assert_eq!(parse_token(""), Token::Invalid);
    assert_eq!(parse_token("ld"), Token::Invalid);
}

#[test]
fn default_config_matches_the_documented_defaults() {
    let c = Config::new_default();
    assert_eq!(c.k, 40_000);
    assert_eq!(c.min_score, 1_100_000);
}

#[test]
fn ratings_may_fall_below_the_cutoff_and_stay_stored() {
    let store = Store {
        records: vec![record("A", 1_101_000, 50), record("B", 1_101_000, 50)],
    };
    let rng = rand::rngs::StdRng::seed_from_u64(7);
    let mut session = Session {
        store,
        config: Config { k: 40_000, min_score: 1_100_000 },
        rng,
        current: Some(("A".to_string(), "B".to_string())),
    };
    session.submit(Token::Right);
    let store = session.finish();
    let a = store.get(&"A".to_string()).unwrap();
    // loser drops by K/2 plus the sqrt(50) penalty and is kept in the store
    assert!(a.0 < 1_100_000);
    assert_eq!(a.1, 51);
}
