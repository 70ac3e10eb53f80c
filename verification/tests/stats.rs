use std::cmp::Ordering;
use wordle::game::Game;
use wordle::stats::{stat_cmp, Stats};

fn finished(secret: &str, guesses: &[&str]) -> Game {
    let mut game = Game::new();
    game.set_answer(secret.to_string());
    for g in guesses {
        game.guess(g.to_string());
    }
    game
}

#[test]
fn win_loss_average() {
    // One round won in three guesses, one round lost.
    let mut stats = Stats::new();
    stats.store_game(finished("ABCDE", &["AAAAA", "BBBBB", "ABCDE"]));
    stats.store_game(finished(
        "CRANE",
        &["AAAAA", "BBBBB", "CCCCC", "DDDDD", "EEEEE", "FFFFF"],
    ));
    let (wins, losses, win_guesses) = stats.feed_stats();
    assert_eq!(wins, 1);
    assert_eq!(losses, 1);
    assert_eq!(win_guesses, 3);
    let avg = win_guesses as f64 / wins as f64;
    assert_eq!(avg, 3.0);
}

#[test]
fn no_wins_has_zero_guess_sum() {
    let mut stats = Stats::new();
    stats.store_game(finished(
        "CRANE",
        &["AAAAA", "BBBBB", "CCCCC", "DDDDD", "EEEEE", "FFFFF"],
    ));
    let (wins, losses, win_guesses) = stats.feed_stats();
    assert_eq!(wins, 0);
    assert_eq!(losses, 1);
    assert_eq!(win_guesses, 0);
}

#[test]
fn empty_stats() {
    let stats = Stats::new();
    let (wins, losses, win_guesses) = stats.feed_stats();
    assert_eq!((wins, losses, win_guesses), (0, 0, 0));
    assert!(stats.feed_words().is_empty());
}

#[test]
fn most_used_words_counts_every_guess() {
    let mut stats = Stats::new();
    stats.store_game(finished("ABCDE", &["AAAAA", "BBBBB", "ABCDE"]));
    stats.store_game(finished(
        "CRANE",
        &["AAAAA", "AAAAA", "AAAAA", "AAAAA", "AAAAA", "AAAAA"],
    ));
    let top = stats.feed_words();
    // AAAAA was used seven times; the two single-use words tie and the
    // lexicographically larger one comes first.
    assert_eq!(
        top,
        vec![
            ("AAAAA".to_string(), 7),
            ("BBBBB".to_string(), 1),
            ("ABCDE".to_string(), 1),
        ]
    );
}

#[test]
fn most_used_words_keeps_top_five() {
    let mut stats = Stats::new();
    stats.store_game(finished(
        "ABCDE",
        &["AAAAA", "AAAAA", "BBBBB", "BBBBB", "CCCCC", "DDDDD"],
    ));
    stats.store_game(finished(
        "CRANE",
        &["EEEEE", "FFFFF", "GGGGG", "GGGGG", "GGGGG", "HHHHH"],
    ));
    let top = stats.feed_words();
    assert_eq!(top.len(), 5);
    assert_eq!(top[0], ("GGGGG".to_string(), 3));
    assert_eq!(top[1], ("BBBBB".to_string(), 2));
    assert_eq!(top[2], ("AAAAA".to_string(), 2));
    // The single-use words tie; the largest words stay.
    assert_eq!(top[3], ("HHHHH".to_string(), 1));
    assert_eq!(top[4], ("FFFFF".to_string(), 1));
}

#[test]
fn comparator_orders_by_count_then_word() {
    assert_eq!(stat_cmp(&"AAAAA".to_string(), 2, &"ZZZZZ".to_string(), 1), Ordering::Greater);
    assert_eq!(stat_cmp(&"AAAAA".to_string(), 1, &"ZZZZZ".to_string(), 2), Ordering::Less);
    // Equal counts: the lexicographically larger word is listed first.
    assert_eq!(stat_cmp(&"ZZZZZ".to_string(), 1, &"AAAAA".to_string(), 1), Ordering::Greater);
    assert_eq!(stat_cmp(&"AAAAA".to_string(), 1, &"ZZZZZ".to_string(), 1), Ordering::Less);
    assert_eq!(stat_cmp(&"AAAAA".to_string(), 1, &"AAAAA".to_string(), 1), Ordering::Equal);
}

#[test]
fn total_rounds_counts_archived_games() {
    let mut stats = Stats::new();
    assert_eq!(stats.total_rounds, 0);
    stats.store_game(finished("ABCDE", &["ABCDE"]));
    stats.store_game(finished("ABCDE", &["ABCDE"]));
    assert_eq!(stats.total_rounds, 2);
    assert_eq!(stats.games.len(), 2);
}
