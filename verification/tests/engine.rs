use wordle::game::Game;

fn played(secret: &str, guesses: &[&str]) -> Game {
    let mut game = Game::new();
    game.set_answer(secret.to_string());
    for g in guesses {
        game.guess(g.to_string());
    }
    game
}

#[test]
fn score_duplicate_budget() {
    // Secret ABCDE, guess AABBB: the second A has no budget left and the
    // single B budget goes to the first non-matching B.
    let mut game = Game::new();
    game.set_answer("ABCDE".to_string());
    let won = game.guess("AABBB".to_string());
    assert!(!won);
    let (col_pos, _) = game.show_col();
    assert_eq!(col_pos.clone(), vec![3, 1, 2, 1, 1]);
}

#[test]
fn score_two_pass_double_letter() {
    // Secret SPEED, guess ERASE: the two Es of the secret feed the first
    // two non-matching Es of the guess.
    let game = played("SPEED", &["ERASE"]);
    let (col_pos, _) = game.show_col();
    assert_eq!(col_pos.clone(), vec![2, 1, 1, 2, 2]);
}

#[test]
fn score_green_iff_match() {
    let game = played("ABCDE", &["ABCDE"]);
    let (col_pos, _) = game.show_col();
    assert_eq!(col_pos.clone(), vec![3, 3, 3, 3, 3]);
    assert!(game.won());
}

#[test]
fn letter_status_best_seen() {
    let game = played("ABCDE", &["AABBB"]);
    let (_, col_alpha) = game.show_col();
    assert_eq!(col_alpha[0], 3); // A matched at position 0
    assert_eq!(col_alpha[1], 2); // B present elsewhere
    assert_eq!(col_alpha[2], 0); // C never guessed
}

#[test]
fn letter_status_never_downgrades() {
    // A is Green after the first guess and stays Green after a guess
    // where A is absent from the scored positions' best.
    let game = played("ABCDE", &["AABBB", "BBBBB"]);
    let (_, col_alpha) = game.show_col();
    assert_eq!(col_alpha[0], 3);
    assert_eq!(col_alpha[1], 3); // B matched at position 1 in second guess
}

#[test]
fn feedback_is_pure_per_call() {
    // Scoring the same guess twice gives the same position colors.
    let mut game = Game::new();
    game.set_answer("ABCDE".to_string());
    game.guess("AABBB".to_string());
    let first = game.show_col().0.clone();
    game.guess("AABBB".to_string());
    let second = game.show_col().0.clone();
    assert_eq!(first, second);
}

#[test]
fn won_and_ended() {
    let mut game = Game::new();
    game.set_answer("ABCDE".to_string());
    assert!(!game.won());
    assert!(!game.ended());
    assert_eq!(game.rounds(), 0);
    game.guess("AAAAA".to_string());
    assert!(!game.ended());
    assert_eq!(game.rounds(), 1);
    let won = game.guess("ABCDE".to_string());
    assert!(won);
    assert!(game.won());
    assert!(game.ended());
}

#[test]
fn ends_after_six_guesses() {
    let game = played(
        "ABCDE",
        &["AAAAA", "BBBBB", "CCCCC", "DDDDD", "EEEEE", "FFFFF"],
    );
    assert!(!game.won());
    assert!(game.ended());
    assert_eq!(game.rounds(), 6);
}

#[test]
fn hard_mode_requires_green_position() {
    let game = played("ABCDE", &["AABBB"]);
    // Position 0 is Green with A; B must be used at least once.
    assert!(game.hard_check("ABZZZ"));
    assert!(!game.hard_check("ZBZZZ")); // drops the Green A
    assert!(!game.hard_check("AZZZZ")); // drops the required B
}

#[test]
fn hard_mode_accepts_secret() {
    // The real answer always passes its own revealed constraints.
    let game = played("SPEED", &["ERASE", "SPINE"]);
    assert!(game.hard_check("SPEED"));
}

#[test]
fn hard_mode_counts_duplicates() {
    let game = played("SPEED", &["EEZZZ"]);
    // The secret holds two Es and the guess's two Es consume both
    // budgets as Yellows, so a hard-mode guess needs two Es.
    assert!(game.hard_check("EEEEE"));
    assert!(!game.hard_check("EZZZZ"));
}

#[test]
fn filter_keeps_consistent_words_in_order() {
    let game = played("ABCDE", &["AABBB"]);
    let pool = vec![
        "ABCDE".to_string(),
        "AXCDE".to_string(),
        "AABBB".to_string(),
        "ZZZZZ".to_string(),
    ];
    let left = game.find_valid(pool);
    // The secret survives; a word without B lacks the required count, a
    // word repeating a Yellow position's letter there is out, and a word
    // that contradicts the Green position is out.
    assert_eq!(left, vec!["ABCDE".to_string()]);
}

#[test]
fn filter_red_sets_usage_ceiling() {
    let game = played("ABCDE", &["AABBB"]);
    // A was colored Red at position 1, so candidates may use A at most
    // once (its single Green/Yellow occurrence).
    let pool = vec!["ABCAE".to_string()];
    let left = game.find_valid(pool);
    assert!(left.is_empty());
}

#[test]
fn filter_may_leave_nothing() {
    let game = played("ABCDE", &["ABCDE"]);
    let pool = vec!["BCDEA".to_string()];
    let left = game.find_valid(pool);
    assert!(left.is_empty());
}

#[test]
fn colors_round_trip() {
    assert_eq!(Game::color2id('G'), 3);
    assert_eq!(Game::color2id('Y'), 2);
    assert_eq!(Game::color2id('R'), 1);
    assert_eq!(Game::color2id('X'), 0);
    assert_eq!(Game::id2color(3), 'G');
    assert_eq!(Game::id2color(2), 'Y');
    assert_eq!(Game::id2color(1), 'R');
    assert_eq!(Game::id2color(0), 'X');
    assert_eq!(Game::alpha2id('A'), 0);
    assert_eq!(Game::alpha2id('Z'), 25);
}

#[test]
fn vec2str_renders_colors() {
    let v = vec![3i8, 2, 1, 0, 3];
    assert_eq!(Game::vec2str(&v), "GYRXG".to_string());
}

#[test]
fn show_answer_returns_secret() {
    let mut game = Game::new();
    game.set_answer("CRANE".to_string());
    assert_eq!(game.show_answer(), "CRANE");
}
