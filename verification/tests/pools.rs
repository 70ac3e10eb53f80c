use wordle::args::Args;
use wordle::utils::{apmax, from_arr, id2background, read_word, GameError};
use wordle::words::Words;

#[test]
fn read_word_uppercases_and_validates() {
    let list = vec!["CRANE".to_string(), "SLATE".to_string()];
    assert_eq!(read_word("crane", Some(&list)), Ok("CRANE".to_string()));
    assert_eq!(read_word("SlAtE", Some(&list)), Ok("SLATE".to_string()));
    assert_eq!(read_word("cra", Some(&list)), Err(GameError::InvalidLength));
    assert_eq!(read_word("cranes", Some(&list)), Err(GameError::InvalidLength));
    assert_eq!(read_word("cr4ne", Some(&list)), Err(GameError::InvalidAlphabet));
    assert_eq!(read_word("mount", Some(&list)), Err(GameError::NotInList));
    assert_eq!(read_word("mount", None), Ok("MOUNT".to_string()));
}

#[test]
fn from_arr_copies_words() {
    let words: Vec<String> = from_arr(&["one", "two"]);
    assert_eq!(words, vec!["one".to_string(), "two".to_string()]);
}

#[test]
fn backgrounds_by_color() {
    assert_eq!(id2background(0), "default");
    assert_eq!(id2background(1), "red");
    assert_eq!(id2background(2), "yellow");
    assert_eq!(id2background(3), "green");
}

#[test]
fn apmax_raises_only() {
    let mut a: i8 = 1;
    apmax(&mut a, 3);
    assert_eq!(a, 3);
    apmax(&mut a, 2);
    assert_eq!(a, 3);
}

#[test]
fn pools_uppercase_and_keep_order() {
    let words = Words::new(
        vec!["crane".to_string()],
        vec!["crane".to_string(), "slate".to_string()],
        false,
        0,
    )
    .unwrap();
    assert_eq!(words.final_list, vec!["CRANE".to_string()]);
    assert_eq!(words.final_words, vec!["CRANE".to_string()]);
    assert_eq!(words.valid, vec!["CRANE".to_string(), "SLATE".to_string()]);
}

#[test]
fn pools_reject_missing_secret() {
    let r = Words::new(
        vec!["crane".to_string()],
        vec!["slate".to_string()],
        false,
        0,
    );
    assert!(matches!(r, Err(GameError::FinalNotAcceptable)));
}

#[test]
fn pools_reject_malformed_words() {
    let r = Words::new(vec!["cr".to_string()], vec!["slate".to_string()], false, 0);
    assert!(matches!(r, Err(GameError::InvalidLength)));
    let r = Words::new(vec!["crane".to_string()], vec!["sl4te".to_string()], false, 0);
    assert!(matches!(r, Err(GameError::InvalidAlphabet)));
}

#[test]
fn pools_shuffle_keeps_words() {
    let list = vec![
        "crane".to_string(),
        "slate".to_string(),
        "mount".to_string(),
        "pride".to_string(),
    ];
    let words = Words::new(list.clone(), list, true, 7).unwrap();
    assert_eq!(words.final_list.len(), 4);
    let mut sorted_play = words.final_list.clone();
    sorted_play.sort();
    let mut sorted_given = words.final_words.clone();
    sorted_given.sort();
    assert_eq!(sorted_play, sorted_given);
}

#[test]
fn refine_applies_config_under_cli() {
    let mut args = Args::default();
    args.word = Some("crane".to_string());
    let mut alt = Args::default();
    alt.word = Some("slate".to_string());
    alt.difficult = true;
    alt.state = Some("state.json".to_string());
    assert_eq!(args.refine(Some(alt)), Ok(()));
    // The command line's word wins, uppercased; flags combine.
    assert_eq!(args.word, Some("CRANE".to_string()));
    assert!(args.difficult);
    assert_eq!(args.state, Some("state.json".to_string()));
    assert!(!args.random);
    assert_eq!(args.day, Some(1));
    assert_eq!(args.seed, Some(0));
}

#[test]
fn refine_seed_or_day_turns_on_random() {
    let mut args = Args::default();
    args.seed = Some(42);
    assert_eq!(args.refine(None), Ok(()));
    assert!(args.random);
    assert_eq!(args.seed, Some(42));
    assert_eq!(args.day, Some(1));

    let mut args = Args::default();
    args.day = Some(3);
    assert_eq!(args.refine(None), Ok(()));
    assert!(args.random);
    assert_eq!(args.day, Some(3));
}

#[test]
fn refine_rejects_word_with_random() {
    let mut args = Args::default();
    args.random = true;
    args.word = Some("crane".to_string());
    assert_eq!(args.refine(None), Err(GameError::WordWithRandom));
    // On an error the options stay as they were.
    assert_eq!(args.word, Some("crane".to_string()));
    assert!(args.random);
    assert_eq!(args.day, None);
}

#[test]
fn refine_rejects_malformed_word() {
    let mut args = Args::default();
    args.word = Some("cr4ne".to_string());
    assert_eq!(args.refine(None), Err(GameError::InvalidAlphabet));
}
