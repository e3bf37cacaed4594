use wordle::letters::{alphabet, StateofChar};
use wordle::game::{GameDifficulty, GameMode, WordleGame};
use wordle::feedback::{changeal, countnum, refresh, refreshal, refreshword};
use wordle::hard_mode::{difficultmode, difficultnumber_char};
use wordle::words::{
    check_acceptable_words, check_final_in_acceptable, check_final_words, contains_word, copy_word,
    is_all_upper, normalize_word, normalize_words,
    prepare_acceptable_words, prepare_final_words, same_word, shuffle_answers, answer_of_day,
    sort_words, word_less, WordListError,
};
use wordle::stats::{record_guess, sort_stats, top_guesses, Tcmdstate};
use wordle::history::{load_history, SavedRound, SavedState, Statesjson};
use wordle::play::{
    add_board_row, asks_to_continue, begin_random_round, board_row, terminal_cells, choose_answer, continue_after, judge_guess,
    next_day, record_round_guess, render_plain, start_game, submit_guess, Score,
};
use wordle::setup::{configure, options_conflict, save_path, CommandLine, Config};

use StateofChar::{G, R, X, Y};

fn w(s: &str) -> Vec<char> {
    s.chars().collect()
}

fn ws(list: &[&str]) -> Vec<Vec<char>> {
    list.iter().map(|s| w(s)).collect()
}

fn text(v: &[char]) -> String {
    v.iter().collect()
}

fn game_with_answer(answer: &str) -> WordleGame {
    let mut g = WordleGame::new();
    g.gamestates.answer = w(answer);
    g
}

fn no_cli() -> CommandLine {
    CommandLine {
        word: None,
        random: false,
        difficult: false,
        stats: false,
        days: None,
        seed: None,
        final_set: None,
        acceptable_set: None,
        state: None,
    }
}

fn no_config() -> Config {
    Config {
        random: None,
        difficult: None,
        stats: None,
        seed: None,
        day: None,
        final_set: None,
        acceptable_set: None,
        word: None,
    }
}

// ---------------------------------------------------------------------
// Letters and the new game
// ---------------------------------------------------------------------

#[test]
fn state_letters_and_strings() {
    assert_eq!(G.to_char(), 'G');
    assert_eq!(Y.to_char(), 'Y');
    assert_eq!(R.to_char(), 'R');
    assert_eq!(X.to_char(), 'X');
    assert_eq!(G.to_string(), "G");
    assert_eq!(Y.to_string(), "Y");
    assert_eq!(R.to_string(), "R");
    assert_eq!(X.to_string(), "X");
}

#[test]
fn alphabet_in_order() {
    assert_eq!(text(&alphabet()), "ABCDEFGHIJKLMNOPQRSTUVWXYZ");
}

#[test]
fn new_game_defaults() {
    let g = WordleGame::new();
    assert_eq!(text(&g.gamestates.answer), "CARGO");
    assert_eq!(g.gamestates.days, 1);
    assert_eq!(g.gamestates.stateofword, vec![X; 5]);
    assert_eq!(g.gamestates.stateofal, vec![X; 26]);
    assert_eq!(text(&g.gamestates.guessword), "AAAAA");
    assert_eq!(g.gamemode, GameMode::AnswerMode);
    assert_eq!(g.gamedifficulty, GameDifficulty::Normal);
    assert_eq!(g.seed, 11111111);
    assert!(!g.stats);
    assert!(!g.wordle_istty);
}

// ---------------------------------------------------------------------
// Colouring
// ---------------------------------------------------------------------

#[test]
fn countnum_skips_greens() {
    let mut g = WordleGame::new();
    assert_eq!(countnum(&w("EERIE"), 'E', &g), 3);
    g.gamestates.stateofword = vec![G, X, X, X, G];
    assert_eq!(countnum(&w("EERIE"), 'E', &g), 1);
    assert_eq!(countnum(&w("EERIE"), 'Z', &g), 0);
}

#[test]
fn refreshword_one_letter() {
    let mut g = WordleGame::new();
    refreshword(&w("EERIE"), &w("THERE"), 'E', &mut g);
    // greens are marked, then the first unmatched E is yellow, the second red
    assert_eq!(g.gamestates.stateofword, vec![Y, R, X, X, G]);
    refreshword(&w("EERIE"), &w("THERE"), 'R', &mut g);
    assert_eq!(g.gamestates.stateofword, vec![Y, R, Y, X, G]);
}

#[test]
fn refresh_crane_against_cargo() {
    let mut g = WordleGame::new();
    refresh(&w("CRANE"), &w("CARGO"), &mut g);
    assert_eq!(g.gamestates.stateofword, vec![G, Y, Y, R, R]);
    let mut keys = vec![X; 26];
    keys[2] = G; // C
    keys[17] = Y; // R
    keys[0] = Y; // A
    keys[13] = R; // N
    keys[4] = R; // E
    assert_eq!(g.gamestates.stateofal, keys);
}

#[test]
fn refresh_repeated_letters() {
    let mut g = WordleGame::new();
    refresh(&w("EERIE"), &w("THERE"), &mut g);
    assert_eq!(g.gamestates.stateofword, vec![Y, R, Y, R, G]);
    // the E key ends green: yellow, then red (kept yellow), then green
    assert_eq!(g.gamestates.stateofal[4], G);
    assert_eq!(g.gamestates.stateofal[17], Y);
    assert_eq!(g.gamestates.stateofal[8], R);
}

#[test]
fn refresh_leaves_non_letters_unjudged() {
    let mut g = WordleGame::new();
    refresh(&w("AB1DE"), &w("ABCDE"), &mut g);
    assert_eq!(g.gamestates.stateofword, vec![G, G, X, G, G]);
}

#[test]
fn changeal_rules() {
    let mut g = WordleGame::new();
    g.gamestates.stateofword = vec![G, Y, R, X, X];
    // X takes the new colour
    changeal(0, 1, &mut g);
    assert_eq!(g.gamestates.stateofal[0], Y);
    // Y is not lowered to R
    changeal(0, 2, &mut g);
    assert_eq!(g.gamestates.stateofal[0], Y);
    // Y turns G
    changeal(0, 0, &mut g);
    assert_eq!(g.gamestates.stateofal[0], G);
    // G stays G
    changeal(0, 2, &mut g);
    assert_eq!(g.gamestates.stateofal[0], G);
    // R takes the new colour
    changeal(1, 2, &mut g);
    assert_eq!(g.gamestates.stateofal[1], R);
    changeal(1, 1, &mut g);
    assert_eq!(g.gamestates.stateofal[1], Y);
}

#[test]
fn refreshal_types_the_guess() {
    let mut g = WordleGame::new();
    g.gamestates.stateofword = vec![R, R, Y, R, G];
    refreshal(&w("ABA?Z"), &mut g);
    assert_eq!(g.gamestates.stateofal[0], Y); // A: R then Y
    assert_eq!(g.gamestates.stateofal[1], R);
    assert_eq!(g.gamestates.stateofal[25], G);
}

#[test]
fn judge_guess_wins_only_on_the_answer() {
    let mut g = game_with_answer("CARGO");
    assert!(!judge_guess(&mut g, &w("CRANE")));
    assert_eq!(g.gamestates.stateofword, vec![G, Y, Y, R, R]);
    assert!(judge_guess(&mut g, &w("CARGO")));
    assert_eq!(g.gamestates.stateofword, vec![G; 5]);
}

#[test]
fn judge_guess_clears_the_row_first() {
    let mut g = game_with_answer("CARGO");
    g.gamestates.stateofword = vec![Y, Y, Y, Y, Y];
    judge_guess(&mut g, &w("BBBBB"));
    assert_eq!(g.gamestates.stateofword, vec![R; 5]);
}

#[test]
fn marks_never_exceed_the_answer_letters() {
    // the answer has one E: at most one E of the guess is marked
    let mut g = game_with_answer("CRATE");
    judge_guess(&mut g, &w("EERIE"));
    let marked_e = (0..5)
        .filter(|&i| "EERIE".chars().nth(i) == Some('E') && matches!(g.gamestates.stateofword[i], G | Y))
        .count();
    assert_eq!(marked_e, 1);
}

#[test]
fn keyboard_never_downgrades() {
    let mut g = game_with_answer("CARGO");
    judge_guess(&mut g, &w("CRANE"));
    let before = g.gamestates.stateofal.clone();
    judge_guess(&mut g, &w("NORTH"));
    let rank = |s: StateofChar| match s {
        X => 0,
        R => 1,
        Y => 2,
        G => 3,
    };
    for k in 0..26 {
        assert!(rank(g.gamestates.stateofal[k]) >= rank(before[k]));
    }
}

// ---------------------------------------------------------------------
// Hard mode
// ---------------------------------------------------------------------

fn after_crane() -> WordleGame {
    let mut g = game_with_answer("CARGO");
    g.gamestates.guessword = w("CRANE");
    g.gamestates.stateofword = vec![G, Y, Y, R, R];
    g
}

#[test]
fn difficult_letter_rules() {
    let mut g = after_crane();
    assert!(difficultnumber_char(&w("CIGAR"), &mut g, 'C'));
    assert!(difficultnumber_char(&w("BARGE"), &mut g, 'C'));
    assert!(!difficultnumber_char(&w("BARGE"), &mut g, 'B'));
    assert!(difficultnumber_char(&w("CORAL"), &mut g, 'R'));
    assert!(!difficultnumber_char(&w("CHILD"), &mut g, 'R'));
    assert!(difficultnumber_char(&w("CHILD"), &mut g, 'Z'));
}

#[test]
fn difficultmode_whole_word() {
    let mut g = after_crane();
    assert!(difficultmode(&w("CIGAR"), &mut g));
    assert!(difficultmode(&w("CORAL"), &mut g));
    assert!(!difficultmode(&w("BARGE"), &mut g));
    assert!(!difficultmode(&w("CHILD"), &mut g));
    // the last guess again is always allowed
    assert!(difficultmode(&w("CRANE"), &mut g));
    assert_eq!(text(&g.gamestates.guessword), "CRANE");
}

#[test]
fn difficultmode_nothing_known() {
    let mut g = WordleGame::new();
    assert!(difficultmode(&w("ZZZZZ"), &mut g));
}

// ---------------------------------------------------------------------
// Words and word lists
// ---------------------------------------------------------------------

#[test]
fn word_helpers() {
    assert!(same_word(&w("CRANE"), &w("CRANE")));
    assert!(!same_word(&w("CRANE"), &w("CRANES")));
    assert!(word_less(&w("ABC"), &w("ABD")));
    assert!(word_less(&w("AB"), &w("ABC")));
    assert!(!word_less(&w("ABC"), &w("ABC")));
    assert!(!word_less(&w("B"), &w("ABC")));
    assert_eq!(copy_word(&w("CRANE")), w("CRANE"));
    assert!(is_all_upper(&w("CRANE")));
    assert!(!is_all_upper(&w("CRaNE")));
    assert!(contains_word(&ws(&["ABC", "CRANE"]), &w("CRANE")));
    assert!(!contains_word(&ws(&["ABC", "CRANE"]), &w("CRAN")));
}

#[test]
fn normalize_uppercases() {
    assert_eq!(text(&normalize_word(&w("crane"))), "CRANE");
    assert_eq!(text(&normalize_word(&w("CrAnE"))), "CRANE");
    assert_eq!(text(&normalize_word(&w("straße"))), "STRASSE");
}

#[test]
fn sort_words_sorts_and_finds_repeats() {
    assert_eq!(sort_words(&ws(&["PEACH", "APPLE", "MANGO"])), Some(ws(&["APPLE", "MANGO", "PEACH"])));
    assert_eq!(sort_words(&ws(&["PEACH", "APPLE", "PEACH"])), None);
    assert_eq!(sort_words(&ws(&[])), Some(ws(&[])));
}

#[test]
fn final_words_from_file() {
    assert_eq!(
        prepare_final_words(&ws(&["peach", "apple", "Mango"]), true),
        Ok(ws(&["APPLE", "MANGO", "PEACH"]))
    );
    assert_eq!(
        prepare_final_words(&ws(&["peach", "app1e", "mangos"]), true),
        Err(WordListError::InvalidCharacter)
    );
    assert_eq!(
        prepare_final_words(&ws(&["peach", "mangos", "app1e"]), true),
        Err(WordListError::WrongLength)
    );
    assert_eq!(
        prepare_final_words(&ws(&["peach", "apple", "PEACH"]), true),
        Err(WordListError::Duplicate)
    );
}

#[test]
fn final_words_built_in_are_not_checked() {
    assert_eq!(prepare_final_words(&ws(&["ab1", "zz"]), false), Ok(ws(&["AB1", "ZZ"])));
    assert_eq!(prepare_final_words(&ws(&["zz", "ZZ"]), false), Err(WordListError::Duplicate));
}

#[test]
fn acceptable_words() {
    let answers = ws(&["APPLE", "MANGO"]);
    assert_eq!(
        prepare_acceptable_words(&ws(&["mango", "apple", "zebra"]), true, &answers),
        Ok(ws(&["APPLE", "MANGO", "ZEBRA"]))
    );
    // the length check looks at the last answer word, not at the line
    assert_eq!(prepare_acceptable_words(&ws(&["toolong"]), true, &answers), Ok(ws(&["TOOLONG"])));
    assert_eq!(
        prepare_acceptable_words(&ws(&["apple"]), true, &ws(&["APPLE", "PEAR"])),
        Err(WordListError::WrongLength)
    );
    assert_eq!(
        prepare_acceptable_words(&ws(&["apple", "Apple"]), false, &answers),
        Err(WordListError::Duplicate)
    );
}

#[test]
fn answers_in_acceptable() {
    let acc = ws(&["APPLE", "BERRY", "MANGO", "PEACH"]);
    assert!(check_final_in_acceptable(&ws(&["APPLE", "PEACH"]), &acc));
    assert!(check_final_in_acceptable(&ws(&[]), &acc));
    assert!(!check_final_in_acceptable(&ws(&["APPLE", "GRAPE"]), &acc));
    assert!(!check_final_in_acceptable(&ws(&["APPLE", "BERRY", "MANGO", "PEACH", "ZZZZZ"]), &acc));
}

#[test]
fn shuffle_is_a_seeded_permutation() {
    let list = ws(&["AAAAA", "BBBBB", "CCCCC", "DDDDD", "EEEEE", "FFFFF", "GGGGG", "HHHHH", "IIIII", "JJJJJ"]);
    let mut a = list.clone();
    let mut b = list.clone();
    shuffle_answers(&mut a, 42);
    shuffle_answers(&mut b, 42);
    assert_eq!(a, b);
    assert_ne!(a, list);
    let mut sorted = a.clone();
    sorted.sort();
    assert_eq!(sorted, list);
}

#[test]
fn answer_of_day_counts_from_one() {
    let list = ws(&["APPLE", "MANGO", "PEACH"]);
    assert_eq!(answer_of_day(&list, 1), w("APPLE"));
    assert_eq!(answer_of_day(&list, 3), w("PEACH"));
}

// ---------------------------------------------------------------------
// Guess statistics
// ---------------------------------------------------------------------

fn entries(t: &[Tcmdstate]) -> Vec<(String, i32)> {
    t.iter().map(|e| (text(&e.str), e.num)).collect()
}

#[test]
fn record_guess_counts() {
    let mut t: Vec<Tcmdstate> = Vec::new();
    record_guess(&mut t, &w("CRANE"));
    record_guess(&mut t, &w("SLATE"));
    record_guess(&mut t, &w("CRANE"));
    assert_eq!(entries(&t), vec![("CRANE".to_string(), 2), ("SLATE".to_string(), 1)]);
}

#[test]
fn sort_and_top_guesses() {
    let mut t: Vec<Tcmdstate> = Vec::new();
    for g in ["ZEBRA", "APPLE", "MANGO", "APPLE", "ZEBRA", "BERRY", "CHERRY", "DATES", "ZEBRA"] {
        record_guess(&mut t, &w(g));
    }
    sort_stats(&mut t);
    assert_eq!(
        entries(&t),
        vec![
            ("ZEBRA".to_string(), 3),
            ("APPLE".to_string(), 2),
            ("BERRY".to_string(), 1),
            ("CHERRY".to_string(), 1),
            ("DATES".to_string(), 1),
            ("MANGO".to_string(), 1),
        ]
    );
    let top = top_guesses(&t);
    assert_eq!(top.len(), 5);
    assert_eq!(entries(&top)[4], ("DATES".to_string(), 1));
    let small = vec![Tcmdstate { num: 1, str: w("ONE") }];
    assert_eq!(top_guesses(&small).len(), 1);
}

// ---------------------------------------------------------------------
// The saved state
// ---------------------------------------------------------------------

fn round(answer: Option<&str>, guesses: Vec<Option<&str>>) -> SavedRound {
    SavedRound { answer: answer.map(w), guesses: Some(guesses.into_iter().map(|g| g.map(w)).collect()) }
}

#[test]
fn load_history_counts_games() {
    let saved = SavedState {
        total_rounds: Some(3),
        games: Some(vec![
            round(Some("CARGO"), vec![Some("CRANE"), Some("CARGO")]),
            round(Some("PEACH"), vec![Some("CRANE"), None, Some("MANGO")]),
            round(None, vec![Some("APPLE"), Some("CRANE"), Some("BERRY")]),
            round(Some("BERRY"), vec![Some("APPLE"), Some(""), None, Some("BERRY")]),
        ]),
    };
    let h = load_history(&saved);
    assert_eq!(h.record.total_rounds, 3);
    assert_eq!(h.record.games.len(), 4);
    assert_eq!(h.record.games[1].guesses, ws(&["CRANE", "MANGO"]));
    assert_eq!(h.record.games[2].answer, w(""));
    assert_eq!(h.wins, 2);
    assert_eq!(h.losses, 2);
    // guesses listed in the games won, counting entries that are not strings
    assert_eq!(h.win_guesses, 2 + 4);
    let mut t = h.table;
    sort_stats(&mut t);
    assert_eq!(entries(&t)[0], ("CRANE".to_string(), 3));
    assert_eq!(entries(&t)[1], ("APPLE".to_string(), 2));
}

#[test]
fn load_history_without_games() {
    let h = load_history(&SavedState { total_rounds: None, games: None });
    assert_eq!(h.record.total_rounds, 0);
    assert!(h.record.games.is_empty());
    assert!(h.table.is_empty());
    assert_eq!((h.wins, h.losses, h.win_guesses), (0, 0, 0));
}

// ---------------------------------------------------------------------
// Playing
// ---------------------------------------------------------------------

#[test]
fn start_game_clears_the_keyboard() {
    let mut g = WordleGame::new();
    g.gamestates.stateofal[3] = G;
    start_game(&mut g);
    assert_eq!(g.gamestates.stateofal, vec![X; 26]);
}

#[test]
fn choose_answer_takes_listed_words() {
    let answers = ws(&["APPLE", "CARGO"]);
    let mut g = WordleGame::new();
    assert!(choose_answer(&mut g, &answers, &w("apple")));
    assert_eq!(text(&g.gamestates.answer), "APPLE");
    assert!(!choose_answer(&mut g, &answers, &w("zebra")));
    assert_eq!(text(&g.gamestates.answer), "APPLE");
}

#[test]
fn submit_guess_normal_mode() {
    let acc = ws(&["CRANE", "SLATE", "CAR"]);
    let mut g = game_with_answer("CARGO");
    let mut t: Vec<Tcmdstate> = Vec::new();
    assert!(!submit_guess(&mut g, &acc, &w("ZZZZZ"), 1, &mut t));
    assert!(t.is_empty());
    assert!(submit_guess(&mut g, &acc, &w("SLATE"), 1, &mut t));
    assert_eq!(text(&g.gamestates.guessword), "SLATE");
    assert_eq!(entries(&t), vec![("SLATE".to_string(), 1)]);
    // a shorter acceptable word overwrites only the first letters
    assert!(submit_guess(&mut g, &acc, &w("CAR"), 2, &mut t));
    assert_eq!(text(&g.gamestates.guessword), "CARTE");
}

#[test]
fn submit_guess_hard_mode() {
    let acc = ws(&["CIGAR", "BARGE", "CRANE"]);
    let mut g = after_crane();
    g.gamedifficulty = GameDifficulty::Difficult;
    let mut t: Vec<Tcmdstate> = Vec::new();
    // the first round is free
    assert!(submit_guess(&mut g, &acc, &w("BARGE"), 1, &mut t));
    let mut g = after_crane();
    g.gamedifficulty = GameDifficulty::Difficult;
    assert!(!submit_guess(&mut g, &acc, &w("BARGE"), 2, &mut t));
    assert!(submit_guess(&mut g, &acc, &w("CIGAR"), 2, &mut t));
}

#[test]
fn board_lines() {
    let mut g = game_with_answer("CARGO");
    judge_guess(&mut g, &w("CRANE"));
    let line: String = render_plain(&g).iter().collect();
    assert_eq!(line, "GYYRR YXGXRXXXXXXXXRXXXYXXXXXXXX");
    let row = board_row(&g);
    assert_eq!(row.len(), 31);
    assert_eq!(row[0..5].to_vec(), vec![G, Y, Y, R, R]);
    assert_eq!(row[5], Y);
}

#[test]
fn score_counts_games() {
    let mut s = Score::new();
    s.record_game(true, 3);
    s.record_game(false, 6);
    s.record_game(true, 5);
    assert_eq!((s.wins, s.losses, s.win_guesses), (2, 1, 8));
}

#[test]
fn random_rounds_are_recorded() {
    let answers = ws(&["APPLE", "MANGO", "PEACH"]);
    let mut g = WordleGame::new();
    g.gamestates.days = 2;
    let mut rec = Statesjson { total_rounds: 5, games: Vec::new() };
    begin_random_round(&mut g, &answers, &mut rec);
    assert_eq!(text(&g.gamestates.answer), "MANGO");
    assert_eq!(rec.total_rounds, 6);
    assert_eq!(rec.games.len(), 1);
    assert_eq!(rec.games[0].answer, w("MANGO"));
    record_round_guess(&mut rec, &w("CRANE"));
    record_round_guess(&mut rec, &w("MANGO"));
    assert_eq!(rec.games[0].guesses, ws(&["CRANE", "MANGO"]));
    next_day(&mut g);
    assert_eq!(g.gamestates.days, 3);
}

#[test]
fn continuing_after_a_game() {
    assert_eq!(continue_after(GameMode::RandomMode, 'N'), Some(false));
    assert_eq!(continue_after(GameMode::RandomMode, 'Y'), Some(true));
    assert_eq!(continue_after(GameMode::RandomMode, 'x'), None);
    assert_eq!(continue_after(GameMode::AnswerMode, 'N'), Some(false));
    assert_eq!(continue_after(GameMode::AnswerMode, 'x'), Some(true));
    assert!(asks_to_continue(GameMode::AnswerMode));
    assert!(asks_to_continue(GameMode::RandomMode));
    assert!(!asks_to_continue(GameMode::AnswerConsoleMode));
}

// ---------------------------------------------------------------------
// Options
// ---------------------------------------------------------------------

#[test]
fn configure_defaults() {
    let s = configure(&no_config(), &no_cli());
    assert_eq!(s.game.gamemode, GameMode::AnswerMode);
    assert_eq!(s.game.gamedifficulty, GameDifficulty::Normal);
    assert_eq!(s.game.seed, 11111111);
    assert_eq!(s.game.gamestates.days, 1);
    assert_eq!(text(&s.game.gamestates.answer), "CARGO");
    assert!(s.final_file.is_none());
    assert!(s.acceptable_file.is_none());
}

#[test]
fn configure_command_line_over_config() {
    let mut cfg = no_config();
    cfg.random = Some(true);
    cfg.stats = Some(false);
    cfg.seed = Some(7);
    cfg.day = Some(4);
    cfg.final_set = Some("cfg_final.txt".to_string());
    cfg.acceptable_set = Some("cfg_acc.txt".to_string());
    cfg.word = Some(w("apple"));
    let mut cli = no_cli();
    cli.seed = Some(9);
    cli.stats = true;
    cli.final_set = Some("cli_final.txt".to_string());
    let s = configure(&cfg, &cli);
    assert_eq!(s.game.gamemode, GameMode::RandomMode);
    assert_eq!(s.game.seed, 9);
    assert_eq!(s.game.gamestates.days, 4);
    assert!(s.game.stats);
    assert_eq!(text(&s.game.gamestates.answer), "APPLE");
    assert_eq!(s.final_file, Some("cli_final.txt".to_string()));
    assert_eq!(s.acceptable_file, Some("cfg_acc.txt".to_string()));
}

#[test]
fn configure_word_and_random() {
    let mut cli = no_cli();
    cli.word = Some(w("mango"));
    cli.difficult = true;
    let s = configure(&no_config(), &cli);
    assert_eq!(s.game.gamemode, GameMode::AnswerConsoleMode);
    assert_eq!(s.game.gamedifficulty, GameDifficulty::Difficult);
    assert_eq!(text(&s.game.gamestates.answer), "MANGO");
    cli.random = true;
    let s = configure(&no_config(), &cli);
    assert_eq!(s.game.gamemode, GameMode::RandomMode);
}

#[test]
fn conflicting_options() {
    let mut cli = no_cli();
    assert!(!options_conflict(&cli, GameMode::AnswerMode));
    cli.seed = Some(1);
    assert!(options_conflict(&cli, GameMode::AnswerMode));
    assert!(!options_conflict(&cli, GameMode::RandomMode));
    cli.seed = None;
    cli.days = Some(1);
    cli.word = Some(w("APPLE"));
    assert!(options_conflict(&cli, GameMode::AnswerConsoleMode));
    cli.days = None;
    cli.random = true;
    assert!(options_conflict(&cli, GameMode::RandomMode));
}

#[test]
fn state_file_to_save() {
    let mut cli = no_cli();
    assert_eq!(save_path(&cli), None);
    cli.state = Some("Errorfile".to_string());
    assert_eq!(save_path(&cli), None);
    cli.state = Some("state.json".to_string());
    assert_eq!(save_path(&cli), Some("state.json".to_string()));
}

#[test]
fn checking_upper_cased_lists() {
    assert_eq!(normalize_words(&ws(&["ab", "Cd"])), ws(&["AB", "CD"]));
    assert_eq!(check_final_words(&ws(&["PEACH", "APPLE"]), true), Ok(ws(&["APPLE", "PEACH"])));
    // read from a file, lower-case letters are refused once upper-casing is done
    assert_eq!(check_final_words(&ws(&["peach"]), true), Err(WordListError::InvalidCharacter));
    assert_eq!(check_final_words(&ws(&["PEAC"]), true), Err(WordListError::WrongLength));
    assert_eq!(check_final_words(&ws(&["PEAC"]), false), Ok(ws(&["PEAC"])));
    assert_eq!(
        check_acceptable_words(&ws(&["ZEBRA", "APPLE"]), true, &ws(&["APPLE"])),
        Ok(ws(&["APPLE", "ZEBRA"]))
    );
    assert_eq!(
        check_acceptable_words(&ws(&["ZEBRA"]), true, &ws(&["APPLES"])),
        Err(WordListError::WrongLength)
    );
    // an empty file needs no answer words
    assert_eq!(check_acceptable_words(&ws(&[]), true, &ws(&[])), Ok(ws(&[])));
}

#[test]
fn terminal_rows() {
    let mut rows: Vec<Vec<StateofChar>> = Vec::new();
    add_board_row(&mut rows, 1, &vec![G, Y]);
    add_board_row(&mut rows, 2, &vec![R]);
    assert_eq!(rows, vec![vec![G, Y], vec![R]]);
    // a second game adds to the rows of its round numbers
    add_board_row(&mut rows, 1, &vec![X]);
    assert_eq!(rows, vec![vec![G, Y, X], vec![R], vec![]]);
    let cells = terminal_cells(&vec![G, Y, R, X, G, Y, Y]);
    assert_eq!(cells, vec![Some(G), Some(Y), Some(R), Some(X), Some(G), None, Some(Y)]);
}
