use spelling_bee::{is_board, pick_letters, Game};

const VOWELS: [char; 6] = ['A', 'E', 'I', 'O', 'U', 'Y'];
const CONSONANTS: [char; 20] = [
    'B', 'C', 'D', 'F', 'G', 'H', 'J', 'K', 'L', 'M', 'N', 'P', 'Q', 'R', 'S', 'T', 'V', 'W', 'X',
    'Z',
];

fn board() -> Game {
    Game::with_letters(['G', 'A', 'B', 'C', 'D', 'E', 'F'])
}

fn dict(words: &[&str]) -> Vec<String> {
    words.iter().map(|w| w.to_string()).collect()
}

fn type_word(game: &mut Game, word: &str) {
    for c in word.chars() {
        game.push(c);
    }
}

fn error_text(game: &Game) -> Option<String> {
    game.error().clone()
}

fn assert_letter_set(letters: [char; 7]) {
    for i in 0..7 {
        for j in 0..7 {
            if i != j {
                assert_ne!(letters[i], letters[j]);
            }
        }
    }
    let vowels = letters.iter().filter(|c| VOWELS.contains(c)).count();
    assert!(vowels == 1 || vowels == 2, "{:?}", letters);
    for c in letters.iter() {
        assert!(VOWELS.contains(c) || CONSONANTS.contains(c), "{:?}", letters);
    }
}

#[test]
fn generated_boards_are_letter_sets() {
    for _ in 0..500 {
        assert_letter_set(pick_letters());
    }
}

#[test]
fn generated_boards_vary_their_center() {
    let mut centers = Vec::new();
    for _ in 0..500 {
        let c = pick_letters()[0];
        if !centers.contains(&c) {
            centers.push(c);
        }
    }
    assert!(centers.len() > 1);
    assert!(centers.iter().any(|c| CONSONANTS.contains(c)));
}

#[test]
fn new_game_starts_empty() {
    let game = Game::new();
    assert_letter_set(game.letters());
    assert_eq!(game.input(), "");
    assert!(game.words().is_empty());
    assert_eq!(game.score(), 0);
    assert_eq!(error_text(&game), None);
}

#[test]
fn off_board_letter_is_reported_before_length() {
    let mut game = board();
    game.set_dict(dict(&["bagged"]));
    type_word(&mut game, "XYZ");
    game.submit();
    assert_eq!(error_text(&game), Some("X is not in the letter set.".to_string()));
    assert_eq!(game.input(), "");
    assert_eq!(game.score(), 0);
}

#[test]
fn first_off_board_letter_is_named() {
    let mut game = board();
    type_word(&mut game, "BAXQ");
    game.submit();
    assert_eq!(error_text(&game), Some("X is not in the letter set.".to_string()));
}

#[test]
fn empty_input_is_reported() {
    let mut game = board();
    game.submit();
    assert_eq!(error_text(&game), Some("No input entered.".to_string()));
}

#[test]
fn three_letters_are_too_short() {
    let mut game = board();
    game.set_dict(dict(&["bag"]));
    type_word(&mut game, "BAG");
    game.submit();
    assert_eq!(error_text(&game), Some("Words must be at least 4 characters.".to_string()));
    assert_eq!(game.input(), "");
    assert_eq!(game.score(), 0);
}

#[test]
fn four_letters_are_enough() {
    let mut game = board();
    game.set_dict(dict(&["cage"]));
    type_word(&mut game, "CAGE");
    game.submit();
    assert_eq!(error_text(&game), None);
    assert_eq!(game.score(), 1);
    assert_eq!(game.words(), &vec!["CAGE".to_string()]);
    assert_eq!(game.input(), "");
}

#[test]
fn center_letter_is_required() {
    let mut game = board();
    game.set_dict(dict(&["faced"]));
    type_word(&mut game, "FACED");
    game.submit();
    assert_eq!(
        error_text(&game),
        Some("Words must include the center letter (G).".to_string())
    );
    assert_eq!(game.input(), "");
    assert_eq!(game.score(), 0);
}

#[test]
fn unknown_word_is_reported() {
    let mut game = board();
    game.set_dict(dict(&["bagged"]));
    type_word(&mut game, "BADGE");
    game.submit();
    assert_eq!(error_text(&game), Some("BADGE is not in the dictionary.".to_string()));
    assert_eq!(game.input(), "");
}

#[test]
fn without_dictionary_every_word_is_unknown() {
    let mut game = board();
    type_word(&mut game, "CAGE");
    game.submit();
    assert_eq!(error_text(&game), Some("CAGE is not in the dictionary.".to_string()));
    assert_eq!(game.score(), 0);
}

#[test]
fn duplicate_keeps_score_and_input() {
    let mut game = board();
    game.set_dict(dict(&["badge"]));
    type_word(&mut game, "BADGE");
    game.submit();
    assert_eq!(game.score(), 1);
    assert_eq!(game.input(), "");
    game.clear_error();
    type_word(&mut game, "BADGE");
    game.submit();
    assert_eq!(game.score(), 1);
    assert_eq!(error_text(&game), Some("You already found that word!".to_string()));
    assert_eq!(game.input(), "BADGE");
    assert_eq!(game.words().len(), 1);
}

#[test]
fn other_rejections_clear_input() {
    let mut game = board();
    game.set_dict(dict(&["badge"]));
    type_word(&mut game, "BADGED");
    game.submit();
    assert_eq!(game.input(), "");
    assert!(error_text(&game).is_some());
}

#[test]
fn pangram_scores_three() {
    let mut game = board();
    game.set_dict(dict(&["bagfaced", "badge"]));
    type_word(&mut game, "BAGFACED");
    game.submit();
    assert_eq!(game.score(), 3);
    game.clear_error();
    type_word(&mut game, "BADGE");
    game.submit();
    assert_eq!(game.score(), 4);
}

#[test]
fn word_missing_a_letter_scores_one() {
    // "cabbaged" has no F, so on this board it is not a pangram
    let mut game = board();
    game.set_dict(dict(&["cabbaged"]));
    type_word(&mut game, "CABBAGED");
    game.submit();
    assert_eq!(error_text(&game), None);
    assert_eq!(game.score(), 1);
}

#[test]
fn restart_resets_the_round() {
    let mut game = board();
    game.set_dict(dict(&["badge", "cage"]));
    type_word(&mut game, "BADGE");
    game.submit();
    type_word(&mut game, "CAGE");
    game.submit();
    type_word(&mut game, "FA");
    assert_eq!(game.score(), 2);
    game.restart();
    assert_eq!(game.input(), "");
    assert!(game.words().is_empty());
    assert_eq!(game.score(), 0);
    assert_letter_set(game.letters());
}

#[test]
fn small_letters_are_typed_as_capitals() {
    let mut game = board();
    game.set_dict(dict(&["badge"]));
    type_word(&mut game, "bAdGe");
    assert_eq!(game.input(), "BADGE");
    game.submit();
    assert_eq!(error_text(&game), None);
    assert_eq!(game.score(), 1);
    assert_eq!(game.words(), &vec!["BADGE".to_string()]);
}

#[test]
fn digits_are_typed_unchanged() {
    let mut game = board();
    game.push('7');
    assert_eq!(game.input(), "7");
    game.submit();
    assert_eq!(error_text(&game), Some("7 is not in the letter set.".to_string()));
}

#[test]
fn capitalised_dictionary_entry_does_not_match() {
    let mut game = board();
    game.set_dict(dict(&["BADGE"]));
    type_word(&mut game, "badge");
    game.submit();
    assert_eq!(error_text(&game), Some("BADGE is not in the dictionary.".to_string()));
}

#[test]
fn found_words_are_listed_in_order() {
    let mut game = board();
    game.set_dict(dict(&["cage", "badge", "gabbed", "bagged"]));
    for w in ["CAGE", "BADGE", "GABBED", "BAGGED"].iter() {
        type_word(&mut game, w);
        game.submit();
    }
    let listed: Vec<&str> = game.words().iter().map(|w| w.as_str()).collect();
    assert_eq!(listed, vec!["BADGE", "BAGGED", "CAGE", "GABBED"]);
    assert_eq!(game.score(), 4);
}

#[test]
fn backspace_removes_last_character() {
    let mut game = board();
    type_word(&mut game, "BAD");
    game.backspace();
    assert_eq!(game.input(), "BA");
    game.backspace();
    game.backspace();
    assert_eq!(game.input(), "");
    game.backspace();
    assert_eq!(game.input(), "");
    assert_eq!(error_text(&game), None);
}

#[test]
fn clear_empties_input() {
    let mut game = board();
    type_word(&mut game, "BADGE");
    game.clear();
    assert_eq!(game.input(), "");
}

#[test]
fn clear_error_forgets_the_message() {
    let mut game = board();
    game.submit();
    assert!(error_text(&game).is_some());
    game.clear_error();
    assert_eq!(error_text(&game), None);
}

#[test]
fn replacing_the_dictionary_keeps_the_round() {
    let mut game = board();
    game.set_dict(dict(&["badge"]));
    type_word(&mut game, "BADGE");
    game.submit();
    game.set_dict(dict(&["cage"]));
    assert_eq!(game.score(), 1);
    type_word(&mut game, "CAGE");
    game.submit();
    assert_eq!(game.score(), 2);
    type_word(&mut game, "GABE");
    game.submit();
    assert_eq!(error_text(&game), Some("GABE is not in the dictionary.".to_string()));
}

#[test]
fn board_letters_are_kept() {
    let game = board();
    assert_eq!(game.letters(), ['G', 'A', 'B', 'C', 'D', 'E', 'F']);
}

#[test]
fn generated_boards_pass_the_board_check() {
    for _ in 0..100 {
        assert!(is_board(&pick_letters()));
    }
}

#[test]
fn board_check_accepts_valid_boards() {
    assert!(is_board(&['G', 'A', 'B', 'C', 'D', 'E', 'F']));
    assert!(is_board(&['Y', 'B', 'C', 'D', 'F', 'G', 'H']));
}

#[test]
fn board_check_rejects_bad_boards() {
    // repeated letter
    assert!(!is_board(&['G', 'A', 'B', 'C', 'D', 'E', 'G']));
    // three vowels
    assert!(!is_board(&['G', 'A', 'E', 'I', 'D', 'B', 'F']));
    // no vowel
    assert!(!is_board(&['G', 'H', 'B', 'C', 'D', 'K', 'F']));
    // small letter
    assert!(!is_board(&['g', 'A', 'B', 'C', 'D', 'E', 'F']));
    // digit
    assert!(!is_board(&['1', 'A', 'B', 'C', 'D', 'E', 'F']));
}

#[test]
fn check_reports_without_changing_the_round() {
    let mut game = board();
    game.set_dict(dict(&["cage"]));
    type_word(&mut game, "CAG");
    assert_eq!(game.check(), Some("Words must be at least 4 characters.".to_string()));
    assert_eq!(game.input(), "CAG");
    game.push('E');
    assert_eq!(game.check(), None);
}

#[test]
fn eval_score_counts_pangrams() {
    let mut game = board();
    type_word(&mut game, "BAGFACED");
    assert_eq!(game.eval_score(), 3);
    game.clear();
    type_word(&mut game, "CABBAGED");
    assert_eq!(game.eval_score(), 1);
}

#[test]
fn score_is_the_sum_over_found_words() {
    let mut game = board();
    game.set_dict(dict(&["bagfaced", "cage", "badge"]));
    for w in ["CAGE", "BAGFACED", "BADGE", "CAGE"].iter() {
        type_word(&mut game, w);
        game.submit();
        game.clear();
        game.clear_error();
    }
    let listed: Vec<&str> = game.words().iter().map(|w| w.as_str()).collect();
    assert_eq!(listed, vec!["BADGE", "BAGFACED", "CAGE"]);
    assert_eq!(game.score(), 5);
}
