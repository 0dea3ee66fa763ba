use recognizer::dnn::{make_spectrum_window, Dnn};
use recognizer::phone::{find, read_phone, Phone};
use recognizer::text::split_whitespace;
use recognizer::word::{read_dictionary, read_head_probs, read_next_word_probs, read_words, Word};
use recognizer::BuildError;

const LN_HALF: i64 = -693_147;

fn phone(index: usize, name: &str, in_prob: Vec<Option<i64>>, trans_prob: Vec<Vec<Option<i64>>>, out_prob: Vec<Option<i64>>, skip_prob: Option<i64>) -> Phone {
    let n_states = in_prob.len();
    Phone { index, name: name.as_bytes().to_vec(), n_states, in_prob, trans_prob, out_prob, skip_prob }
}

fn bytes(s: &str) -> Vec<u8> {
    s.as_bytes().to_vec()
}

#[test]
fn split_whitespace_finds_the_tokens() {
    let line = bytes("  ab  cd\te ");
    let toks = split_whitespace(&line);
    assert_eq!(toks, vec![bytes("ab"), bytes("cd"), bytes("e")]);
    let blank = bytes(" \t ");
    assert_eq!(split_whitespace(&blank).len(), 0);
    let empty: Vec<u8> = vec![];
    assert_eq!(split_whitespace(&empty).len(), 0);
}

#[test]
fn find_returns_the_first_match() {
    let phones = vec![
        phone(0, "a", vec![Some(0)], vec![vec![None]], vec![Some(0)], None),
        phone(1, "b", vec![Some(0)], vec![vec![None]], vec![Some(0)], None),
        phone(2, "b", vec![Some(0)], vec![vec![None]], vec![Some(0)], None),
    ];
    assert_eq!(find(&bytes("b"), &phones), Some(1));
    assert_eq!(find(&bytes("a"), &phones), Some(0));
    assert_eq!(find(&bytes("c"), &phones), None);
}

#[test]
fn read_phone_slices_the_transition_matrix() {
    // two emitting states: row 0 is the entry, column 3 the exit
    let tp: Vec<Vec<Option<i64>>> = vec![
        vec![None, Some(0), None, Some(-7)],
        vec![None, Some(-1), Some(-2), Some(-3)],
        vec![None, None, Some(-4), Some(-5)],
        vec![None, None, None, None],
    ];
    let ph = read_phone(3, bytes("sp"), 2, &tp).unwrap();
    assert_eq!(ph.index, 3);
    assert_eq!(ph.name, bytes("sp"));
    assert_eq!(ph.n_states, 2);
    assert_eq!(ph.in_prob, vec![Some(0), None]);
    assert_eq!(ph.trans_prob, vec![vec![Some(-1), Some(-2)], vec![None, Some(-4)]]);
    assert_eq!(ph.out_prob, vec![Some(-3), Some(-5)]);
    assert_eq!(ph.skip_prob, Some(-7));
    assert!(ph.is_sp());
}

#[test]
fn read_phone_rejects_a_malformed_matrix() {
    let short: Vec<Vec<Option<i64>>> = vec![vec![None; 4]; 3];
    assert_eq!(read_phone(0, bytes("a"), 2, &short), Err(BuildError::ParseError));
    let positive: Vec<Vec<Option<i64>>> = vec![
        vec![None, Some(1), None, None],
        vec![None; 4],
        vec![None; 4],
        vec![None; 4],
    ];
    assert_eq!(read_phone(0, bytes("a"), 2, &positive), Err(BuildError::ParseError));
}

fn small_phone_table() -> Vec<Phone> {
    vec![
        phone(0, "a", vec![Some(0)], vec![vec![Some(LN_HALF)]], vec![Some(LN_HALF)], None),
        phone(1, "b", vec![Some(0)], vec![vec![Some(LN_HALF)]], vec![Some(LN_HALF)], None),
    ]
}

#[test]
fn read_dictionary_builds_words_and_skips_blank_lines() {
    let phones = small_phone_table();
    let lines = vec![bytes("one a b"), bytes(""), bytes("two b")];
    let words = read_dictionary(&lines, &phones).unwrap();
    assert_eq!(words.len(), 2);
    assert_eq!(words[0].name, bytes("one"));
    assert_eq!(words[0].phones, vec![0, 1]);
    assert_eq!(words[1].name, bytes("two"));
    assert_eq!(words[1].phones, vec![1]);
    assert_eq!(words[0].head_prob, None);
    assert_eq!(words[0].next_word_prob, vec![None, None]);
}

#[test]
fn read_dictionary_reports_missing_phones_and_bare_words() {
    let phones = small_phone_table();
    let missing = vec![bytes("one a c")];
    assert_eq!(read_dictionary(&missing, &phones), Err(BuildError::LookupMissing));
    let bare = vec![bytes("one")];
    assert_eq!(read_dictionary(&bare, &phones), Err(BuildError::ParseError));
}

#[test]
fn unigram_and_bigram_entries_apply_and_the_last_wins() {
    let phones = small_phone_table();
    let lines = vec![bytes("one a"), bytes("two b")];
    let mut words = read_dictionary(&lines, &phones).unwrap();
    read_head_probs(&vec![(bytes("one"), Some(-5)), (bytes("one"), Some(-9))], &mut words);
    assert_eq!(words[0].head_prob, Some(-9));
    assert_eq!(words[1].head_prob, None);
    read_next_word_probs(
        &vec![
            (bytes("one"), bytes("two"), Some(-3)),
            (bytes("one"), bytes("two"), Some(-4)),
            (bytes("two"), bytes("one"), Some(-6)),
        ],
        &mut words,
    );
    assert_eq!(words[0].next_word_prob, vec![None, Some(-4)]);
    assert_eq!(words[1].next_word_prob, vec![Some(-6), None]);
}

#[test]
fn read_words_composes_the_three_artifacts() {
    let phones = small_phone_table();
    let lines = vec![bytes("one a"), bytes("two b")];
    let unigram = vec![(bytes("one"), Some(0))];
    let bigram = vec![(bytes("one"), bytes("two"), Some(-2))];
    let words = read_words(&lines, &unigram, &bigram, &phones).unwrap();
    assert_eq!(words[0].head_prob, Some(0));
    assert_eq!(words[1].head_prob, None);
    assert_eq!(words[0].next_word_prob, vec![None, Some(-2)]);
}

#[test]
fn read_words_rejects_a_score_out_of_range() {
    let phones = small_phone_table();
    let lines = vec![bytes("one a")];
    let bad = vec![(bytes("one"), Some(5))];
    let bigram: Vec<(Vec<u8>, Vec<u8>, Option<i64>)> = vec![];
    assert_eq!(read_words(&lines, &bad, &bigram, &phones), Err(BuildError::ParseError));
}

#[test]
fn markers_are_recognized() {
    let start = Word { name: bytes("<s>"), phones: vec![0], head_prob: None, next_word_prob: vec![] };
    let end = Word { name: bytes("</s>"), phones: vec![0], head_prob: None, next_word_prob: vec![] };
    let plain = Word { name: bytes("<sp>"), phones: vec![0], head_prob: None, next_word_prob: vec![] };
    assert!(start.is_marker());
    assert!(end.is_marker());
    assert!(!plain.is_marker());
}

#[test]
fn label_map_spreads_the_classifier_outputs() {
    let phones = vec![
        phone(0, "a", vec![Some(0), Some(0)], vec![vec![None, None], vec![None, None]], vec![Some(0), Some(0)], None),
        phone(1, "b", vec![Some(0)], vec![vec![None]], vec![Some(0)], None),
    ];
    let dnn = Dnn { label_info: vec![(0, 1), (1, 0)], spectrum_window_range: (-2, 3) };
    let output = vec![Some(-5), None];
    let obs = dnn.compute_observation_prob(&output, &phones);
    assert_eq!(obs[0][1], Some(-5));
    assert_eq!(obs[1][0], None);
    // the unmapped cell stays unavailable
    assert_eq!(obs[0][0], None);
}

#[test]
fn window_clamps_to_the_spectrogram_edges() {
    // a one-frame spectrogram repeats its only frame five times
    assert_eq!(make_spectrum_window(1, 0, (-2, 3)), vec![0, 0, 0, 0, 0]);
    // in the middle nothing clamps
    assert_eq!(make_spectrum_window(5, 2, (-1, 2)), vec![1, 2, 3]);
    // at the right edge the last frame repeats
    assert_eq!(make_spectrum_window(3, 2, (0, 3)), vec![2, 2, 2]);
}
