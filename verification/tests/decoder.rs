use recognizer::phone::Phone;
use recognizer::transition::{wire, StateRef};
use recognizer::viterbi::{backtrace, fill_table, get_max, run};
use recognizer::word::{strip_markers, Word};
use recognizer::{DecodeError, WORD_PENALTY};

const LN_HALF: i64 = -693_147;
const LOW: i64 = -100_000_000;

fn phone(index: usize, name: &str, in_prob: Vec<Option<i64>>, trans_prob: Vec<Vec<Option<i64>>>, out_prob: Vec<Option<i64>>, skip_prob: Option<i64>) -> Phone {
    let n_states = in_prob.len();
    Phone { index, name: name.as_bytes().to_vec(), n_states, in_prob, trans_prob, out_prob, skip_prob }
}

fn word(name: &str, phones: Vec<usize>, head_prob: Option<i64>, next_word_prob: Vec<Option<i64>>) -> Word {
    Word { name: name.as_bytes().to_vec(), phones, head_prob, next_word_prob }
}

/// A uniform observation table over `phones`, scoring every state of
/// phone `i` with `scores[i]`.
fn obs_frame(phones: &Vec<Phone>, scores: &[Option<i64>]) -> Vec<Vec<Option<i64>>> {
    phones.iter().enumerate().map(|(i, ph)| vec![scores[i]; ph.n_states]).collect()
}

/// One word over one single-state phone, with a self loop and a
/// word-to-itself bigram.
fn single_word_model() -> (Vec<Phone>, Vec<Word>) {
    let a = phone(0, "a", vec![Some(0)], vec![vec![Some(LN_HALF)]], vec![Some(LN_HALF)], None);
    let w = word("w", vec![0], Some(0), vec![Some(0)]);
    (vec![a], vec![w])
}

#[test]
fn single_word_utterance_stays_inside_the_word() {
    // the self loop and the word-to-itself boundary carry the same
    // acoustic weight, so the word penalty keeps the path inside the
    // word and no boundary is crossed
    let (phones, words) = single_word_model();
    let t = wire(&phones, &words);
    let obs = vec![obs_frame(&phones, &[Some(0)]); 3];
    let r = run(&obs, &phones, &words, &t);
    assert_eq!(r, Ok(vec![]));
}

#[test]
fn forced_boundary_emits_the_word_at_every_crossing() {
    // without a self loop, the only way forward is across the word
    // boundary, which the backtrace reports once per crossing
    let a = phone(0, "a", vec![Some(0)], vec![vec![None]], vec![Some(LN_HALF)], None);
    let w = word("w", vec![0], Some(0), vec![Some(0)]);
    let phones = vec![a];
    let words = vec![w];
    let t = wire(&phones, &words);
    let obs = vec![obs_frame(&phones, &[Some(0)]); 3];
    let r = run(&obs, &phones, &words, &t);
    assert_eq!(r, Ok(vec![0, 0]));
}

/// Two words, the first of which opens the utterance and hands over to
/// the second by its bigram.
fn bigram_model() -> (Vec<Phone>, Vec<Word>) {
    let a = phone(0, "a", vec![Some(0)], vec![vec![Some(LN_HALF)]], vec![Some(LN_HALF)], None);
    let b = phone(1, "b", vec![Some(0)], vec![vec![Some(LN_HALF)]], vec![Some(LN_HALF)], None);
    let w1 = word("w1", vec![0], Some(0), vec![None, Some(0)]);
    let w2 = word("w2", vec![1], None, vec![None, None]);
    (vec![a, b], vec![w1, w2])
}

#[test]
fn bigram_selects_the_second_word() {
    // observations favour phone a at the first frame and phone b at the
    // second, so the best path crosses from w1 into w2 and the crossing
    // emits w1
    let (phones, words) = bigram_model();
    let t = wire(&phones, &words);
    let obs = vec![obs_frame(&phones, &[Some(0), Some(LOW)]), obs_frame(&phones, &[Some(LOW), Some(0)])];
    let r = run(&obs, &phones, &words, &t);
    assert_eq!(r, Ok(vec![0]));
}

#[test]
fn sentence_markers_are_stripped_from_the_transcript() {
    // <s> = [sil] opens the utterance, crosses into w = [a], which
    // crosses into </s> = [sil]; the raw trace holds <s> and w, and
    // stripping the markers leaves w alone
    let sil = phone(0, "sil", vec![Some(0)], vec![vec![Some(LN_HALF)]], vec![Some(LN_HALF)], None);
    let a = phone(1, "a", vec![Some(0)], vec![vec![Some(LN_HALF)]], vec![Some(LN_HALF)], None);
    let start = word("<s>", vec![0], Some(0), vec![None, Some(0), None]);
    let w = word("w", vec![1], None, vec![None, None, Some(0)]);
    let end = word("</s>", vec![0], None, vec![None, None, None]);
    let phones = vec![sil, a];
    let words = vec![start, w, end];
    let t = wire(&phones, &words);
    let obs = vec![
        obs_frame(&phones, &[Some(0), Some(LOW)]),
        obs_frame(&phones, &[Some(LOW), Some(0)]),
        obs_frame(&phones, &[Some(0), Some(LOW)]),
    ];
    let r = run(&obs, &phones, &words, &t).unwrap();
    assert_eq!(r, vec![0, 1]);
    let stripped = strip_markers(&r, &words);
    assert_eq!(stripped, vec![1]);
}

#[test]
fn unreachable_utterance_is_reported() {
    // the second frame zeroes out every phone, so no final cell is
    // reachable
    let (phones, words) = single_word_model();
    let t = wire(&phones, &words);
    let obs = vec![obs_frame(&phones, &[Some(0)]), obs_frame(&phones, &[None])];
    let r = run(&obs, &phones, &words, &t);
    assert_eq!(r, Err(DecodeError::Unreachable));
}

#[test]
fn empty_spectrogram_is_reported() {
    let (phones, words) = single_word_model();
    let t = wire(&phones, &words);
    let obs: Vec<Vec<Vec<Option<i64>>>> = vec![];
    let r = run(&obs, &phones, &words, &t);
    assert_eq!(r, Err(DecodeError::EmptyInput));
}

#[test]
fn identical_inputs_decode_identically() {
    let (phones, words) = bigram_model();
    let t = wire(&phones, &words);
    let obs = vec![obs_frame(&phones, &[Some(0), Some(LOW)]), obs_frame(&phones, &[Some(LOW), Some(0)])];
    let first = run(&obs, &phones, &words, &t);
    let second = run(&obs, &phones, &words, &t);
    assert_eq!(first, second);
}

#[test]
fn table_cells_hold_the_maximal_relaxed_scores() {
    // recompute the two reachable cells of the second frame by hand
    let (phones, words) = bigram_model();
    let t = wire(&phones, &words);
    let obs = vec![obs_frame(&phones, &[Some(0), Some(LOW)]), obs_frame(&phones, &[Some(LOW), Some(0)])];
    let table = fill_table(&obs, &phones, &words, &t);

    // frame 0: only w1 can open the utterance
    let start_score = 0 + 0 - WORD_PENALTY;
    assert_eq!(table[0][0][0][0].unwrap().log_prob, start_score);
    assert!(table[0][1][0][0].is_none());

    // frame 1, staying in w1: the self loop plus phone a's low score
    let stay = start_score + LN_HALF + LOW;
    let c_stay = table[1][0][0][0].unwrap();
    assert_eq!(c_stay.log_prob, stay);
    assert_eq!(c_stay.prev, Some(StateRef { word: 0, phone: 0, state: 0 }));
    assert!(!c_stay.word_changed);

    // frame 1, crossing into w2: exit, bigram and entry scores, the
    // word penalty, and phone b's high score
    let cross = start_score + (LN_HALF + 0 + 0 - WORD_PENALTY) + 0;
    let c_cross = table[1][1][0][0].unwrap();
    assert_eq!(c_cross.log_prob, cross);
    assert_eq!(c_cross.prev, Some(StateRef { word: 0, phone: 0, state: 0 }));
    assert!(c_cross.word_changed);

    // the crossing wins the final frame
    assert!(cross > stay);
    let best = get_max(&table[1], &phones, &words).unwrap();
    assert_eq!(best, StateRef { word: 1, phone: 0, state: 0 });

    // the backtrace from the winner recomputes to the winner's score:
    // start weight, then edge weight plus observation score
    let trace = backtrace(1, best.word, best.phone, best.state, &table);
    assert_eq!(trace, vec![0]);
    let recomputed = (0 + 0 - WORD_PENALTY) + (LN_HALF + 0 + 0 - WORD_PENALTY) + 0;
    assert_eq!(recomputed, c_cross.log_prob);
}
