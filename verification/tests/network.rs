use recognizer::phone::Phone;
use recognizer::transition::wire;
use recognizer::word::Word;
use recognizer::WORD_PENALTY;

// ln(0.5) and ln(0.9) in millionths, the fixed-point scale the tests use.
const LN_HALF: i64 = -693_147;
const LN_NINE_TENTHS: i64 = -105_361;

fn phone(index: usize, name: &str, in_prob: Vec<Option<i64>>, trans_prob: Vec<Vec<Option<i64>>>, out_prob: Vec<Option<i64>>, skip_prob: Option<i64>) -> Phone {
    let n_states = in_prob.len();
    Phone { index, name: name.as_bytes().to_vec(), n_states, in_prob, trans_prob, out_prob, skip_prob }
}

fn word(name: &str, phones: Vec<usize>, head_prob: Option<i64>, next_word_prob: Vec<Option<i64>>) -> Word {
    Word { name: name.as_bytes().to_vec(), phones, head_prob, next_word_prob }
}

/// One phone `A` with two states, of which only the first can be entered.
fn two_state_model() -> (Vec<Phone>, Vec<Word>) {
    let a = phone(
        0,
        "a",
        vec![Some(0), None],
        vec![vec![Some(LN_HALF), Some(LN_HALF)], vec![None, Some(LN_HALF)]],
        vec![Some(LN_HALF), Some(LN_HALF)],
        None,
    );
    let w = word("w", vec![0], Some(LN_HALF), vec![Some(0)]);
    (vec![a], vec![w])
}

#[test]
fn start_edges_carry_log_weights_and_no_zero_edges() {
    let (phones, words) = two_state_model();
    let t = wire(&phones, &words);
    // only state 0 of the first phone has a nonzero entry score
    assert_eq!(t.from_start.len(), 1);
    let e = &t.from_start[0];
    assert_eq!(e.dest.word, 0);
    assert_eq!(e.dest.phone, 0);
    assert_eq!(e.dest.state, 0);
    assert_eq!(e.log_prob, LN_HALF + 0 - WORD_PENALTY);
    assert!(!e.to_next_word);
}

#[test]
fn intra_phone_edges_carry_transition_scores() {
    let (phones, words) = two_state_model();
    let t = wire(&phones, &words);
    let es = &t.from_state[0][0][0];
    // from state 0: two intra-phone edges, then one cross-word edge into
    // the only word's entry state 0
    let self_edges: Vec<_> = es.iter().filter(|e| !e.to_next_word).collect();
    assert_eq!(self_edges.len(), 2);
    assert_eq!(self_edges[0].dest.state, 0);
    assert_eq!(self_edges[0].log_prob, LN_HALF);
    assert_eq!(self_edges[1].dest.state, 1);
    assert_eq!(self_edges[1].log_prob, LN_HALF);
    // from state 1: the transition back to state 0 has probability zero,
    // so no such edge may exist
    let es1 = &t.from_state[0][0][1];
    assert!(es1.iter().all(|e| !(e.dest.state == 0 && !e.to_next_word)));
}

#[test]
fn cross_word_edges_subtract_the_word_penalty() {
    let (phones, words) = two_state_model();
    let t = wire(&phones, &words);
    let es = &t.from_state[0][0][0];
    let cross: Vec<_> = es.iter().filter(|e| e.to_next_word).collect();
    // entry state 1 has score zero, so only one cross edge exists
    assert_eq!(cross.len(), 1);
    assert_eq!(cross[0].dest.word, 0);
    assert_eq!(cross[0].dest.phone, 0);
    assert_eq!(cross[0].dest.state, 0);
    assert_eq!(cross[0].log_prob, LN_HALF + 0 + 0 - WORD_PENALTY);
}

#[test]
fn every_edge_destination_is_addressable() {
    let (phones, words) = two_phone_bigram_model();
    let t = wire(&phones, &words);
    let check = |dest: &recognizer::transition::StateRef| {
        assert!(dest.word < words.len());
        assert!(dest.phone < words[dest.word].phones.len());
        let ph = &phones[words[dest.word].phones[dest.phone]];
        assert!(dest.state < ph.n_states);
    };
    for e in t.from_start.iter() {
        check(&e.dest);
    }
    for w in 0..t.from_state.len() {
        for p in 0..t.from_state[w].len() {
            for s in 0..t.from_state[w][p].len() {
                for e in t.from_state[w][p][s].iter() {
                    check(&e.dest);
                }
            }
        }
    }
}

/// Two words over two phones, with a bigram from the first to the second.
fn two_phone_bigram_model() -> (Vec<Phone>, Vec<Word>) {
    let a = phone(0, "a", vec![Some(0)], vec![vec![Some(LN_HALF)]], vec![Some(LN_HALF)], None);
    let b = phone(1, "b", vec![Some(0)], vec![vec![Some(LN_HALF)]], vec![Some(LN_HALF)], None);
    let w1 = word("w1", vec![0], Some(0), vec![None, Some(0)]);
    let w2 = word("w2", vec![1], None, vec![None, None]);
    (vec![a, b], vec![w1, w2])
}

#[test]
fn coverage_reachable_entry_state_has_an_incoming_edge() {
    let (phones, words) = two_phone_bigram_model();
    let t = wire(&phones, &words);
    // w2 cannot start an utterance, but w1 can hand over to it, so some
    // edge must end in (1, 0, 0)
    let mut found = false;
    for w in 0..t.from_state.len() {
        for p in 0..t.from_state[w].len() {
            for s in 0..t.from_state[w][p].len() {
                for e in t.from_state[w][p][s].iter() {
                    if e.dest.word == 1 && e.dest.phone == 0 && e.dest.state == 0 {
                        found = true;
                    }
                }
            }
        }
    }
    assert!(found);
    // and w2 starts no utterance
    assert!(t.from_start.iter().all(|e| e.dest.word != 1));
}

#[test]
fn short_pause_skip_edge_bypasses_the_trailing_pause() {
    // word w = [a, sp] with a skippable pause, followed by w2 = [b]
    let a = phone(0, "a", vec![Some(0)], vec![vec![Some(LN_HALF)]], vec![Some(LN_HALF)], None);
    let sp = phone(
        1,
        "sp",
        vec![Some(LN_HALF)],
        vec![vec![Some(LN_HALF)]],
        vec![Some(LN_HALF)],
        Some(LN_NINE_TENTHS),
    );
    let b = phone(2, "b", vec![Some(0)], vec![vec![Some(LN_HALF)]], vec![Some(LN_HALF)], None);
    let w = word("w", vec![0, 1], Some(0), vec![None, Some(0)]);
    let w2 = word("w2", vec![2], None, vec![None, None]);
    let phones = vec![a, sp, b];
    let words = vec![w, w2];
    let t = wire(&phones, &words);
    // from (w, 0, 0), the phone before the pause, an edge must lead
    // straight into (w2, 0, 0) with the skip score in its weight
    let es = &t.from_state[0][0][0];
    let skip: Vec<_> = es.iter().filter(|e| e.to_next_word).collect();
    assert_eq!(skip.len(), 1);
    assert_eq!(skip[0].dest.word, 1);
    assert_eq!(skip[0].dest.phone, 0);
    assert_eq!(skip[0].dest.state, 0);
    assert_eq!(skip[0].log_prob, LN_HALF + LN_NINE_TENTHS + 0 + 0 - WORD_PENALTY);
    // the pause itself still has its ordinary cross-word edge
    let es_sp = &t.from_state[0][1][0];
    let cross: Vec<_> = es_sp.iter().filter(|e| e.to_next_word).collect();
    assert_eq!(cross.len(), 1);
    assert_eq!(cross[0].log_prob, LN_HALF + 0 + 0 - WORD_PENALTY);
}
