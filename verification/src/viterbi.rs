use vstd::prelude::*;
use crate::{DecodeError, MAX_FRAMES, SCORE_LIMIT};
use crate::phone::{phones_wf, Phone};
use crate::transition::{
    transitions_exact, transitions_wf, word_phone, StateRef, Transition, Transitions,
};
use crate::word::{words_wf, Word};

verus! {

/// One cell of the dynamic-programming table: best cumulative score, the
/// predecessor state, and whether the incoming edge crossed a word
/// boundary.  An unreached cell is `None` in the table.
#[derive(Clone, Copy, PartialEq, Eq, Structural, Debug)]
pub struct Value {
    pub log_prob: i64,
    pub prev: Option<StateRef>,
    pub word_changed: bool,
}

/// The table cell `(t, w, p, s)`.
pub open spec fn cell(
    table: Seq<Vec<Vec<Vec<Option<Value>>>>>,
    t: int,
    w: int,
    p: int,
    s: int,
) -> Option<Value> {
    table[t][w][p][s]
}

/// `(w, p, s)` addresses a state of the unrolled network.
pub open spec fn valid_ref(phones: Seq<Phone>, words: Seq<Word>, w: int, p: int, s: int) -> bool {
    &&& 0 <= w < words.len()
    &&& 0 <= p < words[w].phones.len()
    &&& 0 <= s < word_phone(phones, words, w, p).n_states
}

/// The table has `n` frames, each shaped like the unrolled network.
pub open spec fn table_shape(
    phones: Seq<Phone>,
    words: Seq<Word>,
    table: Seq<Vec<Vec<Vec<Option<Value>>>>>,
    n: int,
) -> bool {
    &&& table.len() == n
    &&& forall|t: int| 0 <= t < n ==> (#[trigger] table[t]).len() == words.len()
    &&& forall|t: int, w: int|
        0 <= t < n && 0 <= w < words.len() ==> (#[trigger] table[t][w]).len()
            == words[w].phones.len()
    &&& forall|t: int, w: int, p: int|
        0 <= t < n && 0 <= w < words.len() && 0 <= p < words[w].phones.len()
            ==> (#[trigger] table[t][w][p]).len() == word_phone(phones, words, w, p).n_states
}

/// One frame's observation table: a score per `(phone, state)` pair, with
/// `None` for an unavailable emission.
pub open spec fn obs_wf(phones: Seq<Phone>, obs: Vec<Vec<Option<i64>>>) -> bool {
    &&& obs.len() == phones.len()
    &&& forall|i: int| 0 <= i < phones.len() ==> (#[trigger] obs[i]).len() == phones[i].n_states
    &&& forall|i: int, s: int|
        0 <= i < phones.len() && 0 <= s < phones[i].n_states ==> ((#[trigger] obs[i][s]) matches
            Some(v) ==> crate::obs_score_ok(v))
}

/// Every frame's observation table is well-formed.
pub open spec fn observations_wf(phones: Seq<Phone>, observations: Seq<Vec<Vec<Option<i64>>>>) -> bool {
    forall|t: int| 0 <= t < observations.len() ==> obs_wf(phones, #[trigger] observations[t])
}

/// The observation score of the destination state of an edge.
pub open spec fn obs_at(
    phones: Seq<Phone>,
    words: Seq<Word>,
    obs: Vec<Vec<Option<i64>>>,
    dest: StateRef,
) -> Option<i64> {
    obs[words[dest.word as int].phones[dest.phone as int] as int][dest.state as int]
}

/// The candidate `(w, p, s, i)` proposes, at step `t`, to extend the path
/// ending in the reached cell `(t, w, p, s)` along the `i`-th outgoing
/// edge, provided the destination's observation score is available.
pub open spec fn cand_ok(
    phones: Seq<Phone>,
    words: Seq<Word>,
    tr: Transitions,
    table: Seq<Vec<Vec<Vec<Option<Value>>>>>,
    obs: Vec<Vec<Option<i64>>>,
    t: int,
    w: int,
    p: int,
    s: int,
    i: int,
) -> bool {
    &&& valid_ref(phones, words, w, p, s)
    &&& cell(table, t, w, p, s) is Some
    &&& 0 <= i < tr.from_state[w][p][s].len()
    &&& obs_at(phones, words, obs, tr.from_state[w][p][s][i].dest) is Some
}

/// The cumulative score the candidate `(w, p, s, i)` proposes: source
/// score, edge weight, and the destination's observation score.
pub open spec fn cand_score(
    phones: Seq<Phone>,
    words: Seq<Word>,
    tr: Transitions,
    table: Seq<Vec<Vec<Vec<Option<Value>>>>>,
    obs: Vec<Vec<Option<i64>>>,
    t: int,
    w: int,
    p: int,
    s: int,
    i: int,
) -> int {
    cell(table, t, w, p, s).unwrap().log_prob + tr.from_state[w][p][s][i].log_prob + obs_at(
        phones,
        words,
        obs,
        tr.from_state[w][p][s][i].dest,
    ).unwrap()
}

/// The candidate `(w, p, s, i)` is scanned strictly before
/// `(w2, p2, s2, i2)`.
pub open spec fn cand_before(
    w: int,
    p: int,
    s: int,
    i: int,
    w2: int,
    p2: int,
    s2: int,
    i2: int,
) -> bool {
    w < w2 || (w == w2 && (p < p2 || (p == p2 && (s < s2 || (s == s2 && i < i2)))))
}

/// What initialization leaves in the cell `(0, w, p, s)`: the start-edge
/// weight when the word's head score and the state's entry score are both
/// nonzero, and unreached otherwise.
pub open spec fn start_value(phones: Seq<Phone>, words: Seq<Word>, w: int, p: int, s: int) -> Option<
    Value,
> {
    if p == 0 && words[w].head_prob is Some && word_phone(phones, words, w, 0).in_prob[s] is Some {
        Some(
            Value {
                log_prob: (words[w].head_prob.unwrap() + word_phone(phones, words, w, 0).in_prob[
                    s
                ].unwrap() - crate::WORD_PENALTY) as i64,
                prev: None,
                word_changed: false,
            },
        )
    } else {
        None
    }
}

/// The first frame's cells hold exactly the start-edge weights.
pub open spec fn dp_init(
    phones: Seq<Phone>,
    words: Seq<Word>,
    table: Seq<Vec<Vec<Vec<Option<Value>>>>>,
) -> bool {
    forall|w: int, p: int, s: int|
        valid_ref(phones, words, w, p, s) ==> #[trigger] cell(table, 0, w, p, s) == start_value(
            phones,
            words,
            w,
            p,
            s,
        )
}

/// The relaxation of frame `t + 1` from frame `t` is complete and exact:
/// a cell is reached exactly when some candidate proposes it, its score is
/// the maximum proposed, and its back-pointer and boundary flag come from
/// a candidate attaining that maximum.
pub open spec fn dp_step(
    phones: Seq<Phone>,
    words: Seq<Word>,
    tr: Transitions,
    table: Seq<Vec<Vec<Vec<Option<Value>>>>>,
    obs: Vec<Vec<Option<i64>>>,
    t: int,
) -> bool {
    forall|w2: int, p2: int, s2: int|
        valid_ref(phones, words, w2, p2, s2) ==> {
            let c = #[trigger] cell(table, t + 1, w2, p2, s2);
            &&& (c is Some <==> exists|w: int, p: int, s: int, i: int|
                cand_ok(phones, words, tr, table, obs, t, w, p, s, i)
                    && (#[trigger] tr.from_state[w][p][s][i]).dest == (StateRef {
                    word: w2 as usize,
                    phone: p2 as usize,
                    state: s2 as usize,
                }))
            &&& c matches Some(v) ==> (forall|w: int, p: int, s: int, i: int|
                cand_ok(phones, words, tr, table, obs, t, w, p, s, i)
                    && (#[trigger] tr.from_state[w][p][s][i]).dest == (StateRef {
                    word: w2 as usize,
                    phone: p2 as usize,
                    state: s2 as usize,
                }) ==> cand_score(phones, words, tr, table, obs, t, w, p, s, i) <= v.log_prob)
            &&& c matches Some(v) ==> (exists|w: int, p: int, s: int, i: int|
                cand_ok(phones, words, tr, table, obs, t, w, p, s, i)
                    && (#[trigger] tr.from_state[w][p][s][i]).dest == (StateRef {
                    word: w2 as usize,
                    phone: p2 as usize,
                    state: s2 as usize,
                }) && cand_score(phones, words, tr, table, obs, t, w, p, s, i) == v.log_prob
                    && v.prev == Some(
                    StateRef { word: w as usize, phone: p as usize, state: s as usize },
                ) && v.word_changed == tr.from_state[w][p][s][i].to_next_word && (forall|
                    w4: int,
                    p4: int,
                    s4: int,
                    i4: int,
                |
                    cand_ok(phones, words, tr, table, obs, t, w4, p4, s4, i4) && (
                    #[trigger] tr.from_state[w4][p4][s4][i4]).dest == (StateRef {
                        word: w2 as usize,
                        phone: p2 as usize,
                        state: s2 as usize,
                    }) && cand_before(w4, p4, s4, i4, w, p, s, i) ==> cand_score(
                        phones,
                        words,
                        tr,
                        table,
                        obs,
                        t,
                        w4,
                        p4,
                        s4,
                        i4,
                    ) < v.log_prob))
        }
}

/// The whole table is the exact dynamic program over the observations.
pub open spec fn dp_ok(
    phones: Seq<Phone>,
    words: Seq<Word>,
    tr: Transitions,
    observations: Seq<Vec<Vec<Option<i64>>>>,
    table: Seq<Vec<Vec<Vec<Option<Value>>>>>,
) -> bool {
    &&& table_shape(phones, words, table, observations.len() as int)
    &&& dp_init(phones, words, table)
    &&& forall|t: int|
        0 <= t < observations.len() - 1 ==> dp_step(
            phones,
            words,
            tr,
            table,
            #[trigger] observations[t + 1],
            t,
        )
}

/// Every reached cell of frame `t` carries a score bounded by the frame
/// count, so that extending a path cannot overflow.
pub open spec fn table_bounded(
    phones: Seq<Phone>,
    words: Seq<Word>,
    table: Seq<Vec<Vec<Vec<Option<Value>>>>>,
    n: int,
) -> bool {
    forall|t: int, w: int, p: int, s: int|
        0 <= t < n && valid_ref(phones, words, w, p, s) ==> ((#[trigger] cell(
            table,
            t,
            w,
            p,
            s,
        )) matches Some(v) ==> -8 * (t + 1) * SCORE_LIMIT <= v.log_prob <= 8 * (t + 1)
            * SCORE_LIMIT)
}

/// Keeps the better of an existing cell value and a proposed one: the
/// proposal wins only when the cell is unreached or the proposal's score
/// is strictly greater.
pub open spec fn spec_relax(cur: Option<Value>, new: Value) -> Option<Value> {
    match cur {
        None => Some(new),
        Some(v) => if new.log_prob > v.log_prob {
            Some(new)
        } else {
            Some(v)
        },
    }
}

/// Applies a proposed value to a cell when it improves on what is there.
pub fn consider_and_apply(new_value: Value, old_value: &mut Option<Value>)
    ensures
        *final(old_value) == spec_relax(*old(old_value), new_value),
{
    let is_new_value_better = match *old_value {
        Some(value) => value.log_prob < new_value.log_prob,
        None => true,
    };
    if is_new_value_better {
        *old_value = Some(new_value);
    }
}

/// A relaxation step only reads frames `t` and `t + 1`, so it carries
/// over to any table that agrees on them.
proof fn lemma_dp_step_frame(
    phones: Seq<Phone>,
    words: Seq<Word>,
    tr: Transitions,
    ta: Seq<Vec<Vec<Vec<Option<Value>>>>>,
    tb: Seq<Vec<Vec<Vec<Option<Value>>>>>,
    obs: Vec<Vec<Option<i64>>>,
    t: int,
)
    requires
        dp_step(phones, words, tr, ta, obs, t),
        0 <= t,
        ta[t] == tb[t],
        ta[t + 1] == tb[t + 1],
    ensures
        dp_step(phones, words, tr, tb, obs, t),
{
    assert forall|w2: int, p2: int, s2: int|
        valid_ref(phones, words, w2, p2, s2) implies {
        let c = #[trigger] cell(tb, t + 1, w2, p2, s2);
        &&& (c is Some <==> exists|w: int, p: int, s: int, i: int|
            cand_ok(phones, words, tr, tb, obs, t, w, p, s, i) && (#[trigger] tr.from_state[w][p][
            s][i]).dest == (StateRef { word: w2 as usize, phone: p2 as usize, state: s2 as usize }))
        &&& (c matches Some(v) ==> (forall|w: int, p: int, s: int, i: int|
            cand_ok(phones, words, tr, tb, obs, t, w, p, s, i) && (#[trigger] tr.from_state[w][p][
            s][i]).dest == (StateRef { word: w2 as usize, phone: p2 as usize, state: s2 as usize })
                ==> cand_score(phones, words, tr, tb, obs, t, w, p, s, i) <= v.log_prob))
        &&& (c matches Some(v) ==> (exists|w: int, p: int, s: int, i: int|
            cand_ok(phones, words, tr, tb, obs, t, w, p, s, i) && (#[trigger] tr.from_state[w][p][
            s][i]).dest == (StateRef { word: w2 as usize, phone: p2 as usize, state: s2 as usize })
                && cand_score(phones, words, tr, tb, obs, t, w, p, s, i) == v.log_prob && v.prev
                == Some(StateRef { word: w as usize, phone: p as usize, state: s as usize })
                && v.word_changed == tr.from_state[w][p][s][i].to_next_word && (forall|
                w4: int,
                p4: int,
                s4: int,
                i4: int,
            |
                cand_ok(phones, words, tr, tb, obs, t, w4, p4, s4, i4) && (#[trigger] tr.from_state[
                w4][p4][s4][i4]).dest == (StateRef {
                    word: w2 as usize,
                    phone: p2 as usize,
                    state: s2 as usize,
                }) && cand_before(w4, p4, s4, i4, w, p, s, i) ==> cand_score(
                    phones,
                    words,
                    tr,
                    tb,
                    obs,
                    t,
                    w4,
                    p4,
                    s4,
                    i4,
                ) < v.log_prob)))
    } by {
        assert(cell(tb, t + 1, w2, p2, s2) == cell(ta, t + 1, w2, p2, s2));
        let c = cell(ta, t + 1, w2, p2, s2);
        if c is Some {
            let (w3, p3, s3, i) = choose|w3: int, p3: int, s3: int, i: int|
                cand_ok(phones, words, tr, ta, obs, t, w3, p3, s3, i) && (
                #[trigger] tr.from_state[w3][p3][s3][i]).dest == (StateRef {
                    word: w2 as usize,
                    phone: p2 as usize,
                    state: s2 as usize,
                }) && cand_score(phones, words, tr, ta, obs, t, w3, p3, s3, i)
                    == c.unwrap().log_prob && c.unwrap().prev == Some(
                    StateRef { word: w3 as usize, phone: p3 as usize, state: s3 as usize },
                ) && c.unwrap().word_changed == tr.from_state[w3][p3][s3][i].to_next_word && (
                forall|w4: int, p4: int, s4: int, i4: int|
                    cand_ok(phones, words, tr, ta, obs, t, w4, p4, s4, i4) && (
                    #[trigger] tr.from_state[w4][p4][s4][i4]).dest == (StateRef {
                        word: w2 as usize,
                        phone: p2 as usize,
                        state: s2 as usize,
                    }) && cand_before(w4, p4, s4, i4, w3, p3, s3, i) ==> cand_score(
                        phones,
                        words,
                        tr,
                        ta,
                        obs,
                        t,
                        w4,
                        p4,
                        s4,
                        i4,
                    ) < c.unwrap().log_prob);
            assert(cell(tb, t, w3, p3, s3) == cell(ta, t, w3, p3, s3));
            assert(cand_ok(phones, words, tr, tb, obs, t, w3, p3, s3, i));
            assert forall|w4: int, p4: int, s4: int, i4: int|
                cand_ok(phones, words, tr, tb, obs, t, w4, p4, s4, i4) && (
                #[trigger] tr.from_state[w4][p4][s4][i4]).dest == (StateRef {
                    word: w2 as usize,
                    phone: p2 as usize,
                    state: s2 as usize,
                }) && cand_before(w4, p4, s4, i4, w3, p3, s3, i) implies cand_score(
                phones,
                words,
                tr,
                tb,
                obs,
                t,
                w4,
                p4,
                s4,
                i4,
            ) < c.unwrap().log_prob by {
                assert(cell(tb, t, w4, p4, s4) == cell(ta, t, w4, p4, s4));
                assert(cand_ok(phones, words, tr, ta, obs, t, w4, p4, s4, i4));
            }
        }
        assert forall|w3: int, p3: int, s3: int, i: int|
            cand_ok(phones, words, tr, tb, obs, t, w3, p3, s3, i) && (#[trigger] tr.from_state[
            w3][p3][s3][i]).dest == (StateRef {
                word: w2 as usize,
                phone: p2 as usize,
                state: s2 as usize,
            }) implies c is Some && cand_score(phones, words, tr, tb, obs, t, w3, p3, s3, i)
            <= c.unwrap().log_prob by {
            assert(cell(tb, t, w3, p3, s3) == cell(ta, t, w3, p3, s3));
            assert(cand_ok(phones, words, tr, ta, obs, t, w3, p3, s3, i));
        }
    }
}

/// Builds and fills the whole dynamic-programming table for one
/// utterance: frame `0` from the entry edges, every later frame by
/// relaxation from its predecessor.
#[verifier::loop_isolation(false)]
pub fn fill_table(
    observations: &Vec<Vec<Vec<Option<i64>>>>,
    phones: &Vec<Phone>,
    words: &Vec<Word>,
    transitions: &Transitions,
) -> (table: Vec<Vec<Vec<Vec<Option<Value>>>>>)
    requires
        phones_wf(phones@),
        words_wf(phones@, words@),
        transitions_exact(phones@, words@, *transitions),
        transitions_wf(phones@, words@, *transitions),
        1 <= observations@.len() <= MAX_FRAMES,
        observations_wf(phones@, observations@),
    ensures
        dp_ok(phones@, words@, *transitions, observations@, table@),
        table_bounded(phones@, words@, table@, observations@.len() as int),
{
    let time_length = observations.len();
    let mut table = init_table(time_length, phones, words);
    let n_start = transitions.from_start.len();
    let mut i: usize = 0;
    while i < n_start
        invariant
            n_start == transitions.from_start@.len(),
            i <= n_start,
            table@.len() == time_length,
            table_shape(phones@, words@, table@, time_length as int),
            forall|t2: int, w: int, p: int, s: int|
                1 <= t2 < time_length && valid_ref(phones@, words@, w, p, s) ==> (#[trigger] cell(
                    table@,
                    t2,
                    w,
                    p,
                    s,
                )) is None,
            forall|j: int|
                0 <= j < i ==> #[trigger] cell(
                    table@,
                    0,
                    transitions.from_start[j].dest.word as int,
                    transitions.from_start[j].dest.phone as int,
                    transitions.from_start[j].dest.state as int,
                ) == Some(
                    Value {
                        log_prob: transitions.from_start[j].log_prob,
                        prev: None,
                        word_changed: false,
                    },
                ),
            forall|w: int, p: int, s: int|
                valid_ref(phones@, words@, w, p, s) ==> ((#[trigger] cell(
                    table@,
                    0,
                    w,
                    p,
                    s,
                )) matches Some(v) ==> exists|j: int|
                    0 <= j < i && (#[trigger] transitions.from_start[j]).dest == (StateRef {
                        word: w as usize,
                        phone: p as usize,
                        state: s as usize,
                    }) && v == (Value {
                        log_prob: transitions.from_start[j].log_prob,
                        prev: None,
                        word_changed: false,
                    })),
        decreases n_start - i,
    {
        let e = transitions.from_start[i];
        proof {
            assert(crate::transition::edge_target_ok(phones@, words@, e));
            assert(crate::transition::is_start_edge(phones@, words@, e));
        }
        let ghost tb = table@;
        let dw = e.dest.word;
        let dp = e.dest.phone;
        let ds = e.dest.state;
        let cell_ref: &mut Option<Value> = &mut table[0][dw][dp][ds];
        consider_and_apply(
            Value { log_prob: e.log_prob, prev: None, word_changed: false },
            cell_ref,
        );
        proof {
            assert(cell(tb, 0, dw as int, dp as int, ds as int) is None) by {
                if cell(tb, 0, dw as int, dp as int, ds as int) is Some {
                    let j = choose|j: int|
                        0 <= j < i && (#[trigger] transitions.from_start[j]).dest == (StateRef {
                            word: dw,
                            phone: dp,
                            state: ds,
                        }) && cell(tb, 0, dw as int, dp as int, ds as int) == Some(
                            Value {
                                log_prob: transitions.from_start[j].log_prob,
                                prev: None,
                                word_changed: false,
                            },
                        );
                    assert(transitions.from_start[j].dest != transitions.from_start[i as int].dest);
                }
            }
            assert forall|t2: int, w2: int, p2: int, s2: int|
                1 <= t2 < time_length && valid_ref(phones@, words@, w2, p2, s2) implies (
            #[trigger] cell(table@, t2, w2, p2, s2)) is None by {
                assert(table@[t2] == tb[t2]);
                assert(cell(table@, t2, w2, p2, s2) == cell(tb, t2, w2, p2, s2));
            }
            assert forall|w2: int, p2: int, s2: int|
                valid_ref(phones@, words@, w2, p2, s2) && !(w2 == dw && p2 == dp && s2 == ds)
                    implies #[trigger] cell(table@, 0, w2, p2, s2) == cell(tb, 0, w2, p2, s2) by {}
            assert(cell(table@, 0, dw as int, dp as int, ds as int) == Some(
                Value { log_prob: e.log_prob, prev: None, word_changed: false },
            ));
        }
        i = i + 1;
    }
    proof {
        assert forall|w: int, p: int, s: int|
            valid_ref(phones@, words@, w, p, s) implies #[trigger] cell(table@, 0, w, p, s)
            == start_value(phones@, words@, w, p, s) by {
            assert(words@[w].wf(phones@, words@.len() as int));
            assert(words@[w].phones@[0] < phones@.len());
            let first = word_phone(phones@, words@, w, 0);
            assert(first.wf());
            if p == 0 && words@[w].head_prob is Some && first.in_prob[s] is Some {
                assert(crate::opt_score_ok(words@[w].head_prob));
                assert(crate::opt_score_ok(first.in_prob[s]));
                let lp = words@[w].head_prob.unwrap() + first.in_prob[s].unwrap()
                    - crate::WORD_PENALTY;
                let e = Transition {
                    log_prob: lp as i64,
                    dest: StateRef { word: w as usize, phone: 0, state: s as usize },
                    to_next_word: false,
                };
                assert(crate::transition::is_start_edge(phones@, words@, e));
                assert(transitions.from_start@.contains(e));
                let j = choose|j: int|
                    0 <= j < transitions.from_start@.len() && transitions.from_start@[j] == e;
                assert(cell(table@, 0, w, p, s) == Some(
                    Value { log_prob: e.log_prob, prev: None, word_changed: false },
                ));
            } else {
                if cell(table@, 0, w, p, s) is Some {
                    let j = choose|j: int|
                        0 <= j < n_start && (#[trigger] transitions.from_start[j]).dest == (
                        StateRef { word: w as usize, phone: p as usize, state: s as usize })
                            && cell(table@, 0, w, p, s) == Some(
                            Value {
                                log_prob: transitions.from_start[j].log_prob,
                                prev: None,
                                word_changed: false,
                            },
                        );
                    assert(crate::transition::is_start_edge(
                        phones@,
                        words@,
                        transitions.from_start[j],
                    ));
                }
            }
        }
    }

    let mut t: usize = 0;
    while t < time_length - 1
        invariant
            time_length == observations@.len(),
            t <= time_length - 1,
            table@.len() == time_length,
            table_shape(phones@, words@, table@, time_length as int),
            dp_init(phones@, words@, table@),
            forall|t2: int|
                0 <= t2 < t ==> dp_step(
                    phones@,
                    words@,
                    *transitions,
                    table@,
                    #[trigger] observations@[t2 + 1],
                    t2,
                ),
            forall|t2: int, w: int, p: int, s: int|
                t + 1 <= t2 < time_length && valid_ref(phones@, words@, w, p, s) ==> (
                #[trigger] cell(table@, t2, w, p, s)) is None,
            forall|t2: int, w: int, p: int, s: int|
                0 <= t2 <= t && valid_ref(phones@, words@, w, p, s) ==> ((#[trigger] cell(
                    table@,
                    t2,
                    w,
                    p,
                    s,
                )) matches Some(v) ==> -8 * (t2 + 1) * SCORE_LIMIT <= v.log_prob <= 8 * (t2 + 1)
                    * SCORE_LIMIT),
        decreases time_length - 1 - t,
    {
        let obs = &observations[t + 1];
        let ghost tb = table@;
        proof {
            assert(obs_wf(phones@, observations@[t + 1]));
        }
        propagate(phones, words, transitions, obs, &mut table, t);
        proof {
            assert forall|w: int, p: int, s: int|
                valid_ref(phones@, words@, w, p, s) implies #[trigger] cell(table@, 0, w, p, s)
                == start_value(phones@, words@, w, p, s) by {
                assert(table@[0] == tb[0]);
                assert(cell(table@, 0, w, p, s) == cell(tb, 0, w, p, s));
            }
            assert forall|t2: int| 0 <= t2 < t + 1 implies dp_step(
                phones@,
                words@,
                *transitions,
                table@,
                #[trigger] observations@[t2 + 1],
                t2,
            ) by {
                if t2 < t {
                    assert(table@[t2] == tb[t2]);
                    assert(table@[t2 + 1] == tb[t2 + 1]);
                    lemma_dp_step_frame(
                        phones@,
                        words@,
                        *transitions,
                        tb,
                        table@,
                        observations@[t2 + 1],
                        t2,
                    );
                }
            }
            assert forall|t2: int, w: int, p: int, s: int|
                t + 2 <= t2 < time_length && valid_ref(phones@, words@, w, p, s) implies (
            #[trigger] cell(table@, t2, w, p, s)) is None by {
                assert(table@[t2] == tb[t2]);
                assert(cell(table@, t2, w, p, s) == cell(tb, t2, w, p, s));
            }
            assert forall|t2: int, w: int, p: int, s: int|
                0 <= t2 <= t + 1 && valid_ref(phones@, words@, w, p, s) implies ((#[trigger] cell(
                table@,
                t2,
                w,
                p,
                s,
            )) matches Some(v) ==> -8 * (t2 + 1) * SCORE_LIMIT <= v.log_prob <= 8 * (t2 + 1)
                * SCORE_LIMIT) by {
                if t2 <= t {
                    assert(table@[t2] == tb[t2]);
                    assert(cell(table@, t2, w, p, s) == cell(tb, t2, w, p, s));
                }
            }
        }
        t = t + 1;
    }
    table
}

/// Relaxes every outgoing edge of the reached source cell `(t, w, p, s)`
/// into frame `t + 1`.
#[verifier::loop_isolation(false)]
fn relax_from(
    phones: &Vec<Phone>,
    words: &Vec<Word>,
    transitions: &Transitions,
    obs: &Vec<Vec<Option<i64>>>,
    table: &mut Vec<Vec<Vec<Vec<Option<Value>>>>>,
    t: usize,
    w: usize,
    p: usize,
    s: usize,
)
    requires
        phones_wf(phones@),
        words_wf(phones@, words@),
        transitions_wf(phones@, words@, *transitions),
        obs_wf(phones@, *obs),
        old(table)@.len() <= MAX_FRAMES,
        t + 1 < old(table)@.len(),
        table_shape(phones@, words@, old(table)@, old(table)@.len() as int),
        valid_ref(phones@, words@, w as int, p as int, s as int),
        cell(old(table)@, t as int, w as int, p as int, s as int) is Some,
        -8 * (t + 1) * SCORE_LIMIT <= cell(
            old(table)@,
            t as int,
            w as int,
            p as int,
            s as int,
        ).unwrap().log_prob <= 8 * (t + 1) * SCORE_LIMIT,
    ensures
        final(table)@.len() == old(table)@.len(),
        table_shape(phones@, words@, final(table)@, old(table)@.len() as int),
        // every frame but `t + 1` is untouched
        forall|t2: int| 0 <= t2 < old(table)@.len() && t2 != t + 1 ==> #[trigger] final(table)@[t2]
            == old(table)@[t2],
        // relaxation only improves a cell
        forall|w2: int, p2: int, s2: int|
            valid_ref(phones@, words@, w2, p2, s2) ==> ((#[trigger] cell(
                old(table)@,
                t + 1,
                w2,
                p2,
                s2,
            )) matches Some(v) ==> cell(final(table)@, t + 1, w2, p2, s2) matches Some(nv)
                && nv.log_prob >= v.log_prob),
        // a cell is what it was, or carries one of this source's proposals
        forall|w2: int, p2: int, s2: int|
            valid_ref(phones@, words@, w2, p2, s2) ==> ((#[trigger] cell(
                final(table)@,
                t + 1,
                w2,
                p2,
                s2,
            )) matches Some(nv) ==> (cell(old(table)@, t + 1, w2, p2, s2) == Some(nv) || (
            exists|i: int|
                cand_ok(phones@, words@, *transitions, old(table)@, *obs, t as int, w as int,
                    p as int, s as int, i) && (#[trigger] transitions.from_state[w as int][
                p as int][s as int][i]).dest == (StateRef {
                    word: w2 as usize,
                    phone: p2 as usize,
                    state: s2 as usize,
                }) && cand_score(phones@, words@, *transitions, old(table)@, *obs, t as int,
                    w as int, p as int, s as int, i) == nv.log_prob && nv.prev == Some(
                    StateRef { word: w, phone: p, state: s },
                ) && nv.word_changed == transitions.from_state[w as int][p as int][s as int][
                    i
                ].to_next_word && (cell(old(table)@, t + 1, w2, p2, s2) is None || cell(
                    old(table)@,
                    t + 1,
                    w2,
                    p2,
                    s2,
                ).unwrap().log_prob < nv.log_prob) && (forall|j: int|
                    0 <= j < i && cand_ok(phones@, words@, *transitions, old(table)@, *obs,
                        t as int, w as int, p as int, s as int, j) && (
                    #[trigger] transitions.from_state[w as int][p as int][s as int][j]).dest == (
                    StateRef { word: w2 as usize, phone: p2 as usize, state: s2 as usize })
                        ==> cand_score(phones@, words@, *transitions, old(table)@, *obs, t as int,
                        w as int, p as int, s as int, j) < nv.log_prob)))),
        // every proposal of this source is now dominated
        forall|i: int|
            cand_ok(phones@, words@, *transitions, old(table)@, *obs, t as int, w as int, p as int,
                s as int, i) ==> {
                let dest = (#[trigger] transitions.from_state[w as int][p as int][s as int][
                    i
                ]).dest;
                cell(final(table)@, t + 1, dest.word as int, dest.phone as int, dest.state as int)
                    matches Some(nv) && nv.log_prob >= cand_score(phones@, words@, *transitions,
                    old(table)@, *obs, t as int, w as int, p as int, s as int, i)
            },
{
    let ghost t0 = old(table)@;
    let src_value = table[t][w][p][s].unwrap();
    let n_edges = transitions.from_state[w][p][s].len();
    let mut i: usize = 0;
    while i < n_edges
        invariant
            n_edges == transitions.from_state[w as int][p as int][s as int]@.len(),
            i <= n_edges,
            src_value == cell(t0, t as int, w as int, p as int, s as int).unwrap(),
            table@.len() == t0.len(),
            table_shape(phones@, words@, table@, t0.len() as int),
            forall|t2: int| 0 <= t2 < t0.len() && t2 != t + 1 ==> #[trigger] table@[t2] == t0[t2],
            forall|w2: int, p2: int, s2: int|
                valid_ref(phones@, words@, w2, p2, s2) ==> ((#[trigger] cell(
                    t0,
                    t + 1,
                    w2,
                    p2,
                    s2,
                )) matches Some(v) ==> cell(table@, t + 1, w2, p2, s2) matches Some(nv)
                    && nv.log_prob >= v.log_prob),
            forall|w2: int, p2: int, s2: int|
                valid_ref(phones@, words@, w2, p2, s2) ==> ((#[trigger] cell(
                    table@,
                    t + 1,
                    w2,
                    p2,
                    s2,
                )) matches Some(nv) ==> (cell(t0, t + 1, w2, p2, s2) == Some(nv) || (exists|j: int|
                    0 <= j < i && cand_ok(phones@, words@, *transitions, t0, *obs, t as int,
                        w as int, p as int, s as int, j) && (
                    #[trigger] transitions.from_state[w as int][p as int][s as int][j]).dest == (
                    StateRef { word: w2 as usize, phone: p2 as usize, state: s2 as usize })
                        && cand_score(phones@, words@, *transitions, t0, *obs, t as int, w as int,
                        p as int, s as int, j) == nv.log_prob && nv.prev == Some(
                        StateRef { word: w, phone: p, state: s },
                    ) && nv.word_changed == transitions.from_state[w as int][p as int][s as int][
                        j
                    ].to_next_word && (cell(t0, t + 1, w2, p2, s2) is None || cell(
                        t0,
                        t + 1,
                        w2,
                        p2,
                        s2,
                    ).unwrap().log_prob < nv.log_prob) && (forall|j2: int|
                        0 <= j2 < j && cand_ok(phones@, words@, *transitions, t0, *obs, t as int,
                            w as int, p as int, s as int, j2) && (
                        #[trigger] transitions.from_state[w as int][p as int][s as int][j2]).dest
                            == (StateRef {
                            word: w2 as usize,
                            phone: p2 as usize,
                            state: s2 as usize,
                        }) ==> cand_score(phones@, words@, *transitions, t0, *obs, t as int,
                            w as int, p as int, s as int, j2) < nv.log_prob)))),
            forall|j: int|
                0 <= j < i && cand_ok(phones@, words@, *transitions, t0, *obs, t as int, w as int,
                    p as int, s as int, j) ==> {
                    let dest = (#[trigger] transitions.from_state[w as int][p as int][s as int][
                        j
                    ]).dest;
                    cell(table@, t + 1, dest.word as int, dest.phone as int, dest.state as int)
                        matches Some(nv) && nv.log_prob >= cand_score(phones@, words@,
                        *transitions, t0, *obs, t as int, w as int, p as int, s as int, j)
                },
        decreases n_edges - i,
    {
        let e = transitions.from_state[w][p][s][i];
        proof {
            assert(crate::transition::edge_target_ok(phones@, words@, e));
            assert(words@[e.dest.word as int].wf(phones@, words@.len() as int));
        }
        let dest_phone_index = words[e.dest.word].phones[e.dest.phone];
        proof {
            assert(phones@[dest_phone_index as int].wf());
            assert(phones@[dest_phone_index as int].index == dest_phone_index);
            assert(word_phone(phones@, words@, e.dest.word as int, e.dest.phone as int)
                == phones@[dest_phone_index as int]);
        }
        let ghost tb = table@;
        match obs[dest_phone_index][e.dest.state] {
            Some(ov) => {
                proof {
                    assert(crate::obs_score_ok(ov));
                    assert(-5 * SCORE_LIMIT <= e.log_prob <= 0);
                }
                let score = src_value.log_prob + e.log_prob + ov;
                let new_value = Value {
                    log_prob: score,
                    prev: Some(StateRef { word: w, phone: p, state: s }),
                    word_changed: e.to_next_word,
                };
                let dw = e.dest.word;
                let dp = e.dest.phone;
                let ds = e.dest.state;
                let cell_ref: &mut Option<Value> = &mut table[t + 1][dw][dp][ds];
                consider_and_apply(new_value, cell_ref);
                proof {
                    assert(cand_ok(phones@, words@, *transitions, t0, *obs, t as int, w as int,
                        p as int, s as int, i as int));
                    assert(cand_score(phones@, words@, *transitions, t0, *obs, t as int, w as int,
                        p as int, s as int, i as int) == score);
                    assert forall|t2: int| 0 <= t2 < t0.len() && t2 != t + 1 implies
                    #[trigger] table@[t2] == t0[t2] by {
                        assert(table@[t2] == tb[t2]);
                    }
                    assert forall|w2: int, p2: int, s2: int|
                        valid_ref(phones@, words@, w2, p2, s2) && !(w2 == dw && p2 == dp && s2
                            == ds) implies #[trigger] cell(table@, t + 1, w2, p2, s2) == cell(
                        tb,
                        t + 1,
                        w2,
                        p2,
                        s2,
                    ) by {
                        if w2 == dw {
                            if p2 == dp {
                                assert(table@[t + 1][w2][p2]@ == tb[t + 1][w2][p2]@.update(
                                    ds as int,
                                    cell(table@, t + 1, dw as int, dp as int, ds as int),
                                ));
                            }
                        }
                    }
                    assert(cell(table@, t + 1, dw as int, dp as int, ds as int) == spec_relax(
                        cell(tb, t + 1, dw as int, dp as int, ds as int),
                        new_value,
                    ));
                }
            },
            None => {},
        }
        i = i + 1;
    }
}

/// Relaxes frame `t + 1` from every reached cell of frame `t`.
#[verifier::loop_isolation(false)]
#[verifier::rlimit(100)]
fn propagate(
    phones: &Vec<Phone>,
    words: &Vec<Word>,
    transitions: &Transitions,
    obs: &Vec<Vec<Option<i64>>>,
    table: &mut Vec<Vec<Vec<Vec<Option<Value>>>>>,
    t: usize,
)
    requires
        phones_wf(phones@),
        words_wf(phones@, words@),
        transitions_wf(phones@, words@, *transitions),
        obs_wf(phones@, *obs),
        old(table)@.len() <= MAX_FRAMES,
        t + 1 < old(table)@.len(),
        table_shape(phones@, words@, old(table)@, old(table)@.len() as int),
        forall|w: int, p: int, s: int|
            valid_ref(phones@, words@, w, p, s) ==> ((#[trigger] cell(
                old(table)@,
                t as int,
                w,
                p,
                s,
            )) matches Some(v) ==> -8 * (t + 1) * SCORE_LIMIT <= v.log_prob <= 8 * (t + 1)
                * SCORE_LIMIT),
        forall|w: int, p: int, s: int|
            valid_ref(phones@, words@, w, p, s) ==> (#[trigger] cell(
                old(table)@,
                t + 1,
                w,
                p,
                s,
            )) is None,
    ensures
        final(table)@.len() == old(table)@.len(),
        table_shape(phones@, words@, final(table)@, old(table)@.len() as int),
        forall|t2: int| 0 <= t2 < old(table)@.len() && t2 != t + 1 ==> #[trigger] final(table)@[t2]
            == old(table)@[t2],
        dp_step(phones@, words@, *transitions, final(table)@, *obs, t as int),
        forall|w: int, p: int, s: int|
            valid_ref(phones@, words@, w, p, s) ==> ((#[trigger] cell(
                final(table)@,
                t + 1,
                w,
                p,
                s,
            )) matches Some(v) ==> -8 * (t + 2) * SCORE_LIMIT <= v.log_prob <= 8 * (t + 2)
                * SCORE_LIMIT),
{
    let ghost g0 = old(table)@;
    let n_words = words.len();
    let mut w: usize = 0;
    while w < n_words
        invariant
            n_words == words@.len(),
            w <= n_words,
            table@.len() == g0.len(),
            table_shape(phones@, words@, table@, g0.len() as int),
            forall|t2: int| 0 <= t2 < g0.len() && t2 != t + 1 ==> #[trigger] table@[t2] == g0[t2],
            forall|w2: int, p2: int, s2: int|
                valid_ref(phones@, words@, w2, p2, s2) ==> ((#[trigger] cell(
                    table@,
                    t + 1,
                    w2,
                    p2,
                    s2,
                )) matches Some(nv) ==> exists|w3: int, p3: int, s3: int, i: int|
                    (w3 < w) && cand_ok(phones@, words@, *transitions, g0, *obs, t as int, w3, p3,
                        s3, i) && (#[trigger] transitions.from_state[w3][p3][s3][i]).dest == (
                    StateRef { word: w2 as usize, phone: p2 as usize, state: s2 as usize })
                        && cand_score(phones@, words@, *transitions, g0, *obs, t as int, w3, p3,
                        s3, i) == nv.log_prob && nv.prev == Some(
                        StateRef { word: w3 as usize, phone: p3 as usize, state: s3 as usize },
                    ) && nv.word_changed == transitions.from_state[w3][p3][s3][i].to_next_word && (forall|w4: int, p4: int, s4: int, i4: int|
                        cand_ok(phones@, words@, *transitions, g0, *obs, t as int, w4, p4, s4, i4)
                            && (#[trigger] transitions.from_state[w4][p4][s4][i4]).dest == (
                        StateRef { word: w2 as usize, phone: p2 as usize, state: s2 as usize })
                            && cand_before(w4, p4, s4, i4, w3, p3, s3, i) ==> cand_score(
                            phones@,
                            words@,
                            *transitions,
                            g0,
                            *obs,
                            t as int,
                            w4,
                            p4,
                            s4,
                            i4,
                        ) < nv.log_prob)),
            forall|w3: int, p3: int, s3: int, i: int|
                (w3 < w) && cand_ok(phones@, words@, *transitions, g0, *obs, t as int, w3, p3, s3,
                    i) ==> {
                    let dest = (#[trigger] transitions.from_state[w3][p3][s3][i]).dest;
                    cell(table@, t + 1, dest.word as int, dest.phone as int, dest.state as int)
                        matches Some(nv) && nv.log_prob >= cand_score(phones@, words@,
                        *transitions, g0, *obs, t as int, w3, p3, s3, i)
                },
        decreases n_words - w,
    {
        proof {
            assert(words@[w as int].wf(phones@, words@.len() as int));
        }
        let n_phones = words[w].phones.len();
        let mut p: usize = 0;
        while p < n_phones
            invariant
                w < n_words,
                n_phones == words@[w as int].phones@.len(),
                p <= n_phones,
                table@.len() == g0.len(),
                table_shape(phones@, words@, table@, g0.len() as int),
                forall|t2: int| 0 <= t2 < g0.len() && t2 != t + 1 ==> #[trigger] table@[t2]
                    == g0[t2],
                forall|w2: int, p2: int, s2: int|
                    valid_ref(phones@, words@, w2, p2, s2) ==> ((#[trigger] cell(
                        table@,
                        t + 1,
                        w2,
                        p2,
                        s2,
                    )) matches Some(nv) ==> exists|w3: int, p3: int, s3: int, i: int|
                        (w3 < w || (w3 == w && p3 < p)) && cand_ok(phones@, words@, *transitions,
                            g0, *obs, t as int, w3, p3, s3, i) && (
                        #[trigger] transitions.from_state[w3][p3][s3][i]).dest == (StateRef {
                            word: w2 as usize,
                            phone: p2 as usize,
                            state: s2 as usize,
                        }) && cand_score(phones@, words@, *transitions, g0, *obs, t as int, w3, p3,
                            s3, i) == nv.log_prob && nv.prev == Some(
                            StateRef { word: w3 as usize, phone: p3 as usize, state: s3 as usize },
                        ) && nv.word_changed == transitions.from_state[w3][p3][s3][
                            i
                        ].to_next_word && (forall|w4: int, p4: int, s4: int, i4: int|
                        cand_ok(phones@, words@, *transitions, g0, *obs, t as int, w4, p4, s4, i4)
                            && (#[trigger] transitions.from_state[w4][p4][s4][i4]).dest == (
                        StateRef { word: w2 as usize, phone: p2 as usize, state: s2 as usize })
                            && cand_before(w4, p4, s4, i4, w3, p3, s3, i) ==> cand_score(
                            phones@,
                            words@,
                            *transitions,
                            g0,
                            *obs,
                            t as int,
                            w4,
                            p4,
                            s4,
                            i4,
                        ) < nv.log_prob)),
                forall|w3: int, p3: int, s3: int, i: int|
                    (w3 < w || (w3 == w && p3 < p)) && cand_ok(phones@, words@, *transitions, g0,
                        *obs, t as int, w3, p3, s3, i) ==> {
                        let dest = (#[trigger] transitions.from_state[w3][p3][s3][i]).dest;
                        cell(table@, t + 1, dest.word as int, dest.phone as int, dest.state as int)
                            matches Some(nv) && nv.log_prob >= cand_score(phones@, words@,
                            *transitions, g0, *obs, t as int, w3, p3, s3, i)
                    },
            decreases n_phones - p,
        {
            proof {
                assert(words@[w as int].phones@[p as int] < phones@.len());
                assert(word_phone(phones@, words@, w as int, p as int).wf());
            }
            let n_states = phones[words[w].phones[p]].n_states;
            let mut s: usize = 0;
            while s < n_states
                invariant
                    w < n_words,
                    p < n_phones,
                    n_phones == words@[w as int].phones@.len(),
                    n_states == word_phone(phones@, words@, w as int, p as int).n_states,
                    s <= n_states,
                    table@.len() == g0.len(),
                    table_shape(phones@, words@, table@, g0.len() as int),
                    forall|t2: int| 0 <= t2 < g0.len() && t2 != t + 1 ==> #[trigger] table@[t2]
                        == g0[t2],
                    forall|w2: int, p2: int, s2: int|
                        valid_ref(phones@, words@, w2, p2, s2) ==> ((#[trigger] cell(
                            table@,
                            t + 1,
                            w2,
                            p2,
                            s2,
                        )) matches Some(nv) ==> exists|w3: int, p3: int, s3: int, i: int|
                            (w3 < w || (w3 == w && (p3 < p || (p3 == p && s3 < s)))) && cand_ok(
                                phones@, words@, *transitions, g0, *obs, t as int, w3, p3, s3, i)
                                && (#[trigger] transitions.from_state[w3][p3][s3][i]).dest == (
                            StateRef { word: w2 as usize, phone: p2 as usize, state: s2 as usize })
                                && cand_score(phones@, words@, *transitions, g0, *obs, t as int,
                                w3, p3, s3, i) == nv.log_prob && nv.prev == Some(
                                StateRef {
                                    word: w3 as usize,
                                    phone: p3 as usize,
                                    state: s3 as usize,
                                },
                            ) && nv.word_changed == transitions.from_state[w3][p3][s3][
                                i
                            ].to_next_word && (forall|w4: int, p4: int, s4: int, i4: int|
                        cand_ok(phones@, words@, *transitions, g0, *obs, t as int, w4, p4, s4, i4)
                            && (#[trigger] transitions.from_state[w4][p4][s4][i4]).dest == (
                        StateRef { word: w2 as usize, phone: p2 as usize, state: s2 as usize })
                            && cand_before(w4, p4, s4, i4, w3, p3, s3, i) ==> cand_score(
                            phones@,
                            words@,
                            *transitions,
                            g0,
                            *obs,
                            t as int,
                            w4,
                            p4,
                            s4,
                            i4,
                        ) < nv.log_prob)),
                    forall|w3: int, p3: int, s3: int, i: int|
                        (w3 < w || (w3 == w && (p3 < p || (p3 == p && s3 < s)))) && cand_ok(
                            phones@, words@, *transitions, g0, *obs, t as int, w3, p3, s3, i)
                            ==> {
                            let dest = (#[trigger] transitions.from_state[w3][p3][s3][i]).dest;
                            cell(table@, t + 1, dest.word as int, dest.phone as int,
                                dest.state as int) matches Some(nv) && nv.log_prob >= cand_score(
                                phones@, words@, *transitions, g0, *obs, t as int, w3, p3, s3, i)
                        },
                decreases n_states - s,
            {
                let src = table[t][w][p][s];
                proof {
                    assert(table@[t as int] == g0[t as int]);
                    assert(src == cell(g0, t as int, w as int, p as int, s as int));
                }
                match src {
                    Some(_) => {
                        relax_from(phones, words, transitions, obs, table, t, w, p, s);
                    },
                    None => {},
                }
                s = s + 1;
            }
            p = p + 1;
        }
        w = w + 1;
    }
    proof {
        assert forall|w2: int, p2: int, s2: int|
            valid_ref(phones@, words@, w2, p2, s2) implies {
            let c = #[trigger] cell(table@, t + 1, w2, p2, s2);
            &&& (c is Some <==> exists|w3: int, p3: int, s3: int, i: int|
                cand_ok(phones@, words@, *transitions, table@, *obs, t as int, w3, p3, s3, i) && (
                #[trigger] transitions.from_state[w3][p3][s3][i]).dest == (StateRef {
                    word: w2 as usize,
                    phone: p2 as usize,
                    state: s2 as usize,
                }))
            &&& (c matches Some(v) ==> (forall|w3: int, p3: int, s3: int, i: int|
                cand_ok(phones@, words@, *transitions, table@, *obs, t as int, w3, p3, s3, i) && (
                #[trigger] transitions.from_state[w3][p3][s3][i]).dest == (StateRef {
                    word: w2 as usize,
                    phone: p2 as usize,
                    state: s2 as usize,
                }) ==> cand_score(phones@, words@, *transitions, table@, *obs, t as int, w3, p3,
                    s3, i) <= v.log_prob))
            &&& (c matches Some(v) ==> (exists|w3: int, p3: int, s3: int, i: int|
                cand_ok(phones@, words@, *transitions, table@, *obs, t as int, w3, p3, s3, i) && (
                #[trigger] transitions.from_state[w3][p3][s3][i]).dest == (StateRef {
                    word: w2 as usize,
                    phone: p2 as usize,
                    state: s2 as usize,
                }) && cand_score(phones@, words@, *transitions, table@, *obs, t as int, w3, p3, s3,
                    i) == v.log_prob && v.prev == Some(
                    StateRef { word: w3 as usize, phone: p3 as usize, state: s3 as usize },
                ) && v.word_changed == transitions.from_state[w3][p3][s3][i].to_next_word && (
                forall|w4: int, p4: int, s4: int, i4: int|
                    cand_ok(phones@, words@, *transitions, table@, *obs, t as int, w4, p4, s4, i4)
                        && (#[trigger] transitions.from_state[w4][p4][s4][i4]).dest == (StateRef {
                        word: w2 as usize,
                        phone: p2 as usize,
                        state: s2 as usize,
                    }) && cand_before(w4, p4, s4, i4, w3, p3, s3, i) ==> cand_score(
                        phones@,
                        words@,
                        *transitions,
                        table@,
                        *obs,
                        t as int,
                        w4,
                        p4,
                        s4,
                        i4,
                    ) < v.log_prob)))
        } by {
            assert(table@[t as int] == g0[t as int]);
            let c = cell(table@, t + 1, w2, p2, s2);
            if c is Some {
                let (w3, p3, s3, i) = choose|w3: int, p3: int, s3: int, i: int|
                    (w3 < words@.len()) && cand_ok(phones@, words@, *transitions, g0, *obs,
                        t as int, w3, p3, s3, i) && (#[trigger] transitions.from_state[w3][p3][
                    s3][i]).dest == (StateRef {
                        word: w2 as usize,
                        phone: p2 as usize,
                        state: s2 as usize,
                    }) && cand_score(phones@, words@, *transitions, g0, *obs, t as int, w3, p3, s3,
                        i) == c.unwrap().log_prob && c.unwrap().prev == Some(
                        StateRef { word: w3 as usize, phone: p3 as usize, state: s3 as usize },
                    ) && c.unwrap().word_changed == transitions.from_state[w3][p3][s3][
                        i
                    ].to_next_word && (forall|w4: int, p4: int, s4: int, i4: int|
                        cand_ok(phones@, words@, *transitions, g0, *obs, t as int, w4, p4, s4, i4)
                            && (#[trigger] transitions.from_state[w4][p4][s4][i4]).dest == (
                        StateRef { word: w2 as usize, phone: p2 as usize, state: s2 as usize })
                            && cand_before(w4, p4, s4, i4, w3, p3, s3, i) ==> cand_score(
                            phones@,
                            words@,
                            *transitions,
                            g0,
                            *obs,
                            t as int,
                            w4,
                            p4,
                            s4,
                            i4,
                        ) < c.unwrap().log_prob);
                assert(cell(table@, t as int, w3, p3, s3) == cell(g0, t as int, w3, p3, s3));
                assert(cand_ok(phones@, words@, *transitions, table@, *obs, t as int, w3, p3, s3,
                    i));
                assert forall|w4: int, p4: int, s4: int, i4: int|
                    cand_ok(phones@, words@, *transitions, table@, *obs, t as int, w4, p4, s4, i4)
                        && (#[trigger] transitions.from_state[w4][p4][s4][i4]).dest == (StateRef {
                        word: w2 as usize,
                        phone: p2 as usize,
                        state: s2 as usize,
                    }) && cand_before(w4, p4, s4, i4, w3, p3, s3, i) implies cand_score(
                    phones@,
                    words@,
                    *transitions,
                    table@,
                    *obs,
                    t as int,
                    w4,
                    p4,
                    s4,
                    i4,
                ) < c.unwrap().log_prob by {
                    assert(cell(table@, t as int, w4, p4, s4) == cell(g0, t as int, w4, p4, s4));
                    assert(cand_ok(phones@, words@, *transitions, g0, *obs, t as int, w4, p4, s4,
                        i4));
                }
            }
            assert forall|w3: int, p3: int, s3: int, i: int|
                cand_ok(phones@, words@, *transitions, table@, *obs, t as int, w3, p3, s3, i) && (
                #[trigger] transitions.from_state[w3][p3][s3][i]).dest == (StateRef {
                    word: w2 as usize,
                    phone: p2 as usize,
                    state: s2 as usize,
                }) implies c is Some && cand_score(phones@, words@, *transitions, table@, *obs,
                t as int, w3, p3, s3, i) <= c.unwrap().log_prob by {
                assert(cell(table@, t as int, w3, p3, s3) == cell(g0, t as int, w3, p3, s3));
                assert(cand_ok(phones@, words@, *transitions, g0, *obs, t as int, w3, p3, s3, i));
                let dest = transitions.from_state[w3][p3][s3][i].dest;
                assert(cell(table@, t + 1, dest.word as int, dest.phone as int, dest.state as int)
                    matches Some(nv) && nv.log_prob >= cand_score(phones@, words@, *transitions,
                    g0, *obs, t as int, w3, p3, s3, i));
            }
        }
        assert forall|w2: int, p2: int, s2: int|
            valid_ref(phones@, words@, w2, p2, s2) implies ((#[trigger] cell(
            table@,
            t + 1,
            w2,
            p2,
            s2,
        )) matches Some(v) ==> -8 * (t + 2) * SCORE_LIMIT <= v.log_prob <= 8 * (t + 2)
            * SCORE_LIMIT) by {
            let c = cell(table@, t + 1, w2, p2, s2);
            if c is Some {
                let (w3, p3, s3, i) = choose|w3: int, p3: int, s3: int, i: int|
                    (w3 < words@.len()) && cand_ok(phones@, words@, *transitions, g0, *obs,
                        t as int, w3, p3, s3, i) && (#[trigger] transitions.from_state[w3][p3][
                    s3][i]).dest == (StateRef {
                        word: w2 as usize,
                        phone: p2 as usize,
                        state: s2 as usize,
                    }) && cand_score(phones@, words@, *transitions, g0, *obs, t as int, w3, p3, s3,
                        i) == c.unwrap().log_prob && c.unwrap().prev == Some(
                        StateRef { word: w3 as usize, phone: p3 as usize, state: s3 as usize },
                    ) && c.unwrap().word_changed == transitions.from_state[w3][p3][s3][
                        i
                    ].to_next_word;
                assert(crate::transition::edge_target_ok(phones@, words@, transitions.from_state[
                    w3][p3][s3][i]));
                assert(cell(g0, t as int, w3, p3, s3) matches Some(sv) ==> -8 * (t + 1)
                    * SCORE_LIMIT <= sv.log_prob <= 8 * (t + 1) * SCORE_LIMIT);
                assert(obs_at(phones@, words@, *obs, transitions.from_state[w3][p3][s3][i].dest)
                    matches Some(ov) ==> crate::obs_score_ok(ov));
            }
        }
    }
}

/// Allocates the table: `time_length` frames of unreached cells, shaped
/// like the unrolled network.
pub fn init_table(time_length: usize, phones: &Vec<Phone>, words: &Vec<Word>) -> (table: Vec<
    Vec<Vec<Vec<Option<Value>>>>,
>)
    requires
        phones_wf(phones@),
        words_wf(phones@, words@),
    ensures
        table_shape(phones@, words@, table@, time_length as int),
        forall|t: int, w: int, p: int, s: int|
            0 <= t < time_length && valid_ref(phones@, words@, w, p, s) ==> (#[trigger] cell(
                table@,
                t,
                w,
                p,
                s,
            )) is None,
{
    let mut table: Vec<Vec<Vec<Vec<Option<Value>>>>> = Vec::new();
    let mut t: usize = 0;
    while t < time_length
        invariant
            phones_wf(phones@),
            words_wf(phones@, words@),
            t <= time_length,
            table@.len() == t,
            forall|t2: int| 0 <= t2 < t ==> (#[trigger] table@[t2]).len() == words@.len(),
            forall|t2: int, w: int|
                0 <= t2 < t && 0 <= w < words@.len() ==> (#[trigger] table@[t2][w]).len()
                    == words@[w].phones@.len(),
            forall|t2: int, w: int, p: int|
                0 <= t2 < t && 0 <= w < words@.len() && 0 <= p < words@[w].phones@.len()
                    ==> (#[trigger] table@[t2][w][p]).len() == word_phone(
                    phones@,
                    words@,
                    w,
                    p,
                ).n_states,
            forall|t2: int, w: int, p: int, s: int|
                0 <= t2 < t && valid_ref(phones@, words@, w, p, s) ==> (#[trigger] cell(
                    table@,
                    t2,
                    w,
                    p,
                    s,
                )) is None,
        decreases time_length - t,
    {
        let mut layer: Vec<Vec<Vec<Option<Value>>>> = Vec::new();
        let mut w: usize = 0;
        while w < words.len()
            invariant
                phones_wf(phones@),
                words_wf(phones@, words@),
                w <= words@.len(),
                layer@.len() == w,
                forall|w2: int|
                    0 <= w2 < w ==> (#[trigger] layer@[w2]).len() == words@[w2].phones@.len(),
                forall|w2: int, p: int|
                    0 <= w2 < w && 0 <= p < words@[w2].phones@.len()
                        ==> (#[trigger] layer@[w2][p]).len() == word_phone(
                        phones@,
                        words@,
                        w2,
                        p,
                    ).n_states,
                forall|w2: int, p: int, s: int|
                    0 <= w2 < w && 0 <= p < words@[w2].phones@.len() && 0 <= s < word_phone(
                        phones@,
                        words@,
                        w2,
                        p,
                    ).n_states ==> (#[trigger] layer@[w2][p][s]) is None,
            decreases words@.len() - w,
        {
            proof {
                assert(words@[w as int].wf(phones@, words@.len() as int));
            }
            let n_phones = words[w].phones.len();
            let mut wv: Vec<Vec<Option<Value>>> = Vec::new();
            let mut p: usize = 0;
            while p < n_phones
                invariant
                    phones_wf(phones@),
                    words_wf(phones@, words@),
                    w < words@.len(),
                    n_phones == words@[w as int].phones@.len(),
                    p <= n_phones,
                    wv@.len() == p,
                    forall|p2: int|
                        0 <= p2 < p ==> (#[trigger] wv@[p2]).len() == word_phone(
                            phones@,
                            words@,
                            w as int,
                            p2,
                        ).n_states,
                    forall|p2: int, s: int|
                        0 <= p2 < p && 0 <= s < word_phone(phones@, words@, w as int, p2).n_states
                            ==> (#[trigger] wv@[p2][s]) is None,
                decreases n_phones - p,
            {
                proof {
                    assert(words@[w as int].phones@[p as int] < phones@.len());
                    assert(word_phone(phones@, words@, w as int, p as int).wf());
                }
                let n_states = phones[words[w].phones[p]].n_states;
                let mut pv: Vec<Option<Value>> = Vec::new();
                let mut s: usize = 0;
                while s < n_states
                    invariant
                        pv@.len() == s,
                        s <= n_states,
                        forall|s2: int| 0 <= s2 < s ==> (#[trigger] pv@[s2]) is None,
                    decreases n_states - s,
                {
                    pv.push(None);
                    s = s + 1;
                }
                wv.push(pv);
                p = p + 1;
            }
            layer.push(wv);
            w = w + 1;
        }
        let ghost glayer = layer@;
        let ghost gtable = table@;
        table.push(layer);
        proof {
            assert forall|t2: int, w: int, p: int, s: int|
                0 <= t2 < t + 1 && valid_ref(phones@, words@, w, p, s) implies (#[trigger] cell(
                table@,
                t2,
                w,
                p,
                s,
            )) is None by {
                if t2 < t {
                    assert(cell(gtable, t2, w, p, s) is None);
                    assert(table@[t2] == gtable[t2]);
                } else {
                    assert(table@[t2]@ == glayer);
                    assert(glayer[w][p][s] is None);
                }
            }
        }
        t = t + 1;
    }
    table
}

/// One frame of the table, shaped like the unrolled network.
pub open spec fn layer_shape(phones: Seq<Phone>, words: Seq<Word>, layer: Vec<Vec<Vec<Option<Value>>>>) -> bool {
    &&& layer.len() == words.len()
    &&& forall|w: int| 0 <= w < words.len() ==> (#[trigger] layer[w]).len() == words[w].phones.len()
    &&& forall|w: int, p: int|
        0 <= w < words.len() && 0 <= p < words[w].phones.len() ==> (#[trigger] layer[w][p]).len()
            == word_phone(phones, words, w, p).n_states
}

/// A cell of one frame.
pub open spec fn lcell(layer: Vec<Vec<Vec<Option<Value>>>>, w: int, p: int, s: int) -> Option<
    Value,
> {
    layer[w][p][s]
}

/// `(w, p, s)` comes strictly before `(w2, p2, s2)` in scan order.
pub open spec fn ref_before(w: int, p: int, s: int, w2: int, p2: int, s2: int) -> bool {
    w < w2 || (w == w2 && (p < p2 || (p == p2 && s < s2)))
}

/// Finds the reached cell of one frame with the greatest score; the
/// earliest such cell in scan order wins.  `None` when the frame holds no
/// reached cell.
#[verifier::loop_isolation(false)]
pub fn get_max(
    last_values: &Vec<Vec<Vec<Option<Value>>>>,
    phones: &Vec<Phone>,
    words: &Vec<Word>,
) -> (r: Option<StateRef>)
    requires
        phones_wf(phones@),
        words_wf(phones@, words@),
        layer_shape(phones@, words@, *last_values),
    ensures
        match r {
            None => forall|w: int, p: int, s: int|
                valid_ref(phones@, words@, w, p, s) ==> (#[trigger] lcell(
                    *last_values,
                    w,
                    p,
                    s,
                )) is None,
            Some(mr) => {
                &&& valid_ref(phones@, words@, mr.word as int, mr.phone as int, mr.state as int)
                &&& lcell(*last_values, mr.word as int, mr.phone as int, mr.state as int) is Some
                &&& forall|w: int, p: int, s: int|
                    valid_ref(phones@, words@, w, p, s) ==> ((#[trigger] lcell(
                        *last_values,
                        w,
                        p,
                        s,
                    )) matches Some(v) ==> v.log_prob <= lcell(
                        *last_values,
                        mr.word as int,
                        mr.phone as int,
                        mr.state as int,
                    ).unwrap().log_prob)
                &&& forall|w: int, p: int, s: int|
                    valid_ref(phones@, words@, w, p, s) && ref_before(
                        w,
                        p,
                        s,
                        mr.word as int,
                        mr.phone as int,
                        mr.state as int,
                    ) ==> ((#[trigger] lcell(*last_values, w, p, s)) matches Some(v) ==> v.log_prob
                        < lcell(
                        *last_values,
                        mr.word as int,
                        mr.phone as int,
                        mr.state as int,
                    ).unwrap().log_prob)
            },
        },
{
    let mut max: Option<Value> = None;
    let n_words = words.len();
    let mut w: usize = 0;
    while w < n_words
        invariant
            n_words == words@.len(),
            w <= n_words,
            match max {
                None => forall|w2: int, p2: int, s2: int|
                    valid_ref(phones@, words@, w2, p2, s2) && w2 < w ==> (#[trigger] lcell(
                        *last_values,
                        w2,
                        p2,
                        s2,
                    )) is None,
                Some(m) => {
                    &&& m.prev is Some
                    &&& valid_ref(phones@, words@, m.prev.unwrap().word as int,
                        m.prev.unwrap().phone as int, m.prev.unwrap().state as int)
                    &&& (m.prev.unwrap().word as int) < w
                    &&& lcell(*last_values, m.prev.unwrap().word as int,
                        m.prev.unwrap().phone as int, m.prev.unwrap().state as int) is Some
                    &&& lcell(*last_values, m.prev.unwrap().word as int,
                        m.prev.unwrap().phone as int, m.prev.unwrap().state as int)
                        .unwrap().log_prob == m.log_prob
                    &&& forall|w2: int, p2: int, s2: int|
                        valid_ref(phones@, words@, w2, p2, s2) && w2 < w ==> ((#[trigger] lcell(
                            *last_values,
                            w2,
                            p2,
                            s2,
                        )) matches Some(v) ==> v.log_prob <= m.log_prob)
                    &&& forall|w2: int, p2: int, s2: int|
                        valid_ref(phones@, words@, w2, p2, s2) && ref_before(
                            w2,
                            p2,
                            s2,
                            m.prev.unwrap().word as int,
                            m.prev.unwrap().phone as int,
                            m.prev.unwrap().state as int,
                        ) ==> ((#[trigger] lcell(*last_values, w2, p2, s2)) matches Some(v)
                            ==> v.log_prob < m.log_prob)
                },
            },
        decreases n_words - w,
    {
        proof {
            assert(words@[w as int].wf(phones@, words@.len() as int));
        }
        let n_phones = words[w].phones.len();
        let mut p: usize = 0;
        while p < n_phones
            invariant
                w < n_words,
                n_phones == words@[w as int].phones@.len(),
                p <= n_phones,
                match max {
                    None => forall|w2: int, p2: int, s2: int|
                        valid_ref(phones@, words@, w2, p2, s2) && (w2 < w || (w2 == w && p2 < p))
                            ==> (#[trigger] lcell(*last_values, w2, p2, s2)) is None,
                    Some(m) => {
                        &&& m.prev is Some
                        &&& valid_ref(phones@, words@, m.prev.unwrap().word as int,
                            m.prev.unwrap().phone as int, m.prev.unwrap().state as int)
                        &&& ref_before(m.prev.unwrap().word as int, m.prev.unwrap().phone as int,
                            m.prev.unwrap().state as int, w as int, p as int, 0)
                        &&& lcell(*last_values, m.prev.unwrap().word as int,
                            m.prev.unwrap().phone as int, m.prev.unwrap().state as int) is Some
                        &&& lcell(*last_values, m.prev.unwrap().word as int,
                            m.prev.unwrap().phone as int, m.prev.unwrap().state as int)
                            .unwrap().log_prob == m.log_prob
                        &&& forall|w2: int, p2: int, s2: int|
                            valid_ref(phones@, words@, w2, p2, s2) && (w2 < w || (w2 == w && p2
                                < p)) ==> ((#[trigger] lcell(*last_values, w2, p2, s2)) matches
                                Some(v) ==> v.log_prob <= m.log_prob)
                        &&& forall|w2: int, p2: int, s2: int|
                            valid_ref(phones@, words@, w2, p2, s2) && ref_before(
                                w2,
                                p2,
                                s2,
                                m.prev.unwrap().word as int,
                                m.prev.unwrap().phone as int,
                                m.prev.unwrap().state as int,
                            ) ==> ((#[trigger] lcell(*last_values, w2, p2, s2)) matches Some(v)
                                ==> v.log_prob < m.log_prob)
                    },
                },
            decreases n_phones - p,
        {
            proof {
                assert(words@[w as int].phones@[p as int] < phones@.len());
                assert(word_phone(phones@, words@, w as int, p as int).wf());
            }
            let n_states = phones[words[w].phones[p]].n_states;
            let mut s: usize = 0;
            while s < n_states
                invariant
                    w < n_words,
                    p < n_phones,
                    n_phones == words@[w as int].phones@.len(),
                    n_states == word_phone(phones@, words@, w as int, p as int).n_states,
                    s <= n_states,
                    match max {
                        None => forall|w2: int, p2: int, s2: int|
                            valid_ref(phones@, words@, w2, p2, s2) && ref_before(
                                w2,
                                p2,
                                s2,
                                w as int,
                                p as int,
                                s as int,
                            ) ==> (#[trigger] lcell(*last_values, w2, p2, s2)) is None,
                        Some(m) => {
                            &&& m.prev is Some
                            &&& valid_ref(phones@, words@, m.prev.unwrap().word as int,
                                m.prev.unwrap().phone as int, m.prev.unwrap().state as int)
                            &&& ref_before(m.prev.unwrap().word as int,
                                m.prev.unwrap().phone as int, m.prev.unwrap().state as int,
                                w as int, p as int, s as int)
                            &&& lcell(*last_values, m.prev.unwrap().word as int,
                                m.prev.unwrap().phone as int, m.prev.unwrap().state as int)
                                is Some
                            &&& lcell(*last_values, m.prev.unwrap().word as int,
                                m.prev.unwrap().phone as int, m.prev.unwrap().state as int)
                                .unwrap().log_prob == m.log_prob
                            &&& forall|w2: int, p2: int, s2: int|
                                valid_ref(phones@, words@, w2, p2, s2) && ref_before(
                                    w2,
                                    p2,
                                    s2,
                                    w as int,
                                    p as int,
                                    s as int,
                                ) ==> ((#[trigger] lcell(*last_values, w2, p2, s2)) matches Some(
                                v) ==> v.log_prob <= m.log_prob)
                            &&& forall|w2: int, p2: int, s2: int|
                                valid_ref(phones@, words@, w2, p2, s2) && ref_before(
                                    w2,
                                    p2,
                                    s2,
                                    m.prev.unwrap().word as int,
                                    m.prev.unwrap().phone as int,
                                    m.prev.unwrap().state as int,
                                ) ==> ((#[trigger] lcell(*last_values, w2, p2, s2)) matches Some(
                                v) ==> v.log_prob < m.log_prob)
                        },
                    },
                decreases n_states - s,
            {
                match last_values[w][p][s] {
                    Some(value) => {
                        consider_and_apply(
                            Value {
                                log_prob: value.log_prob,
                                prev: Some(StateRef { word: w, phone: p, state: s }),
                                word_changed: false,
                            },
                            &mut max,
                        );
                    },
                    None => {},
                }
                s = s + 1;
            }
            p = p + 1;
        }
        w = w + 1;
    }
    match max {
        Some(m) => m.prev,
        None => None,
    }
}

/// `(t, w, p, s)` addresses a cell of the table.
pub open spec fn cell_in(
    table: Seq<Vec<Vec<Vec<Option<Value>>>>>,
    t: int,
    w: int,
    p: int,
    s: int,
) -> bool {
    &&& 0 <= t < table.len()
    &&& 0 <= w < table[t].len()
    &&& 0 <= p < table[t][w].len()
    &&& 0 <= s < table[t][w][p].len()
}

/// Every back-pointer leads to a reached cell one frame earlier.
pub open spec fn back_wf(table: Seq<Vec<Vec<Vec<Option<Value>>>>>) -> bool {
    forall|t: int, w: int, p: int, s: int|
        cell_in(table, t, w, p, s) ==> ((#[trigger] cell(table, t, w, p, s)) matches Some(v) ==> (
        v.prev matches Some(pr) ==> t >= 1 && cell_in(
            table,
            t - 1,
            pr.word as int,
            pr.phone as int,
            pr.state as int,
        ) && cell(table, t - 1, pr.word as int, pr.phone as int, pr.state as int) is Some))
}

/// The word indices the back-pointer chain from `(t, w, p, s)` emits: one
/// word, the predecessor's, for every crossing of a word boundary.
pub open spec fn backtrace_spec(
    table: Seq<Vec<Vec<Vec<Option<Value>>>>>,
    t: int,
    w: int,
    p: int,
    s: int,
) -> Seq<usize>
    decreases t,
{
    if t >= 1 && cell(table, t, w, p, s) is Some && cell(table, t, w, p, s).unwrap().prev
        is Some {
        let v = cell(table, t, w, p, s).unwrap();
        let pr = v.prev.unwrap();
        backtrace_spec(table, t - 1, pr.word as int, pr.phone as int, pr.state as int) + (
        if v.word_changed {
            seq![pr.word]
        } else {
            seq![]
        })
    } else {
        seq![]
    }
}

/// Walks the back-pointer chain from the cell `(time, word, phone, state)`
/// and collects the emitted word indices in utterance order.
pub fn backtrace(
    time: usize,
    word: usize,
    phone: usize,
    state: usize,
    table: &Vec<Vec<Vec<Vec<Option<Value>>>>>,
) -> (r: Vec<usize>)
    requires
        back_wf(table@),
        cell_in(table@, time as int, word as int, phone as int, state as int),
        cell(table@, time as int, word as int, phone as int, state as int) is Some,
    ensures
        r@ == backtrace_spec(table@, time as int, word as int, phone as int, state as int),
    decreases time,
{
    let value = table[time][word][phone][state].unwrap();
    match value.prev {
        Some(pr) => {
            let mut seq = backtrace(time - 1, pr.word, pr.phone, pr.state, table);
            if value.word_changed {
                seq.push(pr.word);
            }
            proof {
                if value.word_changed {
                    assert(seq@ =~= backtrace_spec(
                        table@,
                        time - 1,
                        pr.word as int,
                        pr.phone as int,
                        pr.state as int,
                    ) + seq![pr.word]);
                } else {
                    assert(seq@ =~= backtrace_spec(
                        table@,
                        time - 1,
                        pr.word as int,
                        pr.phone as int,
                        pr.state as int,
                    ) + Seq::<usize>::empty());
                }
            }
            seq
        },
        None => Vec::new(),
    }
}

/// A fully filled table satisfies the back-pointer discipline.
pub proof fn lemma_dp_back_wf(
    phones: Seq<Phone>,
    words: Seq<Word>,
    tr: Transitions,
    observations: Seq<Vec<Vec<Option<i64>>>>,
    table: Seq<Vec<Vec<Vec<Option<Value>>>>>,
)
    requires
        dp_ok(phones, words, tr, observations, table),
    ensures
        back_wf(table),
{
    assert forall|t: int, w: int, p: int, s: int|
        cell_in(table, t, w, p, s) implies ((#[trigger] cell(table, t, w, p, s)) matches Some(v)
        ==> (v.prev matches Some(pr) ==> t >= 1 && cell_in(
        table,
        t - 1,
        pr.word as int,
        pr.phone as int,
        pr.state as int,
    ) && cell(table, t - 1, pr.word as int, pr.phone as int, pr.state as int) is Some)) by {
        assert(valid_ref(phones, words, w, p, s));
        if cell(table, t, w, p, s) is Some && cell(table, t, w, p, s).unwrap().prev is Some {
            let v = cell(table, t, w, p, s).unwrap();
            assert(t != 0) by {
                if t == 0 {
                    assert(cell(table, 0, w, p, s) == start_value(phones, words, w, p, s));
                }
            }
            assert(dp_step(phones, words, tr, table, observations[t - 1 + 1], t - 1));
            let (w3, p3, s3, i) = choose|w3: int, p3: int, s3: int, i: int|
                cand_ok(phones, words, tr, table, observations[t - 1 + 1], t - 1, w3, p3, s3, i)
                    && (#[trigger] tr.from_state[w3][p3][s3][i]).dest == (StateRef {
                    word: w as usize,
                    phone: p as usize,
                    state: s as usize,
                }) && cand_score(phones, words, tr, table, observations[t - 1 + 1], t - 1, w3, p3,
                    s3, i) == v.log_prob && v.prev == Some(
                    StateRef { word: w3 as usize, phone: p3 as usize, state: s3 as usize },
                ) && v.word_changed == tr.from_state[w3][p3][s3][i].to_next_word;
            assert(valid_ref(phones, words, w3, p3, s3));
            assert(cell(table, t - 1, w3, p3, s3) is Some);
        }
    }
}

/// Decodes one utterance: fills the table, selects the best final cell,
/// and backtraces to the emitted word-index sequence.  Fails on an empty
/// spectrogram, and when no final cell is reachable.
#[verifier::rlimit(100)]
pub fn run(
    observations: &Vec<Vec<Vec<Option<i64>>>>,
    phones: &Vec<Phone>,
    words: &Vec<Word>,
    transitions: &Transitions,
) -> (r: Result<Vec<usize>, DecodeError>)
    requires
        phones_wf(phones@),
        words_wf(phones@, words@),
        transitions_exact(phones@, words@, *transitions),
        transitions_wf(phones@, words@, *transitions),
        observations@.len() <= MAX_FRAMES,
        observations_wf(phones@, observations@),
    ensures
        (r == Err::<Vec<usize>, DecodeError>(DecodeError::EmptyInput)) <==> observations@.len() == 0,
        match r {
            Ok(seq) => exists|table: Vec<Vec<Vec<Vec<Option<Value>>>>>, mr: StateRef|
                #![trigger best_final_ref(phones@, words@, table@, observations@.len() - 1, mr)]
                {
                    &&& dp_ok(phones@, words@, *transitions, observations@, table@)
                    &&& best_final_ref(phones@, words@, table@, observations@.len() - 1, mr)
                    &&& seq@ == backtrace_spec(table@, observations@.len() - 1, mr.word as int,
                        mr.phone as int, mr.state as int)
                    &&& forall|i: int| 0 <= i < seq@.len() ==> (#[trigger] seq@[i]) < words@.len()
                },
            Err(e) => e == DecodeError::EmptyInput || (e == DecodeError::Unreachable
                && observations@.len() > 0 && exists|table: Vec<Vec<Vec<Vec<Option<Value>>>>>|
                #![trigger dp_ok(phones@, words@, *transitions, observations@, table@)]
                {
                    &&& dp_ok(phones@, words@, *transitions, observations@, table@)
                    &&& forall|w: int, p: int, s: int|
                        valid_ref(phones@, words@, w, p, s) ==> (#[trigger] cell(
                            table@,
                            observations@.len() - 1,
                            w,
                            p,
                            s,
                        )) is None
                }),
        },
{
    let time_length = observations.len();
    if time_length == 0 {
        return Err(DecodeError::EmptyInput);
    }
    let table = fill_table(observations, phones, words, transitions);
    proof {
        assert(layer_shape(phones@, words@, table@[time_length - 1]));
    }
    let max_ref = get_max(&table[time_length - 1], phones, words);
    match max_ref {
        None => {
            proof {
                assert forall|w: int, p: int, s: int|
                    valid_ref(phones@, words@, w, p, s) implies (#[trigger] cell(
                    table@,
                    observations@.len() - 1,
                    w,
                    p,
                    s,
                )) is None by {
                    assert(lcell(table@[time_length - 1], w, p, s) is None);
                }
            }
            Err(DecodeError::Unreachable)
        },
        Some(mr) => {
            proof {
                lemma_dp_back_wf(phones@, words@, *transitions, observations@, table@);
                assert(lcell(table@[time_length - 1], mr.word as int, mr.phone as int,
                    mr.state as int) is Some);
                assert(cell_in(table@, time_length - 1, mr.word as int, mr.phone as int,
                    mr.state as int));
            }
            let seq = backtrace(time_length - 1, mr.word, mr.phone, mr.state, &table);
            proof {
                lemma_backtrace_words_in_range(
                    phones@,
                    words@,
                    table@,
                    time_length as int,
                    time_length - 1,
                    mr.word as int,
                    mr.phone as int,
                    mr.state as int,
                );
                assert forall|w: int, p: int, s: int|
                    valid_ref(phones@, words@, w, p, s) implies #[trigger] cell(
                    table@,
                    observations@.len() - 1,
                    w,
                    p,
                    s,
                ) == lcell(table@[time_length - 1], w, p, s) by {}
                assert(best_final_ref(phones@, words@, table@, observations@.len() - 1, mr));
            }
            Ok(seq)
        },
    }
}

/// `mr` is the decoder's chosen final cell of frame `t`: reached, of
/// maximal score, and earliest in scan order among the maxima.
pub open spec fn best_final_ref(
    phones: Seq<Phone>,
    words: Seq<Word>,
    table: Seq<Vec<Vec<Vec<Option<Value>>>>>,
    t: int,
    mr: StateRef,
) -> bool {
    &&& valid_ref(phones, words, mr.word as int, mr.phone as int, mr.state as int)
    &&& cell(table, t, mr.word as int, mr.phone as int, mr.state as int) is Some
    &&& forall|w: int, p: int, s: int|
        valid_ref(phones, words, w, p, s) ==> ((#[trigger] cell(table, t, w, p, s)) matches Some(v)
            ==> v.log_prob <= cell(
            table,
            t,
            mr.word as int,
            mr.phone as int,
            mr.state as int,
        ).unwrap().log_prob)
    &&& forall|w: int, p: int, s: int|
        valid_ref(phones, words, w, p, s) && ref_before(
            w,
            p,
            s,
            mr.word as int,
            mr.phone as int,
            mr.state as int,
        ) ==> ((#[trigger] cell(table, t, w, p, s)) matches Some(v) ==> v.log_prob < cell(
            table,
            t,
            mr.word as int,
            mr.phone as int,
            mr.state as int,
        ).unwrap().log_prob)
}

/// Monotone relaxation: after propagation, a reached cell's score
/// dominates every incoming proposal, and some proposal attains it.
pub proof fn lemma_monotone_relaxation(
    phones: Seq<Phone>,
    words: Seq<Word>,
    tr: Transitions,
    observations: Seq<Vec<Vec<Option<i64>>>>,
    table: Seq<Vec<Vec<Vec<Option<Value>>>>>,
    t: int,
    w2: int,
    p2: int,
    s2: int,
)
    requires
        dp_ok(phones, words, tr, observations, table),
        1 <= t < observations.len(),
        valid_ref(phones, words, w2, p2, s2),
        cell(table, t, w2, p2, s2) is Some,
    ensures
        forall|w: int, p: int, s: int, i: int|
            cand_ok(phones, words, tr, table, observations[t], t - 1, w, p, s, i) && (
            #[trigger] tr.from_state[w][p][s][i]).dest == (StateRef {
                word: w2 as usize,
                phone: p2 as usize,
                state: s2 as usize,
            }) ==> cand_score(phones, words, tr, table, observations[t], t - 1, w, p, s, i)
                <= cell(table, t, w2, p2, s2).unwrap().log_prob,
        exists|w: int, p: int, s: int, i: int|
            cand_ok(phones, words, tr, table, observations[t], t - 1, w, p, s, i) && (
            #[trigger] tr.from_state[w][p][s][i]).dest == (StateRef {
                word: w2 as usize,
                phone: p2 as usize,
                state: s2 as usize,
            }) && cand_score(phones, words, tr, table, observations[t], t - 1, w, p, s, i) == cell(
                table,
                t,
                w2,
                p2,
                s2,
            ).unwrap().log_prob,
{
    assert(dp_step(phones, words, tr, table, observations[t - 1 + 1], t - 1));
    assert(observations[t - 1 + 1] == observations[t]);
    assert(cell(table, t - 1 + 1, w2, p2, s2) == cell(table, t, w2, p2, s2));
}

/// The unique outgoing edge of `pr` into `dest` whose boundary flag is
/// `flag`; one exists along any back-pointer chain of a filled table.
pub open spec fn trace_edge_index(tr: Transitions, pr: StateRef, dest: StateRef, flag: bool) -> int {
    choose|i: int|
        0 <= i < tr.from_state[pr.word as int][pr.phone as int][pr.state as int].len() && (
        #[trigger] tr.from_state[pr.word as int][pr.phone as int][pr.state as int][i]).dest == dest
            && tr.from_state[pr.word as int][pr.phone as int][pr.state as int][i].to_next_word
            == flag
}

/// The cumulative score of the path that the back-pointer chain from
/// `(t, w, p, s)` traces, recomputed from the edge weights and
/// observation scores alone: the start-edge weight of the chain's first
/// cell, plus one edge weight and one observation score per frame.
pub open spec fn path_score(
    phones: Seq<Phone>,
    words: Seq<Word>,
    tr: Transitions,
    observations: Seq<Vec<Vec<Option<i64>>>>,
    table: Seq<Vec<Vec<Vec<Option<Value>>>>>,
    t: int,
    w: int,
    p: int,
    s: int,
) -> int
    decreases t,
{
    if t >= 1 && cell(table, t, w, p, s) is Some && cell(table, t, w, p, s).unwrap().prev
        is Some {
        let v = cell(table, t, w, p, s).unwrap();
        let pr = v.prev.unwrap();
        let i = trace_edge_index(
            tr,
            pr,
            StateRef { word: w as usize, phone: p as usize, state: s as usize },
            v.word_changed,
        );
        let e = tr.from_state[pr.word as int][pr.phone as int][pr.state as int][i];
        path_score(phones, words, tr, observations, table, t - 1, pr.word as int, pr.phone as int,
            pr.state as int) + e.log_prob + obs_at(phones, words, observations[t], e.dest).unwrap()
    } else if t == 0 && cell(table, t, w, p, s) is Some {
        words[w].head_prob.unwrap() + word_phone(phones, words, w, 0).in_prob[s].unwrap()
            - crate::WORD_PENALTY
    } else {
        0
    }
}

/// Backtrace well-formedness: the score of the traced path, recomputed
/// independently from the compiled edge weights and the observation
/// scores, equals the reached cell's stored score.
pub proof fn lemma_backtrace_score(
    phones: Seq<Phone>,
    words: Seq<Word>,
    tr: Transitions,
    observations: Seq<Vec<Vec<Option<i64>>>>,
    table: Seq<Vec<Vec<Vec<Option<Value>>>>>,
    t: int,
    w: int,
    p: int,
    s: int,
)
    requires
        phones_wf(phones),
        words_wf(phones, words),
        transitions_exact(phones, words, tr),
        dp_ok(phones, words, tr, observations, table),
        0 <= t < observations.len(),
        valid_ref(phones, words, w, p, s),
        cell(table, t, w, p, s) is Some,
    ensures
        path_score(phones, words, tr, observations, table, t, w, p, s) == cell(
            table,
            t,
            w,
            p,
            s,
        ).unwrap().log_prob,
    decreases t,
{
    let v = cell(table, t, w, p, s).unwrap();
    if t == 0 {
        assert(cell(table, 0, w, p, s) == start_value(phones, words, w, p, s));
        assert(words[w].wf(phones, words.len() as int));
        assert(words[w].phones[0] < phones.len());
        assert(word_phone(phones, words, w, 0).wf());
        assert(crate::opt_score_ok(words[w].head_prob));
        assert(crate::opt_score_ok(word_phone(phones, words, w, 0).in_prob[s]));
    } else {
        assert(dp_step(phones, words, tr, table, observations[t - 1 + 1], t - 1));
        assert(cell(table, t - 1 + 1, w, p, s) == cell(table, t, w, p, s));
        let (w3, p3, s3, i) = choose|w3: int, p3: int, s3: int, i: int|
            cand_ok(phones, words, tr, table, observations[t - 1 + 1], t - 1, w3, p3, s3, i) && (
            #[trigger] tr.from_state[w3][p3][s3][i]).dest == (StateRef {
                word: w as usize,
                phone: p as usize,
                state: s as usize,
            }) && cand_score(phones, words, tr, table, observations[t - 1 + 1], t - 1, w3, p3, s3,
                i) == v.log_prob && v.prev == Some(
                StateRef { word: w3 as usize, phone: p3 as usize, state: s3 as usize },
            ) && v.word_changed == tr.from_state[w3][p3][s3][i].to_next_word;
        let pr = v.prev.unwrap();
        assert(pr.word == w3 && pr.phone == p3 && pr.state == s3);
        let dest = StateRef { word: w as usize, phone: p as usize, state: s as usize };
        let j = trace_edge_index(tr, pr, dest, v.word_changed);
        assert(0 <= j < tr.from_state[w3][p3][s3].len() && tr.from_state[w3][p3][s3][j].dest
            == dest && tr.from_state[w3][p3][s3][j].to_next_word == v.word_changed) by {
            assert(0 <= i < tr.from_state[w3][p3][s3].len() && tr.from_state[w3][p3][s3][i].dest
                == dest && tr.from_state[w3][p3][s3][i].to_next_word == v.word_changed);
        }
        assert(tr.from_state[w3][p3][s3][j] == tr.from_state[w3][p3][s3][i]) by {
            assert(cell_edges_exact_holds(phones, words, tr, w3, p3, s3));
            if i != j {
                assert(!(tr.from_state[w3][p3][s3]@[i].dest == tr.from_state[w3][p3][s3]@[j].dest
                    && tr.from_state[w3][p3][s3]@[i].to_next_word == tr.from_state[w3][p3][
                    s3]@[j].to_next_word));
            }
        }
        lemma_backtrace_score(phones, words, tr, observations, table, t - 1, w3, p3, s3);
        assert(observations[t - 1 + 1] == observations[t]);
    }
}

/// The exactness of one cell's compiled edge list, as the network
/// invariant states it.
pub open spec fn cell_edges_exact_holds(
    phones: Seq<Phone>,
    words: Seq<Word>,
    tr: Transitions,
    w: int,
    p: int,
    s: int,
) -> bool {
    crate::transition::cell_edges_exact(phones, words, w, p, s, tr.from_state[w][p][s]@)
}

/// Every word index the backtrace emits addresses a word of the lexicon.
pub proof fn lemma_backtrace_words_in_range(
    phones: Seq<Phone>,
    words: Seq<Word>,
    table: Seq<Vec<Vec<Vec<Option<Value>>>>>,
    n: int,
    t: int,
    w: int,
    p: int,
    s: int,
)
    requires
        table_shape(phones, words, table, n),
        back_wf(table),
        0 <= t < n,
        valid_ref(phones, words, w, p, s),
    ensures
        forall|i: int|
            0 <= i < backtrace_spec(table, t, w, p, s).len() ==> (#[trigger] backtrace_spec(
                table,
                t,
                w,
                p,
                s,
            )[i]) < words.len(),
    decreases t,
{
    if t >= 1 && cell(table, t, w, p, s) is Some && cell(table, t, w, p, s).unwrap().prev
        is Some {
        let pr = cell(table, t, w, p, s).unwrap().prev.unwrap();
        assert(cell_in(table, t, w, p, s));
        assert(cell_in(table, t - 1, pr.word as int, pr.phone as int, pr.state as int));
        assert(valid_ref(phones, words, pr.word as int, pr.phone as int, pr.state as int));
        lemma_backtrace_words_in_range(
            phones,
            words,
            table,
            n,
            t - 1,
            pr.word as int,
            pr.phone as int,
            pr.state as int,
        );
        let v = cell(table, t, w, p, s).unwrap();
        let head = backtrace_spec(table, t - 1, pr.word as int, pr.phone as int, pr.state as int);
        let bt = backtrace_spec(table, t, w, p, s);
        assert(bt == head + (if v.word_changed {
            seq![pr.word]
        } else {
            seq![]
        }));
        assert forall|i: int| 0 <= i < bt.len() implies (#[trigger] bt[i]) < words.len() by {
            if i < head.len() {
                assert(bt[i] == head[i]);
            } else {
                assert(v.word_changed && bt[i] == pr.word);
            }
        }
    }
}

/// Determinism of the dynamic program: the inputs pin the whole table, so
/// two tables filled from the same model and observations agree cell for
/// cell.
pub proof fn lemma_dp_unique(
    phones: Seq<Phone>,
    words: Seq<Word>,
    tr: Transitions,
    observations: Seq<Vec<Vec<Option<i64>>>>,
    ta: Seq<Vec<Vec<Vec<Option<Value>>>>>,
    tb: Seq<Vec<Vec<Vec<Option<Value>>>>>,
)
    requires
        dp_ok(phones, words, tr, observations, ta),
        dp_ok(phones, words, tr, observations, tb),
    ensures
        forall|t: int, w: int, p: int, s: int|
            0 <= t < observations.len() && valid_ref(phones, words, w, p, s)
                ==> #[trigger] cell(ta, t, w, p, s) == cell(tb, t, w, p, s),
{
    lemma_dp_unique_upto(phones, words, tr, observations, ta, tb, observations.len() as int);
}

proof fn lemma_dp_unique_upto(
    phones: Seq<Phone>,
    words: Seq<Word>,
    tr: Transitions,
    observations: Seq<Vec<Vec<Option<i64>>>>,
    ta: Seq<Vec<Vec<Vec<Option<Value>>>>>,
    tb: Seq<Vec<Vec<Vec<Option<Value>>>>>,
    n: int,
)
    requires
        dp_ok(phones, words, tr, observations, ta),
        dp_ok(phones, words, tr, observations, tb),
        n <= observations.len(),
    ensures
        forall|t: int, w: int, p: int, s: int|
            0 <= t < n && valid_ref(phones, words, w, p, s) ==> #[trigger] cell(ta, t, w, p, s)
                == cell(tb, t, w, p, s),
    decreases n,
{
    if n <= 0 {
        return ;
    }
    lemma_dp_unique_upto(phones, words, tr, observations, ta, tb, n - 1);
    let t = n - 1;
    assert forall|w2: int, p2: int, s2: int|
        valid_ref(phones, words, w2, p2, s2) implies #[trigger] cell(ta, t, w2, p2, s2) == cell(
        tb,
        t,
        w2,
        p2,
        s2,
    ) by {
        if t == 0 {
            assert(cell(ta, 0, w2, p2, s2) == start_value(phones, words, w2, p2, s2));
            assert(cell(tb, 0, w2, p2, s2) == start_value(phones, words, w2, p2, s2));
        } else {
            let obs = observations[t - 1 + 1];
            assert(dp_step(phones, words, tr, ta, obs, t - 1));
            assert(dp_step(phones, words, tr, tb, obs, t - 1));
            // the two tables propose the same candidates, since their
            // previous frames agree
            assert forall|w3: int, p3: int, s3: int, i: int|
                #![trigger tr.from_state[w3][p3][s3][i]]
                valid_ref(phones, words, w3, p3, s3) implies cell(ta, t - 1, w3, p3, s3) == cell(
                tb,
                t - 1,
                w3,
                p3,
                s3,
            ) by {}
            let ca = cell(ta, t - 1 + 1, w2, p2, s2);
            let cb = cell(tb, t - 1 + 1, w2, p2, s2);
            let dest = StateRef { word: w2 as usize, phone: p2 as usize, state: s2 as usize };
            if ca is Some {
                let (w3, p3, s3, i) = choose|w3: int, p3: int, s3: int, i: int|
                    cand_ok(phones, words, tr, ta, obs, t - 1, w3, p3, s3, i) && (
                    #[trigger] tr.from_state[w3][p3][s3][i]).dest == dest;
                assert(cell(ta, t - 1, w3, p3, s3) == cell(tb, t - 1, w3, p3, s3));
                assert(cand_ok(phones, words, tr, tb, obs, t - 1, w3, p3, s3, i));
                assert(cb is Some);
            }
            if cb is Some {
                let (w3, p3, s3, i) = choose|w3: int, p3: int, s3: int, i: int|
                    cand_ok(phones, words, tr, tb, obs, t - 1, w3, p3, s3, i) && (
                    #[trigger] tr.from_state[w3][p3][s3][i]).dest == dest;
                assert(cell(ta, t - 1, w3, p3, s3) == cell(tb, t - 1, w3, p3, s3));
                assert(cand_ok(phones, words, tr, ta, obs, t - 1, w3, p3, s3, i));
                assert(ca is Some);
            }
            if ca is Some && cb is Some {
                let va = ca.unwrap();
                let vb = cb.unwrap();
                let (wa, pa, sa, ia) = choose|w3: int, p3: int, s3: int, i: int|
                    cand_ok(phones, words, tr, ta, obs, t - 1, w3, p3, s3, i) && (
                    #[trigger] tr.from_state[w3][p3][s3][i]).dest == dest && cand_score(
                        phones,
                        words,
                        tr,
                        ta,
                        obs,
                        t - 1,
                        w3,
                        p3,
                        s3,
                        i,
                    ) == va.log_prob && va.prev == Some(
                        StateRef { word: w3 as usize, phone: p3 as usize, state: s3 as usize },
                    ) && va.word_changed == tr.from_state[w3][p3][s3][i].to_next_word && (forall|
                        w4: int,
                        p4: int,
                        s4: int,
                        i4: int,
                    |
                        cand_ok(phones, words, tr, ta, obs, t - 1, w4, p4, s4, i4) && (
                        #[trigger] tr.from_state[w4][p4][s4][i4]).dest == dest && cand_before(
                            w4,
                            p4,
                            s4,
                            i4,
                            w3,
                            p3,
                            s3,
                            i,
                        ) ==> cand_score(phones, words, tr, ta, obs, t - 1, w4, p4, s4, i4)
                            < va.log_prob);
                let (wb, pb, sb, ib) = choose|w3: int, p3: int, s3: int, i: int|
                    cand_ok(phones, words, tr, tb, obs, t - 1, w3, p3, s3, i) && (
                    #[trigger] tr.from_state[w3][p3][s3][i]).dest == dest && cand_score(
                        phones,
                        words,
                        tr,
                        tb,
                        obs,
                        t - 1,
                        w3,
                        p3,
                        s3,
                        i,
                    ) == vb.log_prob && vb.prev == Some(
                        StateRef { word: w3 as usize, phone: p3 as usize, state: s3 as usize },
                    ) && vb.word_changed == tr.from_state[w3][p3][s3][i].to_next_word && (forall|
                        w4: int,
                        p4: int,
                        s4: int,
                        i4: int,
                    |
                        cand_ok(phones, words, tr, tb, obs, t - 1, w4, p4, s4, i4) && (
                        #[trigger] tr.from_state[w4][p4][s4][i4]).dest == dest && cand_before(
                            w4,
                            p4,
                            s4,
                            i4,
                            w3,
                            p3,
                            s3,
                            i,
                        ) ==> cand_score(phones, words, tr, tb, obs, t - 1, w4, p4, s4, i4)
                            < vb.log_prob);
                // the two witnesses see each other across the tables
                assert(cell(ta, t - 1, wa, pa, sa) == cell(tb, t - 1, wa, pa, sa));
                assert(cell(ta, t - 1, wb, pb, sb) == cell(tb, t - 1, wb, pb, sb));
                assert(cand_ok(phones, words, tr, tb, obs, t - 1, wa, pa, sa, ia));
                assert(cand_ok(phones, words, tr, ta, obs, t - 1, wb, pb, sb, ib));
                // both scores are the common maximum
                assert(cand_score(phones, words, tr, tb, obs, t - 1, wa, pa, sa, ia)
                    == va.log_prob);
                assert(cand_score(phones, words, tr, ta, obs, t - 1, wb, pb, sb, ib)
                    == vb.log_prob);
                assert(va.log_prob == vb.log_prob);
                // neither witness comes before the other, so they are one
                if cand_before(wa, pa, sa, ia, wb, pb, sb, ib) {
                    assert(cand_score(phones, words, tr, tb, obs, t - 1, wa, pa, sa, ia)
                        < vb.log_prob);
                    assert(false);
                }
                if cand_before(wb, pb, sb, ib, wa, pa, sa, ia) {
                    assert(cand_score(phones, words, tr, ta, obs, t - 1, wb, pb, sb, ib)
                        < va.log_prob);
                    assert(false);
                }
                assert(wa == wb && pa == pb && sa == sb && ia == ib);
                assert(va == vb);
            }
        }
    }
}

/// The backtrace reads cells alone, so tables that agree cell for cell
/// trace the same word sequence.
pub proof fn lemma_backtrace_unique(
    phones: Seq<Phone>,
    words: Seq<Word>,
    ta: Seq<Vec<Vec<Vec<Option<Value>>>>>,
    tb: Seq<Vec<Vec<Vec<Option<Value>>>>>,
    n: int,
    t: int,
    w: int,
    p: int,
    s: int,
)
    requires
        table_shape(phones, words, ta, n),
        back_wf(ta),
        0 <= t < n,
        valid_ref(phones, words, w, p, s),
        forall|t2: int, w2: int, p2: int, s2: int|
            0 <= t2 < n && valid_ref(phones, words, w2, p2, s2) ==> #[trigger] cell(
                ta,
                t2,
                w2,
                p2,
                s2,
            ) == cell(tb, t2, w2, p2, s2),
    ensures
        backtrace_spec(ta, t, w, p, s) == backtrace_spec(tb, t, w, p, s),
    decreases t,
{
    assert(cell(ta, t, w, p, s) == cell(tb, t, w, p, s));
    if t >= 1 && cell(ta, t, w, p, s) is Some && cell(ta, t, w, p, s).unwrap().prev is Some {
        let pr = cell(ta, t, w, p, s).unwrap().prev.unwrap();
        assert(cell_in(ta, t, w, p, s));
        assert(cell_in(ta, t - 1, pr.word as int, pr.phone as int, pr.state as int));
        assert(valid_ref(phones, words, pr.word as int, pr.phone as int, pr.state as int));
        lemma_backtrace_unique(
            phones,
            words,
            ta,
            tb,
            n,
            t - 1,
            pr.word as int,
            pr.phone as int,
            pr.state as int,
        );
    }
}

/// Determinism end to end: two decodes of the same model and observations
/// select the same final cell and trace the same transcript.
pub proof fn lemma_run_deterministic(
    phones: Seq<Phone>,
    words: Seq<Word>,
    tr: Transitions,
    observations: Seq<Vec<Vec<Option<i64>>>>,
    ta: Seq<Vec<Vec<Vec<Option<Value>>>>>,
    tb: Seq<Vec<Vec<Vec<Option<Value>>>>>,
    ma: StateRef,
    mb: StateRef,
)
    requires
        dp_ok(phones, words, tr, observations, ta),
        dp_ok(phones, words, tr, observations, tb),
        observations.len() >= 1,
        best_final_ref(phones, words, ta, observations.len() - 1, ma),
        best_final_ref(phones, words, tb, observations.len() - 1, mb),
    ensures
        ma == mb,
        backtrace_spec(ta, observations.len() - 1, ma.word as int, ma.phone as int, ma.state as int)
            == backtrace_spec(
            tb,
            observations.len() - 1,
            mb.word as int,
            mb.phone as int,
            mb.state as int,
        ),
{
    lemma_dp_unique(phones, words, tr, observations, ta, tb);
    let t = observations.len() - 1;
    assert(cell(ta, t, ma.word as int, ma.phone as int, ma.state as int) == cell(
        tb,
        t,
        ma.word as int,
        ma.phone as int,
        ma.state as int,
    ));
    assert(cell(ta, t, mb.word as int, mb.phone as int, mb.state as int) == cell(
        tb,
        t,
        mb.word as int,
        mb.phone as int,
        mb.state as int,
    ));
    let va = cell(ta, t, ma.word as int, ma.phone as int, ma.state as int).unwrap();
    let vb = cell(tb, t, mb.word as int, mb.phone as int, mb.state as int).unwrap();
    assert(va.log_prob <= vb.log_prob);
    assert(vb.log_prob <= va.log_prob);
    if ref_before(ma.word as int, ma.phone as int, ma.state as int, mb.word as int,
        mb.phone as int, mb.state as int) {
        assert(va.log_prob < vb.log_prob);
        assert(false);
    }
    if ref_before(mb.word as int, mb.phone as int, mb.state as int, ma.word as int,
        ma.phone as int, ma.state as int) {
        assert(vb.log_prob < va.log_prob);
        assert(false);
    }
    assert(ma == mb);
    lemma_dp_back_wf(phones, words, tr, observations, ta);
    lemma_backtrace_unique(
        phones,
        words,
        ta,
        tb,
        observations.len() as int,
        t,
        ma.word as int,
        ma.phone as int,
        ma.state as int,
    );
}

} // verus!
