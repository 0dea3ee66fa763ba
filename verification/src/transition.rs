use vstd::prelude::*;
use crate::{SCORE_LIMIT, WORD_PENALTY};
use crate::phone::{phones_wf, Phone};
use crate::word::{words_wf, Word};

verus! {

/// One HMM state of the unrolled network: word, phone position within the
/// word, state within the phone.
#[derive(Clone, Copy, PartialEq, Eq, Structural, Debug)]
pub struct StateRef {
    pub word: usize,
    pub phone: usize,
    pub state: usize,
}

/// One compiled edge: destination, precomputed log-domain weight, and
/// whether the edge crosses a word boundary.
#[derive(Clone, Copy, PartialEq, Eq, Structural, Debug)]
pub struct Transition {
    pub log_prob: i64,
    pub dest: StateRef,
    pub to_next_word: bool,
}

/// The compiled network: entry edges from the virtual start, and the
/// outgoing edges of every `(word, phone, state)` triple.
pub struct Transitions {
    pub from_start: Vec<Transition>,
    pub from_state: Vec<Vec<Vec<Vec<Transition>>>>,
}

/// The phone standing at position `p` of word `w`.
pub open spec fn word_phone(phones: Seq<Phone>, words: Seq<Word>, w: int, p: int) -> Phone {
    phones[words[w].phones[p] as int]
}

/// An entry edge from the virtual start: into the first phone of a word
/// whose head score and entry score are both nonzero, weighted by their
/// sum less the word penalty.
pub open spec fn is_start_edge(phones: Seq<Phone>, words: Seq<Word>, e: Transition) -> bool {
    let first = word_phone(phones, words, e.dest.word as int, 0);
    let d = e.dest.state as int;
    &&& e.dest.word < words.len()
    &&& e.dest.phone == 0
    &&& e.dest.state < first.n_states
    &&& words[e.dest.word as int].head_prob is Some
    &&& first.in_prob[d] is Some
    &&& e.log_prob == words[e.dest.word as int].head_prob.unwrap() + first.in_prob[d].unwrap()
        - WORD_PENALTY
    &&& e.to_next_word == false
}

/// An edge between two emitting states of one phone.
pub open spec fn is_self_edge(
    phones: Seq<Phone>,
    words: Seq<Word>,
    w: int,
    p: int,
    s: int,
    e: Transition,
) -> bool {
    let ph = word_phone(phones, words, w, p);
    &&& e.dest.word == w
    &&& e.dest.phone == p
    &&& e.dest.state < ph.n_states
    &&& ph.trans_prob[s][e.dest.state as int] is Some
    &&& e.log_prob == ph.trans_prob[s][e.dest.state as int].unwrap()
    &&& e.to_next_word == false
}

/// An edge from one phone's exit into the next phone of the same word.
pub open spec fn is_next_phone_edge(
    phones: Seq<Phone>,
    words: Seq<Word>,
    w: int,
    p: int,
    s: int,
    e: Transition,
) -> bool {
    let ph = word_phone(phones, words, w, p);
    let next = word_phone(phones, words, w, p + 1);
    &&& p + 1 < words[w].phones.len()
    &&& e.dest.word == w
    &&& e.dest.phone == p + 1
    &&& e.dest.state < next.n_states
    &&& ph.out_prob[s] is Some
    &&& next.in_prob[e.dest.state as int] is Some
    &&& e.log_prob == ph.out_prob[s].unwrap() + next.in_prob[e.dest.state as int].unwrap()
    &&& e.to_next_word == false
}

/// An edge from the last phone of a word into the first phone of a next
/// word, weighted by exit, bigram and entry scores less the word penalty.
pub open spec fn is_cross_word_edge(
    phones: Seq<Phone>,
    words: Seq<Word>,
    w: int,
    p: int,
    s: int,
    e: Transition,
) -> bool {
    let ph = word_phone(phones, words, w, p);
    let first = word_phone(phones, words, e.dest.word as int, 0);
    let nw = e.dest.word as int;
    let d = e.dest.state as int;
    &&& p == words[w].phones.len() - 1
    &&& e.dest.word < words.len()
    &&& e.dest.phone == 0
    &&& e.dest.state < first.n_states
    &&& ph.out_prob[s] is Some
    &&& words[w].next_word_prob[nw] is Some
    &&& first.in_prob[d] is Some
    &&& e.log_prob == ph.out_prob[s].unwrap() + words[w].next_word_prob[nw].unwrap()
        + first.in_prob[d].unwrap() - WORD_PENALTY
    &&& e.to_next_word == true
}

/// An edge that bypasses a trailing short-pause phone: from the phone
/// before it straight into a next word's first phone, weighted by exit,
/// skip, bigram and entry scores less the word penalty.
pub open spec fn is_skip_edge(
    phones: Seq<Phone>,
    words: Seq<Word>,
    w: int,
    p: int,
    s: int,
    e: Transition,
) -> bool {
    let ph = word_phone(phones, words, w, p);
    let sp = word_phone(phones, words, w, p + 1);
    let first = word_phone(phones, words, e.dest.word as int, 0);
    &&& words[w].phones.len() >= 2
    &&& p == words[w].phones.len() - 2
    &&& sp.spec_is_sp()
    &&& e.dest.word < words.len()
    &&& e.dest.phone == 0
    &&& e.dest.state < first.n_states
    &&& ph.out_prob[s] is Some
    &&& sp.skip_prob is Some
    &&& words[w].next_word_prob[e.dest.word as int] is Some
    &&& first.in_prob[e.dest.state as int] is Some
    &&& e.log_prob == ph.out_prob[s].unwrap() + sp.skip_prob.unwrap() + words[w].next_word_prob[
        e.dest.word as int
    ].unwrap() + first.in_prob[e.dest.state as int].unwrap() - WORD_PENALTY
    &&& e.to_next_word == true
}

/// An outgoing edge of the cell `(w, p, s)`: one of the four edge kinds.
pub open spec fn is_cell_edge(
    phones: Seq<Phone>,
    words: Seq<Word>,
    w: int,
    p: int,
    s: int,
    e: Transition,
) -> bool {
    ||| is_self_edge(phones, words, w, p, s, e)
    ||| is_next_phone_edge(phones, words, w, p, s, e)
    ||| is_cross_word_edge(phones, words, w, p, s, e)
    ||| is_skip_edge(phones, words, w, p, s, e)
}

/// `es` holds exactly the entry edges, one per eligible `(word, state)`.
pub open spec fn start_edges_exact(phones: Seq<Phone>, words: Seq<Word>, es: Seq<Transition>) -> bool {
    &&& forall|i: int| 0 <= i < es.len() ==> is_start_edge(phones, words, #[trigger] es[i])
    &&& forall|e: Transition| is_start_edge(phones, words, e) ==> #[trigger] es.contains(e)
    &&& forall|i: int, j: int|
        0 <= i < j < es.len() ==> (#[trigger] es[i]).dest != (#[trigger] es[j]).dest
}

/// `es` holds exactly the outgoing edges of the cell `(w, p, s)`, one per
/// destination and boundary flag.
pub open spec fn cell_edges_exact(
    phones: Seq<Phone>,
    words: Seq<Word>,
    w: int,
    p: int,
    s: int,
    es: Seq<Transition>,
) -> bool {
    &&& forall|i: int| 0 <= i < es.len() ==> is_cell_edge(phones, words, w, p, s, #[trigger] es[i])
    &&& forall|e: Transition| is_cell_edge(phones, words, w, p, s, e) ==> #[trigger] es.contains(e)
    &&& forall|i: int, j: int|
        0 <= i < j < es.len() ==> !((#[trigger] es[i]).dest == (#[trigger] es[j]).dest
            && es[i].to_next_word == es[j].to_next_word)
}

/// The compiled network is exactly what the model prescribes.
pub open spec fn transitions_exact(phones: Seq<Phone>, words: Seq<Word>, t: Transitions) -> bool {
    &&& start_edges_exact(phones, words, t.from_start@)
    &&& t.from_state.len() == words.len()
    &&& forall|w: int|
        0 <= w < words.len() ==> (#[trigger] t.from_state[w]).len() == words[w].phones.len()
    &&& forall|w: int, p: int|
        0 <= w < words.len() && 0 <= p < words[w].phones.len()
            ==> (#[trigger] t.from_state[w][p]).len() == word_phone(phones, words, w, p).n_states
    &&& forall|w: int, p: int, s: int|
        0 <= w < words.len() && 0 <= p < words[w].phones.len() && 0 <= s < word_phone(
            phones,
            words,
            w,
            p,
        ).n_states ==> cell_edges_exact(phones, words, w, p, s, (#[trigger] t.from_state[w][p][s])@)
}

/// An edge whose destination is addressable and whose weight is bounded.
pub open spec fn edge_target_ok(phones: Seq<Phone>, words: Seq<Word>, e: Transition) -> bool {
    &&& e.dest.word < words.len()
    &&& e.dest.phone < words[e.dest.word as int].phones.len()
    &&& e.dest.state < word_phone(phones, words, e.dest.word as int, e.dest.phone as int).n_states
    &&& -5 * SCORE_LIMIT <= e.log_prob <= 0
}

/// What the search needs of a compiled network: the right shape, and every
/// edge addressable and bounded.
pub open spec fn transitions_wf(phones: Seq<Phone>, words: Seq<Word>, t: Transitions) -> bool {
    &&& t.from_state.len() == words.len()
    &&& forall|w: int|
        0 <= w < words.len() ==> (#[trigger] t.from_state[w]).len() == words[w].phones.len()
    &&& forall|w: int, p: int|
        0 <= w < words.len() && 0 <= p < words[w].phones.len()
            ==> (#[trigger] t.from_state[w][p]).len() == word_phone(phones, words, w, p).n_states
    &&& forall|i: int|
        0 <= i < t.from_start.len() ==> edge_target_ok(phones, words, #[trigger] t.from_start[i])
    &&& forall|w: int, p: int, s: int, i: int|
        0 <= w < words.len() && 0 <= p < words[w].phones.len() && 0 <= s < word_phone(
            phones,
            words,
            w,
            p,
        ).n_states && 0 <= i < t.from_state[w][p][s].len() ==> edge_target_ok(
            phones,
            words,
            #[trigger] t.from_state[w][p][s][i],
        )
}

/// Compiles the outgoing edges of the cell `(w, p, s)`, in the order:
/// intra-phone edges, next-phone edges, then cross-word or short-pause
/// skip edges, each ordered by destination.
fn build_cell(phones: &Vec<Phone>, words: &Vec<Word>, w: usize, p: usize, s: usize) -> (es: Vec<
    Transition,
>)
    requires
        phones_wf(phones@),
        words_wf(phones@, words@),
        w < words@.len(),
        p < words@[w as int].phones@.len(),
        s < word_phone(phones@, words@, w as int, p as int).n_states,
    ensures
        cell_edges_exact(phones@, words@, w as int, p as int, s as int, es@),
{
    let ghost wi = w as int;
    let ghost pi = p as int;
    let ghost si = s as int;
    let ghost gph = word_phone(phones@, words@, wi, pi);
    let mut es: Vec<Transition> = Vec::new();
    let word = &words[w];
    let n_phones = word.phones.len();
    let ph_idx = word.phones[p];
    let ph = &phones[ph_idx];
    proof {
        assert(words@[wi].wf(phones@, words@.len() as int));
        assert(*ph == gph);
        assert(gph.wf());
    }

    // edges between the emitting states of this phone
    let mut d: usize = 0;
    while d < ph.n_states
        invariant
            phones_wf(phones@),
            words_wf(phones@, words@),
            wi == w as int && pi == p as int && si == s as int,
            w < words@.len(),
            p < words@[wi].phones@.len(),
            s < gph.n_states,
            gph == word_phone(phones@, words@, wi, pi),
            *ph == gph,
            gph.wf(),
            d <= gph.n_states,
            forall|i: int|
                0 <= i < es@.len() ==> is_self_edge(phones@, words@, wi, pi, si, #[trigger] es@[i])
                    && es@[i].dest.state < d,
            forall|e: Transition|
                is_self_edge(phones@, words@, wi, pi, si, e) && e.dest.state < d
                    ==> #[trigger] es@.contains(e),
            forall|i: int, j: int|
                0 <= i < j < es@.len() ==> (#[trigger] es@[i]).dest.state != (
                #[trigger] es@[j]).dest.state,
        decreases gph.n_states - d,
    {
        let ghost es0 = es@;
        match ph.trans_prob[s][d] {
            Some(v) => {
                es.push(
                    Transition {
                        log_prob: v,
                        dest: StateRef { word: w, phone: p, state: d },
                        to_next_word: false,
                    },
                );
            },
            None => {},
        }
        proof {
            assert forall|e: Transition|
                is_self_edge(phones@, words@, wi, pi, si, e) && e.dest.state < d + 1 implies
                #[trigger] es@.contains(e) by {
                if e.dest.state < d {
                    assert(es0.contains(e));
                    let ii = choose|ii: int| 0 <= ii < es0.len() && es0[ii] == e;
                    assert(es@[ii] == e);
                } else {
                    assert(gph.trans_prob[si][d as int] is Some);
                    assert(es@[es@.len() - 1] == e);
                }
            }
        }
        d = d + 1;
    }

    proof {
        assert forall|i: int, j: int| 0 <= i < j < es@.len() implies !((#[trigger] es@[i]).dest
            == (#[trigger] es@[j]).dest && es@[i].to_next_word == es@[j].to_next_word) by {
            assert(es@[i].dest.state != es@[j].dest.state);
        }
    }

    // edges into the next phone of the same word
    if p + 1 < n_phones {
        let ghost gnext = word_phone(phones@, words@, wi, pi + 1);
        let next = &phones[word.phones[p + 1]];
        proof {
            assert(*next == gnext);
            assert(gnext.wf());
        }
        match ph.out_prob[s] {
            Some(o) => {
                proof {
                    assert(crate::opt_score_ok(gph.out_prob[si]));
                }
                let mut d: usize = 0;
                while d < next.n_states
                    invariant
                        phones_wf(phones@),
                        words_wf(phones@, words@),
                        wi == w as int && pi == p as int && si == s as int,
                        w < words@.len(),
                        p + 1 < words@[wi].phones@.len(),
                        s < gph.n_states,
                        gph == word_phone(phones@, words@, wi, pi),
                        gnext == word_phone(phones@, words@, wi, pi + 1),
                        *next == gnext,
                        gph.wf(),
                        gnext.wf(),
                        gph.out_prob[si] == Some(o),
                        crate::score_ok(o),
                        d <= gnext.n_states,
                        forall|i: int|
                            0 <= i < es@.len() ==> is_self_edge(
                                phones@,
                                words@,
                                wi,
                                pi,
                                si,
                                #[trigger] es@[i],
                            ) || (is_next_phone_edge(phones@, words@, wi, pi, si, es@[i])
                                && es@[i].dest.state < d),
                        forall|e: Transition|
                            is_self_edge(phones@, words@, wi, pi, si, e)
                                ==> #[trigger] es@.contains(e),
                        forall|e: Transition|
                            is_next_phone_edge(phones@, words@, wi, pi, si, e) && e.dest.state < d
                                ==> #[trigger] es@.contains(e),
                        forall|i: int, j: int|
                            0 <= i < j < es@.len() ==> !((#[trigger] es@[i]).dest == (
                            #[trigger] es@[j]).dest && es@[i].to_next_word == es@[j].to_next_word),
                    decreases gnext.n_states - d,
                {
                    let ghost es0 = es@;
                    match next.in_prob[d] {
                        Some(inp) => {
                            proof {
                                assert(crate::opt_score_ok(gnext.in_prob[d as int]));
                            }
                            es.push(
                                Transition {
                                    log_prob: o + inp,
                                    dest: StateRef { word: w, phone: p + 1, state: d },
                                    to_next_word: false,
                                },
                            );
                        },
                        None => {},
                    }
                    proof {
                        assert forall|e: Transition|
                            is_self_edge(phones@, words@, wi, pi, si, e) implies
                        #[trigger] es@.contains(e) by {
                            assert(es0.contains(e));
                            let ii = choose|ii: int| 0 <= ii < es0.len() && es0[ii] == e;
                            assert(es@[ii] == e);
                        }
                        assert forall|e: Transition|
                            is_next_phone_edge(phones@, words@, wi, pi, si, e) && e.dest.state < d
                                + 1 implies #[trigger] es@.contains(e) by {
                            if e.dest.state < d {
                                assert(es0.contains(e));
                                let ii = choose|ii: int| 0 <= ii < es0.len() && es0[ii] == e;
                                assert(es@[ii] == e);
                            } else {
                                assert(gnext.in_prob[d as int] is Some);
                                assert(es@[es@.len() - 1] == e);
                            }
                        }
                    }
                    d = d + 1;
                }
            },
            None => {},
        }
    }

    let ghost es2 = es@;
    proof {
        assert(forall|e: Transition|
            is_self_edge(phones@, words@, wi, pi, si, e) ==> #[trigger] es2.contains(e));
        assert(forall|e: Transition|
            is_next_phone_edge(phones@, words@, wi, pi, si, e) ==> #[trigger] es2.contains(e));
    }

    // edges across a word boundary, from the last phone
    if p == n_phones - 1 {
        match ph.out_prob[s] {
            Some(o) => {
                proof {
                    assert(crate::opt_score_ok(gph.out_prob[si]));
                }
                cross_edges(phones, words, w, p, s, o, &mut es);
            },
            None => {},
        }
    }

    // edges that bypass a trailing short-pause phone
    if n_phones >= 2 && p == n_phones - 2 {
        let ghost gsp = word_phone(phones@, words@, wi, pi + 1);
        let sp = &phones[word.phones[p + 1]];
        proof {
            assert(*sp == gsp);
            assert(gsp.wf());
        }
        if sp.is_sp() {
            match (ph.out_prob[s], sp.skip_prob) {
                (Some(o), Some(k)) => {
                    proof {
                        assert(crate::opt_score_ok(gph.out_prob[si]));
                        assert(crate::opt_score_ok(gsp.skip_prob));
                    }
                    skip_edges(phones, words, w, p, s, o, k, &mut es);
                },
                _ => {},
            }
        }
    }

    proof {
        assert forall|e: Transition|
            is_cell_edge(phones@, words@, wi, pi, si, e) implies #[trigger] es@.contains(e) by {
            if is_self_edge(phones@, words@, wi, pi, si, e) || is_next_phone_edge(
                phones@,
                words@,
                wi,
                pi,
                si,
                e,
            ) {
                assert(es2.contains(e));
                let ii = choose|ii: int| 0 <= ii < es2.len() && es2[ii] == e;
                assert(es@.take(es2.len() as int) =~= es2);
                assert(es@[ii] == e);
            }
        }
    }
    es
}

/// Compiles the whole transition network from the phone table and the
/// lexicon: the entry edges, then the outgoing edges of every cell.
#[verifier::loop_isolation(false)]
pub fn wire(phones: &Vec<Phone>, words: &Vec<Word>) -> (t: Transitions)
    requires
        phones_wf(phones@),
        words_wf(phones@, words@),
    ensures
        transitions_exact(phones@, words@, t),
        transitions_wf(phones@, words@, t),
{
    let mut from_start: Vec<Transition> = Vec::new();
    let mut w: usize = 0;
    while w < words.len()
        invariant
            w <= words@.len(),
            forall|i: int|
                0 <= i < from_start@.len() ==> is_start_edge(
                    phones@,
                    words@,
                    #[trigger] from_start@[i],
                ) && from_start@[i].dest.word < w,
            forall|e: Transition|
                is_start_edge(phones@, words@, e) && e.dest.word < w
                    ==> #[trigger] from_start@.contains(e),
            forall|i: int, j: int|
                0 <= i < j < from_start@.len() ==> (#[trigger] from_start@[i]).dest != (
                #[trigger] from_start@[j]).dest,
        decreases words@.len() - w,
    {
        let word = &words[w];
        let ghost gfirst = word_phone(phones@, words@, w as int, 0);
        let first = &phones[word.phones[0]];
        proof {
            assert(words@[w as int].wf(phones@, words@.len() as int));
            assert(*first == gfirst);
            assert(gfirst.wf());
        }
        match word.head_prob {
            Some(h) => {
                proof {
                    assert(crate::opt_score_ok(words@[w as int].head_prob));
                }
                let mut st: usize = 0;
                while st < first.n_states
                    invariant
                        w < words@.len(),
                        words@[w as int].head_prob == Some(h),
                        crate::score_ok(h),
                        st <= gfirst.n_states,
                        forall|i: int|
                            0 <= i < from_start@.len() ==> is_start_edge(
                                phones@,
                                words@,
                                #[trigger] from_start@[i],
                            ) && (from_start@[i].dest.word < w || (from_start@[i].dest.word == w
                                && from_start@[i].dest.state < st)),
                        forall|e: Transition|
                            is_start_edge(phones@, words@, e) && (e.dest.word < w || (e.dest.word
                                == w && e.dest.state < st)) ==> #[trigger] from_start@.contains(e),
                        forall|i: int, j: int|
                            0 <= i < j < from_start@.len() ==> (#[trigger] from_start@[i]).dest
                                != (#[trigger] from_start@[j]).dest,
                    decreases gfirst.n_states - st,
                {
                    let ghost fs0 = from_start@;
                    match first.in_prob[st] {
                        Some(inp) => {
                            proof {
                                assert(crate::opt_score_ok(gfirst.in_prob[st as int]));
                            }
                            from_start.push(
                                Transition {
                                    log_prob: h + inp - WORD_PENALTY,
                                    dest: StateRef { word: w, phone: 0, state: st },
                                    to_next_word: false,
                                },
                            );
                        },
                        None => {},
                    }
                    proof {
                        assert forall|e: Transition|
                            is_start_edge(phones@, words@, e) && (e.dest.word < w || (e.dest.word
                                == w && e.dest.state < st + 1)) implies
                        #[trigger] from_start@.contains(e) by {
                            if e.dest.word < w || (e.dest.word == w && e.dest.state < st) {
                                assert(fs0.contains(e));
                                let ii = choose|ii: int| 0 <= ii < fs0.len() && fs0[ii] == e;
                                assert(from_start@[ii] == e);
                            } else {
                                assert(gfirst.in_prob[st as int] is Some);
                                assert(from_start@[from_start@.len() - 1] == e);
                            }
                        }
                    }
                    st = st + 1;
                }
            },
            None => {},
        }
        proof {
            assert forall|e: Transition|
                is_start_edge(phones@, words@, e) && e.dest.word < w + 1 implies
            #[trigger] from_start@.contains(e) by {
                if e.dest.word == w {
                    assert(words@[w as int].head_prob is Some);
                    assert(e.dest.state < gfirst.n_states);
                }
            }
        }
        w = w + 1;
    }

    let mut from_state: Vec<Vec<Vec<Vec<Transition>>>> = Vec::new();
    let mut w: usize = 0;
    while w < words.len()
        invariant
            w <= words@.len(),
            from_state@.len() == w,
            forall|w2: int|
                0 <= w2 < w ==> (#[trigger] from_state@[w2]).len() == words@[w2].phones@.len(),
            forall|w2: int, p2: int|
                0 <= w2 < w && 0 <= p2 < words@[w2].phones@.len()
                    ==> (#[trigger] from_state@[w2][p2]).len() == word_phone(
                    phones@,
                    words@,
                    w2,
                    p2,
                ).n_states,
            forall|w2: int, p2: int, s2: int|
                0 <= w2 < w && 0 <= p2 < words@[w2].phones@.len() && 0 <= s2 < word_phone(
                    phones@,
                    words@,
                    w2,
                    p2,
                ).n_states ==> cell_edges_exact(
                    phones@,
                    words@,
                    w2,
                    p2,
                    s2,
                    (#[trigger] from_state@[w2][p2][s2])@,
                ),
        decreases words@.len() - w,
    {
        proof {
            assert(words@[w as int].wf(phones@, words@.len() as int));
        }
        let n_phones = words[w].phones.len();
        let mut pv: Vec<Vec<Vec<Transition>>> = Vec::new();
        let mut p: usize = 0;
        while p < n_phones
            invariant
                w < words@.len(),
                n_phones == words@[w as int].phones@.len(),
                pv@.len() == p,
                p <= n_phones,
                forall|p2: int|
                    0 <= p2 < p ==> (#[trigger] pv@[p2]).len() == word_phone(
                        phones@,
                        words@,
                        w as int,
                        p2,
                    ).n_states,
                forall|p2: int, s2: int|
                    0 <= p2 < p && 0 <= s2 < word_phone(phones@, words@, w as int, p2).n_states
                        ==> cell_edges_exact(
                        phones@,
                        words@,
                        w as int,
                        p2,
                        s2,
                        (#[trigger] pv@[p2][s2])@,
                    ),
            decreases n_phones - p,
        {
            let ghost gph = word_phone(phones@, words@, w as int, p as int);
            let n_states = phones[words[w].phones[p]].n_states;
            proof {
                assert(gph.wf());
                assert(n_states == gph.n_states);
            }
            let mut sv: Vec<Vec<Transition>> = Vec::new();
            let mut s: usize = 0;
            while s < n_states
                invariant
                    w < words@.len(),
                    p < words@[w as int].phones@.len(),
                    n_states == word_phone(phones@, words@, w as int, p as int).n_states,
                    sv@.len() == s,
                    s <= n_states,
                    forall|s2: int|
                        0 <= s2 < s ==> cell_edges_exact(
                            phones@,
                            words@,
                            w as int,
                            p as int,
                            s2,
                            (#[trigger] sv@[s2])@,
                        ),
                decreases n_states - s,
            {
                sv.push(build_cell(phones, words, w, p, s));
                s = s + 1;
            }
            pv.push(sv);
            p = p + 1;
        }
        from_state.push(pv);
        w = w + 1;
    }
    let t = Transitions { from_start, from_state };
    proof {
        lemma_no_phantom_edges(phones@, words@, t);
    }
    t
}

/// No phantom edges: in an exactly compiled network, every edge points at
/// an addressable state and carries a bounded weight.
pub proof fn lemma_no_phantom_edges(phones: Seq<Phone>, words: Seq<Word>, t: Transitions)
    requires
        phones_wf(phones),
        words_wf(phones, words),
        transitions_exact(phones, words, t),
    ensures
        transitions_wf(phones, words, t),
{
    assert forall|i: int| 0 <= i < t.from_start.len() implies edge_target_ok(
        phones,
        words,
        #[trigger] t.from_start[i],
    ) by {
        let e = t.from_start[i];
        assert(is_start_edge(phones, words, e));
        lemma_start_edge_target(phones, words, e);
    }
    assert forall|w: int, p: int, s: int, i: int|
        0 <= w < words.len() && 0 <= p < words[w].phones.len() && 0 <= s < word_phone(
            phones,
            words,
            w,
            p,
        ).n_states && 0 <= i < t.from_state[w][p][s].len() implies edge_target_ok(
        phones,
        words,
        #[trigger] t.from_state[w][p][s][i],
    ) by {
        assert(cell_edges_exact(phones, words, w, p, s, t.from_state[w][p][s]@));
        let e = t.from_state[w][p][s]@[i];
        assert(is_cell_edge(phones, words, w, p, s, e));
        lemma_cell_edge_target(phones, words, w, p, s, e);
    }
}

/// A predecessor word `w` can hand over to word `nw`: some state of its
/// last phone has an exit score, and the bigram entry is nonzero.
pub open spec fn cross_potential(phones: Seq<Phone>, words: Seq<Word>, w: int, s: int, nw: int) -> bool {
    let last = word_phone(phones, words, w, words[w].phones.len() - 1);
    &&& 0 <= w < words.len()
    &&& 0 <= s < last.n_states
    &&& last.out_prob[s] is Some
    &&& words[w].next_word_prob[nw] is Some
}

/// Coverage: every first-phone state `(nw, 0, d)` with a nonzero entry
/// score that can be opened by the unigram or reached from some
/// predecessor word is the destination of at least one compiled edge.
pub proof fn lemma_coverage(phones: Seq<Phone>, words: Seq<Word>, t: Transitions, nw: int, d: int)
    requires
        phones_wf(phones),
        words_wf(phones, words),
        transitions_exact(phones, words, t),
        0 <= nw < words.len(),
        0 <= d < word_phone(phones, words, nw, 0).n_states,
        word_phone(phones, words, nw, 0).in_prob[d] is Some,
        words[nw].head_prob is Some || exists|w: int, s: int|
            #[trigger] cross_potential(phones, words, w, s, nw),
    ensures
        (exists|i: int|
            0 <= i < t.from_start.len() && (#[trigger] t.from_start[i]).dest == (StateRef {
                word: nw as usize,
                phone: 0,
                state: d as usize,
            })) || (exists|w: int, p: int, s: int, i: int|
            0 <= w < words.len() && 0 <= p < words[w].phones.len() && 0 <= s < word_phone(
                phones,
                words,
                w,
                p,
            ).n_states && 0 <= i < t.from_state[w][p][s].len()
                && (#[trigger] t.from_state[w][p][s][i]).dest == (StateRef {
                word: nw as usize,
                phone: 0,
                state: d as usize,
            })),
{
    let first = word_phone(phones, words, nw, 0);
    assert(words[nw].wf(phones, words.len() as int));
    assert(words[nw].phones[0] < phones.len());
    assert(first.wf());
    assert(crate::opt_score_ok(first.in_prob[d]));
    let dest = StateRef { word: nw as usize, phone: 0, state: d as usize };
    if words[nw].head_prob is Some {
        assert(crate::opt_score_ok(words[nw].head_prob));
        let lp = words[nw].head_prob.unwrap() + first.in_prob[d].unwrap() - WORD_PENALTY;
        let e = Transition { log_prob: lp as i64, dest, to_next_word: false };
        assert(is_start_edge(phones, words, e));
        assert(t.from_start@.contains(e));
        let i = choose|i: int| 0 <= i < t.from_start@.len() && t.from_start@[i] == e;
        assert(t.from_start[i].dest == dest);
    } else {
        let (w, s) = choose|w: int, s: int| #[trigger] cross_potential(phones, words, w, s, nw);
        let p = words[w].phones.len() - 1;
        let last = word_phone(phones, words, w, p);
        assert(words[w].wf(phones, words.len() as int));
        assert(words[w].phones[p] < phones.len());
        assert(last.wf());
        assert(crate::opt_score_ok(last.out_prob[s]));
        assert(crate::opt_score_ok(words[w].next_word_prob[nw]));
        let lp = last.out_prob[s].unwrap() + words[w].next_word_prob[nw].unwrap()
            + first.in_prob[d].unwrap() - WORD_PENALTY;
        let e = Transition { log_prob: lp as i64, dest, to_next_word: true };
        assert(is_cross_word_edge(phones, words, w, p, s, e));
        assert(cell_edges_exact(phones, words, w, p, s, t.from_state[w][p][s]@));
        assert(t.from_state[w][p][s]@.contains(e));
        let i = choose|i: int|
            0 <= i < t.from_state[w][p][s]@.len() && t.from_state[w][p][s]@[i] == e;
        assert(t.from_state[w][p][s][i].dest == dest);
    }
}

/// Short-pause skip: a word with a trailing `"sp"` phone after at least
/// one other phone has, from every exit state of the phone before the
/// pause, an edge straight into every reachable successor start state,
/// weighted by exit, skip, bigram and entry scores less the word penalty.
pub proof fn lemma_short_pause_skip(
    phones: Seq<Phone>,
    words: Seq<Word>,
    t: Transitions,
    w: int,
    s: int,
    nw: int,
    d: int,
)
    requires
        phones_wf(phones),
        words_wf(phones, words),
        transitions_exact(phones, words, t),
        0 <= w < words.len(),
        words[w].phones.len() >= 2,
        word_phone(phones, words, w, words[w].phones.len() - 1).spec_is_sp(),
        word_phone(phones, words, w, words[w].phones.len() - 1).skip_prob is Some,
        0 <= s < word_phone(phones, words, w, words[w].phones.len() - 2).n_states,
        word_phone(phones, words, w, words[w].phones.len() - 2).out_prob[s] is Some,
        0 <= nw < words.len(),
        words[w].next_word_prob[nw] is Some,
        0 <= d < word_phone(phones, words, nw, 0).n_states,
        word_phone(phones, words, nw, 0).in_prob[d] is Some,
    ensures
        exists|i: int|
            0 <= i < t.from_state[w][words[w].phones.len() - 2][s].len()
                && (#[trigger] t.from_state[w][words[w].phones.len() - 2][s][i]).dest == (StateRef {
                word: nw as usize,
                phone: 0,
                state: d as usize,
            }) && t.from_state[w][words[w].phones.len() - 2][s][i].to_next_word == true
                && t.from_state[w][words[w].phones.len() - 2][s][i].log_prob == word_phone(
                phones,
                words,
                w,
                words[w].phones.len() - 2,
            ).out_prob[s].unwrap() + word_phone(phones, words, w, words[w].phones.len() - 1)
                .skip_prob.unwrap() + words[w].next_word_prob[nw].unwrap() + word_phone(
                phones,
                words,
                nw,
                0,
            ).in_prob[d].unwrap() - WORD_PENALTY,
{
    let p = words[w].phones.len() - 2;
    let prev = word_phone(phones, words, w, p);
    let sp = word_phone(phones, words, w, p + 1);
    let first = word_phone(phones, words, nw, 0);
    assert(words[w].wf(phones, words.len() as int));
    assert(words[w].phones[p] < phones.len());
    assert(words[w].phones[p + 1] < phones.len());
    assert(words[nw].wf(phones, words.len() as int));
    assert(words[nw].phones[0] < phones.len());
    assert(prev.wf());
    assert(sp.wf());
    assert(first.wf());
    assert(crate::opt_score_ok(prev.out_prob[s]));
    assert(crate::opt_score_ok(sp.skip_prob));
    assert(crate::opt_score_ok(words[w].next_word_prob[nw]));
    assert(crate::opt_score_ok(first.in_prob[d]));
    let lp = prev.out_prob[s].unwrap() + sp.skip_prob.unwrap() + words[w].next_word_prob[
        nw
    ].unwrap() + first.in_prob[d].unwrap() - WORD_PENALTY;
    let e = Transition {
        log_prob: lp as i64,
        dest: StateRef { word: nw as usize, phone: 0, state: d as usize },
        to_next_word: true,
    };
    assert(is_skip_edge(phones, words, w, p, s, e));
    assert(cell_edges_exact(phones, words, w, p, s, t.from_state[w][p][s]@));
    assert(t.from_state[w][p][s]@.contains(e));
    let i = choose|i: int| 0 <= i < t.from_state[w][p][s]@.len() && t.from_state[w][p][s]@[i] == e;
    assert(t.from_state[w][p][s]@[i].log_prob == lp);
}

/// A start edge's destination is addressable and its weight bounded.
proof fn lemma_start_edge_target(phones: Seq<Phone>, words: Seq<Word>, e: Transition)
    requires
        phones_wf(phones),
        words_wf(phones, words),
        is_start_edge(phones, words, e),
    ensures
        edge_target_ok(phones, words, e),
{
    let wd = e.dest.word as int;
    assert(words[wd].wf(phones, words.len() as int));
    assert(words[wd].phones[0] < phones.len());
    assert(word_phone(phones, words, wd, 0).wf());
    assert(crate::opt_score_ok(word_phone(phones, words, wd, 0).in_prob[e.dest.state as int]));
    assert(crate::opt_score_ok(words[wd].head_prob));
}

/// A cell edge's destination is addressable and its weight bounded.
proof fn lemma_cell_edge_target(
    phones: Seq<Phone>,
    words: Seq<Word>,
    w: int,
    p: int,
    s: int,
    e: Transition,
)
    requires
        phones_wf(phones),
        words_wf(phones, words),
        0 <= w < words.len(),
        0 <= p < words[w].phones.len(),
        0 <= s < word_phone(phones, words, w, p).n_states,
        is_cell_edge(phones, words, w, p, s, e),
    ensures
        edge_target_ok(phones, words, e),
{
    let nw = e.dest.word as int;
    let d = e.dest.state as int;
    assert(words[w].wf(phones, words.len() as int));
    assert(words[w].phones[p] < phones.len());
    let ph = word_phone(phones, words, w, p);
    assert(ph.wf());
    assert(crate::opt_score_ok(ph.out_prob[s]));
    if is_self_edge(phones, words, w, p, s, e) {
        assert(crate::opt_score_ok(ph.trans_prob[s][d]));
    } else if is_next_phone_edge(phones, words, w, p, s, e) {
        assert(words[w].phones[p + 1] < phones.len());
        let next = word_phone(phones, words, w, p + 1);
        assert(next.wf());
        assert(crate::opt_score_ok(next.in_prob[d]));
    } else {
        assert(words[nw].wf(phones, words.len() as int));
        assert(words[nw].phones[0] < phones.len());
        let first = word_phone(phones, words, nw, 0);
        assert(first.wf());
        assert(crate::opt_score_ok(first.in_prob[d]));
        assert(crate::opt_score_ok(words[w].next_word_prob[nw]));
        if is_skip_edge(phones, words, w, p, s, e) {
            assert(words[w].phones[p + 1] < phones.len());
            let sp = word_phone(phones, words, w, p + 1);
            assert(sp.wf());
            assert(crate::opt_score_ok(sp.skip_prob));
        }
    }
}

/// Appends the cross-word edges of the cell `(w, p, s)`, `p` being the
/// word's last phone position, ordered by next word and entry state.
#[verifier::loop_isolation(false)]
fn cross_edges(
    phones: &Vec<Phone>,
    words: &Vec<Word>,
    w: usize,
    p: usize,
    s: usize,
    o: i64,
    es: &mut Vec<Transition>,
)
    requires
        phones_wf(phones@),
        words_wf(phones@, words@),
        w < words@.len(),
        p == words@[w as int].phones@.len() - 1,
        s < word_phone(phones@, words@, w as int, p as int).n_states,
        word_phone(phones@, words@, w as int, p as int).out_prob[s as int] == Some(o),
        forall|i: int| 0 <= i < old(es)@.len() ==> !(#[trigger] old(es)@[i]).to_next_word,
        forall|i: int, j: int|
            0 <= i < j < old(es)@.len() ==> !((#[trigger] old(es)@[i]).dest == (#[trigger] old(es)@[j]).dest && old(es)@[i].to_next_word == old(es)@[j].to_next_word),
    ensures
        final(es)@.len() >= old(es)@.len(),
        final(es)@.take(old(es)@.len() as int) == old(es)@,
        forall|i: int| 0 <= i < old(es)@.len() ==> #[trigger] final(es)@[i] == old(es)@[i],
        forall|i: int|
            old(es)@.len() <= i < final(es)@.len() ==> is_cross_word_edge(
                phones@,
                words@,
                w as int,
                p as int,
                s as int,
                #[trigger] final(es)@[i],
            ),
        forall|e: Transition|
            is_cross_word_edge(phones@, words@, w as int, p as int, s as int, e)
                ==> #[trigger] final(es)@.contains(e),
        forall|i: int, j: int|
            0 <= i < j < final(es)@.len() ==> !((#[trigger] final(es)@[i]).dest == (#[trigger] final(es)@[j]).dest && final(es)@[i].to_next_word == final(es)@[j].to_next_word),
{
    let ghost wi = w as int;
    let ghost pi = p as int;
    let ghost si = s as int;
    let ghost base = old(es)@;
    let word = &words[w];
    proof {
        assert(words@[wi].wf(phones@, words@.len() as int));
        assert(words@[wi].phones@[pi] < phones@.len());
        assert(word_phone(phones@, words@, wi, pi).wf());
        assert(crate::opt_score_ok(word_phone(phones@, words@, wi, pi).out_prob[si]));
        assert(crate::score_ok(o));
        assert(base.take(base.len() as int) =~= base);
    }
    let mut nw: usize = 0;
    while nw < words.len()
        invariant
            phones_wf(phones@),
            words_wf(phones@, words@),
            wi == w as int && pi == p as int && si == s as int,
            w < words@.len(),
            p == words@[wi].phones@.len() - 1,
            s < word_phone(phones@, words@, wi, pi).n_states,
            word_phone(phones@, words@, wi, pi).out_prob[si] == Some(o),
            crate::score_ok(o),
            words@[wi].next_word_prob@.len() == words@.len(),
            nw <= words@.len(),
            es@.len() >= base.len(),
            es@.take(base.len() as int) == base,
            forall|i: int| 0 <= i < base.len() ==> #[trigger] es@[i] == base[i],
            forall|i: int| 0 <= i < base.len() ==> !(#[trigger] base[i]).to_next_word,
            forall|i: int|
                base.len() <= i < es@.len() ==> is_cross_word_edge(
                    phones@,
                    words@,
                    wi,
                    pi,
                    si,
                    #[trigger] es@[i],
                ) && es@[i].dest.word < nw,
            forall|e: Transition|
                is_cross_word_edge(phones@, words@, wi, pi, si, e) && e.dest.word < nw
                    ==> #[trigger] es@.contains(e),
            forall|i: int, j: int|
                0 <= i < j < es@.len() ==> !((#[trigger] es@[i]).dest == (#[trigger] es@[j]).dest
                    && es@[i].to_next_word == es@[j].to_next_word),
        decreases words@.len() - nw,
    {
        let ghost es1 = es@;
        match word.next_word_prob[nw] {
            Some(b) => {
                let ghost gfirst = word_phone(phones@, words@, nw as int, 0);
                let first = &phones[words[nw].phones[0]];
                proof {
                    assert(words@[nw as int].wf(phones@, words@.len() as int));
                    assert(*first == gfirst);
                    assert(gfirst.wf());
                    assert(crate::opt_score_ok(words@[wi].next_word_prob[nw as int]));
                }
                let mut d: usize = 0;
                while d < first.n_states
                    invariant
                        phones_wf(phones@),
                        words_wf(phones@, words@),
                        wi == w as int && pi == p as int && si == s as int,
                        w < words@.len(),
                        nw < words@.len(),
                        p == words@[wi].phones@.len() - 1,
                        s < word_phone(phones@, words@, wi, pi).n_states,
                        word_phone(phones@, words@, wi, pi).out_prob[si] == Some(o),
                        crate::score_ok(o),
                        words@[wi].next_word_prob[nw as int] == Some(b),
                        crate::score_ok(b),
                        gfirst == word_phone(phones@, words@, nw as int, 0),
                        *first == gfirst,
                        gfirst.wf(),
                        d <= gfirst.n_states,
                        es@.len() >= base.len(),
                        es@.take(base.len() as int) == base,
                        forall|i: int| 0 <= i < base.len() ==> #[trigger] es@[i] == base[i],
                        forall|i: int| 0 <= i < base.len() ==> !(#[trigger] base[i]).to_next_word,
                        forall|i: int|
                            base.len() <= i < es@.len() ==> is_cross_word_edge(
                                phones@,
                                words@,
                                wi,
                                pi,
                                si,
                                #[trigger] es@[i],
                            ) && (es@[i].dest.word < nw || (es@[i].dest.word == nw
                                && es@[i].dest.state < d)),
                        forall|e: Transition|
                            is_cross_word_edge(phones@, words@, wi, pi, si, e) && (e.dest.word < nw
                                || (e.dest.word == nw && e.dest.state < d))
                                ==> #[trigger] es@.contains(e),
                        forall|i: int, j: int|
                            0 <= i < j < es@.len() ==> !((#[trigger] es@[i]).dest == (
                            #[trigger] es@[j]).dest && es@[i].to_next_word == es@[j].to_next_word),
                    decreases gfirst.n_states - d,
                {
                    let ghost es0 = es@;
                    match first.in_prob[d] {
                        Some(inp) => {
                            proof {
                                assert(crate::opt_score_ok(gfirst.in_prob[d as int]));
                            }
                            es.push(
                                Transition {
                                    log_prob: o + b + inp - WORD_PENALTY,
                                    dest: StateRef { word: nw, phone: 0, state: d },
                                    to_next_word: true,
                                },
                            );
                            proof {
                                assert(es@.take(base.len() as int) =~= es0.take(
                                    base.len() as int,
                                ));
                            }
                        },
                        None => {},
                    }
                    proof {
                        assert forall|e: Transition|
                            is_cross_word_edge(phones@, words@, wi, pi, si, e) && (e.dest.word < nw
                                || (e.dest.word == nw && e.dest.state < d + 1)) implies
                        #[trigger] es@.contains(e) by {
                            if e.dest.word < nw || (e.dest.word == nw && e.dest.state < d) {
                                assert(es0.contains(e));
                                let ii = choose|ii: int| 0 <= ii < es0.len() && es0[ii] == e;
                                assert(es@[ii] == e);
                            } else {
                                assert(word_phone(phones@, words@, nw as int, 0).in_prob[d as int]
                                    is Some);
                                assert(es@[es@.len() - 1] == e);
                            }
                        }
                    }
                    d = d + 1;
                }
            },
            None => {},
        }
        proof {
            assert forall|e: Transition|
                is_cross_word_edge(phones@, words@, wi, pi, si, e) && e.dest.word < nw + 1 implies
            #[trigger] es@.contains(e) by {
                if e.dest.word == nw {
                    assert(words@[wi].next_word_prob[nw as int] is Some);
                    assert(e.dest.state < word_phone(phones@, words@, nw as int, 0).n_states);
                }
            }
        }
        nw = nw + 1;
    }
}

/// Appends the short-pause skip edges of the cell `(w, p, s)`, `p` being
/// the phone before the word's trailing `"sp"` phone, ordered by next word
/// and entry state.
#[verifier::loop_isolation(false)]
fn skip_edges(
    phones: &Vec<Phone>,
    words: &Vec<Word>,
    w: usize,
    p: usize,
    s: usize,
    o: i64,
    k: i64,
    es: &mut Vec<Transition>,
)
    requires
        phones_wf(phones@),
        words_wf(phones@, words@),
        w < words@.len(),
        words@[w as int].phones@.len() >= 2,
        p == words@[w as int].phones@.len() - 2,
        s < word_phone(phones@, words@, w as int, p as int).n_states,
        word_phone(phones@, words@, w as int, p as int).out_prob[s as int] == Some(o),
        word_phone(phones@, words@, w as int, p as int + 1).spec_is_sp(),
        word_phone(phones@, words@, w as int, p as int + 1).skip_prob == Some(k),
        crate::score_ok(k),
        forall|i: int| 0 <= i < old(es)@.len() ==> !(#[trigger] old(es)@[i]).to_next_word,
        forall|i: int, j: int|
            0 <= i < j < old(es)@.len() ==> !((#[trigger] old(es)@[i]).dest == (#[trigger] old(es)@[j]).dest && old(es)@[i].to_next_word == old(es)@[j].to_next_word),
    ensures
        final(es)@.len() >= old(es)@.len(),
        final(es)@.take(old(es)@.len() as int) == old(es)@,
        forall|i: int| 0 <= i < old(es)@.len() ==> #[trigger] final(es)@[i] == old(es)@[i],
        forall|i: int|
            old(es)@.len() <= i < final(es)@.len() ==> is_skip_edge(
                phones@,
                words@,
                w as int,
                p as int,
                s as int,
                #[trigger] final(es)@[i],
            ),
        forall|e: Transition|
            is_skip_edge(phones@, words@, w as int, p as int, s as int, e)
                ==> #[trigger] final(es)@.contains(e),
        forall|i: int, j: int|
            0 <= i < j < final(es)@.len() ==> !((#[trigger] final(es)@[i]).dest == (#[trigger] final(es)@[j]).dest && final(es)@[i].to_next_word == final(es)@[j].to_next_word),
{
    let ghost wi = w as int;
    let ghost pi = p as int;
    let ghost si = s as int;
    let ghost base = old(es)@;
    let word = &words[w];
    proof {
        assert(words@[wi].wf(phones@, words@.len() as int));
        assert(words@[wi].phones@[pi] < phones@.len());
        assert(word_phone(phones@, words@, wi, pi).wf());
        assert(crate::opt_score_ok(word_phone(phones@, words@, wi, pi).out_prob[si]));
        assert(crate::score_ok(o));
        assert(base.take(base.len() as int) =~= base);
    }
    let mut nw: usize = 0;
    while nw < words.len()
        invariant
            phones_wf(phones@),
            words_wf(phones@, words@),
            wi == w as int && pi == p as int && si == s as int,
            w < words@.len(),
            words@[wi].phones@.len() >= 2,
            p == words@[wi].phones@.len() - 2,
            s < word_phone(phones@, words@, wi, pi).n_states,
            word_phone(phones@, words@, wi, pi).out_prob[si] == Some(o),
            word_phone(phones@, words@, wi, pi + 1).spec_is_sp(),
            word_phone(phones@, words@, wi, pi + 1).skip_prob == Some(k),
            crate::score_ok(o),
            crate::score_ok(k),
            words@[wi].next_word_prob@.len() == words@.len(),
            nw <= words@.len(),
            es@.len() >= base.len(),
            es@.take(base.len() as int) == base,
            forall|i: int| 0 <= i < base.len() ==> #[trigger] es@[i] == base[i],
            forall|i: int| 0 <= i < base.len() ==> !(#[trigger] base[i]).to_next_word,
            forall|i: int|
                base.len() <= i < es@.len() ==> is_skip_edge(
                    phones@,
                    words@,
                    wi,
                    pi,
                    si,
                    #[trigger] es@[i],
                ) && es@[i].dest.word < nw,
            forall|e: Transition|
                is_skip_edge(phones@, words@, wi, pi, si, e) && e.dest.word < nw
                    ==> #[trigger] es@.contains(e),
            forall|i: int, j: int|
                0 <= i < j < es@.len() ==> !((#[trigger] es@[i]).dest == (#[trigger] es@[j]).dest
                    && es@[i].to_next_word == es@[j].to_next_word),
        decreases words@.len() - nw,
    {
        match word.next_word_prob[nw] {
            Some(b) => {
                let ghost gfirst = word_phone(phones@, words@, nw as int, 0);
                let first = &phones[words[nw].phones[0]];
                proof {
                    assert(words@[nw as int].wf(phones@, words@.len() as int));
                    assert(*first == gfirst);
                    assert(gfirst.wf());
                    assert(crate::opt_score_ok(words@[wi].next_word_prob[nw as int]));
                }
                let mut d: usize = 0;
                while d < first.n_states
                    invariant
                        phones_wf(phones@),
                        words_wf(phones@, words@),
                        wi == w as int && pi == p as int && si == s as int,
                        w < words@.len(),
                        nw < words@.len(),
                        words@[wi].phones@.len() >= 2,
                        p == words@[wi].phones@.len() - 2,
                        s < word_phone(phones@, words@, wi, pi).n_states,
                        word_phone(phones@, words@, wi, pi).out_prob[si] == Some(o),
                        word_phone(phones@, words@, wi, pi + 1).spec_is_sp(),
                        word_phone(phones@, words@, wi, pi + 1).skip_prob == Some(k),
                        crate::score_ok(o),
                        crate::score_ok(k),
                        words@[wi].next_word_prob[nw as int] == Some(b),
                        crate::score_ok(b),
                        gfirst == word_phone(phones@, words@, nw as int, 0),
                        *first == gfirst,
                        gfirst.wf(),
                        d <= gfirst.n_states,
                        es@.len() >= base.len(),
                        es@.take(base.len() as int) == base,
                        forall|i: int| 0 <= i < base.len() ==> #[trigger] es@[i] == base[i],
                        forall|i: int| 0 <= i < base.len() ==> !(#[trigger] base[i]).to_next_word,
                        forall|i: int|
                            base.len() <= i < es@.len() ==> is_skip_edge(
                                phones@,
                                words@,
                                wi,
                                pi,
                                si,
                                #[trigger] es@[i],
                            ) && (es@[i].dest.word < nw || (es@[i].dest.word == nw
                                && es@[i].dest.state < d)),
                        forall|e: Transition|
                            is_skip_edge(phones@, words@, wi, pi, si, e) && (e.dest.word < nw || (
                            e.dest.word == nw && e.dest.state < d)) ==> #[trigger] es@.contains(e),
                        forall|i: int, j: int|
                            0 <= i < j < es@.len() ==> !((#[trigger] es@[i]).dest == (
                            #[trigger] es@[j]).dest && es@[i].to_next_word == es@[j].to_next_word),
                    decreases gfirst.n_states - d,
                {
                    let ghost es0 = es@;
                    match first.in_prob[d] {
                        Some(inp) => {
                            proof {
                                assert(crate::opt_score_ok(gfirst.in_prob[d as int]));
                            }
                            es.push(
                                Transition {
                                    log_prob: o + k + b + inp - WORD_PENALTY,
                                    dest: StateRef { word: nw, phone: 0, state: d },
                                    to_next_word: true,
                                },
                            );
                            proof {
                                assert(es@.take(base.len() as int) =~= es0.take(
                                    base.len() as int,
                                ));
                            }
                        },
                        None => {},
                    }
                    proof {
                        assert forall|e: Transition|
                            is_skip_edge(phones@, words@, wi, pi, si, e) && (e.dest.word < nw || (
                            e.dest.word == nw && e.dest.state < d + 1)) implies
                        #[trigger] es@.contains(e) by {
                            if e.dest.word < nw || (e.dest.word == nw && e.dest.state < d) {
                                assert(es0.contains(e));
                                let ii = choose|ii: int| 0 <= ii < es0.len() && es0[ii] == e;
                                assert(es@[ii] == e);
                            } else {
                                assert(word_phone(phones@, words@, nw as int, 0).in_prob[d as int]
                                    is Some);
                                assert(es@[es@.len() - 1] == e);
                            }
                        }
                    }
                    d = d + 1;
                }
            },
            None => {},
        }
        proof {
            assert forall|e: Transition|
                is_skip_edge(phones@, words@, wi, pi, si, e) && e.dest.word < nw + 1 implies
            #[trigger] es@.contains(e) by {
                if e.dest.word == nw {
                    assert(words@[wi].next_word_prob[nw as int] is Some);
                    assert(e.dest.state < word_phone(phones@, words@, nw as int, 0).n_states);
                }
            }
        }
        nw = nw + 1;
    }
}

} // verus!
