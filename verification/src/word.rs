use vstd::prelude::*;
use crate::{opt_score_ok, BuildError};
use crate::phone::{find, find_first, Phone};
use crate::text::{bytes_eq, copy_bytes, split_whitespace, split_ws_spec};

verus! {

/// The sentence-start marker `"<s>"` as bytes.
pub open spec fn sentence_start_name() -> Seq<u8> {
    seq![60u8, 115u8, 62u8]
}

/// The sentence-end marker `"</s>"` as bytes.
pub open spec fn sentence_end_name() -> Seq<u8> {
    seq![60u8, 47u8, 115u8, 62u8]
}

/// One dictionary word: a non-empty phone sequence with its unigram and
/// bigram scores.  Probabilities are log-domain scores; `None` stands for
/// probability zero (see the crate root).
#[derive(Debug, PartialEq, Eq)]
pub struct Word {
    /// Symbolic name; `"<s>"` and `"</s>"` are the sentence markers.
    pub name: Vec<u8>,
    /// Positions of this word's phones in the phone table, in order.
    pub phones: Vec<usize>,
    /// Score of opening the utterance with this word.
    pub head_prob: Option<i64>,
    /// Score of following this word with word `j`, for every word `j`.
    pub next_word_prob: Vec<Option<i64>>,
}

impl Word {
    /// Shape and score-range invariant, relative to the phone table and the
    /// number of words in the lexicon.
    pub open spec fn wf(self, phones: Seq<Phone>, n_words: int) -> bool {
        &&& self.phones.len() >= 1
        &&& forall|p: int| 0 <= p < self.phones.len() ==> (#[trigger] self.phones[p]) < phones.len()
        &&& self.next_word_prob.len() == n_words
        &&& opt_score_ok(self.head_prob)
        &&& forall|j: int| 0 <= j < n_words ==> opt_score_ok(#[trigger] self.next_word_prob[j])
    }

    /// Whether this word is a sentence marker, excluded from transcripts.
    pub open spec fn spec_is_marker(self) -> bool {
        self.name@ == sentence_start_name() || self.name@ == sentence_end_name()
    }

    /// Tests whether this word is a sentence marker.
    pub fn is_marker(&self) -> (r: bool)
        ensures
            r == self.spec_is_marker(),
    {
        let start = self.name.len() == 3 && self.name[0] == 60 && self.name[1] == 115
            && self.name[2] == 62;
        let end = self.name.len() == 4 && self.name[0] == 60 && self.name[1] == 47
            && self.name[2] == 115 && self.name[3] == 62;
        proof {
            if start {
                assert(self.name@ =~= sentence_start_name());
            }
            if end {
                assert(self.name@ =~= sentence_end_name());
            }
            if self.name@ == sentence_start_name() {
                assert(self.name[0] == 60 && self.name[1] == 115 && self.name[2] == 62);
            }
            if self.name@ == sentence_end_name() {
                assert(self.name[0] == 60 && self.name[1] == 47 && self.name[2] == 115
                    && self.name[3] == 62);
            }
        }
        start || end
    }
}

/// A well-formed lexicon over a phone table.
pub open spec fn words_wf(phones: Seq<Phone>, words: Seq<Word>) -> bool {
    forall|w: int| 0 <= w < words.len() ==> (#[trigger] words[w]).wf(phones, words.len() as int)
}

/// The token lists of the non-blank dictionary lines, in order.
pub open spec fn dict_entries(lines: Seq<Seq<u8>>) -> Seq<Seq<Seq<u8>>>
    decreases lines.len(),
{
    if lines.len() == 0 {
        seq![]
    } else {
        dict_entries(lines.drop_last()) + (if split_ws_spec(lines.last()).len() == 0 {
            seq![]
        } else {
            seq![split_ws_spec(lines.last())]
        })
    }
}

/// What is wrong with one dictionary line, if anything: a word without
/// phones is malformed, and a phone name that the table lacks is a failed
/// lookup.  Blank lines are skipped.
pub open spec fn line_err(phones: Seq<Phone>, line: Seq<u8>) -> Option<BuildError> {
    let toks = split_ws_spec(line);
    if toks.len() == 0 {
        None
    } else if toks.len() == 1 {
        Some(BuildError::ParseError)
    } else if exists|k: int| 1 <= k < toks.len() && find_first(phones, #[trigger] toks[k]) is None {
        Some(BuildError::LookupMissing)
    } else {
        None
    }
}

/// The error of the first faulty line at or after `i`, if any.
pub open spec fn first_err_from(phones: Seq<Phone>, lines: Seq<Seq<u8>>, i: int) -> Option<
    BuildError,
>
    decreases lines.len() - i,
{
    if 0 <= i < lines.len() {
        match line_err(phones, lines[i]) {
            Some(e) => Some(e),
            None => first_err_from(phones, lines, i + 1),
        }
    } else {
        None
    }
}

/// The error of the first faulty dictionary line, if any.
pub open spec fn dict_err(phones: Seq<Phone>, lines: Seq<Seq<u8>>) -> Option<BuildError> {
    first_err_from(phones, lines, 0)
}

proof fn lemma_first_err_skip(phones: Seq<Phone>, lines: Seq<Seq<u8>>, i: int, j: int)
    requires
        0 <= i <= j <= lines.len(),
        forall|m: int| i <= m < j ==> line_err(phones, #[trigger] lines[m]) is None,
    ensures
        first_err_from(phones, lines, i) == first_err_from(phones, lines, j),
    decreases j - i,
{
    if i < j {
        lemma_first_err_skip(phones, lines, i + 1, j);
    }
}

/// Reads the dictionary: one word per non-blank line, the word's name
/// followed by its phone names.  Words come out with their unigram and
/// bigram scores still zero.
pub fn read_dictionary(lines: &Vec<Vec<u8>>, phones: &Vec<Phone>) -> (r: Result<
    Vec<Word>,
    BuildError,
>)
    ensures
        match r {
            Ok(words) => {
                &&& dict_err(phones@, lines.deep_view()) is None
                &&& words_wf(phones@, words@)
                &&& words@.len() == dict_entries(lines.deep_view()).len()
                &&& forall|w: int|
                    0 <= w < words@.len() ==> {
                        let e = #[trigger] dict_entries(lines.deep_view())[w];
                        &&& words[w].name@ == e[0]
                        &&& words[w].phones@.len() == e.len() - 1
                        &&& forall|k: int|
                            0 <= k < e.len() - 1
                                ==> Some((#[trigger] words[w].phones[k]) as int) == find_first(
                                phones@,
                                e[k + 1],
                            )
                        &&& words[w].head_prob is None
                        &&& words[w].next_word_prob@.len() == words@.len()
                        &&& forall|j: int|
                            0 <= j < words@.len() ==> (#[trigger] words[w].next_word_prob[j])
                                is None
                    }
            },
            Err(e) => dict_err(phones@, lines.deep_view()) == Some(e),
        },
{
    let ghost lv = lines.deep_view();
    let mut words: Vec<Word> = Vec::new();
    let mut li: usize = 0;
    proof {
        assert(lv.take(0) =~= Seq::<Seq<u8>>::empty());
    }
    while li < lines.len()
        invariant
            lv == lines.deep_view(),
            lines@.len() == lv.len(),
            li <= lv.len(),
            forall|i: int| 0 <= i < li ==> line_err(phones@, #[trigger] lv[i]) is None,
            words@.len() == dict_entries(lv.take(li as int)).len(),
            forall|w: int|
                0 <= w < words@.len() ==> {
                    let e = #[trigger] dict_entries(lv.take(li as int))[w];
                    &&& e.len() >= 2
                    &&& words[w].name@ == e[0]
                    &&& words[w].phones@.len() == e.len() - 1
                    &&& forall|k: int|
                        0 <= k < e.len() - 1
                            ==> Some((#[trigger] words[w].phones[k]) as int) == find_first(
                            phones@,
                            e[k + 1],
                        )
                    &&& words[w].head_prob is None
                    &&& words[w].next_word_prob@.len() == 0
                },
        decreases lv.len() - li,
    {
        let toks = split_whitespace(&lines[li]);
        proof {
            assert(lines@[li as int].deep_view() =~= lines@[li as int]@);
            assert(lv[li as int] == lines@[li as int].deep_view());
            assert(toks.deep_view() == split_ws_spec(lv[li as int]));
            assert(lv.take(li + 1).drop_last() =~= lv.take(li as int));
            assert(lv.take(li + 1).last() == lv[li as int]);
        }
        if toks.len() == 0 {
            proof {
                assert(dict_entries(lv.take(li + 1)) =~= dict_entries(lv.take(li as int)));
            }
            li = li + 1;
        } else if toks.len() == 1 {
            proof {
                assert(split_ws_spec(lv[li as int]).len() == 1);
                lemma_first_err_skip(phones@, lv, 0, li as int);
            }
            return Err(BuildError::ParseError);
        } else {
            let name = copy_bytes(&toks[0]);
            let mut idxs: Vec<usize> = Vec::new();
            let mut k: usize = 1;
            while k < toks.len()
                invariant
                    lv == lines.deep_view(),
                    lines@.len() == lv.len(),
                    li < lv.len(),
                    toks.deep_view() == split_ws_spec(lv[li as int]),
                    2 <= toks@.len(),
                    1 <= k <= toks@.len(),
                    idxs@.len() == k - 1,
                    forall|m: int|
                        0 <= m < k - 1 ==> Some((#[trigger] idxs[m]) as int) == find_first(
                            phones@,
                            toks.deep_view()[m + 1],
                        ),
                    forall|i: int| 0 <= i < li ==> line_err(phones@, #[trigger] lv[i]) is None,
                decreases toks@.len() - k,
            {
                proof {
                    assert(toks@[k as int].deep_view() =~= toks@[k as int]@);
                    assert(toks.deep_view()[k as int] == toks@[k as int].deep_view());
                }
                match find(&toks[k], phones) {
                    Some(i) => {
                        idxs.push(i);
                    },
                    None => {
                        proof {
                            let toksv = split_ws_spec(lv[li as int]);
                            assert(1 <= k < toksv.len() && find_first(phones@, toksv[k as int])
                                is None);
                            lemma_first_err_skip(phones@, lv, 0, li as int);
                        }
                        return Err(BuildError::LookupMissing);
                    },
                }
                k = k + 1;
            }
            proof {
                let toksv = split_ws_spec(lv[li as int]);
                assert forall|kk: int| 1 <= kk < toksv.len() implies find_first(
                    phones@,
                    #[trigger] toksv[kk],
                ) is Some by {
                    assert(Some((idxs[kk - 1]) as int) == find_first(
                        phones@,
                        toks.deep_view()[kk],
                    ));
                }
                assert(line_err(phones@, lv[li as int]) is None);
            }
            words.push(Word { name, phones: idxs, head_prob: None, next_word_prob: Vec::new() });
            proof {
                assert(dict_entries(lv.take(li + 1)) =~= dict_entries(lv.take(li as int)) + seq![
                    split_ws_spec(lv[li as int]),
                ]);
            }
            li = li + 1;
        }
    }
    proof {
        assert(lv.take(lv.len() as int) =~= lv);
        lemma_first_err_skip(phones@, lv, 0, lv.len() as int);
    }

    let n_words = words.len();
    let ghost before = words@;
    let mut w: usize = 0;
    while w < n_words
        invariant
            n_words == before.len(),
            words@.len() == before.len(),
            w <= n_words,
            forall|i: int|
                0 <= i < before.len() ==> {
                    &&& (#[trigger] words[i]).name == before[i].name
                    &&& words[i].phones == before[i].phones
                    &&& words[i].head_prob == before[i].head_prob
                },
            forall|i: int|
                w <= i < before.len() ==> (#[trigger] words[i]).next_word_prob
                    == before[i].next_word_prob,
            forall|i: int|
                0 <= i < w ==> (#[trigger] words[i]).next_word_prob@.len() == n_words
                    && forall|j: int|
                    0 <= j < n_words ==> (#[trigger] words[i].next_word_prob[j]) is None,
        decreases n_words - w,
    {
        let nv = none_vec(n_words);
        let wr = &mut words[w];
        wr.next_word_prob = nv;
        w = w + 1;
    }
    proof {
        let entries = dict_entries(lv);
        assert forall|i: int| 0 <= i < words@.len() implies (#[trigger] words@[i]).wf(
            phones@,
            words@.len() as int,
        ) by {
            let e = entries[i];
            assert(e.len() >= 2);
            assert(words@[i].phones@.len() == e.len() - 1);
            assert forall|p: int| 0 <= p < words@[i].phones@.len() implies (
            #[trigger] words@[i].phones@[p]) < phones@.len() by {
                assert(Some((words@[i].phones[p]) as int) == find_first(phones@, e[p + 1]));
                crate::phone::lemma_find_first_in_range(phones@, e[p + 1], 0);
            }
        }
    }
    Ok(words)
}

/// The score of the last unigram entry naming `name`, if any entry does.
pub open spec fn last_head_match(pairs: Seq<(Vec<u8>, Option<i64>)>, name: Seq<u8>) -> Option<
    Option<i64>,
>
    decreases pairs.len(),
{
    if pairs.len() == 0 {
        None
    } else if pairs.last().0@ == name {
        Some(pairs.last().1)
    } else {
        last_head_match(pairs.drop_last(), name)
    }
}

/// The score of the last bigram entry naming `(first, second)`, if any
/// entry does.
pub open spec fn last_pair_match(
    triples: Seq<(Vec<u8>, Vec<u8>, Option<i64>)>,
    first: Seq<u8>,
    second: Seq<u8>,
) -> Option<Option<i64>>
    decreases triples.len(),
{
    if triples.len() == 0 {
        None
    } else if triples.last().0@ == first && triples.last().1@ == second {
        Some(triples.last().2)
    } else {
        last_pair_match(triples.drop_last(), first, second)
    }
}

/// Every unigram score in range.
pub open spec fn head_pairs_ok(pairs: Seq<(Vec<u8>, Option<i64>)>) -> bool {
    forall|p: int| 0 <= p < pairs.len() ==> opt_score_ok((#[trigger] pairs[p]).1)
}

/// Every bigram score in range.
pub open spec fn bigram_triples_ok(triples: Seq<(Vec<u8>, Vec<u8>, Option<i64>)>) -> bool {
    forall|t: int| 0 <= t < triples.len() ==> opt_score_ok((#[trigger] triples[t]).2)
}

/// Applies the unigram entries: every entry sets the head score of every
/// word bearing its name, so the last entry for a name wins.
pub fn read_head_probs(pairs: &Vec<(Vec<u8>, Option<i64>)>, words: &mut Vec<Word>)
    ensures
        final(words)@.len() == old(words)@.len(),
        forall|w: int|
            0 <= w < old(words)@.len() ==> {
                &&& (#[trigger] final(words)@[w]).name == old(words)@[w].name
                &&& final(words)@[w].phones == old(words)@[w].phones
                &&& final(words)@[w].next_word_prob == old(words)@[w].next_word_prob
                &&& final(words)@[w].head_prob == (match last_head_match(
                    pairs@,
                    old(words)@[w].name@,
                ) {
                    Some(p) => p,
                    None => old(words)@[w].head_prob,
                })
            },
{
    let mut p: usize = 0;
    proof {
        assert(pairs@.take(0) =~= Seq::<(Vec<u8>, Option<i64>)>::empty());
    }
    while p < pairs.len()
        invariant
            words@.len() == old(words)@.len(),
            p <= pairs@.len(),
            forall|w: int|
                0 <= w < old(words)@.len() ==> {
                    &&& (#[trigger] words@[w]).name == old(words)@[w].name
                    &&& words@[w].phones == old(words)@[w].phones
                    &&& words@[w].next_word_prob == old(words)@[w].next_word_prob
                    &&& words@[w].head_prob == (match last_head_match(
                        pairs@.take(p as int),
                        old(words)@[w].name@,
                    ) {
                        Some(pr) => pr,
                        None => old(words)@[w].head_prob,
                    })
                },
        decreases pairs@.len() - p,
    {
        let pr = pairs[p].1;
        let ghost mid = words@;
        let mut w: usize = 0;
        proof {
            assert(pairs@.take(p + 1).drop_last() =~= pairs@.take(p as int));
            assert(pairs@.take(p + 1).last() == pairs@[p as int]);
        }
        while w < words.len()
            invariant
                words@.len() == mid.len(),
                p < pairs@.len(),
                pr == pairs@[p as int].1,
                w <= words@.len(),
                pairs@.take(p + 1).drop_last() =~= pairs@.take(p as int),
                pairs@.take(p + 1).last() == pairs@[p as int],
                forall|i: int|
                    0 <= i < words@.len() ==> {
                        &&& (#[trigger] words@[i]).name == mid[i].name
                        &&& words@[i].phones == mid[i].phones
                        &&& words@[i].next_word_prob == mid[i].next_word_prob
                    },
                forall|i: int|
                    0 <= i < w ==> (#[trigger] words@[i]).head_prob == (
                    if mid[i].name@ == pairs@[p as int].0@ {
                        pairs@[p as int].1
                    } else {
                        mid[i].head_prob
                    }),
                forall|i: int| w <= i < words@.len() ==> (#[trigger] words@[i]).head_prob == mid[i].head_prob,
            decreases words@.len() - w,
        {
            if bytes_eq(&words[w].name, &pairs[p].0) {
                let wr = &mut words[w];
                wr.head_prob = pr;
            }
            w = w + 1;
        }
        p = p + 1;
    }
    proof {
        assert(pairs@.take(pairs@.len() as int) =~= pairs@);
    }
}

/// Applies the bigram entries: every entry sets, in every word bearing its
/// first name, the next-word score of every word bearing its second name,
/// so the last entry for a name pair wins.
pub fn read_next_word_probs(triples: &Vec<(Vec<u8>, Vec<u8>, Option<i64>)>, words: &mut Vec<Word>)
    requires
        forall|w: int|
            0 <= w < old(words)@.len() ==> (#[trigger] old(words)@[w]).next_word_prob@.len()
                == old(words)@.len(),
    ensures
        final(words)@.len() == old(words)@.len(),
        forall|w: int|
            0 <= w < old(words)@.len() ==> {
                &&& (#[trigger] final(words)@[w]).name == old(words)@[w].name
                &&& final(words)@[w].phones == old(words)@[w].phones
                &&& final(words)@[w].head_prob == old(words)@[w].head_prob
                &&& final(words)@[w].next_word_prob@.len() == old(words)@.len()
            },
        forall|w: int, j: int|
            0 <= w < old(words)@.len() && 0 <= j < old(words)@.len()
                ==> (#[trigger] final(words)@[w].next_word_prob@[j]) == (match last_pair_match(
                triples@,
                old(words)@[w].name@,
                old(words)@[j].name@,
            ) {
                Some(pr) => pr,
                None => old(words)@[w].next_word_prob@[j],
            }),
{
    let n = words.len();
    let mut t: usize = 0;
    proof {
        assert(triples@.take(0) =~= Seq::<(Vec<u8>, Vec<u8>, Option<i64>)>::empty());
    }
    while t < triples.len()
        invariant
            n == old(words)@.len(),
            words@.len() == n,
            t <= triples@.len(),
            forall|w: int|
                0 <= w < n ==> {
                    &&& (#[trigger] words@[w]).name == old(words)@[w].name
                    &&& words@[w].phones == old(words)@[w].phones
                    &&& words@[w].head_prob == old(words)@[w].head_prob
                    &&& words@[w].next_word_prob@.len() == n
                },
            forall|w: int, j: int|
                0 <= w < n && 0 <= j < n ==> (#[trigger] words@[w].next_word_prob@[j]) == (
                match last_pair_match(
                    triples@.take(t as int),
                    old(words)@[w].name@,
                    old(words)@[j].name@,
                ) {
                    Some(pr) => pr,
                    None => old(words)@[w].next_word_prob@[j],
                }),
        decreases triples@.len() - t,
    {
        let pr = triples[t].2;
        let ghost mid = words@;
        proof {
            assert(triples@.take(t + 1).drop_last() =~= triples@.take(t as int));
            assert(triples@.take(t + 1).last() == triples@[t as int]);
        }

        // collect the positions of the words that bear the second name
        let mut dsts: Vec<usize> = Vec::new();
        let mut d: usize = 0;
        while d < n
            invariant
                words@ == mid,
                words@.len() == n,
                t < triples@.len(),
                d <= n,
                forall|m: int|
                    0 <= m < dsts@.len() ==> (#[trigger] dsts@[m]) < n
                        && mid[dsts@[m] as int].name@ == triples@[t as int].1@,
                forall|j: int|
                    0 <= j < d && mid[j].name@ == triples@[t as int].1@ ==> dsts@.contains(
                        j as usize,
                    ),
            decreases n - d,
        {
            let ghost dsts0 = dsts@;
            let matched = bytes_eq(&words[d].name, &triples[t].1);
            if matched {
                dsts.push(d);
            }
            proof {
                assert forall|j: int|
                    0 <= j < d + 1 && mid[j].name@ == triples@[t as int].1@ implies dsts@.contains(
                    j as usize,
                ) by {
                    if j < d {
                        let ii = choose|ii: int| 0 <= ii < dsts0.len() && dsts0[ii] == j as usize;
                        assert(dsts@[ii] == j as usize);
                    } else {
                        assert(matched);
                        assert(dsts@[dsts0.len() as int] == d as usize);
                    }
                }
            }
            d = d + 1;
        }

        let mut s: usize = 0;
        while s < n
            invariant
                n == old(words)@.len(),
                words@.len() == n,
                t < triples@.len(),
                s <= n,
                pr == triples@[t as int].2,
                forall|m: int|
                    0 <= m < dsts@.len() ==> (#[trigger] dsts@[m]) < n
                        && mid[dsts@[m] as int].name@ == triples@[t as int].1@,
                forall|j: int|
                    0 <= j < n && mid[j].name@ == triples@[t as int].1@ ==> dsts@.contains(
                        j as usize,
                    ),
                forall|w: int| 0 <= w < n ==> (#[trigger] mid[w]).next_word_prob@.len() == n,
                forall|w: int|
                    0 <= w < n ==> {
                        &&& (#[trigger] words@[w]).name == mid[w].name
                        &&& words@[w].phones == mid[w].phones
                        &&& words@[w].head_prob == mid[w].head_prob
                        &&& words@[w].next_word_prob@.len() == n
                    },
                forall|w: int, j: int|
                    0 <= w < s && 0 <= j < n ==> (#[trigger] words@[w].next_word_prob@[j]) == (
                    if mid[w].name@ == triples@[t as int].0@
                        && mid[j].name@ == triples@[t as int].1@ {
                        triples@[t as int].2
                    } else {
                        mid[w].next_word_prob@[j]
                    }),
                forall|w: int, j: int|
                    s <= w < n && 0 <= j < n ==> (#[trigger] words@[w].next_word_prob@[j])
                        == mid[w].next_word_prob@[j],
            decreases n - s,
        {
            if bytes_eq(&words[s].name, &triples[t].0) {
                let mut m: usize = 0;
                while m < dsts.len()
                    invariant
                        words@.len() == n,
                        s < n,
                        t < triples@.len(),
                        m <= dsts@.len(),
                        pr == triples@[t as int].2,
                        mid[s as int].name@ == triples@[t as int].0@,
                        forall|mm: int|
                            0 <= mm < dsts@.len() ==> (#[trigger] dsts@[mm]) < n
                                && mid[dsts@[mm] as int].name@ == triples@[t as int].1@,
                        forall|w: int| 0 <= w < n ==> (#[trigger] words@[w]).next_word_prob@.len() == n,
                        forall|w: int| 0 <= w < n ==> (#[trigger] mid[w]).next_word_prob@.len() == n,
                        forall|w: int|
                            0 <= w < n ==> {
                                &&& (#[trigger] words@[w]).name == mid[w].name
                                &&& words@[w].phones == mid[w].phones
                                &&& words@[w].head_prob == mid[w].head_prob
                            },
                        forall|w: int, j: int|
                            0 <= w < n && w != s && 0 <= j < n
                                ==> (#[trigger] words@[w].next_word_prob@[j]) == prior_cell(
                                mid,
                                triples@[t as int],
                                s as int,
                                w,
                                j,
                            ),
                        forall|j: int|
                            0 <= j < n ==> (#[trigger] words@[s as int].next_word_prob@[j]) == (
                            if dsts@.take(m as int).contains(j as usize) {
                                triples@[t as int].2
                            } else {
                                mid[s as int].next_word_prob@[j]
                            }),
                    decreases dsts@.len() - m,
                {
                    let dd = dsts[m];
                    let wr = &mut words[s];
                    wr.next_word_prob.set(dd, pr);
                    proof {
                        assert(dsts@.take(m + 1).drop_last() =~= dsts@.take(m as int));
                        assert(dsts@.take(m + 1).last() == dsts@[m as int]);
                        assert forall|j: int|
                            0 <= j < n implies (#[trigger] words@[s as int].next_word_prob@[j])
                            == (if dsts@.take(m + 1).contains(j as usize) {
                            triples@[t as int].2
                        } else {
                            mid[s as int].next_word_prob@[j]
                        }) by {
                            if dsts@.take(m + 1).contains(j as usize) && !dsts@.take(
                                m as int,
                            ).contains(j as usize) {
                                assert(j == dd);
                            }
                        }
                    }
                    m = m + 1;
                }
                proof {
                    assert(dsts@.take(dsts@.len() as int) =~= dsts@);
                    assert forall|j: int|
                        0 <= j < n implies (#[trigger] words@[s as int].next_word_prob@[j]) == (
                        if mid[s as int].name@ == triples@[t as int].0@
                            && mid[j].name@ == triples@[t as int].1@ {
                            triples@[t as int].2
                        } else {
                            mid[s as int].next_word_prob@[j]
                        }) by {
                        if mid[j].name@ == triples@[t as int].1@ {
                            assert(dsts@.contains(j as usize));
                        } else {
                            if dsts@.contains(j as usize) {
                                let idx = choose|ii: int|
                                    0 <= ii < dsts@.len() && dsts@[ii] == j as usize;
                                assert(mid[dsts@[idx] as int].name@ == triples@[t as int].1@);
                            }
                        }
                    }
                }
            }
            s = s + 1;
        }
        proof {
            assert forall|w: int, j: int|
                0 <= w < n && 0 <= j < n implies (#[trigger] words@[w].next_word_prob@[j]) == (
                match last_pair_match(
                    triples@.take(t + 1),
                    old(words)@[w].name@,
                    old(words)@[j].name@,
                ) {
                    Some(prr) => prr,
                    None => old(words)@[w].next_word_prob@[j],
                }) by {
                assert(mid[w].name@ == old(words)@[w].name@);
                assert(mid[j].name@ == old(words)@[j].name@);
            }
        }
        t = t + 1;
    }
    proof {
        assert(triples@.take(triples@.len() as int) =~= triples@);
    }
}

/// What one bigram entry, applied for source word `s`, leaves in the cell
/// `(w, j)` of the words it has already passed.
pub open spec fn prior_cell(
    mid: Seq<Word>,
    entry: (Vec<u8>, Vec<u8>, Option<i64>),
    s: int,
    w: int,
    j: int,
) -> Option<i64> {
    if w < s {
        if mid[w].name@ == entry.0@ && mid[j].name@ == entry.1@ {
            entry.2
        } else {
            mid[w].next_word_prob@[j]
        }
    } else {
        mid[w].next_word_prob@[j]
    }
}

/// A matched unigram score is one of the entries' scores.
proof fn lemma_last_head_match_ok(pairs: Seq<(Vec<u8>, Option<i64>)>, name: Seq<u8>)
    requires
        head_pairs_ok(pairs),
    ensures
        last_head_match(pairs, name) matches Some(p) ==> opt_score_ok(p),
    decreases pairs.len(),
{
    if pairs.len() > 0 && pairs.last().0@ != name {
        assert(head_pairs_ok(pairs.drop_last()));
        lemma_last_head_match_ok(pairs.drop_last(), name);
    }
}

/// A matched bigram score is one of the entries' scores.
proof fn lemma_last_pair_match_ok(
    triples: Seq<(Vec<u8>, Vec<u8>, Option<i64>)>,
    first: Seq<u8>,
    second: Seq<u8>,
)
    requires
        bigram_triples_ok(triples),
    ensures
        last_pair_match(triples, first, second) matches Some(p) ==> opt_score_ok(p),
    decreases triples.len(),
{
    if triples.len() > 0 && !(triples.last().0@ == first && triples.last().1@ == second) {
        assert(bigram_triples_ok(triples.drop_last()));
        lemma_last_pair_match_ok(triples.drop_last(), first, second);
    }
}

/// Builds the lexicon: reads the dictionary, then applies the unigram and
/// bigram entries.  A score out of range is a malformed artifact.
pub fn read_words(
    lines: &Vec<Vec<u8>>,
    unigram: &Vec<(Vec<u8>, Option<i64>)>,
    bigram: &Vec<(Vec<u8>, Vec<u8>, Option<i64>)>,
    phones: &Vec<Phone>,
) -> (r: Result<Vec<Word>, BuildError>)
    ensures
        r is Ok <==> head_pairs_ok(unigram@) && bigram_triples_ok(bigram@) && dict_err(
            phones@,
            lines.deep_view(),
        ) is None,
        match r {
            Ok(words) => {
                &&& words_wf(phones@, words@)
                &&& words@.len() == dict_entries(lines.deep_view()).len()
                &&& forall|w: int|
                    0 <= w < words@.len() ==> {
                        let e = #[trigger] dict_entries(lines.deep_view())[w];
                        &&& words[w].name@ == e[0]
                        &&& words[w].phones@.len() == e.len() - 1
                        &&& forall|k: int|
                            0 <= k < e.len() - 1
                                ==> Some((#[trigger] words[w].phones[k]) as int) == find_first(
                                phones@,
                                e[k + 1],
                            )
                    }
                &&& forall|w: int|
                    0 <= w < words@.len() ==> (#[trigger] words[w]).head_prob == (
                    match last_head_match(unigram@, words[w].name@) {
                        Some(p) => p,
                        None => None::<i64>,
                    })
                &&& forall|w: int, j: int|
                    0 <= w < words@.len() && 0 <= j < words@.len()
                        ==> (#[trigger] words[w].next_word_prob[j]) == (match last_pair_match(
                        bigram@,
                        words[w].name@,
                        words[j].name@,
                    ) {
                        Some(p) => p,
                        None => None::<i64>,
                    })
            },
            Err(e) => {
                if !(head_pairs_ok(unigram@) && bigram_triples_ok(bigram@)) {
                    e == BuildError::ParseError
                } else {
                    dict_err(phones@, lines.deep_view()) == Some(e)
                }
            },
        },
{
    let mut p: usize = 0;
    while p < unigram.len()
        invariant
            p <= unigram@.len(),
            forall|i: int| 0 <= i < p ==> opt_score_ok((#[trigger] unigram@[i]).1),
        decreases unigram@.len() - p,
    {
        match unigram[p].1 {
            Some(v) => {
                if v > 0 || v < -crate::SCORE_LIMIT {
                    return Err(BuildError::ParseError);
                }
            },
            None => {},
        }
        p = p + 1;
    }
    let mut t: usize = 0;
    while t < bigram.len()
        invariant
            t <= bigram@.len(),
            forall|i: int| 0 <= i < t ==> opt_score_ok((#[trigger] bigram@[i]).2),
        decreases bigram@.len() - t,
    {
        match bigram[t].2 {
            Some(v) => {
                if v > 0 || v < -crate::SCORE_LIMIT {
                    return Err(BuildError::ParseError);
                }
            },
            None => {},
        }
        t = t + 1;
    }

    let mut words = match read_dictionary(lines, phones) {
        Ok(words) => words,
        Err(e) => {
            return Err(e);
        },
    };
    let ghost dict_words = words@;
    read_head_probs(unigram, &mut words);
    let ghost headed = words@;
    read_next_word_probs(bigram, &mut words);
    proof {
        let lvv = lines.deep_view();
        let n = dict_words.len() as int;
        assert forall|w: int| 0 <= w < n implies {
            let e = #[trigger] dict_entries(lvv)[w];
            &&& (#[trigger] words@[w]).name == dict_words[w].name
            &&& words@[w].phones == dict_words[w].phones
            &&& words@[w].next_word_prob@.len() == n
            &&& dict_words[w].name@ == e[0]
            &&& dict_words[w].head_prob is None
            &&& words@[w].head_prob == (match last_head_match(unigram@, dict_words[w].name@) {
                Some(p) => p,
                None => dict_words[w].head_prob,
            })
        } by {
            let e = dict_entries(lvv)[w];
            assert(headed[w].name == dict_words[w].name);
            assert(headed[w].next_word_prob == dict_words[w].next_word_prob);
            assert(words@[w].name == headed[w].name);
            assert(words@[w].head_prob == headed[w].head_prob);
        }
        assert forall|w: int, j: int|
            0 <= w < n && 0 <= j < n implies (#[trigger] words@[w].next_word_prob[j]) == (
        match last_pair_match(bigram@, words@[w].name@, words@[j].name@) {
            Some(p) => p,
            None => None::<i64>,
        }) by {
            let e = dict_entries(lvv)[w];
            let e2 = dict_entries(lvv)[j];
            assert(headed[w].name == dict_words[w].name);
            assert(headed[j].name == dict_words[j].name);
            assert(headed[w].next_word_prob == dict_words[w].next_word_prob);
            assert(words@[w].name == headed[w].name);
            assert(words@[j].name == headed[j].name);
            assert(dict_words[w].next_word_prob[j] is None);
            assert(words@[w].next_word_prob@[j] == (match last_pair_match(
                bigram@,
                headed[w].name@,
                headed[j].name@,
            ) {
                Some(p) => p,
                None => headed[w].next_word_prob@[j],
            }));
        }
        assert forall|w: int| 0 <= w < n implies (#[trigger] words@[w]).head_prob == (
        match last_head_match(unigram@, words@[w].name@) {
            Some(p) => p,
            None => None::<i64>,
        }) by {
            let e = dict_entries(lvv)[w];
            assert(words@[w].name@ == dict_words[w].name@);
            assert(dict_words[w].head_prob is None);
        }
        assert forall|w: int| 0 <= w < n implies (#[trigger] words@[w]).wf(phones@, n) by {
            let e = dict_entries(lvv)[w];
            assert(dict_words[w].wf(phones@, n));
            assert(words@[w].phones == dict_words[w].phones);
            lemma_last_head_match_ok(unigram@, dict_words[w].name@);
            assert(opt_score_ok(words@[w].head_prob));
            assert forall|j: int|
                0 <= j < n implies opt_score_ok(#[trigger] words@[w].next_word_prob[j]) by {
                lemma_last_pair_match_ok(bigram@, words@[w].name@, words@[j].name@);
            }
        }
    }
    Ok(words)
}

/// The decoded word indices with the sentence markers removed.
pub open spec fn strip_spec(indices: Seq<usize>, words: Seq<Word>) -> Seq<usize> {
    indices.filter(|i: usize| !words[i as int].spec_is_marker())
}

/// Removes the sentence-marker words from a decoded index sequence.
pub fn strip_markers(indices: &Vec<usize>, words: &Vec<Word>) -> (r: Vec<usize>)
    requires
        forall|i: int| 0 <= i < indices@.len() ==> (#[trigger] indices@[i]) < words@.len(),
    ensures
        r@ == strip_spec(indices@, words@),
{
    let mut r: Vec<usize> = Vec::new();
    let mut i: usize = 0;
    proof {
        reveal_with_fuel(Seq::<usize>::filter, 1);
        assert(indices@.take(0) =~= Seq::<usize>::empty());
        assert(strip_spec(indices@.take(0), words@) =~= Seq::<usize>::empty());
    }
    while i < indices.len()
        invariant
            forall|k: int| 0 <= k < indices@.len() ==> (#[trigger] indices@[k]) < words@.len(),
            i <= indices@.len(),
            r@ == strip_spec(indices@.take(i as int), words@),
        decreases indices@.len() - i,
    {
        let idx = indices[i];
        proof {
            reveal_with_fuel(Seq::<usize>::filter, 2);
            assert(indices@.take(i + 1).drop_last() =~= indices@.take(i as int));
            assert(indices@.take(i + 1).last() == indices@[i as int]);
            assert(strip_spec(indices@.take(i + 1), words@) == (
            if !words@[idx as int].spec_is_marker() {
                strip_spec(indices@.take(i as int), words@).push(idx)
            } else {
                strip_spec(indices@.take(i as int), words@)
            }));
        }
        if !words[idx].is_marker() {
            r.push(idx);
        }
        i = i + 1;
    }
    proof {
        assert(indices@.take(indices@.len() as int) =~= indices@);
    }
    r
}

/// A vector of `n` zero probabilities.
fn none_vec(n: usize) -> (r: Vec<Option<i64>>)
    ensures
        r@.len() == n,
        forall|j: int| 0 <= j < n ==> (#[trigger] r@[j]) is None,
{
    let mut r: Vec<Option<i64>> = Vec::new();
    let mut i: usize = 0;
    while i < n
        invariant
            i <= n,
            r@.len() == i,
            forall|j: int| 0 <= j < i ==> (#[trigger] r@[j]) is None,
        decreases n - i,
    {
        r.push(None);
        i = i + 1;
    }
    r
}

} // verus!
