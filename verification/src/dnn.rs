use vstd::prelude::*;
use crate::phone::{phones_wf, Phone};
use crate::viterbi::obs_wf;

verus! {

/// The decoder-facing state of the DNN scorer: which classifier output
/// feeds which `(phone, state)` cell, and which frame window the
/// classifier expects.  The classifier itself lives outside the library;
/// the decoder consumes its log posteriors as plain values.
pub struct Dnn {
    /// For each classifier output index, the phone-table position and
    /// state index of the cell it scores.
    pub label_info: Vec<(usize, usize)>,
    /// Inclusive start and exclusive end of the frame window, as offsets
    /// around the target frame.
    pub spectrum_window_range: (i32, i32),
}

/// The score the label map leaves in the cell `(ph, st)`: the last
/// classifier output mapped to it, or nothing when no output is.
pub open spec fn label_score(
    labels: Seq<(usize, usize)>,
    output: Seq<Option<i64>>,
    ph: int,
    st: int,
) -> Option<i64>
    decreases labels.len(),
{
    if labels.len() == 0 {
        None
    } else if labels.last().0 == ph && labels.last().1 == st {
        output[labels.len() - 1]
    } else {
        label_score(labels.drop_last(), output, ph, st)
    }
}

impl Dnn {
    /// The label map addresses the phone table.
    pub open spec fn labels_wf(self, phones: Seq<Phone>) -> bool {
        forall|i: int|
            0 <= i < self.label_info.len() ==> (#[trigger] self.label_info[i]).0 < phones.len()
                && self.label_info[i].1 < phones[self.label_info[i].0 as int].n_states
    }

    /// Spreads one frame's log posteriors into the observation table:
    /// each mapped cell gets the last classifier output mapped to it, and
    /// unmapped cells stay unavailable.
    pub fn compute_observation_prob(&self, output: &Vec<Option<i64>>, phones: &Vec<Phone>) -> (r:
        Vec<Vec<Option<i64>>>)
        requires
            phones_wf(phones@),
            self.labels_wf(phones@),
            output@.len() == self.label_info@.len(),
            forall|i: int|
                0 <= i < output@.len() ==> ((#[trigger] output@[i]) matches Some(v)
                    ==> crate::obs_score_ok(v)),
        ensures
            obs_wf(phones@, r),
            forall|ph: int, st: int|
                0 <= ph < phones@.len() && 0 <= st < phones@[ph].n_states
                    ==> #[trigger] r@[ph][st] == label_score(
                    self.label_info@,
                    output@,
                    ph,
                    st,
                ),
    {
        let mut observation_prob: Vec<Vec<Option<i64>>> = Vec::new();
        let mut ph: usize = 0;
        while ph < phones.len()
            invariant
                ph <= phones@.len(),
                observation_prob@.len() == ph,
                forall|i: int|
                    0 <= i < ph ==> (#[trigger] observation_prob@[i])@.len()
                        == phones@[i].n_states,
                forall|i: int, st: int|
                    0 <= i < ph && 0 <= st < phones@[i].n_states
                        ==> (#[trigger] observation_prob@[i][st]) is None,
            decreases phones@.len() - ph,
        {
            let n = phones[ph].n_states;
            let mut row: Vec<Option<i64>> = Vec::new();
            let mut st: usize = 0;
            while st < n
                invariant
                    row@.len() == st,
                    st <= n,
                    forall|j: int| 0 <= j < st ==> (#[trigger] row@[j]) is None,
                decreases n - st,
            {
                row.push(None);
                st = st + 1;
            }
            observation_prob.push(row);
            ph = ph + 1;
        }
        proof {
            assert(self.label_info@.take(0) =~= Seq::<(usize, usize)>::empty());
        }

        let mut k: usize = 0;
        while k < self.label_info.len()
            invariant
                phones_wf(phones@),
                self.labels_wf(phones@),
                output@.len() == self.label_info@.len(),
                k <= self.label_info@.len(),
                observation_prob@.len() == phones@.len(),
                forall|i: int|
                    0 <= i < phones@.len() ==> (#[trigger] observation_prob@[i])@.len()
                        == phones@[i].n_states,
                forall|i: int, st: int|
                    0 <= i < phones@.len() && 0 <= st < phones@[i].n_states
                        ==> #[trigger] observation_prob@[i][st] == label_score(
                        self.label_info@.take(k as int),
                        output@,
                        i,
                        st,
                    ),
            decreases self.label_info@.len() - k,
        {
            let (phone_index, state_num) = self.label_info[k];
            let ghost before = observation_prob@;
            let row_ref: &mut Vec<Option<i64>> = &mut observation_prob[phone_index];
            row_ref.set(state_num, output[k]);
            proof {
                assert(self.label_info@.take(k + 1).drop_last() =~= self.label_info@.take(
                    k as int,
                ));
                assert(self.label_info@.take(k + 1).last() == self.label_info@[k as int]);
                assert forall|i: int, st: int|
                    0 <= i < phones@.len() && 0 <= st < phones@[i].n_states implies
                #[trigger] observation_prob@[i][st] == label_score(
                    self.label_info@.take(k + 1),
                    output@,
                    i,
                    st,
                ) by {
                    if !(i == phone_index && st == state_num) {
                        assert(observation_prob@[i][st] == before[i][st]);
                    }
                }
            }
            k = k + 1;
        }
        proof {
            assert(self.label_info@.take(self.label_info@.len() as int) =~= self.label_info@);
            assert forall|i: int, st: int|
                0 <= i < phones@.len() && 0 <= st < phones@[i].n_states implies ((
            #[trigger] observation_prob@[i][st]) matches Some(v) ==> crate::obs_score_ok(v)) by {
                lemma_label_score_ok(self.label_info@, output@, i, st);
            }
        }
        observation_prob
    }
}

/// A mapped score is one of the classifier's outputs.
proof fn lemma_label_score_ok(labels: Seq<(usize, usize)>, output: Seq<Option<i64>>, ph: int, st: int)
    requires
        output.len() == labels.len(),
        forall|i: int|
            0 <= i < output.len() ==> ((#[trigger] output[i]) matches Some(v)
                ==> crate::obs_score_ok(v)),
    ensures
        label_score(labels, output, ph, st) matches Some(v) ==> crate::obs_score_ok(v),
    decreases labels.len(),
{
    if labels.len() > 0 && !(labels.last().0 == ph && labels.last().1 == st) {
        assert(output.drop_last() =~= output.take(labels.len() - 1));
        lemma_label_score_ok(labels.drop_last(), output.drop_last(), ph, st);
        assert(label_score(labels.drop_last(), output.drop_last(), ph, st) == label_score(
            labels.drop_last(),
            output,
            ph,
            st,
        )) by {
            lemma_label_score_prefix(labels.drop_last(), output, ph, st);
        }
    }
}

/// The score of a label prefix reads only that prefix of the outputs.
proof fn lemma_label_score_prefix(labels: Seq<(usize, usize)>, output: Seq<Option<i64>>, ph: int, st: int)
    requires
        labels.len() <= output.len(),
    ensures
        label_score(labels, output.take(labels.len() as int), ph, st) == label_score(
            labels,
            output,
            ph,
            st,
        ),
    decreases labels.len(),
{
    if labels.len() > 0 && !(labels.last().0 == ph && labels.last().1 == st) {
        lemma_label_score_prefix(labels.drop_last(), output, ph, st);
        lemma_label_score_prefix(labels.drop_last(), output.take(labels.len() as int), ph, st);
        assert(output.take(labels.len() as int).take(labels.len() - 1) =~= output.take(
            labels.len() - 1,
        ));
    }
}

/// The index a window offset lands on, clamped to the spectrogram.
pub open spec fn clamp_index(time_length: int, ti: int) -> int {
    if ti < 0 {
        0
    } else if ti >= time_length {
        time_length - 1
    } else {
        ti
    }
}

/// The frame indices of the window around frame `index`: one per offset
/// from the range's inclusive start to its exclusive end, each clamped to
/// the spectrogram's edges.
pub fn make_spectrum_window(time_length: usize, index: usize, range: (i32, i32)) -> (r: Vec<usize>)
    requires
        1 <= time_length <= 0x7fffffff,
        index < time_length,
        range.0 <= range.1,
    ensures
        r@.len() == range.1 - range.0,
        forall|k: int|
            0 <= k < r@.len() ==> #[trigger] r@[k] == clamp_index(
                time_length as int,
                index + range.0 + k,
            ) && r@[k] < time_length,
{
    let (start, end) = range;
    let mut r: Vec<usize> = Vec::new();
    let mut delta: i32 = start;
    while delta < end
        invariant
            start <= delta <= end,
            1 <= time_length <= 0x7fffffff,
            index < time_length,
            r@.len() == delta - start,
            forall|k: int|
                0 <= k < r@.len() ==> #[trigger] r@[k] == clamp_index(
                    time_length as int,
                    index + start + k,
                ) && r@[k] < time_length,
        decreases end - delta,
    {
        let ti: i64 = index as i64 + delta as i64;
        let clamped: usize = if ti < 0 {
            0
        } else if ti >= time_length as i64 {
            time_length - 1
        } else {
            ti as usize
        };
        r.push(clamped);
        delta = delta + 1;
    }
    r
}

} // verus!
