use vstd::prelude::*;
use crate::{opt_score_ok, BuildError};
use crate::text::bytes_eq;

verus! {

/// The short-pause phone's name, `"sp"`, as bytes.
pub open spec fn sp_name() -> Seq<u8> {
    seq![115u8, 112u8]
}

/// One phone's hidden Markov model.  Probabilities are log-domain scores;
/// `None` stands for probability zero (see the crate root).
#[derive(Debug, PartialEq, Eq)]
pub struct Phone {
    /// Position of this phone in the phone table.
    pub index: usize,
    /// Symbolic name; `"sp"` designates the skippable short pause.
    pub name: Vec<u8>,
    /// Number of emitting states, at least one.
    pub n_states: usize,
    /// Score of entering emitting state `s` from the virtual entry.
    pub in_prob: Vec<Option<i64>>,
    /// Score of moving from emitting state `s` to emitting state `d`.
    pub trans_prob: Vec<Vec<Option<i64>>>,
    /// Score of leaving the phone via the exit from emitting state `s`.
    pub out_prob: Vec<Option<i64>>,
    /// Score of crossing the phone from entry to exit without emitting.
    pub skip_prob: Option<i64>,
}

impl Phone {
    /// Shape and score-range invariant.
    pub open spec fn wf(self) -> bool {
        &&& 1 <= self.n_states
        &&& self.in_prob.len() == self.n_states
        &&& self.trans_prob.len() == self.n_states
        &&& self.out_prob.len() == self.n_states
        &&& forall|s: int| 0 <= s < self.n_states ==> (#[trigger] self.trans_prob[s]).len() == self.n_states
        &&& forall|s: int| 0 <= s < self.n_states ==> opt_score_ok(#[trigger] self.in_prob[s])
        &&& forall|s: int| 0 <= s < self.n_states ==> opt_score_ok(#[trigger] self.out_prob[s])
        &&& forall|s: int, d: int| 0 <= s < self.n_states && 0 <= d < self.n_states
            ==> opt_score_ok(#[trigger] self.trans_prob[s][d])
        &&& opt_score_ok(self.skip_prob)
    }

    /// Whether this phone is the short pause.
    pub open spec fn spec_is_sp(self) -> bool {
        self.name@ == sp_name()
    }

    /// Tests whether this phone is named `"sp"`.
    pub fn is_sp(&self) -> (r: bool)
        ensures
            r == self.spec_is_sp(),
    {
        let r = self.name.len() == 2 && self.name[0] == 115 && self.name[1] == 112;
        proof {
            if r {
                assert(self.name@ =~= sp_name());
            }
        }
        r
    }
}

/// A well-formed phone table: each phone well-formed and indexed by its
/// position.
pub open spec fn phones_wf(phones: Seq<Phone>) -> bool {
    forall|i: int| 0 <= i < phones.len()
        ==> (#[trigger] phones[i]).wf() && phones[i].index == i
}

/// Position of the first phone named `name` at or after position `i`.
pub open spec fn find_first_from(phones: Seq<Phone>, name: Seq<u8>, i: int) -> Option<int>
    decreases phones.len() - i,
{
    if 0 <= i < phones.len() {
        if phones[i].name@ == name {
            Some(i)
        } else {
            find_first_from(phones, name, i + 1)
        }
    } else {
        None
    }
}

/// Position of the first phone named `name`, if any.
pub open spec fn find_first(phones: Seq<Phone>, name: Seq<u8>) -> Option<int> {
    find_first_from(phones, name, 0)
}

/// A found position lies in the table and names the phone asked for.
pub proof fn lemma_find_first_in_range(phones: Seq<Phone>, name: Seq<u8>, i: int)
    ensures
        find_first_from(phones, name, i) matches Some(j) ==> i <= j < phones.len()
            && phones[j].name@ == name,
    decreases phones.len() - i,
{
    if 0 <= i < phones.len() {
        if phones[i].name@ != name {
            lemma_find_first_in_range(phones, name, i + 1);
        }
    }
}

/// Looks a phone up by name; returns the position of the first match.
pub fn find(name: &Vec<u8>, phones: &Vec<Phone>) -> (r: Option<usize>)
    ensures
        match r {
            Some(i) => i < phones.len() && phones[i as int].name@ == name@
                && find_first(phones@, name@) == Some(i as int),
            None => find_first(phones@, name@) is None
                && forall|j: int| 0 <= j < phones.len() ==> (#[trigger] phones[j]).name@ != name@,
        },
{
    let mut i: usize = 0;
    while i < phones.len()
        invariant
            i <= phones.len(),
            forall|j: int| 0 <= j < i ==> (#[trigger] phones[j]).name@ != name@,
            find_first(phones@, name@) == find_first_from(phones@, name@, i as int),
        decreases phones.len() - i,
    {
        if bytes_eq(&phones[i].name, name) {
            return Some(i);
        }
        i = i + 1;
    }
    None
}

/// A well-shaped transition matrix for `n_states` emitting states: square of
/// size `n_states + 2` with every score in range.
pub open spec fn transp_ok(tp: Seq<Vec<Option<i64>>>, n_states: usize) -> bool {
    &&& 1 <= n_states
    &&& tp.len() == n_states + 2
    &&& forall|i: int| 0 <= i < n_states + 2
        ==> (#[trigger] tp[i])@.len() == n_states + 2
            && forall|j: int| 0 <= j < n_states + 2 ==> opt_score_ok(#[trigger] tp[i]@[j])
}

/// Assembles one phone from its transition matrix, read row-major with the
/// virtual entry as row `0` and the virtual exit as column `n_states + 1`.
/// The matrix must be square of size `n_states + 2` with every score in
/// range; otherwise the artifact is malformed.
pub fn read_phone(
    index: usize,
    name: Vec<u8>,
    n_states: usize,
    tp: &Vec<Vec<Option<i64>>>,
) -> (r: Result<Phone, BuildError>)
    ensures
        match r {
            Ok(ph) => {
                &&& ph.wf()
                &&& ph.index == index
                &&& ph.name@ == name@
                &&& ph.n_states == n_states
                &&& ph.in_prob@ == tp[0]@.subrange(1, n_states + 1)
                &&& forall|s: int| 0 <= s < n_states
                    ==> (#[trigger] ph.trans_prob[s])@ == tp[s + 1]@.subrange(1, n_states + 1)
                &&& forall|s: int| 0 <= s < n_states
                    ==> #[trigger] ph.out_prob[s] == tp[s + 1][n_states + 1]
                &&& ph.skip_prob == tp[0][n_states + 1]
            },
            Err(e) => e == BuildError::ParseError,
        },
        r is Ok <==> transp_ok(tp@, n_states),
{
    let n_rows = tp.len();
    if n_states == 0 || n_states > usize::MAX - 2 || n_rows != n_states + 2 {
        return Err(BuildError::ParseError);
    }
    let mut row: usize = 0;
    while row < n_states + 2
        invariant
            n_states <= usize::MAX - 2,
            tp@.len() == n_states + 2,
            row <= n_states + 2,
            forall|i: int| 0 <= i < row
                ==> (#[trigger] tp[i])@.len() == n_states + 2
                    && forall|j: int| 0 <= j < n_states + 2 ==> opt_score_ok(#[trigger] tp[i][j]),
        decreases n_states + 2 - row,
    {
        if tp[row].len() != n_states + 2 {
            return Err(BuildError::ParseError);
        }
        let mut col: usize = 0;
        while col < n_states + 2
            invariant
                n_states <= usize::MAX - 2,
                tp@.len() == n_states + 2,
                row < n_states + 2,
                tp[row as int]@.len() == n_states + 2,
                col <= n_states + 2,
                forall|j: int| 0 <= j < col ==> opt_score_ok(#[trigger] tp[row as int][j]),
            decreases n_states + 2 - col,
        {
            match tp[row][col] {
                Some(v) => {
                    if v > 0 || v < -crate::SCORE_LIMIT {
                        return Err(BuildError::ParseError);
                    }
                },
                None => {},
            }
            col = col + 1;
        }
        row = row + 1;
    }

    let mut in_prob: Vec<Option<i64>> = Vec::new();
    let mut s: usize = 1;
    while s < n_states + 1
        invariant
            n_states <= usize::MAX - 2,
            tp@.len() == n_states + 2,
            tp[0]@.len() == n_states + 2,
            1 <= s <= n_states + 1,
            in_prob@ =~= tp[0]@.subrange(1, s as int),
        decreases n_states + 1 - s,
    {
        in_prob.push(tp[0][s]);
        s = s + 1;
    }

    let mut trans_prob: Vec<Vec<Option<i64>>> = Vec::new();
    let mut out_prob: Vec<Option<i64>> = Vec::new();
    let mut r: usize = 1;
    while r < n_states + 1
        invariant
            n_states <= usize::MAX - 2,
            tp@.len() == n_states + 2,
            forall|i: int| 0 <= i < n_states + 2 ==> (#[trigger] tp[i])@.len() == n_states + 2,
            1 <= r <= n_states + 1,
            trans_prob@.len() == r - 1,
            out_prob@.len() == r - 1,
            forall|i: int| 0 <= i < r - 1
                ==> (#[trigger] trans_prob[i])@ =~= tp[i + 1]@.subrange(1, n_states + 1),
            forall|i: int| 0 <= i < r - 1
                ==> #[trigger] out_prob[i] == tp[i + 1][n_states + 1],
        decreases n_states + 1 - r,
    {
        let mut row_scores: Vec<Option<i64>> = Vec::new();
        let mut d: usize = 1;
        while d < n_states + 1
            invariant
                n_states <= usize::MAX - 2,
                tp@.len() == n_states + 2,
                forall|i: int| 0 <= i < n_states + 2 ==> (#[trigger] tp[i])@.len() == n_states + 2,
                1 <= r < n_states + 1,
                1 <= d <= n_states + 1,
                row_scores@ =~= tp[r as int]@.subrange(1, d as int),
            decreases n_states + 1 - d,
        {
            row_scores.push(tp[r][d]);
            d = d + 1;
        }
        trans_prob.push(row_scores);
        out_prob.push(tp[r][n_states + 1]);
        r = r + 1;
    }

    let skip_prob = tp[0][n_states + 1];
    let ph = Phone { index, name, n_states, in_prob, trans_prob, out_prob, skip_prob };
    proof {
        assert forall|i: int| 0 <= i < n_states implies (#[trigger] ph.trans_prob[i])@.len()
            == n_states by {
            assert(ph.trans_prob[i]@ =~= tp[i + 1]@.subrange(1, n_states + 1));
        }
    }
    Ok(ph)
}

} // verus!
