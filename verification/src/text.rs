use vstd::prelude::*;

verus! {

/// ASCII whitespace, as the tokenizer understands it.
pub open spec fn is_ws(b: u8) -> bool {
    b == 32 || b == 9 || b == 10 || b == 11 || b == 12 || b == 13
}

/// Length of the leading run of non-whitespace bytes of `s`.
pub open spec fn token_len(s: Seq<u8>) -> nat
    decreases s.len(),
{
    if s.len() == 0 || is_ws(s[0]) {
        0
    } else {
        1 + token_len(s.drop_first())
    }
}

pub proof fn lemma_token_len_le(s: Seq<u8>)
    ensures
        token_len(s) <= s.len(),
    decreases s.len(),
{
    if s.len() != 0 && !is_ws(s[0]) {
        lemma_token_len_le(s.drop_first());
    }
}

/// The leading token is exactly the run up to the first whitespace byte.
pub proof fn lemma_token_len_is(s: Seq<u8>, k: int)
    requires
        0 <= k <= s.len(),
        forall|j: int| 0 <= j < k ==> !is_ws(#[trigger] s[j]),
        k == s.len() || is_ws(s[k]),
    ensures
        token_len(s) == k,
    decreases k,
{
    if k == 0 {
    } else {
        assert(!is_ws(s[0]));
        let t = s.drop_first();
        assert(forall|j: int| 0 <= j < k - 1 ==> !is_ws(#[trigger] t[j]));
        lemma_token_len_is(t, k - 1);
    }
}

/// The sequence of maximal non-whitespace runs of `s`, in order.
pub open spec fn split_ws_spec(s: Seq<u8>) -> Seq<Seq<u8>>
    decreases s.len() via split_ws_spec_decreases
{
    if s.len() == 0 {
        seq![]
    } else if is_ws(s[0]) {
        split_ws_spec(s.drop_first())
    } else {
        seq![s.take(token_len(s) as int)] + split_ws_spec(s.skip(token_len(s) as int))
    }
}

#[via_fn]
proof fn split_ws_spec_decreases(s: Seq<u8>) {
    lemma_token_len_le(s);
}

fn ws(b: u8) -> (r: bool)
    ensures
        r == is_ws(b),
{
    b == 32 || b == 9 || b == 10 || b == 11 || b == 12 || b == 13
}

/// Exact byte-sequence equality.
pub fn bytes_eq(a: &Vec<u8>, b: &Vec<u8>) -> (r: bool)
    ensures
        r <==> a@ == b@,
{
    if a.len() != b.len() {
        return false;
    }
    let mut i: usize = 0;
    while i < a.len()
        invariant
            a@.len() == b@.len(),
            i <= a@.len(),
            forall|j: int| 0 <= j < i ==> a@[j] == b@[j],
        decreases a@.len() - i,
    {
        if a[i] != b[i] {
            return false;
        }
        i = i + 1;
    }
    proof {
        assert(a@ =~= b@);
    }
    true
}

/// An owned copy of a byte vector.
pub fn copy_bytes(v: &Vec<u8>) -> (r: Vec<u8>)
    ensures
        r@ == v@,
{
    let mut r: Vec<u8> = Vec::new();
    let mut i: usize = 0;
    while i < v.len()
        invariant
            i <= v@.len(),
            r@ =~= v@.subrange(0, i as int),
        decreases v@.len() - i,
    {
        r.push(v[i]);
        i = i + 1;
    }
    proof {
        assert(v@.subrange(0, v@.len() as int) =~= v@);
    }
    r
}

/// Splits a line into its whitespace-separated tokens.
pub fn split_whitespace(line: &Vec<u8>) -> (r: Vec<Vec<u8>>)
    ensures
        r.deep_view() == split_ws_spec(line@),
{
    let n = line.len();
    let mut r: Vec<Vec<u8>> = Vec::new();
    let mut i: usize = 0;
    proof {
        assert(line@.skip(0) =~= line@);
        assert(r.deep_view() =~= Seq::<Seq<u8>>::empty());
        assert(r.deep_view() + split_ws_spec(line@) =~= split_ws_spec(line@));
    }
    while i < n
        invariant
            n == line@.len(),
            i <= n,
            r.deep_view() + split_ws_spec(line@.skip(i as int)) == split_ws_spec(line@),
        decreases n - i,
    {
        if ws(line[i]) {
            proof {
                assert(line@.skip(i as int).drop_first() =~= line@.skip(i + 1));
            }
            i = i + 1;
        } else {
            let ghost rest = line@.skip(i as int);
            let mut j: usize = i;
            let mut tok: Vec<u8> = Vec::new();
            while j < n && !ws(line[j])
                invariant
                    n == line@.len(),
                    i <= j <= n,
                    tok@ =~= line@.subrange(i as int, j as int),
                    forall|m: int| i <= m < j ==> !is_ws(#[trigger] line@[m]),
                decreases n - j,
            {
                tok.push(line[j]);
                j = j + 1;
            }
            proof {
                let k = j - i;
                assert(forall|m: int| 0 <= m < k ==> rest[m] == line@[i + m]);
                assert(forall|m: int| 0 <= m < k ==> !is_ws(#[trigger] rest[m]));
                if k < rest.len() {
                    assert(rest[k as int] == line@[j as int]);
                }
                lemma_token_len_is(rest, k as int);
                assert(rest.take(k as int) =~= tok@);
                assert(rest.skip(k as int) =~= line@.skip(j as int));
                assert(split_ws_spec(rest) == seq![tok@] + split_ws_spec(line@.skip(j as int)));
            }
            let ghost old_r = r.deep_view();
            r.push(tok);
            proof {
                assert(r.deep_view() =~~= old_r.push(tok@));
                assert(old_r.push(tok@) =~= old_r + seq![tok@]);
            }
            i = j;
        }
    }
    proof {
        assert(line@.skip(n as int) =~= Seq::<u8>::empty());
        assert(r.deep_view() + split_ws_spec(line@.skip(n as int)) =~= r.deep_view());
    }
    r
}

} // verus!
