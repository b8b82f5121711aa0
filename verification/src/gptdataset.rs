use vstd::arithmetic::div_mod::{lemma_fundamental_div_mod, lemma_mod_bound};
use vstd::arithmetic::mul::lemma_mul_inequality;
use vstd::prelude::*;

use crate::tokenizer::{encode_of, encode_ok_of, encode_text, TokenizationError};

verus! {

/// Number of (input, target) windows that a corpus of `n` tokens yields
/// with window length `l` and stride `s`: the window starts are
/// `0, s, 2s, ...` strictly below `n - l`, so that each target window
/// (shifted one token to the right) still ends inside the corpus.
pub open spec fn spec_window_count(n: nat, l: nat, s: nat) -> nat
    recommends
        s >= 1,
{
    if n <= l {
        0
    } else {
        ((n - l - 1) / (s as int) + 1) as nat
    }
}

/// Token ids widened to the storage type of the windows.
pub open spec fn widen_tokens(toks: Seq<u32>) -> Seq<i64> {
    toks.map(|_i: int, t: u32| t as i64)
}

/// The input windows of a token sequence: window `w` holds the `l` tokens
/// starting at `w * s`.
pub open spec fn spec_window_inputs(toks: Seq<i64>, l: nat, s: nat) -> Seq<Seq<i64>>
    recommends
        l >= 1,
        s >= 1,
{
    Seq::new(
        spec_window_count(toks.len(), l, s),
        |w: int| toks.subrange(w * (s as int), w * (s as int) + (l as int)),
    )
}

/// The target windows of a token sequence: window `w` is the input window
/// shifted one token to the right.
pub open spec fn spec_window_targets(toks: Seq<i64>, l: nat, s: nat) -> Seq<Seq<i64>>
    recommends
        l >= 1,
        s >= 1,
{
    Seq::new(
        spec_window_count(toks.len(), l, s),
        |w: int| toks.subrange(w * (s as int) + 1, w * (s as int) + (l as int) + 1),
    )
}

/// Closed-form window count, kept in step with the windows that
/// `GPTDataset::from_tokens` actually materializes.
pub fn window_count(n: usize, l: usize, s: usize) -> (r: usize)
    requires
        l >= 1,
        s >= 1,
    ensures
        r == spec_window_count(n as nat, l as nat, s as nat),
{
    if n <= l {
        0
    } else {
        let m: usize = n - l - 1;
        assert(m / s <= m) by (nonlinear_arith)
            requires
                s >= 1,
        ;
        m / s + 1
    }
}

/// Every window start `w * s` of a window in range leaves room for the
/// target window: `w * s + l + 1 <= n`.
proof fn lemma_start_in_range(n: nat, l: nat, s: nat, w: nat)
    requires
        l >= 1,
        s >= 1,
        w < spec_window_count(n, l, s),
    ensures
        w * s + l + 1 <= n,
{
    let bound = (n - l) as int;
    let q = (bound - 1) / (s as int);
    lemma_fundamental_div_mod(bound - 1, s as int);
    lemma_mod_bound(bound - 1, s as int);
    lemma_mul_inequality(w as int, q, s as int);
    assert((s as int) * q == q * (s as int)) by (nonlinear_arith);
}

/// The contents of a sequence of rows, row by row.
pub open spec fn rows_of(v: Seq<Vec<i64>>) -> Seq<Seq<i64>> {
    Seq::new(v.len(), |i: int| v[i]@)
}

/// Appending a row appends its contents to the row view.
pub proof fn lemma_rows_of_push(v: Seq<Vec<i64>>, r: Vec<i64>)
    ensures
        rows_of(v.push(r)) == rows_of(v).push(r@),
{
    assert(rows_of(v.push(r)) =~= rows_of(v).push(r@));
}

/// An ordered collection of fixed-length (input, target) windows cut from
/// a token sequence. Built once; read-only afterward.
pub struct GPTDataset {
    input_ids: Vec<Vec<i64>>,
    target_ids: Vec<Vec<i64>>,
}

impl GPTDataset {
    #[verifier::type_invariant]
    spec fn well_formed(self) -> bool {
        self.input_ids@.len() == self.target_ids@.len()
    }

    /// The input windows, each a sequence of token ids.
    pub closed spec fn inputs(self) -> Seq<Seq<i64>> {
        rows_of(self.input_ids@)
    }

    /// The target windows, each a sequence of token ids.
    pub closed spec fn targets(self) -> Seq<Seq<i64>> {
        rows_of(self.target_ids@)
    }

    /// The number of windows.
    pub open spec fn spec_len(self) -> nat {
        self.inputs().len()
    }

    /// Cut a token sequence into windows: window `w` starts at `w * stride`,
    /// its input is the next `max_length` tokens and its target the same
    /// span shifted one token to the right. If the sequence is not longer
    /// than `max_length`, no window fits and the dataset is empty.
    pub fn from_tokens(tokens: &Vec<u32>, max_length: usize, stride: usize) -> (d: GPTDataset)
        requires
            max_length >= 1,
            stride >= 1,
        ensures
            d.inputs() == spec_window_inputs(
                widen_tokens(tokens@),
                max_length as nat,
                stride as nat,
            ),
            d.targets() == spec_window_targets(
                widen_tokens(tokens@),
                max_length as nat,
                stride as nat,
            ),
    {
        let n = tokens.len();
        let count = window_count(n, max_length, stride);
        let ghost toks = widen_tokens(tokens@);
        let ghost l = max_length as nat;
        let ghost s = stride as nat;
        let mut input_ids: Vec<Vec<i64>> = Vec::new();
        let mut target_ids: Vec<Vec<i64>> = Vec::new();
        proof {
            assert(rows_of(input_ids@) =~= spec_window_inputs(toks, l, s).take(0));
            assert(rows_of(target_ids@) =~= spec_window_targets(toks, l, s).take(0));
        }
        let mut w: usize = 0;
        while w < count
            invariant
                max_length >= 1,
                stride >= 1,
                n == tokens.len(),
                toks == widen_tokens(tokens@),
                l == max_length as nat,
                s == stride as nat,
                count == spec_window_count(n as nat, l, s),
                w <= count,
                rows_of(input_ids@) == spec_window_inputs(toks, l, s).take(w as int),
                rows_of(target_ids@) == spec_window_targets(toks, l, s).take(w as int),
            decreases count - w,
        {
            proof {
                lemma_start_in_range(n as nat, l, s, w as nat);
            }
            let i = w * stride;
            let input_row = widen_slice(tokens, i, max_length);
            let target_row = widen_slice(tokens, i + 1, max_length);
            let ghost prev_inputs = input_ids@;
            let ghost prev_targets = target_ids@;
            proof {
                lemma_rows_of_push(prev_inputs, input_row);
                lemma_rows_of_push(prev_targets, target_row);
            }
            input_ids.push(input_row);
            target_ids.push(target_row);
            proof {
                let full_in = spec_window_inputs(toks, l, s);
                let full_tg = spec_window_targets(toks, l, s);
                assert(full_in.take(w as int + 1) =~= full_in.take(w as int).push(
                    full_in[w as int],
                ));
                assert(full_tg.take(w as int + 1) =~= full_tg.take(w as int).push(
                    full_tg[w as int],
                ));
            }
            w += 1;
        }
        proof {
            assert(spec_window_inputs(toks, l, s).take(count as int) =~= spec_window_inputs(
                toks,
                l,
                s,
            ));
            assert(spec_window_targets(toks, l, s).take(count as int) =~= spec_window_targets(
                toks,
                l,
                s,
            ));
        }
        GPTDataset { input_ids, target_ids }
    }

    /// Encode a text with the external tokenizer and cut the resulting
    /// token sequence into windows. Construction succeeds exactly when the
    /// tokenizer can encode the text; a tokenizer failure is propagated as
    /// a `TokenizationError`, and no partial dataset is produced.
    pub fn new(text: &str, max_length: usize, stride: usize) -> (r: Result<
        GPTDataset,
        TokenizationError,
    >)
        requires
            max_length >= 1,
            stride >= 1,
        ensures
            r is Ok <==> encode_ok_of(text@),
            r matches Ok(d) ==> {
                &&& d.inputs() == spec_window_inputs(
                    widen_tokens(encode_of(text@)),
                    max_length as nat,
                    stride as nat,
                )
                &&& d.targets() == spec_window_targets(
                    widen_tokens(encode_of(text@)),
                    max_length as nat,
                    stride as nat,
                )
            },
    {
        match encode_text(text) {
            Ok(token_ids) => Ok(GPTDataset::from_tokens(&token_ids, max_length, stride)),
            Err(e) => Err(e),
        }
    }

    /// The number of windows.
    pub fn len(&self) -> (n: usize)
        ensures
            n as nat == self.spec_len(),
    {
        self.input_ids.len()
    }

    /// Reads are idempotent: any two in-range reads of the same window
    /// yield equal pairs, because `get` pins its result to the dataset's
    /// windows alone (each read hands out a fresh owned copy).
    pub proof fn lemma_get_idempotent(
        self,
        idx: usize,
        a: (Seq<i64>, Seq<i64>),
        b: (Seq<i64>, Seq<i64>),
    )
        requires
            idx < self.spec_len(),
            a.0 == self.inputs()[idx as int],
            a.1 == self.targets()[idx as int],
            b.0 == self.inputs()[idx as int],
            b.1 == self.targets()[idx as int],
        ensures
            a == b,
    {
    }

    /// The window at `idx`, as an independently owned copy of its input and
    /// target rows: present exactly when `idx` is in range.
    pub fn get(&self, idx: usize) -> (r: Option<(Vec<i64>, Vec<i64>)>)
        ensures
            idx < self.spec_len() ==> (r matches Some(p) && p.0@ == self.inputs()[idx as int]
                && p.1@ == self.targets()[idx as int]),
            idx >= self.spec_len() ==> r is None,
    {
        proof {
            use_type_invariant(self);
        }
        if idx < self.input_ids.len() {
            Some((copy_row(&self.input_ids[idx]), copy_row(&self.target_ids[idx])))
        } else {
            None
        }
    }
}

/// The `len` tokens starting at `from`, widened to `i64`.
fn widen_slice(tokens: &Vec<u32>, from: usize, len: usize) -> (r: Vec<i64>)
    requires
        from + len <= tokens.len(),
    ensures
        r@ == widen_tokens(tokens@).subrange(from as int, from as int + len as int),
{
    let mut r: Vec<i64> = Vec::new();
    let mut k: usize = 0;
    while k < len
        invariant
            from + len <= tokens.len(),
            k <= len,
            r@ == widen_tokens(tokens@).subrange(from as int, from as int + k as int),
        decreases len - k,
    {
        r.push(tokens[from + k] as i64);
        proof {
            assert(widen_tokens(tokens@).subrange(from as int, from as int + k as int + 1)
                =~= widen_tokens(tokens@).subrange(from as int, from as int + k as int).push(
                tokens@[from as int + k as int] as i64,
            ));
        }
        k += 1;
    }
    r
}

/// An owned copy of one window row.
fn copy_row(v: &Vec<i64>) -> (r: Vec<i64>)
    ensures
        r@ == v@,
{
    let mut r: Vec<i64> = Vec::new();
    let mut k: usize = 0;
    while k < v.len()
        invariant
            k <= v.len(),
            r@ == v@.take(k as int),
        decreases v.len() - k,
    {
        r.push(v[k]);
        proof {
            assert(v@.take(k as int + 1) =~= v@.take(k as int).push(v@[k as int]));
        }
        k += 1;
    }
    proof {
        assert(v@.take(v@.len() as int) =~= v@);
    }
    r
}

} // verus!
