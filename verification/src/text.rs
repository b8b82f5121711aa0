use vstd::prelude::*;
use vstd::string::StrSliceExecFns;

verus! {

/// Whether a character counts as whitespace when splitting words.
pub uninterp spec fn is_ws_char(c: char) -> bool;

/// Relies on char::is_whitespace: a property of the character alone.
#[verifier::external_body]
pub(crate) fn char_is_whitespace(c: char) -> (r: bool)
    ensures
        r == is_ws_char(c),
{
    c.is_whitespace()
}

/// Whether a character counts as alphanumeric when trimming words.
pub uninterp spec fn is_alnum_char(c: char) -> bool;

/// Relies on char::is_alphanumeric: a property of the character alone.
#[verifier::external_body]
pub(crate) fn char_is_alphanumeric(c: char) -> (r: bool)
    ensures
        r == is_alnum_char(c),
{
    c.is_alphanumeric()
}

/// The lowercase form of a character sequence: a function of the
/// characters alone.
pub uninterp spec fn lower_of(s: Seq<char>) -> Seq<char>;

/// Relies on str::to_lowercase: the result depends on the characters
/// alone.
#[verifier::external_body]
pub(crate) fn lowercase(s: &str) -> (r: String)
    ensures
        r@ == lower_of(s@),
{
    s.to_lowercase()
}

/// Whether `p` is a prefix of `s`.
pub open spec fn is_prefix_of(p: Seq<char>, s: Seq<char>) -> bool {
    p.len() <= s.len() && s.take(p.len() as int) == p
}

/// Relies on str::starts_with: true exactly when the pattern's characters
/// are a prefix of the string's characters.
#[verifier::external_body]
pub(crate) fn str_starts_with(s: &str, p: &str) -> (r: bool)
    ensures
        r == is_prefix_of(p@, s@),
{
    s.starts_with(p)
}

/// Length of the leading run of non-whitespace characters.
pub open spec fn run_len(s: Seq<char>) -> nat
    decreases s.len(),
{
    if s.len() == 0 || is_ws_char(s.first()) {
        0
    } else {
        1 + run_len(s.drop_first())
    }
}

/// A leading run never reaches past the end of the sequence.
pub proof fn lemma_run_len_le(s: Seq<char>)
    ensures
        run_len(s) <= s.len(),
    decreases s.len(),
{
    if s.len() == 0 || is_ws_char(s.first()) {
    } else {
        lemma_run_len_le(s.drop_first());
    }
}

/// The maximal whitespace-separated words of a character sequence, in order.
pub open spec fn split_ws(s: Seq<char>) -> Seq<Seq<char>>
    decreases s.len(),
    via split_ws_decreases
{
    if s.len() == 0 {
        Seq::empty()
    } else if is_ws_char(s.first()) {
        split_ws(s.drop_first())
    } else {
        seq![s.take(run_len(s) as int)] + split_ws(s.skip(run_len(s) as int))
    }
}

#[via_fn]
proof fn split_ws_decreases(s: Seq<char>) {
    lemma_run_len_le(s);
}

/// A maximal non-whitespace run determines the run length.
proof fn lemma_run_len_unique(s: Seq<char>, p: int)
    requires
        0 <= p <= s.len(),
        forall|m: int| 0 <= m < p ==> !is_ws_char(s[m]),
        p < s.len() ==> is_ws_char(s[p]),
    ensures
        run_len(s) == p,
    decreases s.len(),
{
    if s.len() == 0 {
    } else if is_ws_char(s.first()) {
        assert(p == 0);
    } else {
        assert(p >= 1);
        let t = s.drop_first();
        assert forall|m: int| 0 <= m < p - 1 implies !is_ws_char(t[m]) by {
            assert(t[m] == s[m + 1]);
        }
        if p - 1 < t.len() {
            assert(t[p - 1] == s[p]);
        }
        lemma_run_len_unique(t, p - 1);
    }
}

/// Skipping a leading whitespace character does not change the words.
proof fn lemma_split_ws_skip_ws(s: Seq<char>, i: int)
    requires
        0 <= i < s.len(),
        is_ws_char(s[i]),
    ensures
        split_ws(s.skip(i)) == split_ws(s.skip(i + 1)),
{
    assert(s.skip(i).first() == s[i]);
    assert(s.skip(i).drop_first() =~= s.skip(i + 1));
}

/// A maximal non-whitespace run `[i, j)` is the next word, and the rest of
/// the words follow from `j`.
proof fn lemma_split_ws_word(s: Seq<char>, i: int, j: int)
    requires
        0 <= i < j <= s.len(),
        forall|m: int| i <= m < j ==> !is_ws_char(s[m]),
        j < s.len() ==> is_ws_char(s[j]),
    ensures
        split_ws(s.skip(i)) == seq![s.subrange(i, j)] + split_ws(s.skip(j)),
{
    let t = s.skip(i);
    assert forall|m: int| 0 <= m < j - i implies !is_ws_char(t[m]) by {
        assert(t[m] == s[i + m]);
    }
    if j - i < t.len() {
        assert(t[j - i] == s[j]);
    }
    lemma_run_len_unique(t, j - i);
    assert(!is_ws_char(t.first()));
    assert(t.take(j - i) =~= s.subrange(i, j));
    assert(t.skip(j - i) =~= s.skip(j));
}

/// The contents of a sequence of owned words, word by word.
pub open spec fn words_of(v: Seq<String>) -> Seq<Seq<char>> {
    Seq::new(v.len(), |i: int| v[i]@)
}

/// Appending a word appends its contents to the word view.
pub proof fn lemma_words_of_push(v: Seq<String>, w: String)
    ensures
        words_of(v.push(w)) == words_of(v).push(w@),
{
    assert(words_of(v.push(w)) =~= words_of(v).push(w@));
}

/// Split a string into its maximal whitespace-separated words.
pub fn split_whitespace_words(s: &str) -> (r: Vec<String>)
    ensures
        words_of(r@) == split_ws(s@),
{
    let n = s.unicode_len();
    let mut r: Vec<String> = Vec::new();
    proof {
        assert(s@.skip(0) =~= s@);
        assert(words_of(r@) + split_ws(s@.skip(0)) =~= split_ws(s@));
    }
    let mut i: usize = 0;
    while i < n
        invariant
            n == s@.len(),
            i <= n,
            words_of(r@) + split_ws(s@.skip(i as int)) == split_ws(s@),
        decreases n - i,
    {
        if char_is_whitespace(s.get_char(i)) {
            proof {
                lemma_split_ws_skip_ws(s@, i as int);
            }
            i += 1;
        } else {
            let start = i;
            let mut j = i + 1;
            while j < n && !char_is_whitespace(s.get_char(j))
                invariant
                    n == s@.len(),
                    start < j <= n,
                    forall|m: int| start <= m < j ==> !is_ws_char(s@[m]),
                decreases n - j,
            {
                j += 1;
            }
            let word = s.substring_char(start, j).to_owned();
            proof {
                lemma_words_of_push(r@, word);
                lemma_split_ws_word(s@, start as int, j as int);
                assert(words_of(r@).push(word@) + split_ws(s@.skip(j as int)) =~= words_of(r@) + (
                seq![s@.subrange(start as int, j as int)] + split_ws(s@.skip(j as int))));
            }
            r.push(word);
            i = j;
        }
    }
    proof {
        assert(s@.skip(n as int) =~= Seq::<char>::empty());
        assert(split_ws(s@.skip(n as int)) =~= Seq::<Seq<char>>::empty());
        assert(words_of(r@) + split_ws(s@.skip(n as int)) =~= words_of(r@));
    }
    r
}

/// The sequence with its leading non-alphanumeric characters removed.
pub open spec fn trim_front(s: Seq<char>) -> Seq<char>
    decreases s.len(),
{
    if s.len() == 0 {
        s
    } else if !is_alnum_char(s.first()) {
        trim_front(s.drop_first())
    } else {
        s
    }
}

/// The sequence with its trailing non-alphanumeric characters removed.
pub open spec fn trim_back(s: Seq<char>) -> Seq<char>
    decreases s.len(),
{
    if s.len() == 0 {
        s
    } else if !is_alnum_char(s.last()) {
        trim_back(s.drop_last())
    } else {
        s
    }
}

/// A word with its non-alphanumeric fringe removed from both ends.
pub open spec fn trim_of(s: Seq<char>) -> Seq<char> {
    trim_back(trim_front(s))
}

/// Trimming the front stops at the first alphanumeric character.
proof fn lemma_trim_front_skip(s: Seq<char>, lo: int)
    requires
        0 <= lo <= s.len(),
        forall|m: int| 0 <= m < lo ==> !is_alnum_char(s[m]),
        lo < s.len() ==> is_alnum_char(s[lo]),
    ensures
        trim_front(s) == s.skip(lo),
    decreases s.len(),
{
    if s.len() == 0 {
        assert(s.skip(0) =~= s);
    } else if lo == 0 {
        assert(s.skip(0) =~= s);
    } else {
        let t = s.drop_first();
        assert forall|m: int| 0 <= m < lo - 1 implies !is_alnum_char(t[m]) by {
            assert(t[m] == s[m + 1]);
        }
        if lo - 1 < t.len() {
            assert(t[lo - 1] == s[lo]);
        }
        lemma_trim_front_skip(t, lo - 1);
        assert(t.skip(lo - 1) =~= s.skip(lo));
    }
}

/// Trimming the back stops at the last alphanumeric character.
proof fn lemma_trim_back_take(s: Seq<char>, hi: int)
    requires
        0 <= hi <= s.len(),
        forall|m: int| hi <= m < s.len() ==> !is_alnum_char(s[m]),
        hi > 0 ==> is_alnum_char(s[hi - 1]),
    ensures
        trim_back(s) == s.take(hi),
    decreases s.len(),
{
    if s.len() == 0 {
        assert(s.take(0) =~= s);
    } else if hi == s.len() {
        assert(is_alnum_char(s.last()));
        assert(s.take(hi) =~= s);
    } else {
        let t = s.drop_last();
        assert(!is_alnum_char(s.last()));
        lemma_trim_back_take(t, hi);
        assert(t.take(hi) =~= s.take(hi));
    }
}

/// Remove the non-alphanumeric fringe of a word.
pub fn trim_word<'a>(w: &'a str) -> (r: &'a str)
    ensures
        r@ == trim_of(w@),
{
    let n = w.unicode_len();
    let mut lo: usize = 0;
    while lo < n && !char_is_alphanumeric(w.get_char(lo))
        invariant
            n == w@.len(),
            lo <= n,
            forall|m: int| 0 <= m < lo ==> !is_alnum_char(w@[m]),
        decreases n - lo,
    {
        lo += 1;
    }
    proof {
        lemma_trim_front_skip(w@, lo as int);
    }
    if lo == n {
        proof {
            assert(w@.skip(n as int) =~= Seq::<char>::empty());
            assert(trim_back(Seq::<char>::empty()) =~= w@.subrange(0, 0));
        }
        let r = w.substring_char(0, 0);
        r
    } else {
        let mut hi: usize = n;
        while !char_is_alphanumeric(w.get_char(hi - 1))
            invariant
                n == w@.len(),
                lo < hi <= n,
                is_alnum_char(w@[lo as int]),
                forall|m: int| hi <= m < n ==> !is_alnum_char(w@[m]),
            decreases hi,
        {
            hi -= 1;
        }
        proof {
            let u = w@.skip(lo as int);
            assert forall|m: int| hi - lo <= m < u.len() implies !is_alnum_char(u[m]) by {
                assert(u[m] == w@[lo + m]);
            }
            assert(u[hi - lo - 1] == w@[hi - 1]);
            lemma_trim_back_take(u, hi as int - lo as int);
            assert(u.take(hi as int - lo as int) =~= w@.subrange(lo as int, hi as int));
        }
        let r = w.substring_char(lo, hi);
        r
    }
}

} // verus!
