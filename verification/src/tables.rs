use vstd::prelude::*;

verus! {

/// Number of occurrences of `w` in `s`.
pub open spec fn count_eq<A>(s: Seq<A>, w: A) -> nat
    decreases s.len(),
{
    if s.len() == 0 {
        0
    } else {
        count_eq(s.drop_last(), w) + (if s.last() == w {
            1nat
        } else {
            0nat
        })
    }
}

/// The distinct elements of `s`, in order of first occurrence.
pub open spec fn firsts<A>(s: Seq<A>) -> Seq<A>
    decreases s.len(),
{
    if s.len() == 0 {
        Seq::empty()
    } else {
        let p = firsts(s.drop_last());
        if p.contains(s.last()) {
            p
        } else {
            p.push(s.last())
        }
    }
}

/// The frequency table of `s`: each distinct element in order of first
/// occurrence, paired with its number of occurrences.
pub open spec fn count_table<A>(s: Seq<A>) -> Seq<(A, nat)> {
    firsts(s).map(|_j: int, k: A| (k, count_eq(s, k)))
}

/// Whether the table holds an entry for `k`.
pub open spec fn table_has_key<A>(t: Seq<(A, nat)>, k: A) -> bool {
    exists|j: int| 0 <= j < t.len() && t[j].0 == k
}

/// The position of the entry for `k`.
pub open spec fn table_key_index<A>(t: Seq<(A, nat)>, k: A) -> int {
    choose|j: int| 0 <= j < t.len() && t[j].0 == k
}

/// A table after one more occurrence of `k`: the count of `k` raised by
/// one, or a new entry with count one at the end.
pub open spec fn bump_spec<A>(t: Seq<(A, nat)>, k: A) -> Seq<(A, nat)> {
    if table_has_key(t, k) {
        let j = table_key_index(t, k);
        t.update(j, (k, t[j].1 + 1))
    } else {
        t.push((k, 1nat))
    }
}

proof fn lemma_contains_push<A>(p: Seq<A>, y: A, x: A)
    ensures
        p.push(y).contains(x) <==> (p.contains(x) || y == x),
{
    if p.push(y).contains(x) {
        let i = choose|i: int| 0 <= i < p.push(y).len() && p.push(y)[i] == x;
        if i < p.len() {
            assert(p[i] == x);
        }
    }
    if p.contains(x) {
        let i = choose|i: int| 0 <= i < p.len() && p[i] == x;
        assert(p.push(y)[i] == x);
    }
    if y == x {
        assert(p.push(y)[p.len() as int] == x);
    }
}

/// The distinct elements are exactly the elements.
pub proof fn lemma_firsts_contains<A>(s: Seq<A>, x: A)
    ensures
        firsts(s).contains(x) <==> s.contains(x),
    decreases s.len(),
{
    if s.len() == 0 {
    } else {
        let d = s.drop_last();
        lemma_firsts_contains(d, x);
        lemma_contains_push(d, s.last(), x);
        assert(d.push(s.last()) =~= s);
        if !firsts(d).contains(s.last()) {
            lemma_contains_push(firsts(d), s.last(), x);
        } else {
            if x == s.last() {
                lemma_firsts_contains(d, s.last());
            }
        }
    }
}

/// No element appears twice among the distinct elements.
pub proof fn lemma_firsts_distinct<A>(s: Seq<A>)
    ensures
        forall|j1: int, j2: int|
            0 <= j1 < j2 < firsts(s).len() ==> firsts(s)[j1] != firsts(s)[j2],
    decreases s.len(),
{
    if s.len() == 0 {
    } else {
        let d = s.drop_last();
        let p = firsts(d);
        lemma_firsts_distinct(d);
        if !p.contains(s.last()) {
            assert forall|j1: int, j2: int|
                0 <= j1 < j2 < firsts(s).len() implies firsts(s)[j1] != firsts(s)[j2] by {
                if j2 == p.len() {
                    assert(firsts(s)[j1] == p[j1]);
                    if p[j1] == s.last() {
                        assert(p.contains(s.last()));
                    }
                }
            }
        }
    }
}

/// An element cannot occur more often than the sequence is long.
pub proof fn lemma_count_eq_le_len<A>(s: Seq<A>, w: A)
    ensures
        count_eq(s, w) <= s.len(),
    decreases s.len(),
{
    if s.len() > 0 {
        lemma_count_eq_le_len(s.drop_last(), w);
    }
}

/// An element occurs zero times exactly when it is absent.
pub proof fn lemma_count_eq_zero<A>(s: Seq<A>, w: A)
    ensures
        (count_eq(s, w) == 0) <==> !s.contains(w),
    decreases s.len(),
{
    if s.len() == 0 {
    } else {
        let d = s.drop_last();
        lemma_count_eq_zero(d, w);
        lemma_contains_push(d, s.last(), w);
        assert(d.push(s.last()) =~= s);
    }
}

/// One more element raises its own count by one and no other.
pub proof fn lemma_count_eq_push<A>(s: Seq<A>, y: A, w: A)
    ensures
        count_eq(s.push(y), w) == count_eq(s, w) + (if y == w {
            1nat
        } else {
            0nat
        }),
{
    assert(s.push(y).drop_last() =~= s);
}

/// One more element turns the frequency table into the bumped table.
pub proof fn lemma_count_table_push<A>(s: Seq<A>, w: A)
    ensures
        count_table(s.push(w)) == bump_spec(count_table(s), w),
{
    let p = firsts(s);
    let t = count_table(s);
    let t2 = count_table(s.push(w));
    lemma_firsts_distinct(s);
    lemma_firsts_contains(s, w);
    assert(s.push(w).drop_last() =~= s);
    assert(firsts(s.push(w)) == if p.contains(w) {
        p
    } else {
        p.push(w)
    });
    if p.contains(w) {
        let j0 = choose|j: int| 0 <= j < p.len() && p[j] == w;
        assert(t[j0].0 == w);
        assert(table_has_key(t, w));
        let j = table_key_index(t, w);
        assert(t[j].0 == w);
        assert(p[j] == w);
        assert(j == j0);
        assert forall|i: int| 0 <= i < t2.len() implies t2[i] == t.update(
            j,
            (w, t[j].1 + 1),
        )[i] by {
            lemma_count_eq_push(s, w, p[i]);
        }
        assert(t2 =~= t.update(j, (w, t[j].1 + 1)));
    } else {
        assert(!table_has_key(t, w)) by {
            if table_has_key(t, w) {
                let j = table_key_index(t, w);
                assert(p[j] == w);
                assert(p.contains(w));
            }
        }
        lemma_count_eq_zero(s, w);
        assert(!s.contains(w));
        assert forall|i: int| 0 <= i < t2.len() implies t2[i] == t.push((w, 1nat))[i] by {
            if i < p.len() {
                assert(firsts(s.push(w))[i] == p[i]);
                lemma_count_eq_push(s, w, p[i]);
                if p[i] == w {
                    assert(p.contains(w));
                }
            } else {
                assert(firsts(s.push(w))[i] == w);
                lemma_count_eq_push(s, w, w);
            }
        }
        assert(t2 =~= t.push((w, 1nat)));
    }
}

/// Every count in a frequency table stays within the length of the
/// underlying sequence.
pub proof fn lemma_count_table_counts_le<A>(s: Seq<A>)
    ensures
        forall|j: int| 0 <= j < count_table(s).len() ==> (#[trigger] count_table(s)[j]).1 <= s.len(),
{
    assert forall|j: int| 0 <= j < count_table(s).len() implies (#[trigger] count_table(s)[j]).1
        <= s.len() by {
        lemma_count_eq_le_len(s, firsts(s)[j]);
    }
}

/// The keys of a frequency table are pairwise distinct.
pub proof fn lemma_count_table_keys_distinct<A>(s: Seq<A>)
    ensures
        forall|j1: int, j2: int|
            0 <= j1 < j2 < count_table(s).len() ==> (#[trigger] count_table(s)[j1]).0 != (
            #[trigger] count_table(s)[j2]).0,
{
    lemma_firsts_distinct(s);
}

} // verus!
