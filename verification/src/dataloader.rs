use vstd::prelude::*;
use vstd::seq_lib::group_to_multiset_ensures;

use crate::gptdataset::{lemma_rows_of_push, rows_of, GPTDataset};

verus! {

/// The ascending index sequence `0, 1, ..., n - 1`.
pub open spec fn identity_indices(n: nat) -> Seq<usize> {
    Seq::new(n, |i: int| i as usize)
}

/// The permutation that a seeded shuffle leaves a sequence in: a function
/// of the old contents and the seed alone.
pub uninterp spec fn shuffle_of(s: Seq<usize>, seed: u64) -> Seq<usize>;

/// Relies on rand::rngs::StdRng::seed_from_u64 and
/// rand::seq::SliceRandom::shuffle: a Fisher-Yates shuffle driven by a
/// generator that the seed fully determines, so the slice ends up in a
/// permutation of its old contents that depends on those contents and the
/// seed alone.
#[verifier::external_body]
fn shuffle_with_seed(v: &mut Vec<usize>, seed: u64)
    ensures
        final(v)@ == shuffle_of(old(v)@, seed),
        final(v)@.to_multiset() == old(v)@.to_multiset(),
{
    let mut rng = <rand::rngs::StdRng as rand::SeedableRng>::seed_from_u64(seed);
    rand::seq::SliceRandom::shuffle(v.as_mut_slice(), &mut rng);
}

/// Relies on rand::random: a seed from the thread-local generator; nothing
/// is promised of its value.
#[verifier::external_body]
fn fresh_seed() -> u64 {
    rand::random::<u64>()
}

/// The order in which a batch iterator visits the dataset: ascending, or
/// the seeded permutation of ascending order when shuffling was requested.
pub open spec fn spec_planned_indices(n: nat, shuffle: Option<bool>, seed: u64) -> Seq<usize> {
    if shuffle == Some(true) {
        shuffle_of(identity_indices(n), seed)
    } else {
        identity_indices(n)
    }
}

/// When shuffling is not requested (false or unspecified), the visit order
/// is ascending, whatever the seed.
pub proof fn lemma_no_shuffle_keeps_order(n: nat, shuffle: Option<bool>, seed: u64)
    requires
        shuffle != Some(true),
    ensures
        spec_planned_indices(n, shuffle, seed) == identity_indices(n),
{
}

/// The input rows of a batch of `m` windows, fetched through `ind` starting
/// at position `from`.
pub open spec fn spec_batch_inputs(ds: GPTDataset, ind: Seq<usize>, from: nat, m: nat) -> Seq<
    Seq<i64>,
> {
    Seq::new(m, |k: int| ds.inputs()[ind[from + k] as int])
}

/// The target rows of the same batch.
pub open spec fn spec_batch_targets(ds: GPTDataset, ind: Seq<usize>, from: nat, m: nat) -> Seq<
    Seq<i64>,
> {
    Seq::new(m, |k: int| ds.targets()[ind[from + k] as int])
}

/// A sequence whose multiset of elements is that of `0, ..., n - 1` holds
/// only indices below `n`.
proof fn lemma_permuted_indices_in_range(ind: Seq<usize>, n: nat)
    requires
        ind.to_multiset() == identity_indices(n).to_multiset(),
    ensures
        forall|j: int| 0 <= j < ind.len() ==> (ind[j] as nat) < n,
{
    broadcast use group_to_multiset_ensures;

    assert forall|j: int| 0 <= j < ind.len() implies (ind[j] as nat) < n by {
        assert(ind.contains(ind[j]));
        assert(ind.to_multiset().count(ind[j]) > 0);
        assert(identity_indices(n).to_multiset().count(ind[j]) > 0);
        assert(identity_indices(n).contains(ind[j]));
        let k = choose|k: int| 0 <= k < n && identity_indices(n)[k] == ind[j];
        assert(ind[j] == k as usize);
    }
}

/// Serves the windows of a dataset in batches: a fixed visit order chosen
/// at construction, a cursor that only advances, and the configured batch
/// size, drop-last and shuffle behaviour.
pub struct DataLoader {
    dataset: GPTDataset,
    batch_size: usize,
    indices: Vec<usize>,
    current_index: usize,
    drop_last: bool,
}

impl DataLoader {
    #[verifier::type_invariant]
    spec fn well_formed(self) -> bool {
        &&& self.batch_size >= 1
        &&& forall|j: int|
            0 <= j < self.indices@.len() ==> (self.indices@[j] as nat) < self.dataset.spec_len()
    }

    /// The dataset being served.
    pub closed spec fn spec_dataset(self) -> GPTDataset {
        self.dataset
    }

    /// The configured batch size.
    pub closed spec fn spec_batch_size(self) -> nat {
        self.batch_size as nat
    }

    /// The fixed visit order over the dataset's windows.
    pub closed spec fn spec_indices(self) -> Seq<usize> {
        self.indices@
    }

    /// The cursor: the position in the visit order that the next batch
    /// starts at.
    pub closed spec fn spec_cursor(self) -> nat {
        self.current_index as nat
    }

    /// Whether a final short batch is dropped.
    pub closed spec fn spec_drop_last(self) -> bool {
        self.drop_last
    }

    /// Build a batch iterator whose shuffle, if requested, is driven by the
    /// given seed: the same dataset length, flags and seed always plan the
    /// same visit order.
    pub fn new_seeded(
        dataset: GPTDataset,
        batch_size: usize,
        drop_last: bool,
        shuffle: Option<bool>,
        seed: u64,
    ) -> (loader: DataLoader)
        requires
            batch_size >= 1,
        ensures
            loader.spec_dataset() == dataset,
            loader.spec_batch_size() == batch_size as nat,
            loader.spec_cursor() == 0,
            loader.spec_drop_last() == drop_last,
            loader.spec_indices() == spec_planned_indices(dataset.spec_len(), shuffle, seed),
            loader.spec_indices().to_multiset() == identity_indices(
                dataset.spec_len(),
            ).to_multiset(),
    {
        let n = dataset.len();
        let mut indices: Vec<usize> = Vec::new();
        let mut j: usize = 0;
        while j < n
            invariant
                j <= n,
                n as nat == dataset.spec_len(),
                indices@ == identity_indices(j as nat),
            decreases n - j,
        {
            indices.push(j);
            proof {
                assert(indices@ =~= identity_indices(j as nat + 1));
            }
            j += 1;
        }
        let do_shuffle = match shuffle {
            Some(b) => b,
            None => false,
        };
        if do_shuffle {
            shuffle_with_seed(&mut indices, seed);
        }
        proof {
            lemma_permuted_indices_in_range(indices@, dataset.spec_len());
        }
        DataLoader { dataset, batch_size, indices, current_index: 0, drop_last }
    }

    /// Build a batch iterator with a fresh, unpredictable shuffle seed.
    /// An absent shuffle flag means: do not shuffle.
    pub fn new(dataset: GPTDataset, batch_size: usize, drop_last: bool, shuffle: Option<bool>) -> (loader:
        DataLoader)
        requires
            batch_size >= 1,
        ensures
            loader.spec_dataset() == dataset,
            loader.spec_batch_size() == batch_size as nat,
            loader.spec_cursor() == 0,
            loader.spec_drop_last() == drop_last,
            shuffle != Some(true) ==> loader.spec_indices() == identity_indices(
                dataset.spec_len(),
            ),
            loader.spec_indices().to_multiset() == identity_indices(
                dataset.spec_len(),
            ).to_multiset(),
    {
        let seed = fresh_seed();
        DataLoader::new_seeded(dataset, batch_size, drop_last, shuffle, seed)
    }

    /// The next batch: `None` once the cursor has passed the end, and when
    /// drop-last discards a short final batch (the cursor then stays put, so
    /// the outcome repeats on every later call); otherwise the windows at
    /// the next `batch_size` (or fewer, at the end) planned indices, stacked
    /// in visit order, with the cursor advanced by the full batch size.
    pub fn next_batch(&mut self) -> (r: Option<(Vec<Vec<i64>>, Vec<Vec<i64>>)>)
        ensures
            final(self).spec_dataset() == old(self).spec_dataset(),
            final(self).spec_indices() == old(self).spec_indices(),
            final(self).spec_batch_size() == old(self).spec_batch_size(),
            final(self).spec_drop_last() == old(self).spec_drop_last(),
            ({
                let ds = old(self).spec_dataset();
                let ind = old(self).spec_indices();
                let c = old(self).spec_cursor();
                let b = old(self).spec_batch_size();
                if c >= ind.len() {
                    r is None && final(self).spec_cursor() == c
                } else {
                    let m = if c + b <= ind.len() {
                        b
                    } else {
                        (ind.len() - c) as nat
                    };
                    if old(self).spec_drop_last() && m < b {
                        r is None && final(self).spec_cursor() == c
                    } else {
                        &&& r matches Some(batch)
                        &&& rows_of(batch.0@) == spec_batch_inputs(ds, ind, c, m)
                        &&& rows_of(batch.1@) == spec_batch_targets(ds, ind, c, m)
                        &&& final(self).spec_cursor() == if c + b <= usize::MAX as nat {
                            c + b
                        } else {
                            usize::MAX as nat
                        }
                    }
                }
            }),
    {
        proof {
            use_type_invariant(&*self);
        }
        let n_idx = self.indices.len();
        if self.current_index >= n_idx {
            return None;
        }
        let remaining = n_idx - self.current_index;
        let m = if self.batch_size <= remaining {
            self.batch_size
        } else {
            remaining
        };
        if self.drop_last && m < self.batch_size {
            return None;
        }
        let ghost ds = self.dataset;
        let ghost ind = self.indices@;
        let ghost c = self.current_index as nat;
        let mut input_rows: Vec<Vec<i64>> = Vec::new();
        let mut target_rows: Vec<Vec<i64>> = Vec::new();
        proof {
            assert(rows_of(input_rows@) =~= spec_batch_inputs(ds, ind, c, 0));
            assert(rows_of(target_rows@) =~= spec_batch_targets(ds, ind, c, 0));
        }
        let mut k: usize = 0;
        while k < m
            invariant
                self.well_formed(),
                ds == self.dataset,
                ind == self.indices@,
                c == self.current_index as nat,
                k <= m,
                c + m <= ind.len(),
                ind.len() <= usize::MAX,
                rows_of(input_rows@) == spec_batch_inputs(ds, ind, c, k as nat),
                rows_of(target_rows@) == spec_batch_targets(ds, ind, c, k as nat),
            decreases m - k,
        {
            let idx = self.indices[self.current_index + k];
            match self.dataset.get(idx) {
                Some(pair) => {
                    proof {
                        lemma_rows_of_push(input_rows@, pair.0);
                        lemma_rows_of_push(target_rows@, pair.1);
                    }
                    let (input_row, target_row) = pair;
                    input_rows.push(input_row);
                    target_rows.push(target_row);
                    proof {
                        assert(spec_batch_inputs(ds, ind, c, k as nat + 1) =~= spec_batch_inputs(
                            ds,
                            ind,
                            c,
                            k as nat,
                        ).push(ds.inputs()[ind[c as int + k as int] as int]));
                        assert(spec_batch_targets(ds, ind, c, k as nat + 1) =~= spec_batch_targets(
                            ds,
                            ind,
                            c,
                            k as nat,
                        ).push(ds.targets()[ind[c as int + k as int] as int]));
                    }
                },
                None => {
                    proof {
                        assert(false);
                    }
                },
            }
            k += 1;
        }
        self.current_index = if self.batch_size <= usize::MAX - self.current_index {
            self.current_index + self.batch_size
        } else {
            usize::MAX
        };
        Some((input_rows, target_rows))
    }
}

} // verus!
