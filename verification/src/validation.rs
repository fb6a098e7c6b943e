//! Splitting data into folds for k-fold cross-validation.

use vstd::prelude::*;
use vstd::arithmetic::div_mod::lemma_fundamental_div_mod;

verus! {

/// First index of the test part of fold `i` when `n` items are split into `k` folds.
pub open spec fn fold_start(n: nat, k: nat, i: nat) -> nat {
    i * (n / k)
}

/// One past the last index of the test part of fold `i`; the last fold also
/// takes the items left over by the division.
pub open spec fn fold_end(n: nat, k: nat, i: nat) -> nat {
    if i + 1 == k {
        n
    } else {
        (i + 1) * (n / k)
    }
}

/// `test` holds clones of `data[start..end]` and `train` clones of all other
/// items of `data`, both in their original order.
pub open spec fn is_fold<T: Clone>(data: Seq<T>, start: nat, end: nat, train: Seq<T>, test: Seq<T>) -> bool {
    &&& test.len() == end - start
    &&& train.len() == data.len() - (end - start)
    &&& forall|t: int| 0 <= t < test.len() ==> cloned::<T>(data[start + t], #[trigger] test[t])
    &&& forall|t: int| 0 <= t < start ==> cloned::<T>(data[t], #[trigger] train[t])
    &&& forall|t: int|
        start <= t < train.len() ==> cloned::<T>(data[t + (end - start)], #[trigger] train[t])
}

/// K-fold cross-validation: the data is cut into `k` consecutive folds, and
/// each fold serves once as the test set while the rest trains.
pub struct CrossValidation {
    k_folds: usize,
}

impl CrossValidation {
    #[verifier::type_invariant]
    spec fn at_least_two_folds(self) -> bool {
        self.k_folds > 1
    }

    /// The number of folds.
    pub closed spec fn spec_k_folds(&self) -> nat {
        self.k_folds as nat
    }

    /// A cross-validation with `k_folds` folds; there must be at least two.
    pub fn new(k_folds: usize) -> (cv: Self)
        requires
            k_folds > 1,
        ensures
            cv.spec_k_folds() == k_folds,
    {
        CrossValidation { k_folds }
    }

    /// The number of folds.
    pub fn k_folds(&self) -> (k: usize)
        ensures
            k == self.spec_k_folds(),
            k > 1,
    {
        proof {
            use_type_invariant(self);
        }
        self.k_folds
    }

    /// The `k` pairs (train, test): fold `i` tests on items `fold_start` up to
    /// `fold_end` and trains on all the others.
    pub fn split_folds<T: Clone>(&self, data: &[T]) -> (folds: Vec<(Vec<T>, Vec<T>)>)
        ensures
            self.spec_k_folds() > 1,
            folds@.len() == self.spec_k_folds(),
            forall|i: int|
                0 <= i < folds@.len() ==> is_fold(
                    data@,
                    fold_start(data@.len(), self.spec_k_folds(), i as nat),
                    fold_end(data@.len(), self.spec_k_folds(), i as nat),
                    (#[trigger] folds@[i]).0@,
                    folds@[i].1@,
                ),
            forall|i: int|
                0 <= i < folds@.len() - 1 ==> (#[trigger] folds@[i]).1@.len() == data@.len() / self.spec_k_folds(),
            folds@[folds@.len() - 1].1@.len() == data@.len() / self.spec_k_folds() + data@.len()
                % self.spec_k_folds(),
    {
        proof {
            use_type_invariant(self);
        }
        let n = data.len();
        let k = self.k_folds;
        let fold_size = n / k;
        proof {
            lemma_fundamental_div_mod(n as int, k as int);
            assert(fold_size * k <= n) by (nonlinear_arith)
                requires
                    n == k * (n / k) + n % k,
                    n % k >= 0,
                    fold_size == n / k,
            ;
        }
        let mut folds: Vec<(Vec<T>, Vec<T>)> = Vec::new();
        let mut i: usize = 0;
        while i < k
            invariant
                k == self.spec_k_folds(),
                k > 1,
                n == data@.len(),
                fold_size == n / k,
                fold_size * k <= n,
                i <= k,
                folds@.len() == i,
                forall|f: int|
                    0 <= f < i ==> is_fold(
                        data@,
                        fold_start(n as nat, k as nat, f as nat),
                        fold_end(n as nat, k as nat, f as nat),
                        (#[trigger] folds@[f]).0@,
                        folds@[f].1@,
                    ),
            decreases k - i,
        {
            proof {
                assert(i * fold_size <= (i + 1) * fold_size <= n) by (nonlinear_arith)
                    requires
                        i + 1 <= k,
                        fold_size * k <= n,
                ;
            }
            let test_start = i * fold_size;
            let test_end = if i == k - 1 {
                n
            } else {
                (i + 1) * fold_size
            };
            let mut train: Vec<T> = Vec::new();
            let mut test: Vec<T> = Vec::new();
            let mut j: usize = 0;
            while j < n
                invariant
                    n == data@.len(),
                    test_start <= test_end <= n,
                    j <= n,
                    test@.len() == (if j <= test_start { 0 } else if j <= test_end { j - test_start } else { test_end - test_start }),
                    train@.len() == j - test@.len(),
                    forall|t: int| 0 <= t < test@.len() ==> cloned::<T>(data@[test_start + t], #[trigger] test@[t]),
                    forall|t: int| 0 <= t < train@.len() && t < test_start ==> cloned::<T>(data@[t], #[trigger] train@[t]),
                    forall|t: int|
                        test_start <= t < train@.len() ==> cloned::<T>(data@[t + (test_end - test_start)], #[trigger] train@[t]),
                decreases n - j,
            {
                let item = data[j].clone();
                if j >= test_start && j < test_end {
                    test.push(item);
                } else {
                    train.push(item);
                }
                j += 1;
            }
            folds.push((train, test));
            i += 1;
        }
        proof {
            assert forall|f: int| 0 <= f < folds@.len() - 1 implies (#[trigger] folds@[f]).1@.len() == n / k by {
                lemma_fold_sizes(n as nat, k as nat, f as nat);
            }
            lemma_fold_sizes(n as nat, k as nat, (k - 1) as nat);
        }
        folds
    }
}

/// The test parts of the `k` folds tile the data: the first starts at 0, each
/// ends where the next starts, the last ends at `n`, none runs backwards. So
/// every item is tested in exactly one fold, and each fold's train and test
/// parts together hold all `n` items.
pub proof fn lemma_test_parts_tile_data(n: nat, k: nat)
    requires
        k > 1,
    ensures
        fold_start(n, k, 0) == 0,
        fold_end(n, k, (k - 1) as nat) == n,
        forall|i: nat| i + 1 < k ==> #[trigger] fold_end(n, k, i) == fold_start(n, k, i + 1),
        forall|i: nat| i < k ==> fold_start(n, k, i) <= #[trigger] fold_end(n, k, i) <= n,
{
    lemma_fundamental_div_mod(n as int, k as int);
    assert forall|i: nat| i < k implies fold_start(n, k, i) <= #[trigger] fold_end(n, k, i) <= n by {
        assert(i * (n / k) <= (i + 1) * (n / k) <= n) by (nonlinear_arith)
            requires
                i + 1 <= k,
                n == k * (n / k) + n % k,
                n % k >= 0,
                n / k >= 0,
        ;
    }
}

/// Fold `i` starts at `i * (n / k)`; every fold but the last tests exactly
/// `n / k` items, and the last tests those plus the `n % k` left over.
pub proof fn lemma_fold_sizes(n: nat, k: nat, i: nat)
    requires
        k > 1,
        i < k,
    ensures
        fold_start(n, k, i) == i * (n / k),
        i + 1 < k ==> fold_end(n, k, i) - fold_start(n, k, i) == n / k,
        i + 1 == k ==> fold_end(n, k, i) - fold_start(n, k, i) == n / k + n % k,
{
    lemma_fundamental_div_mod(n as int, k as int);
    let q = n / k;
    let r = n % k;
    assert((i + 1) * q == i * q + q) by (nonlinear_arith);
    if i + 1 == k {
        assert(i * q + q + r == n) by (nonlinear_arith)
            requires
                i + 1 == k,
                n == k * q + r,
        ;
    }
}

} // verus!
