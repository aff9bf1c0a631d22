//! The clustering engine: squared Euclidean distance over fixed-point
//! feature vectors, random initialization with pairwise-distinct centers,
//! the fixed-count K-means loop, and the per-cluster reporting pass.
//!
//! Distances are compared, never rooted: the squared Euclidean distance
//! orders any pair of centers exactly as the Euclidean distance does, so the
//! nearest-center assignment is the same.

use vstd::prelude::*;
use rand::Rng;
use crate::record::{spec_features, Customer, FEATURE_DIM, FEATURE_MAX};

verus! {

/// Largest feature-vector length the distance computation accepts; with
/// every entry at most `FEATURE_MAX`, the squared distance of two such
/// vectors then fits in a `u128`.
pub const MAX_DIM: usize = 100_000;

/// Error of the clustering engine, detected before any iteration runs.
#[derive(Clone, Copy, Debug, PartialEq, Eq, Structural)]
pub enum ClusterError {
    /// Zero records: clustering is undefined on an empty dataset.
    EmptyDataset,
    /// `k` is zero or exceeds the number of records.
    InvalidK,
    /// Fewer than `k` pairwise-distinct feature vectors exist, so `k`
    /// pairwise-distinct centers cannot be chosen.
    DegenerateInit,
}

/// Sum of the squared entry differences of `a` and `b` over the first `n`
/// entries.
pub open spec fn dist_sq_upto(a: Seq<u64>, b: Seq<u64>, n: nat) -> int
    decreases n,
{
    if n == 0 {
        0
    } else {
        dist_sq_upto(a, b, (n - 1) as nat) + (a[n - 1] - b[n - 1]) * (a[n - 1] - b[n - 1])
    }
}

/// Squared Euclidean distance of two equal-length vectors.
pub open spec fn dist_sq(a: Seq<u64>, b: Seq<u64>) -> int {
    dist_sq_upto(a, b, a.len())
}

proof fn lemma_dist_sq_upto_props(a: Seq<u64>, b: Seq<u64>, n: nat)
    requires
        n <= a.len(),
        n <= b.len(),
    ensures
        dist_sq_upto(a, b, n) == dist_sq_upto(b, a, n),
        dist_sq_upto(a, a, n) == 0,
        dist_sq_upto(a, b, n) >= 0,
    decreases n,
{
    if n > 0 {
        lemma_dist_sq_upto_props(a, b, (n - 1) as nat);
        let x = a[n - 1] as int;
        let y = b[n - 1] as int;
        assert((x - y) * (x - y) == (y - x) * (y - x)) by (nonlinear_arith);
        assert((x - y) * (x - y) >= 0) by (nonlinear_arith);
    }
}

/// Distance is symmetric, and the distance of a vector to itself is zero.
pub proof fn lemma_distance_symmetric(a: Seq<u64>, b: Seq<u64>)
    requires
        a.len() == b.len(),
    ensures
        dist_sq(a, b) == dist_sq(b, a),
        dist_sq(a, a) == 0,
{
    lemma_dist_sq_upto_props(a, b, a.len());
    lemma_dist_sq_upto_props(a, a, a.len());
}

/// Squared Euclidean distance of two equal-length fixed-point vectors.
///
/// This is the metric of the assignment step: it orders centers exactly as
/// the Euclidean distance does.
pub fn distance(a: &Vec<u64>, b: &Vec<u64>) -> (r: u128)
    requires
        a@.len() == b@.len(),
        a@.len() <= MAX_DIM,
        forall|i: int| 0 <= i < a@.len() ==> #[trigger] a@[i] <= FEATURE_MAX,
        forall|i: int| 0 <= i < b@.len() ==> #[trigger] b@[i] <= FEATURE_MAX,
    ensures
        r == dist_sq(a@, b@),
{
    let n = a.len();
    let mut r: u128 = 0;
    let mut i: usize = 0;
    while i < n
        invariant
            i <= n,
            n == a@.len() == b@.len(),
            n <= MAX_DIM,
            forall|j: int| 0 <= j < n ==> #[trigger] a@[j] <= FEATURE_MAX,
            forall|j: int| 0 <= j < n ==> #[trigger] b@[j] <= FEATURE_MAX,
            r == dist_sq_upto(a@, b@, i as nat),
            r <= i * (FEATURE_MAX * FEATURE_MAX),
        decreases n - i,
    {
        let diff: u64 = if a[i] >= b[i] {
            a[i] - b[i]
        } else {
            b[i] - a[i]
        };
        proof {
            let x = a@[i as int] as int;
            let y = b@[i as int] as int;
            assert(diff * diff <= FEATURE_MAX * FEATURE_MAX && diff * diff == (x - y) * (x - y))
                by (nonlinear_arith)
                requires
                    0 <= x <= FEATURE_MAX,
                    0 <= y <= FEATURE_MAX,
                    diff == if x >= y {
                        x - y
                    } else {
                        y - x
                    },
            ;
        }
        let sq: u128 = (diff as u128) * (diff as u128);
        proof {
            assert(r + sq <= (i + 1) * (FEATURE_MAX * FEATURE_MAX) && (i + 1) * (FEATURE_MAX
                * FEATURE_MAX) <= 100_000 * (FEATURE_MAX * FEATURE_MAX)) by (nonlinear_arith)
                requires
                    r <= i * (FEATURE_MAX * FEATURE_MAX),
                    sq <= FEATURE_MAX * FEATURE_MAX,
                    0 <= i,
                    i + 1 <= 100_000,
            ;
        }
        r = r + sq;
        i = i + 1;
    }
    r
}

/// The entry views of a sequence of vectors.
pub open spec fn row_views(m: Seq<Vec<u64>>) -> Seq<Seq<u64>> {
    Seq::new(m.len(), |i: int| m[i]@)
}

/// Every row has length `d` and every entry is at most `FEATURE_MAX`.
pub open spec fn wf_mat(m: Seq<Seq<u64>>, d: int) -> bool {
    &&& forall|i: int| 0 <= i < m.len() ==> (#[trigger] m[i]).len() == d
    &&& forall|i: int, j: int|
        0 <= i < m.len() && 0 <= j < d ==> #[trigger] m[i][j] <= FEATURE_MAX
}

/// Index of the first center among the first `n` achieving the minimal
/// squared distance to `fv`.
pub open spec fn nearest_upto(fv: Seq<u64>, centers: Seq<Seq<u64>>, n: nat) -> nat
    decreases n,
{
    if n <= 1 {
        0
    } else {
        let prev = nearest_upto(fv, centers, (n - 1) as nat);
        if dist_sq(centers[n - 1], fv) < dist_sq(centers[prev as int], fv) {
            (n - 1) as nat
        } else {
            prev
        }
    }
}

/// Index of the first center with minimal squared distance to `fv`.
pub open spec fn nearest(fv: Seq<u64>, centers: Seq<Seq<u64>>) -> nat {
    nearest_upto(fv, centers, centers.len())
}

/// The assignment policy: the nearest center achieves the minimal squared
/// distance among the first `n` centers, and on ties the first center
/// achieving the minimum wins, so the assignment is deterministic for a
/// fixed center order.
pub proof fn lemma_nearest_upto_props(fv: Seq<u64>, centers: Seq<Seq<u64>>, n: nat)
    requires
        1 <= n <= centers.len(),
    ensures
        nearest_upto(fv, centers, n) < n,
        forall|j: int|
            0 <= j < n ==> dist_sq(centers[nearest_upto(fv, centers, n) as int], fv)
                <= dist_sq(#[trigger] centers[j], fv),
        forall|j: int|
            0 <= j < nearest_upto(fv, centers, n) ==> dist_sq(
                centers[nearest_upto(fv, centers, n) as int],
                fv,
            ) < dist_sq(#[trigger] centers[j], fv),
    decreases n,
{
    if n > 1 {
        lemma_nearest_upto_props(fv, centers, (n - 1) as nat);
    }
}

/// The first center achieving the minimal squared distance to `fv`.
pub fn nearest_center(fv: &Vec<u64>, centers: &Vec<Vec<u64>>, d: usize) -> (r: usize)
    requires
        1 <= centers@.len(),
        fv@.len() == d,
        d <= MAX_DIM,
        forall|i: int| 0 <= i < fv@.len() ==> #[trigger] fv@[i] <= FEATURE_MAX,
        wf_mat(row_views(centers@), d as int),
    ensures
        r == nearest(fv@, row_views(centers@)),
        r < centers@.len(),
{
    let k = centers.len();
    let mut best: usize = 0;
    proof {
        assert(row_views(centers@)[0] == centers@[0]@);
        assert(centers@[0]@.len() == d);
    }
    let mut best_d: u128 = distance(fv, &centers[0]);
    proof {
        lemma_dist_sq_upto_props(centers@[0]@, fv@, d as nat);
        assert(dist_sq(centers@[0]@, fv@) == dist_sq(fv@, centers@[0]@));
    }
    let mut j: usize = 1;
    while j < k
        invariant
            1 <= j <= k,
            k == centers@.len(),
            fv@.len() == d,
            d <= MAX_DIM,
            forall|i: int| 0 <= i < fv@.len() ==> #[trigger] fv@[i] <= FEATURE_MAX,
            wf_mat(row_views(centers@), d as int),
            best < j,
            best == nearest_upto(fv@, row_views(centers@), j as nat),
            best_d == dist_sq(row_views(centers@)[best as int], fv@),
        decreases k - j,
    {
        proof {
            assert(row_views(centers@)[j as int] == centers@[j as int]@);
            assert(centers@[j as int]@.len() == d);
        }
        let dj: u128 = distance(fv, &centers[j]);
        proof {
            lemma_dist_sq_upto_props(centers@[j as int]@, fv@, d as nat);
            assert(dist_sq(centers@[j as int]@, fv@) == dist_sq(fv@, centers@[j as int]@));
        }
        if dj < best_d {
            best = j;
            best_d = dj;
        }
        j = j + 1;
    }
    best
}

/// The nearest-center assignment of every feature vector.
pub open spec fn assign_all_spec(f: Seq<Seq<u64>>, centers: Seq<Seq<u64>>) -> Seq<usize> {
    Seq::new(f.len(), |i: int| nearest(f[i], centers) as usize)
}

/// Assignment step: every record goes to its first nearest center.
pub fn assign_all(features: &Vec<Vec<u64>>, centers: &Vec<Vec<u64>>, d: usize) -> (r: Vec<usize>)
    requires
        1 <= centers@.len(),
        d <= MAX_DIM,
        wf_mat(row_views(features@), d as int),
        wf_mat(row_views(centers@), d as int),
    ensures
        r@ == assign_all_spec(row_views(features@), row_views(centers@)),
        r@.len() == features@.len(),
        forall|i: int| 0 <= i < r@.len() ==> #[trigger] r@[i] < centers@.len(),
{
    let n = features.len();
    let mut r: Vec<usize> = Vec::new();
    let mut i: usize = 0;
    while i < n
        invariant
            i <= n,
            n == features@.len(),
            1 <= centers@.len(),
            d <= MAX_DIM,
            wf_mat(row_views(features@), d as int),
            wf_mat(row_views(centers@), d as int),
            r@.len() == i,
            forall|p: int|
                0 <= p < i ==> #[trigger] r@[p] == nearest(
                    row_views(features@)[p],
                    row_views(centers@),
                ) as usize && r@[p] < centers@.len(),
        decreases n - i,
    {
        proof {
            assert(row_views(features@)[i as int] == features@[i as int]@);
        }
        let a = nearest_center(&features[i], centers, d);
        r.push(a);
        i = i + 1;
    }
    proof {
        assert(r@ =~= assign_all_spec(row_views(features@), row_views(centers@)));
    }
    r
}

/// How many of the first `n` assignments name cluster `c`.
pub open spec fn count_upto(a: Seq<usize>, c: int, n: nat) -> int
    decreases n,
{
    if n == 0 {
        0
    } else {
        count_upto(a, c, (n - 1) as nat) + if a[n - 1] == c {
            1int
        } else {
            0int
        }
    }
}

/// How many records are assigned to cluster `c`.
pub open spec fn cluster_count(a: Seq<usize>, c: int) -> int {
    count_upto(a, c, a.len())
}

/// Sum of entry `j` of the feature vectors of the records among the first
/// `n` that are assigned to cluster `c`.
pub open spec fn sum_upto(f: Seq<Seq<u64>>, a: Seq<usize>, c: int, j: int, n: nat) -> int
    decreases n,
{
    if n == 0 {
        0
    } else {
        sum_upto(f, a, c, j, (n - 1) as nat) + if a[n - 1] == c {
            f[n - 1][j] as int
        } else {
            0int
        }
    }
}

/// Sum of entry `j` over all records assigned to cluster `c`.
pub open spec fn cluster_coord_sum(f: Seq<Seq<u64>>, a: Seq<usize>, c: int, j: int) -> int {
    sum_upto(f, a, c, j, a.len())
}

proof fn lemma_count_sum_bounds(f: Seq<Seq<u64>>, a: Seq<usize>, c: int, j: int, d: int, n: nat)
    requires
        n <= a.len(),
        a.len() == f.len(),
        0 <= j < d,
        wf_mat(f, d),
    ensures
        0 <= count_upto(a, c, n) <= n,
        0 <= sum_upto(f, a, c, j, n) <= count_upto(a, c, n) * FEATURE_MAX,
        sum_upto(f, a, c, j, n) <= n * FEATURE_MAX,
    decreases n,
{
    if n > 0 {
        lemma_count_sum_bounds(f, a, c, j, d, (n - 1) as nat);
        let cp = count_upto(a, c, (n - 1) as nat);
        let sp = sum_upto(f, a, c, j, (n - 1) as nat);
        assert(sp <= cp * FEATURE_MAX ==> sp + FEATURE_MAX <= (cp + 1) * FEATURE_MAX)
            by (nonlinear_arith);
        assert(cp * FEATURE_MAX <= n * FEATURE_MAX ==> sp <= n * FEATURE_MAX) by (nonlinear_arith)
            requires
                sp <= cp * FEATURE_MAX,
        ;
        assert(cp <= n ==> cp * FEATURE_MAX <= n * FEATURE_MAX) by (nonlinear_arith);
    }
}

/// The update step: every cluster with at least one assigned record moves
/// its center to the entry-wise mean (integer division) of the feature
/// vectors assigned to it; a cluster with none keeps its previous center.
pub open spec fn updated_centers(f: Seq<Seq<u64>>, a: Seq<usize>, old: Seq<Seq<u64>>, d: int) -> Seq<
    Seq<u64>,
> {
    Seq::new(
        old.len(),
        |c: int|
            if cluster_count(a, c) == 0 {
                old[c]
            } else {
                Seq::new(d as nat, |j: int| (cluster_coord_sum(f, a, c, j) / cluster_count(a, c)) as u64)
            },
    )
}

fn update_centers(
    features: &Vec<Vec<u64>>,
    assignments: &Vec<usize>,
    old_centers: &Vec<Vec<u64>>,
    d: usize,
) -> (r: Vec<Vec<u64>>)
    requires
        assignments@.len() == features@.len(),
        d <= MAX_DIM,
        wf_mat(row_views(features@), d as int),
        wf_mat(row_views(old_centers@), d as int),
    ensures
        row_views(r@) == updated_centers(
            row_views(features@),
            assignments@,
            row_views(old_centers@),
            d as int,
        ),
        r@.len() == old_centers@.len(),
        wf_mat(row_views(r@), d as int),
{
    let ghost fs = row_views(features@);
    let ghost av = assignments@;
    let ghost olds = row_views(old_centers@);
    let ghost spec_r = updated_centers(fs, av, olds, d as int);
    let n = features.len();
    let k = old_centers.len();
    let mut r: Vec<Vec<u64>> = Vec::new();
    let mut c: usize = 0;
    while c < k
        invariant
            c <= k,
            k == old_centers@.len(),
            n == features@.len() == assignments@.len(),
            d <= MAX_DIM,
            fs == row_views(features@),
            av == assignments@,
            olds == row_views(old_centers@),
            spec_r == updated_centers(fs, av, olds, d as int),
            wf_mat(fs, d as int),
            wf_mat(olds, d as int),
            r@.len() == c,
            forall|p: int| 0 <= p < c ==> #[trigger] r@[p]@ == spec_r[p],
            forall|p: int| 0 <= p < c ==> (#[trigger] r@[p]@).len() == d,
            forall|p: int, q: int| 0 <= p < c && 0 <= q < d ==> #[trigger] r@[p]@[q] <= FEATURE_MAX,
        decreases k - c,
    {
        // count the records assigned to cluster c
        let mut cnt: usize = 0;
        let mut i: usize = 0;
        while i < n
            invariant
                i <= n,
                n == assignments@.len(),
                av == assignments@,
                cnt == count_upto(av, c as int, i as nat),
                cnt <= i,
            decreases n - i,
        {
            if assignments[i] == c {
                cnt = cnt + 1;
            }
            i = i + 1;
        }
        let mut row: Vec<u64> = Vec::new();
        if cnt == 0 {
            let mut j: usize = 0;
            while j < d
                invariant
                    j <= d,
                    c < k,
                    k == old_centers@.len(),
                    olds == row_views(old_centers@),
                    wf_mat(olds, d as int),
                    row@.len() == j,
                    forall|q: int| 0 <= q < j ==> #[trigger] row@[q] == olds[c as int][q],
                decreases d - j,
            {
                proof {
                    assert(olds[c as int] == old_centers@[c as int]@);
                }
                row.push(old_centers[c][j]);
                j = j + 1;
            }
            proof {
                assert(row@ =~= olds[c as int]);
                assert(spec_r[c as int] == olds[c as int]);
            }
        } else {
            let mut j: usize = 0;
            while j < d
                invariant
                    j <= d,
                    c < k,
                    d <= MAX_DIM,
                    n == features@.len() == assignments@.len(),
                    fs == row_views(features@),
                    av == assignments@,
                    wf_mat(fs, d as int),
                    cnt == cluster_count(av, c as int),
                    cnt >= 1,
                    row@.len() == j,
                    forall|q: int|
                        0 <= q < j ==> #[trigger] row@[q] == (cluster_coord_sum(fs, av, c as int, q)
                            / cluster_count(av, c as int)) as u64 && row@[q] <= FEATURE_MAX,
                decreases d - j,
            {
                let mut sum: u128 = 0;
                let mut i2: usize = 0;
                while i2 < n
                    invariant
                        i2 <= n,
                        n == features@.len() == assignments@.len(),
                        fs == row_views(features@),
                        av == assignments@,
                        wf_mat(fs, d as int),
                        j < d,
                        c < k,
                        sum == sum_upto(fs, av, c as int, j as int, i2 as nat),
                        sum <= i2 * FEATURE_MAX,
                    decreases n - i2,
                {
                    if assignments[i2] == c {
                        proof {
                            assert(fs[i2 as int] == features@[i2 as int]@);
                            assert(fs[i2 as int][j as int] <= FEATURE_MAX);
                            assert(sum + fs[i2 as int][j as int] <= (i2 + 1) * FEATURE_MAX
                                && (i2 + 1) * FEATURE_MAX <= 0x1_0000_0000_0000_0000 * FEATURE_MAX)
                                by (nonlinear_arith)
                                requires
                                    sum <= i2 * FEATURE_MAX,
                                    fs[i2 as int][j as int] <= FEATURE_MAX,
                                    0 <= i2,
                                    i2 + 1 <= 0x1_0000_0000_0000_0000,
                            ;
                        }
                        sum = sum + (features[i2][j] as u128);
                    } else {
                        proof {
                            assert(sum <= (i2 + 1) * FEATURE_MAX) by (nonlinear_arith)
                                requires
                                    sum <= i2 * FEATURE_MAX,
                                    0 <= i2,
                            ;
                        }
                    }
                    i2 = i2 + 1;
                }
                let mean: u64 = (sum / (cnt as u128)) as u64;
                proof {
                    lemma_count_sum_bounds(fs, av, c as int, j as int, d as int, av.len());
                    vstd::arithmetic::div_mod::lemma_div_is_ordered(
                        sum as int,
                        cluster_count(av, c as int) * FEATURE_MAX,
                        cluster_count(av, c as int),
                    );
                    vstd::arithmetic::mul::lemma_mul_is_commutative(
                        cluster_count(av, c as int),
                        FEATURE_MAX as int,
                    );
                    vstd::arithmetic::div_mod::lemma_div_by_multiple(
                        FEATURE_MAX as int,
                        cluster_count(av, c as int),
                    );
                    assert(sum / (cnt as u128) <= FEATURE_MAX);
                }
                row.push(mean);
                j = j + 1;
            }
            proof {
                assert(row@ =~= spec_r[c as int]);
            }
        }
        r.push(row);
        c = c + 1;
    }
    proof {
        assert(row_views(r@) =~= spec_r);
    }
    r
}

/// The centers after `t` update steps, each preceded by a fresh
/// nearest-center assignment, starting from the initial centers `c0`.
pub open spec fn centers_after(f: Seq<Seq<u64>>, c0: Seq<Seq<u64>>, d: int, t: nat) -> Seq<Seq<u64>>
    decreases t,
{
    if t == 0 {
        c0
    } else {
        let prev = centers_after(f, c0, d, (t - 1) as nat);
        updated_centers(f, assign_all_spec(f, prev), prev, d)
    }
}

/// The assignment K-means returns after exactly `iterations` passes: the
/// nearest-center assignment against the centers of the last completed
/// update step, or against the initial centers when no pass runs.
pub open spec fn final_assignment(
    f: Seq<Seq<u64>>,
    c0: Seq<Seq<u64>>,
    d: int,
    iterations: nat,
) -> Seq<usize> {
    assign_all_spec(
        f,
        centers_after(
            f,
            c0,
            d,
            if iterations == 0 {
                0
            } else {
                (iterations - 1) as nat
            },
        ),
    )
}

/// The deterministic K-means loop: exactly `iterations` alternations of
/// assignment and update, starting from the given centers, never stopping
/// early. A cluster that loses all records keeps its previous center.
pub fn kmeans_run(
    features: &Vec<Vec<u64>>,
    init_centers: Vec<Vec<u64>>,
    iterations: usize,
    d: usize,
) -> (r: Vec<usize>)
    requires
        1 <= init_centers@.len(),
        1 <= d <= MAX_DIM,
        wf_mat(row_views(features@), d as int),
        wf_mat(row_views(init_centers@), d as int),
    ensures
        r@ == final_assignment(
            row_views(features@),
            row_views(init_centers@),
            d as int,
            iterations as nat,
        ),
        r@.len() == features@.len(),
        forall|i: int| 0 <= i < r@.len() ==> #[trigger] r@[i] < init_centers@.len(),
        iterations == 0 ==> r@ == assign_all_spec(row_views(features@), row_views(init_centers@)),
{
    let ghost fs = row_views(features@);
    let ghost c0 = row_views(init_centers@);
    let k = init_centers.len();
    let mut centers = init_centers;
    let mut assignments = assign_all(features, &centers, d);
    let mut t: usize = 0;
    while t < iterations
        invariant
            t <= iterations,
            k == centers@.len(),
            k >= 1,
            d <= MAX_DIM,
            fs == row_views(features@),
            wf_mat(fs, d as int),
            wf_mat(row_views(centers@), d as int),
            row_views(centers@) == centers_after(fs, c0, d as int, t as nat),
            assignments@ == assign_all_spec(
                fs,
                centers_after(
                    fs,
                    c0,
                    d as int,
                    if t == 0 {
                        0
                    } else {
                        (t - 1) as nat
                    },
                ),
            ),
            assignments@.len() == features@.len(),
            forall|i: int| 0 <= i < assignments@.len() ==> #[trigger] assignments@[i] < k,
        decreases iterations - t,
    {
        assignments = assign_all(features, &centers, d);
        centers = update_centers(features, &assignments, &centers, d);
        t = t + 1;
    }
    assignments
}

/// How many pairwise-distinct rows the first `n` rows of `f` hold.
pub open spec fn distinct_upto(f: Seq<Seq<u64>>, n: nat) -> int
    decreases n,
{
    if n == 0 {
        0
    } else {
        distinct_upto(f, (n - 1) as nat) + if exists|j: int| 0 <= j < n - 1 && #[trigger] f[j] == f[n - 1] {
            0int
        } else {
            1int
        }
    }
}

/// Number of pairwise-distinct rows of `f`.
pub open spec fn distinct_count(f: Seq<Seq<u64>>) -> int {
    distinct_upto(f, f.len())
}

/// A legal set of initial centers: exactly `k` of them, pairwise distinct,
/// each one of the dataset's feature vectors.
pub open spec fn valid_init(cs: Seq<Seq<u64>>, f: Seq<Seq<u64>>, k: int) -> bool {
    &&& cs.len() == k
    &&& forall|p: int, q: int| 0 <= p < q < cs.len() ==> cs[p] != cs[q]
    &&& forall|p: int| 0 <= p < cs.len() ==> f.contains(#[trigger] cs[p])
}

fn row_eq(a: &Vec<u64>, b: &Vec<u64>) -> (r: bool)
    ensures
        r <==> a@ == b@,
{
    if a.len() != b.len() {
        return false;
    }
    let n = a.len();
    let mut i: usize = 0;
    while i < n
        invariant
            i <= n,
            n == a@.len() == b@.len(),
            forall|q: int| 0 <= q < i ==> a@[q] == b@[q],
        decreases n - i,
    {
        if a[i] != b[i] {
            return false;
        }
        i = i + 1;
    }
    proof {
        assert(a@ =~= b@);
    }
    true
}

fn row_in(pool: &Vec<Vec<u64>>, x: &Vec<u64>) -> (r: bool)
    ensures
        r <==> exists|p: int| 0 <= p < pool@.len() && row_views(pool@)[p] == x@,
{
    let n = pool.len();
    let mut p: usize = 0;
    while p < n
        invariant
            p <= n,
            n == pool@.len(),
            forall|q: int| 0 <= q < p ==> row_views(pool@)[q] != x@,
        decreases n - p,
    {
        if row_eq(&pool[p], x) {
            proof {
                assert(row_views(pool@)[p as int] == x@);
            }
            return true;
        }
        p = p + 1;
    }
    false
}

fn copy_row(src: &Vec<u64>) -> (r: Vec<u64>)
    ensures
        r@ == src@,
{
    let n = src.len();
    let mut r: Vec<u64> = Vec::new();
    let mut i: usize = 0;
    while i < n
        invariant
            i <= n,
            n == src@.len(),
            r@.len() == i,
            forall|q: int| 0 <= q < i ==> r@[q] == src@[q],
        decreases n - i,
    {
        r.push(src[i]);
        i = i + 1;
    }
    proof {
        assert(r@ =~= src@);
    }
    r
}

proof fn lemma_row_views_push(m: Seq<Vec<u64>>, x: Vec<u64>)
    ensures
        row_views(m.push(x)).len() == m.len() + 1,
        forall|p: int| 0 <= p < m.len() ==> row_views(m.push(x))[p] == row_views(m)[p],
        row_views(m.push(x))[m.len() as int] == x@,
{
    assert forall|p: int| 0 <= p < m.len() implies row_views(m.push(x))[p] == row_views(m)[p] by {
        assert(m.push(x)[p] == m[p]);
    }
    assert(m.push(x)[m.len() as int] == x);
}

proof fn lemma_row_views_remove(m: Seq<Vec<u64>>, idx: int)
    requires
        0 <= idx < m.len(),
    ensures
        row_views(m.remove(idx)).len() == m.len() - 1,
        forall|p: int| 0 <= p < idx ==> row_views(m.remove(idx))[p] == row_views(m)[p],
        forall|p: int|
            idx <= p < m.len() - 1 ==> row_views(m.remove(idx))[p] == row_views(m)[p + 1],
{
    assert forall|p: int| 0 <= p < idx implies row_views(m.remove(idx))[p] == row_views(m)[p] by {
        assert(m.remove(idx)[p] == m[p]);
    }
    assert forall|p: int| idx <= p < m.len() - 1 implies row_views(m.remove(idx))[p] == row_views(
        m,
    )[p + 1] by {
        assert(m.remove(idx)[p] == m[p + 1]);
    }
}

/// Relies on rand::Rng::gen_range: the sample lies in the given half-open
/// range, and the call panics only on an empty range, which the precondition
/// excludes. Nothing more is assumed of the sample.
#[verifier::external_body]
fn rand_below(n: usize) -> (r: usize)
    requires
        1 <= n,
    ensures
        r < n,
{
    rand::thread_rng().gen_range(0..n)
}

/// All distinct feature vectors of the dataset, each at its first
/// occurrence, in order of first occurrence.
fn distinct_rows(features: &Vec<Vec<u64>>, d: usize) -> (pool: Vec<Vec<u64>>)
    requires
        wf_mat(row_views(features@), d as int),
    ensures
        pool@.len() == distinct_count(row_views(features@)),
        forall|p: int|
            0 <= p < pool@.len() ==> row_views(features@).contains(
                #[trigger] row_views(pool@)[p],
            ),
        forall|p: int, q: int|
            0 <= p < q < pool@.len() ==> row_views(pool@)[p] != row_views(pool@)[q],
{
    let ghost fs = row_views(features@);
    let n = features.len();
    let mut pool: Vec<Vec<u64>> = Vec::new();
    let mut i: usize = 0;
    while i < n
        invariant
            i <= n,
            n == features@.len(),
            fs == row_views(features@),
            pool@.len() == distinct_upto(fs, i as nat),
            forall|p: int|
                0 <= p < pool@.len() ==> exists|j: int|
                    0 <= j < i && #[trigger] row_views(pool@)[p] == fs[j],
            forall|j: int|
                0 <= j < i ==> exists|p: int|
                    0 <= p < pool@.len() && row_views(pool@)[p] == #[trigger] fs[j],
            forall|p: int, q: int|
                0 <= p < q < pool@.len() ==> row_views(pool@)[p] != row_views(pool@)[q],
        decreases n - i,
    {
        let ghost old_pool = pool@;
        proof {
            assert(fs[i as int] == features@[i as int]@);
        }
        let present = row_in(&pool, &features[i]);
        proof {
            if present {
                let p = choose|p: int|
                    0 <= p < old_pool.len() && row_views(old_pool)[p] == fs[i as int];
                let j = choose|j: int| 0 <= j < i && row_views(old_pool)[p] == #[trigger] fs[j];
                assert(0 <= j < i && fs[j] == fs[i as int]);
            } else {
                assert forall|j: int| 0 <= j < i implies #[trigger] fs[j] != fs[i as int] by {
                    let p = choose|p: int|
                        0 <= p < old_pool.len() && #[trigger] row_views(old_pool)[p] == fs[j];
                    assert(row_views(old_pool)[p] != fs[i as int]);
                }
            }
            assert(distinct_upto(fs, (i + 1) as nat) == distinct_upto(fs, i as nat) + if present {
                0int
            } else {
                1int
            });
        }
        if !present {
            let row = copy_row(&features[i]);
            pool.push(row);
            proof {
                lemma_row_views_push(old_pool, row);
                assert(row_views(pool@)[old_pool.len() as int] == fs[i as int]);
                assert forall|p: int| 0 <= p < pool@.len() implies exists|j: int|
                    0 <= j < i + 1 && #[trigger] row_views(pool@)[p] == fs[j] by {
                    if p < old_pool.len() {
                        assert(row_views(pool@)[p] == row_views(old_pool)[p]);
                        let j = choose|j: int|
                            0 <= j < i && row_views(old_pool)[p] == #[trigger] fs[j];
                        assert(row_views(pool@)[p] == fs[j]);
                    } else {
                        assert(row_views(pool@)[p] == fs[i as int]);
                    }
                }
                assert forall|j: int| 0 <= j < i + 1 implies exists|p: int|
                    0 <= p < pool@.len() && row_views(pool@)[p] == #[trigger] fs[j] by {
                    if j < i {
                        let p = choose|p: int|
                            0 <= p < old_pool.len() && #[trigger] row_views(old_pool)[p] == fs[j];
                        assert(row_views(pool@)[p] == fs[j]);
                    } else {
                        assert(row_views(pool@)[old_pool.len() as int] == fs[j]);
                    }
                }
                assert forall|p: int, q: int|
                    0 <= p < q < pool@.len() implies row_views(pool@)[p] != row_views(
                    pool@,
                )[q] by {
                    if q < old_pool.len() {
                        assert(row_views(old_pool)[p] != row_views(old_pool)[q]);
                    } else {
                        assert(row_views(pool@)[p] == row_views(old_pool)[p]);
                        assert(row_views(pool@)[q] == fs[i as int]);
                    }
                }
            }
        } else {
            proof {
                assert forall|j: int| 0 <= j < i + 1 implies exists|p: int|
                    0 <= p < pool@.len() && row_views(pool@)[p] == #[trigger] fs[j] by {
                    if j == i {
                        let p = choose|p: int|
                            0 <= p < pool@.len() && row_views(pool@)[p] == fs[i as int];
                        assert(row_views(pool@)[p] == fs[j]);
                    }
                }
            }
        }
        i = i + 1;
    }
    proof {
        assert forall|p: int| 0 <= p < pool@.len() implies fs.contains(
            #[trigger] row_views(pool@)[p],
        ) by {
            let j = choose|j: int| 0 <= j < i && row_views(pool@)[p] == #[trigger] fs[j];
            assert(fs[j] == row_views(pool@)[p]);
        }
    }
    pool
}

/// `k` rows drawn uniformly at random, without replacement, from a pool of
/// pairwise-distinct rows taken from `origin`.
fn sample_distinct(pool: Vec<Vec<u64>>, k: usize, origin: Ghost<Seq<Seq<u64>>>) -> (r: Vec<
    Vec<u64>,
>)
    requires
        k <= pool@.len(),
        forall|p: int|
            0 <= p < pool@.len() ==> origin@.contains(#[trigger] row_views(pool@)[p]),
        forall|p: int, q: int|
            0 <= p < q < pool@.len() ==> row_views(pool@)[p] != row_views(pool@)[q],
    ensures
        r@.len() == k,
        forall|p: int| 0 <= p < r@.len() ==> origin@.contains(#[trigger] row_views(r@)[p]),
        forall|p: int, q: int|
            0 <= p < q < r@.len() ==> row_views(r@)[p] != row_views(r@)[q],
{
    let mut pool = pool;
    let mut chosen: Vec<Vec<u64>> = Vec::new();
    let mut t: usize = 0;
    while t < k
        invariant
            t <= k,
            k <= pool@.len() + t,
            chosen@.len() == t,
            forall|p: int|
                0 <= p < pool@.len() ==> origin@.contains(#[trigger] row_views(pool@)[p]),
            forall|p: int|
                0 <= p < chosen@.len() ==> origin@.contains(#[trigger] row_views(chosen@)[p]),
            forall|p: int, q: int|
                0 <= p < q < pool@.len() ==> row_views(pool@)[p] != row_views(pool@)[q],
            forall|p: int, q: int|
                0 <= p < q < chosen@.len() ==> row_views(chosen@)[p] != row_views(chosen@)[q],
            forall|p: int, q: int|
                0 <= p < chosen@.len() && 0 <= q < pool@.len() ==> row_views(chosen@)[p]
                    != row_views(pool@)[q],
        decreases k - t,
    {
        let idx = rand_below(pool.len());
        let ghost old_pool = pool@;
        let ghost old_chosen = chosen@;
        let v = pool.remove(idx);
        proof {
            assert(v@ == row_views(old_pool)[idx as int]);
        }
        chosen.push(v);
        proof {
            lemma_row_views_remove(old_pool, idx as int);
            lemma_row_views_push(old_chosen, v);
            assert(row_views(chosen@)[old_chosen.len() as int] == row_views(old_pool)[idx as int]);
            // every remaining pool row keeps its origin in the dataset
            assert forall|p: int| 0 <= p < pool@.len() implies origin@.contains(
                #[trigger] row_views(pool@)[p],
            ) by {
                let po = if p < idx {
                    p
                } else {
                    p + 1
                };
                assert(row_views(pool@)[p] == row_views(old_pool)[po]);
                assert(origin@.contains(row_views(old_pool)[po]));
            }
            // every chosen row keeps its origin in the dataset
            assert forall|p: int| 0 <= p < chosen@.len() implies origin@.contains(
                #[trigger] row_views(chosen@)[p],
            ) by {
                if p < old_chosen.len() {
                    assert(row_views(chosen@)[p] == row_views(old_chosen)[p]);
                    assert(origin@.contains(row_views(old_chosen)[p]));
                } else {
                    assert(row_views(chosen@)[p] == row_views(old_pool)[idx as int]);
                    assert(origin@.contains(row_views(old_pool)[idx as int]));
                }
            }
            // the pool stays pairwise distinct
            assert forall|p: int, q: int|
                0 <= p < q < pool@.len() implies row_views(pool@)[p] != row_views(pool@)[q] by {
                let po = if p < idx {
                    p
                } else {
                    p + 1
                };
                let qo = if q < idx {
                    q
                } else {
                    q + 1
                };
                assert(row_views(pool@)[p] == row_views(old_pool)[po]);
                assert(row_views(pool@)[q] == row_views(old_pool)[qo]);
                assert(row_views(old_pool)[po] != row_views(old_pool)[qo]);
            }
            // the chosen rows stay pairwise distinct
            assert forall|p: int, q: int|
                0 <= p < q < chosen@.len() implies row_views(chosen@)[p] != row_views(
                chosen@,
            )[q] by {
                if q < old_chosen.len() {
                    assert(row_views(old_chosen)[p] != row_views(old_chosen)[q]);
                } else {
                    assert(row_views(chosen@)[p] == row_views(old_chosen)[p]);
                    assert(row_views(chosen@)[q] == row_views(old_pool)[idx as int]);
                    assert(row_views(old_chosen)[p] != row_views(old_pool)[idx as int]);
                }
            }
            // chosen and pool stay disjoint
            assert forall|p: int, q: int|
                0 <= p < chosen@.len() && 0 <= q < pool@.len() implies row_views(chosen@)[p]
                != row_views(pool@)[q] by {
                let qo = if q < idx {
                    q
                } else {
                    q + 1
                };
                assert(row_views(pool@)[q] == row_views(old_pool)[qo]);
                if p < old_chosen.len() {
                    assert(row_views(chosen@)[p] == row_views(old_chosen)[p]);
                    assert(row_views(old_chosen)[p] != row_views(old_pool)[qo]);
                } else {
                    assert(row_views(chosen@)[p] == row_views(old_pool)[idx as int]);
                    assert(qo != idx);
                    assert(row_views(old_pool)[idx as int] != row_views(old_pool)[qo]);
                }
            }
        }
        t = t + 1;
    }
    chosen
}

/// Choose `k` pairwise-distinct initial centers by uniform random sampling
/// without replacement from the distinct feature vectors of the dataset, so
/// that the choice never loops unboundedly: when fewer than `k` distinct
/// vectors exist it fails with an explicit error instead.
pub fn init_centers(features: &Vec<Vec<u64>>, k: usize, d: usize) -> (r: Result<
    Vec<Vec<u64>>,
    ClusterError,
>)
    requires
        d <= MAX_DIM,
        wf_mat(row_views(features@), d as int),
    ensures
        r is Ok <==> (features@.len() >= 1 && 1 <= k <= features@.len() && distinct_count(
            row_views(features@),
        ) >= k),
        r matches Ok(cs) ==> valid_init(row_views(cs@), row_views(features@), k as int) && wf_mat(
            row_views(cs@),
            d as int,
        ) && cs@.len() == k,
        r == Err::<Vec<Vec<u64>>, ClusterError>(ClusterError::EmptyDataset) <==> features@.len()
            == 0,
        r == Err::<Vec<Vec<u64>>, ClusterError>(ClusterError::InvalidK) <==> (features@.len() >= 1
            && (k == 0 || k > features@.len())),
        r == Err::<Vec<Vec<u64>>, ClusterError>(ClusterError::DegenerateInit) <==> (features@.len()
            >= 1 && 1 <= k <= features@.len() && distinct_count(row_views(features@)) < k),
{
    let ghost fs = row_views(features@);
    let n = features.len();
    if n == 0 {
        return Err(ClusterError::EmptyDataset);
    }
    if k == 0 || k > n {
        return Err(ClusterError::InvalidK);
    }
    let pool = distinct_rows(features, d);
    if pool.len() < k {
        return Err(ClusterError::DegenerateInit);
    }
    let chosen = sample_distinct(pool, k, Ghost(fs));
    proof {
        assert forall|p: int| 0 <= p < chosen@.len() implies (#[trigger] row_views(chosen@)[p]).len()
            == d by {
            assert(fs.contains(row_views(chosen@)[p]));
            let j = choose|j: int| 0 <= j < fs.len() && fs[j] == row_views(chosen@)[p];
            assert(fs[j].len() == d);
        }
        assert forall|p: int, j: int|
            0 <= p < chosen@.len() && 0 <= j < d implies #[trigger] row_views(chosen@)[p][j]
            <= FEATURE_MAX by {
            let w = choose|w: int| 0 <= w < fs.len() && fs[w] == row_views(chosen@)[p];
            assert(fs[w][j] <= FEATURE_MAX);
        }
        assert(valid_init(row_views(chosen@), fs, k as int));
        assert(wf_mat(row_views(chosen@), d as int));
    }
    Ok(chosen)
}

/// The feature vectors of a sequence of customers, in record order.
pub open spec fn features_of(cs: Seq<Customer>) -> Seq<Seq<u64>> {
    Seq::new(cs.len(), |i: int| spec_features(cs[i]))
}

/// K-means over a dataset of customer records.
///
/// Derives each record's feature vector, chooses `k` pairwise-distinct
/// initial centers at random, runs exactly `iterations` assignment/update
/// passes, and returns the final assignment: one cluster index in `[0, k)`
/// for every record index, in record order. Parameter violations and
/// datasets with fewer than `k` distinct feature vectors fail fast, before
/// any iteration runs.
pub fn kmeans_cluster(customers: &Vec<Customer>, k: usize, iterations: usize) -> (r: Result<
    Vec<usize>,
    ClusterError,
>)
    requires
        forall|i: int| 0 <= i < customers@.len() ==> (#[trigger] customers@[i]).wf(),
    ensures
        r is Ok <==> (customers@.len() >= 1 && 1 <= k <= customers@.len() && distinct_count(
            features_of(customers@),
        ) >= k),
        r matches Ok(a) ==> {
            &&& a@.len() == customers@.len()
            &&& forall|i: int| 0 <= i < a@.len() ==> #[trigger] a@[i] < k
            &&& exists|c0: Seq<Seq<u64>>|
                valid_init(c0, features_of(customers@), k as int) && a@ == final_assignment(
                    features_of(customers@),
                    c0,
                    FEATURE_DIM as int,
                    iterations as nat,
                )
        },
        r == Err::<Vec<usize>, ClusterError>(ClusterError::EmptyDataset) <==> customers@.len()
            == 0,
        r == Err::<Vec<usize>, ClusterError>(ClusterError::InvalidK) <==> (customers@.len() >= 1
            && (k == 0 || k > customers@.len())),
        r == Err::<Vec<usize>, ClusterError>(ClusterError::DegenerateInit) <==> (customers@.len()
            >= 1 && 1 <= k <= customers@.len() && distinct_count(features_of(customers@)) < k),
{
    let n = customers.len();
    let mut features: Vec<Vec<u64>> = Vec::new();
    let mut i: usize = 0;
    while i < n
        invariant
            i <= n,
            n == customers@.len(),
            forall|p: int| 0 <= p < customers@.len() ==> (#[trigger] customers@[p]).wf(),
            features@.len() == i,
            forall|p: int|
                0 <= p < i ==> #[trigger] features@[p]@ == spec_features(customers@[p]),
        decreases n - i,
    {
        let fv = customers[i].feature_vector();
        features.push(fv);
        i = i + 1;
    }
    let ghost fs = row_views(features@);
    proof {
        assert(fs =~= features_of(customers@));
        assert forall|p: int, j: int|
            0 <= p < fs.len() && 0 <= j < FEATURE_DIM as int implies #[trigger] fs[p][j]
            <= FEATURE_MAX by {
            assert(fs[p] == spec_features(customers@[p]));
        }
        assert(wf_mat(fs, FEATURE_DIM as int));
    }
    let centers = match init_centers(&features, k, FEATURE_DIM) {
        Ok(cs) => cs,
        Err(e) => {
            return Err(e);
        },
    };
    let ghost c0 = row_views(centers@);
    let a = kmeans_run(&features, centers, iterations, FEATURE_DIM);
    proof {
        assert(valid_init(c0, features_of(customers@), k as int) && a@ == final_assignment(
            features_of(customers@),
            c0,
            FEATURE_DIM as int,
            iterations as nat,
        ));
    }
    Ok(a)
}

/// Per-cluster report: how many records a cluster holds and the entry-wise
/// mean (integer division) of their feature vectors. With the nine-entry
/// feature vectors of this library, entry five of `means` is the mean total
/// spend of the cluster.
pub struct ClusterSummary {
    pub count: usize,
    pub means: Vec<u64>,
}

/// Reporting pass: the size and the entry-wise feature means of each of the
/// `k` clusters under the given assignment. A cluster with no assigned
/// records reports zero for every mean, never a division error.
pub fn cluster_summary(
    features: &Vec<Vec<u64>>,
    assignments: &Vec<usize>,
    k: usize,
    d: usize,
) -> (r: Vec<ClusterSummary>)
    requires
        assignments@.len() == features@.len(),
        d <= MAX_DIM,
        wf_mat(row_views(features@), d as int),
    ensures
        r@.len() == k,
        forall|c: int|
            0 <= c < k ==> (#[trigger] r@[c]).count == cluster_count(assignments@, c),
        forall|c: int| 0 <= c < k ==> (#[trigger] r@[c]).means@.len() == d,
        forall|c: int, j: int|
            0 <= c < k && 0 <= j < d ==> #[trigger] r@[c].means@[j] == (if cluster_count(
                assignments@,
                c,
            ) == 0 {
                0u64
            } else {
                (cluster_coord_sum(row_views(features@), assignments@, c, j) / cluster_count(
                    assignments@,
                    c,
                )) as u64
            }),
{
    let ghost fs = row_views(features@);
    let ghost av = assignments@;
    let n = features.len();
    let mut r: Vec<ClusterSummary> = Vec::new();
    let mut c: usize = 0;
    while c < k
        invariant
            c <= k,
            n == features@.len() == assignments@.len(),
            d <= MAX_DIM,
            fs == row_views(features@),
            av == assignments@,
            wf_mat(fs, d as int),
            r@.len() == c,
            forall|p: int| 0 <= p < c ==> (#[trigger] r@[p]).count == cluster_count(av, p),
            forall|p: int| 0 <= p < c ==> (#[trigger] r@[p]).means@.len() == d,
            forall|p: int, j: int|
                0 <= p < c && 0 <= j < d ==> #[trigger] r@[p].means@[j] == (if cluster_count(
                    av,
                    p,
                ) == 0 {
                    0u64
                } else {
                    (cluster_coord_sum(fs, av, p, j) / cluster_count(av, p)) as u64
                }),
        decreases k - c,
    {
        let mut cnt: usize = 0;
        let mut i: usize = 0;
        while i < n
            invariant
                i <= n,
                n == assignments@.len(),
                av == assignments@,
                cnt == count_upto(av, c as int, i as nat),
                cnt <= i,
            decreases n - i,
        {
            if assignments[i] == c {
                cnt = cnt + 1;
            }
            i = i + 1;
        }
        let mut means: Vec<u64> = Vec::new();
        if cnt == 0 {
            let mut j: usize = 0;
            while j < d
                invariant
                    j <= d,
                    means@.len() == j,
                    forall|q: int| 0 <= q < j ==> #[trigger] means@[q] == 0u64,
                decreases d - j,
            {
                means.push(0);
                j = j + 1;
            }
        } else {
            let mut j: usize = 0;
            while j < d
                invariant
                    j <= d,
                    d <= MAX_DIM,
                    n == features@.len() == assignments@.len(),
                    fs == row_views(features@),
                    av == assignments@,
                    wf_mat(fs, d as int),
                    cnt == cluster_count(av, c as int),
                    cnt >= 1,
                    means@.len() == j,
                    forall|q: int|
                        0 <= q < j ==> #[trigger] means@[q] == (cluster_coord_sum(fs, av, c as int, q)
                            / cluster_count(av, c as int)) as u64,
                decreases d - j,
            {
                let mut sum: u128 = 0;
                let mut i2: usize = 0;
                while i2 < n
                    invariant
                        i2 <= n,
                        n == features@.len() == assignments@.len(),
                        fs == row_views(features@),
                        av == assignments@,
                        wf_mat(fs, d as int),
                        j < d,
                        sum == sum_upto(fs, av, c as int, j as int, i2 as nat),
                        sum <= i2 * FEATURE_MAX,
                    decreases n - i2,
                {
                    if assignments[i2] == c {
                        proof {
                            assert(fs[i2 as int] == features@[i2 as int]@);
                            assert(sum + fs[i2 as int][j as int] <= (i2 + 1) * FEATURE_MAX && (i2
                                + 1) * FEATURE_MAX <= 0x1_0000_0000_0000_0000 * FEATURE_MAX)
                                by (nonlinear_arith)
                                requires
                                    sum <= i2 * FEATURE_MAX,
                                    fs[i2 as int][j as int] <= FEATURE_MAX,
                                    0 <= i2,
                                    i2 + 1 <= 0x1_0000_0000_0000_0000,
                            ;
                        }
                        sum = sum + (features[i2][j] as u128);
                    } else {
                        proof {
                            assert(sum <= (i2 + 1) * FEATURE_MAX) by (nonlinear_arith)
                                requires
                                    sum <= i2 * FEATURE_MAX,
                                    0 <= i2,
                            ;
                        }
                    }
                    i2 = i2 + 1;
                }
                let mean: u64 = (sum / (cnt as u128)) as u64;
                proof {
                    lemma_count_sum_bounds(fs, av, c as int, j as int, d as int, av.len());
                    vstd::arithmetic::div_mod::lemma_div_is_ordered(
                        sum as int,
                        cluster_count(av, c as int) * FEATURE_MAX,
                        cluster_count(av, c as int),
                    );
                    vstd::arithmetic::mul::lemma_mul_is_commutative(
                        cluster_count(av, c as int),
                        FEATURE_MAX as int,
                    );
                    vstd::arithmetic::div_mod::lemma_div_by_multiple(
                        FEATURE_MAX as int,
                        cluster_count(av, c as int),
                    );
                    assert(sum / (cnt as u128) <= FEATURE_MAX);
                }
                means.push(mean);
                j = j + 1;
            }
        }
        r.push(ClusterSummary { count: cnt, means });
        c = c + 1;
    }
    r
}

} // verus!
