//! Sample-set generation for antialiasing, lens and hemisphere sampling.
//!
//! Each generator lays `num_samples` samples out on the unit square, and a
//! renderer draws whole sets of them through [`Samples`], a container that
//! cycles through a fixed number of precomputed sets and reshuffles its
//! drawing order whenever a full rotation has been used up.
//!
//! The randomised part of every pattern is a plain jitter inside a grid
//! cell; everything else about a pattern is exact integer structure.  The
//! functions here produce and prove that structure: which cell each sample
//! occupies, that rook patterns use every row and every column exactly
//! once, and the dyadic fractions behind the Hammersley sequence.

use vstd::prelude::*;
use crate::perm::identity_vec;
use crate::perm::index_seq;
use crate::perm::is_index_perm;
use crate::perm::lemma_index_perm_bounds;
use crate::perm::lemma_index_perm_from_pointwise;
use crate::perm::random_index;
use crate::perm::shuffle;
use crate::perm::swap_at;

verus! {

/// Number of sample sets that a generator precomputes for one render.
pub const NUM_SETS: usize = 83;

/// A perfect square: some non-negative integer multiplied by itself.
pub open spec fn is_square(n: int) -> bool {
    exists|r: int| 0 <= r && #[trigger] (r * r) == n
}

/// Integer square root: the largest `r` with `r * r <= n`.
///
/// The loop condition compares `r + 1` against `n / (r + 1)` so that no
/// intermediate product can overflow.
pub fn int_sqrt(n: usize) -> (r: usize)
    ensures
        r * r <= n < (r + 1) * (r + 1),
{
    let mut r: usize = 0;
    while r + 1 <= n / (r + 1)
        invariant
            r * r <= n,
            r <= n,
            r + 1 <= usize::MAX,
        decreases n - r,
    {
        proof {
            lemma_sqrt_step(n as int, (r + 1) as int);
        }
        r = r + 1;
        proof {
            assert(r <= r * r) by (nonlinear_arith)
                requires r >= 1;
            assert(r < usize::MAX) by (nonlinear_arith)
                requires
                    r * r <= usize::MAX,
                    usize::MAX >= 2,
            ;
        }
    }
    proof {
        lemma_sqrt_stop(n as int, (r + 1) as int);
    }
    r
}

/// If `d <= n / d` for positive `d`, then `d * d <= n`.
proof fn lemma_sqrt_step(n: int, d: int)
    requires
        0 <= n,
        1 <= d,
        d <= n / d,
    ensures
        d * d <= n,
{
    vstd::arithmetic::div_mod::lemma_fundamental_div_mod(n, d);
    vstd::arithmetic::div_mod::lemma_mod_division_less_than_divisor(n, d);
    let q = n / d;
    let m = n % d;
    assert(d * d <= n) by (nonlinear_arith)
        requires
            n == d * q + m,
            0 <= m,
            d <= q,
            1 <= d,
    ;
}

/// If `d > n / d` for positive `d`, then `d * d > n`.
proof fn lemma_sqrt_stop(n: int, d: int)
    requires
        0 <= n,
        1 <= d,
        d > n / d,
    ensures
        d * d > n,
{
    vstd::arithmetic::div_mod::lemma_fundamental_div_mod(n, d);
    vstd::arithmetic::div_mod::lemma_mod_division_less_than_divisor(n, d);
    let q = n / d;
    let m = n % d;
    assert(n < d * d) by (nonlinear_arith)
        requires
            n == d * q + m,
            0 <= m < d,
            q < d,
    ;
}

/// Whether `n` is a perfect square, decided exactly.
pub fn is_perfect_square(n: usize) -> (b: bool)
    ensures
        b == is_square(n as int),
{
    let r = int_sqrt(n);
    if r * r == n {
        proof {
            assert(0 <= r && (r as int) * (r as int) == n);
        }
        true
    } else {
        proof {
            assert forall|s: int| !(0 <= s && #[trigger] (s * s) == n) by {
                if 0 <= s && s * s == n {
                    assert(s <= r ==> s * s <= r * r) by (nonlinear_arith)
                        requires
                            0 <= s,
                    ;
                    assert(s >= r + 1 ==> s * s >= (r + 1) * (r + 1)) by (nonlinear_arith)
                        requires
                            0 <= r,
                    ;
                }
            }
        }
        false
    }
}

/// The integer square root of a perfect square multiplied by itself gives
/// the square back.
proof fn lemma_sqrt_of_square(n: int, r: int)
    requires
        is_square(n),
        0 <= r,
        r * r <= n < (r + 1) * (r + 1),
    ensures
        r * r == n,
{
    let s = choose|s: int| 0 <= s && #[trigger] (s * s) == n;
    assert(s <= r ==> s * s <= r * r) by (nonlinear_arith)
        requires 0 <= s;
    assert(s >= r + 1 ==> s * s >= (r + 1) * (r + 1)) by (nonlinear_arith)
        requires 0 <= r;
}

/// Entirely random sampling: every sample is drawn uniformly from the unit
/// square, with no structure to describe.  The draws themselves are made
/// by the renderer.
#[derive(Debug, Clone)]
pub struct Random {
    num_samples: usize,
}

impl Random {
    /// The number of samples in one set.
    pub closed spec fn num_samples_spec(self) -> usize {
        self.num_samples
    }

    pub fn new(num_samples: usize) -> (g: Self)
        ensures
            g.num_samples_spec() == num_samples,
    {
        Random { num_samples }
    }

    pub fn num_samples(&self) -> (r: usize)
        ensures
            r == self.num_samples_spec(),
    {
        self.num_samples
    }

    pub fn num_sets(&self) -> (r: usize)
        ensures
            r == NUM_SETS,
    {
        NUM_SETS
    }
}

/// Regular sampling: the unit square is divided into a `side × side` grid
/// of cells and one sample sits at the corner of each cell.
#[derive(Debug, Clone)]
pub struct Regular {
    num_samples: usize,
    n: usize,
}

impl Regular {
    /// The number of samples in one set.
    pub closed spec fn num_samples_spec(self) -> usize {
        self.num_samples
    }

    /// The side of the sample grid.
    pub closed spec fn side(self) -> usize {
        self.n
    }

    /// The grid side multiplied by itself is exactly the sample count.
    pub closed spec fn wf(self) -> bool {
        self.n * self.n == self.num_samples
    }

    /// Creates a new generator.  `num_samples` must be a square number.
    pub fn new(num_samples: usize) -> (g: Self)
        requires
            is_square(num_samples as int),
        ensures
            g.wf(),
            g.num_samples_spec() == num_samples,
            g.side() * g.side() == num_samples,
    {
        let n = int_sqrt(num_samples);
        proof {
            lemma_sqrt_of_square(num_samples as int, n as int);
        }
        Regular { num_samples, n }
    }

    pub fn num_samples(&self) -> (r: usize)
        ensures
            r == self.num_samples_spec(),
    {
        self.num_samples
    }

    /// There is only one regular arrangement, so only one set is made.
    pub fn num_sets(&self) -> (r: usize)
        ensures
            r == 1,
    {
        1
    }

    /// The grid cells of one set, in generation order: sample `k` sits in
    /// cell `(k / side, k % side)` of the grid.  The renderer divides by
    /// `side` to place the sample in the unit square.
    pub fn square_pattern(&self) -> (p: Vec<(usize, usize)>)
        requires
            self.wf(),
        ensures
            p@.len() == self.num_samples_spec(),
            forall|k: int|
                0 <= k < p@.len() ==> (#[trigger] p@[k]) == (((k / self.side() as int) as usize), ((k % self.side() as int) as usize)),
    {
        let n = self.n;
        let mut p: Vec<(usize, usize)> = Vec::new();
        let mut x: usize = 0;
        while x < n
            invariant
                x <= n,
                p@.len() == x * n,
                forall|k: int|
                    0 <= k < p@.len() ==> (#[trigger] p@[k]) == (((k / n as int) as usize), ((k
                        % n as int) as usize)),
            decreases n - x,
        {
            let mut y: usize = 0;
            while y < n
                invariant
                    x < n,
                    y <= n,
                    p@.len() == x * n + y,
                    forall|k: int|
                        0 <= k < p@.len() ==> (#[trigger] p@[k]) == (((k / n as int) as usize), ((k
                            % n as int) as usize)),
                decreases n - y,
            {
                proof {
                    let k = x * n + y;
                    vstd::arithmetic::div_mod::lemma_fundamental_div_mod_converse(
                        k as int,
                        n as int,
                        x as int,
                        y as int,
                    );
                }
                p.push((x, y));
                y = y + 1;
            }
            x = x + 1;
            proof {
                assert((x - 1) * n + n == x * n) by (nonlinear_arith);
            }
        }
        proof {
            assert(n * n == self.num_samples);
        }
        p
    }
}

/// Jittered sampling: one sample is placed uniformly at random inside each
/// cell of a `side × side` grid.  The cells are the regular pattern; the
/// jitter inside each cell is drawn by the renderer.
#[derive(Debug, Clone)]
pub struct Jittered(Regular);

impl Jittered {
    /// The number of samples in one set.
    pub closed spec fn num_samples_spec(self) -> usize {
        self.0.num_samples_spec()
    }

    /// The side of the sample grid.
    pub closed spec fn side(self) -> usize {
        self.0.side()
    }

    /// The grid side multiplied by itself is exactly the sample count.
    pub closed spec fn wf(self) -> bool {
        self.0.wf()
    }

    /// Creates a new generator.  `num_samples` must be a square number.
    pub fn new(num_samples: usize) -> (g: Self)
        requires
            is_square(num_samples as int),
        ensures
            g.wf(),
            g.num_samples_spec() == num_samples,
            g.side() * g.side() == num_samples,
    {
        Jittered(Regular::new(num_samples))
    }

    pub fn num_samples(&self) -> (r: usize)
        ensures
            r == self.num_samples_spec(),
    {
        self.0.num_samples()
    }

    pub fn num_sets(&self) -> (r: usize)
        ensures
            r == NUM_SETS,
    {
        NUM_SETS
    }

    /// The grid cell of each sample, exactly as in the regular pattern.
    pub fn square_pattern(&self) -> (p: Vec<(usize, usize)>)
        requires
            self.wf(),
        ensures
            p@.len() == self.num_samples_spec(),
            forall|k: int|
                0 <= k < p@.len() ==> (#[trigger] p@[k]) == (((k / self.side() as int) as usize), ((k % self.side() as int) as usize)),
    {
        self.0.square_pattern()
    }
}

/// N-rooks sampling: `num_samples` samples on a `num_samples × num_samples`
/// grid with exactly one sample in each row and each column, like
/// non-attacking rooks on a chessboard.
#[derive(Debug, Clone)]
pub struct NRooks {
    num_samples: usize,
}

impl NRooks {
    /// The number of samples in one set.
    pub closed spec fn num_samples_spec(self) -> usize {
        self.num_samples
    }

    pub fn new(num_samples: usize) -> (g: Self)
        ensures
            g.num_samples_spec() == num_samples,
    {
        NRooks { num_samples }
    }

    pub fn num_samples(&self) -> (r: usize)
        ensures
            r == self.num_samples_spec(),
    {
        self.num_samples
    }

    pub fn num_sets(&self) -> (r: usize)
        ensures
            r == NUM_SETS,
    {
        NUM_SETS
    }

    /// One rook arrangement: the row of sample `k` is `rows[k]` and its
    /// column is `cols[k]`.  Both are rearrangements of `0 .. num_samples`,
    /// so every row and every column holds exactly one sample.
    pub fn rook_pattern(&self) -> (p: (Vec<usize>, Vec<usize>))
        ensures
            is_index_perm(p.0@, self.num_samples_spec() as nat),
            is_index_perm(p.1@, self.num_samples_spec() as nat),
            forall|k: int|
                0 <= k < p.0@.len() ==> (#[trigger] p.0@[k]) < self.num_samples_spec(),
            forall|k: int|
                0 <= k < p.1@.len() ==> (#[trigger] p.1@[k]) < self.num_samples_spec(),
    {
        let mut rows = identity_vec(self.num_samples);
        let mut cols = identity_vec(self.num_samples);
        shuffle(&mut rows);
        shuffle(&mut cols);
        proof {
            lemma_index_perm_bounds(rows@, self.num_samples as nat);
            lemma_index_perm_bounds(cols@, self.num_samples as nat);
        }
        (rows, cols)
    }
}


/// Division and remainder of an index on an `n`-wide grid both land
/// below `n` when the index is below `n * n`.
proof fn lemma_grid_div(k: int, n: int)
    requires
        1 <= n,
        0 <= k < n * n,
    ensures
        0 <= k / n < n,
        0 <= k % n < n,
        k == n * (k / n) + k % n,
{
    vstd::arithmetic::div_mod::lemma_fundamental_div_mod(k, n);
    vstd::arithmetic::div_mod::lemma_mod_division_less_than_divisor(k, n);
    let q = k / n;
    let m = k % n;
    assert(0 <= q < n) by (nonlinear_arith)
        requires
            k == n * q + m,
            0 <= m < n,
            0 <= k < n * n,
            1 <= n,
    ;
}

/// The transposed grid sequence, whose entry at `k` is `(k % n) * n + k / n`,
/// rearranges `0 .. n * n`.
proof fn lemma_transpose_perm(s: Seq<usize>, n: int)
    requires
        0 <= n,
        n * n <= usize::MAX,
        s.len() == n * n,
        forall|k: int| 0 <= k < s.len() ==> ((#[trigger] s[k]) as int) == (k % n) * n + k / n,
    ensures
        is_index_perm(s, (n * n) as nat),
{
    if n == 0 {
        assert(s =~= index_seq(0));
    } else {
        let ns = n * n;
        assert forall|k: int| 0 <= k < ns implies ((#[trigger] s[k]) as int) < ns by {
            lemma_grid_div(k, n);
            assert((s[k] as int) < ns) by (nonlinear_arith)
                requires
                    (s[k] as int) == (k % n) * n + k / n,
                    0 <= k % n < n,
                    0 <= k / n < n,
                    ns == n * n,
            ;
        }
        assert(s.no_duplicates()) by {
            assert forall|i: int, j: int|
                0 <= i < s.len() && 0 <= j < s.len() && i != j implies s[i] != s[j] by {
                if s[i] == s[j] {
                    lemma_grid_div(i, n);
                    lemma_grid_div(j, n);
                    vstd::arithmetic::div_mod::lemma_fundamental_div_mod_converse(
                        s[i] as int,
                        n,
                        i % n,
                        i / n,
                    );
                    vstd::arithmetic::div_mod::lemma_fundamental_div_mod_converse(
                        s[j] as int,
                        n,
                        j % n,
                        j / n,
                    );
                }
            }
        }
        assert forall|v: int| 0 <= v < ns implies s.contains(#[trigger] (v as usize)) by {
            lemma_grid_div(v, n);
            let k = (v % n) * n + v / n;
            assert(0 <= k < ns) by (nonlinear_arith)
                requires
                    k == (v % n) * n + v / n,
                    0 <= v % n < n,
                    0 <= v / n < n,
                    ns == n * n,
            ;
            vstd::arithmetic::div_mod::lemma_fundamental_div_mod_converse(k, n, v % n, v / n);
            assert((s[k] as int) == (k % n) * n + k / n);
            assert((s[k] as int) == (v / n) * n + v % n);
            assert(v == n * (v / n) + v % n);
            assert(s[k] == v as usize);
        }
        lemma_index_perm_from_pointwise(s, ns as nat);
    }
}

/// Multi-jittered sampling: a combination of n-rooks and jittered
/// sampling.  The unit square carries a coarse `side × side` grid of
/// cells and a fine `num_samples`-wide grid of subcells; each sample gets
/// its own coarse cell, and across the whole set the samples occupy every
/// fine row and every fine column exactly once.
#[derive(Debug, Clone)]
pub struct MultiJittered {
    num_samples: usize,
    n: usize,
}

impl MultiJittered {
    /// The number of samples in one set.
    pub closed spec fn num_samples_spec(self) -> usize {
        self.num_samples
    }

    /// The side of the coarse sample grid.
    pub closed spec fn side(self) -> usize {
        self.n
    }

    /// The coarse grid side multiplied by itself is exactly the sample
    /// count.
    pub closed spec fn wf(self) -> bool {
        self.n * self.n == self.num_samples
    }

    /// Creates a new generator.  `num_samples` must be a square number.
    pub fn new(num_samples: usize) -> (g: Self)
        requires
            is_square(num_samples as int),
        ensures
            g.wf(),
            g.num_samples_spec() == num_samples,
            g.side() * g.side() == num_samples,
    {
        let n = int_sqrt(num_samples);
        proof {
            lemma_sqrt_of_square(num_samples as int, n as int);
        }
        MultiJittered { num_samples, n }
    }

    pub fn num_samples(&self) -> (r: usize)
        ensures
            r == self.num_samples_spec(),
    {
        self.num_samples
    }

    pub fn num_sets(&self) -> (r: usize)
        ensures
            r == NUM_SETS,
    {
        NUM_SETS
    }

    /// The fine-grid subcells of one set: sample `k` takes x-subcell
    /// `xs[k]` and y-subcell `ys[k]`.  Both are rearrangements of
    /// `0 .. num_samples` — the rook condition on the fine grid — and the
    /// subcells stay inside their coarse cell: `xs[k] / side == k / side`
    /// and `ys[k] / side == k % side`, so coarse cell `(i, j)` holds
    /// exactly the sample `i * side + j`.  The renderer jitters each
    /// sample inside its subcell and then shuffles the set's order.
    pub fn subcell_pattern(&self) -> (p: (Vec<usize>, Vec<usize>))
        requires
            self.wf(),
        ensures
            is_index_perm(p.0@, self.num_samples_spec() as nat),
            is_index_perm(p.1@, self.num_samples_spec() as nat),
            forall|k: int|
                0 <= k < p.0@.len() ==> ((#[trigger] p.0@[k]) as int) / (self.side() as int) == k
                    / (self.side() as int),
            forall|k: int|
                0 <= k < p.1@.len() ==> ((#[trigger] p.1@[k]) as int) / (self.side() as int) == k
                    % (self.side() as int),
    {
        let n = self.n;
        let ns = self.num_samples;
        let mut xs: Vec<usize> = Vec::new();
        let mut ys: Vec<usize> = Vec::new();
        let mut i: usize = 0;
        while i < n
            invariant
                i <= n,
                n * n == ns,
                xs@.len() == i * n,
                ys@.len() == i * n,
                forall|k: int| 0 <= k < xs@.len() ==> (#[trigger] xs@[k]) == k as usize,
                forall|k: int|
                    0 <= k < ys@.len() ==> ((#[trigger] ys@[k]) as int) == (k % n as int) * n + k
                        / n as int,
            decreases n - i,
        {
            let mut j: usize = 0;
            while j < n
                invariant
                    i < n,
                    j <= n,
                    n * n == ns,
                    xs@.len() == i * n + j,
                    ys@.len() == i * n + j,
                    forall|k: int| 0 <= k < xs@.len() ==> (#[trigger] xs@[k]) == k as usize,
                    forall|k: int|
                        0 <= k < ys@.len() ==> ((#[trigger] ys@[k]) as int) == (k % n as int) * n
                            + k / n as int,
                decreases n - j,
            {
                proof {
                    assert(i * n + j < n * n && j * n + i < n * n) by (nonlinear_arith)
                        requires
                            0 <= i < n,
                            0 <= j < n,
                    ;
                    vstd::arithmetic::div_mod::lemma_fundamental_div_mod_converse(
                        (i * n + j) as int,
                        n as int,
                        i as int,
                        j as int,
                    );
                }
                let x = i * n + j;
                let y = j * n + i;
                xs.push(x);
                ys.push(y);
                j = j + 1;
            }
            i = i + 1;
            proof {
                assert((i - 1) * n + n == i * n) by (nonlinear_arith);
            }
        }
        proof {
            assert(xs@.len() == n * n);
            assert(xs@ =~= index_seq(ns as nat));
            lemma_transpose_perm(ys@, n as int);
        }
        // shuffle the x-subcells within each coarse row
        let mut row: usize = 0;
        while row < n
            invariant
                row <= n,
                n * n == ns,
                xs@.len() == ns,
                xs@.to_multiset() == index_seq(ns as nat).to_multiset(),
                forall|k: int|
                    0 <= k < xs@.len() ==> ((#[trigger] xs@[k]) as int) / (n as int) == k / (
                    n as int),
            decreases n - row,
        {
            let mut col: usize = 0;
            while col + 1 < n
                invariant
                    row < n,
                    col < n,
                    n * n == ns,
                    xs@.len() == ns,
                    xs@.to_multiset() == index_seq(ns as nat).to_multiset(),
                    forall|k: int|
                        0 <= k < xs@.len() ==> ((#[trigger] xs@[k]) as int) / (n as int) == k / (
                        n as int),
                decreases n - col,
            {
                let r = random_index(col, n - 1);
                proof {
                    assert(row * n + col < n * n && row * n + r < n * n) by (nonlinear_arith)
                        requires
                            0 <= row < n,
                            0 <= col < n,
                            0 <= r < n,
                    ;
                }
                let a = row * n + col;
                let b = row * n + r;
                let ghost prev = xs@;
                swap_at(&mut xs, a, b);
                proof {
                    vstd::arithmetic::div_mod::lemma_fundamental_div_mod_converse(
                        a as int,
                        n as int,
                        row as int,
                        col as int,
                    );
                    vstd::arithmetic::div_mod::lemma_fundamental_div_mod_converse(
                        b as int,
                        n as int,
                        row as int,
                        r as int,
                    );
                    assert forall|k: int|
                        0 <= k < xs@.len() implies ((#[trigger] xs@[k]) as int) / (n as int) == k
                        / (n as int) by {
                        if k == a {
                            assert(xs@[k] == prev[b as int]);
                        } else if k == b {
                            assert(xs@[k] == prev[a as int]);
                        } else {
                            assert(xs@[k] == prev[k]);
                        }
                    }
                }
                col = col + 1;
            }
            row = row + 1;
        }
        proof {
            assert forall|k: int|
                0 <= k < ys@.len() implies ((#[trigger] ys@[k]) as int) / (n as int) == k % (
            n as int) by {
                lemma_grid_div(k, n as int);
                vstd::arithmetic::div_mod::lemma_fundamental_div_mod_converse(
                    ys@[k] as int,
                    n as int,
                    k % (n as int),
                    k / (n as int),
                );
            }
        }
        // shuffle the y-subcells within each coarse column
        let mut col: usize = 0;
        while col < n
            invariant
                col <= n,
                n * n == ns,
                ys@.len() == ns,
                ys@.to_multiset() == index_seq(ns as nat).to_multiset(),
                forall|k: int|
                    0 <= k < ys@.len() ==> ((#[trigger] ys@[k]) as int) / (n as int) == k % (
                    n as int),
            decreases n - col,
        {
            let mut row2: usize = 0;
            while row2 + 1 < n
                invariant
                    col < n,
                    row2 < n,
                    n * n == ns,
                    ys@.len() == ns,
                    ys@.to_multiset() == index_seq(ns as nat).to_multiset(),
                    forall|k: int|
                        0 <= k < ys@.len() ==> ((#[trigger] ys@[k]) as int) / (n as int) == k % (
                        n as int),
                decreases n - row2,
            {
                let r = random_index(row2, n - 1);
                proof {
                    assert(row2 * n + col < n * n && r * n + col < n * n) by (nonlinear_arith)
                        requires
                            0 <= row2 < n,
                            0 <= col < n,
                            0 <= r < n,
                    ;
                }
                let a = row2 * n + col;
                let b = r * n + col;
                let ghost prev = ys@;
                swap_at(&mut ys, a, b);
                proof {
                    vstd::arithmetic::div_mod::lemma_fundamental_div_mod_converse(
                        a as int,
                        n as int,
                        row2 as int,
                        col as int,
                    );
                    vstd::arithmetic::div_mod::lemma_fundamental_div_mod_converse(
                        b as int,
                        n as int,
                        r as int,
                        col as int,
                    );
                    assert forall|k: int|
                        0 <= k < ys@.len() implies ((#[trigger] ys@[k]) as int) / (n as int) == k
                        % (n as int) by {
                        if k == a {
                            assert(ys@[k] == prev[b as int]);
                        } else if k == b {
                            assert(ys@[k] == prev[a as int]);
                        } else {
                            assert(ys@[k] == prev[k]);
                        }
                    }
                }
                row2 = row2 + 1;
            }
            col = col + 1;
        }
        (xs, ys)
    }
}

/// The denominator of the dyadic fraction behind the Hammersley sequence:
/// two to the number of binary digits of `j`.
pub open spec fn phi_den(j: nat) -> nat
    decreases j,
{
    if j == 0 {
        1
    } else {
        2 * phi_den((j / 2) as nat)
    }
}

/// The numerator of the dyadic fraction behind the Hammersley sequence:
/// bit `t` of `j`, complemented, contributes `1 / 2^(t + 1)` to the
/// sample, so the numerator over `phi_den(j)` collects the complemented
/// bits of `j` in reverse order.
pub open spec fn phi_num(j: nat) -> nat
    decreases j,
{
    if j == 0 {
        0
    } else {
        (if j % 2 == 0 {
            phi_den((j / 2) as nat)
        } else {
            0
        }) + phi_num((j / 2) as nat)
    }
}

/// The fraction is a proper one, and its denominator grows at most
/// linearly with `j`.
pub proof fn lemma_phi_bounds(j: nat)
    ensures
        phi_num(j) < phi_den(j),
        1 <= phi_den(j),
        j >= 1 ==> phi_den(j) <= 2 * j,
    decreases j,
{
    if j > 0 {
        lemma_phi_bounds((j / 2) as nat);
    }
}

/// The dyadic fraction of the Hammersley sequence at index `j`, as an
/// exact numerator and denominator pair.  The renderer divides the two to
/// obtain the sample coordinate in `[0, 1)`.
pub fn radical_inverse(j: u64) -> (r: (u64, u64))
    requires
        j < 0x8000_0000_0000_0000,
    ensures
        r.0 == phi_num(j as nat),
        r.1 == phi_den(j as nat),
        r.0 < r.1,
    decreases j,
{
    if j == 0 {
        (0, 1)
    } else {
        let half = radical_inverse(j / 2);
        proof {
            lemma_phi_bounds(j as nat);
            lemma_phi_bounds((j / 2) as nat);
        }
        let num = if j % 2 == 0 {
            half.1 + half.0
        } else {
            half.0
        };
        (num, 2 * half.1)
    }
}

/// Hammersley sampling: a deterministic low-discrepancy pattern.  Sample
/// `k` of a set of `n` lies at `(k / n, phi(k))`, where `phi(k)` is the
/// dyadic fraction built from the binary digits of `k`.
#[derive(Debug, Clone)]
pub struct Hammersley {
    num_samples: usize,
}

impl Hammersley {
    /// The number of samples in one set.
    pub closed spec fn num_samples_spec(self) -> usize {
        self.num_samples
    }

    pub fn new(num_samples: usize) -> (g: Self)
        ensures
            g.num_samples_spec() == num_samples,
    {
        Hammersley { num_samples }
    }

    pub fn num_samples(&self) -> (r: usize)
        ensures
            r == self.num_samples_spec(),
    {
        self.num_samples
    }

    /// The pattern is deterministic, so only one set is made.
    pub fn num_sets(&self) -> (r: usize)
        ensures
            r == 1,
    {
        1
    }

    /// The dyadic fractions of one set: entry `k` is the numerator and
    /// denominator of `phi(k)`, the second coordinate of sample `k`.  The
    /// first coordinate is `k` divided by the sample count.
    pub fn radical_pattern(&self) -> (p: Vec<(u64, u64)>)
        requires
            self.num_samples_spec() < 0x8000_0000_0000_0000,
        ensures
            p@.len() == self.num_samples_spec(),
            forall|k: int|
                0 <= k < p@.len() ==> (#[trigger] p@[k]).0 == phi_num(k as nat) && p@[k].1
                    == phi_den(k as nat),
    {
        let mut p: Vec<(u64, u64)> = Vec::new();
        let mut i: usize = 0;
        while i < self.num_samples
            invariant
                i <= self.num_samples,
                self.num_samples < 0x8000_0000_0000_0000,
                p@.len() == i,
                forall|k: int|
                    0 <= k < p@.len() ==> (#[trigger] p@[k]).0 == phi_num(k as nat) && p@[k].1
                        == phi_den(k as nat),
            decreases self.num_samples - i,
        {
            let r = radical_inverse(i as u64);
            p.push(r);
            i = i + 1;
        }
        p
    }
}

/// A container of sample sets.
///
/// `get_next` hands out one whole precomputed set per call and never runs
/// out: the sets are drawn in a rotating order, and exactly when a full
/// rotation through them has been used up the drawing order is
/// reshuffled and a new rotation begins.
#[derive(Debug, Clone)]
pub struct Samples<T> {
    samples: Vec<Vec<T>>,
    num_samples: usize,
    count: usize,
    indices: Vec<usize>,
}

impl<T> Samples<T> {
    /// The number of samples in each set.
    pub closed spec fn num_samples_spec(self) -> usize {
        self.num_samples
    }

    /// The stored sample sets.
    pub closed spec fn sets(self) -> Seq<Seq<T>> {
        self.samples@.map_values(|v: Vec<T>| v@)
    }

    /// The drawing order: the rotation visits the stored sets as this
    /// rearrangement of their indices lists them.
    pub closed spec fn order(self) -> Seq<usize> {
        self.indices@
    }

    /// The position in the drawing order that the previous call drew.
    pub closed spec fn cursor(self) -> int {
        self.count as int
    }

    /// At least one set, every set of the advertised length, a drawing
    /// order that rearranges the set indices, and a cursor within it.
    pub closed spec fn wf(self) -> bool {
        &&& self.samples@.len() > 0
        &&& forall|i: int|
            0 <= i < self.samples@.len() ==> (#[trigger] self.samples@[i])@.len()
                == self.num_samples
        &&& is_index_perm(self.indices@, self.samples@.len() as nat)
        &&& self.count < self.indices@.len()
    }

    /// Packs precomputed sets into a container.  A generator's sets all
    /// have that generator's sample count as their length.
    pub fn new(num_samples: usize, samples: Vec<Vec<T>>) -> (s: Self)
        requires
            samples@.len() > 0,
            forall|i: int| 0 <= i < samples@.len() ==> (#[trigger] samples@[i])@.len() == num_samples,
        ensures
            s.wf(),
            s.num_samples_spec() == num_samples,
            s.sets() == samples@.map_values(|v: Vec<T>| v@),
            s.order() == index_seq(samples@.len() as nat),
            s.cursor() == 0,
    {
        let indices = identity_vec(samples.len());
        Samples { samples, num_samples, count: 0, indices }
    }

    /// Returns the number of samples in a given sample set.
    ///
    /// Equivalent to the length of what `get_next` hands out, without
    /// drawing a set.
    pub fn num_samples(&self) -> (r: usize)
        ensures
            r == self.num_samples_spec(),
    {
        self.num_samples
    }

    /// Get the next sample set.  This never runs out: each call first
    /// advances the cursor, reshuffling the drawing order and restarting
    /// exactly when the rotation is used up, and then returns the stored
    /// set that the order lists at the cursor.  With a single stored set
    /// nothing moves and that set is returned every time.
    pub fn get_next(&mut self) -> (set: &Vec<T>)
        requires
            old(self).wf(),
        ensures
            final(self).wf(),
            final(self).sets() == old(self).sets(),
            final(self).num_samples_spec() == old(self).num_samples_spec(),
            set@.len() == old(self).num_samples_spec(),
            set@ == final(self).sets()[final(self).order()[final(self).cursor()] as int],
            old(self).sets().len() == 1 ==> *final(self) == *old(self) && set@ == old(self).sets()[0],
            old(self).sets().len() > 1 && old(self).cursor() + 1 < old(self).order().len()
                ==> final(self).order() == old(self).order() && final(self).cursor() == old(
                self,
            ).cursor() + 1,
            old(self).sets().len() > 1 && old(self).cursor() + 1 == old(self).order().len()
                ==> final(self).cursor() == 0 && final(self).order().to_multiset() == old(
                self,
            ).order().to_multiset(),
    {
        // with a single set there is no order to rotate or reshuffle
        if self.indices.len() > 1 {
            self.count = self.count + 1;
            if self.count == self.indices.len() {
                self.count = 0;
                shuffle(&mut self.indices);
            }
        }
        proof {
            lemma_index_perm_bounds(self.indices@, self.samples@.len() as nat);
        }
        let idx = self.indices[self.count];
        proof {
            assert(self.sets()[idx as int] == self.samples@[idx as int]@);
        }
        &self.samples[idx]
    }
}

} // verus!
