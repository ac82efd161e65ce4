//! The seed-keyed substitution matrix.
//!
//! From a 64-bit seed, a pseudo-random draw sequence produces a permutation
//! of the digits 0..=8, reshaped into a 3 by 3 tile. The tile is expanded
//! column by column to 3 by 256 (each new column is a per-column shuffle of
//! the column three places before it), then the 3-row strip is repeated
//! cyclically until 258 rows exist. Consumers only index rows and columns
//! 0..=255; the two extra rows are construction padding.

use vstd::prelude::*;
use vstd::arithmetic::div_mod::{
    lemma_add_mod_noop, lemma_mod_bound, lemma_mod_sub_multiples_vanish, lemma_small_mod,
};
use vstd::seq_lib::lemma_seq_contains_after_push;
use vstd::set_lib::{lemma_int_range, lemma_len_subset, set_int_range};
use crate::rng::{seeded_byte, seeded_triple, DigitRng};

verus! {

/// Cap on single-byte draws while collecting the digit permutation. The
/// expected number of draws is a few dozen; if the cap is ever reached the
/// construction falls back to the identity permutation, so that the matrix
/// is a total function of the seed.
pub const MAX_PERM_DRAWS: usize = 65536;

/// The view of a sequence of rows.
pub open spec fn rows_view(m: Seq<Vec<u8>>) -> Seq<Seq<u8>> {
    m.map_values(|v: Vec<u8>| v@)
}

/// Residues (mod 9) of the first `n` single-byte draws, first occurrence of
/// each residue only, in draw order.
pub open spec fn perm_prefix(seed: u64, n: nat) -> Seq<u8>
    decreases n,
{
    if n == 0 {
        Seq::empty()
    } else {
        let p = perm_prefix(seed, (n - 1) as nat);
        let d = (seeded_byte(seed, (n - 1) as nat) % 9) as u8;
        if p.contains(d) {
            p
        } else {
            p.push(d)
        }
    }
}

/// All nine digits have occurred within the first `n` draws.
pub open spec fn perm_done(seed: u64, n: nat) -> bool {
    perm_prefix(seed, n).len() == 9
}

/// The drawing stage stops after exactly `n` draws: either `n` is the first
/// draw count at which the permutation is complete, or the cap was reached
/// without completing it.
pub open spec fn stops_at(seed: u64, n: nat) -> bool {
    ||| (n <= MAX_PERM_DRAWS && perm_done(seed, n) && forall|m: nat|
        m < n ==> !perm_done(seed, m))
    ||| (n == MAX_PERM_DRAWS && forall|m: nat| m <= MAX_PERM_DRAWS ==> !perm_done(seed, m))
}

/// The nine-digit permutation the drawing stage yields after `n` draws.
pub open spec fn stage_perm(seed: u64, n: nat) -> Seq<u8> {
    if perm_done(seed, n) {
        perm_prefix(seed, n)
    } else {
        seq![0u8, 1u8, 2u8, 3u8, 4u8, 5u8, 6u8, 7u8, 8u8]
    }
}

/// The 3 by 3 tile: the permutation reshaped row-major.
pub open spec fn tile_of(perm: Seq<u8>) -> Seq<Seq<u8>> {
    Seq::new(3, |r: int| Seq::new(3, |c: int| perm[3 * r + c]))
}

/// Row order after stably sorting the pairs `(a, 0), (b, 1), (c, 2)` by
/// their first component.
pub open spec fn sort3(a: u8, b: u8, c: u8) -> (int, int, int) {
    if a <= b && a <= c {
        if b <= c {
            (0int, 1int, 2int)
        } else {
            (0int, 2int, 1int)
        }
    } else if b < a && b <= c {
        if a <= c {
            (1int, 0int, 2int)
        } else {
            (1int, 2int, 0int)
        }
    } else {
        if a <= b {
            (2int, 0int, 1int)
        } else {
            (2int, 1int, 0int)
        }
    }
}

/// The three values of column `i` of the expanded 3-row strip. Columns
/// 0..=2 are the tile's; each later column permutes the rows of the column
/// three places before it according to a three-byte draw.
pub open spec fn strip_col(seed: u64, singles: nat, tile: Seq<Seq<u8>>, i: nat) -> Seq<u8>
    decreases i,
{
    if i < 3 {
        seq![tile[0][i as int], tile[1][i as int], tile[2][i as int]]
    } else {
        let prev = strip_col(seed, singles, tile, (i - 3) as nat);
        let t = seeded_triple(seed, singles, (i - 3) as nat);
        let p = sort3(t.0, t.1, t.2);
        seq![prev[p.0], prev[p.1], prev[p.2]]
    }
}

/// The full 258 by 256 matrix determined by the seed when the drawing stage
/// stopped after `n` draws: row `r` is row `r % 3` of the strip.
pub open spec fn built_matrix(seed: u64, n: nat) -> Seq<Seq<u8>> {
    Seq::new(
        258,
        |r: int|
            Seq::new(
                256,
                |c: int| strip_col(seed, n, tile_of(stage_perm(seed, n)), c as nat)[r % 3],
            ),
    )
}

/// `m` is the matrix the construction derives from `seed`.
pub open spec fn is_built_from(seed: u64, m: Seq<Seq<u8>>) -> bool {
    exists|n: nat| #[trigger] stops_at(seed, n) && m == built_matrix(seed, n)
}

/// The substitution matrix: 258 rows of 256 digits, all in 0..=8.
#[derive(Debug)]
pub struct RandMatrix {
    pub inner_matrix: Vec<Vec<u8>>,
    pub height: usize,
    pub width: usize,
}

impl View for RandMatrix {
    type V = Seq<Seq<u8>>;

    closed spec fn view(&self) -> Seq<Seq<u8>> {
        rows_view(self.inner_matrix@)
    }
}

/// Dimensions and digit range of a matrix view.
pub open spec fn matrix_wf(m: Seq<Seq<u8>>) -> bool {
    &&& m.len() == 258
    &&& forall|i: int| 0 <= i < 258 ==> (#[trigger] m[i]).len() == 256
    &&& forall|i: int, j: int| 0 <= i < 258 && 0 <= j < 256 ==> #[trigger] m[i][j] < 9
}

impl RandMatrix {
    pub open spec fn wf(self) -> bool {
        matrix_wf(self@)
    }
}

/// Every entry of `perm_prefix` is a digit below 9.
proof fn lemma_perm_prefix_entries(seed: u64, n: nat)
    ensures
        forall|i: int|
            0 <= i < perm_prefix(seed, n).len() ==> #[trigger] perm_prefix(seed, n)[i] < 9,
    decreases n,
{
    if n > 0 {
        lemma_perm_prefix_entries(seed, (n - 1) as nat);
        lemma_mod_bound(seeded_byte(seed, (n - 1) as nat) as int, 9);
        let p = perm_prefix(seed, (n - 1) as nat);
        let d = (seeded_byte(seed, (n - 1) as nat) % 9) as u8;
        if !p.contains(d) {
            assert(perm_prefix(seed, n) == p.push(d));
            assert forall|i: int| 0 <= i < p.push(d).len() implies #[trigger] p.push(d)[i]
                < 9 by {
                if i < p.len() {
                    assert(p[i] < 9);
                }
            }
        }
    }
}

/// The stage permutation always has nine entries, all digits below 9.
proof fn lemma_stage_perm_props(seed: u64, n: nat)
    requires
        stops_at(seed, n),
    ensures
        stage_perm(seed, n).len() == 9,
        forall|i: int| 0 <= i < 9 ==> #[trigger] stage_perm(seed, n)[i] < 9,
{
    lemma_perm_prefix_entries(seed, n);
}

/// Strip columns keep three entries, all digits below 9.
proof fn lemma_strip_col_props(seed: u64, singles: nat, tile: Seq<Seq<u8>>, i: nat)
    requires
        tile.len() == 3,
        forall|r: int| 0 <= r < 3 ==> (#[trigger] tile[r]).len() == 3,
        forall|r: int, c: int| 0 <= r < 3 && 0 <= c < 3 ==> #[trigger] tile[r][c] < 9,
    ensures
        strip_col(seed, singles, tile, i).len() == 3,
        forall|r: int| 0 <= r < 3 ==> #[trigger] strip_col(seed, singles, tile, i)[r] < 9,
    decreases i,
{
    if i >= 3 {
        lemma_strip_col_props(seed, singles, tile, (i - 3) as nat);
    }
}

impl RandMatrix {
    /// Reshape a flat vector row-major into a square matrix.
    pub fn matrix_reshape(old_matrix: Vec<u8>, height: usize, width: usize) -> (m: Vec<Vec<u8>>)
        requires
            height == width,
            old_matrix@.len() == height * width,
        ensures
            m@.len() == height,
            forall|r: int| 0 <= r < height ==> (#[trigger] m@[r])@.len() == width,
            forall|r: int, c: int|
                0 <= r < height && 0 <= c < width ==> #[trigger] m@[r]@[c] == old_matrix@[r * (
                height as int) + c],
    {
        let total: usize = old_matrix.len();
        let mut m: Vec<Vec<u8>> = Vec::new();
        let mut row: usize = 0;
        while row < height
            invariant
                height == width,
                total == height * width,
                old_matrix@.len() == height * width,
                row <= height,
                m@.len() == row,
                forall|r: int| 0 <= r < row ==> (#[trigger] m@[r])@.len() == width,
                forall|r: int, c: int|
                    0 <= r < row && 0 <= c < width ==> #[trigger] m@[r]@[c] == old_matrix@[r * (
                    height as int) + c],
            decreases height - row,
        {
            let mut row_vector: Vec<u8> = Vec::new();
            let mut col: usize = 0;
            while col < width
                invariant
                    height == width,
                    total == height * width,
                    old_matrix@.len() == height * width,
                    row < height,
                    col <= width,
                    row_vector@.len() == col,
                    forall|c: int|
                        0 <= c < col ==> #[trigger] row_vector@[c] == old_matrix@[row * (
                        height as int) + c],
                decreases width - col,
            {
                proof {
                    assert(row * height + col < height * width) by (nonlinear_arith)
                        requires
                            row < height,
                            col < width,
                            height == width,
                    ;
                }
                row_vector.push(old_matrix[row * height + col]);
                col = col + 1;
            }
            m.push(row_vector);
            row = row + 1;
        }
        m
    }

    /// Draw single bytes until every digit 0..=8 has occurred (or the cap is
    /// reached), and reshape the nine first occurrences into the 3 by 3 tile.
    fn get_origin_matrix(rng: &mut DigitRng) -> (m: Vec<Vec<u8>>)
        requires
            old(rng).singles@ == 0,
            old(rng).triples@ == 0,
        ensures
            final(rng).seed@ == old(rng).seed@,
            final(rng).triples@ == 0,
            stops_at(old(rng).seed@, final(rng).singles@),
            rows_view(m@) == tile_of(stage_perm(old(rng).seed@, final(rng).singles@)),
    {
        let ghost seed = rng.seed@;
        let mut flat: Vec<u8> = Vec::new();
        let mut num_exist: Vec<bool> = Vec::new();
        let mut d0: usize = 0;
        while d0 < 9
            invariant
                num_exist@.len() == d0,
                d0 <= 9,
                forall|i: int| 0 <= i < d0 ==> !(#[trigger] num_exist@[i]),
            decreases 9 - d0,
        {
            num_exist.push(false);
            d0 = d0 + 1;
        }
        let mut cnt: usize = 0;
        let mut draws: usize = 0;
        while cnt < 9 && draws < MAX_PERM_DRAWS
            invariant
                rng.seed@ == seed,
                rng.triples@ == 0,
                rng.singles@ == draws as nat,
                draws <= MAX_PERM_DRAWS,
                flat@ == perm_prefix(seed, draws as nat),
                cnt == flat@.len(),
                cnt <= 9,
                forall|mm: nat| mm < draws as nat ==> !perm_done(seed, mm),
                num_exist@.len() == 9,
                forall|dd: int|
                    0 <= dd < 9 ==> (#[trigger] num_exist@[dd] <==> perm_prefix(
                        seed,
                        draws as nat,
                    ).contains(dd as u8)),
            decreases MAX_PERM_DRAWS - draws,
        {
            proof {
                assert(!perm_done(seed, draws as nat));
            }
            let b = rng.next_byte();
            let d = (b % 9) as usize;
            let ghost p = perm_prefix(seed, draws as nat);
            let ghost x = (b % 9) as u8;
            proof {
                assert(perm_prefix(seed, (draws + 1) as nat) == if p.contains(x) {
                    p
                } else {
                    p.push(x)
                });
            }
            if !num_exist[d] {
                cnt = cnt + 1;
                flat.push(b % 9);
                num_exist[d] = true;
                proof {
                    assert forall|dd: int| 0 <= dd < 9 implies (#[trigger] num_exist@[dd]
                        <==> p.push(x).contains(dd as u8)) by {
                        lemma_seq_contains_after_push(p, x, dd as u8);
                    }
                }
            } else {
                proof {
                    assert(p.contains(x));
                }
            }
            draws = draws + 1;
        }
        let ghost n = draws as nat;
        if cnt < 9 {
            proof {
                assert(perm_prefix(seed, MAX_PERM_DRAWS as nat).len() < 9);
                assert(stops_at(seed, n));
            }
            flat = Vec::new();
            let mut d1: u8 = 0;
            while d1 < 9
                invariant
                    flat@.len() == d1 as int,
                    d1 <= 9,
                    forall|i: int| 0 <= i < d1 ==> #[trigger] flat@[i] == i as u8,
                decreases 9 - d1,
            {
                flat.push(d1);
                d1 = d1 + 1;
            }
            proof {
                assert(flat@ =~= stage_perm(seed, n));
            }
        } else {
            proof {
                assert(perm_done(seed, n));
                assert(stops_at(seed, n));
            }
        }
        proof {
            assert(flat@ == stage_perm(seed, n));
            assert(flat@.len() == 9);
        }
        let m = Self::matrix_reshape(flat, 3, 3);
        proof {
            assert(rows_view(m@) =~~= tile_of(stage_perm(seed, n)));
        }
        m
    }
}

impl RandMatrix {
    /// Row order of the stable three-way sort, as indices into rows 0..=2.
    fn order3(a: u8, b: u8, c: u8) -> (o: (usize, usize, usize))
        ensures
            (o.0 as int, o.1 as int, o.2 as int) == sort3(a, b, c),
            o.0 < 3 && o.1 < 3 && o.2 < 3,
    {
        if a <= b && a <= c {
            if b <= c {
                (0, 1, 2)
            } else {
                (0, 2, 1)
            }
        } else if b < a && b <= c {
            if a <= c {
                (1, 0, 2)
            } else {
                (1, 2, 0)
            }
        } else {
            if a <= b {
                (2, 0, 1)
            } else {
                (2, 1, 0)
            }
        }
    }

    /// Extend the three tile rows to `width` columns: each new column is the
    /// column three places before it with its rows shuffled by a three-byte
    /// draw.
    pub fn row_change(rng: &mut DigitRng, matrix: &mut Vec<Vec<u8>>, width: usize)
        requires
            old(rng).triples@ == 0,
            old(matrix)@.len() == 3,
            forall|r: int| 0 <= r < 3 ==> (#[trigger] old(matrix)@[r])@.len() == 3,
            width >= 3,
        ensures
            final(rng).seed@ == old(rng).seed@,
            final(rng).singles@ == old(rng).singles@,
            final(matrix)@.len() == 3,
            forall|r: int| 0 <= r < 3 ==> (#[trigger] final(matrix)@[r])@.len() == width,
            forall|r: int, c: int|
                0 <= r < 3 && 0 <= c < width ==> #[trigger] final(matrix)@[r]@[c] == strip_col(
                    old(rng).seed@,
                    old(rng).singles@,
                    rows_view(old(matrix)@),
                    c as nat,
                )[r],
    {
        let ghost seed = rng.seed@;
        let ghost n = rng.singles@;
        let ghost tile = rows_view(old(matrix)@);
        let mut r2 = matrix.pop().unwrap();
        let mut r1 = matrix.pop().unwrap();
        let mut r0 = matrix.pop().unwrap();
        proof {
            assert(r0@ == tile[0] && r1@ == tile[1] && r2@ == tile[2]);
        }
        let mut i: usize = 3;
        while i < width
            invariant
                rng.seed@ == seed,
                rng.singles@ == n,
                rng.triples@ == i - 3,
                3 <= i <= width,
                tile.len() == 3,
                r0@.len() == i && r1@.len() == i && r2@.len() == i,
                forall|c: int|
                    0 <= c < i ==> #[trigger] r0@[c] == strip_col(seed, n, tile, c as nat)[0],
                forall|c: int|
                    0 <= c < i ==> #[trigger] r1@[c] == strip_col(seed, n, tile, c as nat)[1],
                forall|c: int|
                    0 <= c < i ==> #[trigger] r2@[c] == strip_col(seed, n, tile, c as nat)[2],
            decreases width - i,
        {
            let t = rng.next_triple();
            let o = Self::order3(t.0, t.1, t.2);
            let v0 = if o.0 == 0 {
                r0[i - 3]
            } else if o.0 == 1 {
                r1[i - 3]
            } else {
                r2[i - 3]
            };
            let v1 = if o.1 == 0 {
                r0[i - 3]
            } else if o.1 == 1 {
                r1[i - 3]
            } else {
                r2[i - 3]
            };
            let v2 = if o.2 == 0 {
                r0[i - 3]
            } else if o.2 == 1 {
                r1[i - 3]
            } else {
                r2[i - 3]
            };
            proof {
                let prev = strip_col(seed, n, tile, (i - 3) as nat);
                let p = sort3(t.0, t.1, t.2);
                assert(strip_col(seed, n, tile, i as nat) == seq![prev[p.0], prev[p.1], prev[p.2]]);
                assert(v0 == prev[p.0] && v1 == prev[p.1] && v2 == prev[p.2]);
            }
            r0.push(v0);
            r1.push(v1);
            r2.push(v2);
            i = i + 1;
        }
        matrix.push(r0);
        matrix.push(r1);
        matrix.push(r2);
    }

    /// A fresh copy of a row.
    fn copy_row(v: &Vec<u8>) -> (r: Vec<u8>)
        ensures
            r@ == v@,
    {
        let mut r: Vec<u8> = Vec::new();
        let mut i: usize = 0;
        while i < v.len()
            invariant
                i <= v@.len(),
                r@.len() == i,
                forall|j: int| 0 <= j < i ==> #[trigger] r@[j] == v@[j],
            decreases v@.len() - i,
        {
            r.push(v[i]);
            i = i + 1;
        }
        proof {
            assert(r@ =~= v@);
        }
        r
    }

    /// Repeat the three strip rows cyclically until `height` rows exist.
    pub fn col_change(matrix: &mut Vec<Vec<u8>>, height: usize)
        requires
            old(matrix)@.len() == 3,
            height >= 3,
            height % 3 == 0,
        ensures
            final(matrix)@.len() == height,
            forall|i: int|
                0 <= i < height ==> (#[trigger] final(matrix)@[i])@ == old(matrix)@[i % 3]@,
    {
        let mut rows: usize = 3;
        while rows < height
            invariant
                matrix@.len() == rows,
                3 <= rows <= height,
                rows % 3 == 0,
                height % 3 == 0,
                forall|i: int| 0 <= i < 3 ==> (#[trigger] matrix@[i])@ == old(matrix)@[i]@,
                forall|i: int|
                    0 <= i < rows ==> (#[trigger] matrix@[i])@ == old(matrix)@[i % 3]@,
            decreases height - rows,
        {
            let c0 = Self::copy_row(&matrix[0]);
            let c1 = Self::copy_row(&matrix[1]);
            let c2 = Self::copy_row(&matrix[2]);
            matrix.push(c0);
            matrix.push(c1);
            matrix.push(c2);
            proof {
                lemma_add_mod_noop(rows as int, 1, 3);
                lemma_add_mod_noop(rows as int, 2, 3);
                assert((rows as int) % 3 == 0);
                assert((rows as int + 1) % 3 == 1);
                assert((rows as int + 2) % 3 == 2);
            }
            rows = rows + 3;
        }
    }

    /// Build the substitution matrix from a seed. The result is a function
    /// of the seed alone.
    pub fn from_seed_u64(seed: u64) -> (r: Self)
        ensures
            r.wf(),
            r.height == 258,
            r.width == 256,
            is_built_from(seed, r@),
    {
        let mut rng = DigitRng::from_seed(seed);
        let mut matrix = Self::get_origin_matrix(&mut rng);
        let ghost n = rng.singles@;
        let ghost tile = tile_of(stage_perm(seed, n));
        proof {
            assert(rows_view(matrix@).len() == matrix@.len());
            assert(matrix@.len() == 3);
            assert forall|rr: int| 0 <= rr < 3 implies (#[trigger] matrix@[rr])@.len() == 3 by {
                assert(matrix@[rr]@ == rows_view(matrix@)[rr]);
                assert(rows_view(matrix@)[rr] == tile[rr]);
            }
        }
        Self::row_change(&mut rng, &mut matrix, 256);
        Self::col_change(&mut matrix, 258);
        let r = RandMatrix { inner_matrix: matrix, height: 258, width: 256 };
        proof {
            lemma_stage_perm_props(seed, n);
            assert forall|c: nat| c < 256 implies strip_col(seed, n, tile, c).len() == 3
                && (forall|j: int| 0 <= j < 3 ==> #[trigger] strip_col(seed, n, tile, c)[j] < 9) by {
                lemma_strip_col_props(seed, n, tile, c);
            }
            assert(r@ =~~= built_matrix(seed, n));
            assert(matrix_wf(r@));
            assert(stops_at(seed, n) && r@ == built_matrix(seed, n));
        }
        r
    }
}

/// The drawing stage stops at exactly one draw count, so the matrix built
/// from a seed is unique: building twice from the same seed gives the same
/// matrix.
pub proof fn lemma_matrix_deterministic(seed: u64, m1: Seq<Seq<u8>>, m2: Seq<Seq<u8>>)
    requires
        is_built_from(seed, m1),
        is_built_from(seed, m2),
    ensures
        m1 == m2,
{
    let n1 = choose|n: nat| #[trigger] stops_at(seed, n) && m1 == built_matrix(seed, n);
    let n2 = choose|n: nat| #[trigger] stops_at(seed, n) && m2 == built_matrix(seed, n);
    if n1 < n2 {
        assert(!perm_done(seed, n1));
        assert(n1 == MAX_PERM_DRAWS && n2 <= MAX_PERM_DRAWS);
    } else if n2 < n1 {
        assert(!perm_done(seed, n2));
        assert(n2 == MAX_PERM_DRAWS && n1 <= MAX_PERM_DRAWS);
    }
    assert(n1 == n2);
}

/// First row (or column) of the 3-wide scan window around `v`, clamped so
/// that the window's starting corner stays in 0..=253.
pub open spec fn start_idx(v: int) -> int {
    if v == 0 {
        0
    } else if v == 255 {
        253
    } else {
        v - 1
    }
}

/// Row visited by the `k`-th step of the scan (the row cursor advances by
/// one every step and wraps at 256).
pub open spec fn scan_row(x: int, k: int) -> int {
    (start_idx(x) + k) % 256
}

/// Column visited by the `k`-th step of the scan (the column cursor
/// advances every three steps and wraps at 256).
pub open spec fn scan_col(y: int, k: int) -> int {
    (start_idx(y) + k / 3) % 256
}

/// The `k`-th scanned cell holds the digit `d`.
pub open spec fn hit_at(m: Seq<Seq<u8>>, x: int, y: int, d: u8, k: int) -> bool {
    m[scan_row(x, k)][scan_col(y, k)] == d
}

/// Index of the first of the nine scanned cells from `k` on that holds
/// `d`, or -1 when none does.
pub open spec fn first_hit_from(m: Seq<Seq<u8>>, x: int, y: int, d: u8, k: int) -> int
    decreases 9 - k,
{
    if k < 0 || k >= 9 {
        -1
    } else if hit_at(m, x, y, d, k) {
        k
    } else {
        first_hit_from(m, x, y, d, k + 1)
    }
}

/// Some cell of the nine-cell scan holds `d`.
pub open spec fn search_hit(m: Seq<Seq<u8>>, x: int, y: int, d: u8) -> bool {
    first_hit_from(m, x, y, d, 0) >= 0
}

/// The coordinates the search returns: the first scanned cell holding `d`,
/// or the unchanged input coordinates when no scanned cell does.
pub open spec fn search_spec(m: Seq<Seq<u8>>, x: int, y: int, d: u8) -> (u8, u8) {
    let k = first_hit_from(m, x, y, d, 0);
    if k >= 0 {
        (scan_row(x, k) as u8, scan_col(y, k) as u8)
    } else {
        (x as u8, y as u8)
    }
}

proof fn lemma_first_hit_value(m: Seq<Seq<u8>>, x: int, y: int, d: u8, j: int, k: int)
    requires
        0 <= j <= k < 9,
        hit_at(m, x, y, d, k),
        forall|t: int| j <= t < k ==> !hit_at(m, x, y, d, t),
    ensures
        first_hit_from(m, x, y, d, j) == k,
    decreases k - j,
{
    if j < k {
        lemma_first_hit_value(m, x, y, d, j + 1, k);
    }
}

proof fn lemma_first_hit_none(m: Seq<Seq<u8>>, x: int, y: int, d: u8, j: int)
    requires
        0 <= j <= 9,
        forall|t: int| j <= t < 9 ==> !hit_at(m, x, y, d, t),
    ensures
        first_hit_from(m, x, y, d, j) == -1,
    decreases 9 - j,
{
    if j < 9 {
        lemma_first_hit_none(m, x, y, d, j + 1);
    }
}

proof fn lemma_first_hit_props(m: Seq<Seq<u8>>, x: int, y: int, d: u8, j: int)
    requires
        0 <= j <= 9,
    ensures
        first_hit_from(m, x, y, d, j) != -1 ==> j <= first_hit_from(m, x, y, d, j) < 9 && hit_at(
            m,
            x,
            y,
            d,
            first_hit_from(m, x, y, d, j),
        ),
        first_hit_from(m, x, y, d, j) == -1 ==> forall|t: int|
            j <= t < 9 ==> !hit_at(m, x, y, d, t),
    decreases 9 - j,
{
    if j < 9 && !hit_at(m, x, y, d, j) {
        lemma_first_hit_props(m, x, y, d, j + 1);
    }
}

/// When the scan finds the digit, the cell the search names holds exactly
/// that digit, and its coordinates are valid matrix indices.
pub proof fn lemma_search_hit_cell(m: Seq<Seq<u8>>, x: int, y: int, d: u8)
    requires
        matrix_wf(m),
        0 <= x < 256,
        0 <= y < 256,
        search_hit(m, x, y, d),
    ensures
        m[search_spec(m, x, y, d).0 as int][search_spec(m, x, y, d).1 as int] == d,
{
    lemma_first_hit_props(m, x, y, d, 0);
    let k = first_hit_from(m, x, y, d, 0);
    lemma_mod_bound(start_idx(x) + k, 256);
    lemma_mod_bound(start_idx(y) + k / 3, 256);
    assert(scan_row(x, k) as u8 as int == scan_row(x, k));
    assert(scan_col(y, k) as u8 as int == scan_col(y, k));
}

/// `perm_prefix` never repeats a residue.
proof fn lemma_perm_prefix_distinct(seed: u64, n: nat)
    ensures
        perm_prefix(seed, n).no_duplicates(),
    decreases n,
{
    if n > 0 {
        lemma_perm_prefix_distinct(seed, (n - 1) as nat);
        let p = perm_prefix(seed, (n - 1) as nat);
        let d = (seeded_byte(seed, (n - 1) as nat) % 9) as u8;
        if !p.contains(d) {
            assert forall|i: int, j: int|
                0 <= i < p.push(d).len() && 0 <= j < p.push(d).len() && i != j implies p.push(d)[i]
                != p.push(d)[j] by {
                if i < p.len() && j < p.len() {
                    assert(p[i] != p[j]);
                }
            }
        }
    }
}

/// The stage permutation holds every digit 0..=8: when the drawing stage
/// completed, its nine entries are distinct digits below nine; otherwise it
/// is the identity permutation.
pub proof fn lemma_stage_perm_covers(seed: u64, n: nat, d: u8)
    requires
        stops_at(seed, n),
        d < 9,
    ensures
        exists|i: int| 0 <= i < 9 && #[trigger] stage_perm(seed, n)[i] == d,
{
    broadcast use vstd::set::group_set_axioms;

    let perm = stage_perm(seed, n);
    if perm_done(seed, n) {
        lemma_perm_prefix_distinct(seed, n);
        lemma_perm_prefix_entries(seed, n);
        if !(exists|i: int| 0 <= i < 9 && #[trigger] perm[i] == d) {
            let pi = Seq::new(9, |i: int| perm[i] as int);
            assert(pi.no_duplicates());
            pi.unique_seq_to_set();
            let s = pi.to_set();
            let range = set_int_range(0, 9);
            lemma_int_range(0, 9);
            let small = range.remove(d as int);
            assert forall|v: int| s.contains(v) implies small.contains(v) by {
                let i = choose|i: int| 0 <= i < pi.len() && pi[i] == v;
                assert(perm[i] < 9);
                assert(perm[i] != d);
            }
            assert(s.subset_of(small));
            assert(small.len() == 8);
            lemma_len_subset(s, small);
            assert(false);
        }
    } else {
        assert(perm[d as int] == d);
    }
}

/// A three-entry column holds the value `v`.
pub open spec fn col_has(col: Seq<u8>, v: u8) -> bool {
    col[0] == v || col[1] == v || col[2] == v
}

/// Each strip column holds exactly the values of the tile column it
/// descends from: shuffling rows never adds or removes a value.
proof fn lemma_strip_col_has(seed: u64, n: nat, tile: Seq<Seq<u8>>, i: nat, v: u8)
    ensures
        col_has(strip_col(seed, n, tile, i), v) == col_has(
            strip_col(seed, n, tile, (i % 3) as nat),
            v,
        ),
    decreases i,
{
    if i >= 3 {
        lemma_strip_col_has(seed, n, tile, (i - 3) as nat, v);
        assert((i - 3) as nat % 3 == i % 3);
        let t = seeded_triple(seed, n, (i - 3) as nat);
        let p = sort3(t.0, t.1, t.2);
        assert((p == (0int, 1int, 2int)) || (p == (0int, 2int, 1int)) || (p == (
            1int,
            0int,
            2int,
        )) || (p == (1int, 2int, 0int)) || (p == (2int, 0int, 1int)) || (p == (2int, 1int, 0int)));
    } else {
        assert(i % 3 == i);
    }
}

/// On a matrix built from a seed, the nine-cell scan around `(x, y)` finds
/// every digit, provided no three-row group of the scan straddles the wrap
/// at row 256 (the starting corner `start_idx(x)` stays out of
/// `{248, 249, 251, 252}`). Row groups that straddle the wrap can repeat a
/// row of the strip and may miss a digit; that case is excluded here.
pub proof fn lemma_built_search_hit(seed: u64, n: nat, x: int, y: int, d: u8)
    requires
        stops_at(seed, n),
        0 <= x < 256,
        0 <= y < 256,
        d < 9,
        start_idx(x) != 248 && start_idx(x) != 249 && start_idx(x) != 251 && start_idx(x)
            != 252,
    ensures
        search_hit(built_matrix(seed, n), x, y, d),
{
    let m = built_matrix(seed, n);
    let perm = stage_perm(seed, n);
    let tile = tile_of(perm);
    lemma_stage_perm_covers(seed, n, d);
    let pidx = choose|i: int| 0 <= i < 9 && #[trigger] perm[i] == d;
    let r0 = pidx / 3;
    let c0 = pidx % 3;
    assert(0 <= r0 < 3 && 0 <= c0 < 3);
    assert(3 * r0 + c0 == pidx);
    assert(tile[r0][c0] == d);
    let sy = start_idx(y);
    assert(0 <= sy <= 253);
    let j = if sy % 3 == c0 {
        0int
    } else if (sy + 1) % 3 == c0 {
        1int
    } else {
        2int
    };
    assert(0 <= j < 3 && (sy + j) % 3 == c0) by {
        lemma_add_mod_noop(sy, 1, 3);
        lemma_add_mod_noop(sy, 2, 3);
    }
    assert(col_has(strip_col(seed, n, tile, c0 as nat), d)) by {
        assert(strip_col(seed, n, tile, c0 as nat)[r0] == tile[r0][c0]);
    }
    lemma_strip_col_has(seed, n, tile, (sy + j) as nat, d);
    assert((sy + j) as nat % 3 == c0);
    let col = strip_col(seed, n, tile, (sy + j) as nat);
    assert(col_has(col, d));
    let r = if col[0] == d {
        0int
    } else if col[1] == d {
        1int
    } else {
        2int
    };
    assert(0 <= r < 3 && col[r] == d);
    let sx = start_idx(x);
    assert(0 <= sx <= 253);
    let base = sx + 3 * j;
    assert(!(254 <= base < 256));
    let cls = if base < 256 {
        base % 3
    } else {
        (base - 256) % 3
    };
    let u = if cls == r {
        0int
    } else if (cls + 1) % 3 == r {
        1int
    } else {
        2int
    };
    assert(0 <= u < 3);
    let k = 3 * j + u;
    assert(0 <= k < 9);
    assert(k / 3 == j && k % 3 == u);
    let i_r = scan_row(x, k);
    assert(i_r == (base + u) % 256);
    if base + 2 < 256 {
        lemma_small_mod((base + u) as nat, 256);
        assert(i_r == base + u);
        assert(i_r % 3 == r) by {
            lemma_add_mod_noop(base, 1, 3);
            lemma_add_mod_noop(base, 2, 3);
            lemma_add_mod_noop(cls, 1, 3);
            lemma_add_mod_noop(cls, 2, 3);
        }
    } else {
        assert(base >= 256);
        let b2 = base - 256;
        assert(0 <= b2 <= 3);
        lemma_mod_sub_multiples_vanish(base + u, 256);
        lemma_small_mod((b2 + u) as nat, 256);
        assert(i_r == b2 + u);
        assert(i_r % 3 == r) by {
            lemma_add_mod_noop(b2, 1, 3);
            lemma_add_mod_noop(b2, 2, 3);
            lemma_add_mod_noop(cls, 1, 3);
            lemma_add_mod_noop(cls, 2, 3);
        }
    }
    assert(0 <= i_r < 256);
    assert(scan_col(y, k) == (sy + j) % 256);
    lemma_small_mod((sy + j) as nat, 256);
    assert(scan_col(y, k) == sy + j);
    assert(m[i_r][sy + j] == strip_col(seed, n, tile, (sy + j) as nat)[i_r % 3]);
    assert(m[i_r][sy + j] == d);
    assert(hit_at(m, x, y, d, k));
    lemma_first_hit_props(m, x, y, d, 0);
    if first_hit_from(m, x, y, d, 0) == -1 {
        assert(!hit_at(m, x, y, d, k));
    }
}

/// The same guarantee, phrased for any matrix known to come from a seed.
pub proof fn lemma_search_hits_without_row_wrap(seed: u64, m: Seq<Seq<u8>>, x: int, y: int, d: u8)
    requires
        is_built_from(seed, m),
        0 <= x < 256,
        0 <= y < 256,
        d < 9,
        start_idx(x) != 248 && start_idx(x) != 249 && start_idx(x) != 251 && start_idx(x)
            != 252,
    ensures
        search_hit(m, x, y, d),
{
    let n = choose|n: nat| #[trigger] stops_at(seed, n) && m == built_matrix(seed, n);
    lemma_built_search_hit(seed, n, x, y, d);
}

impl RandMatrix {
    /// Direct point lookup.
    pub fn get_val_from_random_matrix(&self, x: usize, y: usize) -> (r: u8)
        requires
            self.wf(),
            x < 256,
            y < 256,
        ensures
            r == self@[x as int][y as int],
    {
        proof {
            assert(rows_view(self.inner_matrix@).len() == self.inner_matrix@.len());
            assert(self.inner_matrix@[x as int]@ == self@[x as int]);
        }
        let row = &self.inner_matrix[x];
        row[y]
    }

    /// Scan the nine-cell neighborhood of `(x, y)` for a cell holding
    /// `hide_payload`, in the fixed zig-zag order; `None` reports that no
    /// scanned cell holds the digit, which would silently corrupt that
    /// digit's round trip if embedded anyway.
    pub fn search_val_checked(&self, x: usize, y: usize, hide_payload: u8) -> (r: Option<
        (u8, u8),
    >)
        requires
            self.wf(),
            x < 256,
            y < 256,
        ensures
            r is Some <==> search_hit(self@, x as int, y as int, hide_payload),
            r matches Some(c) ==> c == search_spec(self@, x as int, y as int, hide_payload),
    {
        let ghost m = self@;
        let mut x_idx: usize = if x == 0 {
            0
        } else if x == 255 {
            253
        } else {
            x - 1
        };
        let mut y_idx: usize = if y == 0 {
            0
        } else if y == 255 {
            253
        } else {
            y - 1
        };
        proof {
            assert(x_idx == start_idx(x as int) % 256);
            assert(y_idx == start_idx(y as int) % 256);
        }
        let mut k: usize = 0;
        while k < 9
            invariant
                self.wf(),
                m == self@,
                x < 256,
                y < 256,
                k <= 9,
                x_idx < 256,
                y_idx < 256,
                x_idx == scan_row(x as int, k as int),
                y_idx == scan_col(y as int, k as int),
                forall|j: int| 0 <= j < k ==> !hit_at(m, x as int, y as int, hide_payload, j),
            decreases 9 - k,
        {
            proof {
                assert(rows_view(self.inner_matrix@).len() == self.inner_matrix@.len());
                assert(self.inner_matrix@[x_idx as int]@ == m[x_idx as int]);
            }
            let row = &self.inner_matrix[x_idx];
            if row[y_idx] == hide_payload {
                proof {
                    assert(hit_at(m, x as int, y as int, hide_payload, k as int));
                    lemma_first_hit_value(m, x as int, y as int, hide_payload, 0, k as int);
                }
                return Option::Some((x_idx as u8, y_idx as u8));
            }
            proof {
                lemma_add_mod_noop(start_idx(x as int) + k, 1, 256);
                if k as int % 3 == 2 {
                    lemma_add_mod_noop(start_idx(y as int) + k as int / 3, 1, 256);
                    assert((k + 1) as int / 3 == k as int / 3 + 1);
                } else {
                    assert((k + 1) as int / 3 == k as int / 3);
                }
            }
            x_idx = (x_idx + 1) % 256;
            if k % 3 == 2 {
                y_idx = (y_idx + 1) % 256;
            }
            k = k + 1;
        }
        proof {
            lemma_first_hit_none(m, x as int, y as int, hide_payload, 0);
        }
        Option::None
    }

    /// The search as the embedder uses it: the first match of the scan, or
    /// the unchanged input coordinates when the scan misses.
    pub fn search_val(&self, x: usize, y: usize, hide_payload: u8) -> (r: (u8, u8))
        requires
            self.wf(),
            x < 256,
            y < 256,
        ensures
            r == search_spec(self@, x as int, y as int, hide_payload),
    {
        match self.search_val_checked(x, y, hide_payload) {
            Option::Some(c) => c,
            Option::None => (x as u8, y as u8),
        }
    }
}

} // verus!
