//! The relaxation rule for a single tile.
//!
//! A tile holds a row-major sequence of bipolar cells and is relaxed against a
//! reference slice of the same length. The reference slice implicitly defines
//! a rank-one Hebbian weight between positions `i` and `j`,
//! `w(i, j) = ref[i] * ref[j]`, together with an always-on unit that
//! contributes `-ref[i]` to the local field of position `i`. Writing `m` for
//! the overlap `sum_j ref[j] * cell[j]`, the local field of position `i` is
//! therefore `h(i) = ref[i] * m - ref[i] = ref[i] * (m - 1)`, and the energy
//! delta for flipping cell `i` is `dE(i) = 2 * cell[i] * h(i)`. One relaxation
//! pass flips the single cell with the smallest energy delta, ties broken
//! toward the lowest index, and only when that delta is strictly negative.

use vstd::prelude::*;

use crate::cell::Cell;

verus! {

/// The overlap between a reference slice and a tile's cells: the sum over all
/// positions of the product of the two polarities.
pub open spec fn overlap(pattern: Seq<Cell>, cells: Seq<Cell>) -> int
    recommends
        pattern.len() == cells.len(),
    decreases cells.len(),
{
    if cells.len() == 0 {
        0
    } else {
        overlap(pattern.drop_last(), cells.drop_last())
            + pattern.last().polarity() * cells.last().polarity()
    }
}

/// The change in tile energy caused by flipping the cell at position `i`:
/// `2 * cell[i] * h(i)` for the local field `h(i) = ref[i] * (overlap - 1)`.
pub open spec fn delta_e(pattern: Seq<Cell>, cells: Seq<Cell>, i: int) -> int
    recommends
        pattern.len() == cells.len(),
        0 <= i < cells.len(),
{
    2 * pattern[i].polarity() * cells[i].polarity() * (overlap(pattern, cells) - 1)
}

/// The first index among `0 .. n` whose energy delta is minimal; ties are
/// broken toward the lowest index (the first minimum encountered wins).
pub open spec fn first_min_index(pattern: Seq<Cell>, cells: Seq<Cell>, n: int) -> int
    recommends
        pattern.len() == cells.len(),
        1 <= n <= cells.len(),
    decreases n,
{
    if n <= 1 {
        0
    } else {
        let k = first_min_index(pattern, cells, n - 1);
        if delta_e(pattern, cells, n - 1) < delta_e(pattern, cells, k) {
            n - 1
        } else {
            k
        }
    }
}

/// A tile is stable when no single flip would strictly decrease its energy.
pub open spec fn tile_stable(pattern: Seq<Cell>, cells: Seq<Cell>) -> bool {
    forall|i: int| 0 <= i < cells.len() ==> delta_e(pattern, cells, i) >= 0
}

/// The cells of a tile after one relaxation pass: the first cell with the
/// minimal energy delta is flipped if that delta is strictly negative, and
/// nothing changes otherwise.
pub open spec fn stepped(pattern: Seq<Cell>, cells: Seq<Cell>) -> Seq<Cell> {
    if cells.len() == 0 {
        cells
    } else {
        let k = first_min_index(pattern, cells, cells.len() as int);
        if delta_e(pattern, cells, k) < 0 {
            cells.update(k, cells[k].flipped())
        } else {
            cells
        }
    }
}

/// A relaxation pass keeps the number of cells.
pub proof fn lemma_stepped_len(pattern: Seq<Cell>, cells: Seq<Cell>)
    requires
        pattern.len() == cells.len(),
    ensures
        stepped(pattern, cells).len() == cells.len(),
{
    if cells.len() > 0 {
        lemma_first_min_index_props(pattern, cells, cells.len() as int);
    }
}

/// The energy of a tile against a reference slice, `-(overlap - 1)^2`; one
/// relaxation pass never increases it.
pub open spec fn tile_energy(pattern: Seq<Cell>, cells: Seq<Cell>) -> int {
    -((overlap(pattern, cells) - 1) * (overlap(pattern, cells) - 1))
}

/// The overlap is bounded by the number of cells.
proof fn lemma_overlap_bounds(pattern: Seq<Cell>, cells: Seq<Cell>)
    requires
        pattern.len() == cells.len(),
    ensures
        -(cells.len() as int) <= overlap(pattern, cells) <= cells.len() as int,
    decreases cells.len(),
{
    if cells.len() > 0 {
        lemma_overlap_bounds(pattern.drop_last(), cells.drop_last());
    }
}

/// The overlap over a prefix one longer grows by the product of the
/// polarities at the new position.
proof fn lemma_overlap_extend(pattern: Seq<Cell>, cells: Seq<Cell>, i: int)
    requires
        pattern.len() == cells.len(),
        0 <= i < cells.len(),
    ensures
        overlap(pattern.take(i + 1), cells.take(i + 1))
            == overlap(pattern.take(i), cells.take(i))
                + pattern[i].polarity() * cells[i].polarity(),
{
    assert(pattern.take(i + 1).drop_last() =~= pattern.take(i));
    assert(cells.take(i + 1).drop_last() =~= cells.take(i));
}

/// The overlap of the whole sequences is the overlap of the full prefix.
proof fn lemma_overlap_take_all(pattern: Seq<Cell>, cells: Seq<Cell>)
    requires
        pattern.len() == cells.len(),
    ensures
        overlap(pattern.take(cells.len() as int), cells.take(cells.len() as int))
            == overlap(pattern, cells),
{
    assert(pattern.take(cells.len() as int) =~= pattern);
    assert(cells.take(cells.len() as int) =~= cells);
}

/// Extracts the contiguous reference slice of length `len` that starts at
/// position `start`.
pub fn extract_slice(image: &Vec<Cell>, start: usize, len: usize) -> (r: Vec<Cell>)
    requires
        start + len <= image@.len(),
    ensures
        r@ == image@.subrange(start as int, start as int + len as int),
{
    let n = image.len();
    let mut r: Vec<Cell> = Vec::new();
    let mut i: usize = 0;
    while i < len
        invariant
            image@.len() == n,
            start + len <= n,
            0 <= i <= len,
            r@.len() == i,
            forall|j: int| 0 <= j < i ==> r@[j] == image@[start + j],
        decreases len - i,
    {
        r.push(image[start + i]);
        i = i + 1;
    }
    proof {
        assert(r@ =~= image@.subrange(start as int, start as int + len as int));
    }
    r
}

/// The product of the polarities of two cells: 1 when they agree, -1 when
/// they differ.
fn polarity_product(a: Cell, b: Cell) -> (r: i64)
    ensures
        r == a.polarity() * b.polarity(),
        r == 1 || r == -1,
{
    match (a, b) {
        (Cell::White, Cell::White) => 1,
        (Cell::Black, Cell::Black) => 1,
        (Cell::White, Cell::Black) => -1,
        (Cell::Black, Cell::White) => -1,
    }
}

/// The overlap between a reference slice and the cells of a tile, as an
/// executable value.
pub fn overlap_of(pattern: &Vec<Cell>, cells: &Vec<Cell>) -> (m: i64)
    requires
        pattern@.len() == cells@.len(),
        cells@.len() <= u32::MAX,
    ensures
        m == overlap(pattern@, cells@),
        -(cells@.len() as int) <= m <= cells@.len() as int,
{
    let n = cells.len();
    let mut m: i64 = 0;
    let mut i: usize = 0;
    while i < n
        invariant
            pattern@.len() == cells@.len(),
            cells@.len() == n,
            n <= u32::MAX,
            0 <= i <= n,
            m == overlap(pattern@.take(i as int), cells@.take(i as int)),
            -(i as int) <= m <= i as int,
        decreases n - i,
    {
        proof {
            lemma_overlap_extend(pattern@, cells@, i as int);
        }
        m = m + polarity_product(pattern[i], cells[i]);
        i = i + 1;
    }
    proof {
        lemma_overlap_take_all(pattern@, cells@);
    }
    m
}

/// The energy delta takes the same magnitude at every position and its sign
/// follows the agreement of the cell with the reference.
proof fn lemma_delta_e_form(pattern: Seq<Cell>, cells: Seq<Cell>, i: int)
    requires
        pattern.len() == cells.len(),
        0 <= i < cells.len(),
    ensures
        pattern[i].polarity() * cells[i].polarity() == 1
            ==> delta_e(pattern, cells, i) == 2 * (overlap(pattern, cells) - 1),
        pattern[i].polarity() * cells[i].polarity() == -1
            ==> delta_e(pattern, cells, i) == -2 * (overlap(pattern, cells) - 1),
{
    let pp = pattern[i].polarity();
    let cp = cells[i].polarity();
    let m = overlap(pattern, cells);
    assert(pp * cp == 1 ==> 2 * pp * cp * (m - 1) == 2 * (m - 1)) by (nonlinear_arith);
    assert(pp * cp == -1 ==> 2 * pp * cp * (m - 1) == -2 * (m - 1)) by (nonlinear_arith);
}

/// The energy delta for flipping the cell of a tile at position `i`, as an
/// executable value.
pub fn delta_energy(pattern: &Vec<Cell>, cells: &Vec<Cell>, i: usize) -> (d: i64)
    requires
        pattern@.len() == cells@.len(),
        cells@.len() <= u32::MAX,
        i < cells@.len(),
    ensures
        d == delta_e(pattern@, cells@, i as int),
{
    let m = overlap_of(pattern, cells);
    proof {
        lemma_delta_e_form(pattern@, cells@, i as int);
    }
    let agree = polarity_product(pattern[i], cells[i]);
    if agree == 1 {
        2 * (m - 1)
    } else {
        -2 * (m - 1)
    }
}

/// The first minimum over a prefix lies inside it, is minimal there, and is
/// the first position that reaches the minimal value.
proof fn lemma_first_min_index_props(pattern: Seq<Cell>, cells: Seq<Cell>, n: int)
    requires
        pattern.len() == cells.len(),
        1 <= n <= cells.len(),
    ensures
        0 <= first_min_index(pattern, cells, n) < n,
        forall|j: int| 0 <= j < n
            ==> #[trigger] delta_e(pattern, cells, j)
                >= delta_e(pattern, cells, first_min_index(pattern, cells, n)),
        forall|j: int| 0 <= j < first_min_index(pattern, cells, n)
            ==> #[trigger] delta_e(pattern, cells, j)
                > delta_e(pattern, cells, first_min_index(pattern, cells, n)),
    decreases n,
{
    if n > 1 {
        lemma_first_min_index_props(pattern, cells, n - 1);
    }
}

/// One relaxation pass over a tile: find the first cell with the minimal
/// energy delta and flip it when that delta is strictly negative. Returns
/// whether a cell changed.
pub fn relax_tile(pattern: &Vec<Cell>, cells: &mut Vec<Cell>) -> (changed: bool)
    requires
        pattern@.len() == old(cells)@.len(),
        1 <= old(cells)@.len() <= u32::MAX,
    ensures
        final(cells)@ == stepped(pattern@, old(cells)@),
        changed == !tile_stable(pattern@, old(cells)@),
{
    let n = cells.len();
    let m = overlap_of(pattern, cells);
    proof {
        lemma_delta_e_form(pattern@, cells@, 0);
    }
    let agree0 = polarity_product(pattern[0], cells[0]);
    let mut best_i: usize = 0;
    let mut best_d: i64 = if agree0 == 1 {
        2 * (m - 1)
    } else {
        -2 * (m - 1)
    };
    let mut i: usize = 1;
    while i < n
        invariant
            cells@ == old(cells)@,
            pattern@.len() == cells@.len(),
            cells@.len() == n,
            1 <= n <= u32::MAX,
            m == overlap(pattern@, cells@),
            -(n as int) <= m <= n as int,
            1 <= i <= n,
            best_i == first_min_index(pattern@, cells@, i as int),
            0 <= best_i < i,
            best_d == delta_e(pattern@, cells@, best_i as int),
        decreases n - i,
    {
        proof {
            lemma_delta_e_form(pattern@, cells@, i as int);
        }
        let agree = polarity_product(pattern[i], cells[i]);
        let d: i64 = if agree == 1 {
            2 * (m - 1)
        } else {
            -2 * (m - 1)
        };
        if d < best_d {
            best_i = i;
            best_d = d;
        }
        i = i + 1;
    }
    proof {
        lemma_first_min_index_props(pattern@, cells@, n as int);
    }
    if best_d < 0 {
        let flipped = cells[best_i].flip();
        cells[best_i] = flipped;
        proof {
            assert(cells@ == old(cells)@.update(
                best_i as int,
                old(cells)@[best_i as int].flipped(),
            ));
            assert(delta_e(pattern@, old(cells)@, best_i as int) < 0);
            assert(!tile_stable(pattern@, old(cells)@));
        }
        true
    } else {
        proof {
            assert forall|j: int| 0 <= j < cells@.len() implies delta_e(
                pattern@,
                cells@,
                j,
            ) >= 0 by {
                assert(delta_e(pattern@, cells@, j) >= best_d);
            }
        }
        false
    }
}

/// Two cells have polarity product 1 exactly when they are equal and -1
/// exactly when they differ.
proof fn lemma_polarity_cases(a: Cell, b: Cell)
    ensures
        a == b <==> a.polarity() * b.polarity() == 1,
        a != b <==> a.polarity() * b.polarity() == -1,
{
    match (a, b) {
        (Cell::White, Cell::White) => {},
        (Cell::Black, Cell::Black) => {},
        (Cell::White, Cell::Black) => {},
        (Cell::Black, Cell::White) => {},
    }
}

/// Flipping the cell at position `k` moves the overlap by 2: down when the
/// cell agreed with the reference, up when it disagreed.
proof fn lemma_overlap_update(pattern: Seq<Cell>, cells: Seq<Cell>, k: int)
    requires
        pattern.len() == cells.len(),
        0 <= k < cells.len(),
    ensures
        pattern[k] == cells[k] ==> overlap(pattern, cells.update(k, cells[k].flipped()))
            == overlap(pattern, cells) - 2,
        pattern[k] != cells[k] ==> overlap(pattern, cells.update(k, cells[k].flipped()))
            == overlap(pattern, cells) + 2,
    decreases cells.len(),
{
    let updated = cells.update(k, cells[k].flipped());
    lemma_polarity_cases(pattern[k], cells[k]);
    lemma_polarity_cases(pattern[k], cells[k].flipped());
    if k == cells.len() - 1 {
        assert(updated.drop_last() =~= cells.drop_last());
        assert(updated.last() == cells[k].flipped());
    } else {
        assert(updated.drop_last() =~= cells.drop_last().update(k, cells[k].flipped()));
        assert(cells.drop_last()[k] == cells[k]);
        assert(pattern.drop_last()[k] == pattern[k]);
        lemma_overlap_update(pattern.drop_last(), cells.drop_last(), k);
        assert(updated.last() == cells.last());
    }
}

/// One relaxation pass never changes more than one cell of a tile: two
/// changed positions are the same position.
pub proof fn lemma_step_flips_at_most_one(pattern: Seq<Cell>, cells: Seq<Cell>, i: int, j: int)
    requires
        pattern.len() == cells.len(),
        0 <= i < cells.len(),
        0 <= j < cells.len(),
        stepped(pattern, cells)[i] != cells[i],
        stepped(pattern, cells)[j] != cells[j],
    ensures
        i == j,
{
    lemma_first_min_index_props(pattern, cells, cells.len() as int);
}

/// A relaxation pass leaves a tile unchanged exactly when the tile is
/// stable: the pass reports a flip if and only if it produced one.
pub proof fn lemma_stable_iff_unchanged(pattern: Seq<Cell>, cells: Seq<Cell>)
    requires
        pattern.len() == cells.len(),
    ensures
        tile_stable(pattern, cells) <==> stepped(pattern, cells) == cells,
{
    if cells.len() > 0 {
        let k = first_min_index(pattern, cells, cells.len() as int);
        lemma_first_min_index_props(pattern, cells, cells.len() as int);
        if delta_e(pattern, cells, k) < 0 {
            assert(!tile_stable(pattern, cells));
            assert(stepped(pattern, cells)[k] == cells[k].flipped());
            assert(cells[k].flipped() != cells[k]);
            assert(stepped(pattern, cells) != cells);
        } else {
            assert forall|i: int| 0 <= i < cells.len() implies delta_e(pattern, cells, i) >= 0 by {
                assert(delta_e(pattern, cells, i) >= delta_e(pattern, cells, k));
            }
            assert(stepped(pattern, cells) == cells);
        }
    }
}

/// One relaxation pass never increases the energy of a tile, and strictly
/// decreases it when the tile was not stable.
pub proof fn lemma_energy_monotone(pattern: Seq<Cell>, cells: Seq<Cell>)
    requires
        pattern.len() == cells.len(),
    ensures
        tile_energy(pattern, stepped(pattern, cells)) <= tile_energy(pattern, cells),
        !tile_stable(pattern, cells) ==> tile_energy(pattern, stepped(pattern, cells))
            < tile_energy(pattern, cells),
{
    lemma_stable_iff_unchanged(pattern, cells);
    if !tile_stable(pattern, cells) {
        let k = first_min_index(pattern, cells, cells.len() as int);
        lemma_first_min_index_props(pattern, cells, cells.len() as int);
        lemma_delta_e_form(pattern, cells, k);
        lemma_polarity_cases(pattern[k], cells[k]);
        lemma_overlap_update(pattern, cells, k);
        let m = overlap(pattern, cells);
        let m2 = overlap(pattern, stepped(pattern, cells));
        assert(delta_e(pattern, cells, k) < 0);
        if pattern[k] == cells[k] {
            assert(m2 == m - 2);
            assert(2 * (m - 1) < 0);
            assert((m - 3) * (m - 3) > (m - 1) * (m - 1)) by (nonlinear_arith)
                requires
                    m <= 0,
            ;
        } else {
            assert(m2 == m + 2);
            assert(-2 * (m - 1) < 0);
            assert((m + 1) * (m + 1) > (m - 1) * (m - 1)) by (nonlinear_arith)
                requires
                    m >= 2,
            ;
        }
    }
}

/// The tile after `k` successive relaxation passes.
pub open spec fn stepped_iter(pattern: Seq<Cell>, cells: Seq<Cell>, k: nat) -> Seq<Cell>
    decreases k,
{
    if k == 0 {
        cells
    } else {
        stepped(pattern, stepped_iter(pattern, cells, (k - 1) as nat))
    }
}

/// How far the tile still is from a fixed point of the relaxation: the
/// number of flips left, counted twice.
spec fn potential(pattern: Seq<Cell>, cells: Seq<Cell>) -> int {
    let m = overlap(pattern, cells);
    if m >= 1 {
        cells.len() - m
    } else {
        cells.len() + m
    }
}

/// The potential is never negative.
proof fn lemma_potential_nonneg(pattern: Seq<Cell>, cells: Seq<Cell>)
    requires
        pattern.len() == cells.len(),
    ensures
        0 <= potential(pattern, cells) <= cells.len(),
{
    lemma_overlap_bounds(pattern, cells);
}

/// An unstable tile loses exactly one flip of potential per pass.
proof fn lemma_step_decreases_potential(pattern: Seq<Cell>, cells: Seq<Cell>)
    requires
        pattern.len() == cells.len(),
        !tile_stable(pattern, cells),
    ensures
        potential(pattern, stepped(pattern, cells)) == potential(pattern, cells) - 2,
        potential(pattern, cells) >= 2,
{
    let k = first_min_index(pattern, cells, cells.len() as int);
    lemma_first_min_index_props(pattern, cells, cells.len() as int);
    lemma_delta_e_form(pattern, cells, k);
    lemma_polarity_cases(pattern[k], cells[k]);
    lemma_overlap_update(pattern, cells, k);
    lemma_overlap_bounds(pattern, cells);
    lemma_stepped_len(pattern, cells);
    lemma_overlap_bounds(pattern, stepped(pattern, cells));
    assert(delta_e(pattern, cells, k) < 0) by {
        if delta_e(pattern, cells, k) >= 0 {
            assert(tile_stable(pattern, cells));
        }
    }
}

/// The passes after the first are the passes of the once-relaxed tile.
proof fn lemma_stepped_iter_shift(pattern: Seq<Cell>, cells: Seq<Cell>, k: nat)
    ensures
        stepped_iter(pattern, cells, (k + 1) as nat) == stepped_iter(
            pattern,
            stepped(pattern, cells),
            k,
        ),
    decreases k,
{
    if k == 0 {
        assert(stepped_iter(pattern, cells, 0) == cells);
        assert(stepped_iter(pattern, cells, 1) == stepped(pattern, stepped_iter(pattern, cells, 0)));
        assert(stepped_iter(pattern, stepped(pattern, cells), 0) == stepped(pattern, cells));
    } else {
        lemma_stepped_iter_shift(pattern, cells, (k - 1) as nat);
        assert(stepped_iter(pattern, cells, (k + 1) as nat) == stepped(
            pattern,
            stepped_iter(pattern, cells, k),
        ));
        assert(stepped_iter(pattern, stepped(pattern, cells), k) == stepped(
            pattern,
            stepped_iter(pattern, stepped(pattern, cells), (k - 1) as nat),
        ));
    }
}

/// Repeated passes are stable after at most half the potential, in passes.
proof fn lemma_convergence_aux(pattern: Seq<Cell>, cells: Seq<Cell>)
    requires
        pattern.len() == cells.len(),
        potential(pattern, cells) >= 0,
    ensures
        exists|k: nat|
            2 * k <= potential(pattern, cells) && tile_stable(
                pattern,
                #[trigger] stepped_iter(pattern, cells, k),
            ),
    decreases potential(pattern, cells),
{
    if tile_stable(pattern, cells) {
        assert(stepped_iter(pattern, cells, 0) == cells);
        assert(2 * 0 <= potential(pattern, cells) && tile_stable(
            pattern,
            stepped_iter(pattern, cells, 0),
        ));
    } else {
        lemma_step_decreases_potential(pattern, cells);
        lemma_stepped_len(pattern, cells);
        lemma_convergence_aux(pattern, stepped(pattern, cells));
        let k0 = choose|k: nat|
            2 * k <= potential(pattern, stepped(pattern, cells)) && tile_stable(
                pattern,
                #[trigger] stepped_iter(pattern, stepped(pattern, cells), k),
            );
        lemma_stepped_iter_shift(pattern, cells, k0);
        assert(2 * (k0 + 1) <= potential(pattern, cells) && tile_stable(
            pattern,
            stepped_iter(pattern, cells, (k0 + 1) as nat),
        ));
    }
}

/// Relaxation passes keep the number of cells, however often they repeat.
proof fn lemma_stepped_iter_len(pattern: Seq<Cell>, cells: Seq<Cell>, k: nat)
    requires
        pattern.len() == cells.len(),
    ensures
        stepped_iter(pattern, cells, k).len() == cells.len(),
    decreases k,
{
    if k > 0 {
        lemma_stepped_iter_len(pattern, cells, (k - 1) as nat);
        lemma_stepped_len(pattern, stepped_iter(pattern, cells, (k - 1) as nat));
    }
}

/// Once some pass leaves the tile stable, every later pass leaves it both
/// unchanged and stable: the relaxation is idempotent after convergence.
pub proof fn lemma_stable_stays(pattern: Seq<Cell>, cells: Seq<Cell>, k: nat, j: nat)
    requires
        pattern.len() == cells.len(),
        k <= j,
        tile_stable(pattern, stepped_iter(pattern, cells, k)),
    ensures
        stepped_iter(pattern, cells, j) == stepped_iter(pattern, cells, k),
        tile_stable(pattern, stepped_iter(pattern, cells, j)),
    decreases j - k,
{
    if j > k {
        lemma_stable_stays(pattern, cells, k, (j - 1) as nat);
        lemma_stepped_iter_len(pattern, cells, (j - 1) as nat);
        lemma_stable_iff_unchanged(pattern, stepped_iter(pattern, cells, (j - 1) as nat));
        assert(stepped_iter(pattern, cells, j) == stepped(
            pattern,
            stepped_iter(pattern, cells, (j - 1) as nat),
        ));
    }
}

/// Repeated relaxation passes converge: after at most one pass per cell the
/// tile is stable, and by the passes before that point it stays stable.
pub proof fn lemma_convergence(pattern: Seq<Cell>, cells: Seq<Cell>)
    requires
        pattern.len() == cells.len(),
    ensures
        tile_stable(pattern, stepped_iter(pattern, cells, cells.len())),
{
    lemma_potential_nonneg(pattern, cells);
    lemma_convergence_aux(pattern, cells);
    let k0 = choose|k: nat|
        2 * k <= potential(pattern, cells) && tile_stable(
            pattern,
            #[trigger] stepped_iter(pattern, cells, k),
        );
    assert(k0 <= cells.len());
    lemma_stable_stays(pattern, cells, k0, cells.len());
}

/// The energy of a tile against a reference slice, as an executable value.
pub fn tile_energy_of(pattern: &Vec<Cell>, cells: &Vec<Cell>) -> (e: i128)
    requires
        pattern@.len() == cells@.len(),
        cells@.len() <= u32::MAX,
    ensures
        e == tile_energy(pattern@, cells@),
{
    let m = overlap_of(pattern, cells);
    let d = (m as i128) - 1;
    proof {
        assert(0 <= d * d <= 0x40000000000000000) by (nonlinear_arith)
            requires
                -0x200000000 <= d <= 0x200000000,
        ;
        assert(d == overlap(pattern@, cells@) - 1);
    }
    -(d * d)
}

} // verus!
