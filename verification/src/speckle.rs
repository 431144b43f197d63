//! The bright "speckles" sprinkled over the clock's board each minute.
//!
//! Nine probes are started from positions derived from the minute; each one
//! walks the board's cells in row-major order, wrapping around, until it
//! finds a cell on the even checkerboard colour that no earlier probe took.

use vstd::prelude::*;

verus! {

/// Number of speckles looked for.
pub const SPECKLE_COUNT: usize = 9;

/// Number of board cells, at least one.
pub open spec fn board_total(cols: int, rows: int) -> int {
    if cols * rows > 1 {
        cols * rows
    } else {
        1
    }
}

/// The absolute value.
pub open spec fn abs_int(v: int) -> int {
    if v < 0 {
        -v
    } else {
        v
    }
}

/// Where probe `i` starts: `|seed * 997 + i * 379|` reduced modulo the
/// number of cells (the remainder taken with the dividend's sign, as Rust's
/// `%` does, then made non-negative).
pub open spec fn probe_start(seed: int, i: int, total: int) -> int {
    abs_int(seed * 997 + i * 379) % total
}

/// The (row, column) of cell index `idx` on a board `cols` wide, with
/// Rust's truncating division and remainder.
pub open spec fn cell_of(idx: int, cols: int) -> (int, int) {
    if cols > 0 {
        (idx / cols, idx % cols)
    } else {
        (-(idx / (-cols)), idx % (-cols))
    }
}

/// The cell lies on the even checkerboard colour and is not taken yet.
pub open spec fn is_free(picks: Seq<(int, int)>, cell: (int, int)) -> bool {
    (cell.0 + cell.1) % 2 == 0 && !picks.contains(cell)
}

/// The first free cell among `k` cells probed from `idx` on, wrapping at
/// `total`.
pub open spec fn probe(
    picks: Seq<(int, int)>,
    idx: int,
    total: int,
    cols: int,
    k: nat,
) -> Option<(int, int)>
    decreases k,
{
    if k == 0 {
        None
    } else if is_free(picks, cell_of(idx, cols)) {
        Some(cell_of(idx, cols))
    } else {
        probe(picks, (idx + 1) % total, total, cols, (k - 1) as nat)
    }
}

/// The cells taken by the first `n` probes, in order.
pub open spec fn speckle_picks(seed: int, cols: int, rows: int, n: nat) -> Seq<(int, int)>
    decreases n,
{
    if n == 0 {
        seq![]
    } else {
        let earlier = speckle_picks(seed, cols, rows, (n - 1) as nat);
        let total = board_total(cols, rows);
        match probe(earlier, probe_start(seed, n - 1, total), total, cols, total as nat) {
            Some(c) => earlier.push(c),
            None => earlier,
        }
    }
}

/// The inputs on which the computation stays within `i32`.
pub open spec fn speckle_inputs_ok(seed: int, cols: int, rows: int) -> bool {
    &&& cols != 0
    &&& i32::MIN <= cols * rows <= i32::MAX
    &&& i32::MIN <= seed * 997
    &&& seed * 997 + 8 * 379 <= i32::MAX
}

fn cell_at(idx: i64, cols: i64) -> (r: (i64, i64))
    requires
        0 <= idx <= i32::MAX,
        cols != 0,
        i32::MIN <= cols <= i32::MAX,
    ensures
        (r.0 as int, r.1 as int) == cell_of(idx as int, cols as int),
        -i32::MAX <= r.0 <= i32::MAX,
        0 <= r.1 <= i32::MAX,
{
    if cols > 0 {
        ((idx as u64 / cols as u64) as i64, (idx as u64 % cols as u64) as i64)
    } else {
        let c: u64 = (-cols) as u64;
        let q = (idx as u64 / c) as i64;
        (-q, (idx as u64 % c) as i64)
    }
}

fn is_even(v: i64) -> (r: bool)
    requires
        -2 * i32::MAX <= v <= 2 * i32::MAX,
    ensures
        r == (v as int % 2 == 0),
{
    if v >= 0 {
        (v as u64) % 2 == 0
    } else {
        ((-v) as u64) % 2 == 0
    }
}

fn taken(picks: &Vec<(i32, i32)>, cell: (i64, i64)) -> (r: bool)
    ensures
        r == picks@.map_values(|p: (i32, i32)| (p.0 as int, p.1 as int)).contains(
            (cell.0 as int, cell.1 as int),
        ),
{
    let ghost v = picks@.map_values(|p: (i32, i32)| (p.0 as int, p.1 as int));
    let mut j: usize = 0;
    while j < picks.len()
        invariant
            j <= picks.len(),
            v == picks@.map_values(|p: (i32, i32)| (p.0 as int, p.1 as int)),
            forall|k: int| 0 <= k < j ==> #[trigger] v[k] != (cell.0 as int, cell.1 as int),
        decreases picks.len() - j,
    {
        if picks[j].0 as i64 == cell.0 && picks[j].1 as i64 == cell.1 {
            assert(v[j as int] == (cell.0 as int, cell.1 as int));
            return true;
        }
        j = j + 1;
    }
    false
}

/// The speckle cells, as (row, column) pairs, for the minute `minute_seed`
/// on a board of `cols` by `rows` cells.
pub fn pick_speckles(minute_seed: i32, cols: i32, rows: i32) -> (r: Vec<(i32, i32)>)
    requires
        speckle_inputs_ok(minute_seed as int, cols as int, rows as int),
    ensures
        r@.map_values(|p: (i32, i32)| (p.0 as int, p.1 as int)) == speckle_picks(
            minute_seed as int,
            cols as int,
            rows as int,
            SPECKLE_COUNT as nat,
        ),
{
    let ghost seed = minute_seed as int;
    let prod: i32 = cols * rows;
    let total: i32 = if prod > 1 {
        prod
    } else {
        1
    };
    let mut picks: Vec<(i32, i32)> = Vec::new();
    let mut i: usize = 0;
    assert(picks@.map_values(|p: (i32, i32)| (p.0 as int, p.1 as int)) =~= Seq::<
        (int, int),
    >::empty());
    while i < SPECKLE_COUNT
        invariant
            i <= SPECKLE_COUNT,
            speckle_inputs_ok(seed, cols as int, rows as int),
            seed == minute_seed,
            total == board_total(cols as int, rows as int),
            1 <= total <= i32::MAX,
            picks@.map_values(|p: (i32, i32)| (p.0 as int, p.1 as int)) == speckle_picks(
                seed,
                cols as int,
                rows as int,
                i as nat,
            ),
        decreases SPECKLE_COUNT - i,
    {
        let ghost earlier = picks@.map_values(|p: (i32, i32)| (p.0 as int, p.1 as int));
        let v: i64 = minute_seed as i64 * 997 + i as i64 * 379;
        let a: u64 = if v < 0 {
            (-v) as u64
        } else {
            v as u64
        };
        let mut idx: i64 = (a % total as u64) as i64;
        assert(idx == probe_start(seed, i as int, total as int));
        let mut k: i64 = 0;
        let ghost start = idx as int;
        while k < total as i64
            invariant_except_break
                0 <= k <= total,
                0 <= idx < total,
                picks@.map_values(|p: (i32, i32)| (p.0 as int, p.1 as int)) == earlier,
                probe(earlier, start, total as int, cols as int, total as nat) == probe(
                    earlier,
                    idx as int,
                    total as int,
                    cols as int,
                    (total - k) as nat,
                ),
            invariant
                1 <= total <= i32::MAX,
                cols != 0,
            ensures
                picks@.map_values(|p: (i32, i32)| (p.0 as int, p.1 as int)) == match probe(
                    earlier,
                    start,
                    total as int,
                    cols as int,
                    total as nat,
                ) {
                    Some(c) => earlier.push(c),
                    None => earlier,
                },
            decreases total - k,
        {
            let cell = cell_at(idx, cols as i64);
            if is_even(cell.0 + cell.1) && !taken(&picks, cell) {
                picks.push((cell.0 as i32, cell.1 as i32));
                assert(picks@.map_values(|p: (i32, i32)| (p.0 as int, p.1 as int)) =~= earlier.push(
                    (cell.0 as int, cell.1 as int),
                ));
                break;
            }
            idx = (idx + 1) % total as i64;
            k = k + 1;
        }
        i = i + 1;
    }
    picks
}

} // verus!

verus! {

/// A cell that a probe may find: the cell of some index on the board.
pub open spec fn on_board(cell: (int, int), cols: int, total: int) -> bool {
    exists|idx: int| 0 <= idx < total && cell == #[trigger] cell_of(idx, cols)
}

proof fn lemma_probe_found(
    picks: Seq<(int, int)>,
    idx: int,
    total: int,
    cols: int,
    k: nat,
)
    requires
        0 <= idx < total,
        cols != 0,
    ensures
        probe(picks, idx, total, cols, k) matches Some(c) ==> is_free(picks, c) && on_board(
            c,
            cols,
            total,
        ),
    decreases k,
{
    if k > 0 && !is_free(picks, cell_of(idx, cols)) {
        lemma_probe_found(picks, (idx + 1) % total, total, cols, (k - 1) as nat);
    }
}

/// The speckles: at most one per probe, all different, all on the even
/// checkerboard colour, and all on the board.
pub proof fn lemma_speckle_picks(seed: int, cols: int, rows: int, n: nat)
    requires
        cols != 0,
    ensures
        ({
            let p = speckle_picks(seed, cols, rows, n);
            &&& p.len() <= n
            &&& forall|i: int, j: int| 0 <= i < j < p.len() ==> p[i] != p[j]
            &&& forall|i: int| 0 <= i < p.len() ==> ((#[trigger] p[i]).0 + p[i].1) % 2 == 0
            &&& forall|i: int| 0 <= i < p.len() ==> on_board(#[trigger] p[i], cols, board_total(cols, rows))
        }),
    decreases n,
{
    if n > 0 {
        lemma_speckle_picks(seed, cols, rows, (n - 1) as nat);
        let earlier = speckle_picks(seed, cols, rows, (n - 1) as nat);
        let total = board_total(cols, rows);
        let start = probe_start(seed, n - 1, total);
        lemma_probe_found(earlier, start, total, cols, total as nat);
        match probe(earlier, start, total, cols, total as nat) {
            Some(c) => {
                let p = earlier.push(c);
                assert forall|i: int, j: int| 0 <= i < j < p.len() implies p[i] != p[j] by {
                    if j == p.len() - 1 {
                        assert(p[i] == earlier[i]);
                        assert(earlier.contains(earlier[i]));
                    }
                }
                assert forall|i: int| 0 <= i < p.len() implies on_board(
                    #[trigger] p[i],
                    cols,
                    total,
                ) by {
                    if i < earlier.len() {
                        assert(p[i] == earlier[i]);
                    }
                }
            },
            None => {},
        }
    }
}

/// On a board of at least one cell, an on-board cell has its row and column
/// inside the board.
pub proof fn lemma_on_board_in_grid(cell: (int, int), cols: int, rows: int)
    requires
        cols >= 1,
        rows >= 1,
        on_board(cell, cols, board_total(cols, rows)),
    ensures
        0 <= cell.0 < rows,
        0 <= cell.1 < cols,
{
    let idx = choose|idx: int|
        0 <= idx < board_total(cols, rows) && cell == #[trigger] cell_of(idx, cols);
    assert(cols * rows >= 1) by (nonlinear_arith)
        requires
            cols >= 1,
            rows >= 1,
    ;
    assert(0 <= idx / cols < rows) by (nonlinear_arith)
        requires
            0 <= idx < cols * rows,
            cols >= 1,
    ;
}

/// Of the cells at indices `2m` and `2m + 1`, the one on the even colour.
spec fn even_of_pair(m: int, cols: int) -> int {
    if (cell_of(2 * m, cols).0 + cell_of(2 * m, cols).1) % 2 == 0 {
        2 * m
    } else {
        2 * m + 1
    }
}

proof fn lemma_pair_has_even(m: int, cols: int)
    requires
        cols > 0,
        m >= 0,
    ensures
        (cell_of(even_of_pair(m, cols), cols).0 + cell_of(even_of_pair(m, cols), cols).1) % 2
            == 0,
{
    let i = 2 * m;
    let q = i / cols;
    let r = i % cols;
    vstd::arithmetic::div_mod::lemma_fundamental_div_mod(i, cols);
    if r + 1 < cols {
        vstd::arithmetic::div_mod::lemma_fundamental_div_mod_converse(i + 1, cols, q, r + 1);
    } else {
        assert(i + 1 == (q + 1) * cols) by (nonlinear_arith)
            requires
                i == cols * q + r,
                r == cols - 1,
        ;
        vstd::arithmetic::div_mod::lemma_fundamental_div_mod_converse(i + 1, cols, q + 1, 0);
        assert(cols % 2 == 1) by (nonlinear_arith)
            requires
                i + 1 == (q + 1) * cols,
                i == 2 * m,
        {
            if cols % 2 == 0 {
                assert((q + 1) * cols == 2 * ((q + 1) * (cols / 2)));
            }
        }
    }
}

/// A probe over `k` cells from `idx` finds a free cell when one of them,
/// `j` steps on, is free.
proof fn lemma_probe_complete(
    picks: Seq<(int, int)>,
    idx: int,
    total: int,
    cols: int,
    k: nat,
    j: int,
)
    requires
        0 <= idx < total,
        0 <= j < k <= total,
        is_free(picks, cell_of((idx + j) % total, cols)),
    ensures
        probe(picks, idx, total, cols, k) is Some,
    decreases k,
{
    vstd::arithmetic::div_mod::lemma_fundamental_div_mod_converse(idx, total, 0, idx);
    if !is_free(picks, cell_of(idx, cols)) {
        assert(j != 0);
        let next = (idx + 1) % total;
        if idx + 1 < total {
            vstd::arithmetic::div_mod::lemma_fundamental_div_mod_converse(idx + 1, total, 0, idx + 1);
        } else {
            vstd::arithmetic::div_mod::lemma_fundamental_div_mod_converse(idx + 1, total, 1, 0);
            if idx + j < 2 * total {
                vstd::arithmetic::div_mod::lemma_fundamental_div_mod_converse(
                    idx + j,
                    total,
                    1,
                    j - 1,
                );
                vstd::arithmetic::div_mod::lemma_fundamental_div_mod_converse(j - 1, total, 0, j - 1);
            }
        }
        lemma_probe_complete(picks, next, total, cols, (k - 1) as nat, j - 1);
    }
}

/// On a board of at least 18 cells, fewer than nine taken cells leave an
/// even-coloured cell free.
proof fn lemma_free_cell(picks: Seq<(int, int)>, cols: int, total: int) -> (t: int)
    requires
        cols > 0,
        total >= 18,
        picks.len() < 9,
    ensures
        0 <= t < total,
        is_free(picks, cell_of(t, cols)),
{
    let w = Seq::new(9, |m: int| cell_of(even_of_pair(m, cols), cols));
    assert forall|a: int, b: int| 0 <= a < b < 9 implies w[a] != w[b] by {
        let ia = even_of_pair(a, cols);
        let ib = even_of_pair(b, cols);
        vstd::arithmetic::div_mod::lemma_fundamental_div_mod(ia, cols);
        vstd::arithmetic::div_mod::lemma_fundamental_div_mod(ib, cols);
        assert(ia < ib);
    }
    assert(w.no_duplicates());
    w.unique_seq_to_set();
    picks.lemma_cardinality_of_set();
    vstd::seq_lib::seq_to_set_is_finite(picks);
    if forall|m: int| 0 <= m < 9 ==> picks.contains(#[trigger] w[m]) {
        assert(w.to_set().subset_of(picks.to_set()));
        vstd::set_lib::lemma_len_subset(w.to_set(), picks.to_set());
        assert(false);
    }
    let m = choose|m: int| 0 <= m < 9 && !picks.contains(#[trigger] w[m]);
    lemma_pair_has_even(m, cols);
    even_of_pair(m, cols)
}

/// On a board of at least 18 cells all nine probes find a speckle.
pub proof fn lemma_nine_speckles(seed: int, cols: int, rows: int, n: nat)
    requires
        cols > 0,
        rows > 0,
        cols * rows >= 18,
        n <= 9,
    ensures
        speckle_picks(seed, cols, rows, n).len() == n,
    decreases n,
{
    if n > 0 {
        lemma_nine_speckles(seed, cols, rows, (n - 1) as nat);
        let earlier = speckle_picks(seed, cols, rows, (n - 1) as nat);
        let total = board_total(cols, rows);
        let start = probe_start(seed, n - 1, total);
        let t = lemma_free_cell(earlier, cols, total);
        let j = if t >= start {
            t - start
        } else {
            t - start + total
        };
        if t >= start {
            vstd::arithmetic::div_mod::lemma_fundamental_div_mod_converse(start + j, total, 0, t);
        } else {
            vstd::arithmetic::div_mod::lemma_fundamental_div_mod_converse(start + j, total, 1, t);
        }
        lemma_probe_complete(earlier, start, total, cols, total as nat, j);
    }
}

} // verus!
