//! The 5x7 pixel font and the layout of text on the clock's pixel grid.
//!
//! A glyph is seven rows of five cells; row `r` is a byte whose bit `4 - c`
//! tells whether cell `c` (counted from the left) is lit.  Text is laid out
//! in grid columns: each glyph is as wide as its lit columns, a glyph with no
//! lit cell (the space, and every character the font lacks) is three columns
//! wide, and one empty column separates neighbouring characters.

use vstd::prelude::*;

verus! {

/// Number of rows of a glyph.
pub const GLYPH_ROWS: usize = 7;

/// Number of cells in a glyph row.
pub const GLYPH_COLS: usize = 5;

/// Width in grid columns of a character without lit cells.
pub const SPACE_COLUMNS: u64 = 3;

/// The rows of the glyph drawn for `ch`.
pub open spec fn glyph_rows(ch: char) -> Seq<u8> {
    match ch {
        '0' => seq![0b01110u8, 0b10001u8, 0b10011u8, 0b10101u8, 0b11001u8, 0b10001u8, 0b01110u8],
        '1' => seq![0b00100u8, 0b01100u8, 0b00100u8, 0b00100u8, 0b00100u8, 0b00100u8, 0b01110u8],
        '2' => seq![0b01110u8, 0b10001u8, 0b00001u8, 0b00010u8, 0b00100u8, 0b01000u8, 0b11111u8],
        '3' => seq![0b01110u8, 0b10001u8, 0b00001u8, 0b00110u8, 0b00001u8, 0b10001u8, 0b01110u8],
        '4' => seq![0b00010u8, 0b00110u8, 0b01010u8, 0b10010u8, 0b11111u8, 0b00010u8, 0b00010u8],
        '5' => seq![0b11111u8, 0b10000u8, 0b11110u8, 0b00001u8, 0b00001u8, 0b10001u8, 0b01110u8],
        '6' => seq![0b01110u8, 0b10001u8, 0b10000u8, 0b11110u8, 0b10001u8, 0b10001u8, 0b01110u8],
        '7' => seq![0b11111u8, 0b00001u8, 0b00010u8, 0b00100u8, 0b01000u8, 0b01000u8, 0b01000u8],
        '8' => seq![0b01110u8, 0b10001u8, 0b10001u8, 0b01110u8, 0b10001u8, 0b10001u8, 0b01110u8],
        '9' => seq![0b01110u8, 0b10001u8, 0b10001u8, 0b01111u8, 0b00001u8, 0b10001u8, 0b01110u8],
        ':' => seq![0b00000u8, 0b01000u8, 0b01000u8, 0b00000u8, 0b01000u8, 0b01000u8, 0b00000u8],
        'A' => seq![0b01110u8, 0b10001u8, 0b10001u8, 0b11111u8, 0b10001u8, 0b10001u8, 0b10001u8],
        'B' => seq![0b11110u8, 0b10001u8, 0b10001u8, 0b11110u8, 0b10001u8, 0b10001u8, 0b11110u8],
        'C' => seq![0b01110u8, 0b10001u8, 0b10000u8, 0b10000u8, 0b10000u8, 0b10001u8, 0b01110u8],
        'D' => seq![0b11110u8, 0b10001u8, 0b10001u8, 0b10001u8, 0b10001u8, 0b10001u8, 0b11110u8],
        'E' => seq![0b11111u8, 0b10000u8, 0b10000u8, 0b11110u8, 0b10000u8, 0b10000u8, 0b11111u8],
        'F' => seq![0b11111u8, 0b10000u8, 0b10000u8, 0b11110u8, 0b10000u8, 0b10000u8, 0b10000u8],
        'G' => seq![0b01110u8, 0b10001u8, 0b10000u8, 0b10111u8, 0b10001u8, 0b10001u8, 0b01110u8],
        'H' => seq![0b10001u8, 0b10001u8, 0b10001u8, 0b11111u8, 0b10001u8, 0b10001u8, 0b10001u8],
        'I' => seq![0b11111u8, 0b00100u8, 0b00100u8, 0b00100u8, 0b00100u8, 0b00100u8, 0b11111u8],
        'J' => seq![0b00111u8, 0b00010u8, 0b00010u8, 0b00010u8, 0b00010u8, 0b10010u8, 0b01100u8],
        'K' => seq![0b10001u8, 0b10010u8, 0b10100u8, 0b11000u8, 0b10100u8, 0b10010u8, 0b10001u8],
        'L' => seq![0b10000u8, 0b10000u8, 0b10000u8, 0b10000u8, 0b10000u8, 0b10000u8, 0b11111u8],
        'M' => seq![0b10001u8, 0b11011u8, 0b10101u8, 0b10001u8, 0b10001u8, 0b10001u8, 0b10001u8],
        'N' => seq![0b10001u8, 0b11001u8, 0b10101u8, 0b10011u8, 0b10001u8, 0b10001u8, 0b10001u8],
        'O' => seq![0b01110u8, 0b10001u8, 0b10001u8, 0b10001u8, 0b10001u8, 0b10001u8, 0b01110u8],
        'P' => seq![0b11110u8, 0b10001u8, 0b10001u8, 0b11110u8, 0b10000u8, 0b10000u8, 0b10000u8],
        'Q' => seq![0b01110u8, 0b10001u8, 0b10001u8, 0b10001u8, 0b10101u8, 0b10010u8, 0b01101u8],
        'R' => seq![0b11110u8, 0b10001u8, 0b10001u8, 0b11110u8, 0b10100u8, 0b10010u8, 0b10001u8],
        'S' => seq![0b01110u8, 0b10000u8, 0b10000u8, 0b01110u8, 0b00001u8, 0b00001u8, 0b11100u8],
        'T' => seq![0b11111u8, 0b00100u8, 0b00100u8, 0b00100u8, 0b00100u8, 0b00100u8, 0b00100u8],
        'U' => seq![0b10001u8, 0b10001u8, 0b10001u8, 0b10001u8, 0b10001u8, 0b10001u8, 0b01110u8],
        'V' => seq![0b10001u8, 0b10001u8, 0b10001u8, 0b10001u8, 0b10001u8, 0b01010u8, 0b00100u8],
        'W' => seq![0b10001u8, 0b10001u8, 0b10001u8, 0b10101u8, 0b10101u8, 0b11011u8, 0b10001u8],
        'X' => seq![0b10001u8, 0b01010u8, 0b00100u8, 0b00100u8, 0b00100u8, 0b01010u8, 0b10001u8],
        'Y' => seq![0b10001u8, 0b10001u8, 0b01010u8, 0b00100u8, 0b00100u8, 0b00100u8, 0b00100u8],
        'Z' => seq![0b11111u8, 0b00001u8, 0b00010u8, 0b00100u8, 0b01000u8, 0b10000u8, 0b11111u8],
        _ => seq![0u8, 0u8, 0u8, 0u8, 0u8, 0u8, 0u8],
    }
}

/// The glyph drawn for `ch`; characters the font lacks get a blank glyph.
pub fn glyph_pattern(ch: char) -> (r: [u8; 7])
    ensures
        r@ == glyph_rows(ch),
{
    let r: [u8; 7] = match ch {
        '0' => [0b01110, 0b10001, 0b10011, 0b10101, 0b11001, 0b10001, 0b01110],
        '1' => [0b00100, 0b01100, 0b00100, 0b00100, 0b00100, 0b00100, 0b01110],
        '2' => [0b01110, 0b10001, 0b00001, 0b00010, 0b00100, 0b01000, 0b11111],
        '3' => [0b01110, 0b10001, 0b00001, 0b00110, 0b00001, 0b10001, 0b01110],
        '4' => [0b00010, 0b00110, 0b01010, 0b10010, 0b11111, 0b00010, 0b00010],
        '5' => [0b11111, 0b10000, 0b11110, 0b00001, 0b00001, 0b10001, 0b01110],
        '6' => [0b01110, 0b10001, 0b10000, 0b11110, 0b10001, 0b10001, 0b01110],
        '7' => [0b11111, 0b00001, 0b00010, 0b00100, 0b01000, 0b01000, 0b01000],
        '8' => [0b01110, 0b10001, 0b10001, 0b01110, 0b10001, 0b10001, 0b01110],
        '9' => [0b01110, 0b10001, 0b10001, 0b01111, 0b00001, 0b10001, 0b01110],
        ':' => [0b00000, 0b01000, 0b01000, 0b00000, 0b01000, 0b01000, 0b00000],
        'A' => [0b01110, 0b10001, 0b10001, 0b11111, 0b10001, 0b10001, 0b10001],
        'B' => [0b11110, 0b10001, 0b10001, 0b11110, 0b10001, 0b10001, 0b11110],
        'C' => [0b01110, 0b10001, 0b10000, 0b10000, 0b10000, 0b10001, 0b01110],
        'D' => [0b11110, 0b10001, 0b10001, 0b10001, 0b10001, 0b10001, 0b11110],
        'E' => [0b11111, 0b10000, 0b10000, 0b11110, 0b10000, 0b10000, 0b11111],
        'F' => [0b11111, 0b10000, 0b10000, 0b11110, 0b10000, 0b10000, 0b10000],
        'G' => [0b01110, 0b10001, 0b10000, 0b10111, 0b10001, 0b10001, 0b01110],
        'H' => [0b10001, 0b10001, 0b10001, 0b11111, 0b10001, 0b10001, 0b10001],
        'I' => [0b11111, 0b00100, 0b00100, 0b00100, 0b00100, 0b00100, 0b11111],
        'J' => [0b00111, 0b00010, 0b00010, 0b00010, 0b00010, 0b10010, 0b01100],
        'K' => [0b10001, 0b10010, 0b10100, 0b11000, 0b10100, 0b10010, 0b10001],
        'L' => [0b10000, 0b10000, 0b10000, 0b10000, 0b10000, 0b10000, 0b11111],
        'M' => [0b10001, 0b11011, 0b10101, 0b10001, 0b10001, 0b10001, 0b10001],
        'N' => [0b10001, 0b11001, 0b10101, 0b10011, 0b10001, 0b10001, 0b10001],
        'O' => [0b01110, 0b10001, 0b10001, 0b10001, 0b10001, 0b10001, 0b01110],
        'P' => [0b11110, 0b10001, 0b10001, 0b11110, 0b10000, 0b10000, 0b10000],
        'Q' => [0b01110, 0b10001, 0b10001, 0b10001, 0b10101, 0b10010, 0b01101],
        'R' => [0b11110, 0b10001, 0b10001, 0b11110, 0b10100, 0b10010, 0b10001],
        'S' => [0b01110, 0b10000, 0b10000, 0b01110, 0b00001, 0b00001, 0b11100],
        'T' => [0b11111, 0b00100, 0b00100, 0b00100, 0b00100, 0b00100, 0b00100],
        'U' => [0b10001, 0b10001, 0b10001, 0b10001, 0b10001, 0b10001, 0b01110],
        'V' => [0b10001, 0b10001, 0b10001, 0b10001, 0b10001, 0b01010, 0b00100],
        'W' => [0b10001, 0b10001, 0b10001, 0b10101, 0b10101, 0b11011, 0b10001],
        'X' => [0b10001, 0b01010, 0b00100, 0b00100, 0b00100, 0b01010, 0b10001],
        'Y' => [0b10001, 0b10001, 0b01010, 0b00100, 0b00100, 0b00100, 0b00100],
        'Z' => [0b11111, 0b00001, 0b00010, 0b00100, 0b01000, 0b10000, 0b11111],
        _ => [0, 0, 0, 0, 0, 0, 0],
    };
    assert(r@ =~= glyph_rows(ch));
    r
}

/// Cell `col` of a row is lit.
pub open spec fn lit(row: u8, col: int) -> bool {
    0 <= col < 5 && (row >> ((4 - col) as u8)) & 1u8 == 1u8
}

/// Whether cell `col` of `row` is lit.
pub fn cell_lit(row: u8, col: usize) -> (r: bool)
    requires
        col < 5,
    ensures
        r == lit(row, col as int),
{
    (row >> ((4 - col) as u8)) & 1u8 == 1u8
}

/// Some row of the glyph lights column `c`.
pub open spec fn col_lit(rows: Seq<u8>, c: int) -> bool {
    exists|r: int| 0 <= r < 7 && #[trigger] lit(rows[r], c)
}

/// Whether some row of the glyph lights column `c`.
pub fn column_has_ink(rows: &[u8; 7], c: usize) -> (r: bool)
    requires
        c < 5,
    ensures
        r == col_lit(rows@, c as int),
{
    let mut r: usize = 0;
    while r < 7
        invariant
            r <= 7,
            c < 5,
            forall|k: int| 0 <= k < r ==> !#[trigger] lit(rows@[k], c as int),
        decreases 7 - r,
    {
        if cell_lit(rows[r], c) {
            return true;
        }
        r = r + 1;
    }
    false
}

/// The first lit column at or after `c` (5 when there is none).
pub open spec fn first_ink(rows: Seq<u8>, c: int) -> int
    decreases 5 - c,
{
    if c >= 5 {
        5
    } else if col_lit(rows, c) {
        c
    } else {
        first_ink(rows, c + 1)
    }
}

/// The last lit column at or before `c` (-1 when there is none).
pub open spec fn last_ink(rows: Seq<u8>, c: int) -> int
    decreases c + 1,
{
    if c < 0 {
        -1
    } else if col_lit(rows, c) {
        c
    } else {
        last_ink(rows, c - 1)
    }
}

/// The leftmost and rightmost lit columns of a glyph, if any is lit.
pub open spec fn ink_bounds(rows: Seq<u8>) -> Option<(int, int)> {
    if first_ink(rows, 0) < 5 {
        Some((first_ink(rows, 0), last_ink(rows, 4)))
    } else {
        None
    }
}

/// What `first_ink` finds.
pub proof fn lemma_first_ink(rows: Seq<u8>, c: int)
    requires
        0 <= c <= 5,
    ensures
        c <= first_ink(rows, c) <= 5,
        first_ink(rows, c) < 5 ==> col_lit(rows, first_ink(rows, c)),
        forall|d: int| c <= d < first_ink(rows, c) ==> !#[trigger] col_lit(rows, d),
    decreases 5 - c,
{
    if c < 5 && !col_lit(rows, c) {
        lemma_first_ink(rows, c + 1);
    }
}

/// What `last_ink` finds.
pub proof fn lemma_last_ink(rows: Seq<u8>, c: int)
    requires
        -1 <= c <= 4,
    ensures
        -1 <= last_ink(rows, c) <= c,
        last_ink(rows, c) >= 0 ==> col_lit(rows, last_ink(rows, c)),
        forall|d: int| last_ink(rows, c) < d <= c ==> !#[trigger] col_lit(rows, d),
    decreases c + 1,
{
    if c >= 0 && !col_lit(rows, c) {
        lemma_last_ink(rows, c - 1);
    }
}

/// The ink bounds are the extreme lit columns: `None` exactly when no cell
/// is lit, and otherwise every lit column lies between the two bounds, which
/// are lit themselves.
pub proof fn lemma_ink_bounds(rows: Seq<u8>)
    ensures
        ink_bounds(rows) is None <==> forall|c: int| !#[trigger] col_lit(rows, c),
        ink_bounds(rows) matches Some((a, b)) ==> {
            &&& 0 <= a <= b < 5
            &&& col_lit(rows, a)
            &&& col_lit(rows, b)
            &&& forall|c: int| #[trigger] col_lit(rows, c) ==> a <= c <= b
        },
{
    lemma_first_ink(rows, 0);
    lemma_last_ink(rows, 4);
    assert forall|c: int| #[trigger] col_lit(rows, c) implies 0 <= c < 5 && first_ink(rows, 0)
        <= c <= last_ink(rows, 4) by {
        let r = choose|r: int| 0 <= r < 7 && #[trigger] lit(rows[r], c);
        assert(lit(rows[r], c));
    }
}

/// The leftmost and rightmost lit columns of `glyph`, or `None` when no
/// cell is lit.
pub fn glyph_bounds(glyph: &[u8; 7]) -> (r: Option<(usize, usize)>)
    ensures
        match r {
            None => ink_bounds(glyph@) is None,
            Some((a, b)) => ink_bounds(glyph@) == Some((a as int, b as int)),
        },
{
    let mut a: usize = 0;
    while a < 5 && !column_has_ink(glyph, a)
        invariant
            a <= 5,
            first_ink(glyph@, 0) == first_ink(glyph@, a as int),
        decreases 5 - a,
    {
        a = a + 1;
    }
    if a == 5 {
        return None;
    }
    let mut b: usize = 4;
    while !column_has_ink(glyph, b)
        invariant
            a <= b <= 4,
            col_lit(glyph@, a as int),
            last_ink(glyph@, 4) == last_ink(glyph@, b as int),
        decreases b,
    {
        b = b - 1;
    }
    Some((a, b))
}

// ---------------------------------------------------------------------------
// Text layout
// ---------------------------------------------------------------------------

/// Width in grid columns of the glyph drawn for `ch`.
pub open spec fn glyph_columns(ch: char) -> nat {
    match ink_bounds(glyph_rows(ch)) {
        Some((a, b)) => (b - a + 1) as nat,
        None => 3,
    }
}

/// Grid columns that the characters of `s` take, each followed by one
/// separating column.
pub open spec fn advance(s: Seq<char>) -> nat
    decreases s.len(),
{
    if s.len() == 0 {
        0
    } else {
        advance(s.drop_last()) + glyph_columns(s.last()) + 1
    }
}

/// Width of `s` in grid columns: the characters with one separating column
/// between neighbours, and no width at all for the empty text.
pub open spec fn text_columns(s: Seq<char>) -> nat {
    if s.len() == 0 {
        0
    } else {
        (advance(s) - 1) as nat
    }
}

/// The lit cells of columns `[0, c)` of one glyph row, as (column, row)
/// grid positions, the row's first cell placed at column `x0`.
pub open spec fn row_cells(bits: u8, r: int, x0: int, c: int) -> Seq<(int, int)>
    decreases c,
{
    if c <= 0 {
        seq![]
    } else {
        row_cells(bits, r, x0, c - 1) + if lit(bits, c - 1) {
            seq![(x0 + c - 1, r)]
        } else {
            seq![]
        }
    }
}

/// The lit cells of rows `[0, r)` of a glyph placed at column `x0`, row by
/// row, left to right.
pub open spec fn glyph_cells(rows: Seq<u8>, x0: int, r: int) -> Seq<(int, int)>
    decreases r,
{
    if r <= 0 {
        seq![]
    } else {
        glyph_cells(rows, x0, r - 1) + row_cells(rows[r - 1], r - 1, x0, 5)
    }
}

/// The lit grid cells of text `s`, character by character: each glyph
/// starts at the column its predecessors advanced to, shifted left by its
/// own first lit column.
pub open spec fn text_cells(s: Seq<char>) -> Seq<(int, int)>
    decreases s.len(),
{
    if s.len() == 0 {
        seq![]
    } else {
        let rows = glyph_rows(s.last());
        text_cells(s.drop_last()) + match ink_bounds(rows) {
            Some((a, b)) => glyph_cells(rows, advance(s.drop_last()) - a, 7),
            None => seq![],
        }
    }
}

/// Number of lit cells among columns `[0, c)` of a glyph row.
pub open spec fn row_ink(bits: u8, c: int) -> nat
    decreases c,
{
    if c <= 0 {
        0
    } else {
        row_ink(bits, c - 1) + if lit(bits, c - 1) {
            1nat
        } else {
            0nat
        }
    }
}

/// Number of lit cells in rows `[0, r)` of a glyph.
pub open spec fn glyph_ink(rows: Seq<u8>, r: int) -> nat
    decreases r,
{
    if r <= 0 {
        0
    } else {
        glyph_ink(rows, r - 1) + row_ink(rows[r - 1], 5)
    }
}

/// Number of lit cells in the glyphs of the characters of `s`.
pub open spec fn text_ink(s: Seq<char>) -> nat
    decreases s.len(),
{
    if s.len() == 0 {
        0
    } else {
        text_ink(s.drop_last()) + glyph_ink(glyph_rows(s.last()), 7)
    }
}

proof fn lemma_row_cells_len(bits: u8, r: int, x0: int, c: int)
    ensures
        row_cells(bits, r, x0, c).len() == row_ink(bits, c),
    decreases c,
{
    if c > 0 {
        lemma_row_cells_len(bits, r, x0, c - 1);
    }
}

proof fn lemma_glyph_cells_len(rows: Seq<u8>, x0: int, r: int)
    ensures
        glyph_cells(rows, x0, r).len() == glyph_ink(rows, r),
    decreases r,
{
    if r > 0 {
        lemma_glyph_cells_len(rows, x0, r - 1);
        lemma_row_cells_len(rows[r - 1], r - 1, x0, 5);
    }
}

proof fn lemma_row_ink_blank(bits: u8, c: int)
    requires
        c <= 5,
        forall|d: int| 0 <= d < 5 ==> !#[trigger] lit(bits, d),
    ensures
        row_ink(bits, c) == 0,
    decreases c,
{
    if c > 0 {
        lemma_row_ink_blank(bits, c - 1);
    }
}

proof fn lemma_glyph_ink_blank(rows: Seq<u8>, r: int)
    requires
        r <= 7,
        forall|c: int| !#[trigger] col_lit(rows, c),
    ensures
        glyph_ink(rows, r) == 0,
    decreases r,
{
    if r > 0 {
        lemma_glyph_ink_blank(rows, r - 1);
        assert forall|d: int| 0 <= d < 5 implies !#[trigger] lit(rows[r - 1], d) by {
            assert(!col_lit(rows, d));
        }
        lemma_row_ink_blank(rows[r - 1], 5);
    }
}

/// Text paints one cell for each lit cell of its characters' glyphs.
pub proof fn lemma_text_cells_count(s: Seq<char>)
    ensures
        text_cells(s).len() == text_ink(s),
    decreases s.len(),
{
    if s.len() > 0 {
        lemma_text_cells_count(s.drop_last());
        let rows = glyph_rows(s.last());
        lemma_ink_bounds(rows);
        match ink_bounds(rows) {
            Some((a, b)) => lemma_glyph_cells_len(rows, advance(s.drop_last()) - a, 7),
            None => lemma_glyph_ink_blank(rows, 7),
        }
    }
}

/// One character never advances by more than six columns.
pub proof fn lemma_advance_bound(s: Seq<char>)
    ensures
        advance(s) <= 6 * s.len(),
        s.len() > 0 ==> advance(s) >= 2,
    decreases s.len(),
{
    if s.len() > 0 {
        lemma_advance_bound(s.drop_last());
        lemma_ink_bounds(glyph_rows(s.last()));
    }
}

/// Width in grid columns of one character's glyph.
pub fn char_columns(ch: char) -> (r: u64)
    ensures
        r == glyph_columns(ch),
        1 <= r <= 5,
{
    let glyph = glyph_pattern(ch);
    proof {
        lemma_ink_bounds(glyph@);
    }
    match glyph_bounds(&glyph) {
        Some((a, b)) => (b - a + 1) as u64,
        None => SPACE_COLUMNS,
    }
}

/// Width of `text` in grid columns (`measure_pixel_text` counted in grid
/// steps, since the gap between characters is one grid step).
pub fn text_width_columns(text: &str) -> (r: u64)
    requires
        6 * text@.len() <= u64::MAX,
    ensures
        r == text_columns(text@),
{
    let n = text.unicode_len();
    let mut total: u64 = 0;
    let mut i: usize = 0;
    assert(text@.take(0) =~= Seq::<char>::empty());
    while i < n
        invariant
            i <= n,
            n == text@.len(),
            6 * n <= u64::MAX,
            total == advance(text@.take(i as int)),
        decreases n - i,
    {
        proof {
            lemma_advance_bound(text@.take(i as int));
            assert(text@.take(i + 1).drop_last() =~= text@.take(i as int));
        }
        let w = char_columns(text.get_char(i));
        total = total + w + 1;
        i = i + 1;
    }
    assert(text@.take(n as int) =~= text@);
    if n == 0 {
        0
    } else {
        proof {
            lemma_advance_bound(text@);
        }
        total - 1
    }
}

/// The lit cells of `text` on the pixel grid, as (column, row) pairs in
/// grid units relative to the text's origin: the cells that
/// `draw_pixel_text` paints and `collect_glyph_rects` reports.
pub fn text_cells_of(text: &str) -> (r: Vec<(u64, u8)>)
    requires
        6 * text@.len() <= u64::MAX,
    ensures
        r@.map_values(|p: (u64, u8)| (p.0 as int, p.1 as int)) == text_cells(text@),
{
    let n = text.unicode_len();
    let mut out: Vec<(u64, u8)> = Vec::new();
    let mut cursor: u64 = 0;
    let mut i: usize = 0;
    assert(text@.take(0) =~= Seq::<char>::empty());
    assert(out@.map_values(|p: (u64, u8)| (p.0 as int, p.1 as int)) =~= Seq::<(int, int)>::empty());
    while i < n
        invariant
            i <= n,
            n == text@.len(),
            6 * n <= u64::MAX,
            cursor == advance(text@.take(i as int)),
            out@.map_values(|p: (u64, u8)| (p.0 as int, p.1 as int)) == text_cells(
                text@.take(i as int),
            ),
        decreases n - i,
    {
        let ghost pre = text@.take(i as int);
        let ghost next = text@.take(i + 1);
        proof {
            lemma_advance_bound(pre);
            assert(next.drop_last() =~= pre);
            assert(next.last() == text@[i as int]);
        }
        let ch = text.get_char(i);
        let glyph = glyph_pattern(ch);
        proof {
            lemma_ink_bounds(glyph@);
        }
        match glyph_bounds(&glyph) {
            Some((a, b)) => {
                let ghost x0 = cursor - a;
                let ghost base = out@.map_values(|p: (u64, u8)| (p.0 as int, p.1 as int));
                let mut r: usize = 0;
                while r < 7
                    invariant
                        r <= 7,
                        a <= b < 5,
                        x0 == cursor - a,
                        cursor + 6 <= u64::MAX,
                        forall|c: int| #[trigger] col_lit(glyph@, c) ==> a <= c,
                        out@.map_values(|p: (u64, u8)| (p.0 as int, p.1 as int)) == base
                            + glyph_cells(glyph@, x0, r as int),
                    decreases 7 - r,
                {
                    let mut c: usize = 0;
                    let ghost row_base = out@.map_values(|p: (u64, u8)| (p.0 as int, p.1 as int));
                    while c < 5
                        invariant
                            r < 7,
                            c <= 5,
                            a <= b < 5,
                            x0 == cursor - a,
                            cursor + 6 <= u64::MAX,
                            forall|k: int| #[trigger] col_lit(glyph@, k) ==> a <= k,
                            row_base == base + glyph_cells(glyph@, x0, r as int),
                            out@.map_values(|p: (u64, u8)| (p.0 as int, p.1 as int)) == row_base
                                + row_cells(glyph@[r as int], r as int, x0, c as int),
                        decreases 5 - c,
                    {
                        let ghost before = out@.map_values(|p: (u64, u8)| (p.0 as int, p.1 as int));
                        if cell_lit(glyph[r], c) {
                            assert(lit(glyph@[r as int], c as int));
                            assert(col_lit(glyph@, c as int));
                            out.push((cursor + (c - a) as u64, r as u8));
                            assert(out@.map_values(|p: (u64, u8)| (p.0 as int, p.1 as int))
                                =~= before.push((x0 + c, r as int)));
                        }
                        c = c + 1;
                    }
                    r = r + 1;
                }
            },
            None => {},
        }
        proof {
            assert(text_cells(next) == text_cells(pre) + match ink_bounds(glyph_rows(ch)) {
                Some((a, b)) => glyph_cells(glyph_rows(ch), advance(pre) - a, 7),
                None => seq![],
            });
        }
        let w = char_columns(ch);
        cursor = cursor + w + 1;
        i = i + 1;
    }
    assert(text@.take(n as int) =~= text@);
    out
}

} // verus!

verus! {

// ---------------------------------------------------------------------------
// Laws of the layout
// ---------------------------------------------------------------------------

proof fn lemma_row_cells_members(bits: u8, r: int, x0: int, c: int)
    requires
        0 <= c <= 5,
    ensures
        forall|i: int|
            0 <= i < row_cells(bits, r, x0, c).len() ==> {
                let p = #[trigger] row_cells(bits, r, x0, c)[i];
                &&& p.1 == r
                &&& 0 <= p.0 - x0 < c
                &&& lit(bits, p.0 - x0)
            },
    decreases c,
{
    if c > 0 {
        lemma_row_cells_members(bits, r, x0, c - 1);
        let prev = row_cells(bits, r, x0, c - 1);
        assert forall|i: int| 0 <= i < row_cells(bits, r, x0, c).len() implies {
            let p = #[trigger] row_cells(bits, r, x0, c)[i];
            &&& p.1 == r
            &&& 0 <= p.0 - x0 < c
            &&& lit(bits, p.0 - x0)
        } by {
            if i < prev.len() {
                assert(row_cells(bits, r, x0, c)[i] == prev[i]);
            }
        }
    }
}

proof fn lemma_glyph_cells_members(rows: Seq<u8>, x0: int, rr: int)
    requires
        0 <= rr <= 7,
        rows.len() == 7,
    ensures
        forall|i: int|
            0 <= i < glyph_cells(rows, x0, rr).len() ==> {
                let p = #[trigger] glyph_cells(rows, x0, rr)[i];
                &&& 0 <= p.1 < rr
                &&& col_lit(rows, p.0 - x0)
            },
    decreases rr,
{
    if rr > 0 {
        lemma_glyph_cells_members(rows, x0, rr - 1);
        lemma_row_cells_members(rows[rr - 1], rr - 1, x0, 5);
        let prev = glyph_cells(rows, x0, rr - 1);
        let row = row_cells(rows[rr - 1], rr - 1, x0, 5);
        assert forall|i: int| 0 <= i < glyph_cells(rows, x0, rr).len() implies {
            let p = #[trigger] glyph_cells(rows, x0, rr)[i];
            &&& 0 <= p.1 < rr
            &&& col_lit(rows, p.0 - x0)
        } by {
            if i < prev.len() {
                assert(glyph_cells(rows, x0, rr)[i] == prev[i]);
            } else {
                let p = row[i - prev.len()];
                assert(glyph_cells(rows, x0, rr)[i] == p);
                assert(lit(rows[rr - 1], p.0 - x0));
            }
        }
    }
}

/// Every glyph of the font is seven rows of five cells.
pub proof fn lemma_glyph_shape(ch: char)
    ensures
        glyph_rows(ch).len() == 7,
        forall|r: int| 0 <= r < 7 ==> #[trigger] glyph_rows(ch)[r] < 32,
{
}

/// The characters the font draws: digits, capital letters and the colon.
pub open spec fn in_font(ch: char) -> bool {
    ('0' <= ch <= '9') || ('A' <= ch <= 'Z') || ch == ':'
}

/// The rows of a glyph read as one number, five bits per row.
spec fn glyph_code(rows: Seq<u8>) -> int {
    rows[0] + 32 * rows[1] + 1024 * rows[2] + 32768 * rows[3] + 1048576 * rows[4] + 33554432
        * rows[5] + 1073741824 * rows[6]
}

/// The character of the font whose glyph has the given code.
spec fn code_char(code: int) -> char {
    if code == 15629733422 {
        '0'
    } else if code == 15170933124 {
        '1'
    } else if code == 33558693422 {
        '2'
    } else if code == 15604057646 {
        '3'
    } else if code == 2247698626 {
        '4'
    } else if code == 15603923487 {
        '5'
    } else if code == 15621636654 {
        '6'
    } else if code == 8866891839 {
        '7'
    } else if code == 15621113390 {
        '8'
    } else if code == 15604368942 {
        '9'
    } else if code == 276832512 {
        ':'
    } else if code == 18842895918 {
        'A'
    } else if code == 32801506878 {
        'B'
    } else if code == 15620129326 {
        'C'
    } else if code == 32801080894 {
        'D'
    } else if code == 33840644639 {
        'E'
    } else if code == 17734517279 {
        'F'
    } else if code == 15621407278 {
        'G'
    } else if code == 18842895921 {
        'H'
    } else if code == 33424543903 {
        'I'
    } else if code == 13491046471 {
        'J'
    } else if code == 18879369809 {
        'K'
    } else if code == 33840185872 {
        'L'
    } else if code == 18842441585 {
        'M'
    } else if code == 18842507057 {
        'N'
    } else if code == 15621211694 {
        'O'
    } else if code == 17734518334 {
        'P'
    } else if code == 14585218606 {
        'Q'
    } else if code == 18879563326 {
        'R'
    } else if code == 30099849742 {
        'S'
    } else if code == 4433514655 {
        'T'
    } else if code == 15621211697 {
        'U'
    } else if code == 4648912433 {
        'V'
    } else if code == 19182306865 {
        'W'
    } else if code == 18593485137 {
        'X'
    } else if code == 4433521201 {
        'Y'
    } else if code == 33831389247 {
        'Z'
    } else {
        ' '
    }
}

proof fn lemma_code_char(ch: char)
    requires
        in_font(ch),
    ensures
        code_char(glyph_code(glyph_rows(ch))) == ch,
{
    if ch == '0' {
        assert(code_char(glyph_code(glyph_rows('0'))) == '0');
    } else if ch == '1' {
        assert(code_char(glyph_code(glyph_rows('1'))) == '1');
    } else if ch == '2' {
        assert(code_char(glyph_code(glyph_rows('2'))) == '2');
    } else if ch == '3' {
        assert(code_char(glyph_code(glyph_rows('3'))) == '3');
    } else if ch == '4' {
        assert(code_char(glyph_code(glyph_rows('4'))) == '4');
    } else if ch == '5' {
        assert(code_char(glyph_code(glyph_rows('5'))) == '5');
    } else if ch == '6' {
        assert(code_char(glyph_code(glyph_rows('6'))) == '6');
    } else if ch == '7' {
        assert(code_char(glyph_code(glyph_rows('7'))) == '7');
    } else if ch == '8' {
        assert(code_char(glyph_code(glyph_rows('8'))) == '8');
    } else if ch == '9' {
        assert(code_char(glyph_code(glyph_rows('9'))) == '9');
    } else if ch == ':' {
        assert(code_char(glyph_code(glyph_rows(':'))) == ':');
    } else if ch == 'A' {
        assert(code_char(glyph_code(glyph_rows('A'))) == 'A');
    } else if ch == 'B' {
        assert(code_char(glyph_code(glyph_rows('B'))) == 'B');
    } else if ch == 'C' {
        assert(code_char(glyph_code(glyph_rows('C'))) == 'C');
    } else if ch == 'D' {
        assert(code_char(glyph_code(glyph_rows('D'))) == 'D');
    } else if ch == 'E' {
        assert(code_char(glyph_code(glyph_rows('E'))) == 'E');
    } else if ch == 'F' {
        assert(code_char(glyph_code(glyph_rows('F'))) == 'F');
    } else if ch == 'G' {
        assert(code_char(glyph_code(glyph_rows('G'))) == 'G');
    } else if ch == 'H' {
        assert(code_char(glyph_code(glyph_rows('H'))) == 'H');
    } else if ch == 'I' {
        assert(code_char(glyph_code(glyph_rows('I'))) == 'I');
    } else if ch == 'J' {
        assert(code_char(glyph_code(glyph_rows('J'))) == 'J');
    } else if ch == 'K' {
        assert(code_char(glyph_code(glyph_rows('K'))) == 'K');
    } else if ch == 'L' {
        assert(code_char(glyph_code(glyph_rows('L'))) == 'L');
    } else if ch == 'M' {
        assert(code_char(glyph_code(glyph_rows('M'))) == 'M');
    } else if ch == 'N' {
        assert(code_char(glyph_code(glyph_rows('N'))) == 'N');
    } else if ch == 'O' {
        assert(code_char(glyph_code(glyph_rows('O'))) == 'O');
    } else if ch == 'P' {
        assert(code_char(glyph_code(glyph_rows('P'))) == 'P');
    } else if ch == 'Q' {
        assert(code_char(glyph_code(glyph_rows('Q'))) == 'Q');
    } else if ch == 'R' {
        assert(code_char(glyph_code(glyph_rows('R'))) == 'R');
    } else if ch == 'S' {
        assert(code_char(glyph_code(glyph_rows('S'))) == 'S');
    } else if ch == 'T' {
        assert(code_char(glyph_code(glyph_rows('T'))) == 'T');
    } else if ch == 'U' {
        assert(code_char(glyph_code(glyph_rows('U'))) == 'U');
    } else if ch == 'V' {
        assert(code_char(glyph_code(glyph_rows('V'))) == 'V');
    } else if ch == 'W' {
        assert(code_char(glyph_code(glyph_rows('W'))) == 'W');
    } else if ch == 'X' {
        assert(code_char(glyph_code(glyph_rows('X'))) == 'X');
    } else if ch == 'Y' {
        assert(code_char(glyph_code(glyph_rows('Y'))) == 'Y');
    } else if ch == 'Z' {
        assert(code_char(glyph_code(glyph_rows('Z'))) == 'Z');
    }
}

proof fn lemma_nonzero_row_lit(row: u8)
    by (bit_vector)
    requires
        0 < row < 32,
    ensures
        (row >> 4u8) & 1u8 == 1u8 || (row >> 3u8) & 1u8 == 1u8 || (row >> 2u8) & 1u8 == 1u8 || (
        row >> 1u8) & 1u8 == 1u8 || (row >> 0u8) & 1u8 == 1u8,
{
}

/// Every character of the font has a glyph with ink, and no two characters
/// of the font share a glyph.
pub proof fn lemma_font_glyphs_distinct(a: char, b: char)
    requires
        in_font(a),
        in_font(b),
    ensures
        ink_bounds(glyph_rows(a)) is Some,
        a != b ==> glyph_rows(a) != glyph_rows(b),
{
    let rows = glyph_rows(a);
    assert(0 < rows[1] < 32);
    lemma_nonzero_row_lit(rows[1]);
    assert(lit(rows[1], 0) || lit(rows[1], 1) || lit(rows[1], 2) || lit(rows[1], 3) || lit(
        rows[1],
        4,
    ));
    if lit(rows[1], 0) {
        assert(col_lit(rows, 0));
    } else if lit(rows[1], 1) {
        assert(col_lit(rows, 1));
    } else if lit(rows[1], 2) {
        assert(col_lit(rows, 2));
    } else if lit(rows[1], 3) {
        assert(col_lit(rows, 3));
    } else {
        assert(col_lit(rows, 4));
    }
    lemma_ink_bounds(rows);
    lemma_code_char(a);
    lemma_code_char(b);
}

/// The cells that the text paints lie inside the box that measuring it
/// gives: each column is below the measured width and each row below seven.
pub proof fn lemma_text_cells_within(s: Seq<char>)
    ensures
        forall|i: int|
            0 <= i < text_cells(s).len() ==> {
                let p = #[trigger] text_cells(s)[i];
                &&& 0 <= p.0 < text_columns(s)
                &&& 0 <= p.1 < 7
            },
    decreases s.len(),
{
    if s.len() > 0 {
        let pre = s.drop_last();
        lemma_text_cells_within(pre);
        lemma_advance_bound(pre);
        let rows = glyph_rows(s.last());
        lemma_glyph_shape(s.last());
        lemma_ink_bounds(rows);
        let prev = text_cells(pre);
        match ink_bounds(rows) {
            Some((a, b)) => {
                let x0 = advance(pre) - a;
                lemma_glyph_cells_members(rows, x0, 7);
                let g = glyph_cells(rows, x0, 7);
                assert forall|i: int| 0 <= i < text_cells(s).len() implies {
                    let p = #[trigger] text_cells(s)[i];
                    &&& 0 <= p.0 < text_columns(s)
                    &&& 0 <= p.1 < 7
                } by {
                    if i < prev.len() {
                        assert(text_cells(s)[i] == prev[i]);
                    } else {
                        let p = g[i - prev.len()];
                        assert(text_cells(s)[i] == p);
                        assert(col_lit(rows, p.0 - x0));
                    }
                }
            },
            None => {
                assert forall|i: int| 0 <= i < text_cells(s).len() implies {
                    let p = #[trigger] text_cells(s)[i];
                    &&& 0 <= p.0 < text_columns(s)
                    &&& 0 <= p.1 < 7
                } by {
                    assert(text_cells(s)[i] == prev[i]);
                }
            },
        }
    }
}

/// Advancing over two texts one after the other advances over each.
pub proof fn lemma_advance_concat(a: Seq<char>, b: Seq<char>)
    ensures
        advance(a + b) == advance(a) + advance(b),
    decreases b.len(),
{
    if b.len() == 0 {
        assert(a + b =~= a);
    } else {
        lemma_advance_concat(a, b.drop_last());
        assert((a + b).drop_last() =~= a + b.drop_last());
        assert((a + b).last() == b.last());
    }
}

/// Two non-empty texts written one after the other are as wide as both,
/// plus the one separating column.
pub proof fn lemma_text_columns_concat(a: Seq<char>, b: Seq<char>)
    requires
        a.len() > 0,
        b.len() > 0,
    ensures
        text_columns(a + b) == text_columns(a) + 1 + text_columns(b),
{
    lemma_advance_concat(a, b);
    lemma_advance_bound(a);
    lemma_advance_bound(b);
}

} // verus!
