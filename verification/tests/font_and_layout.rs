use commit_clock::glyph::{
    char_columns, glyph_bounds, glyph_pattern, text_cells_of, text_width_columns,
};

fn pattern_rows(rows: [u8; 7]) -> Vec<String> {
    rows.iter()
        .map(|r| (0..5).map(|c| if (r >> (4 - c)) & 1 == 1 { '#' } else { '.' }).collect())
        .collect()
}

#[test]
fn font_glyphs_are_inked_and_distinct() {
    let font: Vec<char> = ('0'..='9').chain('A'..='Z').chain(std::iter::once(':')).collect();
    assert_eq!(font.len(), 37);
    for a in font.iter() {
        assert!(glyph_bounds(&glyph_pattern(*a)).is_some());
        for b in font.iter() {
            if a != b {
                assert_ne!(glyph_pattern(*a), glyph_pattern(*b));
            }
        }
    }
}

#[test]
fn digit_zero_glyph() {
    assert_eq!(
        pattern_rows(glyph_pattern('0')),
        vec![".###.", "#...#", "#..##", "#.#.#", "##..#", "#...#", ".###."]
    );
}

#[test]
fn letter_q_glyph() {
    assert_eq!(
        pattern_rows(glyph_pattern('Q')),
        vec![".###.", "#...#", "#...#", "#...#", "#.#.#", "#..#.", ".##.#"]
    );
}

#[test]
fn unknown_characters_are_blank() {
    assert_eq!(glyph_pattern('a'), [0; 7]);
    assert_eq!(glyph_pattern(' '), [0; 7]);
    assert_eq!(glyph_pattern('?'), [0; 7]);
}

#[test]
fn bounds_of_glyphs() {
    assert_eq!(glyph_bounds(&glyph_pattern(':')), Some((1, 1)));
    assert_eq!(glyph_bounds(&glyph_pattern('1')), Some((1, 3)));
    assert_eq!(glyph_bounds(&glyph_pattern('M')), Some((0, 4)));
    assert_eq!(glyph_bounds(&glyph_pattern(' ')), None);
}

#[test]
fn character_widths() {
    assert_eq!(char_columns(':'), 1);
    assert_eq!(char_columns('1'), 3);
    assert_eq!(char_columns('W'), 5);
    assert_eq!(char_columns(' '), 3);
}

#[test]
fn text_widths() {
    assert_eq!(text_width_columns("12:00"), 23);
    assert_eq!(text_width_columns("2024"), 23);
    assert_eq!(text_width_columns("A B"), 15);
    assert_eq!(text_width_columns(""), 0);
}

#[test]
fn widths_add_up_over_concatenation() {
    let a = "07MAR";
    let b = "12:30";
    let ab = format!("{}{}", a, b);
    assert_eq!(text_width_columns(&ab), text_width_columns(a) + 1 + text_width_columns(b));
}

#[test]
fn cells_of_one() {
    let cells = text_cells_of("1");
    assert_eq!(cells.len(), 10);
    assert_eq!(&cells[..3], &[(1, 0), (0, 1), (1, 1)]);
}

#[test]
fn cells_of_colon() {
    assert_eq!(text_cells_of(":"), vec![(0, 1), (0, 2), (0, 4), (0, 5)]);
}

#[test]
fn cells_lie_inside_the_measured_width() {
    for s in ["12:34:56", "07MAR", "2024", "AM PM", "W"] {
        let width = text_width_columns(s);
        for (col, row) in text_cells_of(s) {
            assert!(col < width, "{} {} {}", s, col, width);
            assert!(row < 7);
        }
    }
}

#[test]
fn one_cell_per_lit_glyph_cell() {
    for text in ["", " ", "12:34", "HELLO WORLD", "A:B", "x?"] {
        let ink: u32 = text
            .chars()
            .map(|c| glyph_pattern(c).iter().map(|r| r.count_ones()).sum::<u32>())
            .sum();
        assert_eq!(text_cells_of(text).len() as u32, ink);
    }
}
