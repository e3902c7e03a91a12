use crossword_grid::{Cell, Direction, FillError, Grid, GridError, PuzError, WordList};

fn sample() -> Grid {
    Grid::from_rows(&["...#.", "...#.", ".....", ".#...", ".#..."]).unwrap()
}

#[test]
fn parses_rows() {
    let grid = sample();
    assert_eq!(grid.width(), 5);
    assert_eq!(grid.height(), 5);
    assert_eq!(grid.cell(0, 3), Cell::Black);
}

#[test]
fn rejects_ragged_rows() {
    let err = Grid::from_rows(&["...", ".."]).unwrap_err();
    assert_eq!(err, GridError::RaggedRow { row: 1, expected: 3, found: 2 });
}

#[test]
fn detects_asymmetry() {
    let symmetric = Grid::from_rows(&["#..", "...", "..#"]).unwrap();
    assert!(symmetric.has_rotational_symmetry());

    let lopsided = Grid::from_rows(&["#..", "...", "..."]).unwrap();
    assert!(!lopsided.has_rotational_symmetry());
}

#[test]
fn numbers_slots_in_reading_order() {
    let grid = Grid::from_rows(&["...", ".#.", "..."]).unwrap();
    let slots = grid.slots();
    let first = &slots[0];
    assert_eq!(first.number, 1);
    assert_eq!((first.row, first.col), (0, 0));
    assert!(slots.iter().any(|s| s.direction == Direction::Down && s.number == 1));
}

#[test]
fn skips_single_letter_stubs() {
    // A cell boxed in on three sides so the "entry" would be length 1
    // should not get its own number for that direction.
    let grid = Grid::from_rows(&["##.", "...", "..."]).unwrap();
    let slots = grid.slots();
    assert!(slots.iter().all(|s| s.len > 1));
}

#[test]
fn ipuz_puzzle_grid_marks_blacks_and_numbers() {
    let grid = Grid::from_rows(&["...", ".#.", "..."]).unwrap();
    let json = grid.to_ipuz();
    assert!(json.contains("\"dimensions\": {\"width\": 3, \"height\": 3}"));
    assert!(json.contains("[1, 0, 2]"));
    assert!(json.contains("[0, \"#\", 0]"));
    assert!(json.contains("[3, 0, 0]"));
}

#[test]
fn ipuz_solution_uses_letters_and_null_for_blanks() {
    let grid = Grid::from_rows(&["ab#", "c..", "###"]).unwrap();
    let json = grid.to_ipuz();
    assert!(json.contains("[\"A\", \"B\", \"#\"]"));
    assert!(json.contains("[\"C\", null, null]"));
    assert!(json.contains("[\"#\", \"#\", \"#\"]"));
}

#[test]
fn puz_header_has_magic_string_and_dimensions() {
    let grid = Grid::from_rows(&["cat", "ago", "tot"]).unwrap();
    let bytes = grid.to_puz().unwrap();
    assert_eq!(&bytes[0x02..0x0E], b"ACROSS&DOWN\0");
    assert_eq!(bytes[0x2C], 3); // width
    assert_eq!(bytes[0x2D], 3); // height
}

#[test]
fn puz_boards_hold_solution_and_blank_fill() {
    let grid = Grid::from_rows(&["ca#", "ago", "#ot"]).unwrap();
    let bytes = grid.to_puz().unwrap();
    let board_len = 9;
    let solution = &bytes[0x34..0x34 + board_len];
    let fill = &bytes[0x34 + board_len..0x34 + 2 * board_len];
    assert_eq!(solution, b"CA.AGO.OT");
    assert_eq!(fill, b"--.---.--");
}

#[test]
fn puz_rejects_incomplete_solution() {
    let grid = Grid::from_rows(&["..#", "...", "#.."]).unwrap();
    let err = grid.to_puz().unwrap_err();
    assert_eq!(err, PuzError::IncompleteSolution { row: 0, col: 0 });
}

#[test]
fn puz_clue_count_matches_slot_count() {
    let grid = Grid::from_rows(&["cat", "ago", "tot"]).unwrap();
    let bytes = grid.to_puz().unwrap();
    let num_clues = u16::from_le_bytes([bytes[0x2E], bytes[0x2F]]);
    assert_eq!(num_clues as usize, grid.slots().len());
}

#[test]
fn display_round_trips_through_parsing() {
    let grid = sample();
    let text = grid.to_string();
    let rows: Vec<&str> = text.lines().collect();
    let reparsed = Grid::from_rows(&rows).unwrap();
    assert_eq!(grid, reparsed);
}

#[test]
fn fills_grid_from_word_list() {
    let grid = Grid::from_rows(&["...", ".#.", "..."]).unwrap();
    let words = WordList::new(&["cat", "cab", "tin", "bun"]);
    let filled = grid.fill(&words).unwrap();
    for row in 0..filled.height() {
        for col in 0..filled.width() {
            if (row, col) == (1, 1) {
                assert_eq!(filled.cell(row, col), Cell::Black);
            } else {
                assert!(matches!(filled.cell(row, col), Cell::Filled(_)));
            }
        }
    }
}

#[test]
fn fill_respects_existing_letters() {
    let grid = Grid::from_rows(&["c..", ".#.", "..."]).unwrap();
    let words = WordList::new(&["cat", "cab", "tin", "bun"]);
    let filled = grid.fill(&words).unwrap();
    assert_eq!(filled.cell(0, 0), Cell::Filled('C'));
    assert_eq!(filled.cell(0, 1), Cell::Filled('A'));
    assert_eq!(filled.cell(0, 2), Cell::Filled('T'));
}

#[test]
fn fill_avoids_duplicate_words() {
    // The two across entries don't cross, so without a uniqueness check
    // both would happily fill in as "cat" from the same single-word list.
    let grid = Grid::from_rows(&["...", "###", "..."]).unwrap();
    let words = WordList::new(&["cat"]);
    assert_eq!(grid.fill(&words).unwrap_err(), FillError::NoSolution);
}

#[test]
fn fill_fails_without_a_matching_word() {
    let grid = Grid::from_rows(&["...", "...", "..."]).unwrap();
    let words = WordList::new(&["ab", "cd"]);
    assert_eq!(grid.fill(&words).unwrap_err(), FillError::NoSolution);
}

#[test]
fn word_list_drops_non_alphabetic_entries() {
    let words = WordList::new(&["cat", "c-t", "", "dog2"]);
    assert_eq!(words.candidates(3), ["CAT"]);
    assert!(words.candidates(4).is_empty());
}
