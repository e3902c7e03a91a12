use crossword_grid::grid::cell_for;
use crossword_grid::puz::puz_checksum;
use crossword_grid::{Cell, Direction, FillError, Grid, GridError, PuzError, Slot, WordList};

#[test]
fn rejects_empty_input() {
    assert_eq!(Grid::from_rows(&[]).unwrap_err(), GridError::Empty);
}

#[test]
fn rejects_first_bad_character_in_reading_order() {
    let err = Grid::from_rows(&["ab.", "c3!", "x?."]).unwrap_err();
    assert_eq!(err, GridError::BadChar { row: 1, col: 1, ch: '3' });
}

#[test]
fn ragged_row_reported_before_later_bad_characters() {
    let err = Grid::from_rows(&["...", "....", "?.."]).unwrap_err();
    assert_eq!(err, GridError::RaggedRow { row: 1, expected: 3, found: 4 });
}

#[test]
fn parsing_upper_cases_ascii_and_keeps_other_letters() {
    let grid = Grid::from_rows(&["aé#"]).unwrap();
    assert_eq!(grid.cell(0, 0), Cell::Filled('A'));
    assert_eq!(grid.cell(0, 1), Cell::Filled('é'));
    assert_eq!(grid.cell(0, 2), Cell::Black);
}

#[test]
fn new_grid_is_all_empty() {
    let grid = Grid::new(4, 2);
    assert_eq!(grid.width(), 4);
    assert_eq!(grid.height(), 2);
    for row in 0..2 {
        for col in 0..4 {
            assert_eq!(grid.cell(row, col), Cell::Empty);
        }
    }
}

#[test]
fn set_then_read_back() {
    let mut grid = Grid::new(3, 3);
    grid.set(1, 2, Cell::Filled('Q'));
    grid.set(0, 0, Cell::Black);
    assert_eq!(grid.cell(1, 2), Cell::Filled('Q'));
    assert_eq!(grid.cell(0, 0), Cell::Black);
    assert_eq!(grid.cell(2, 2), Cell::Empty);
    assert_eq!(grid.cell(1, 1), Cell::Empty);
}

#[test]
fn text_form_is_rows_joined_by_line_breaks() {
    let grid = Grid::from_rows(&["ab#", "c.."]).unwrap();
    assert_eq!(grid.to_string(), "AB#\nC..");
}

#[test]
fn symmetric_grid_with_center_black() {
    let grid = Grid::from_rows(&["#...", ".#..", "..#.", "...#"]).unwrap();
    assert!(grid.has_rotational_symmetry());
    let grid = Grid::from_rows(&["#...", "..#.", "..#.", "...#"]).unwrap();
    assert!(!grid.has_rotational_symmetry());
}

#[test]
fn slots_of_a_small_grid() {
    let grid = Grid::from_rows(&["...", ".#.", "..."]).unwrap();
    let expected = vec![
        Slot { number: 1, row: 0, col: 0, len: 3, direction: Direction::Across },
        Slot { number: 1, row: 0, col: 0, len: 3, direction: Direction::Down },
        Slot { number: 2, row: 0, col: 2, len: 3, direction: Direction::Down },
        Slot { number: 3, row: 2, col: 0, len: 3, direction: Direction::Across },
    ];
    assert_eq!(grid.slots(), expected);
}

#[test]
fn slot_numbers_rise_in_reading_order() {
    let grid = Grid::from_rows(&["...#.", "...#.", ".....", ".#...", ".#..."]).unwrap();
    let slots = grid.slots();
    for pair in slots.windows(2) {
        let (a, b) = (&pair[0], &pair[1]);
        assert!((a.row, a.col) <= (b.row, b.col));
        assert!(a.number <= b.number);
        assert_eq!(a.number == b.number, (a.row, a.col) == (b.row, b.col));
    }
    assert_eq!(slots.last().unwrap().number as usize, 9);
}

#[test]
fn ipuz_full_document() {
    let grid = Grid::from_rows(&["a.", "#b"]).unwrap();
    let expected = "{\n  \"version\": \"http://ipuz.org/v2\",\n  \"kind\": [\"http://ipuz.org/crossword#1\"],\n  \"dimensions\": {\"width\": 2, \"height\": 2},\n  \"puzzle\": [\n    [1, 2],\n    [\"#\", 0]\n  ],\n  \"solution\": [\n    [\"A\", null],\n    [\"#\", \"B\"]\n  ]\n}";
    assert_eq!(grid.to_ipuz(), expected);
}

#[test]
fn ipuz_writes_two_digit_numbers() {
    let rows = ["............"; 12];
    let grid = Grid::from_rows(&rows).unwrap();
    let json = grid.to_ipuz();
    assert!(json.contains("[1, 2, 3, 4, 5, 6, 7, 8, 9, 10, 11, 12],"));
    assert!(json.contains("\"dimensions\": {\"width\": 12, \"height\": 12}"));
}

#[test]
fn puz_exact_bytes_with_checksums() {
    let grid = Grid::from_rows(&["cat", "ago", "tot"]).unwrap();
    let bytes = grid.to_puz().unwrap();
    let expected: Vec<u8> = vec![
        80, 189, 65, 67, 82, 79, 83, 83, 38, 68, 79, 87, 78, 0, 0, 98, 73, 225, 17, 69, 35, 185,
        150, 68, 49, 46, 51, 0, 0, 0, 0, 0, 0, 0, 0, 0, 0, 0, 0, 0, 0, 0, 0, 0, 3, 3, 6, 0, 1, 0,
        0, 0, 67, 65, 84, 65, 71, 79, 84, 79, 84, 45, 45, 45, 45, 45, 45, 45, 45, 45, 0, 0, 0, 0,
        0, 0, 0, 0, 0, 0,
    ];
    assert_eq!(bytes, expected);
}

#[test]
fn puz_rejects_bad_dimensions() {
    let grid = Grid::new(0, 3);
    assert_eq!(grid.to_puz().unwrap_err(), PuzError::UnsupportedDimensions { width: 0, height: 3 });
    let grid = Grid::new(256, 1);
    assert_eq!(
        grid.to_puz().unwrap_err(),
        PuzError::UnsupportedDimensions { width: 256, height: 1 }
    );
}

#[test]
fn puz_rejects_non_ascii_letters() {
    let grid = Grid::from_rows(&["cé", "ab"]).unwrap();
    assert_eq!(
        grid.to_puz().unwrap_err(),
        PuzError::NonAsciiLetter { row: 0, col: 1, ch: 'é' }
    );
}

#[test]
fn error_messages() {
    assert_eq!(GridError::Empty.to_string(), "grid has no rows");
    assert_eq!(
        GridError::RaggedRow { row: 1, expected: 3, found: 2 }.to_string(),
        "row 1 has 2 columns, expected 3"
    );
    assert_eq!(
        GridError::BadChar { row: 0, col: 12, ch: '?' }.to_string(),
        "unrecognized character '?' at row 0, col 12"
    );
    assert_eq!(
        PuzError::UnsupportedDimensions { width: 300, height: 5 }.to_string(),
        "grid is 300x5, but .puz requires both dimensions between 1 and 255"
    );
    assert_eq!(
        PuzError::IncompleteSolution { row: 2, col: 4 }.to_string(),
        ".puz needs a solution letter for every white cell, but (2, 4) is empty"
    );
    assert_eq!(
        PuzError::NonAsciiLetter { row: 0, col: 1, ch: 'é' }.to_string(),
        ".puz only supports ASCII letters, but (0, 1) has 'é'"
    );
    assert_eq!(
        PuzError::TooManyClues { count: 70000 }.to_string(),
        "grid has 70000 clued entries, but .puz can only store up to 65535"
    );
    assert_eq!(FillError::NoSolution.to_string(), "no fill satisfies every slot and crossing");
}

#[test]
fn fill_picks_first_words_in_list_order() {
    let grid = Grid::from_rows(&["...", "###", "..."]).unwrap();
    let words = WordList::new(&["dog", "cat", "emu"]);
    let filled = grid.fill(&words).unwrap();
    assert_eq!(filled.to_string(), "DOG\n###\nCAT");
}

#[test]
fn fill_spells_every_entry_with_distinct_listed_words() {
    let grid = Grid::from_rows(&["...", ".#.", "..."]).unwrap();
    let list = ["cat", "cab", "tin", "bun", "tan", "nab"];
    let words = WordList::new(&list);
    let filled = grid.fill(&words).unwrap();
    let mut seen: Vec<String> = Vec::new();
    for slot in grid.slots() {
        let mut word = String::new();
        for i in 0..slot.len {
            let (r, c) = match slot.direction {
                Direction::Across => (slot.row, slot.col + i),
                Direction::Down => (slot.row + i, slot.col),
            };
            match filled.cell(r, c) {
                Cell::Filled(ch) => word.push(ch),
                other => panic!("unexpected {:?}", other),
            }
        }
        assert!(list.iter().any(|w| w.to_ascii_uppercase() == word));
        assert!(!seen.contains(&word));
        seen.push(word);
    }
    // the receiver is untouched
    assert_eq!(grid.cell(0, 0), Cell::Empty);
}

#[test]
fn fill_fails_on_a_square_no_entry_reaches() {
    let grid = Grid::from_rows(&[".#"]).unwrap();
    assert_eq!(grid.fill(&WordList::new(&["a"])).unwrap_err(), FillError::NoSolution);
    let grid = Grid::from_rows(&["."]).unwrap();
    assert_eq!(grid.fill(&WordList::new(&[])).unwrap_err(), FillError::NoSolution);
    // a lone lettered square needs no word
    let grid = Grid::from_rows(&["a#"]).unwrap();
    assert_eq!(grid.fill(&WordList::new(&[])).unwrap().cell(0, 0), Cell::Filled('A'));
}

#[test]
fn word_list_keeps_order_and_upper_cases() {
    let words = WordList::new(&["dog", "Cat", "bird", "émue", "a", "owl"]);
    assert_eq!(words.candidates(3), ["DOG", "CAT", "OWL"]);
    assert_eq!(words.candidates(4), ["BIRD"]);
    assert_eq!(words.candidates(1), ["A"]);
    assert!(words.candidates(0).is_empty());
    let empty = WordList::default();
    assert!(empty.candidates(3).is_empty());
    let copy = words.clone();
    assert_eq!(copy.candidates(3), ["DOG", "CAT", "OWL"]);
}

#[test]
fn checksum_of_nothing_is_the_seed() {
    assert_eq!(puz_checksum(&[], 7), 7);
    assert_eq!(puz_checksum(&[], 0), 0);
}

#[test]
fn checksum_rotates_then_adds() {
    // 5 rotated right by one bit is 0x8002; adding 3 gives 0x8005
    assert_eq!(puz_checksum(&[3], 5), 32773);
    assert_eq!(puz_checksum(&[0xff], 0xffff), 0x00fe);
}

#[test]
fn checksum_of_a_concatenation_chains() {
    assert_eq!(puz_checksum(&[1, 2, 3], 9), 24581);
    assert_eq!(puz_checksum(&[1, 2, 3], 9), puz_checksum(&[3], puz_checksum(&[1, 2], 9)));
}

#[test]
fn file_checksum_covers_header_and_boards_only() {
    let grid = Grid::from_rows(&["a"]).unwrap();
    let bytes = grid.to_puz().unwrap();
    let n = 1;
    let c = puz_checksum(
        &bytes[0x34 + n..0x34 + 2 * n],
        puz_checksum(&bytes[0x34..0x34 + n], puz_checksum(&bytes[0x2C..0x34], 0)),
    );
    assert_eq!(u16::from_le_bytes([bytes[0], bytes[1]]), c);
    assert_eq!(c, 0x89cd);
}

#[test]
fn cell_for_each_kind_of_character() {
    assert_eq!(cell_for('#', false), Some(Cell::Black));
    assert_eq!(cell_for('.', false), Some(Cell::Empty));
    assert_eq!(cell_for('a', true), Some(Cell::Filled('A')));
    assert_eq!(cell_for('Q', true), Some(Cell::Filled('Q')));
    assert_eq!(cell_for('é', true), Some(Cell::Filled('é')));
    assert_eq!(cell_for('3', false), None);
    assert_eq!(cell_for(' ', false), None);
}

#[test]
fn ipuz_escapes_quotes_backslashes_and_control_characters() {
    let mut grid = Grid::new(3, 1);
    grid.set(0, 0, Cell::Filled('"'));
    grid.set(0, 1, Cell::Filled('\\'));
    grid.set(0, 2, Cell::Filled('\n'));
    let json = grid.to_ipuz();
    assert!(json.contains("[\"\\\"\", \"\\\\\", \"\\u000a\"]"));
    let mut grid = Grid::new(1, 1);
    grid.set(0, 0, Cell::Filled('\u{1f}'));
    assert!(grid.to_ipuz().contains("[\"\\u001f\"]"));
}

#[test]
fn letters_do_not_change_the_numbering() {
    let blank = Grid::from_rows(&["..#", "...", "#.."]).unwrap();
    let lettered = Grid::from_rows(&["ab#", ".c.", "#.d"]).unwrap();
    assert_eq!(blank.slots(), lettered.slots());
    assert_eq!(blank.slots().len(), 6);
}
