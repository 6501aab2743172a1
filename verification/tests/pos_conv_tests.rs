use polski_ls::pos_conv::LineIndex;
use polski_ls::pos_conv::Position;

#[test]
fn test_line_index_single_line() {
    let source: Vec<char> = "hello world".chars().collect();
    let index = LineIndex::new(&source);

    let pos = Position {
        line: 0,
        character: 6,
    };
    assert_eq!(index.position_to_index(&source, pos), 6);
}

#[test]
fn test_line_index_multiple_lines() {
    let source: Vec<char> = "hello\nworld\ntest".chars().collect();
    let index = LineIndex::new(&source);

    // Line 1, char 2 -> index 8 (after "hello\nwo")
    let pos = Position {
        line: 1,
        character: 2,
    };
    assert_eq!(index.position_to_index(&source, pos), 8);
}

#[test]
fn test_index_to_position() {
    let source: Vec<char> = "hello\nworld".chars().collect();
    let index = LineIndex::new(&source);

    let pos = index.index_to_position(&source, 8);
    assert_eq!(pos.line, 1);
    assert_eq!(pos.character, 2);
}

#[test]
fn test_position_round_trip() {
    let source: Vec<char> = "hello\nworld\ntest".chars().collect();
    let index = LineIndex::new(&source);

    // Every offset whose column lies within its line round-trips.
    for o in 0..source.len() {
        let pos = index.index_to_position(&source, o);
        assert_eq!(index.position_to_index(&source, pos), o);
    }
}

#[test]
fn test_position_to_index_clamps() {
    let source: Vec<char> = "hello\nworld".chars().collect();
    let index = LineIndex::new(&source);

    // Unknown line clamps to the last valid offset.
    let far_line = Position {
        line: 9,
        character: 0,
    };
    assert_eq!(index.position_to_index(&source, far_line), source.len() - 1);

    // Overlong column clamps to the line's end (its break included).
    let far_col = Position {
        line: 0,
        character: 99,
    };
    assert_eq!(index.position_to_index(&source, far_col), 6);
}

#[test]
fn test_is_position_out_of_bounds() {
    let source: Vec<char> = "hello\nworld".chars().collect();
    let index = LineIndex::new(&source);

    let inside = Position {
        line: 0,
        character: 5,
    };
    assert!(!index.is_position_out_of_bounds(&source, inside));

    // The column may not pass the line's content length, the break
    // excluded.
    let past_content = Position {
        line: 0,
        character: 6,
    };
    assert!(index.is_position_out_of_bounds(&source, past_content));

    let unknown_line = Position {
        line: 5,
        character: 0,
    };
    assert!(index.is_position_out_of_bounds(&source, unknown_line));

    let last_line_end = Position {
        line: 1,
        character: 5,
    };
    assert!(!index.is_position_out_of_bounds(&source, last_line_end));
}

#[test]
fn test_index_to_position_wide_codepoints() {
    // "𝄞" lies outside the basic plane and counts as two UTF-16
    // units in the column.
    let source: Vec<char> = "𝄞a\nb".chars().collect();
    let index = LineIndex::new(&source);

    let pos = index.index_to_position(&source, 2);
    assert_eq!(pos.line, 0);
    assert_eq!(pos.character, 3);

    let second_line = index.index_to_position(&source, 4);
    assert_eq!(second_line.line, 1);
    assert_eq!(second_line.character, 1);
}
