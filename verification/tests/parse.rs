use game_of_life::board::{Board, BoardError, Cell};
use game_of_life::parse::{read_life105, read_plaintext, read_rle, FormatError};

const A: Cell = Cell::Alive;
const D: Cell = Cell::Dead;

#[test]
fn rle_glider_round_trip() {
    let parsed = read_rle(b"x = 3, y = 3\nbo$2bo$3o!").expect("glider should parse");
    assert_eq!(parsed.1, (3, 3));
    assert_eq!(parsed.0, vec![D, A, D, D, D, A, A, A, A]);
}

#[test]
fn rle_counts_default_to_one() {
    let parsed = read_rle(b"x = 4, y = 1\nbobo!").expect("should parse");
    assert_eq!(parsed.1, (4, 1));
    assert_eq!(parsed.0, vec![D, A, D, A]);
}

#[test]
fn rle_row_end_pads_with_dead() {
    let parsed = read_rle(b"x = 3, y = 2\no$2o!").expect("should parse");
    assert_eq!(parsed.0, vec![A, D, D, A, A]);
}

#[test]
fn rle_count_carries_over_row_end() {
    // A row end does not consume a pending count: it applies to the
    // next cell run.
    let parsed = read_rle(b"x = 2, y = 1\n2$o!").expect("should parse");
    assert_eq!(parsed.0, vec![D, D, A, A]);
}

#[test]
fn rle_zero_count_emits_nothing() {
    let parsed = read_rle(b"x = 1, y = 1\n0oo!").expect("should parse");
    assert_eq!(parsed.0, vec![A]);
}

#[test]
fn rle_comments_are_skipped() {
    let parsed = read_rle(b"#C a comment\n#N name\nx = 2, y = 1\n2o!").expect("should parse");
    assert_eq!(parsed.1, (2, 1));
    assert_eq!(parsed.0, vec![A, A]);
}

#[test]
fn rle_header_allows_other_keys() {
    let parsed = read_rle(b"x = 2, y = 1, rule = 23/3\n2o!").expect("should parse");
    assert_eq!(parsed.1, (2, 1));
}

#[test]
fn rle_terminator_stops_the_stream() {
    let parsed = read_rle(b"x = 1, y = 1\no! trailing junk\n%%%").expect("should parse");
    assert_eq!(parsed.0, vec![A]);
}

#[test]
fn rle_rejects_unknown_symbol() {
    assert_eq!(
        read_rle(b"x = 2, y = 1\nzz!"),
        Err(FormatError::BadCharacter)
    );
}

#[test]
fn rle_rejects_stream_before_size() {
    // The first non-comment line is always read as the header; a
    // stream line while either dimension is still zero is an error.
    assert_eq!(read_rle(b"bo$\no!"), Err(FormatError::SizeUnknown));
    assert_eq!(
        read_rle(b"x = 0, y = 3\no!"),
        Err(FormatError::SizeUnknown)
    );
}

#[test]
fn rle_rejects_bad_header() {
    // A key without `=`, an empty header piece, a non-numeric value.
    assert_eq!(read_rle(b"x 3, y = 3\no!"), Err(FormatError::BadHeader));
    assert_eq!(
        read_rle(b"x = 3,, y = 3\no!"),
        Err(FormatError::BadHeader)
    );
    assert_eq!(
        read_rle(b"x = wide, y = 3\no!"),
        Err(FormatError::BadHeader)
    );
    assert_eq!(
        read_rle(b"x = 99999999999999999999, y = 3\no!"),
        Err(FormatError::BadHeader)
    );
}

#[test]
fn rle_rejects_overlong_row() {
    assert_eq!(
        read_rle(b"x = 2, y = 2\n3o$o!"),
        Err(FormatError::RowTooLong)
    );
}

#[test]
fn rle_rejects_huge_count() {
    assert_eq!(
        read_rle(b"x = 1, y = 1\n99999999999999999999o!"),
        Err(FormatError::BadCount)
    );
}

#[test]
fn plaintext_glider() {
    let parsed = read_plaintext(b".*.\n..*\n***").expect("should parse");
    assert_eq!(parsed.1, (3, 3));
    assert_eq!(parsed.0, vec![D, A, D, D, D, A, A, A, A]);
}

#[test]
fn plaintext_alive_spellings() {
    let parsed = read_plaintext(b"*oO.").expect("should parse");
    assert_eq!(parsed.0, vec![A, A, A, D]);
}

#[test]
fn plaintext_comments_and_width_from_first_row() {
    let parsed = read_plaintext(b"! a note\n# another\n..\n**").expect("should parse");
    assert_eq!(parsed.1, (2, 2));
    assert_eq!(parsed.0, vec![D, D, A, A]);
}

#[test]
fn plaintext_lines_are_trimmed() {
    let parsed = read_plaintext(b"  .*  \r\n  *.  ").expect("should parse");
    assert_eq!(parsed.1, (2, 2));
    assert_eq!(parsed.0, vec![D, A, A, D]);
}

#[test]
fn plaintext_empty_input() {
    let parsed = read_plaintext(b"").expect("should parse");
    assert_eq!(parsed.0, Vec::<Cell>::new());
    assert_eq!(parsed.1, (0, 0));
}

#[test]
fn plaintext_rejects_unknown_symbol() {
    assert_eq!(read_plaintext(b".x."), Err(FormatError::BadCharacter));
}

#[test]
fn life105_blinker() {
    let parsed = read_life105(b"#Life 1.05\n#D a blinker\n.*.\n.*.\n.*.").expect("should parse");
    assert_eq!(parsed.1, (3, 3));
    assert_eq!(parsed.0, vec![D, A, D, D, A, D, D, A, D]);
}

#[test]
fn life105_width_from_line_length() {
    // A non-square pattern keeps its own width and height.
    let parsed = read_life105(b"**.**\n.....").expect("should parse");
    assert_eq!(parsed.1, (5, 2));
    assert_eq!(parsed.0, vec![A, A, D, A, A, D, D, D, D, D]);
}

#[test]
fn life105_rejects_other_alphabets() {
    // Life 1.05 knows only `.` and `*`.
    assert_eq!(read_life105(b".o."), Err(FormatError::BadCharacter));
    assert_eq!(read_life105(b"!note\n.*."), Err(FormatError::BadCharacter));
}

#[test]
fn parsed_glider_runs_on_a_canvas() {
    let (cells, dims) = read_rle(b"x = 3, y = 3\nbo$2bo$3o!").expect("should parse");
    let mut board = Board::new(cells, dims, (10, 10), (2, 2)).expect("should fit");
    let start = board.cells.clone();
    for _ in 0..4 {
        board.next_board();
    }
    assert_ne!(board.cells, start);
    assert_eq!(board.cells.iter().filter(|c| **c == A).count(), 5);
}

#[test]
fn short_pattern_is_rejected_at_construction() {
    // A stream that stops early leaves fewer cells than the header
    // declares; the board then refuses the mismatched matrix.
    let (cells, dims) = read_rle(b"x = 3, y = 2\no$o!").expect("should parse");
    assert_eq!(cells.len(), 4);
    assert_eq!(
        Board::new(cells, dims, (5, 5), (0, 0)),
        Err(BoardError::PatternSize)
    );
}
