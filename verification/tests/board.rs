use puyo_match::board::NormalBoard;
use puyo_match::puyo::InvalidPuyoKind;
use puyo_match::text::trim_newlines;

const EMPTY_TERM: &str = "row(l, l, l, l, l, l)";

fn frame(terms: &[&str]) -> String {
    format!("board({}).", terms.join(", "))
}

#[test]
fn board_from_str_reads_rows_top_down() {
    let board = NormalBoard::from_str("\nbgbyyy\nbbgbbb\nggbygp\n").unwrap();
    assert_eq!(board.height(), 3);
    assert_eq!(board.row(0).to_str(), "bgbyyy");
    assert_eq!(board.row(1).to_str(), "bbgbbb");
    assert_eq!(board.row(2).to_str(), "ggbygp");
}

#[test]
fn board_from_str_needs_no_line_breaks_around() {
    let board = NormalBoard::from_str("bgbyyy\nbbgbbb").unwrap();
    assert_eq!(board.height(), 2);
    assert_eq!(board.to_str(), "bgbyyy\nbbgbbb\n");
}

#[test]
fn board_from_str_strips_one_line_break_only() {
    let e = NormalBoard::from_str("\n\nbgbyyy\n").unwrap_err();
    assert_eq!(e.kind, InvalidPuyoKind::RowLength);
    assert_eq!(e.invalid_puyo, "Invalid number of puyo: 0");
    let e = NormalBoard::from_str("bgbyyy\n\n").unwrap_err();
    assert_eq!(e.kind, InvalidPuyoKind::RowLength);
    assert_eq!(e.invalid_puyo, "Invalid number of puyo: 0");
}

#[test]
fn board_trim_newlines_takes_one_from_each_end() {
    assert_eq!(trim_newlines("\nabc\n"), "abc");
    assert_eq!(trim_newlines("\n\nabc\n\n"), "\nabc\n");
    assert_eq!(trim_newlines("abc"), "abc");
    assert_eq!(trim_newlines("\n"), "");
    assert_eq!(trim_newlines("\n\n"), "");
    assert_eq!(trim_newlines("\n\n\n"), "\n");
    assert_eq!(trim_newlines(""), "");
}

#[test]
fn board_from_str_rejects_the_empty_text() {
    let e = NormalBoard::from_str("").unwrap_err();
    assert_eq!(e.kind, InvalidPuyoKind::RowLength);
    assert_eq!(e.invalid_puyo, "Invalid number of puyo: 0");
}

#[test]
fn board_from_str_reports_the_first_bad_row() {
    let e = NormalBoard::from_str("bgbyyy\nbbg\nggbxgp").unwrap_err();
    assert_eq!(e.kind, InvalidPuyoKind::RowLength);
    assert_eq!(e.invalid_puyo, "Invalid number of puyo: 3");
    let e = NormalBoard::from_str("bgbyyy\nggbxgp\nbbg").unwrap_err();
    assert_eq!(e.kind, InvalidPuyoKind::CellToken);
    assert_eq!(e.invalid_puyo, "x");
}

#[test]
fn board_from_str_takes_thirteen_rows() {
    let text = "rrrrrr\n".repeat(13);
    let board = NormalBoard::from_str(&text).unwrap();
    assert_eq!(board.height(), 13);
}

#[test]
fn board_from_str_rejects_fourteen_rows() {
    let text = "rrrrrr\n".repeat(14);
    let e = NormalBoard::from_str(&text).unwrap_err();
    assert_eq!(e.kind, InvalidPuyoKind::BoardHeight);
    assert_eq!(e.invalid_puyo, "Invalid number of rows: 14");
}

#[test]
fn board_from_str_reports_a_bad_row_before_the_height() {
    let text = format!("{}rrr", "rrrrrr\n".repeat(14));
    let e = NormalBoard::from_str(&text).unwrap_err();
    assert_eq!(e.kind, InvalidPuyoKind::RowLength);
    assert_eq!(e.invalid_puyo, "Invalid number of puyo: 3");
}

#[test]
fn board_to_str_reads_back() {
    for height in 1..=13 {
        let mut text = String::new();
        for k in 0..height {
            text.push_str(["bgbyyy", "  j   ", "      ", "rrrppp"][k % 4]);
            text.push('\n');
        }
        let board = NormalBoard::from_str(&text).unwrap();
        assert_eq!(board.height(), height);
        assert_eq!(board.to_str(), text);
        let again = NormalBoard::from_str(&board.to_str()).unwrap();
        assert_eq!(again.to_str(), text);
    }
}

#[test]
fn board_without_rows_does_not_read_back() {
    let board = NormalBoard::from_rows(Vec::new());
    assert_eq!(board.height(), 0);
    assert_eq!(board.to_str(), "");
    assert!(NormalBoard::from_str(&board.to_str()).is_err());
}

#[test]
fn board_to_color_str_ends_each_row_with_a_line_break() {
    let board = NormalBoard::from_str("r     \n     b").unwrap();
    assert_eq!(
        board.to_color_str(),
        "\x1b[41;1mr\x1b[0m     \n     \x1b[46;1mb\x1b[0m\n"
    );
}

#[test]
fn board_to_text_db_board_pads_on_top() {
    let board = NormalBoard::from_str("\nbgbyyy\nbbgbbb\nggbygp\n").unwrap();
    let mut terms = vec![EMPTY_TERM; 10];
    terms.push("row(b, g, b, y, y, y)");
    terms.push("row(b, b, g, b, b, b)");
    terms.push("row(g, g, b, y, g, p)");
    assert_eq!(board.to_text_db_board().as_str(), frame(&terms));
}

#[test]
fn board_to_text_db_board_of_one_row() {
    let board = NormalBoard::from_str("bbr   ").unwrap();
    assert_eq!(
        board.to_text_db_board().as_str(),
        "board(row(l, l, l, l, l, l), row(l, l, l, l, l, l), row(l, l, l, l, l, l), row(l, l, l, l, l, l), row(l, l, l, l, l, l), row(l, l, l, l, l, l), row(l, l, l, l, l, l), row(l, l, l, l, l, l), row(l, l, l, l, l, l), row(l, l, l, l, l, l), row(l, l, l, l, l, l), row(l, l, l, l, l, l), row(b, b, r, l, l, l))."
    );
}

#[test]
fn board_to_text_db_board_of_a_full_board_has_no_padding() {
    let text = "rgbypj\n".repeat(13);
    let board = NormalBoard::from_str(&text).unwrap();
    let terms = vec!["row(r, g, b, y, p, j)"; 13];
    assert_eq!(board.to_text_db_board().as_str(), frame(&terms));
}

#[test]
fn board_to_text_db_board_without_rows_is_thirteen_empty_rows() {
    let board = NormalBoard::from_rows(Vec::new());
    let terms = vec![EMPTY_TERM; 13];
    assert_eq!(board.to_text_db_board().as_str(), frame(&terms));
}

#[test]
fn board_to_text_db_board_always_has_thirteen_rows() {
    for height in 0..=13 {
        let text = "rgbypj\n".repeat(height);
        let board = if height == 0 {
            NormalBoard::from_rows(Vec::new())
        } else {
            NormalBoard::from_str(&text).unwrap()
        };
        let fact = board.to_text_db_board();
        assert_eq!(fact.as_str().matches("row(").count(), 13);
        assert_eq!(fact.as_str().matches(EMPTY_TERM).count(), 13 - height);
        assert!(fact.as_str().ends_with(&format!(
            "{}).",
            vec!["row(r, g, b, y, p, j)"; height].join(", ")
        )));
        assert!(!fact.as_str().contains('$'));
    }
}

#[test]
fn board_from_str_reports_a_character_of_more_than_one_byte() {
    let e = NormalBoard::from_str("\nbgbyyy\nbbébbb\n").unwrap_err();
    assert_eq!(e.kind, InvalidPuyoKind::CellToken);
    assert_eq!(e.invalid_puyo, "é");
}
