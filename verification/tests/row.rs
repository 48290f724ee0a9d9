use puyo_match::puyo::{InvalidPuyoKind, Puyo};
use puyo_match::row::NormalRow;

fn cells(row: &NormalRow) -> Vec<Puyo> {
    (0..6).map(|i| row.get(i)).collect()
}

#[test]
fn row_from_str_reads_six_cells() {
    let row = NormalRow::from_str("rggb y").unwrap();
    assert_eq!(
        cells(&row),
        vec![Puyo::R, Puyo::G, Puyo::G, Puyo::B, Puyo::Empty, Puyo::Y]
    );
}

#[test]
fn row_from_str_rejects_a_short_row() {
    let e = NormalRow::from_str("rggb").unwrap_err();
    assert_eq!(e.kind, InvalidPuyoKind::RowLength);
    assert_eq!(e.invalid_puyo, "Invalid number of puyo: 4");
}

#[test]
fn row_from_str_rejects_a_long_row() {
    let e = NormalRow::from_str("rggbyyrggbyy").unwrap_err();
    assert_eq!(e.kind, InvalidPuyoKind::RowLength);
    assert_eq!(e.invalid_puyo, "Invalid number of puyo: 12");
}

#[test]
fn row_from_str_rejects_the_empty_row() {
    let e = NormalRow::from_str("").unwrap_err();
    assert_eq!(e.kind, InvalidPuyoKind::RowLength);
    assert_eq!(e.invalid_puyo, "Invalid number of puyo: 0");
}

#[test]
fn row_from_str_reports_the_first_unknown_token() {
    let e = NormalRow::from_str("rgxbzy").unwrap_err();
    assert_eq!(e.kind, InvalidPuyoKind::CellToken);
    assert_eq!(e.invalid_puyo, "x");
}

#[test]
fn row_from_str_reports_a_token_before_the_length() {
    let e = NormalRow::from_str("rg?").unwrap_err();
    assert_eq!(e.kind, InvalidPuyoKind::CellToken);
    assert_eq!(e.invalid_puyo, "?");
}

#[test]
fn row_from_chars_agrees_with_from_str() {
    let text: Vec<char> = "jbgpry".chars().collect();
    let row = NormalRow::from_chars(&text).unwrap();
    assert_eq!(row.to_str(), "jbgpry");
    let bad: Vec<char> = "jbgpr".chars().collect();
    assert_eq!(
        NormalRow::from_chars(&bad).unwrap_err().invalid_puyo,
        "Invalid number of puyo: 5"
    );
}

#[test]
fn row_to_str_reads_back() {
    for text in ["rggb y", "      ", "jjjjjj", "bgpry ", " j j j"] {
        let row = NormalRow::from_str(text).unwrap();
        assert_eq!(row.to_str(), text);
    }
}

#[test]
fn row_to_color_str_joins_the_display_tokens() {
    let row = NormalRow::from_str("r  b j").unwrap();
    assert_eq!(
        row.to_color_str(),
        "\x1b[41;1mr\x1b[0m  \x1b[46;1mb\x1b[0m \x1b[47;1mj\x1b[0m"
    );
}

#[test]
fn row_to_text_db_row_writes_a_term() {
    let row = NormalRow::from_str("rrgbyy").unwrap();
    assert_eq!(row.to_text_db_row().as_str(), "row(r, r, g, b, y, y)");
    let row = NormalRow::from_str(" r  j ").unwrap();
    assert_eq!(row.to_text_db_row().as_str(), "row(l, r, l, l, j, l)");
}

#[test]
fn row_empty_and_garbage() {
    assert_eq!(NormalRow::empty().to_str(), "      ");
    assert_eq!(
        NormalRow::empty().to_text_db_row().as_str(),
        "row(l, l, l, l, l, l)"
    );
    assert_eq!(NormalRow::garbage().to_str(), "jjjjjj");
    assert_eq!(cells(&NormalRow::garbage()), vec![Puyo::Garbage; 6]);
}
