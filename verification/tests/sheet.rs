use logru::textual::TextualUniverse;
use puyo_match::sheet::{parse_sheet, sheet_boards, sheet_spoilers, SheetCell};

/// One row of a sheet: a space is an empty cell, any other character a cell
/// with that character as its text.
fn row(cells: &str) -> Vec<SheetCell> {
    cells
        .chars()
        .map(|c| {
            if c == ' ' {
                SheetCell::Empty
            } else {
                SheetCell::Text(c.to_string())
            }
        })
        .collect()
}

/// A row with the text in its first cell, as wide as the rows of a board.
fn word(text: &str) -> Vec<SheetCell> {
    let mut cells = vec![SheetCell::Text(text.to_string())];
    for _ in 0..5 {
        cells.push(SheetCell::Empty);
    }
    cells
}

fn get_rslts(rows: &Vec<Vec<SheetCell>>) -> Vec<String> {
    let mut tu = TextualUniverse::new();
    let mut rslts = Vec::new();
    parse_sheet(rows, &mut tu, false);
    for rule in tu.inner().rules() {
        let pretty_rule = tu.pretty().rule_to_string(rule);
        rslts.push(pretty_rule);
    }
    rslts
}

fn get_qry(rows: &Vec<Vec<SheetCell>>) -> String {
    let mut tu = TextualUniverse::new();
    parse_sheet(rows, &mut tu, true).unwrap()
}

#[test]
fn test_simple_boards_1() {
    let sheet = vec![
        row("    b "),
        row("rbgbyb"),
        row("rrbggb"),
        row("bbgyyy"),
        word("end"),
        row("bbr   "),
        word("end"),
    ];
    let rslts = get_rslts(&sheet);

    assert_eq!(rslts.len(), 2);
    assert_eq!(rslts[0], "board(row(l, l, l, l, l, l), row(l, l, l, l, l, l), row(l, l, l, l, l, l), row(l, l, l, l, l, l), row(l, l, l, l, l, l), row(l, l, l, l, l, l), row(l, l, l, l, l, l), row(l, l, l, l, l, l), row(l, l, l, l, l, l), row(l, l, l, l, b, l), row(r, b, g, b, y, b), row(r, r, b, g, g, b), row(b, b, g, y, y, y)).");
    assert_eq!(rslts[1], "board(row(l, l, l, l, l, l), row(l, l, l, l, l, l), row(l, l, l, l, l, l), row(l, l, l, l, l, l), row(l, l, l, l, l, l), row(l, l, l, l, l, l), row(l, l, l, l, l, l), row(l, l, l, l, l, l), row(l, l, l, l, l, l), row(l, l, l, l, l, l), row(l, l, l, l, l, l), row(l, l, l, l, l, l), row(b, b, r, l, l, l)).");
}

// a sheet w/ a single board that has a row in the middle
#[test]
fn single_float() {
    let sheet = vec![row("  rrbb"), row("      "), word("end")];
    let rslts = get_rslts(&sheet);

    assert_eq!(rslts.len(), 1);
    assert_eq!(rslts[0], "board(row(l, l, l, l, l, l), row(l, l, l, l, l, l), row(l, l, l, l, l, l), row(l, l, l, l, l, l), row(l, l, l, l, l, l), row(l, l, l, l, l, l), row(l, l, l, l, l, l), row(l, l, l, l, l, l), row(l, l, l, l, l, l), row(l, l, l, l, l, l), row(l, l, l, l, l, l), row(l, l, r, r, b, b), row(l, l, l, l, l, l)).");
}

// a sheet w/ a single board that has a non-full row in the middle
#[test]
fn float_incomplete() {
    let mut first = row("  rrb");
    first.push(SheetCell::Text(" ".to_string()));
    let sheet = vec![first, row("      "), word("end")];
    let rslts = get_rslts(&sheet);

    assert_eq!(rslts.len(), 1);
    assert_eq!(rslts[0], "board(row(l, l, l, l, l, l), row(l, l, l, l, l, l), row(l, l, l, l, l, l), row(l, l, l, l, l, l), row(l, l, l, l, l, l), row(l, l, l, l, l, l), row(l, l, l, l, l, l), row(l, l, l, l, l, l), row(l, l, l, l, l, l), row(l, l, l, l, l, l), row(l, l, l, l, l, l), row(l, l, r, r, b, l), row(l, l, l, l, l, l)).");
}

// a sheet w/ a single board that has a non-full row in the middle
// and "end" at the end of a row
// and doesn't have the non-full row ended w/ a " "
#[test]
fn float_incomplete_end() {
    let mut last = row("     ");
    last.push(SheetCell::Text("end".to_string()));
    let sheet = vec![row("  rrb "), row("      "), last];
    let rslts = get_rslts(&sheet);

    assert_eq!(rslts.len(), 1);
    assert_eq!(rslts[0], "board(row(l, l, l, l, l, l), row(l, l, l, l, l, l), row(l, l, l, l, l, l), row(l, l, l, l, l, l), row(l, l, l, l, l, l), row(l, l, l, l, l, l), row(l, l, l, l, l, l), row(l, l, l, l, l, l), row(l, l, l, l, l, l), row(l, l, l, l, l, l), row(l, l, l, l, l, l), row(l, l, r, r, b, l), row(l, l, l, l, l, l)).");
}

// a sheet w/ a single invalid board
#[test]
fn single_invalid() {
    let sheet = vec![row("rbgbyb"), row("rrxggb"), row("bbgyyy"), word("end")];
    let rslts = get_rslts(&sheet);
    assert_eq!(rslts.len(), 0);
}

// a sheet w/ a qry board
#[test]
fn qry_1() {
    let sheet = vec![row("   rr "), row("      "), word("end")];
    let qry = get_qry(&sheet);
    let expected_qry = String::from("\n   rr \n      ");
    assert_eq!(qry, expected_qry);
}

// a sheet w/ valid boards but w/ lots of lines b/w boards
// this should be parsed w/o all the extra lines causing
// parsing to fail
#[test]
fn extra_lines() {
    let mut sheet = vec![
        word("first key"),
        row("   g g"),
        row("   rgg"),
        row("bgybrr"),
        row("bbgyyr"),
        row("ggybbb"),
        word("end"),
    ];
    for _ in 0..12 {
        sheet.push(row("      "));
    }
    sheet.extend([
        word("second key"),
        row("     y"),
        row("    gy"),
        row("    yg"),
        row("ypbgpg"),
        row("yypbbp"),
        row("ppbypp"),
        word("end"),
    ]);
    let rslts = get_rslts(&sheet);

    assert_eq!(rslts.len(), 2);
    assert_eq!(rslts[0], "board(row(l, l, l, l, l, l), row(l, l, l, l, l, l), row(l, l, l, l, l, l), row(l, l, l, l, l, l), row(l, l, l, l, l, l), row(l, l, l, l, l, l), row(l, l, l, l, l, l), row(l, l, l, l, l, l), row(l, l, l, g, l, g), row(l, l, l, r, g, g), row(b, g, y, b, r, r), row(b, b, g, y, y, r), row(g, g, y, b, b, b)).");
    assert_eq!(rslts[1], "board(row(l, l, l, l, l, l), row(l, l, l, l, l, l), row(l, l, l, l, l, l), row(l, l, l, l, l, l), row(l, l, l, l, l, l), row(l, l, l, l, l, l), row(l, l, l, l, l, l), row(l, l, l, l, l, y), row(l, l, l, l, g, y), row(l, l, l, l, y, g), row(y, p, b, g, p, g), row(y, y, p, b, b, p), row(p, p, b, y, p, p)).");
}

#[test]
fn sheet_boards_are_closed_by_end() {
    let sheet = vec![
        row("rbgbyb"),
        word("end"),
        row("bbr   "),
        row("rrrrrr"),
        word("end"),
        row("gggggg"),
    ];
    assert_eq!(
        sheet_boards(&sheet),
        vec!["\nrbgbyb", "\nbbr   \nrrrrrr"]
    );
}

#[test]
fn sheet_without_end_has_no_board() {
    let sheet = vec![row("rbgbyb"), row("bbr   ")];
    assert!(sheet_boards(&sheet).is_empty());
    let mut tu = TextualUniverse::new();
    assert_eq!(parse_sheet(&sheet, &mut tu, true), None);
    assert_eq!(parse_sheet(&sheet, &mut tu, false), None);
    assert!(tu.inner().rules().is_empty());
}

#[test]
fn sheet_query_is_closed_by_the_first_end() {
    let sheet = vec![
        row("   rr "),
        word("end"),
        row("bbbbbb"),
        word("end"),
    ];
    assert_eq!(get_qry(&sheet), "\n   rr ");
    let mut tu = TextualUniverse::new();
    parse_sheet(&sheet, &mut tu, true);
    assert!(tu.inner().rules().is_empty());
}

#[test]
fn sheet_word_spoils_the_board_above_it() {
    let sheet = vec![
        row("rbgbyb"),
        word("note"),
        row("bbr   "),
        word("end"),
    ];
    assert_eq!(sheet_boards(&sheet), vec!["\nbbr   "]);
}

#[test]
fn sheet_word_in_the_row_of_end_spoils_the_board() {
    let mut last = vec![SheetCell::Text("note".to_string())];
    last.push(SheetCell::Text("end".to_string()));
    let sheet = vec![row("rbgbyb"), last];
    assert_eq!(sheet_boards(&sheet), vec![""]);
    assert!(get_rslts(&sheet).is_empty());
}

#[test]
fn sheet_cells_after_end_do_not_count() {
    let mut closing = vec![SheetCell::Text("end".to_string())];
    closing.push(SheetCell::Text("note".to_string()));
    closing.push(SheetCell::Text("r".to_string()));
    let sheet = vec![row("rbgbyb"), closing, row("bbbbbb"), word("end")];
    assert_eq!(sheet_boards(&sheet), vec!["\nrbgbyb", "\nbbbbbb"]);
}

#[test]
fn sheet_cells_before_end_open_the_next_board() {
    let mut closing = row("rr");
    closing.push(SheetCell::Text("end".to_string()));
    let sheet = vec![row("rbgbyb"), closing, row("bbbbbb"), word("end")];
    assert_eq!(sheet_boards(&sheet), vec!["\nrbgbyb", "\nrr\nbbbbbb"]);
}

#[test]
fn sheet_skips_rows_of_five_empty_cells_only() {
    let sheet = vec![
        row("     "),
        row("rbgbyb"),
        row("      "),
        row("    "),
        Vec::new(),
        word("end"),
    ];
    assert_eq!(sheet_boards(&sheet), vec!["\nrbgbyb\n      \n    "]);
}

#[test]
fn sheet_passes_over_cells_that_hold_no_text() {
    let sheet = vec![
        vec![
            SheetCell::Text("r".to_string()),
            SheetCell::Other,
            SheetCell::Text("b".to_string()),
            SheetCell::Empty,
            SheetCell::Other,
        ],
        word("end"),
    ];
    assert_eq!(sheet_boards(&sheet), vec!["\nrb "]);
}

#[test]
fn sheet_takes_one_byte_tokens_only() {
    let sheet = vec![
        row("rbgbyb"),
        vec![SheetCell::Text("é".to_string())],
        row("bbbbbb"),
        vec![SheetCell::Text(String::new())],
        row("gggggg"),
        word("end"),
    ];
    assert_eq!(sheet_boards(&sheet), vec!["\ngggggg"]);
}

#[test]
fn sheet_spoilers_are_the_texts_that_count_and_are_no_tokens() {
    let mut closing = vec![SheetCell::Text("before".to_string())];
    closing.push(SheetCell::Text("end".to_string()));
    closing.push(SheetCell::Text("after".to_string()));
    let sheet = vec![
        word("first key"),
        row("rbgbyb"),
        vec![SheetCell::Text(String::new()), SheetCell::Other, SheetCell::Text("é".to_string())],
        closing,
        word("end"),
        word("last"),
    ];
    assert_eq!(sheet_spoilers(&sheet), vec!["first key", "", "é", "before", "last"]);
    assert!(sheet_spoilers(&vec![row("rbgbyb"), word("end")]).is_empty());
}
