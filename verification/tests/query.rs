use puyo_match::query::{SymbolRow, TextQryBoard};

#[test]
fn qry_empty_bottom_row() {
    let q_1 = String::from("\n   rr \n      \n");
    let qb_1 = TextQryBoard::from_str(&q_1);
    let expected_qry_str = "board($1313, $1312, $1311, $1310, $139, $138, $137, $136, $135, $134, $133, row($20, $21, $22, $0, $0, $23),\nrow($24, $25, $26, $27, $28, $29)).";
    assert_eq!(qb_1.qry_str(), expected_qry_str);
}

#[test]
fn qry_rows_are_recorded_top_down() {
    let qb = TextQryBoard::from_str("\n   rr \n      \n");
    let rows = qb.sym_board();
    assert_eq!(rows.len(), 13);
    match &rows[0] {
        SymbolRow::EntireRow(symbol) => assert_eq!(symbol, "$1313"),
        SymbolRow::IndivSymbols(_) => panic!("the top row is a padding row"),
    }
    match &rows[10] {
        SymbolRow::EntireRow(symbol) => assert_eq!(symbol, "$133"),
        SymbolRow::IndivSymbols(_) => panic!("row 10 is a padding row"),
    }
    match &rows[11] {
        SymbolRow::IndivSymbols(symbols) => {
            assert_eq!(symbols, &vec!["$20", "$21", "$22", "$0", "$0", "$23"]);
        }
        SymbolRow::EntireRow(_) => panic!("row 11 is a pattern row"),
    }
    match &rows[12] {
        SymbolRow::IndivSymbols(symbols) => {
            assert_eq!(symbols, &vec!["$24", "$25", "$26", "$27", "$28", "$29"]);
        }
        SymbolRow::EntireRow(_) => panic!("row 12 is a pattern row"),
    }
}

const PADDING_12: &str =
    "$1313, $1312, $1311, $1310, $139, $138, $137, $136, $135, $134, $133, $132, ";

#[test]
fn qry_colour_letter_keeps_its_symbol() {
    let qb = TextQryBoard::from_str("rgrgbb");
    assert_eq!(
        qb.qry_str(),
        format!("board({}row($0, $1, $0, $1, $2, $2)).", PADDING_12)
    );
}

#[test]
fn qry_colour_letter_keeps_its_symbol_across_rows() {
    let qb = TextQryBoard::from_str("r     \n     r");
    assert_eq!(
        qb.qry_str(),
        "board($1313, $1312, $1311, $1310, $139, $138, $137, $136, $135, $134, $133, row($0, $20, $21, $22, $23, $24),\nrow($25, $26, $27, $28, $29, $0))."
    );
}

#[test]
fn qry_blank_cells_get_symbols_of_their_own() {
    let qb = TextQryBoard::from_str("      ");
    assert_eq!(
        qb.qry_str(),
        format!("board({}row($20, $21, $22, $23, $24, $25)).", PADDING_12)
    );
}

#[test]
fn qry_named_wildcard_keeps_its_symbol() {
    let qb = TextQryBoard::from_str("xxzzxx");
    assert_eq!(
        qb.qry_str(),
        format!("board({}row($20, $20, $21, $21, $20, $20)).", PADDING_12)
    );
}

#[test]
fn qry_mixes_colours_blanks_and_wildcards() {
    let qb = TextQryBoard::from_str("x x rj");
    assert_eq!(
        qb.qry_str(),
        format!("board({}row($20, $21, $20, $22, $0, $23)).", PADDING_12)
    );
    assert_eq!(qb.sym_to_char("$0"), Some('r'));
    assert_eq!(qb.sym_to_char("$20"), Some('x'));
    assert_eq!(qb.sym_to_char("$23"), Some('j'));
    assert_eq!(qb.sym_to_char("$21"), None);
    assert_eq!(qb.sym_to_char("$22"), None);
    assert_eq!(qb.sym_to_char("$1"), None);
    assert_eq!(qb.sym_to_char("$1313"), None);
}

#[test]
fn qry_all_five_colours_stay_below_the_wildcards() {
    let qb = TextQryBoard::from_str("bgpry \nyrpgb ");
    assert_eq!(
        qb.qry_str(),
        "board($1313, $1312, $1311, $1310, $139, $138, $137, $136, $135, $134, $133, row($0, $1, $2, $3, $4, $20),\nrow($4, $3, $2, $1, $0, $21))."
    );
}

#[test]
fn qry_short_line_is_passed_through() {
    let qb = TextQryBoard::from_str("rr");
    assert_eq!(
        qb.qry_str(),
        format!("board({}row($0, $0, )).", PADDING_12)
    );
}

#[test]
fn qry_long_line_is_passed_through() {
    let qb = TextQryBoard::from_str("rrrrrrrr");
    assert_eq!(
        qb.qry_str(),
        format!("board({}row($0, $0, $0, $0, $0, $0$0$0)).", PADDING_12)
    );
}

#[test]
fn qry_empty_pattern_is_one_empty_row() {
    let qb = TextQryBoard::from_str("");
    assert_eq!(qb.qry_str(), format!("board({}row()).", PADDING_12));
    assert_eq!(qb.sym_board().len(), 13);
}

#[test]
fn qry_strips_one_line_break_only() {
    let qb = TextQryBoard::from_str("\n\nrrrrrr\n");
    assert_eq!(
        qb.qry_str(),
        "board($1313, $1312, $1311, $1310, $139, $138, $137, $136, $135, $134, $133, row(),\nrow($0, $0, $0, $0, $0, $0))."
    );
}

#[test]
fn qry_thirteen_lines_need_no_padding() {
    let pattern = "rrrrrr\n".repeat(13);
    let qb = TextQryBoard::from_str(&pattern);
    let rows = vec!["row($0, $0, $0, $0, $0, $0)"; 13];
    assert_eq!(qb.qry_str(), format!("board({}).", rows.join(",\n")));
    assert_eq!(qb.sym_board().len(), 13);
    for row in qb.sym_board() {
        assert!(matches!(row, SymbolRow::IndivSymbols(_)));
    }
}

#[test]
fn qry_fourteen_lines_are_passed_through() {
    let pattern = "rrrrrr\n".repeat(14);
    let qb = TextQryBoard::from_str(&pattern);
    let rows = vec!["row($0, $0, $0, $0, $0, $0)"; 14];
    assert_eq!(qb.qry_str(), format!("board({}).", rows.join(",\n")));
    assert_eq!(qb.sym_board().len(), 14);
}

#[test]
fn qry_twelve_lines_get_one_padding_row() {
    let pattern = "      \n".repeat(12);
    let qb = TextQryBoard::from_str(&pattern);
    assert!(qb.qry_str().starts_with("board($1313, row($20, $21, $22, $23, $24, $25),\n"));
    assert!(qb.qry_str().ends_with("row($86, $87, $88, $89, $90, $91))."));
    assert_eq!(qb.sym_board().len(), 13);
    assert!(matches!(&qb.sym_board()[0], SymbolRow::EntireRow(s) if s == "$1313"));
}

#[test]
fn qry_takes_any_character_as_a_wildcard() {
    let qb = TextQryBoard::from_str("\né1é$1j\n");
    assert_eq!(
        qb.qry_str(),
        format!("board({}row($20, $21, $20, $22, $21, $23)).", PADDING_12)
    );
    assert_eq!(qb.sym_to_char("$20"), Some('é'));
    assert_eq!(qb.sym_to_char("$21"), Some('1'));
    assert_eq!(qb.sym_to_char("$22"), Some('$'));
    assert_eq!(qb.sym_to_char("$23"), Some('j'));
}

#[test]
fn qry_symbols_are_shared_by_character_only() {
    let qb = TextQryBoard::from_str("r r x \nx y  r");
    let mut cells: Vec<(char, String)> = Vec::new();
    for (line, row) in ["r r x ", "x y  r"].iter().zip(&qb.sym_board()[11..]) {
        match row {
            SymbolRow::IndivSymbols(symbols) => {
                cells.extend(line.chars().zip(symbols.iter().cloned()));
            }
            SymbolRow::EntireRow(_) => panic!("a pattern row has a symbol for each cell"),
        }
    }
    assert_eq!(cells.len(), 12);
    for (i, (c, symbol)) in cells.iter().enumerate() {
        for (j, (d, other)) in cells.iter().enumerate() {
            let shared = i == j || (c == d && *c != ' ');
            assert_eq!(symbol == other, shared, "cells {} and {}", i, j);
        }
        let index: usize = symbol[1..].parse().unwrap();
        assert_eq!(index < 20, "bgpry".contains(*c));
    }
}
