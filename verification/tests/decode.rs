use puyo_match::decode::{decode_solution, decode_solutions, is_new_color, ColorSet};
use puyo_match::query::TextQryBoard;

const EMPTY_TERM: &str = "row(l, l, l, l, l, l)";

/// A solution of `slots` slots with the given bindings.
fn solution(slots: usize, bindings: &[(usize, &str)]) -> Vec<Option<String>> {
    let mut out = vec![None; slots];
    for (index, text) in bindings {
        out[*index] = Some(text.to_string());
    }
    out
}

/// The variable indices of the padding rows of a pattern of `lines` lines.
fn padding_indices(lines: usize) -> Vec<usize> {
    (lines + 1..=13)
        .map(|k| format!("13{}", k).parse().unwrap())
        .collect()
}

/// Bindings of every padding row of a pattern of `lines` lines to the empty row.
fn empty_padding(lines: usize) -> Vec<(usize, &'static str)> {
    padding_indices(lines)
        .into_iter()
        .map(|index| (index, EMPTY_TERM))
        .collect()
}

fn rows_of(board: &puyo_match::board::NormalBoard) -> Vec<String> {
    (0..board.height()).map(|i| board.row(i).to_str()).collect()
}

#[test]
fn is_new_color_notes_each_colour_once() {
    let mut seen = ColorSet::new();
    assert!(is_new_color(&mut seen, "r"));
    assert!(!is_new_color(&mut seen, "r"));
    assert!(is_new_color(&mut seen, "b"));
    assert!(!is_new_color(&mut seen, "b"));
    assert!(!is_new_color(&mut seen, "r"));
    assert!(is_new_color(&mut seen, "row(r)"));
    assert_eq!(seen.len(), 3);
}

#[test]
fn decode_reads_a_board_off_the_bindings() {
    let qry = TextQryBoard::from_str("\n   rr \n      \n");
    let mut bindings = empty_padding(2);
    bindings.extend([
        (20, "g"),
        (21, "b"),
        (22, "y"),
        (0, "r"),
        (23, "p"),
        (24, "b"),
        (25, "b"),
        (26, "g"),
        (27, "y"),
        (28, "y"),
        (29, "g"),
    ]);
    let board = decode_solution(&qry, &solution(1314, &bindings)).unwrap();
    assert_eq!(rows_of(&board), vec!["gbyrrp", "bbgyyg"]);
}

#[test]
fn decode_reads_padding_rows_off_their_terms() {
    let qry = TextQryBoard::from_str("rrrrrr");
    let mut bindings = empty_padding(1);
    bindings.retain(|(index, _)| *index != 132 && *index != 133);
    bindings.extend([
        (133, "row(r, b, l, l, j, y)"),
        (132, "row(l, l, l, l, l, g)"),
        (0, "p"),
    ]);
    let board = decode_solution(&qry, &solution(1314, &bindings)).unwrap();
    assert_eq!(rows_of(&board), vec!["rb  jy", "     g", "pppppp"]);
}

#[test]
fn decode_rejects_two_colour_variables_with_one_text() {
    let qry = TextQryBoard::from_str("rg    ");
    let mut bindings = empty_padding(1);
    bindings.extend([(0, "b"), (1, "b"), (20, "y"), (21, "y"), (22, "y"), (23, "y")]);
    assert!(decode_solution(&qry, &solution(1314, &bindings)).is_none());
}

#[test]
fn decode_accepts_two_colour_variables_with_different_texts() {
    let qry = TextQryBoard::from_str("rg    ");
    let mut bindings = empty_padding(1);
    bindings.extend([(0, "b"), (1, "g"), (20, "y"), (21, "y"), (22, "y"), (23, "y")]);
    let board = decode_solution(&qry, &solution(1314, &bindings)).unwrap();
    assert_eq!(rows_of(&board), vec!["bgyyyy"]);
}

#[test]
fn decode_accepts_two_wildcards_with_one_text() {
    let qry = TextQryBoard::from_str("xz    ");
    let mut bindings = empty_padding(1);
    bindings.extend([(20, "b"), (21, "b"), (22, "b"), (23, "b"), (24, "b"), (25, "b")]);
    let board = decode_solution(&qry, &solution(1314, &bindings)).unwrap();
    assert_eq!(rows_of(&board), vec!["bbbbbb"]);
}

#[test]
fn decode_rejects_on_any_slot_below_twenty() {
    let qry = TextQryBoard::from_str("rg    ");
    let mut bindings = empty_padding(1);
    bindings.extend([(0, "b"), (1, "g"), (19, "b")]);
    assert!(decode_solution(&qry, &solution(1314, &bindings)).is_none());
    let mut bindings = empty_padding(1);
    bindings.extend([(0, "b"), (1, "g"), (20, "b"), (21, "g"), (22, "b"), (23, "g")]);
    assert!(decode_solution(&qry, &solution(1314, &bindings)).is_some());
}

#[test]
fn decode_leaves_out_blank_rows() {
    let qry = TextQryBoard::from_str("      \nr     \n      ");
    let mut bindings = empty_padding(3);
    for index in 20..37 {
        bindings.push((index, "l"));
    }
    bindings.push((0, "r"));
    let board = decode_solution(&qry, &solution(1314, &bindings)).unwrap();
    assert_eq!(rows_of(&board), vec!["r     "]);
    for row in rows_of(&board) {
        assert_ne!(row, "      ");
    }
}

#[test]
fn decode_of_an_all_blank_solution_is_a_board_without_rows() {
    let qry = TextQryBoard::from_str("      ");
    let mut bindings = empty_padding(1);
    for index in 20..26 {
        bindings.push((index, "l"));
    }
    let board = decode_solution(&qry, &solution(1314, &bindings)).unwrap();
    assert_eq!(board.height(), 0);
}

#[test]
fn decode_puts_garbage_for_a_row_that_does_not_read() {
    let qry = TextQryBoard::from_str("r     ");
    let mut bindings = empty_padding(1);
    bindings.retain(|(index, _)| *index != 132);
    bindings.extend([
        (132, "row(l, l, q, l, l, l)"),
        (0, "row(r)"),
        (20, "l"),
        (21, "l"),
        (22, "l"),
        (23, "l"),
        (24, "l"),
    ]);
    let board = decode_solution(&qry, &solution(1314, &bindings)).unwrap();
    assert_eq!(rows_of(&board), vec!["jjjjjj", "jjjjjj"]);
}

#[test]
fn decode_puts_garbage_for_unbound_variables() {
    let qry = TextQryBoard::from_str("r     ");
    let mut bindings = empty_padding(1);
    bindings.retain(|(index, _)| *index != 1313);
    bindings.push((0, "r"));
    let board = decode_solution(&qry, &solution(1314, &bindings)).unwrap();
    assert_eq!(rows_of(&board), vec!["jjjjjj", "jjjjjj"]);
}

#[test]
fn decode_takes_a_short_solution() {
    let qry = TextQryBoard::from_str("rrrrrr");
    let board = decode_solution(&qry, &solution(1, &[(0, "y")])).unwrap();
    let mut expected = vec!["jjjjjj"; 12];
    expected.push("yyyyyy");
    assert_eq!(rows_of(&board), expected);
}

#[test]
fn decode_strips_each_row_opening_once_from_the_left() {
    let qry = TextQryBoard::from_str("rrrrrr");
    let mut bindings = empty_padding(1);
    bindings.retain(|(index, _)| *index != 132);
    bindings.extend([(132, "rorow(w(b, b, b, b)"), (0, "y")]);
    let board = decode_solution(&qry, &solution(1314, &bindings)).unwrap();
    // "rorow(w(b, b, b, b)" loses its inner "row(" and is then "row(bbbb":
    // no row of six known cells.
    assert_eq!(rows_of(&board), vec!["jjjjjj", "yyyyyy"]);
    let mut bindings = empty_padding(1);
    bindings.retain(|(index, _)| *index != 132);
    bindings.extend([(132, "row(row(b, b, b), b, b, b)"), (0, "y")]);
    let board = decode_solution(&qry, &solution(1314, &bindings)).unwrap();
    assert_eq!(rows_of(&board), vec!["bbbbbb", "yyyyyy"]);
}

#[test]
fn decode_solutions_keeps_the_order_and_drops_the_rejected() {
    let qry = TextQryBoard::from_str("rg    ");
    let tail = [(20, "y"), (21, "y"), (22, "y"), (23, "y")];
    let mut first = empty_padding(1);
    first.extend([(0, "b"), (1, "g")]);
    first.extend(tail);
    let mut second = empty_padding(1);
    second.extend([(0, "p"), (1, "p")]);
    second.extend(tail);
    let mut third = empty_padding(1);
    third.extend([(0, "g"), (1, "b")]);
    third.extend(tail);
    let solutions = vec![
        solution(1314, &first),
        solution(1314, &second),
        solution(1314, &third),
    ];
    let boards = decode_solutions(&qry, &solutions);
    let texts: Vec<Vec<String>> = boards.iter().map(rows_of).collect();
    assert_eq!(texts, vec![vec!["bgyyyy"], vec!["gbyyyy"]]);
}

#[test]
fn decode_solutions_of_none_is_empty() {
    let qry = TextQryBoard::from_str("rg    ");
    assert!(decode_solutions(&qry, &Vec::new()).is_empty());
}
