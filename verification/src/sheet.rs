//! Reading boards off a sheet of cells.
//!
//! A sheet holds boards one below the other, one cell of the sheet for each
//! cell of a board. A cell that holds the word `end` closes the board above
//! it. A sheet of facts holds any number of boards, each closed by an `end`;
//! a query sheet holds one pattern, which its first `end` closes.

use crate::engine::{after_loads, ground_facts, load_str_board, universe_rules};
use crate::query::strings_view;
use crate::text::{concat, string_of};
use logru::textual::TextualUniverse;
use vstd::prelude::*;
use vstd::string::StrSliceExecFns;

verus! {

/// What one cell of a sheet holds.
#[derive(Debug)]
pub enum SheetCell {
    /// Nothing.
    Empty,
    /// A text.
    Text(String),
    /// Anything else: a number, a date, an error.
    Other,
}

/// The rows that a vector of rows of cells holds.
pub open spec fn sheet_view(rows: Seq<Vec<SheetCell>>) -> Seq<Seq<SheetCell>> {
    rows.map_values(|row: Vec<SheetCell>| row@)
}

/// Whether the cell holds the word that closes a board.
pub open spec fn is_end(cell: SheetCell) -> bool {
    cell matches SheetCell::Text(text) && text@ == seq!['e', 'n', 'd']
}

/// Whether the text is one character that takes one byte, as every token of
/// a board does.
pub open spec fn is_token(text: Seq<char>) -> bool {
    text.len() == 1 && (text[0] as u32) < 128
}

/// Whether the cell holds a text that is neither a token nor the closing
/// word. Such a cell spoils the board that was read so far.
pub open spec fn is_spoiler(cell: SheetCell) -> bool {
    cell matches SheetCell::Text(text) && !is_token(text@) && !is_end(cell)
}

/// Whether `i` is the place of the first closing word in the row.
pub open spec fn is_first_end(row: Seq<SheetCell>, i: int) -> bool {
    &&& 0 <= i < row.len()
    &&& is_end(row[i])
    &&& forall|j: int| 0 <= j < i ==> !is_end(#[trigger] row[j])
}

/// Whether the row holds the closing word.
pub open spec fn has_end(row: Seq<SheetCell>) -> bool {
    exists|i: int| is_first_end(row, i)
}

/// The cells of the row that count: those before its first closing word, or
/// all of them where it holds none.
pub open spec fn counted(row: Seq<SheetCell>) -> Seq<SheetCell> {
    if has_end(row) {
        row.take(choose|i: int| is_first_end(row, i))
    } else {
        row
    }
}

/// What a cell adds to the line of its row: a space for an empty cell, the
/// token for a cell that holds one, and nothing otherwise.
pub open spec fn cell_text(cell: SheetCell) -> Seq<char> {
    match cell {
        SheetCell::Empty => seq![' '],
        SheetCell::Text(text) => if is_token(text@) {
            text@
        } else {
            Seq::empty()
        },
        SheetCell::Other => Seq::empty(),
    }
}

/// The line of a row: a line break, and then what its cells add.
pub open spec fn row_line(cells: Seq<SheetCell>) -> Seq<char> {
    seq!['\n'] + concat(cells.map_values(|cell: SheetCell| cell_text(cell)))
}

/// Whether some cell spoils the board.
pub open spec fn spoils(cells: Seq<SheetCell>) -> bool {
    exists|i: int| 0 <= i < cells.len() && is_spoiler(#[trigger] cells[i])
}

/// The text of a cell that holds one.
pub open spec fn text_of(cell: SheetCell) -> Seq<char> {
    match cell {
        SheetCell::Text(text) => text@,
        _ => Seq::empty(),
    }
}

/// The texts of the cells that spoil a board, in their order.
pub open spec fn spoiler_texts(cells: Seq<SheetCell>) -> Seq<Seq<char>>
    decreases cells.len(),
{
    if cells.len() == 0 {
        Seq::empty()
    } else if is_spoiler(cells.last()) {
        spoiler_texts(cells.drop_last()).push(text_of(cells.last()))
    } else {
        spoiler_texts(cells.drop_last())
    }
}

/// The texts that spoil a board anywhere on a sheet, in the order of the
/// sheet: those of the cells that count.
pub open spec fn sheet_spoiler_texts(rows: Seq<Seq<SheetCell>>) -> Seq<Seq<char>>
    decreases rows.len(),
{
    if rows.len() == 0 {
        Seq::empty()
    } else {
        sheet_spoiler_texts(rows.drop_last()) + spoiler_texts(counted(rows.last()))
    }
}

/// Whether a line is left out of its board: the bare line break, and the
/// line break with five spaces.
pub open spec fn is_skipped_line(line: Seq<char>) -> bool {
    line == seq!['\n'] || line == seq!['\n', ' ', ' ', ' ', ' ', ' ']
}

/// Where the reading of a sheet stands: the boards that were closed, and the
/// text of the board that is open.
pub struct SheetScan {
    pub closed: Seq<Seq<char>>,
    pub open: Seq<char>,
}

/// The reading after one more row. The cells that count give the row's line.
/// A spoiler among them empties the open board. A closing word closes the
/// open board and opens a new one. After that the line joins the open board,
/// unless it is one that is left out.
pub open spec fn scan_row(before: SheetScan, row: Seq<SheetCell>) -> SheetScan {
    let cells = counted(row);
    let line = row_line(cells);
    let kept = if spoils(cells) {
        Seq::empty()
    } else {
        before.open
    };
    let closed = if has_end(row) {
        before.closed.push(kept)
    } else {
        before.closed
    };
    let open = if has_end(row) {
        Seq::empty()
    } else {
        kept
    };
    SheetScan {
        closed,
        open: if is_skipped_line(line) {
            open
        } else {
            open + line
        },
    }
}

/// The reading after the given rows, from the top row down.
pub open spec fn scan(rows: Seq<Seq<SheetCell>>) -> SheetScan
    decreases rows.len(),
{
    if rows.len() == 0 {
        SheetScan { closed: Seq::empty(), open: Seq::empty() }
    } else {
        scan_row(scan(rows.drop_last()), rows.last())
    }
}

/// The texts of the boards of a sheet of facts: each board that a closing
/// word closes, in the order of the sheet. What follows the last closing word
/// is no board.
pub open spec fn fact_boards(rows: Seq<Seq<SheetCell>>) -> Seq<Seq<char>> {
    scan(rows).closed
}

/// The text of the pattern of a query sheet: what its first closing word
/// closes. A sheet without a closing word holds no pattern.
pub open spec fn query_board(rows: Seq<Seq<SheetCell>>) -> Option<Seq<char>> {
    if fact_boards(rows).len() > 0 {
        Some(fact_boards(rows)[0])
    } else {
        None
    }
}

/// What one row gives: its line, the texts that spoil the open board, and
/// whether the row closes it.
struct RowScan {
    line: Vec<char>,
    spoilers: Vec<String>,
    ended: bool,
}

/// Whether the text is the closing word.
fn is_end_word(text: &str) -> (r: bool)
    ensures
        r == (text@ == seq!['e', 'n', 'd']),
{
    if text.unicode_len() != 3 {
        return false;
    }
    let r = text.get_char(0) == 'e' && text.get_char(1) == 'n' && text.get_char(2) == 'd';
    if r {
        assert(text@ =~= seq!['e', 'n', 'd']);
    }
    r
}

/// Some cell spoils the board just when there is a spoiling text.
proof fn lemma_spoils_by_texts(cells: Seq<SheetCell>)
    ensures
        spoils(cells) <==> spoiler_texts(cells).len() > 0,
    decreases cells.len(),
{
    if cells.len() > 0 {
        let before = cells.drop_last();
        lemma_spoils_by_texts(before);
        if spoils(before) {
            let j = choose|j: int| 0 <= j < before.len() && is_spoiler(#[trigger] before[j]);
            assert(is_spoiler(cells[j]));
        }
        if spoils(cells) {
            let j = choose|j: int| 0 <= j < cells.len() && is_spoiler(#[trigger] cells[j]);
            if j < cells.len() - 1 {
                assert(is_spoiler(before[j]));
            }
        }
    }
}

/// Reads one row of the sheet.
fn read_row(row: &Vec<SheetCell>) -> (r: RowScan)
    ensures
        r.line@ == row_line(counted(row@)),
        strings_view(r.spoilers@) == spoiler_texts(counted(row@)),
        r.ended == has_end(row@),
{
    let mut line: Vec<char> = Vec::new();
    line.push('\n');
    let mut spoilers: Vec<String> = Vec::new();
    let mut i: usize = 0;
    assert(row@.take(0) =~= Seq::<SheetCell>::empty());
    assert(line@ =~= row_line(row@.take(0)));
    assert(strings_view(spoilers@) =~= spoiler_texts(row@.take(0)));
    while i < row.len()
        invariant
            i <= row.len(),
            forall|j: int| 0 <= j < i ==> !is_end(#[trigger] row@[j]),
            line@ == row_line(row@.take(i as int)),
            strings_view(spoilers@) == spoiler_texts(row@.take(i as int)),
        decreases row.len() - i,
    {
        let ghost before = row@.take(i as int);
        let ghost next = row@.take(i + 1);
        let ghost found = strings_view(spoilers@);
        proof {
            assert(next.drop_last() =~= before);
            assert(next.last() == row@[i as int]);
            assert(next.map_values(|cell: SheetCell| cell_text(cell)).drop_last()
                =~= before.map_values(|cell: SheetCell| cell_text(cell)));
        }
        match &row[i] {
            SheetCell::Empty => {
                line.push(' ');
                assert(line@ =~= row_line(next));
            },
            SheetCell::Text(s) => {
                if is_end_word(s.as_str()) {
                    proof {
                        assert(is_first_end(row@, i as int));
                        let k = choose|k: int| is_first_end(row@, k);
                        assert(k == i);
                    }
                    return RowScan { line, spoilers, ended: true };
                } else if s.as_str().unicode_len() == 1 && (s.as_str().get_char(0) as u32) < 128 {
                    line.push(s.as_str().get_char(0));
                    assert(s@ =~= seq![s@[0]]);
                    assert(line@ =~= row_line(next));
                } else {
                    spoilers.push(s.clone());
                    assert(strings_view(spoilers@) =~= found.push(s@));
                    assert(line@ =~= row_line(next));
                }
            },
            SheetCell::Other => {
                assert(line@ =~= row_line(next));
            },
        }
        i += 1;
    }
    proof {
        assert(row@.take(i as int) =~= row@);
        assert(!has_end(row@)) by {
            if has_end(row@) {
                let k = choose|k: int| is_first_end(row@, k);
                assert(is_end(row@[k]));
            }
        }
    }
    RowScan { line, spoilers, ended: false }
}

/// Whether the line is one that is left out of its board.
fn is_skipped(line: &Vec<char>) -> (r: bool)
    requires
        line@.len() >= 1,
        line@[0] == '\n',
    ensures
        r == is_skipped_line(line@),
{
    if line.len() == 1 {
        assert(line@ =~= seq!['\n']);
        return true;
    }
    if line.len() != 6 {
        return false;
    }
    let r = line[1] == ' ' && line[2] == ' ' && line[3] == ' ' && line[4] == ' ' && line[5] == ' ';
    if r {
        assert(line@ =~= seq!['\n', ' ', ' ', ' ', ' ', ' ']);
    }
    r
}

/// The texts on a sheet that spoil a board, in the order of the sheet: what
/// to show to whoever has to mend the sheet.
pub fn sheet_spoilers(rows: &Vec<Vec<SheetCell>>) -> (r: Vec<String>)
    ensures
        strings_view(r@) == sheet_spoiler_texts(sheet_view(rows@)),
{
    let ghost sheet = sheet_view(rows@);
    let mut spoilers: Vec<String> = Vec::new();
    let mut i: usize = 0;
    assert(sheet.take(0) =~= Seq::<Seq<SheetCell>>::empty());
    assert(strings_view(spoilers@) =~= sheet_spoiler_texts(sheet.take(0)));
    while i < rows.len()
        invariant
            i <= rows.len(),
            sheet == sheet_view(rows@),
            strings_view(spoilers@) == sheet_spoiler_texts(sheet.take(i as int)),
        decreases rows.len() - i,
    {
        let ghost found = strings_view(spoilers@);
        proof {
            assert(sheet.take(i + 1).drop_last() =~= sheet.take(i as int));
            assert(sheet.take(i + 1).last() == rows@[i as int]@);
        }
        let row = read_row(&rows[i]);
        let mut more = row.spoilers;
        let ghost added = strings_view(more@);
        spoilers.append(&mut more);
        assert(strings_view(spoilers@) =~= found + added);
        i += 1;
    }
    assert(sheet.take(i as int) =~= sheet);
    spoilers
}

/// The texts of the boards of a sheet of facts, in the order of the sheet.
pub fn sheet_boards(rows: &Vec<Vec<SheetCell>>) -> (r: Vec<String>)
    ensures
        strings_view(r@) == fact_boards(sheet_view(rows@)),
{
    let ghost sheet = sheet_view(rows@);
    let mut boards: Vec<String> = Vec::new();
    let mut board: Vec<char> = Vec::new();
    let mut i: usize = 0;
    assert(sheet.take(0) =~= Seq::<Seq<SheetCell>>::empty());
    assert(strings_view(boards@) =~= scan(sheet.take(0)).closed);
    while i < rows.len()
        invariant
            i <= rows.len(),
            sheet == sheet_view(rows@),
            strings_view(boards@) == scan(sheet.take(i as int)).closed,
            board@ == scan(sheet.take(i as int)).open,
        decreases rows.len() - i,
    {
        let ghost closed_before = strings_view(boards@);
        proof {
            assert(sheet.take(i + 1).drop_last() =~= sheet.take(i as int));
            assert(sheet.take(i + 1).last() == rows@[i as int]@);
        }
        let row = read_row(&rows[i]);
        proof {
            lemma_spoils_by_texts(counted(rows@[i as int]@));
        }
        if row.spoilers.len() > 0 {
            board = Vec::new();
        }
        if row.ended {
            let text = string_of(&board);
            boards.push(text);
            board = Vec::new();
            assert(strings_view(boards@) =~= closed_before.push(text@));
        }
        assert(row.line@[0] == '\n');
        if !is_skipped(&row.line) {
            let mut line = row.line;
            let ghost open = board@;
            let ghost added = line@;
            board.append(&mut line);
            assert(board@ =~= open + added);
        }
        i += 1;
    }
    assert(sheet.take(i as int) =~= sheet);
    boards
}

/// Reads a sheet. A sheet of facts (`qry` is false) has each of its boards
/// offered to the database, in the order of the sheet; a text that is no
/// board is passed over. A query sheet (`qry` is true) leaves the database as
/// it is and gives the text of its pattern. The database after a sheet of
/// facts is stated for a database of facts without variables.
pub fn parse_sheet(rows: &Vec<Vec<SheetCell>>, tu: &mut TextualUniverse, qry: bool) -> (r: Option<
    String,
>)
    ensures
        qry ==> universe_rules(*final(tu)) == universe_rules(*old(tu)) && match r {
            Some(pattern) => query_board(sheet_view(rows@)) == Some(pattern@),
            None => query_board(sheet_view(rows@)) is None,
        },
        !qry ==> r is None,
        !qry && ground_facts(universe_rules(*old(tu))) ==> universe_rules(*final(tu))
            == after_loads(universe_rules(*old(tu)), fact_boards(sheet_view(rows@)))
            && ground_facts(universe_rules(*final(tu))),
{
    let boards = sheet_boards(rows);
    let ghost all = strings_view(boards@);
    if qry {
        if boards.len() > 0 {
            assert(all[0] == boards@[0]@);
            return Some(boards[0].clone());
        }
        return None;
    }
    let mut i: usize = 0;
    assert(all.take(0) =~= Seq::<Seq<char>>::empty());
    while i < boards.len()
        invariant
            i <= boards.len(),
            all == strings_view(boards@),
            ground_facts(universe_rules(*old(tu))) ==> universe_rules(*tu) == after_loads(
                universe_rules(*old(tu)),
                all.take(i as int),
            ) && ground_facts(universe_rules(*tu)),
        decreases boards.len() - i,
    {
        proof {
            assert(all.take(i + 1).drop_last() =~= all.take(i as int));
            assert(all.take(i + 1).last() == boards@[i as int]@);
        }
        let _ = load_str_board(tu, boards[i].as_str());
        i += 1;
    }
    assert(all.take(i as int) =~= all);
    None
}

} // verus!
