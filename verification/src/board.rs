//! A board: a stack of rows, the topmost first.

use crate::puyo::{InvalidPuyoError, InvalidPuyoKind, Puyo};
use crate::row::{
    display_row_text, empty_row, fact_row_text, lemma_row_roundtrip, parse_row, plain_row_text,
    NormalRow,
};
use crate::text::{
    chars_of, decimal, free_of, join, lemma_join_free_of, lemma_join_push,
    lemma_join_starts_with_first, lemma_split_lines_len, lemma_split_lines_of_join, lines_of,
    push_decimal, split_lines, texts, trim_newlines, trimmed,
};
use vstd::prelude::*;
use vstd::string::StringExecFns;

verus! {

/// A stack of rows, the topmost first. A board that was read from text has at
/// most thirteen of them.
#[derive(Debug)]
pub struct NormalBoard {
    rows: Vec<NormalRow>,
}

/// A board written as a fact of the fact language: thirteen row terms inside
/// `board(` and `).`.
#[derive(Debug)]
pub struct TextDBBoard {
    board: String,
}

/// The rows that a vector of rows holds.
pub open spec fn rows_view(rows: Seq<NormalRow>) -> Seq<Seq<Puyo>> {
    rows.map_values(|row: NormalRow| row@)
}

/// What the lines are as rows, from the first line on; the first line that is
/// no row decides the error.
pub open spec fn parse_rows(lines: Seq<Seq<char>>) -> Result<
    Seq<Seq<Puyo>>,
    (InvalidPuyoKind, Seq<char>),
>
    decreases lines.len(),
{
    if lines.len() == 0 {
        Ok(Seq::empty())
    } else {
        match parse_rows(lines.drop_last()) {
            Err(e) => Err(e),
            Ok(rows) => match parse_row(lines.last()) {
                Err(e) => Err(e),
                Ok(row) => Ok(rows.push(row)),
            },
        }
    }
}

/// The sentence that reports a board of `n` rows.
pub open spec fn board_height_message(n: nat) -> Seq<char> {
    "Invalid number of rows: "@ + decimal(n)
}

/// What a text is as a board. One line break at the start and one at the end
/// do not count; every line in between is a row, and a line that is no row is
/// reported before too many rows are.
pub open spec fn parse_board(text: Seq<char>) -> Result<
    Seq<Seq<Puyo>>,
    (InvalidPuyoKind, Seq<char>),
> {
    match parse_rows(split_lines(trimmed(text))) {
        Err(e) => Err(e),
        Ok(rows) => if rows.len() > 13 {
            Err((InvalidPuyoKind::BoardHeight, board_height_message(rows.len())))
        } else {
            Ok(rows)
        },
    }
}

/// A board in the plain alphabet: each row followed by a line break.
pub open spec fn plain_board_text(rows: Seq<Seq<Puyo>>) -> Seq<char>
    decreases rows.len(),
{
    if rows.len() == 0 {
        Seq::empty()
    } else {
        plain_board_text(rows.drop_last()) + plain_row_text(rows.last()) + seq!['\n']
    }
}

/// A board for a colour terminal: each row followed by a line break.
pub open spec fn display_board_text(rows: Seq<Seq<Puyo>>) -> Seq<char>
    decreases rows.len(),
{
    if rows.len() == 0 {
        Seq::empty()
    } else {
        display_board_text(rows.drop_last()) + display_row_text(rows.last()) + seq!['\n']
    }
}

/// The board in a frame of thirteen rows: empty rows on top, the given rows
/// at the bottom. A board that is already that high stays as it is.
pub open spec fn padded(rows: Seq<Seq<Puyo>>) -> Seq<Seq<Puyo>> {
    if rows.len() >= 13 {
        rows
    } else {
        Seq::new((13 - rows.len()) as nat, |i: int| empty_row()) + rows
    }
}

/// The row terms of a framed board.
pub open spec fn fact_row_terms(rows: Seq<Seq<Puyo>>) -> Seq<Seq<char>> {
    padded(rows).map_values(|row: Seq<Puyo>| fact_row_text(row))
}

/// A board as a fact: `board(`, the row terms of the framed board with `, `
/// between them, and `).`.
pub open spec fn fact_board_text(rows: Seq<Seq<Puyo>>) -> Seq<char> {
    "board("@ + join(fact_row_terms(rows), ", "@) + ")."@
}

impl View for NormalBoard {
    type V = Seq<Seq<Puyo>>;

    closed spec fn view(&self) -> Seq<Seq<Puyo>> {
        rows_view(self.rows@)
    }
}

impl View for TextDBBoard {
    type V = Seq<char>;

    closed spec fn view(&self) -> Seq<char> {
        self.board@
    }
}

impl TextDBBoard {
    /// The text of the fact.
    pub fn as_str(&self) -> (r: &str)
        ensures
            r@ == self@,
    {
        self.board.as_str()
    }
}

impl NormalBoard {
    /// Every row of a board has six cells.
    pub proof fn lemma_rows_wide(&self)
        ensures
            forall|i: int| 0 <= i < self@.len() ==> (#[trigger] self@[i]).len() == 6,
    {
        assert forall|i: int| 0 <= i < self@.len() implies (#[trigger] self@[i]).len() == 6 by {
            self.rows@[i].lemma_width();
        }
    }

    /// The board of the given rows, the topmost first.
    pub fn from_rows(rows: Vec<NormalRow>) -> (r: NormalBoard)
        ensures
            r@ == rows_view(rows@),
    {
        NormalBoard { rows }
    }

    /// The number of rows.
    pub fn height(&self) -> (n: usize)
        ensures
            n == self@.len(),
    {
        self.rows.len()
    }

    /// The row at `i`, counted from the top.
    pub fn row(&self, i: usize) -> (r: &NormalRow)
        requires
            i < self@.len(),
        ensures
            r@ == self@[i as int],
    {
        &self.rows[i]
    }

    /// Reads a board of up to thirteen lines of six characters each, the top
    /// of the board first.
    pub fn from_str(board: &str) -> (r: Result<Self, InvalidPuyoError>)
        ensures
            match r {
                Ok(b) => parse_board(board@) == Ok::<Seq<Seq<Puyo>>, (InvalidPuyoKind, Seq<char>)>(
                    b@,
                ),
                Err(e) => parse_board(board@) == Err::<
                    Seq<Seq<Puyo>>,
                    (InvalidPuyoKind, Seq<char>),
                >(e@),
            },
    {
        let cleaned = chars_of(trim_newlines(board));
        let lines = lines_of(&cleaned);
        let mut board_vec: Vec<NormalRow> = Vec::new();
        let mut i: usize = 0;
        assert(texts(lines@).take(0) =~= Seq::empty());
        assert(rows_view(board_vec@) =~= Seq::empty());
        while i < lines.len()
            invariant
                i <= lines.len(),
                texts(lines@) == split_lines(trimmed(board@)),
                parse_rows(texts(lines@).take(i as int)) == Ok::<
                    Seq<Seq<Puyo>>,
                    (InvalidPuyoKind, Seq<char>),
                >(rows_view(board_vec@)),
                board_vec@.len() == i,
            decreases lines.len() - i,
        {
            let ghost before = rows_view(board_vec@);
            proof {
                assert(texts(lines@).take(i + 1).drop_last() =~= texts(lines@).take(i as int));
                assert(texts(lines@).take(i + 1).last() == lines@[i as int]@);
            }
            match NormalRow::from_chars(&lines[i]) {
                Ok(row) => {
                    board_vec.push(row);
                    assert(rows_view(board_vec@) =~= before.push(row@));
                },
                Err(e) => {
                    proof {
                        lemma_parse_rows_prefix_error(texts(lines@), i + 1);
                    }
                    return Err(e);
                },
            }
            i += 1;
        }
        assert(texts(lines@).take(i as int) =~= texts(lines@));
        if board_vec.len() > 13 {
            let mut message = String::from_str("Invalid number of rows: ");
            push_decimal(&mut message, board_vec.len() as u128);
            return Err(
                InvalidPuyoError { kind: InvalidPuyoKind::BoardHeight, invalid_puyo: message },
            );
        }
        Ok(NormalBoard { rows: board_vec })
    }

    /// Writes the board in the plain alphabet, one row to a line.
    pub fn to_str(&self) -> (r: String)
        ensures
            r@ == plain_board_text(self@),
    {
        let mut board_str = String::new();
        let mut i: usize = 0;
        while i < self.rows.len()
            invariant
                i <= self.rows.len(),
                board_str@ == plain_board_text(self@.take(i as int)),
            decreases self.rows.len() - i,
        {
            let row_str = self.rows[i].to_str();
            board_str.append(row_str.as_str());
            board_str.push('\n');
            assert(self@.take(i + 1).drop_last() =~= self@.take(i as int));
            i += 1;
        }
        assert(self@.take(i as int) =~= self@);
        board_str
    }

    /// Writes the board for a colour terminal, one row to a line.
    pub fn to_color_str(&self) -> (r: String)
        ensures
            r@ == display_board_text(self@),
    {
        let mut board_str = String::new();
        let mut i: usize = 0;
        while i < self.rows.len()
            invariant
                i <= self.rows.len(),
                board_str@ == display_board_text(self@.take(i as int)),
            decreases self.rows.len() - i,
        {
            let row_str = self.rows[i].to_color_str();
            board_str.append(row_str.as_str());
            board_str.push('\n');
            assert(self@.take(i + 1).drop_last() =~= self@.take(i as int));
            i += 1;
        }
        assert(self@.take(i as int) =~= self@);
        board_str
    }

    /// Writes the board as a fact for the database: framed to thirteen rows,
    /// with the empty rows on top. The text holds no `$`, so nothing in it can
    /// be taken for a variable.
    pub fn to_text_db_board(&self) -> (r: TextDBBoard)
        ensures
            r@ == fact_board_text(self@),
            free_of(r@, '$'),
    {
        let blank = NormalRow::empty().to_text_db_row();
        let height = self.rows.len();
        let padding: usize = if height < 13 {
            13 - height
        } else {
            0
        };
        let total: usize = if height < 13 {
            13
        } else {
            height
        };
        let ghost terms = fact_row_terms(self@);
        let mut board_str = String::from_str("board(");
        let mut k: usize = 0;
        while k < total
            invariant
                k <= total,
                height == self.rows.len(),
                total == padding + height,
                padding == if height < 13 {
                    13 - height
                } else {
                    0
                },
                terms == fact_row_terms(self@),
                terms.len() == total,
                blank@ == fact_row_text(empty_row()),
                board_str@ == "board("@ + join(terms.take(k as int), ", "@),
            decreases total - k,
        {
            if k > 0 {
                board_str.append(", ");
            }
            proof {
                lemma_join_push(terms.take(k as int), ", "@, terms[k as int]);
                assert(terms.take(k + 1) =~= terms.take(k as int).push(terms[k as int]));
            }
            if k < padding {
                board_str.append(blank.as_str());
            } else {
                let term = self.rows[k - padding].to_text_db_row();
                board_str.append(term.as_str());
            }
            k += 1;
        }
        assert(terms.take(k as int) =~= terms);
        board_str.append(").");
        proof {
            lemma_fact_board_text_plain(self@, '$');
        }
        TextDBBoard { board: board_str }
    }
}

/// The rows that lines read as are as many as the lines, and each has six
/// cells.
pub proof fn lemma_parse_rows_shape(lines: Seq<Seq<char>>)
    ensures
        parse_rows(lines) matches Ok(rows) ==> rows.len() == lines.len() && forall|i: int|
            0 <= i < rows.len() ==> (#[trigger] rows[i]).len() == 6,
    decreases lines.len(),
{
    if lines.len() > 0 {
        lemma_parse_rows_shape(lines.drop_last());
    }
}

/// A board that a text reads as has one to thirteen rows of six cells.
pub proof fn lemma_parse_board_shape(text: Seq<char>)
    ensures
        parse_board(text) matches Ok(rows) ==> 1 <= rows.len() <= 13 && forall|i: int|
            0 <= i < rows.len() ==> (#[trigger] rows[i]).len() == 6,
{
    lemma_parse_rows_shape(split_lines(trimmed(text)));
    lemma_split_lines_len(trimmed(text));
}

/// Once a line is no row, no longer list of lines is a list of rows, and the
/// error stays that of the first such line.
pub proof fn lemma_parse_rows_prefix_error(lines: Seq<Seq<char>>, n: int)
    requires
        0 <= n <= lines.len(),
        parse_rows(lines.take(n)) is Err,
    ensures
        parse_rows(lines) == parse_rows(lines.take(n)),
    decreases lines.len() - n,
{
    if n < lines.len() {
        assert(lines.take(n + 1).drop_last() =~= lines.take(n));
        lemma_parse_rows_prefix_error(lines, n + 1);
    } else {
        assert(lines.take(n) =~= lines);
    }
}

/// Whether `c` is a character that the fact of no board holds. The `$` and
/// the `:` are such characters.
pub open spec fn is_foreign_to_facts(c: char) -> bool {
    c == '$' || c == ':'
}

/// The fact of a board holds neither `$` nor `:`, whatever the board.
pub proof fn lemma_fact_board_text_plain(rows: Seq<Seq<Puyo>>, c: char)
    requires
        is_foreign_to_facts(c),
    ensures
        free_of(fact_board_text(rows), c),
{
    reveal_strlit("board(");
    reveal_strlit(", ");
    reveal_strlit(").");
    reveal_strlit("row(");
    reveal_strlit(")");
    let terms = fact_row_terms(rows);
    assert forall|i: int| 0 <= i < terms.len() implies free_of(#[trigger] terms[i], c) by {
        let row = padded(rows)[i];
        let tokens = row.map_values(|p: Puyo| seq![p.fact_char()]);
        assert forall|j: int| 0 <= j < tokens.len() implies free_of(#[trigger] tokens[j], c) by {
        }
        lemma_join_free_of(tokens, ", "@, c);
    }
    lemma_join_free_of(terms, ", "@, c);
}

/// A framed board has thirteen rows. The rows of a board of height `h` stand
/// unchanged and in their order in the last `h` places; the `13 - h` rows
/// above them are empty.
pub proof fn lemma_frame_bottom_anchored(rows: Seq<Seq<Puyo>>)
    requires
        rows.len() <= 13,
    ensures
        padded(rows).len() == 13,
        fact_row_terms(rows).len() == 13,
        forall|i: int| 0 <= i < 13 - rows.len() ==> #[trigger] padded(rows)[i] == empty_row(),
        forall|i: int|
            0 <= i < rows.len() ==> #[trigger] padded(rows)[13 - rows.len() + i] == rows[i],
        forall|i: int|
            0 <= i < 13 - rows.len() ==> #[trigger] fact_row_terms(rows)[i] == fact_row_text(
                empty_row(),
            ),
        forall|i: int|
            0 <= i < rows.len() ==> #[trigger] fact_row_terms(rows)[13 - rows.len() + i]
                == fact_row_text(rows[i]),
{
}

/// The plain texts of the rows of a board, one for each row.
pub open spec fn plain_lines(rows: Seq<Seq<Puyo>>) -> Seq<Seq<char>> {
    rows.map_values(|row: Seq<Puyo>| plain_row_text(row))
}

/// The plain text of a board of one or more rows is its lines joined with
/// line breaks, and one more line break.
pub proof fn lemma_plain_board_text_is_join(rows: Seq<Seq<Puyo>>)
    requires
        rows.len() >= 1,
    ensures
        plain_board_text(rows) == join(plain_lines(rows), seq!['\n']) + seq!['\n'],
    decreases rows.len(),
{
    assert(plain_lines(rows).drop_last() =~= plain_lines(rows.drop_last()));
    if rows.len() == 1 {
        assert(plain_board_text(rows.drop_last()) =~= Seq::<char>::empty());
        assert(plain_board_text(rows) =~= plain_row_text(rows[0]) + seq!['\n']);
    } else {
        lemma_plain_board_text_is_join(rows.drop_last());
        assert(plain_board_text(rows) =~= join(plain_lines(rows), seq!['\n']) + seq!['\n']);
    }
}

/// The plain lines of rows of six cells read back as those rows.
pub proof fn lemma_parse_plain_lines(rows: Seq<Seq<Puyo>>)
    requires
        forall|i: int| 0 <= i < rows.len() ==> (#[trigger] rows[i]).len() == 6,
    ensures
        parse_rows(plain_lines(rows)) == Ok::<Seq<Seq<Puyo>>, (InvalidPuyoKind, Seq<char>)>(rows),
    decreases rows.len(),
{
    if rows.len() == 0 {
        assert(rows =~= Seq::<Seq<Puyo>>::empty());
    } else {
        assert(plain_lines(rows).drop_last() =~= plain_lines(rows.drop_last()));
        lemma_parse_plain_lines(rows.drop_last());
        lemma_row_roundtrip(rows.last());
        assert(rows.drop_last().push(rows.last()) =~= rows);
    }
}

/// Reading back the plain text of a board gives that board, for every board
/// of one to thirteen rows. (The board without rows is written as the empty
/// text, which reads as one line that is no row.)
pub proof fn lemma_board_roundtrip(rows: Seq<Seq<Puyo>>)
    requires
        1 <= rows.len() <= 13,
        forall|i: int| 0 <= i < rows.len() ==> (#[trigger] rows[i]).len() == 6,
    ensures
        parse_board(plain_board_text(rows)) == Ok::<Seq<Seq<Puyo>>, (InvalidPuyoKind, Seq<char>)>(
            rows,
        ),
{
    let lines = plain_lines(rows);
    let joined = join(lines, seq!['\n']);
    let text = plain_board_text(rows);
    lemma_plain_board_text_is_join(rows);
    assert forall|i: int| 0 <= i < lines.len() implies free_of(#[trigger] lines[i], '\n') by {
        lemma_row_roundtrip(rows[i]);
    }
    lemma_row_roundtrip(rows[0]);
    lemma_join_starts_with_first(lines, seq!['\n']);
    assert(text[0] == joined.take(6)[0]);
    assert(text[0] == lines[0][0]);
    assert(text[0] != '\n');
    assert(text.drop_last() =~= joined);
    assert(trimmed(text) == joined);
    lemma_split_lines_of_join(lines);
    lemma_parse_plain_lines(rows);
}

} // verus!
