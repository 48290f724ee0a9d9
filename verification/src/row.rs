//! A row of a board: six cells, left to right.

use crate::puyo::{lemma_plain_roundtrip, InvalidPuyoError, InvalidPuyoKind, Puyo};
use crate::text::{chars_of, decimal, free_of, join, push_decimal};
use vstd::prelude::*;
use vstd::string::StringExecFns;

verus! {

/// Six cells, left to right.
#[derive(Debug, Clone, Copy)]
pub struct NormalRow {
    puyo: [Puyo; 6],
}

/// A row written as a term of the fact language, such as
/// `row(r, r, g, b, y, y)`.
#[derive(Debug)]
pub struct TextDBRow {
    row: String,
}

/// Whether every character of `text` is a token of the plain alphabet.
pub open spec fn all_known(text: Seq<char>) -> bool {
    forall|i: int| 0 <= i < text.len() ==> Puyo::of_plain_char(#[trigger] text[i]) is Some
}

/// Whether `i` is the first position of `text` whose character is no token
/// of the plain alphabet.
pub open spec fn is_first_unknown(text: Seq<char>, i: int) -> bool {
    &&& 0 <= i < text.len()
    &&& Puyo::of_plain_char(text[i]) is None
    &&& all_known(text.take(i))
}

/// The first position of `text` whose character is no token of the plain
/// alphabet, where there is one.
pub open spec fn first_unknown(text: Seq<char>) -> int {
    choose|i: int| is_first_unknown(text, i)
}

/// The sentence that reports a row of `n` cells.
pub open spec fn row_length_message(n: nat) -> Seq<char> {
    "Invalid number of puyo: "@ + decimal(n)
}

/// What a text is as a row. The first character that is no token is
/// reported before a wrong length is.
pub open spec fn parse_row(text: Seq<char>) -> Result<Seq<Puyo>, (InvalidPuyoKind, Seq<char>)> {
    if !all_known(text) {
        Err((InvalidPuyoKind::CellToken, seq![text[first_unknown(text)]]))
    } else if text.len() != 6 {
        Err((InvalidPuyoKind::RowLength, row_length_message(text.len())))
    } else {
        Ok(text.map_values(|c: char| Puyo::of_plain_char(c)->0))
    }
}

/// A row in the plain alphabet: one character for each cell.
pub open spec fn plain_row_text(row: Seq<Puyo>) -> Seq<char> {
    row.map_values(|p: Puyo| p.plain_char())
}

/// A row for a colour terminal: the display tokens of its cells, one after
/// the other.
pub open spec fn display_row_text(row: Seq<Puyo>) -> Seq<char>
    decreases row.len(),
{
    if row.len() == 0 {
        Seq::empty()
    } else {
        display_row_text(row.drop_last()) + row.last().display_text()
    }
}

/// A row as a term of the fact language: `row(`, the fact-language tokens of
/// its cells with `, ` between them, and `)`.
pub open spec fn fact_row_text(row: Seq<Puyo>) -> Seq<char> {
    "row("@ + join(row.map_values(|p: Puyo| seq![p.fact_char()]), ", "@) + ")"@
}

/// The row of six empty cells.
pub open spec fn empty_row() -> Seq<Puyo> {
    Seq::new(6, |i: int| Puyo::Empty)
}

/// The row of six garbage cells.
pub open spec fn garbage_row() -> Seq<Puyo> {
    Seq::new(6, |i: int| Puyo::Garbage)
}

impl View for NormalRow {
    type V = Seq<Puyo>;

    closed spec fn view(&self) -> Seq<Puyo> {
        self.puyo@
    }
}

impl View for TextDBRow {
    type V = Seq<char>;

    closed spec fn view(&self) -> Seq<char> {
        self.row@
    }
}

impl TextDBRow {
    /// The text of the term.
    pub fn as_str(&self) -> (r: &str)
        ensures
            r@ == self@,
    {
        self.row.as_str()
    }
}

impl NormalRow {
    /// Every row has six cells.
    pub broadcast proof fn lemma_width(&self)
        ensures
            #[trigger] self@.len() == 6,
    {
        broadcast use vstd::array::group_array_axioms;

    }

    /// The row of six garbage cells, which stands in for a row that cannot be
    /// read.
    pub fn garbage() -> (r: NormalRow)
        ensures
            r@ == garbage_row(),
    {
        broadcast use vstd::array::group_array_axioms;

        let r = NormalRow {
            puyo: [
                Puyo::Garbage,
                Puyo::Garbage,
                Puyo::Garbage,
                Puyo::Garbage,
                Puyo::Garbage,
                Puyo::Garbage,
            ],
        };
        assert(r@ =~= garbage_row());
        r
    }

    /// The row of six empty cells.
    pub fn empty() -> (r: NormalRow)
        ensures
            r@ == empty_row(),
    {
        broadcast use vstd::array::group_array_axioms;

        let r = NormalRow {
            puyo: [Puyo::Empty, Puyo::Empty, Puyo::Empty, Puyo::Empty, Puyo::Empty, Puyo::Empty],
        };
        assert(r@ =~= empty_row());
        r
    }

    /// The cell in column `i`, counted from the left.
    pub fn get(&self, i: usize) -> (p: Puyo)
        requires
            i < 6,
        ensures
            p == self@[i as int],
    {
        self.puyo[i]
    }

    /// Reads a row from its characters in the plain alphabet.
    pub fn from_chars(cells: &Vec<char>) -> (r: Result<Self, InvalidPuyoError>)
        ensures
            match r {
                Ok(row) => parse_row(cells@) == Ok::<Seq<Puyo>, (InvalidPuyoKind, Seq<char>)>(row@),
                Err(e) => parse_row(cells@) == Err::<Seq<Puyo>, (InvalidPuyoKind, Seq<char>)>(e@),
            },
    {
        broadcast use vstd::array::group_array_axioms;

        let mut row_vec: Vec<Puyo> = Vec::new();
        let mut i: usize = 0;
        while i < cells.len()
            invariant
                i <= cells.len(),
                row_vec@.len() == i,
                all_known(cells@.take(i as int)),
                forall|j: int|
                    0 <= j < i ==> Puyo::of_plain_char(cells@[j]) == Some(#[trigger] row_vec@[j]),
            decreases cells.len() - i,
        {
            match Puyo::from_char(cells[i]) {
                Some(p) => {
                    row_vec.push(p);
                },
                None => {
                    proof {
                        assert(is_first_unknown(cells@, i as int));
                        assert(!all_known(cells@)) by {
                            assert(Puyo::of_plain_char(cells@[i as int]) is None);
                        }
                        let k = first_unknown(cells@);
                        assert(is_first_unknown(cells@, k));
                        if k < i {
                            assert(cells@.take(i as int)[k] == cells@[k]);
                        }
                        if i < k {
                            assert(cells@.take(k)[i as int] == cells@[i as int]);
                        }
                    }
                    let mut token = String::new();
                    token.push(cells[i]);
                    return Err(
                        InvalidPuyoError { kind: InvalidPuyoKind::CellToken, invalid_puyo: token },
                    );
                },
            }
            i += 1;
            proof {
                assert forall|j: int| 0 <= j < i implies Puyo::of_plain_char(
                    #[trigger] cells@.take(i as int)[j],
                ) is Some by {
                    if j < i - 1 {
                        assert(cells@.take(i - 1)[j] == cells@[j]);
                    }
                }
            }
        }
        assert(cells@.take(i as int) =~= cells@);
        if row_vec.len() != 6 {
            let mut message = String::from_str("Invalid number of puyo: ");
            push_decimal(&mut message, row_vec.len() as u128);
            return Err(
                InvalidPuyoError { kind: InvalidPuyoKind::RowLength, invalid_puyo: message },
            );
        }
        let row = NormalRow {
            puyo: [row_vec[0], row_vec[1], row_vec[2], row_vec[3], row_vec[4], row_vec[5]],
        };
        assert(row@ =~= cells@.map_values(|c: char| Puyo::of_plain_char(c)->0));
        Ok(row)
    }

    /// Reads a row from a text of six characters in the plain alphabet, such
    /// as `rggb y`.
    pub fn from_str(row: &str) -> (r: Result<Self, InvalidPuyoError>)
        ensures
            match r {
                Ok(row_read) => parse_row(row@) == Ok::<Seq<Puyo>, (InvalidPuyoKind, Seq<char>)>(
                    row_read@,
                ),
                Err(e) => parse_row(row@) == Err::<Seq<Puyo>, (InvalidPuyoKind, Seq<char>)>(e@),
            },
    {
        let cells = chars_of(row);
        NormalRow::from_chars(&cells)
    }

    /// Writes the row in the plain alphabet.
    pub fn to_str(&self) -> (r: String)
        ensures
            r@ == plain_row_text(self@),
    {
        broadcast use vstd::array::group_array_axioms;

        let mut row_str = String::new();
        let mut i: usize = 0;
        while i < 6
            invariant
                i <= 6,
                row_str@ == plain_row_text(self@.take(i as int)),
            decreases 6 - i,
        {
            row_str.push(self.puyo[i].to_char());
            i += 1;
        }
        assert(self@.take(6) =~= self@);
        row_str
    }

    /// Writes the row for a colour terminal.
    pub fn to_color_str(&self) -> (r: String)
        ensures
            r@ == display_row_text(self@),
    {
        broadcast use vstd::array::group_array_axioms;

        let mut row_str = String::new();
        let mut i: usize = 0;
        while i < 6
            invariant
                i <= 6,
                row_str@ == display_row_text(self@.take(i as int)),
            decreases 6 - i,
        {
            let token = self.puyo[i].to_color_str();
            row_str.append(token.as_str());
            assert(self@.take(i + 1).drop_last() =~= self@.take(i as int));
            i += 1;
        }
        assert(self@.take(6) =~= self@);
        row_str
    }

    /// Writes the row as a term of the fact language.
    pub fn to_text_db_row(&self) -> (r: TextDBRow)
        ensures
            r@ == fact_row_text(self@),
    {
        broadcast use vstd::array::group_array_axioms;

        let mut row_str = String::from_str("row(");
        let ghost tokens = self@.map_values(|p: Puyo| seq![p.fact_char()]);
        let mut i: usize = 0;
        while i < 6
            invariant
                i <= 6,
                tokens == self@.map_values(|p: Puyo| seq![p.fact_char()]),
                row_str@ == "row("@ + join(tokens.take(i as int), ", "@),
            decreases 6 - i,
        {
            if i > 0 {
                row_str.append(", ");
            }
            row_str.push(self.puyo[i].to_text_db_char());
            proof {
                assert(tokens.take(i + 1).drop_last() =~= tokens.take(i as int));
                assert(tokens.take(i + 1).last() == seq![self@[i as int].fact_char()]);
            }
            i += 1;
        }
        assert(tokens.take(6) =~= tokens);
        row_str.append(")");
        TextDBRow { row: row_str }
    }
}

/// Reading back the plain text of a row gives that row, and the text holds
/// no line break.
pub proof fn lemma_row_roundtrip(row: Seq<Puyo>)
    requires
        row.len() == 6,
    ensures
        parse_row(plain_row_text(row)) == Ok::<Seq<Puyo>, (InvalidPuyoKind, Seq<char>)>(row),
        free_of(plain_row_text(row), '\n'),
        plain_row_text(row).len() == 6,
{
    let text = plain_row_text(row);
    assert forall|i: int| 0 <= i < text.len() implies Puyo::of_plain_char(#[trigger] text[i])
        == Some(row[i]) by {
        lemma_plain_roundtrip(row[i]);
    }
    assert(text.map_values(|c: char| Puyo::of_plain_char(c)->0) =~= row);
}

} // verus!
