//! A single cell of a board and its three one-token encodings.

use vstd::prelude::*;
use vstd::string::StringExecFns;
use vstd::string::StrSliceExecFns;

verus! {

/// What one position of a board holds.
#[derive(Debug, Clone, Copy, PartialEq, Eq, Structural)]
pub enum Puyo {
    B,
    G,
    P,
    R,
    Y,
    Empty,
    Garbage,
}

/// Which rule a rejected text broke.
#[derive(Debug, Clone, Copy, PartialEq, Eq, Structural)]
pub enum InvalidPuyoKind {
    /// A token that no cell is written as.
    CellToken,
    /// A row that does not hold exactly six cells.
    RowLength,
    /// A board of more than thirteen rows.
    BoardHeight,
}

/// Why a text is no cell, no row or no board.
#[derive(Debug)]
pub struct InvalidPuyoError {
    pub kind: InvalidPuyoKind,
    /// The offending token for `CellToken`; otherwise a sentence with the
    /// count that was found.
    pub invalid_puyo: String,
}

impl View for InvalidPuyoError {
    type V = (InvalidPuyoKind, Seq<char>);

    /// The error as plain values: its kind and its text.
    open spec fn view(&self) -> (InvalidPuyoKind, Seq<char>) {
        (self.kind, self.invalid_puyo@)
    }
}

impl InvalidPuyoError {
    /// The text that describes the error.
    pub fn message(&self) -> (r: String)
        ensures
            r@ == self.invalid_puyo@,
    {
        self.invalid_puyo.clone()
    }
}

impl Puyo {
    /// The token of this cell in the plain alphabet.
    pub open spec fn plain_char(self) -> char {
        match self {
            Puyo::B => 'b',
            Puyo::G => 'g',
            Puyo::P => 'p',
            Puyo::R => 'r',
            Puyo::Y => 'y',
            Puyo::Empty => ' ',
            Puyo::Garbage => 'j',
        }
    }

    /// The token of this cell in the fact language: the plain token, but for
    /// the empty cell, which is written `l`.
    pub open spec fn fact_char(self) -> char {
        match self {
            Puyo::Empty => 'l',
            _ => self.plain_char(),
        }
    }

    /// The token of this cell for a terminal: the plain token between the
    /// escape sequences that colour its background. The empty cell is a bare
    /// space.
    pub open spec fn display_text(self) -> Seq<char> {
        match self {
            Puyo::B => "\x1b[46;1mb\x1b[0m"@,
            Puyo::G => "\x1b[42;1mg\x1b[0m"@,
            Puyo::P => "\x1b[45;1mp\x1b[0m"@,
            Puyo::R => "\x1b[41;1mr\x1b[0m"@,
            Puyo::Y => "\x1b[43;1my\x1b[0m"@,
            Puyo::Empty => " "@,
            Puyo::Garbage => "\x1b[47;1mj\x1b[0m"@,
        }
    }

    /// The cell that the plain alphabet writes as `c`, if there is one.
    pub open spec fn of_plain_char(c: char) -> Option<Puyo> {
        if c == 'b' {
            Some(Puyo::B)
        } else if c == 'g' {
            Some(Puyo::G)
        } else if c == 'p' {
            Some(Puyo::P)
        } else if c == 'r' {
            Some(Puyo::R)
        } else if c == 'y' {
            Some(Puyo::Y)
        } else if c == ' ' {
            Some(Puyo::Empty)
        } else if c == 'j' {
            Some(Puyo::Garbage)
        } else {
            None
        }
    }

    /// The cell that `token` stands for in the plain alphabet: a token is one
    /// character long.
    pub open spec fn parse(token: Seq<char>) -> Option<Puyo> {
        if token.len() == 1 {
            Puyo::of_plain_char(token[0])
        } else {
            None
        }
    }

    /// Reads one character of the plain alphabet.
    pub fn from_char(c: char) -> (r: Option<Puyo>)
        ensures
            r == Puyo::of_plain_char(c),
    {
        if c == 'b' {
            Some(Puyo::B)
        } else if c == 'g' {
            Some(Puyo::G)
        } else if c == 'p' {
            Some(Puyo::P)
        } else if c == 'r' {
            Some(Puyo::R)
        } else if c == 'y' {
            Some(Puyo::Y)
        } else if c == ' ' {
            Some(Puyo::Empty)
        } else if c == 'j' {
            Some(Puyo::Garbage)
        } else {
            None
        }
    }

    /// Reads a token of the plain alphabet. Any other text is handed back in
    /// the error.
    pub fn from_str(puyo: &str) -> (r: Result<Self, InvalidPuyoError>)
        ensures
            match r {
                Ok(p) => Puyo::parse(puyo@) == Some(p),
                Err(e) => Puyo::parse(puyo@) is None && e.kind == InvalidPuyoKind::CellToken
                    && e.invalid_puyo@ == puyo@,
            },
    {
        if puyo.unicode_len() == 1 {
            match Puyo::from_char(puyo.get_char(0)) {
                Some(p) => {
                    return Ok(p);
                },
                None => {},
            }
        }
        Err(
            InvalidPuyoError {
                kind: InvalidPuyoKind::CellToken,
                invalid_puyo: String::from_str(puyo),
            },
        )
    }

    /// The plain character of this cell.
    pub fn to_char(&self) -> (c: char)
        ensures
            c == self.plain_char(),
    {
        match self {
            Puyo::B => 'b',
            Puyo::G => 'g',
            Puyo::P => 'p',
            Puyo::R => 'r',
            Puyo::Y => 'y',
            Puyo::Empty => ' ',
            Puyo::Garbage => 'j',
        }
    }

    /// The fact-language character of this cell.
    pub fn to_text_db_char(&self) -> (c: char)
        ensures
            c == self.fact_char(),
    {
        match self {
            Puyo::Empty => 'l',
            _ => self.to_char(),
        }
    }

    /// Writes this cell in the plain alphabet.
    pub fn to_str(&self) -> (r: String)
        ensures
            r@ == seq![self.plain_char()],
    {
        let mut out = String::new();
        out.push(self.to_char());
        out
    }

    /// Writes this cell for a colour terminal.
    pub fn to_color_str(&self) -> (r: String)
        ensures
            r@ == self.display_text(),
    {
        match self {
            Puyo::B => String::from_str("\x1b[46;1mb\x1b[0m"),
            Puyo::G => String::from_str("\x1b[42;1mg\x1b[0m"),
            Puyo::P => String::from_str("\x1b[45;1mp\x1b[0m"),
            Puyo::R => String::from_str("\x1b[41;1mr\x1b[0m"),
            Puyo::Y => String::from_str("\x1b[43;1my\x1b[0m"),
            Puyo::Empty => String::from_str(" "),
            Puyo::Garbage => String::from_str("\x1b[47;1mj\x1b[0m"),
        }
    }

    /// Writes this cell in the fact language.
    pub fn to_text_db_str(&self) -> (r: String)
        ensures
            r@ == seq![self.fact_char()],
    {
        let mut out = String::new();
        out.push(self.to_text_db_char());
        out
    }
}

/// The plain token that stands for the fact-language token `c`: `l` becomes
/// the space, every other character stays.
pub open spec fn plain_of_fact(c: char) -> char {
    if c == 'l' {
        ' '
    } else {
        c
    }
}

/// Reading back the plain token of a cell gives that cell.
pub proof fn lemma_plain_roundtrip(c: Puyo)
    ensures
        Puyo::parse(seq![c.plain_char()]) == Some(c),
{
}

/// Reading back the fact-language token of a cell gives that cell, for every
/// cell but the empty one: its token `l` is no token of the plain alphabet.
pub proof fn lemma_fact_roundtrip(c: Puyo)
    requires
        c != Puyo::Empty,
    ensures
        Puyo::parse(seq![c.fact_char()]) == Some(c),
        Puyo::parse(seq![Puyo::Empty.fact_char()]) is None,
{
}

/// Reading back the fact-language token of any cell, with `l` taken for the
/// space, gives that cell.
pub proof fn lemma_fact_roundtrip_remapped(c: Puyo)
    ensures
        Puyo::parse(seq![plain_of_fact(c.fact_char())]) == Some(c),
{
}

/// No two cells share a token, in either alphabet, and no fact-language token
/// is the `$` that starts a variable of the query language.
pub proof fn lemma_tokens_distinct(a: Puyo, b: Puyo)
    requires
        a != b,
    ensures
        a.plain_char() != b.plain_char(),
        a.fact_char() != b.fact_char(),
        a.fact_char() != '$',
        Puyo::of_plain_char(Puyo::Empty.fact_char()) is None,
{
}

} // verus!
