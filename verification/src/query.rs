//! Compiling a pattern into a query for the logic engine.
//!
//! A pattern is a board text in which a colour letter stands for one colour
//! that the letter keeps throughout the pattern, a space stands for any cell,
//! and every other character is a named wildcard: some cell that is the same
//! wherever that character stands. The compiled query is a `board(..)` term of
//! thirteen arguments whose variables are written `$0`, `$1` and so on.

use crate::text::{
    chars_of, concat, decimal, join, lemma_concat_prefix_len, lemma_concat_tidy,
    lemma_decimal_injective, lemma_decimal_len, lemma_join_push, lemma_join_tidy,
    lemma_small_text_tidy, lemma_split_lines_len, lemma_tidy_concat, lines_of, push_decimal,
    short_numerals, split_lines, texts, tidy, trim_newlines, trimmed,
};
use vstd::hash_map::StringHashMap;
use vstd::prelude::*;
use vstd::string::StringExecFns;

verus! {

/// The first variable index that cells other than colour letters draw from.
/// Indices below it belong to colour letters.
pub const WILD_START: u128 = 20;

/// How the cells of one row of a compiled query are named.
#[derive(Debug)]
pub enum SymbolRow {
    /// A row of the pattern: one variable for each cell, left to right.
    IndivSymbols(Vec<String>),
    /// A row above the pattern: one variable for the whole row.
    EntireRow(String),
}

/// A `SymbolRow` as plain texts.
pub enum SymbolRowView {
    IndivSymbols(Seq<Seq<char>>),
    EntireRow(Seq<char>),
}

/// A compiled pattern: the query, the variables of each row from the top row
/// down, and the pattern character behind each variable that stands for one.
pub struct TextQryBoard {
    qry_str: String,
    sym_to_char: StringHashMap<char>,
    sym_board: Vec<SymbolRow>,
}

/// A `TextQryBoard` as plain values.
pub struct TextQryView {
    pub text: Seq<char>,
    pub names: Map<Seq<char>, char>,
    pub rows: Seq<SymbolRowView>,
}

/// The bookkeeping of one compilation: which character has which variable,
/// and which indices are still free.
pub struct SymbolTable {
    /// The variable index of each colour letter and named wildcard met so far.
    pub assigned: Map<char, nat>,
    /// The character behind each variable in `assigned`, by the variable's text.
    pub names: Map<Seq<char>, char>,
    /// The next free index for a colour letter.
    pub next_color: nat,
    /// The next free index for a space or a named wildcard.
    pub next_wild: nat,
}

/// Whether `c` is one of the five colour letters.
pub open spec fn is_color_char(c: char) -> bool {
    c == 'b' || c == 'g' || c == 'p' || c == 'r' || c == 'y'
}

/// The variable with index `n`, as the query language writes it.
pub open spec fn symbol_text(n: nat) -> Seq<char> {
    seq!['$'] + decimal(n)
}

impl SymbolTable {
    /// The table before the first cell.
    pub open spec fn start() -> SymbolTable {
        SymbolTable {
            assigned: Map::empty(),
            names: Map::empty(),
            next_color: 0,
            next_wild: WILD_START as nat,
        }
    }

    /// The variable index that a cell with character `c` gets from this table:
    /// a space always the next free wildcard index; a character met before the
    /// index it has; a new colour letter the next free colour index; any other
    /// new character the next free wildcard index.
    pub open spec fn index_of(self, c: char) -> nat {
        if c == ' ' {
            self.next_wild
        } else if self.assigned.contains_key(c) {
            self.assigned[c]
        } else if is_color_char(c) {
            self.next_color
        } else {
            self.next_wild
        }
    }

    /// The table after a cell with character `c`.
    pub open spec fn step(self, c: char) -> SymbolTable {
        if c == ' ' {
            SymbolTable { next_wild: self.next_wild + 1, ..self }
        } else if self.assigned.contains_key(c) {
            self
        } else if is_color_char(c) {
            SymbolTable {
                assigned: self.assigned.insert(c, self.next_color),
                names: self.names.insert(symbol_text(self.next_color), c),
                next_color: self.next_color + 1,
                next_wild: self.next_wild,
            }
        } else {
            SymbolTable {
                assigned: self.assigned.insert(c, self.next_wild),
                names: self.names.insert(symbol_text(self.next_wild), c),
                next_color: self.next_color,
                next_wild: self.next_wild + 1,
            }
        }
    }

    /// The table after the given cells, left to right.
    pub open spec fn after(self, cells: Seq<char>) -> SymbolTable
        decreases cells.len(),
    {
        if cells.len() == 0 {
            self
        } else {
            self.after(cells.drop_last()).step(cells.last())
        }
    }

    /// The table after the given lines, top to bottom.
    pub open spec fn after_lines(self, lines: Seq<Seq<char>>) -> SymbolTable
        decreases lines.len(),
    {
        if lines.len() == 0 {
            self
        } else {
            self.after_lines(lines.drop_last()).after(lines.last())
        }
    }
}

/// The variables of the cells of a line that is compiled from table `t` on.
pub open spec fn line_symbols(t: SymbolTable, cells: Seq<char>) -> Seq<Seq<char>> {
    Seq::new(cells.len(), |i: int| symbol_text(t.after(cells.take(i)).index_of(cells[i])))
}

/// The lines of a pattern: those of its text without one line break at the
/// start and one at the end.
pub open spec fn pattern_lines(pattern: Seq<char>) -> Seq<Seq<char>> {
    split_lines(trimmed(pattern))
}

/// The variables of the cells of line `k` of a pattern.
pub open spec fn row_symbols(lines: Seq<Seq<char>>, k: int) -> Seq<Seq<char>> {
    line_symbols(SymbolTable::start().after_lines(lines.take(k)), lines[k])
}

/// The arguments of a row term: each variable, followed by `, ` where fewer
/// than five stand before it. A row of six cells so has its variables
/// separated; a shorter or longer one is no well-formed term, which the
/// engine reports when it parses the query.
pub open spec fn cells_text(symbols: Seq<Seq<char>>) -> Seq<char>
    decreases symbols.len(),
{
    if symbols.len() == 0 {
        Seq::empty()
    } else if symbols.len() <= 5 {
        cells_text(symbols.drop_last()) + symbols.last() + ", "@
    } else {
        cells_text(symbols.drop_last()) + symbols.last()
    }
}

/// The row term of a row with the given variables.
pub open spec fn query_row_text(symbols: Seq<Seq<char>>) -> Seq<char> {
    "row("@ + cells_text(symbols) + ")"@
}

/// The variable for the whole of row `k` of the frame, counted from the
/// bottom row, which is row 1.
pub open spec fn padding_symbol(k: nat) -> Seq<char> {
    "$13"@ + decimal(k)
}

/// The variables of the rows above a pattern of `n` lines, top row first:
/// one for each row that the pattern lacks to thirteen.
pub open spec fn padding_symbols(n: nat) -> Seq<Seq<char>> {
    if n >= 13 {
        Seq::empty()
    } else {
        Seq::new((13 - n) as nat, |i: int| padding_symbol((13 - i) as nat))
    }
}

/// The row terms of the lines of a pattern.
pub open spec fn query_row_terms(lines: Seq<Seq<char>>) -> Seq<Seq<char>> {
    Seq::new(lines.len(), |k: int| query_row_text(row_symbols(lines, k)))
}

/// The query of a pattern: `board(`, the variables of the rows above the
/// pattern, each followed by `, `, the row terms of the pattern's lines with
/// a comma and a line break between them, and `).`.
pub open spec fn query_text(pattern: Seq<char>) -> Seq<char> {
    let lines = pattern_lines(pattern);
    "board("@ + concat(padding_symbols(lines.len()).map_values(|s: Seq<char>| s + ", "@)) + join(
        query_row_terms(lines),
        ",\n"@,
    ) + ")."@
}

/// The rows of a compiled pattern, top row first: the rows above the pattern,
/// then its lines.
pub open spec fn query_rows(pattern: Seq<char>) -> Seq<SymbolRowView> {
    let lines = pattern_lines(pattern);
    padding_symbols(lines.len()).map_values(|s: Seq<char>| SymbolRowView::EntireRow(s)) + Seq::new(
        lines.len(),
        |k: int| SymbolRowView::IndivSymbols(row_symbols(lines, k)),
    )
}

/// Whether a text is the query of some pattern.
pub open spec fn is_compiled_query(text: Seq<char>) -> bool {
    exists|pattern: Seq<char>| text == #[trigger] query_text(pattern)
}

/// What a pattern compiles to.
pub open spec fn compiled(pattern: Seq<char>) -> TextQryView {
    TextQryView {
        text: query_text(pattern),
        names: SymbolTable::start().after_lines(pattern_lines(pattern)).names,
        rows: query_rows(pattern),
    }
}

/// The texts that a vector of strings holds.
pub open spec fn strings_view(v: Seq<String>) -> Seq<Seq<char>> {
    v.map_values(|s: String| s@)
}

impl View for SymbolRow {
    type V = SymbolRowView;

    open spec fn view(&self) -> SymbolRowView {
        match self {
            SymbolRow::IndivSymbols(symbols) => SymbolRowView::IndivSymbols(strings_view(symbols@)),
            SymbolRow::EntireRow(symbol) => SymbolRowView::EntireRow(symbol@),
        }
    }
}

/// The rows that a vector of symbol rows holds.
pub open spec fn symbol_rows_view(v: Seq<SymbolRow>) -> Seq<SymbolRowView> {
    v.map_values(|row: SymbolRow| row@)
}

impl View for TextQryBoard {
    type V = TextQryView;

    closed spec fn view(&self) -> TextQryView {
        TextQryView {
            text: self.qry_str@,
            names: self.sym_to_char@,
            rows: symbol_rows_view(self.sym_board@),
        }
    }
}

/// The compiler's state while it walks a pattern. The indices are wide
/// enough that no pattern can exhaust them.
struct SymbolAssigner {
    /// Each character that has a variable, with the variable's index. No
    /// character stands twice.
    entries: Vec<(char, u128)>,
    /// The character behind each variable, by the variable's text.
    sym_to_char: StringHashMap<char>,
    /// The next free index for a colour letter.
    color_index: u128,
    /// The next free index for a space or a named wildcard.
    dummy_index: u128,
    /// The table that the fields above stand for.
    table: Ghost<SymbolTable>,
}

impl SymbolAssigner {
    spec fn wf(&self) -> bool {
        &&& self.table@.next_color == self.color_index
        &&& self.table@.next_wild == self.dummy_index
        &&& self.table@.names == self.sym_to_char@
        &&& forall|i: int|
            0 <= i < self.entries@.len() ==> self.table@.assigned.contains_key(
                (#[trigger] self.entries@[i]).0,
            ) && self.table@.assigned[self.entries@[i].0] == self.entries@[i].1
        &&& forall|c: char| #[trigger]
            self.table@.assigned.contains_key(c) ==> exists|i: int|
                0 <= i < self.entries@.len() && (#[trigger] self.entries@[i]).0 == c
        &&& forall|i: int, j: int|
            0 <= i < j < self.entries@.len() ==> (#[trigger] self.entries@[i]).0 != (
            #[trigger] self.entries@[j]).0
    }

    fn new() -> (r: SymbolAssigner)
        ensures
            r.wf(),
            r.table@ == SymbolTable::start(),
    {
        SymbolAssigner {
            entries: Vec::new(),
            sym_to_char: StringHashMap::new(),
            color_index: 0,
            dummy_index: WILD_START,
            table: Ghost(SymbolTable::start()),
        }
    }

    /// The index of `c`, where `c` has a variable.
    fn lookup(&self, c: char) -> (r: Option<u128>)
        requires
            self.wf(),
        ensures
            match r {
                Some(index) => self.table@.assigned.contains_key(c) && self.table@.assigned[c]
                    == index,
                None => !self.table@.assigned.contains_key(c),
            },
    {
        let mut i: usize = 0;
        while i < self.entries.len()
            invariant
                i <= self.entries.len(),
                self.wf(),
                forall|j: int| 0 <= j < i ==> (#[trigger] self.entries@[j]).0 != c,
            decreases self.entries.len() - i,
        {
            if self.entries[i].0 == c {
                return Some(self.entries[i].1);
            }
            i += 1;
        }
        None
    }

    /// Gives the next cell, which holds `c`, its variable, and hands back the
    /// variable's index.
    fn assign(&mut self, c: char) -> (index: u128)
        requires
            old(self).wf(),
            old(self).color_index < u128::MAX,
            old(self).dummy_index < u128::MAX,
        ensures
            final(self).wf(),
            index == old(self).table@.index_of(c),
            final(self).table@ == old(self).table@.step(c),
    {
        if c == ' ' {
            let index = self.dummy_index;
            self.dummy_index = self.dummy_index + 1;
            self.table = Ghost(self.table@.step(c));
            return index;
        }
        match self.lookup(c) {
            Some(index) => index,
            None => {
                let index = if c == 'b' || c == 'g' || c == 'p' || c == 'r' || c == 'y' {
                    let index = self.color_index;
                    self.color_index = self.color_index + 1;
                    index
                } else {
                    let index = self.dummy_index;
                    self.dummy_index = self.dummy_index + 1;
                    index
                };
                let ghost before = self.entries@;
                self.entries.push((c, index));
                self.sym_to_char.insert(symbol_string(index), c);
                self.table = Ghost(self.table@.step(c));
                proof {
                    assert forall|k: char| #[trigger]
                        self.table@.assigned.contains_key(k) implies exists|i: int|
                        0 <= i < self.entries@.len() && (#[trigger] self.entries@[i]).0 == k by {
                        if k == c {
                            assert(self.entries@[before.len() as int].0 == c);
                        } else {
                            let i = choose|i: int|
                                0 <= i < before.len() && (#[trigger] before[i]).0 == k;
                            assert(self.entries@[i].0 == k);
                        }
                    }
                }
                index
            },
        }
    }
}

impl SymbolAssigner {
    /// Compiles one line of the pattern: hands back its row term and the
    /// variables of its cells.
    fn compile_line(&mut self, cells: &Vec<char>) -> (r: (String, Vec<String>))
        requires
            old(self).wf(),
            old(self).color_index + cells.len() <= u128::MAX,
            old(self).dummy_index + cells.len() <= u128::MAX,
        ensures
            final(self).wf(),
            final(self).table@ == old(self).table@.after(cells@),
            final(self).color_index <= old(self).color_index + cells.len(),
            final(self).dummy_index <= old(self).dummy_index + cells.len(),
            r.0@ == query_row_text(line_symbols(old(self).table@, cells@)),
            strings_view(r.1@) == line_symbols(old(self).table@, cells@),
    {
        let ghost start = self.table@;
        let ghost symbols = line_symbols(start, cells@);
        let mut row_text = String::from_str("row(");
        let mut sym_row: Vec<String> = Vec::new();
        let mut i: usize = 0;
        assert(cells@.take(0) =~= Seq::<char>::empty());
        assert(strings_view(sym_row@) =~= symbols.take(0));
        while i < cells.len()
            invariant
                i <= cells.len(),
                self.wf(),
                symbols == line_symbols(start, cells@),
                self.table@ == start.after(cells@.take(i as int)),
                self.color_index <= old(self).color_index + i,
                self.dummy_index <= old(self).dummy_index + i,
                old(self).color_index + cells.len() <= u128::MAX,
                old(self).dummy_index + cells.len() <= u128::MAX,
                row_text@ == "row("@ + cells_text(symbols.take(i as int)),
                strings_view(sym_row@) == symbols.take(i as int),
            decreases cells.len() - i,
        {
            let ghost before = strings_view(sym_row@);
            let index = self.assign(cells[i]);
            let symbol = symbol_string(index);
            row_text.append(symbol.as_str());
            if i < 5 {
                row_text.append(", ");
            }
            sym_row.push(symbol);
            proof {
                assert(cells@.take(i + 1).drop_last() =~= cells@.take(i as int));
                assert(symbols.take(i + 1).drop_last() =~= symbols.take(i as int));
                assert(strings_view(sym_row@) =~= before.push(symbol@));
                assert(strings_view(sym_row@) =~= symbols.take(i + 1));
            }
            i += 1;
        }
        assert(cells@.take(i as int) =~= cells@);
        assert(symbols.take(i as int) =~= symbols);
        row_text.append(")");
        (row_text, sym_row)
    }
}

impl TextQryBoard {
    /// A compiled pattern is always what some pattern compiles to.
    #[verifier::type_invariant]
    spec fn is_compiled(&self) -> bool {
        exists|pattern: Seq<char>| self@ == #[trigger] compiled(pattern)
    }

    /// The query, as the engine takes it: always the query of some pattern.
    pub fn qry_str(&self) -> (r: &str)
        ensures
            r@ == self@.text,
            is_compiled_query(r@),
    {
        proof {
            use_type_invariant(self);
            let pattern = choose|pattern: Seq<char>| self@ == #[trigger] compiled(pattern);
            assert(self@.text == query_text(pattern));
        }
        self.qry_str.as_str()
    }

    /// The variables of each row, top row first.
    pub fn sym_board(&self) -> (r: &Vec<SymbolRow>)
        ensures
            symbol_rows_view(r@) == self@.rows,
    {
        &self.sym_board
    }

    /// The pattern character that the variable `symbol` stands for, where it
    /// stands for a colour letter or a named wildcard.
    pub fn sym_to_char(&self, symbol: &str) -> (r: Option<char>)
        ensures
            r == if self@.names.contains_key(symbol@) {
                Some(self@.names[symbol@])
            } else {
                None
            },
    {
        match self.sym_to_char.get(symbol) {
            Some(c) => Some(*c),
            None => None,
        }
    }

    /// Compiles a pattern. Every text compiles: a line that is no row of six
    /// cells gives a row term that the engine or the decoder rejects later.
    pub fn from_str(s: &str) -> (r: TextQryBoard)
        ensures
            r@ == compiled(s@),
    {
        let cleaned = chars_of(trim_newlines(s));
        let lines = lines_of(&cleaned);
        let num_rows = lines.len();
        let ghost ls = texts(lines@);
        let ghost pads = padding_symbols(num_rows as nat);
        let ghost pad_texts = pads.map_values(|s: Seq<char>| s + ", "@);
        let ghost pad_rows = pads.map_values(|s: Seq<char>| SymbolRowView::EntireRow(s));
        let mut qry_str = String::from_str("board(");
        let mut sym_board: Vec<SymbolRow> = Vec::new();

        // the rows above the pattern, top row first
        let padding: usize = if num_rows < 13 {
            13 - num_rows
        } else {
            0
        };
        let mut i: usize = 0;
        assert(symbol_rows_view(sym_board@) =~= pad_rows.take(0));
        assert(pad_texts.take(0) =~= Seq::<Seq<char>>::empty());
        while i < padding
            invariant
                i <= padding,
                padding <= 13,
                padding == pads.len(),
                pads == padding_symbols(num_rows as nat),
                pad_texts == pads.map_values(|s: Seq<char>| s + ", "@),
                pad_rows == pads.map_values(|s: Seq<char>| SymbolRowView::EntireRow(s)),
                qry_str@ == "board("@ + concat(pad_texts.take(i as int)),
                symbol_rows_view(sym_board@) == pad_rows.take(i as int),
            decreases padding - i,
        {
            let ghost before = symbol_rows_view(sym_board@);
            let mut symbol = String::from_str("$13");
            push_decimal(&mut symbol, (13 - i) as u128);
            qry_str.append(symbol.as_str());
            qry_str.append(", ");
            let row = SymbolRow::EntireRow(symbol);
            proof {
                assert(pad_texts.take(i + 1).drop_last() =~= pad_texts.take(i as int));
                assert(symbol_rows_view(sym_board@.push(row)) =~= before.push(row@));
                assert(pad_rows.take(i + 1) =~= pad_rows.take(i as int).push(row@));
            }
            sym_board.push(row);
            i += 1;
        }
        assert(pad_texts.take(i as int) =~= pad_texts);
        assert(pad_rows.take(i as int) =~= pad_rows);

        // the lines of the pattern
        let ghost terms = query_row_terms(ls);
        let ghost prefix = "board("@ + concat(pad_texts);
        let mut assigner = SymbolAssigner::new();
        let mut k: usize = 0;
        assert(ls.take(0) =~= Seq::<Seq<char>>::empty());
        assert(symbol_rows_view(sym_board@) =~= pad_rows + Seq::new(
            0,
            |j: int| SymbolRowView::IndivSymbols(row_symbols(ls, j)),
        ));
        assert(qry_str@ =~= prefix + join(terms.take(0), ",\n"@));
        while k < num_rows
            invariant
                k <= num_rows,
                num_rows == lines@.len(),
                ls == texts(lines@),
                terms == query_row_terms(ls),
                assigner.wf(),
                assigner.table@ == SymbolTable::start().after_lines(ls.take(k as int)),
                assigner.color_index <= k * 0xffff_ffff_ffff_ffff,
                assigner.dummy_index <= WILD_START + k * 0xffff_ffff_ffff_ffff,
                qry_str@ == prefix + join(terms.take(k as int), ",\n"@),
                symbol_rows_view(sym_board@) == pad_rows + Seq::new(
                    k as nat,
                    |j: int| SymbolRowView::IndivSymbols(row_symbols(ls, j)),
                ),
            decreases num_rows - k,
        {
            let ghost before = symbol_rows_view(sym_board@);
            if k > 0 {
                qry_str.append(",\n");
            }
            let (row_text, sym_row) = assigner.compile_line(&lines[k]);
            qry_str.append(row_text.as_str());
            let row = SymbolRow::IndivSymbols(sym_row);
            proof {
                assert(ls.take(k + 1).drop_last() =~= ls.take(k as int));
                assert(ls.take(k + 1).last() == ls[k as int]);
                assert(ls[k as int] == lines@[k as int]@);
                lemma_join_push(terms.take(k as int), ",\n"@, terms[k as int]);
                assert(terms.take(k + 1) =~= terms.take(k as int).push(terms[k as int]));
                assert(symbol_rows_view(sym_board@.push(row)) =~= before.push(row@));
                assert(before.push(row@) =~= pad_rows + Seq::new(
                    (k + 1) as nat,
                    |j: int| SymbolRowView::IndivSymbols(row_symbols(ls, j)),
                ));
            }
            sym_board.push(row);
            k += 1;
        }
        assert(ls.take(k as int) =~= ls);
        assert(terms.take(k as int) =~= terms);
        qry_str.append(").");
        let sym_to_char = assigner.sym_to_char;
        proof {
            let view = TextQryView {
                text: qry_str@,
                names: sym_to_char@,
                rows: symbol_rows_view(sym_board@),
            };
            assert(view == compiled(s@));
        }
        TextQryBoard { qry_str, sym_to_char, sym_board }
    }
}

/// Writes the variable with index `n`.
pub fn symbol_string(n: u128) -> (r: String)
    ensures
        r@ == symbol_text(n as nat),
{
    let mut out = String::new();
    out.push('$');
    push_decimal(&mut out, n);
    out
}

/// A compiled pattern has thirteen rows, or as many as the pattern has lines
/// where those are more; and every pattern has at least one line.
pub proof fn lemma_query_rows_len(pattern: Seq<char>)
    ensures
        pattern_lines(pattern).len() >= 1,
        query_rows(pattern).len() == if pattern_lines(pattern).len() <= 13 {
            13
        } else {
            pattern_lines(pattern).len()
        },
{
    lemma_split_lines_len(trimmed(pattern));
}

/// The table before the cell in column `i` of line `k` of a pattern.
pub open spec fn table_at(lines: Seq<Seq<char>>, k: int, i: int) -> SymbolTable {
    SymbolTable::start().after_lines(lines.take(k)).after(lines[k].take(i))
}

/// The variable index of the cell in column `i` of line `k` of a pattern.
pub open spec fn cell_index(lines: Seq<Seq<char>>, k: int, i: int) -> nat {
    table_at(lines, k, i).index_of(lines[k][i])
}

/// Whether `(k, i)` is the place of a cell of the pattern.
pub open spec fn is_cell(lines: Seq<Seq<char>>, k: int, i: int) -> bool {
    0 <= k < lines.len() && 0 <= i < lines[k].len()
}

impl SymbolTable {
    /// Walking two runs of cells one after the other is walking their
    /// concatenation.
    pub proof fn lemma_after_concat(self, a: Seq<char>, b: Seq<char>)
        ensures
            self.after(a + b) == self.after(a).after(b),
        decreases b.len(),
    {
        if b.len() == 0 {
            assert(a + b =~= a);
        } else {
            assert((a + b).drop_last() =~= a + b.drop_last());
            self.lemma_after_concat(a, b.drop_last());
        }
    }

    /// Walking lines is walking their cells in one run.
    pub proof fn lemma_after_lines_flat(self, lines: Seq<Seq<char>>)
        ensures
            self.after_lines(lines) == self.after(concat(lines)),
        decreases lines.len(),
    {
        if lines.len() > 0 {
            self.lemma_after_lines_flat(lines.drop_last());
            self.lemma_after_concat(concat(lines.drop_last()), lines.last());
        }
    }

    /// Walking two lists of lines one after the other is walking the joint
    /// list.
    pub proof fn lemma_after_lines_concat(self, a: Seq<Seq<char>>, b: Seq<Seq<char>>)
        ensures
            self.after_lines(a + b) == self.after_lines(a).after_lines(b),
        decreases b.len(),
    {
        if b.len() == 0 {
            assert(a + b =~= a);
        } else {
            assert((a + b).drop_last() =~= a + b.drop_last());
            self.lemma_after_lines_concat(a, b.drop_last());
        }
    }

    /// A character keeps its variable, and no free index is handed out again.
    pub proof fn lemma_after_keeps(self, cells: Seq<char>)
        ensures
            self.after(cells).next_color >= self.next_color,
            self.after(cells).next_wild >= self.next_wild,
            forall|c: char| #[trigger]
                self.assigned.contains_key(c) ==> self.after(cells).assigned.contains_key(c)
                    && self.after(cells).assigned[c] == self.assigned[c],
        decreases cells.len(),
    {
        if cells.len() > 0 {
            self.lemma_after_keeps(cells.drop_last());
        }
    }

    /// After a cell with a character other than the space, every later cell
    /// with that character gets the variable that this cell got.
    pub proof fn lemma_character_keeps_index(self, c: char, later: Seq<char>)
        requires
            c != ' ',
        ensures
            self.step(c).after(later).index_of(c) == self.index_of(c),
    {
        self.step(c).lemma_after_keeps(later);
        assert(self.step(c).assigned.contains_key(c));
    }

    /// After a cell with a space, every later cell with a space gets a higher
    /// variable index.
    pub proof fn lemma_blank_index_grows(self, later: Seq<char>)
        ensures
            self.step(' ').after(later).index_of(' ') > self.index_of(' '),
    {
        self.step(' ').lemma_after_keeps(later);
    }
}

/// The table before a cell is the table before any earlier cell, stepped over
/// that cell and walked over the cells in between.
pub proof fn lemma_table_later(
    lines: Seq<Seq<char>>,
    k1: int,
    i1: int,
    k2: int,
    i2: int,
) -> (between: Seq<char>)
    requires
        is_cell(lines, k1, i1),
        is_cell(lines, k2, i2),
        k1 < k2 || (k1 == k2 && i1 < i2),
    ensures
        table_at(lines, k2, i2) == table_at(lines, k1, i1).step(lines[k1][i1]).after(between),
{
    let start = SymbolTable::start().after_lines(lines.take(k1));
    let line = lines[k1];
    let here = table_at(lines, k1, i1);
    assert(line.take(i1 + 1).drop_last() =~= line.take(i1));
    assert(start.after(line.take(i1 + 1)) == here.step(line[i1]));
    if k1 == k2 {
        let between = line.subrange(i1 + 1, i2);
        assert(line.take(i2) =~= line.take(i1 + 1) + between);
        start.lemma_after_concat(line.take(i1 + 1), between);
        between
    } else {
        let rest = line.skip(i1 + 1);
        assert(line =~= line.take(i1 + 1) + rest);
        start.lemma_after_concat(line.take(i1 + 1), rest);
        let after_line = SymbolTable::start().after_lines(lines.take(k1 + 1));
        assert(lines.take(k1 + 1).drop_last() =~= lines.take(k1));
        assert(after_line == here.step(line[i1]).after(rest));
        let middle = lines.subrange(k1 + 1, k2);
        assert(lines.take(k2) =~= lines.take(k1 + 1) + middle);
        SymbolTable::start().lemma_after_lines_concat(lines.take(k1 + 1), middle);
        after_line.lemma_after_lines_flat(middle);
        let head = lines[k2].take(i2);
        here.step(line[i1]).lemma_after_concat(rest, concat(middle));
        here.step(line[i1]).lemma_after_concat(rest + concat(middle), head);
        rest + concat(middle) + head
    }
}

/// Two variables with the same text have the same index.
pub proof fn lemma_symbol_text_injective(a: nat, b: nat)
    requires
        symbol_text(a) == symbol_text(b),
    ensures
        a == b,
{
    assert(symbol_text(a).skip(1) =~= decimal(a));
    assert(symbol_text(b).skip(1) =~= decimal(b));
    lemma_decimal_injective(a, b);
}

/// Two cells of a pattern that hold the same character, other than the space,
/// have the same variable: a colour letter stands for one colour, a named
/// wildcard for one cell value.
pub proof fn lemma_same_character_same_symbol(
    lines: Seq<Seq<char>>,
    k1: int,
    i1: int,
    k2: int,
    i2: int,
)
    requires
        is_cell(lines, k1, i1),
        is_cell(lines, k2, i2),
        lines[k1][i1] == lines[k2][i2],
        lines[k1][i1] != ' ',
    ensures
        cell_index(lines, k1, i1) == cell_index(lines, k2, i2),
        row_symbols(lines, k1)[i1] == row_symbols(lines, k2)[i2],
{
    let c = lines[k1][i1];
    if k1 < k2 || (k1 == k2 && i1 < i2) {
        let between = lemma_table_later(lines, k1, i1, k2, i2);
        table_at(lines, k1, i1).lemma_character_keeps_index(c, between);
    } else if k2 < k1 || (k1 == k2 && i2 < i1) {
        let between = lemma_table_later(lines, k2, i2, k1, i1);
        table_at(lines, k2, i2).lemma_character_keeps_index(c, between);
    }
}

/// Two different cells of a pattern that both hold a space have different
/// variables: each stands for a cell of its own.
pub proof fn lemma_blank_cells_distinct_symbols(
    lines: Seq<Seq<char>>,
    k1: int,
    i1: int,
    k2: int,
    i2: int,
)
    requires
        is_cell(lines, k1, i1),
        is_cell(lines, k2, i2),
        k1 != k2 || i1 != i2,
        lines[k1][i1] == ' ',
        lines[k2][i2] == ' ',
    ensures
        cell_index(lines, k1, i1) != cell_index(lines, k2, i2),
        row_symbols(lines, k1)[i1] != row_symbols(lines, k2)[i2],
{
    if k1 < k2 || (k1 == k2 && i1 < i2) {
        let between = lemma_table_later(lines, k1, i1, k2, i2);
        table_at(lines, k1, i1).lemma_blank_index_grows(between);
    } else {
        let between = lemma_table_later(lines, k2, i2, k1, i1);
        table_at(lines, k2, i2).lemma_blank_index_grows(between);
    }
    if row_symbols(lines, k1)[i1] == row_symbols(lines, k2)[i2] {
        lemma_symbol_text_injective(cell_index(lines, k1, i1), cell_index(lines, k2, i2));
    }
}

/// One where the character has a variable in the table, else zero.
pub open spec fn assigned_count(t: SymbolTable, c: char) -> nat {
    if t.assigned.contains_key(c) {
        1
    } else {
        0
    }
}

impl SymbolTable {
    /// Whether the table is one that a walk from the start can reach: the
    /// colour letters have the indices below `next_color`, one each; the
    /// named wildcards have indices from 20 up and below `next_wild`; the
    /// space has none; and no two characters share an index.
    pub open spec fn consistent(self) -> bool {
        &&& self.next_color == assigned_count(self, 'b') + assigned_count(self, 'g')
            + assigned_count(self, 'p') + assigned_count(self, 'r') + assigned_count(self, 'y')
        &&& self.next_wild >= WILD_START
        &&& !self.assigned.contains_key(' ')
        &&& forall|c: char| #[trigger]
            self.assigned.contains_key(c) ==> if is_color_char(c) {
                self.assigned[c] < self.next_color
            } else {
                WILD_START <= self.assigned[c] < self.next_wild
            }
        &&& forall|c: char, d: char|
            #![trigger self.assigned[c], self.assigned[d]]
            self.assigned.contains_key(c) && self.assigned.contains_key(d) && c != d
                ==> self.assigned[c] != self.assigned[d]
    }

    /// A step keeps a table consistent.
    pub proof fn lemma_step_consistent(self, c: char)
        requires
            self.consistent(),
        ensures
            self.step(c).consistent(),
    {
        let next = self.step(c);
        assert forall|a: char, d: char|
            #![trigger next.assigned[a], next.assigned[d]]
            next.assigned.contains_key(a) && next.assigned.contains_key(d) && a != d
                implies next.assigned[a] != next.assigned[d] by {
            if self.assigned.contains_key(a) && self.assigned.contains_key(d) {
                assert(self.assigned[a] != self.assigned[d]);
            }
        }
    }

    /// A walk keeps a table consistent.
    pub proof fn lemma_after_consistent(self, cells: Seq<char>)
        requires
            self.consistent(),
        ensures
            self.after(cells).consistent(),
        decreases cells.len(),
    {
        if cells.len() > 0 {
            self.lemma_after_consistent(cells.drop_last());
            self.after(cells.drop_last()).lemma_step_consistent(cells.last());
        }
    }

    /// A walk over lines keeps a table consistent.
    pub proof fn lemma_after_lines_consistent(self, lines: Seq<Seq<char>>)
        requires
            self.consistent(),
        ensures
            self.after_lines(lines).consistent(),
        decreases lines.len(),
    {
        if lines.len() > 0 {
            self.lemma_after_lines_consistent(lines.drop_last());
            self.after_lines(lines.drop_last()).lemma_after_consistent(lines.last());
        }
    }

    /// A named wildcard that has no variable yet gets one that is not below
    /// the next free index, however much later it is met.
    pub proof fn lemma_new_wildcard_is_fresh(self, later: Seq<char>, c: char)
        requires
            !self.assigned.contains_key(c),
            !is_color_char(c),
            c != ' ',
        ensures
            self.after(later).index_of(c) >= self.next_wild,
        decreases later.len(),
    {
        if later.len() > 0 {
            self.lemma_new_wildcard_is_fresh(later.drop_last(), c);
            self.lemma_after_keeps(later.drop_last());
        }
    }
}

/// The table before every cell of a pattern is consistent.
pub proof fn lemma_table_at_consistent(lines: Seq<Seq<char>>, k: int, i: int)
    requires
        is_cell(lines, k, i),
    ensures
        table_at(lines, k, i).consistent(),
        table_at(lines, k, i).step(lines[k][i]).consistent(),
{
    SymbolTable::start().lemma_after_lines_consistent(lines.take(k));
    SymbolTable::start().after_lines(lines.take(k)).lemma_after_consistent(lines[k].take(i));
    table_at(lines, k, i).lemma_step_consistent(lines[k][i]);
}

/// The variable of a colour letter has an index below 5; the variable of any
/// other cell has an index of 20 or more. So the variables with an index
/// below 20 are those of the colour letters.
pub proof fn lemma_colour_indices_below_wildcards(lines: Seq<Seq<char>>, k: int, i: int)
    requires
        is_cell(lines, k, i),
    ensures
        is_color_char(lines[k][i]) ==> cell_index(lines, k, i) < 5,
        !is_color_char(lines[k][i]) ==> cell_index(lines, k, i) >= WILD_START,
{
    lemma_table_at_consistent(lines, k, i);
    let t = table_at(lines, k, i);
    let c = lines[k][i];
    if is_color_char(c) && !t.assigned.contains_key(c) {
        assert(assigned_count(t, c) == 0);
    }
}

/// The variables of two cells, the first of which stands before the second,
/// differ unless the cells hold the same character and that is no space.
proof fn lemma_later_cell_differs(lines: Seq<Seq<char>>, k1: int, i1: int, k2: int, i2: int)
    requires
        is_cell(lines, k1, i1),
        is_cell(lines, k2, i2),
        k1 < k2 || (k1 == k2 && i1 < i2),
        lines[k1][i1] != lines[k2][i2] || lines[k1][i1] == ' ',
    ensures
        cell_index(lines, k1, i1) != cell_index(lines, k2, i2),
{
    let c = lines[k1][i1];
    let d = lines[k2][i2];
    let first = table_at(lines, k1, i1);
    let second = table_at(lines, k2, i2);
    let between = lemma_table_later(lines, k1, i1, k2, i2);
    lemma_table_at_consistent(lines, k1, i1);
    lemma_table_at_consistent(lines, k2, i2);
    lemma_colour_indices_below_wildcards(lines, k1, i1);
    lemma_colour_indices_below_wildcards(lines, k2, i2);
    first.step(c).lemma_after_keeps(between);
    if c == ' ' && d == ' ' {
        first.lemma_blank_index_grows(between);
    } else if c == ' ' {
        if !is_color_char(d) {
            if first.assigned.contains_key(d) {
                assert(first.step(c).assigned.contains_key(d));
            } else {
                first.step(c).lemma_new_wildcard_is_fresh(between, d);
            }
        }
    } else if d == ' ' {
        assert(first.step(c).assigned.contains_key(c));
        assert(second.assigned.contains_key(c));
    } else {
        assert(first.step(c).assigned.contains_key(c));
        assert(second.assigned.contains_key(c));
        let last = second.step(d);
        assert(last.assigned.contains_key(c) && last.assigned.contains_key(d));
        assert(last.assigned[c] == cell_index(lines, k1, i1));
        assert(last.assigned[d] == cell_index(lines, k2, i2));
        assert(last.assigned[c] != last.assigned[d]);
    }
}

/// Two cells of a pattern have the same variable just when they are the same
/// cell or hold the same character and that character is no space.
pub proof fn lemma_symbols_shared_by_character(
    lines: Seq<Seq<char>>,
    k1: int,
    i1: int,
    k2: int,
    i2: int,
)
    requires
        is_cell(lines, k1, i1),
        is_cell(lines, k2, i2),
    ensures
        row_symbols(lines, k1)[i1] == row_symbols(lines, k2)[i2] <==> (k1 == k2 && i1 == i2) || (
        lines[k1][i1] == lines[k2][i2] && lines[k1][i1] != ' '),
{
    if (k1 == k2 && i1 == i2) {
    } else if lines[k1][i1] == lines[k2][i2] && lines[k1][i1] != ' ' {
        lemma_same_character_same_symbol(lines, k1, i1, k2, i2);
    } else {
        if k1 < k2 || (k1 == k2 && i1 < i2) {
            lemma_later_cell_differs(lines, k1, i1, k2, i2);
        } else {
            lemma_later_cell_differs(lines, k2, i2, k1, i1);
        }
        if row_symbols(lines, k1)[i1] == row_symbols(lines, k2)[i2] {
            lemma_symbol_text_injective(cell_index(lines, k1, i1), cell_index(lines, k2, i2));
        }
    }
}

impl SymbolTable {
    /// A walk hands out at most one new index for each cell.
    pub proof fn lemma_after_bound(self, cells: Seq<char>)
        ensures
            self.after(cells).next_color <= self.next_color + cells.len(),
            self.after(cells).next_wild <= self.next_wild + cells.len(),
        decreases cells.len(),
    {
        if cells.len() > 0 {
            self.lemma_after_bound(cells.drop_last());
        }
    }

    /// A walk over lines hands out at most one new index for each cell.
    pub proof fn lemma_after_lines_bound(self, lines: Seq<Seq<char>>)
        ensures
            self.after_lines(lines).next_color <= self.next_color + concat(lines).len(),
            self.after_lines(lines).next_wild <= self.next_wild + concat(lines).len(),
        decreases lines.len(),
    {
        if lines.len() > 0 {
            self.lemma_after_lines_bound(lines.drop_last());
            self.after_lines(lines.drop_last()).lemma_after_bound(lines.last());
        }
    }
}

/// The variable index of a cell is below 20 plus the number of cells of the
/// pattern.
pub proof fn lemma_cell_index_bound(lines: Seq<Seq<char>>, k: int, i: int)
    requires
        is_cell(lines, k, i),
    ensures
        cell_index(lines, k, i) < WILD_START + concat(lines).len(),
{
    let line_start = SymbolTable::start().after_lines(lines.take(k));
    SymbolTable::start().lemma_after_lines_bound(lines.take(k));
    line_start.lemma_after_bound(lines[k].take(i));
    lemma_concat_prefix_len(lines, k);
    lemma_table_at_consistent(lines, k, i);
    lemma_colour_indices_below_wildcards(lines, k, i);
}

/// A variable with an index below 1,000,000,000 is a tidy text.
proof fn lemma_symbol_tidy(n: nat)
    requires
        n < 1_000_000_000,
    ensures
        tidy(symbol_text(n)),
{
    lemma_decimal_len(n);
    lemma_small_text_tidy(symbol_text(n));
}

/// The arguments of a row term with tidy variables are a tidy text.
proof fn lemma_cells_text_tidy(symbols: Seq<Seq<char>>)
    requires
        forall|i: int| 0 <= i < symbols.len() ==> tidy(#[trigger] symbols[i]),
    ensures
        tidy(cells_text(symbols)),
    decreases symbols.len(),
{
    reveal_strlit(", ");
    if symbols.len() == 0 {
        lemma_small_text_tidy(Seq::empty());
    } else {
        lemma_cells_text_tidy(symbols.drop_last());
        lemma_tidy_concat(cells_text(symbols.drop_last()), symbols.last());
        if symbols.len() <= 5 {
            lemma_small_text_tidy(", "@);
            lemma_tidy_concat(cells_text(symbols.drop_last()) + symbols.last(), ", "@);
        }
    }
}

/// The query of a pattern of fewer than 999,999,980 characters has short
/// numerals: no variable index in it reaches 1,000,000,000.
pub proof fn lemma_query_has_short_numerals(pattern: Seq<char>)
    requires
        pattern.len() < 999_999_980,
    ensures
        short_numerals(query_text(pattern)),
{
    reveal_strlit("board(");
    reveal_strlit(", ");
    reveal_strlit(",\n");
    reveal_strlit(").");
    reveal_strlit("row(");
    reveal_strlit(")");
    reveal_strlit("$13");
    let lines = pattern_lines(pattern);
    lemma_split_lines_len(trimmed(pattern));
    // the rows above the pattern
    let pads = padding_symbols(lines.len());
    let pad_texts = pads.map_values(|s: Seq<char>| s + ", "@);
    assert forall|i: int| 0 <= i < pad_texts.len() implies tidy(#[trigger] pad_texts[i]) by {
        let k = (13 - i) as nat;
        assert(decimal(k).len() <= 2) by {
            reveal_with_fuel(decimal, 3);
        }
        lemma_small_text_tidy(padding_symbol(k) + ", "@);
    }
    lemma_concat_tidy(pad_texts);
    // the lines of the pattern
    let terms = query_row_terms(lines);
    assert forall|k: int| 0 <= k < terms.len() implies tidy(#[trigger] terms[k]) by {
        let symbols = row_symbols(lines, k);
        assert forall|i: int| 0 <= i < symbols.len() implies tidy(#[trigger] symbols[i]) by {
            lemma_cell_index_bound(lines, k, i);
            lemma_symbol_tidy(cell_index(lines, k, i));
        }
        lemma_cells_text_tidy(symbols);
        lemma_small_text_tidy("row("@);
        lemma_small_text_tidy(")"@);
        lemma_tidy_concat("row("@, cells_text(symbols));
        lemma_tidy_concat("row("@ + cells_text(symbols), ")"@);
    }
    lemma_small_text_tidy(",\n"@);
    lemma_join_tidy(terms, ",\n"@);
    lemma_small_text_tidy("board("@);
    lemma_small_text_tidy(")."@);
    lemma_tidy_concat("board("@, concat(pad_texts));
    lemma_tidy_concat("board("@ + concat(pad_texts), join(terms, ",\n"@));
    lemma_tidy_concat("board("@ + concat(pad_texts) + join(terms, ",\n"@), ")."@);
}

/// The variable index behind the variable of row `k` of the frame.
pub open spec fn padding_index(k: nat) -> nat {
    if k < 10 {
        130 + k
    } else {
        1300 + k
    }
}

/// The variable of a row above the pattern is the variable with index 130
/// plus the row's number where that has one digit, and with index 1300 plus
/// the number where it has two.
pub proof fn lemma_padding_symbol_index(k: nat)
    requires
        k < 100,
    ensures
        padding_symbol(k) == symbol_text(padding_index(k)),
{
    reveal_strlit("$13");
    reveal_with_fuel(decimal, 5);
    assert(padding_symbol(k) =~= symbol_text(padding_index(k)));
}

/// In a pattern of up to 112 cells the variables of the rows above the
/// pattern are no variables of cells, and no two of those rows share one.
pub proof fn lemma_padding_symbols_apart(lines: Seq<Seq<char>>, k: int, i: int, j: int, other: int)
    requires
        is_cell(lines, k, i),
        concat(lines).len() <= 112,
        0 <= j < padding_symbols(lines.len()).len(),
        0 <= other < padding_symbols(lines.len()).len(),
    ensures
        padding_symbols(lines.len())[j] != row_symbols(lines, k)[i],
        j != other ==> padding_symbols(lines.len())[j] != padding_symbols(lines.len())[other],
{
    let row = (13 - j) as nat;
    let other_row = (13 - other) as nat;
    lemma_padding_symbol_index(row);
    lemma_padding_symbol_index(other_row);
    lemma_cell_index_bound(lines, k, i);
    if padding_symbols(lines.len())[j] == row_symbols(lines, k)[i] {
        lemma_symbol_text_injective(padding_index(row), cell_index(lines, k, i));
    }
    if padding_symbols(lines.len())[j] == padding_symbols(lines.len())[other] {
        lemma_symbol_text_injective(padding_index(row), padding_index(other_row));
    }
}

} // verus!
