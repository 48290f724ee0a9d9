//! Decoding the engine's solutions into boards.
//!
//! A solution is one slot for each variable index of the query: the text of
//! the term that the variable is bound to, or nothing. A solution counts only
//! if no two colour variables are bound to the same text. Its board is read
//! off the rows of the compiled pattern, with each variable replaced by what
//! it is bound to.

use crate::board::{rows_view, NormalBoard};
use crate::puyo::{plain_of_fact, Puyo};
use crate::query::{
    cell_index, compiled, is_cell, lemma_padding_symbol_index, lemma_query_rows_len,
    lemma_symbol_text_injective, padding_index, padding_symbols, pattern_lines, query_rows,
    row_symbols, strings_view, symbol_rows_view, symbol_string, symbol_text, SymbolRow,
    SymbolRowView, TextQryBoard, TextQryView, WILD_START,
};
use crate::row::{
    empty_row, fact_row_text, garbage_row, lemma_row_roundtrip, parse_row, plain_row_text,
    NormalRow,
};
use crate::text::{chars_of, concat, free_of, join};
use vstd::hash_map::StringHashMap;
use vstd::hash_set::StringHashSet;
use vstd::prelude::*;
use vstd::string::StringExecFns;

verus! {

/// The texts that the colour variables of one solution are bound to.
pub type ColorSet = StringHashSet;

/// A solution as plain values.
pub open spec fn solution_view(solution: Seq<Option<String>>) -> Seq<Option<Seq<char>>> {
    solution.map_values(
        |slot: Option<String>|
            match slot {
                Some(text) => Some(text@),
                None => None,
            },
    )
}

/// Solutions as plain values.
pub open spec fn solutions_view(solutions: Seq<Vec<Option<String>>>) -> Seq<
    Seq<Option<Seq<char>>>,
> {
    solutions.map_values(|solution: Vec<Option<String>>| solution_view(solution@))
}

/// The boards that a vector of boards holds.
pub open spec fn boards_view(boards: Seq<NormalBoard>) -> Seq<Seq<Seq<Puyo>>> {
    boards.map_values(|board: NormalBoard| board@)
}

/// Whether slot `i` is one of a colour variable that is bound.
pub open spec fn is_bound_color(solution: Seq<Option<Seq<char>>>, i: int) -> bool {
    0 <= i < solution.len() && i < WILD_START && solution[i] is Some
}

/// Whether no two colour variables of the solution are bound to the same
/// text. Variables with index 20 or more are free to share theirs.
pub open spec fn colors_distinct(solution: Seq<Option<Seq<char>>>) -> bool {
    forall|i: int, j: int|
        #![trigger solution[i], solution[j]]
        is_bound_color(solution, i) && is_bound_color(solution, j) && i < j ==> solution[i]
            != solution[j]
}

/// The texts bound to the colour variables among the first `n` slots.
pub open spec fn colors_seen(solution: Seq<Option<Seq<char>>>, n: int) -> Set<Seq<char>> {
    Set::new(
        |text: Seq<char>|
            exists|i: int|
                is_bound_color(solution, i) && i < n && #[trigger] solution[i] == Some(text),
    )
}

/// What the first `n` slots bind: the text of each bound variable, by the
/// variable's text.
pub open spec fn answers(solution: Seq<Option<Seq<char>>>, n: int) -> Map<Seq<char>, Seq<char>>
    decreases n,
{
    if n <= 0 {
        Map::empty()
    } else {
        match solution[n - 1] {
            Some(text) => answers(solution, n - 1).insert(symbol_text((n - 1) as nat), text),
            None => answers(solution, n - 1),
        }
    }
}

/// What a variable stands for: the text it is bound to, or its own text where
/// it is bound to nothing.
pub open spec fn resolved(bound: Map<Seq<char>, Seq<char>>, symbol: Seq<char>) -> Seq<char> {
    if bound.contains_key(symbol) {
        bound[symbol]
    } else {
        symbol
    }
}

/// `s` without each `row(` in it, found from the left.
pub open spec fn without_row_open(s: Seq<char>) -> Seq<char>
    decreases s.len(),
{
    if s.len() < 4 {
        s
    } else if s[0] == 'r' && s[1] == 'o' && s[2] == 'w' && s[3] == '(' {
        without_row_open(s.skip(4))
    } else {
        seq![s[0]] + without_row_open(s.skip(1))
    }
}

/// Whether `c` only separates or closes the arguments of a term.
pub open spec fn is_separator(c: char) -> bool {
    c == ',' || c == ')' || c == ' '
}

/// `s` without its commas, closing brackets and spaces.
pub open spec fn without_separators(s: Seq<char>) -> Seq<char>
    decreases s.len(),
{
    if s.len() == 0 {
        s
    } else if is_separator(s.last()) {
        without_separators(s.drop_last())
    } else {
        without_separators(s.drop_last()).push(s.last())
    }
}

/// `s` with each `l` turned into a space.
pub open spec fn plain_of_fact_text(s: Seq<char>) -> Seq<char> {
    s.map_values(|c: char| plain_of_fact(c))
}

/// The cells of a row term, in the plain alphabet: the term without its
/// `row(`, commas, brackets and spaces, and with a space for each `l`.
pub open spec fn cells_of_row_term(term: Seq<char>) -> Seq<char> {
    plain_of_fact_text(without_separators(without_row_open(term)))
}

/// The text of a row of the pattern under the given bindings, in the plain
/// alphabet.
pub open spec fn row_text(bound: Map<Seq<char>, Seq<char>>, row: SymbolRowView) -> Seq<char> {
    match row {
        SymbolRowView::EntireRow(symbol) => cells_of_row_term(resolved(bound, symbol)),
        SymbolRowView::IndivSymbols(symbols) => plain_of_fact_text(
            concat(symbols.map_values(|symbol: Seq<char>| resolved(bound, symbol))),
        ),
    }
}

/// The text of a row of six empty cells.
pub open spec fn blank_row_text() -> Seq<char> {
    Seq::new(6, |i: int| ' ')
}

/// The row that a reconstructed text gives: none for the blank row, the row
/// it reads as where it reads as one, and the garbage row otherwise.
pub open spec fn decoded_row(text: Seq<char>) -> Option<Seq<Puyo>> {
    if text == blank_row_text() {
        None
    } else {
        match parse_row(text) {
            Ok(row) => Some(row),
            Err(_) => Some(garbage_row()),
        }
    }
}

/// The rows that the rows of the pattern give under the bindings, in their
/// order, without the blank ones.
pub open spec fn decoded_rows(bound: Map<Seq<char>, Seq<char>>, rows: Seq<SymbolRowView>) -> Seq<
    Seq<Puyo>,
>
    decreases rows.len(),
{
    if rows.len() == 0 {
        Seq::empty()
    } else {
        match decoded_row(row_text(bound, rows.last())) {
            Some(row) => decoded_rows(bound, rows.drop_last()).push(row),
            None => decoded_rows(bound, rows.drop_last()),
        }
    }
}

/// The board of a solution, or none where two colour variables share a text.
pub open spec fn decoded(qry: TextQryView, solution: Seq<Option<Seq<char>>>) -> Option<
    Seq<Seq<Puyo>>,
> {
    if colors_distinct(solution) {
        Some(decoded_rows(answers(solution, solution.len() as int), qry.rows))
    } else {
        None
    }
}

/// The boards of the solutions that count, in the order of the solutions.
pub open spec fn decoded_all(qry: TextQryView, solutions: Seq<Seq<Option<Seq<char>>>>) -> Seq<
    Seq<Seq<Puyo>>,
>
    decreases solutions.len(),
{
    if solutions.len() == 0 {
        Seq::empty()
    } else {
        match decoded(qry, solutions.last()) {
            Some(board) => decoded_all(qry, solutions.drop_last()).push(board),
            None => decoded_all(qry, solutions.drop_last()),
        }
    }
}

/// The texts that a map of strings holds.
pub open spec fn texts_of(bound: Map<Seq<char>, String>) -> Map<Seq<char>, Seq<char>> {
    bound.map_values(|text: String| text@)
}

/// Notes a colour: says whether `color` is new, and adds it to the colours
/// seen.
pub fn is_new_color(colors_assigned: &mut ColorSet, color: &str) -> (r: bool)
    ensures
        r == !old(colors_assigned)@.contains(color@),
        final(colors_assigned)@ == old(colors_assigned)@.insert(color@),
{
    if colors_assigned.contains(color) {
        assert(colors_assigned@ =~= colors_assigned@.insert(color@));
        false
    } else {
        colors_assigned.insert(String::from_str(color));
        true
    }
}

/// Collects what a solution binds, or nothing where two colour variables
/// share a text.
fn collect_answers(solution: &Vec<Option<String>>) -> (r: Option<StringHashMap<String>>)
    ensures
        match r {
            Some(bound) => colors_distinct(solution_view(solution@)) && texts_of(bound@) == answers(
                solution_view(solution@),
                solution@.len() as int,
            ),
            None => !colors_distinct(solution_view(solution@)),
        },
{
    let ghost slots = solution_view(solution@);
    let mut colors_assigned = ColorSet::new();
    let mut bound: StringHashMap<String> = StringHashMap::new();
    let mut index: usize = 0;
    assert(colors_assigned@ =~= colors_seen(slots, 0));
    assert(texts_of(bound@) =~= answers(slots, 0));
    while index < solution.len()
        invariant
            index <= solution.len(),
            slots == solution_view(solution@),
            colors_assigned@ == colors_seen(slots, index as int),
            texts_of(bound@) == answers(slots, index as int),
            forall|i: int, j: int|
                #![trigger slots[i], slots[j]]
                is_bound_color(slots, i) && is_bound_color(slots, j) && i < j < index ==> slots[i]
                    != slots[j],
        decreases solution.len() - index,
    {
        let ghost seen_before = colors_assigned@;
        let ghost bound_before = bound@;
        match &solution[index] {
            Some(term) => {
                assert(slots[index as int] == Some(term@));
                if (index as u128) < WILD_START {
                    if !is_new_color(&mut colors_assigned, term.as_str()) {
                        proof {
                            let i = choose|i: int|
                                is_bound_color(slots, i) && i < index && #[trigger] slots[i]
                                    == Some(term@);
                            assert(is_bound_color(slots, index as int));
                            assert(slots[i] == slots[index as int]);
                        }
                        return None;
                    }
                }
                bound.insert(symbol_string(index as u128), term.clone());
                proof {
                    assert(texts_of(bound@) =~= texts_of(bound_before).insert(
                        symbol_text(index as nat),
                        term@,
                    ));
                }
            },
            None => {
                assert(slots[index as int] is None);
            },
        }
        proof {
            let next = index + 1;
            assert(colors_assigned@ =~= colors_seen(slots, next)) by {
                assert forall|text: Seq<char>| colors_assigned@.contains(text) implies colors_seen(
                    slots,
                    next,
                ).contains(text) by {
                    if seen_before.contains(text) {
                        let i = choose|i: int|
                            is_bound_color(slots, i) && i < index && #[trigger] slots[i] == Some(
                                text,
                            );
                        assert(is_bound_color(slots, i) && i < next && slots[i] == Some(text));
                    } else {
                        assert(is_bound_color(slots, index as int) && slots[index as int] == Some(
                            text,
                        ));
                    }
                }
                assert forall|text: Seq<char>| colors_seen(slots, next).contains(
                    text,
                ) implies colors_assigned@.contains(text) by {
                    let i = choose|i: int|
                        is_bound_color(slots, i) && i < next && #[trigger] slots[i] == Some(text);
                    if i < index {
                        assert(seen_before.contains(text));
                    }
                }
            }
            assert forall|i: int, j: int|
                #![trigger slots[i], slots[j]]
                is_bound_color(slots, i) && is_bound_color(slots, j) && i < j < next
                    implies slots[i] != slots[j] by {
                if j == index {
                    if slots[i] == slots[j] {
                        assert(seen_before.contains(slots[j]->0));
                    }
                }
            }
        }
        index += 1;
    }
    Some(bound)
}

/// What a variable stands for under the bindings.
fn resolve(bound: &StringHashMap<String>, symbol: &str) -> (r: Vec<char>)
    ensures
        r@ == resolved(texts_of(bound@), symbol@),
{
    match bound.get(symbol) {
        Some(text) => chars_of(text.as_str()),
        None => chars_of(symbol),
    }
}

/// Takes each `row(` out of a text.
fn strip_row_open(term: &Vec<char>) -> (r: Vec<char>)
    ensures
        r@ == without_row_open(term@),
{
    let mut out: Vec<char> = Vec::new();
    let mut i: usize = 0;
    assert(term@.skip(0) =~= term@);
    while i < term.len()
        invariant
            i <= term.len(),
            out@ + without_row_open(term@.skip(i as int)) == without_row_open(term@),
        decreases term.len() - i,
    {
        let ghost rest = term@.skip(i as int);
        if term.len() - i >= 4 && term[i] == 'r' && term[i + 1] == 'o' && term[i + 2] == 'w'
            && term[i + 3] == '(' {
            assert(rest.skip(4) =~= term@.skip(i + 4));
            i += 4;
        } else {
            out.push(term[i]);
            proof {
                if rest.len() >= 4 {
                    assert(rest.skip(1) =~= term@.skip(i + 1));
                } else {
                    assert(without_row_open(rest) == rest);
                    assert(without_row_open(rest.skip(1)) == rest.skip(1));
                    assert(seq![rest[0]] + rest.skip(1) =~= rest);
                    assert(rest.skip(1) =~= term@.skip(i + 1));
                }
                assert(out@ + without_row_open(term@.skip(i + 1)) =~= without_row_open(term@));
            }
            i += 1;
        }
    }
    assert(without_row_open(term@.skip(i as int)) =~= Seq::<char>::empty());
    assert(out@ + Seq::<char>::empty() =~= out@);
    out
}

/// Reads the cells off a row term.
fn row_term_cells(term: &Vec<char>) -> (r: Vec<char>)
    ensures
        r@ == cells_of_row_term(term@),
{
    let opened = strip_row_open(term);
    let mut out: Vec<char> = Vec::new();
    let mut i: usize = 0;
    assert(plain_of_fact_text(without_separators(opened@.take(0))) =~= out@);
    while i < opened.len()
        invariant
            i <= opened.len(),
            out@ == plain_of_fact_text(without_separators(opened@.take(i as int))),
        decreases opened.len() - i,
    {
        let c = opened[i];
        assert(opened@.take(i + 1).drop_last() =~= opened@.take(i as int));
        if !(c == ',' || c == ')' || c == ' ') {
            out.push(if c == 'l' {
                ' '
            } else {
                c
            });
            assert(out@ =~= plain_of_fact_text(without_separators(opened@.take(i + 1))));
        }
        i += 1;
    }
    assert(opened@.take(i as int) =~= opened@);
    out
}

/// The text of a row of the pattern under the bindings.
fn reconstruct_row_text(bound: &StringHashMap<String>, row: &SymbolRow) -> (r: Vec<char>)
    ensures
        r@ == row_text(texts_of(bound@), row@),
{
    match row {
        SymbolRow::EntireRow(row_sym) => {
            let term = resolve(bound, row_sym.as_str());
            row_term_cells(&term)
        },
        SymbolRow::IndivSymbols(row_syms) => {
            let ghost parts = strings_view(row_syms@).map_values(
                |symbol: Seq<char>| resolved(texts_of(bound@), symbol),
            );
            let mut out: Vec<char> = Vec::new();
            let mut i: usize = 0;
            assert(plain_of_fact_text(concat(parts.take(0))) =~= out@);
            while i < row_syms.len()
                invariant
                    i <= row_syms.len(),
                    parts == strings_view(row_syms@).map_values(
                        |symbol: Seq<char>| resolved(texts_of(bound@), symbol),
                    ),
                    out@ == plain_of_fact_text(concat(parts.take(i as int))),
                decreases row_syms.len() - i,
            {
                let answer = resolve(bound, row_syms[i].as_str());
                let ghost before = out@;
                let mut j: usize = 0;
                while j < answer.len()
                    invariant
                        j <= answer.len(),
                        out@ == before + plain_of_fact_text(answer@.take(j as int)),
                    decreases answer.len() - j,
                {
                    let c = answer[j];
                    out.push(if c == 'l' {
                        ' '
                    } else {
                        c
                    });
                    assert(out@ =~= before + plain_of_fact_text(answer@.take(j + 1)));
                    j += 1;
                }
                proof {
                    assert(answer@.take(j as int) =~= answer@);
                    assert(parts.take(i + 1).drop_last() =~= parts.take(i as int));
                    assert(parts.take(i + 1).last() == answer@);
                    assert(out@ =~= plain_of_fact_text(concat(parts.take(i + 1))));
                }
                i += 1;
            }
            assert(parts.take(i as int) =~= parts);
            out
        },
    }
}

/// Whether the text is that of six empty cells.
fn is_blank_row(text: &Vec<char>) -> (r: bool)
    ensures
        r == (text@ == blank_row_text()),
{
    if text.len() != 6 {
        return false;
    }
    let mut i: usize = 0;
    while i < 6
        invariant
            i <= 6,
            text@.len() == 6,
            forall|j: int| 0 <= j < i ==> text@[j] == ' ',
        decreases 6 - i,
    {
        if text[i] != ' ' {
            assert(blank_row_text()[i as int] == ' ');
            return false;
        }
        i += 1;
    }
    assert(text@ =~= blank_row_text());
    true
}

/// Decodes one solution of the query into its board. A solution in which two
/// colour variables are bound to the same text gives none. A row that does
/// not read as a row becomes a row of garbage cells; a row of six empty cells
/// is left out.
pub fn decode_solution(qry: &TextQryBoard, solution: &Vec<Option<String>>) -> (r: Option<
    NormalBoard,
>)
    ensures
        match r {
            Some(board) => decoded(qry@, solution_view(solution@)) == Some(board@),
            None => decoded(qry@, solution_view(solution@)) is None,
        },
        r matches Some(board) ==> board@.len() <= qry@.rows.len() && forall|k: int|
            0 <= k < board@.len() ==> #[trigger] board@[k] != empty_row(),
{
    proof {
        lemma_decoded_rows_not_empty(
            answers(solution_view(solution@), solution@.len() as int),
            qry@.rows,
        );
    }
    let bound = match collect_answers(solution) {
        Some(bound) => bound,
        None => {
            return None;
        },
    };
    let sym_board = qry.sym_board();
    let ghost rows = symbol_rows_view(sym_board@);
    let mut soln_rows: Vec<NormalRow> = Vec::new();
    let mut i: usize = 0;
    assert(rows_view(soln_rows@) =~= decoded_rows(texts_of(bound@), rows.take(0)));
    while i < sym_board.len()
        invariant
            i <= sym_board.len(),
            rows == symbol_rows_view(sym_board@),
            rows_view(soln_rows@) == decoded_rows(texts_of(bound@), rows.take(i as int)),
        decreases sym_board.len() - i,
    {
        let ghost before = rows_view(soln_rows@);
        let text = reconstruct_row_text(&bound, &sym_board[i]);
        proof {
            assert(rows.take(i + 1).drop_last() =~= rows.take(i as int));
            assert(rows.take(i + 1).last() == sym_board@[i as int]@);
        }
        if !is_blank_row(&text) {
            let row = match NormalRow::from_chars(&text) {
                Ok(row) => row,
                Err(_) => NormalRow::garbage(),
            };
            soln_rows.push(row);
            assert(rows_view(soln_rows@) =~= before.push(row@));
        }
        i += 1;
    }
    assert(rows.take(i as int) =~= rows);
    Some(NormalBoard::from_rows(soln_rows))
}

/// Decodes the solutions of the query, in their order, leaving out those in
/// which two colour variables are bound to the same text.
pub fn decode_solutions(qry: &TextQryBoard, solutions: &Vec<Vec<Option<String>>>) -> (r: Vec<
    NormalBoard,
>)
    ensures
        boards_view(r@) == decoded_all(qry@, solutions_view(solutions@)),
{
    let ghost all = solutions_view(solutions@);
    let mut nr_solns: Vec<NormalBoard> = Vec::new();
    let mut i: usize = 0;
    assert(boards_view(nr_solns@) =~= decoded_all(qry@, all.take(0)));
    while i < solutions.len()
        invariant
            i <= solutions.len(),
            all == solutions_view(solutions@),
            boards_view(nr_solns@) == decoded_all(qry@, all.take(i as int)),
        decreases solutions.len() - i,
    {
        let ghost before = boards_view(nr_solns@);
        proof {
            assert(all.take(i + 1).drop_last() =~= all.take(i as int));
            assert(all.take(i + 1).last() == solution_view(solutions@[i as int]@));
        }
        match decode_solution(qry, &solutions[i]) {
            Some(board) => {
                nr_solns.push(board);
                assert(boards_view(nr_solns@) =~= before.push(board@));
            },
            None => {},
        }
        i += 1;
    }
    assert(all.take(i as int) =~= all);
    nr_solns
}

/// Under the bindings of a solution the variable with index `i` stands for
/// the text in slot `i`, and for itself where the slot is empty or missing.
pub proof fn lemma_answers_lookup(solution: Seq<Option<Seq<char>>>, n: int, i: nat)
    requires
        0 <= n <= solution.len(),
    ensures
        resolved(answers(solution, n), symbol_text(i)) == if i < n && solution[i as int] is Some {
            solution[i as int]->0
        } else {
            symbol_text(i)
        },
    decreases n,
{
    if n > 0 {
        lemma_answers_lookup(solution, n - 1, i);
        if i != n - 1 && symbol_text(i) == symbol_text((n - 1) as nat) {
            lemma_symbol_text_injective(i, (n - 1) as nat);
        }
    }
}

/// A solution in which two colour variables are bound to the same text gives
/// no board.
pub proof fn lemma_shared_color_rejected(
    qry: TextQryView,
    solution: Seq<Option<Seq<char>>>,
    i: int,
    j: int,
)
    requires
        0 <= i < j < solution.len(),
        j < WILD_START,
        solution[i] is Some,
        solution[i] == solution[j],
    ensures
        decoded(qry, solution) is None,
{
    assert(is_bound_color(solution, i) && is_bound_color(solution, j));
}

/// Whether a solution gives a board is decided by its colour variables alone:
/// what the variables with index 20 or more are bound to, the same text or
/// not, changes nothing about it.
pub proof fn lemma_wildcards_never_reject(
    qry: TextQryView,
    a: Seq<Option<Seq<char>>>,
    b: Seq<Option<Seq<char>>>,
)
    requires
        a.len() == b.len() || (a.len() >= WILD_START && b.len() >= WILD_START),
        forall|i: int| 0 <= i < WILD_START && i < a.len() ==> a[i] == b[i],
    ensures
        decoded(qry, a) is Some <==> decoded(qry, b) is Some,
{
    if colors_distinct(a) {
        assert forall|i: int, j: int|
            #![trigger b[i], b[j]]
            is_bound_color(b, i) && is_bound_color(b, j) && i < j implies b[i] != b[j] by {
            assert(is_bound_color(a, i) && is_bound_color(a, j));
            assert(a[i] != a[j]);
        }
    }
    if colors_distinct(b) {
        assert forall|i: int, j: int|
            #![trigger a[i], a[j]]
            is_bound_color(a, i) && is_bound_color(a, j) && i < j implies a[i] != a[j] by {
            assert(is_bound_color(b, i) && is_bound_color(b, j));
            assert(b[i] != b[j]);
        }
    }
}

/// A solution whose bound variables all have index 20 or more gives a board,
/// even where they are all bound to the same text.
pub proof fn lemma_shared_wildcards_accepted(qry: TextQryView, solution: Seq<Option<Seq<char>>>)
    requires
        forall|i: int| 0 <= i < solution.len() && i < WILD_START ==> solution[i] is None,
    ensures
        decoded(qry, solution) is Some,
{
}

/// A reconstructed row is never the row of six empty cells.
pub proof fn lemma_decoded_row_not_empty(text: Seq<char>)
    ensures
        decoded_row(text) != Some(empty_row()),
{
    if text != blank_row_text() {
        match parse_row(text) {
            Ok(row) => {
                if row == empty_row() {
                    assert forall|i: int| 0 <= i < 6 implies text[i] == ' ' by {
                        assert(row[i] == Puyo::Empty);
                        assert(Puyo::of_plain_char(text[i]) == Some(Puyo::Empty));
                    }
                    assert(text =~= blank_row_text());
                }
            },
            Err(_) => {
                assert(garbage_row()[0] != empty_row()[0]);
            },
        }
    }
}

/// No row of a decoded board is the row of six empty cells, and the board
/// has no more rows than the compiled pattern.
pub proof fn lemma_decoded_rows_not_empty(
    bound: Map<Seq<char>, Seq<char>>,
    rows: Seq<SymbolRowView>,
)
    ensures
        decoded_rows(bound, rows).len() <= rows.len(),
        forall|k: int|
            0 <= k < decoded_rows(bound, rows).len() ==> #[trigger] decoded_rows(bound, rows)[k]
                != empty_row(),
        forall|k: int|
            0 <= k < decoded_rows(bound, rows).len() ==> (#[trigger] decoded_rows(
                bound,
                rows,
            )[k]).len() == 6,
    decreases rows.len(),
{
    if rows.len() > 0 {
        lemma_decoded_rows_not_empty(bound, rows.drop_last());
        lemma_decoded_row_not_empty(row_text(bound, rows.last()));
    }
}

/// A text without an `o` holds no `row(`, and stays as it is.
proof fn lemma_without_row_open_plain(s: Seq<char>)
    requires
        free_of(s, 'o'),
    ensures
        without_row_open(s) == s,
    decreases s.len(),
{
    if s.len() >= 4 {
        lemma_without_row_open_plain(s.skip(1));
        assert(seq![s[0]] + s.skip(1) =~= s);
    }
}

/// Taking the separators out of two texts, one after the other, is taking
/// them out of each.
proof fn lemma_without_separators_concat(a: Seq<char>, b: Seq<char>)
    ensures
        without_separators(a + b) == without_separators(a) + without_separators(b),
    decreases b.len(),
{
    if b.len() == 0 {
        assert(a + b =~= a);
        assert(without_separators(a) + without_separators(b) =~= without_separators(a));
    } else {
        assert((a + b).drop_last() =~= a + b.drop_last());
        lemma_without_separators_concat(a, b.drop_last());
        if !is_separator(b.last()) {
            assert(without_separators(a + b) =~= without_separators(a) + without_separators(b));
        }
    }
}

/// The fact-language tokens of a row, with `, ` between them, hold the
/// tokens and nothing else that counts: without the separators they are the
/// tokens, and there is no `o` among them.
proof fn lemma_fact_tokens_joined(row: Seq<Puyo>)
    ensures
        without_separators(join(row.map_values(|p: Puyo| seq![p.fact_char()]), ", "@))
            == row.map_values(|p: Puyo| p.fact_char()),
        free_of(join(row.map_values(|p: Puyo| seq![p.fact_char()]), ", "@), 'o'),
    decreases row.len(),
{
    reveal_strlit(", ");
    let tokens = row.map_values(|p: Puyo| seq![p.fact_char()]);
    let chars = row.map_values(|p: Puyo| p.fact_char());
    let sep = ", "@;
    assert(without_separators(sep) =~= Seq::<char>::empty()) by {
        reveal_with_fuel(without_separators, 3);
    }
    if row.len() == 0 {
        assert(chars =~= Seq::<char>::empty());
    } else {
        let last = seq![row.last().fact_char()];
        assert(without_separators(last) =~= last) by {
            reveal_with_fuel(without_separators, 2);
        }
        assert(tokens.drop_last() =~= row.drop_last().map_values(|p: Puyo| seq![p.fact_char()]));
        assert(chars.drop_last() =~= row.drop_last().map_values(|p: Puyo| p.fact_char()));
        if row.len() == 1 {
            assert(chars =~= last);
        } else {
            lemma_fact_tokens_joined(row.drop_last());
            let before = join(tokens.drop_last(), sep);
            lemma_without_separators_concat(before, sep);
            lemma_without_separators_concat(before + sep, last);
            assert(chars =~= chars.drop_last() + last);
        }
    }
}

/// Reading the cells off the row term of a row gives the row's plain text:
/// the decoder undoes what the fact encoding wrote.
pub proof fn lemma_row_term_roundtrip(row: Seq<Puyo>)
    ensures
        cells_of_row_term(fact_row_text(row)) == plain_row_text(row),
{
    reveal_strlit("row(");
    reveal_strlit(")");
    let joined = join(row.map_values(|p: Puyo| seq![p.fact_char()]), ", "@);
    let term = fact_row_text(row);
    lemma_fact_tokens_joined(row);
    let rest = joined + ")"@;
    assert(term =~= "row("@ + rest);
    assert(term.skip(4) =~= rest);
    lemma_without_row_open_plain(rest);
    assert(without_row_open(term) == rest);
    lemma_without_separators_concat(joined, ")"@);
    assert(without_separators(")"@) =~= Seq::<char>::empty()) by {
        reveal_with_fuel(without_separators, 2);
    }
    assert(without_separators(rest) =~= row.map_values(|p: Puyo| p.fact_char()));
    assert(plain_of_fact_text(row.map_values(|p: Puyo| p.fact_char())) =~= plain_row_text(row));
}

/// The fact-language tokens of the cells of a row, one after the other and
/// with a space for each `l`, are the row's plain text.
pub proof fn lemma_cell_tokens_roundtrip(row: Seq<Puyo>)
    ensures
        plain_of_fact_text(concat(row.map_values(|p: Puyo| seq![p.fact_char()])))
            == plain_row_text(row),
    decreases row.len(),
{
    let tokens = row.map_values(|p: Puyo| seq![p.fact_char()]);
    if row.len() == 0 {
        assert(plain_row_text(row) =~= Seq::<char>::empty());
    } else {
        lemma_cell_tokens_roundtrip(row.drop_last());
        assert(tokens.drop_last() =~= row.drop_last().map_values(|p: Puyo| seq![p.fact_char()]));
        assert(plain_of_fact_text(concat(tokens)) =~= plain_row_text(row.drop_last()).push(
            row.last().plain_char(),
        ));
        assert(plain_row_text(row) =~= plain_row_text(row.drop_last()).push(
            row.last().plain_char(),
        ));
    }
}

/// The plain text of a row of six cells decodes to that row, unless the row
/// is empty, which decodes to nothing.
pub proof fn lemma_decoded_plain_row(row: Seq<Puyo>)
    requires
        row.len() == 6,
    ensures
        decoded_row(plain_row_text(row)) == if row == empty_row() {
            None
        } else {
            Some(row)
        },
{
    lemma_row_roundtrip(row);
    if row == empty_row() {
        assert(plain_row_text(row) =~= blank_row_text());
    } else {
        if plain_row_text(row) == blank_row_text() {
            assert forall|i: int| 0 <= i < 6 implies row[i] == Puyo::Empty by {
                assert(plain_row_text(row)[i] == ' ');
            }
            assert(row =~= empty_row());
        }
    }
}

/// The rows of a board that are not empty, in their order.
pub open spec fn nonempty_rows(rows: Seq<Seq<Puyo>>) -> Seq<Seq<Puyo>>
    decreases rows.len(),
{
    if rows.len() == 0 {
        Seq::empty()
    } else if rows.last() == empty_row() {
        nonempty_rows(rows.drop_last())
    } else {
        nonempty_rows(rows.drop_last()).push(rows.last())
    }
}

/// Whether the bindings are those of a match of the pattern with the framed
/// board: the pattern has at most thirteen lines of six cells; the variable
/// of each row above the pattern stands for the row term of the board's row
/// in that place; and the variable of each cell of the pattern stands for the
/// fact-language token of the board's cell in that place.
pub open spec fn binds_frame(
    bound: Map<Seq<char>, Seq<char>>,
    pattern: Seq<char>,
    frame: Seq<Seq<Puyo>>,
) -> bool {
    let lines = pattern_lines(pattern);
    let above = 13 - lines.len();
    &&& lines.len() <= 13
    &&& frame.len() == 13
    &&& forall|j: int| 0 <= j < 13 ==> (#[trigger] frame[j]).len() == 6
    &&& forall|k: int| 0 <= k < lines.len() ==> (#[trigger] lines[k]).len() == 6
    &&& forall|j: int|
        0 <= j < above ==> resolved(bound, #[trigger] padding_symbols(lines.len())[j])
            == fact_row_text(frame[j])
    &&& forall|k: int, i: int|
        #![trigger row_symbols(lines, k)[i]]
        is_cell(lines, k, i) ==> resolved(bound, row_symbols(lines, k)[i]) == seq![
            frame[above + k][i].fact_char(),
        ]
}

/// The first `m` rows of the compiled pattern decode to the first `m` rows of
/// the framed board, but for the empty ones.
proof fn lemma_decode_inverts_frame_upto(
    bound: Map<Seq<char>, Seq<char>>,
    pattern: Seq<char>,
    frame: Seq<Seq<Puyo>>,
    m: int,
)
    requires
        binds_frame(bound, pattern, frame),
        0 <= m <= 13,
    ensures
        query_rows(pattern).len() == 13,
        decoded_rows(bound, query_rows(pattern).take(m)) == nonempty_rows(frame.take(m)),
    decreases m,
{
    let lines = pattern_lines(pattern);
    let above = 13 - lines.len();
    let rows = query_rows(pattern);
    lemma_query_rows_len(pattern);
    if m == 0 {
        assert(rows.take(0) =~= Seq::<SymbolRowView>::empty());
        assert(frame.take(0) =~= Seq::<Seq<Puyo>>::empty());
    } else {
        lemma_decode_inverts_frame_upto(bound, pattern, frame, m - 1);
        let at = m - 1;
        assert(rows.take(m).drop_last() =~= rows.take(at));
        assert(frame.take(m).drop_last() =~= frame.take(at));
        assert(rows.take(m).last() == rows[at]);
        assert(frame.take(m).last() == frame[at]);
        let row = frame[at];
        if at < above {
            assert(rows[at] == SymbolRowView::EntireRow(padding_symbols(lines.len())[at]));
            lemma_row_term_roundtrip(row);
        } else {
            let k = at - above;
            let symbols = row_symbols(lines, k);
            assert(rows[at] == SymbolRowView::IndivSymbols(symbols));
            let parts = symbols.map_values(|symbol: Seq<char>| resolved(bound, symbol));
            assert(parts =~= row.map_values(|p: Puyo| seq![p.fact_char()])) by {
                assert forall|i: int| 0 <= i < 6 implies parts[i] == seq![row[i].fact_char()] by {
                    assert(is_cell(lines, k, i));
                    assert(resolved(bound, row_symbols(lines, k)[i]) == seq![
                        frame[above + k][i].fact_char(),
                    ]);
                }
            }
            lemma_cell_tokens_roundtrip(row);
        }
        assert(row_text(bound, rows[at]) == plain_row_text(row));
        lemma_decoded_plain_row(row);
    }
}

/// Decoding undoes encoding: where the bindings are those of a match of the
/// pattern with a framed board, the rows of the compiled pattern decode to
/// the rows of that board, without the empty ones.
pub proof fn lemma_decode_inverts_frame(
    bound: Map<Seq<char>, Seq<char>>,
    pattern: Seq<char>,
    frame: Seq<Seq<Puyo>>,
)
    requires
        binds_frame(bound, pattern, frame),
    ensures
        decoded_rows(bound, query_rows(pattern)) == nonempty_rows(frame),
{
    lemma_decode_inverts_frame_upto(bound, pattern, frame, 13);
    assert(query_rows(pattern).take(13) =~= query_rows(pattern));
    assert(frame.take(13) =~= frame);
}

/// Whether the solution is that of a match of the pattern with the framed
/// board: the pattern has at most thirteen lines of six cells; the slot of
/// the variable of each row above the pattern holds the row term of the
/// board's row in that place; and the slot of the variable of each cell of
/// the pattern holds the fact-language token of the board's cell in that
/// place.
pub open spec fn matches_frame(
    solution: Seq<Option<Seq<char>>>,
    pattern: Seq<char>,
    frame: Seq<Seq<Puyo>>,
) -> bool {
    let lines = pattern_lines(pattern);
    let above = 13 - lines.len();
    &&& lines.len() <= 13
    &&& frame.len() == 13
    &&& forall|j: int| 0 <= j < 13 ==> (#[trigger] frame[j]).len() == 6
    &&& forall|k: int| 0 <= k < lines.len() ==> (#[trigger] lines[k]).len() == 6
    &&& forall|j: int|
        #![trigger frame[j]]
        0 <= j < above ==> padding_index((13 - j) as nat) < solution.len()
            && solution[padding_index((13 - j) as nat) as int] == Some(fact_row_text(frame[j]))
    &&& forall|k: int, i: int|
        #![trigger cell_index(lines, k, i)]
        is_cell(lines, k, i) ==> cell_index(lines, k, i) < solution.len() && solution[cell_index(
            lines,
            k,
            i,
        ) as int] == Some(seq![frame[above + k][i].fact_char()])
}

/// A solution that is a match of the pattern with a framed board, and in
/// which no two colour variables share a text, decodes to the rows of that
/// board, without the empty ones.
pub proof fn lemma_match_decodes_to_board(
    solution: Seq<Option<Seq<char>>>,
    pattern: Seq<char>,
    frame: Seq<Seq<Puyo>>,
)
    requires
        matches_frame(solution, pattern, frame),
        colors_distinct(solution),
    ensures
        decoded(compiled(pattern), solution) == Some(nonempty_rows(frame)),
{
    let lines = pattern_lines(pattern);
    let above = 13 - lines.len();
    let bound = answers(solution, solution.len() as int);
    assert forall|j: int| 0 <= j < above implies resolved(
        bound,
        #[trigger] padding_symbols(lines.len())[j],
    ) == fact_row_text(frame[j]) by {
        let row = (13 - j) as nat;
        assert(frame[j].len() == 6);
        lemma_padding_symbol_index(row);
        lemma_answers_lookup(solution, solution.len() as int, padding_index(row));
    }
    assert forall|k: int, i: int|
        #![trigger row_symbols(lines, k)[i]]
        is_cell(lines, k, i) implies resolved(bound, row_symbols(lines, k)[i]) == seq![
        frame[above + k][i].fact_char(),
    ] by {
        let index = cell_index(lines, k, i);
        assert(row_symbols(lines, k)[i] == symbol_text(index));
        lemma_answers_lookup(solution, solution.len() as int, index);
    }
    lemma_decode_inverts_frame(bound, pattern, frame);
}

} // verus!
