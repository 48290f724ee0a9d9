//! The logic engine that holds the boards and answers the queries.
//!
//! The engine is `logru`. What this library believes of it stands in this
//! file, in the contracts of the functions that call it; everything else is
//! proved from those.

use crate::board::{fact_board_text, lemma_fact_board_text_plain, parse_board, NormalBoard};
use crate::decode::{boards_view, decode_solutions, decoded_all, solutions_view};
use crate::puyo::{InvalidPuyoError, Puyo};
use crate::query::{is_compiled_query, strings_view, TextQryBoard};
use crate::text::{chars_of, free_of, has_short_numerals, short_numerals};
use logru::textual::{ParseError, TextualUniverse};
use vstd::prelude::*;

verus! {

/// The engine's database of rules, with the names of its symbols.
#[verifier::external_type_specification]
#[verifier::external_body]
pub struct ExTextualUniverse(logru::textual::TextualUniverse);

/// The engine's report of a text that it cannot parse.
#[verifier::external_type_specification]
#[verifier::external_body]
pub struct ExParseError(logru::textual::ParseError);

/// The rules of a universe, in the order in which they were added, each as
/// the universe's own printer writes it.
pub uninterp spec fn universe_rules(tu: TextualUniverse) -> Seq<Seq<char>>;

/// The solutions that the engine's depth-first search finds for a query
/// against the given rules, in the order in which it finds them: for each
/// solution one slot for each variable index up to the highest in the query,
/// with the printed term that the variable is bound to, if it is bound. None
/// where the engine cannot parse the query.
pub uninterp spec fn query_solutions(rules: Seq<Seq<char>>, query: Seq<char>) -> Option<
    Seq<Seq<Option<Seq<char>>>>,
>;

/// Whether every row has six cells.
pub open spec fn six_wide(rows: Seq<Seq<Puyo>>) -> bool {
    forall|i: int| 0 <= i < rows.len() ==> (#[trigger] rows[i]).len() == 6
}

/// Whether a text is the fact of some board with rows of six cells.
pub open spec fn is_board_fact(text: Seq<char>) -> bool {
    exists|rows: Seq<Seq<Puyo>>| six_wide(rows) && text == #[trigger] fact_board_text(rows)
}

/// Whether a printed rule is a fact without variables over named symbols: it
/// holds no `$`, which starts a variable, and no `:`, which stands in the
/// arrow of a rule with conditions and in the printed form of a symbol
/// without a name.
pub open spec fn is_ground_fact(rule: Seq<char>) -> bool {
    free_of(rule, '$') && free_of(rule, ':')
}

/// Whether every rule is a fact without variables.
pub open spec fn ground_facts(rules: Seq<Seq<char>>) -> bool {
    forall|i: int| 0 <= i < rules.len() ==> is_ground_fact(#[trigger] rules[i])
}

/// The rules after a text was offered as a board: with the board's fact as
/// one more rule where the text is a board; otherwise as before.
pub open spec fn after_load(rules: Seq<Seq<char>>, text: Seq<char>) -> Seq<Seq<char>> {
    match parse_board(text) {
        Ok(rows) => rules.push(fact_board_text(rows)),
        Err(_) => rules,
    }
}

/// The rules after each of the texts was offered as a board, in their order.
pub open spec fn after_loads(rules: Seq<Seq<char>>, texts: Seq<Seq<char>>) -> Seq<Seq<char>>
    decreases texts.len(),
{
    if texts.len() == 0 {
        rules
    } else {
        after_load(after_loads(rules, texts.drop_last()), texts.last())
    }
}

/// Why a board was not added to the database.
#[derive(Debug)]
pub enum LoadError {
    /// The text is no board.
    InvalidBoard(InvalidPuyoError),
    /// The engine reported that it could not parse the board's fact. It
    /// parses the fact of every board, so this is handed on only in case it
    /// ever does.
    Rejected,
}

/// Why a query was not answered.
#[derive(Debug, Clone, Copy, PartialEq, Eq, Structural)]
pub enum QueryError {
    /// The query holds a numeral of more than nine digits, so that a variable
    /// index in it may be more than the engine can count.
    VariableTooLarge,
    /// The database holds a rule that is no fact without variables, so that
    /// the search need not end.
    DatabaseNotGround,
    /// The engine could not parse the query, as happens where a line of the
    /// pattern is no row of six cells.
    Malformed,
}

/// Calls `TextualUniverse::load_str`, which parses the text as rules and,
/// where all of it parses, adds the rules in their order.
///
/// Not proved: that the engine parses the fact of a board as one rule, and
/// that its printer writes that rule as the fact itself. Both follow from the
/// engine's grammar and printer: a fact is a term and a full stop, a term is
/// a name with its arguments in brackets, and the printer puts `, ` between
/// the arguments, as the fact has it. Nor proved: that the rules already
/// there print as before. That holds where each of them is a fact over named
/// symbols, which is why the clause is stated of such a database only: a rule
/// over a symbol that was made from a bare number may print otherwise once
/// the engine gives that number a name.
#[verifier::external_body]
fn load_rules(tu: &mut TextualUniverse, rules: &str) -> (r: Result<(), ParseError>)
    requires
        is_board_fact(rules@),
    ensures
        r is Ok,
        ground_facts(universe_rules(*old(tu))) ==> universe_rules(*final(tu)) == universe_rules(
            *old(tu),
        ).push(rules@),
{
    tu.load_str(rules)
}

/// Calls `Universe::rules` on the universe behind `tu` and prints each rule
/// with `Prettifier::rule_to_string`. What this returns is what
/// `universe_rules` stands for.
#[verifier::external_body]
fn printed_rules(tu: &TextualUniverse) -> (r: Vec<String>)
    ensures
        strings_view(r@) == universe_rules(*tu),
{
    tu.inner().rules().iter().map(|rule| tu.pretty().rule_to_string(rule)).collect()
}

/// Calls `TextualUniverse::query_dfs`, which parses the query and searches
/// the rules depth first, takes solutions until the search is exhausted, and
/// prints each bound term with `Prettifier::term_to_string`.
///
/// Not proved: that the rules stay as they were, and that whether the query
/// parses, and which solutions come in which order, depends on the printed
/// rules and the query alone. The call is made only where the search ends,
/// every rule being a fact, and where no variable index can overflow, the
/// facts holding no variable and the query only short numerals.
#[verifier::external_body]
fn solve(tu: &mut TextualUniverse, query: &str) -> (r: Result<Vec<Vec<Option<String>>>, ParseError>)
    requires
        ground_facts(universe_rules(*old(tu))),
        is_compiled_query(query@),
        short_numerals(query@),
    ensures
        universe_rules(*final(tu)) == universe_rules(*old(tu)),
        match r {
            Ok(found) => query_solutions(universe_rules(*old(tu)), query@) == Some(
                solutions_view(found@),
            ),
            Err(_) => query_solutions(universe_rules(*old(tu)), query@) is None,
        },
{
    let found: Vec<Vec<Option<logru::ast::Term>>> = tu.query_dfs(query)?.collect();
    let pretty = tu.pretty();
    let print = |term: &logru::ast::Term| pretty.term_to_string(term);
    let print_slot = |slot: &Option<logru::ast::Term>| slot.as_ref().map(print);
    Ok(found.iter().map(|slots| slots.iter().map(print_slot).collect()).collect())
}

/// Whether the text holds the character.
fn holds_char(text: &str, c: char) -> (r: bool)
    ensures
        r == !free_of(text@, c),
{
    let chars = chars_of(text);
    let mut i: usize = 0;
    while i < chars.len()
        invariant
            i <= chars.len(),
            chars@ == text@,
            forall|j: int| 0 <= j < i ==> chars@[j] != c,
        decreases chars.len() - i,
    {
        if chars[i] == c {
            return true;
        }
        i += 1;
    }
    false
}

/// Whether every rule of the database is a fact without variables. Against
/// such a database every search ends.
pub fn is_ground_fact_base(tu: &TextualUniverse) -> (r: bool)
    ensures
        r == ground_facts(universe_rules(*tu)),
{
    let rules = printed_rules(tu);
    let mut i: usize = 0;
    while i < rules.len()
        invariant
            i <= rules.len(),
            strings_view(rules@) == universe_rules(*tu),
            forall|j: int| 0 <= j < i ==> is_ground_fact(#[trigger] universe_rules(*tu)[j]),
        decreases rules.len() - i,
    {
        assert(strings_view(rules@)[i as int] == rules@[i as int]@);
        if holds_char(rules[i].as_str(), '$') || holds_char(rules[i].as_str(), ':') {
            assert(!is_ground_fact(universe_rules(*tu)[i as int]));
            return false;
        }
        i += 1;
    }
    true
}

/// The facts of those of the texts that are boards, in their order.
pub open spec fn board_facts(texts: Seq<Seq<char>>) -> Seq<Seq<char>>
    decreases texts.len(),
{
    if texts.len() == 0 {
        Seq::empty()
    } else {
        match parse_board(texts.last()) {
            Ok(rows) => board_facts(texts.drop_last()).push(fact_board_text(rows)),
            Err(_) => board_facts(texts.drop_last()),
        }
    }
}

/// Offering texts as boards adds one rule for each text that is a board, in
/// the order of the texts, and that rule is the board's fact: thirteen row
/// terms, the rows of the board at the bottom.
pub proof fn lemma_after_loads_adds_facts(rules: Seq<Seq<char>>, texts: Seq<Seq<char>>)
    ensures
        after_loads(rules, texts) == rules + board_facts(texts),
    decreases texts.len(),
{
    if texts.len() == 0 {
        assert(rules + board_facts(texts) =~= rules);
    } else {
        lemma_after_loads_adds_facts(rules, texts.drop_last());
        assert(after_loads(rules, texts) =~= rules + board_facts(texts));
    }
}

/// A database of facts without variables stays one when a text is offered
/// as a board.
pub proof fn lemma_after_load_ground(rules: Seq<Seq<char>>, text: Seq<char>)
    requires
        ground_facts(rules),
    ensures
        ground_facts(after_load(rules, text)),
{
    match parse_board(text) {
        Ok(rows) => {
            lemma_fact_board_text_plain(rows, '$');
            lemma_fact_board_text_plain(rows, ':');
        },
        Err(_) => {},
    }
}

/// A database of facts without variables stays one when texts are offered as
/// boards.
pub proof fn lemma_after_loads_ground(rules: Seq<Seq<char>>, texts: Seq<Seq<char>>)
    requires
        ground_facts(rules),
    ensures
        ground_facts(after_loads(rules, texts)),
    decreases texts.len(),
{
    if texts.len() > 0 {
        lemma_after_loads_ground(rules, texts.drop_last());
        lemma_after_load_ground(after_loads(rules, texts.drop_last()), texts.last());
    }
}

/// Adds a board to the database: reads the text as a board and loads the
/// board's fact. A text that is no board leaves the database as it was. The
/// database afterwards is stated for a database of facts without variables,
/// as every database is that was filled through this library.
pub fn load_str_board(tu: &mut TextualUniverse, s: &str) -> (r: Result<(), LoadError>)
    ensures
        match parse_board(s@) {
            Err(e) => {
                &&& r matches Err(LoadError::InvalidBoard(found))
                &&& found@ == e
                &&& universe_rules(*final(tu)) == universe_rules(*old(tu))
            },
            Ok(_) => r is Ok,
        },
        ground_facts(universe_rules(*old(tu))) ==> universe_rules(*final(tu)) == after_load(
            universe_rules(*old(tu)),
            s@,
        ) && ground_facts(universe_rules(*final(tu))),
{
    proof {
        if ground_facts(universe_rules(*tu)) {
            lemma_after_load_ground(universe_rules(*tu), s@);
        }
    }
    match NormalBoard::from_str(s) {
        Err(e) => Err(LoadError::InvalidBoard(e)),
        Ok(b) => {
            let fact = b.to_text_db_board();
            proof {
                b.lemma_rows_wide();
                assert(six_wide(b@));
            }
            match load_rules(tu, fact.as_str()) {
                Ok(()) => Ok(()),
                Err(_) => Err(LoadError::Rejected),
            }
        },
    }
}

/// Runs a compiled pattern against the database and decodes every solution
/// that counts into its board, in the order in which the engine finds them.
/// The database stays as it was.
pub fn run_qry(tu: &mut TextualUniverse, qry: &TextQryBoard) -> (r: Result<
    Vec<NormalBoard>,
    QueryError,
>)
    ensures
        universe_rules(*final(tu)) == universe_rules(*old(tu)),
        match r {
            Err(QueryError::VariableTooLarge) => !short_numerals(qry@.text),
            Err(QueryError::DatabaseNotGround) => short_numerals(qry@.text) && !ground_facts(
                universe_rules(*old(tu)),
            ),
            Err(QueryError::Malformed) => short_numerals(qry@.text) && ground_facts(
                universe_rules(*old(tu)),
            ) && query_solutions(universe_rules(*old(tu)), qry@.text) is None,
            Ok(boards) => {
                &&& short_numerals(qry@.text)
                &&& ground_facts(universe_rules(*old(tu)))
                &&& query_solutions(universe_rules(*old(tu)), qry@.text) matches Some(found)
                &&& boards_view(boards@) == decoded_all(qry@, found)
            },
        },
{
    if !has_short_numerals(qry.qry_str()) {
        return Err(QueryError::VariableTooLarge);
    }
    if !is_ground_fact_base(tu) {
        return Err(QueryError::DatabaseNotGround);
    }
    match solve(tu, qry.qry_str()) {
        Err(_) => Err(QueryError::Malformed),
        Ok(found) => Ok(decode_solutions(qry, &found)),
    }
}

} // verus!
