//! Character-level helpers shared by the board encodings.

use vstd::prelude::*;
use vstd::string::StrSliceExecFns;

verus! {

/// `String::push` appends the given character to the end of the string.
pub assume_specification[ String::push ](s: &mut String, c: char)
    ensures
        final(s)@ == old(s)@.push(c),
;

/// The decimal digit that stands for `d`; `'0'` when `d` is no digit.
pub open spec fn digit_char(d: nat) -> char {
    if d == 1 {
        '1'
    } else if d == 2 {
        '2'
    } else if d == 3 {
        '3'
    } else if d == 4 {
        '4'
    } else if d == 5 {
        '5'
    } else if d == 6 {
        '6'
    } else if d == 7 {
        '7'
    } else if d == 8 {
        '8'
    } else if d == 9 {
        '9'
    } else {
        '0'
    }
}

/// Whether `c` is one of the ten decimal digits.
pub open spec fn is_digit(c: char) -> bool {
    c == '0' || c == '1' || c == '2' || c == '3' || c == '4' || c == '5' || c == '6' || c == '7'
        || c == '8' || c == '9'
}

/// The decimal numeral of `n`, without leading zeros.
pub open spec fn decimal(n: nat) -> Seq<char>
    decreases n,
{
    if n < 10 {
        seq![digit_char(n)]
    } else {
        decimal(n / 10).push(digit_char(n % 10))
    }
}

/// The concatenation of `parts`, in order.
pub open spec fn concat(parts: Seq<Seq<char>>) -> Seq<char>
    decreases parts.len(),
{
    if parts.len() == 0 {
        Seq::empty()
    } else {
        concat(parts.drop_last()) + parts.last()
    }
}

/// `parts` with `sep` between each two neighbours.
pub open spec fn join(parts: Seq<Seq<char>>, sep: Seq<char>) -> Seq<char>
    decreases parts.len(),
{
    if parts.len() == 0 {
        Seq::empty()
    } else if parts.len() == 1 {
        parts[0]
    } else {
        join(parts.drop_last(), sep) + sep + parts.last()
    }
}

/// Whether `c` occurs nowhere in `s`.
pub open spec fn free_of(s: Seq<char>, c: char) -> bool {
    forall|i: int| 0 <= i < s.len() ==> s[i] != c
}

/// `s` without one line break at its start and, after that, without one at
/// its end. Further line breaks at either end stay.
pub open spec fn trimmed(s: Seq<char>) -> Seq<char> {
    let t = if s.len() > 0 && s[0] == '\n' {
        s.skip(1)
    } else {
        s
    };
    if t.len() > 0 && t.last() == '\n' {
        t.drop_last()
    } else {
        t
    }
}

/// The lines of `s`: the pieces between its line breaks, in order. There is
/// always at least one, and the empty text has one empty line.
pub open spec fn split_lines(s: Seq<char>) -> Seq<Seq<char>>
    decreases s.len(),
{
    if s.len() == 0 {
        seq![Seq::empty()]
    } else {
        let before = split_lines(s.drop_last());
        if s.last() == '\n' {
            before.push(Seq::empty())
        } else {
            before.update(before.len() - 1, before.last().push(s.last()))
        }
    }
}

/// The texts that a vector of character vectors holds.
pub open spec fn texts(v: Seq<Vec<char>>) -> Seq<Seq<char>> {
    v.map_values(|line: Vec<char>| line@)
}

/// How many digits stand at the end of `s` without a break.
pub open spec fn digit_run(s: Seq<char>) -> nat
    decreases s.len(),
{
    if s.len() == 0 {
        0
    } else if is_digit(s.last()) {
        digit_run(s.drop_last()) + 1
    } else {
        0
    }
}

/// Whether no more than nine digits follow one another anywhere in `s`, so
/// that every numeral in it is below 1,000,000,000.
pub open spec fn short_numerals(s: Seq<char>) -> bool {
    forall|n: int| 0 <= n <= s.len() ==> digit_run(#[trigger] s.take(n)) <= 9
}

/// Whether a text has short numerals and does not start with a digit, so
/// that it neither holds a long numeral nor lengthens one that ends before it.
pub open spec fn tidy(s: Seq<char>) -> bool {
    short_numerals(s) && (s.len() > 0 ==> !is_digit(s[0]))
}

/// The characters of `s`, in order.
pub fn chars_of(s: &str) -> (r: Vec<char>)
    ensures
        r@ == s@,
{
    let mut out: Vec<char> = Vec::new();
    for c in it: s.chars()
        invariant
            out@ == it.seq().take(it.index() as int),
            it.seq() == s@,
    {
        out.push(c);
    }
    out
}

/// The string that holds exactly the characters of `v`, in order.
pub fn string_of(v: &Vec<char>) -> (r: String)
    ensures
        r@ == v@,
{
    let mut out = String::new();
    let mut i: usize = 0;
    while i < v.len()
        invariant
            i <= v.len(),
            out@ == v@.take(i as int),
        decreases v.len() - i,
    {
        out.push(v[i]);
        i += 1;
    }
    out
}

/// Drops one line break from the start of `board` and then one from the end
/// of what is left.
pub fn trim_newlines(board: &str) -> (r: &str)
    ensures
        r@ == trimmed(board@),
{
    let n = board.unicode_len();
    let lo: usize = if n > 0 && board.get_char(0) == '\n' {
        1
    } else {
        0
    };
    let hi: usize = if n > lo && board.get_char(n - 1) == '\n' {
        n - 1
    } else {
        n
    };
    let r = board.substring_char(lo, hi);
    assert(r@ =~= trimmed(board@));
    r
}

/// Splits `chars` at its line breaks.
pub fn lines_of(chars: &Vec<char>) -> (lines: Vec<Vec<char>>)
    ensures
        texts(lines@) == split_lines(chars@),
        lines@.len() >= 1,
{
    let mut lines: Vec<Vec<char>> = Vec::new();
    let mut current: Vec<char> = Vec::new();
    let mut i: usize = 0;
    while i < chars.len()
        invariant
            i <= chars.len(),
            texts(lines@).push(current@) == split_lines(chars@.take(i as int)),
        decreases chars.len() - i,
    {
        let ghost before = texts(lines@).push(current@);
        assert(chars@.take(i + 1).drop_last() =~= chars@.take(i as int));
        assert(chars@.take(i + 1).last() == chars@[i as int]);
        if chars[i] == '\n' {
            lines.push(current);
            current = Vec::new();
            assert(texts(lines@) =~= before);
        } else {
            current.push(chars[i]);
            assert(texts(lines@).push(current@) =~= before.update(
                before.len() - 1,
                before.last().push(chars@[i as int]),
            ));
        }
        i += 1;
    }
    assert(chars@.take(i as int) =~= chars@);
    let ghost before = texts(lines@).push(current@);
    lines.push(current);
    assert(texts(lines@) =~= before);
    lines
}

/// Whether `c` is a decimal digit.
pub fn is_digit_char(c: char) -> (r: bool)
    ensures
        r == is_digit(c),
{
    c == '0' || c == '1' || c == '2' || c == '3' || c == '4' || c == '5' || c == '6' || c == '7'
        || c == '8' || c == '9'
}

/// Whether no more than nine digits follow one another anywhere in `s`.
pub fn has_short_numerals(s: &str) -> (r: bool)
    ensures
        r == short_numerals(s@),
{
    let chars = chars_of(s);
    let mut run: usize = 0;
    let mut i: usize = 0;
    assert(chars@.take(0) =~= Seq::<char>::empty());
    while i < chars.len()
        invariant
            i <= chars.len(),
            chars@ == s@,
            run == digit_run(chars@.take(i as int)),
            run <= 9,
            forall|n: int| 0 <= n <= i ==> digit_run(#[trigger] chars@.take(n)) <= 9,
        decreases chars.len() - i,
    {
        assert(chars@.take(i + 1).drop_last() =~= chars@.take(i as int));
        if is_digit_char(chars[i]) {
            run += 1;
            if run > 9 {
                return false;
            }
        } else {
            run = 0;
        }
        i += 1;
    }
    true
}

fn digit_of(d: u128) -> (c: char)
    requires
        d < 10,
    ensures
        c == digit_char(d as nat),
        is_digit(c),
{
    if d == 0 {
        '0'
    } else if d == 1 {
        '1'
    } else if d == 2 {
        '2'
    } else if d == 3 {
        '3'
    } else if d == 4 {
        '4'
    } else if d == 5 {
        '5'
    } else if d == 6 {
        '6'
    } else if d == 7 {
        '7'
    } else if d == 8 {
        '8'
    } else {
        '9'
    }
}

/// Appends the decimal numeral of `n` to `out`.
pub fn push_decimal(out: &mut String, n: u128)
    ensures
        final(out)@ == old(out)@ + decimal(n as nat),
    decreases n,
{
    if n >= 10 {
        push_decimal(out, n / 10);
    }
    out.push(digit_of(n % 10));
}

/// Every character of a decimal numeral is a digit.
pub proof fn lemma_decimal_digits(n: nat)
    ensures
        decimal(n).len() >= 1,
        forall|i: int| 0 <= i < decimal(n).len() ==> is_digit(#[trigger] decimal(n)[i]),
    decreases n,
{
    if n >= 10 {
        lemma_decimal_digits(n / 10);
    }
}

/// Two digits with the same character are the same digit.
proof fn lemma_digit_injective(a: nat, b: nat)
    requires
        a < 10,
        b < 10,
        digit_char(a) == digit_char(b),
    ensures
        a == b,
{
}

/// Two numbers with the same decimal numeral are the same number.
pub proof fn lemma_decimal_injective(a: nat, b: nat)
    requires
        decimal(a) == decimal(b),
    ensures
        a == b,
    decreases a,
{
    lemma_decimal_digits(a / 10);
    lemma_decimal_digits(b / 10);
    if a < 10 {
        assert(decimal(a).len() == 1);
        assert(b < 10);
        assert(decimal(a)[0] == digit_char(a));
        assert(decimal(b)[0] == digit_char(b));
        lemma_digit_injective(a, b);
    } else {
        assert(decimal(a).len() >= 2);
        assert(b >= 10);
        assert(decimal(a).drop_last() == decimal(a / 10));
        assert(decimal(b).drop_last() == decimal(b / 10));
        assert(decimal(a).last() == digit_char(a % 10));
        assert(decimal(b).last() == digit_char(b % 10));
        lemma_decimal_injective(a / 10, b / 10);
        lemma_digit_injective(a % 10, b % 10);
    }
}

/// A join holds no character that neither its parts nor its separator hold.
pub proof fn lemma_join_free_of(parts: Seq<Seq<char>>, sep: Seq<char>, c: char)
    requires
        forall|i: int| 0 <= i < parts.len() ==> free_of(#[trigger] parts[i], c),
        free_of(sep, c),
    ensures
        free_of(join(parts, sep), c),
    decreases parts.len(),
{
    if parts.len() >= 2 {
        lemma_join_free_of(parts.drop_last(), sep, c);
    }
}

/// Joining one more part appends the separator and the part.
pub proof fn lemma_join_push(parts: Seq<Seq<char>>, sep: Seq<char>, part: Seq<char>)
    ensures
        join(parts.push(part), sep) == if parts.len() == 0 {
            part
        } else {
            join(parts, sep) + sep + part
        },
{
    assert(parts.push(part).drop_last() =~= parts);
}

/// A text without line breaks is its own single line.
pub proof fn lemma_split_lines_single(line: Seq<char>)
    requires
        free_of(line, '\n'),
    ensures
        split_lines(line) == seq![line],
    decreases line.len(),
{
    if line.len() > 0 {
        lemma_split_lines_single(line.drop_last());
        assert(line.drop_last().push(line.last()) =~= line);
        assert(seq![line.drop_last()].update(0, line) =~= seq![line]);
    } else {
        assert(line =~= Seq::<char>::empty());
    }
}

/// A line break followed by a text without line breaks adds that text as one
/// more line.
pub proof fn lemma_split_lines_append(head: Seq<char>, line: Seq<char>)
    requires
        free_of(line, '\n'),
    ensures
        split_lines(head + seq!['\n'] + line) == split_lines(head).push(line),
    decreases line.len(),
{
    let whole = head + seq!['\n'] + line;
    if line.len() == 0 {
        assert(whole.drop_last() =~= head);
        assert(line =~= Seq::<char>::empty());
    } else {
        assert(whole.drop_last() =~= head + seq!['\n'] + line.drop_last());
        lemma_split_lines_append(head, line.drop_last());
        let before = split_lines(head).push(line.drop_last());
        assert(line.drop_last().push(line.last()) =~= line);
        assert(before.update(before.len() - 1, before.last().push(line.last())) =~= split_lines(
            head,
        ).push(line));
    }
}

/// Splitting undoes joining with line breaks, for one or more lines that
/// hold no line break themselves.
pub proof fn lemma_split_lines_of_join(lines: Seq<Seq<char>>)
    requires
        lines.len() >= 1,
        forall|i: int| 0 <= i < lines.len() ==> free_of(#[trigger] lines[i], '\n'),
    ensures
        split_lines(join(lines, seq!['\n'])) == lines,
    decreases lines.len(),
{
    if lines.len() == 1 {
        lemma_split_lines_single(lines[0]);
        assert(seq![lines[0]] =~= lines);
    } else {
        lemma_split_lines_of_join(lines.drop_last());
        lemma_split_lines_append(join(lines.drop_last(), seq!['\n']), lines.last());
        assert(lines.drop_last().push(lines.last()) =~= lines);
    }
}

/// The lines of a text hold no line break, and joined with line breaks they
/// are the text again.
pub proof fn lemma_join_of_split_lines(s: Seq<char>)
    ensures
        split_lines(s).len() >= 1,
        forall|i: int|
            0 <= i < split_lines(s).len() ==> free_of(#[trigger] split_lines(s)[i], '\n'),
        join(split_lines(s), seq!['\n']) == s,
    decreases s.len(),
{
    let sep = seq!['\n'];
    if s.len() == 0 {
        assert(s =~= Seq::<char>::empty());
    } else {
        lemma_join_of_split_lines(s.drop_last());
        let before = split_lines(s.drop_last());
        assert(s.drop_last().push(s.last()) =~= s);
        if s.last() == '\n' {
            lemma_join_push(before, sep, Seq::empty());
            assert(join(before, sep) + sep + Seq::<char>::empty() =~= s);
        } else {
            let line = before.last().push(s.last());
            let lines = before.update(before.len() - 1, line);
            assert(lines =~= before.drop_last().push(line));
            lemma_join_push(before.drop_last(), sep, line);
            lemma_join_push(before.drop_last(), sep, before.last());
            assert(before.drop_last().push(before.last()) =~= before);
            if before.len() == 1 {
                assert(join(lines, sep) =~= s);
            } else {
                assert(join(lines, sep) =~= join(before, sep).push(s.last()));
            }
        }
    }
}

/// A join of one or more parts starts with its first part.
pub proof fn lemma_join_starts_with_first(parts: Seq<Seq<char>>, sep: Seq<char>)
    requires
        parts.len() >= 1,
    ensures
        join(parts, sep).len() >= parts[0].len(),
        join(parts, sep).take(parts[0].len() as int) == parts[0],
    decreases parts.len(),
{
    if parts.len() == 1 {
        assert(parts[0].take(parts[0].len() as int) =~= parts[0]);
    } else {
        lemma_join_starts_with_first(parts.drop_last(), sep);
        let before = join(parts.drop_last(), sep);
        assert(join(parts, sep).take(parts[0].len() as int) =~= before.take(
            parts[0].len() as int,
        ));
    }
}

/// The digits at the end of a text are no more than the text has characters,
/// and fewer where the text starts with something else.
pub proof fn lemma_digit_run_len(s: Seq<char>)
    ensures
        digit_run(s) <= s.len(),
        s.len() > 0 && !is_digit(s[0]) ==> digit_run(s) < s.len(),
    decreases s.len(),
{
    if s.len() > 0 {
        lemma_digit_run_len(s.drop_last());
    }
}

/// A text that starts with something other than a digit and has at most ten
/// characters is tidy.
pub proof fn lemma_small_text_tidy(s: Seq<char>)
    requires
        s.len() <= 10,
        s.len() > 0 ==> !is_digit(s[0]),
    ensures
        tidy(s),
{
    assert forall|n: int| 0 <= n <= s.len() implies digit_run(#[trigger] s.take(n)) <= 9 by {
        lemma_digit_run_len(s.take(n));
    }
}

/// What stands before a character that is no digit adds nothing to the
/// digits at the end.
pub proof fn lemma_digit_run_cut(head: Seq<char>, tail: Seq<char>)
    requires
        tail.len() >= 1,
        !is_digit(tail[0]),
    ensures
        digit_run(head + tail) == digit_run(tail),
    decreases tail.len(),
{
    assert((head + tail).drop_last() =~= head + tail.drop_last());
    if tail.len() > 1 {
        lemma_digit_run_cut(head, tail.drop_last());
    }
}

/// Two tidy texts, one after the other, are a tidy text.
pub proof fn lemma_tidy_concat(a: Seq<char>, b: Seq<char>)
    requires
        tidy(a),
        tidy(b),
    ensures
        tidy(a + b),
{
    let whole = a + b;
    assert forall|n: int| 0 <= n <= whole.len() implies digit_run(#[trigger] whole.take(n))
        <= 9 by {
        if n <= a.len() {
            assert(whole.take(n) =~= a.take(n));
        } else {
            let m = n - a.len();
            assert(whole.take(n) =~= a + b.take(m));
            lemma_digit_run_cut(a, b.take(m));
        }
    }
}

/// A join of tidy parts with a tidy separator is tidy.
pub proof fn lemma_join_tidy(parts: Seq<Seq<char>>, sep: Seq<char>)
    requires
        forall|i: int| 0 <= i < parts.len() ==> tidy(#[trigger] parts[i]),
        tidy(sep),
    ensures
        tidy(join(parts, sep)),
    decreases parts.len(),
{
    if parts.len() == 0 {
        lemma_small_text_tidy(Seq::empty());
    } else if parts.len() >= 2 {
        lemma_join_tidy(parts.drop_last(), sep);
        lemma_tidy_concat(join(parts.drop_last(), sep), sep);
        lemma_tidy_concat(join(parts.drop_last(), sep) + sep, parts.last());
    }
}

/// A concatenation of tidy parts is tidy.
pub proof fn lemma_concat_tidy(parts: Seq<Seq<char>>)
    requires
        forall|i: int| 0 <= i < parts.len() ==> tidy(#[trigger] parts[i]),
    ensures
        tidy(concat(parts)),
    decreases parts.len(),
{
    if parts.len() == 0 {
        lemma_small_text_tidy(Seq::empty());
    } else {
        lemma_concat_tidy(parts.drop_last());
        lemma_tidy_concat(concat(parts.drop_last()), parts.last());
    }
}

/// A number below 1,000,000,000 has a numeral of at most nine digits.
pub proof fn lemma_decimal_len(n: nat)
    requires
        n < 1_000_000_000,
    ensures
        decimal(n).len() <= 9,
{
    reveal_with_fuel(decimal, 10);
}

/// The parts of a concatenation are no longer than the whole, taken
/// together up to any place.
pub proof fn lemma_concat_prefix_len(parts: Seq<Seq<char>>, k: int)
    requires
        0 <= k <= parts.len(),
    ensures
        concat(parts.take(k)).len() <= concat(parts).len(),
        k < parts.len() ==> concat(parts.take(k)).len() + parts[k].len() <= concat(parts).len(),
    decreases parts.len() - k,
{
    if k == parts.len() {
        assert(parts.take(k) =~= parts);
    } else {
        assert(parts.take(k + 1).drop_last() =~= parts.take(k));
        lemma_concat_prefix_len(parts, k + 1);
    }
}

/// The lines of a text hold no more characters than the text.
pub proof fn lemma_split_lines_len(s: Seq<char>)
    ensures
        split_lines(s).len() >= 1,
        concat(split_lines(s)).len() <= s.len(),
    decreases s.len(),
{
    if s.len() == 0 {
        let lines = seq![Seq::<char>::empty()];
        assert(lines.drop_last() =~= Seq::<Seq<char>>::empty());
        assert(concat(lines.drop_last()) =~= Seq::<char>::empty());
        assert(concat(lines) =~= Seq::<char>::empty());
    } else {
        lemma_split_lines_len(s.drop_last());
        let before = split_lines(s.drop_last());
        assert(concat(before) == concat(before.drop_last()) + before.last());
        if s.last() == '\n' {
            let lines = before.push(Seq::empty());
            assert(lines.drop_last() =~= before);
            assert(concat(lines) =~= concat(before));
        } else {
            let lines = before.update(before.len() - 1, before.last().push(s.last()));
            assert(lines.drop_last() =~= before.drop_last());
            assert(concat(lines) == concat(lines.drop_last()) + lines.last());
            assert(concat(lines).len() == concat(before).len() + 1);
        }
    }
}

} // verus!
