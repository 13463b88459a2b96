//! The plain-text persistence format for tables: lines of
//! whitespace-separated tokens, split and joined with the inverse round
//! proved.

use vstd::prelude::*;

use crate::charset::char_index;
use crate::charset::filter_chars;
use crate::charset::insert_pos;
use crate::charset::is_ws;
use crate::charset::is_whitespace_char;
use crate::charset::lemma_insert_pos_spec;
use crate::charset::lemma_strictly_sorted_no_dup;
use crate::charset::strictly_sorted;
use crate::numerals::all_digits;
use crate::numerals::padded2;
use crate::numerals::val_of;
use crate::table::clamp_states;
use crate::table::TableView;
use crate::task::Direction;
use crate::task::Task;

verus! {

/// Length of the leading whitespace-free run of `s`.
pub open spec fn run_len(s: Seq<char>) -> int
    decreases s.len(),
{
    if s.len() == 0 {
        0
    } else if is_ws(s[0]) {
        0
    } else {
        1 + run_len(s.drop_first())
    }
}

/// The leading run covers whitespace-free characters exactly up to the
/// first whitespace character or the end.
pub(crate) proof fn lemma_run_len(s: Seq<char>)
    ensures
        0 <= run_len(s) <= s.len(),
        forall|k: int| 0 <= k < run_len(s) ==> !is_ws(s[k]),
        run_len(s) < s.len() ==> is_ws(s[run_len(s)]),
    decreases s.len(),
{
    if s.len() > 0 && !is_ws(s[0]) {
        lemma_run_len(s.drop_first());
        assert forall|k: int| 0 <= k < run_len(s) implies !is_ws(s[k]) by {
            if k > 0 {
                assert(s.drop_first()[k - 1] == s[k]);
            }
        }
        if run_len(s) < s.len() {
            assert(s.drop_first()[run_len(s) - 1] == s[run_len(s)]);
        }
    }
}

/// A position before which nothing is whitespace and at which whitespace or
/// the end stands is the run length.
pub(crate) proof fn lemma_run_len_at(s: Seq<char>, k: int)
    requires
        0 <= k <= s.len(),
        forall|i: int| 0 <= i < k ==> !is_ws(s[i]),
        k < s.len() ==> is_ws(s[k]),
    ensures
        run_len(s) == k,
{
    lemma_run_len(s);
    if run_len(s) < k {
        assert(is_ws(s[run_len(s)]));
    }
    if run_len(s) > k {
        assert(!is_ws(s[k]));
    }
}

/// The whitespace-separated tokens of `s`, in order.
pub open spec fn tokens_of(s: Seq<char>) -> Seq<Seq<char>>
    decreases s.len(),
    via tokens_of_dec
{
    if s.len() == 0 {
        Seq::empty()
    } else if is_ws(s[0]) {
        tokens_of(s.drop_first())
    } else {
        seq![s.subrange(0, run_len(s))] + tokens_of(s.subrange(run_len(s), s.len() as int))
    }
}

#[via_fn]
proof fn tokens_of_dec(s: Seq<char>) {
    lemma_run_len(s);
}

/// A well-shaped token: non-empty and free of whitespace.
pub open spec fn token_good(t: Seq<char>) -> bool {
    t.len() > 0 && forall|j: int| 0 <= j < t.len() ==> !is_ws(#[trigger] t[j])
}

/// Every token in the list is well shaped.
pub open spec fn tokens_good(toks: Seq<Seq<char>>) -> bool {
    forall|i: int| 0 <= i < toks.len() ==> token_good(#[trigger] toks[i])
}

/// Tokens joined with single spaces into one line.
pub open spec fn join_tokens(toks: Seq<Seq<char>>) -> Seq<char>
    decreases toks.len(),
{
    if toks.len() == 0 {
        Seq::empty()
    } else if toks.len() == 1 {
        toks[0]
    } else {
        toks[0] + seq![' '] + join_tokens(toks.drop_first())
    }
}

/// Splitting a joined line of well-shaped tokens gives the tokens back.
pub proof fn lemma_tokens_of_join(toks: Seq<Seq<char>>)
    requires
        tokens_good(toks),
    ensures
        tokens_of(join_tokens(toks)) == toks,
    decreases toks.len(),
{
    if toks.len() == 0 {
    } else if toks.len() == 1 {
        let t = toks[0];
        assert(token_good(t));
        assert(join_tokens(toks) == t);
        lemma_run_len_at(t, t.len() as int);
        assert(t.subrange(0, t.len() as int) =~= t);
        assert(t.subrange(t.len() as int, t.len() as int) =~= Seq::<char>::empty());
        assert(tokens_of(Seq::<char>::empty()) =~= Seq::<Seq<char>>::empty());
        assert(tokens_of(t) == seq![t.subrange(0, run_len(t))] + tokens_of(
            t.subrange(run_len(t), t.len() as int),
        ));
        assert(tokens_of(t) =~= seq![t]);
    } else {
        let t0 = toks[0];
        let rest = join_tokens(toks.drop_first());
        let s = join_tokens(toks);
        assert(s == t0 + seq![' '] + rest);
        assert(token_good(t0));
        assert forall|i: int| 0 <= i < t0.len() implies !is_ws(s[i]) by {
            assert(s[i] == t0[i]);
        }
        assert(s[t0.len() as int] == ' ');
        assert(is_ws(' '));
        lemma_run_len_at(s, t0.len() as int);
        assert(s.subrange(0, t0.len() as int) =~= t0);
        let tail = s.subrange(t0.len() as int, s.len() as int);
        assert(tail =~= seq![' '] + rest);
        assert(tail[0] == ' ');
        assert(tail.drop_first() =~= rest);
        assert(tokens_good(toks.drop_first())) by {
            assert(forall|i: int|
                0 <= i < toks.drop_first().len() ==> #[trigger] toks.drop_first()[i] == toks[i
                    + 1]);
        }
        lemma_tokens_of_join(toks.drop_first());
        assert(tokens_of(s) == seq![t0] + tokens_of(tail));
        assert(tokens_of(tail) == tokens_of(rest));
        assert(seq![t0] + toks.drop_first() =~= toks);
    }
}

/// Length of the leading newline-free run of `s`.
pub open spec fn line_len(s: Seq<char>) -> int
    decreases s.len(),
{
    if s.len() == 0 {
        0
    } else if s[0] == '\n' {
        0
    } else {
        1 + line_len(s.drop_first())
    }
}

/// The leading line covers newline-free characters exactly up to the first
/// newline or the end.
pub(crate) proof fn lemma_line_len(s: Seq<char>)
    ensures
        0 <= line_len(s) <= s.len(),
        forall|k: int| 0 <= k < line_len(s) ==> s[k] != '\n',
        line_len(s) < s.len() ==> s[line_len(s)] == '\n',
    decreases s.len(),
{
    if s.len() > 0 && s[0] != '\n' {
        lemma_line_len(s.drop_first());
        assert forall|k: int| 0 <= k < line_len(s) implies s[k] != '\n' by {
            if k > 0 {
                assert(s.drop_first()[k - 1] == s[k]);
            }
        }
        if line_len(s) < s.len() {
            assert(s.drop_first()[line_len(s) - 1] == s[line_len(s)]);
        }
    }
}

/// A position before which nothing is a newline and at which a newline or
/// the end stands is the line length.
pub(crate) proof fn lemma_line_len_at(s: Seq<char>, k: int)
    requires
        0 <= k <= s.len(),
        forall|i: int| 0 <= i < k ==> s[i] != '\n',
        k < s.len() ==> s[k] == '\n',
    ensures
        line_len(s) == k,
{
    lemma_line_len(s);
    if line_len(s) < k {
        assert(s[line_len(s)] == '\n');
    }
    if line_len(s) > k {
        assert(s[k] != '\n');
    }
}

/// The newline-separated lines of `s`. A final newline closes the last
/// line; a trailing segment without one still counts.
pub open spec fn lines_of(s: Seq<char>) -> Seq<Seq<char>>
    decreases s.len(),
    via lines_of_dec
{
    if s.len() == 0 {
        Seq::empty()
    } else if line_len(s) == s.len() {
        seq![s]
    } else {
        seq![s.subrange(0, line_len(s))] + lines_of(
            s.subrange(line_len(s) + 1, s.len() as int),
        )
    }
}

#[via_fn]
proof fn lines_of_dec(s: Seq<char>) {
    lemma_line_len(s);
}

/// A well-shaped line: free of newlines.
pub open spec fn line_good(l: Seq<char>) -> bool {
    forall|j: int| 0 <= j < l.len() ==> #[trigger] l[j] != '\n'
}

/// Every line in the list is well shaped.
pub open spec fn lines_good(ls: Seq<Seq<char>>) -> bool {
    forall|i: int| 0 <= i < ls.len() ==> line_good(#[trigger] ls[i])
}

/// Lines joined into one text, each closed by a newline.
pub open spec fn unlines(ls: Seq<Seq<char>>) -> Seq<char>
    decreases ls.len(),
{
    if ls.len() == 0 {
        Seq::empty()
    } else {
        ls[0] + seq!['\n'] + unlines(ls.drop_first())
    }
}

/// Splitting a text built of newline-closed well-shaped lines gives the
/// lines back.
pub proof fn lemma_lines_of_unlines(ls: Seq<Seq<char>>)
    requires
        lines_good(ls),
    ensures
        lines_of(unlines(ls)) == ls,
    decreases ls.len(),
{
    if ls.len() > 0 {
        let l0 = ls[0];
        let rest = unlines(ls.drop_first());
        let s = unlines(ls);
        assert(s == l0 + seq!['\n'] + rest);
        assert(line_good(l0));
        assert forall|i: int| 0 <= i < l0.len() implies s[i] != '\n' by {
            assert(s[i] == l0[i]);
        }
        assert(s[l0.len() as int] == '\n');
        lemma_line_len_at(s, l0.len() as int);
        assert(line_len(s) < s.len());
        assert(s.subrange(0, l0.len() as int) =~= l0);
        assert(s.subrange(l0.len() as int + 1, s.len() as int) =~= rest);
        assert(lines_good(ls.drop_first())) by {
            assert(forall|i: int|
                0 <= i < ls.drop_first().len() ==> #[trigger] ls.drop_first()[i] == ls[i + 1]);
        }
        lemma_lines_of_unlines(ls.drop_first());
        assert(seq![l0] + ls.drop_first() =~= ls);
    }
}

/// Joining one more token appends a space and the token (or starts the
/// line when it is the first).
pub(crate) proof fn lemma_join_push(toks: Seq<Seq<char>>, t: Seq<char>)
    ensures
        toks.len() == 0 ==> join_tokens(toks.push(t)) == t,
        toks.len() > 0 ==> join_tokens(toks.push(t)) == join_tokens(toks) + seq![' '] + t,
    decreases toks.len(),
{
    let p = toks.push(t);
    if toks.len() == 0 {
        assert(p.len() == 1);
        assert(p[0] == t);
    } else if toks.len() == 1 {
        assert(p.len() == 2);
        assert(p[0] == toks[0]);
        assert(p.drop_first() =~= seq![t]);
        assert(join_tokens(seq![t]) == t);
        assert(join_tokens(p) == toks[0] + seq![' '] + t);
        assert(join_tokens(toks) == toks[0]);
    } else {
        lemma_join_push(toks.drop_first(), t);
        assert(p.drop_first() =~= toks.drop_first().push(t));
        assert(join_tokens(p) == p[0] + seq![' '] + join_tokens(toks.drop_first().push(t)));
        assert(p[0] == toks[0]);
        assert(join_tokens(toks.drop_first().push(t)) == join_tokens(toks.drop_first()) + seq![' ']
            + t);
        assert(toks[0] + seq![' '] + (join_tokens(toks.drop_first()) + seq![' '] + t) =~= (toks[0]
            + seq![' '] + join_tokens(toks.drop_first())) + seq![' '] + t);
    }
}

/// Closing one more line appends it and a newline.
pub(crate) proof fn lemma_unlines_push(ls: Seq<Seq<char>>, l: Seq<char>)
    ensures
        unlines(ls.push(l)) == unlines(ls) + l + seq!['\n'],
    decreases ls.len(),
{
    let p = ls.push(l);
    if ls.len() == 0 {
        assert(p[0] == l);
        assert(p.drop_first() =~= Seq::<Seq<char>>::empty());
        assert(unlines(p) == l + seq!['\n'] + unlines(Seq::<Seq<char>>::empty()));
        assert(unlines(p) =~= unlines(ls) + l + seq!['\n']);
    } else {
        lemma_unlines_push(ls.drop_first(), l);
        assert(p.drop_first() =~= ls.drop_first().push(l));
        assert(unlines(p) == p[0] + seq!['\n'] + unlines(ls.drop_first().push(l)));
        assert(p[0] == ls[0]);
        assert(unlines(ls.drop_first().push(l)) == unlines(ls.drop_first()) + l + seq!['\n']);
        assert(ls[0] + seq!['\n'] + (unlines(ls.drop_first()) + l + seq!['\n']) =~= (ls[0]
            + seq!['\n'] + unlines(ls.drop_first())) + l + seq!['\n']);
    }
}

/// Split a line into its whitespace-separated tokens.
pub(crate) fn split_tokens(line: &Vec<char>) -> (r: Vec<Vec<char>>)
    ensures
        r@.map_values(|t: Vec<char>| t@) == tokens_of(line@),
{
    let mut r: Vec<Vec<char>> = Vec::new();
    let mut i: usize = 0;
    proof {
        assert(line@.subrange(0, line@.len() as int) =~= line@);
        assert(r@.map_values(|t: Vec<char>| t@) =~= Seq::<Seq<char>>::empty());
        assert(r@.map_values(|t: Vec<char>| t@) + tokens_of(line@) =~= tokens_of(line@));
    }
    while i < line.len()
        invariant
            0 <= i <= line@.len(),
            r@.map_values(|t: Vec<char>| t@) + tokens_of(line@.subrange(i as int, line@.len() as int))
                =~= tokens_of(line@),
        decreases line@.len() - i,
    {
        let ghost remaining = line@.subrange(i as int, line@.len() as int);
        if is_whitespace_char(line[i]) {
            proof {
                assert(remaining[0] == line@[i as int]);
                assert(remaining.drop_first() =~= line@.subrange(i + 1, line@.len() as int));
            }
            i += 1;
        } else {
            let start = i;
            let mut tok: Vec<char> = Vec::new();
            while i < line.len() && !is_whitespace_char(line[i])
                invariant
                    0 <= start <= i <= line@.len(),
                    tok@ =~= line@.subrange(start as int, i as int),
                    forall|k: int| start <= k < i ==> !is_ws(line@[k]),
                decreases line@.len() - i,
            {
                tok.push(line[i]);
                proof {
                    assert(tok@ =~= line@.subrange(start as int, i + 1));
                }
                i += 1;
            }
            proof {
                let rem = line@.subrange(start as int, line@.len() as int);
                assert forall|k: int| 0 <= k < i - start implies !is_ws(rem[k]) by {
                    assert(rem[k] == line@[start + k]);
                }
                if (i as int) < line@.len() {
                    assert(rem[i - start] == line@[i as int]);
                    assert(is_ws(line@[i as int]));
                }
                lemma_run_len_at(rem, i - start);
                assert(rem.subrange(0, i - start) =~= line@.subrange(start as int, i as int));
                assert(rem.subrange(i - start, rem.len() as int) =~= line@.subrange(
                    i as int,
                    line@.len() as int,
                ));
                assert(tokens_of(rem) == seq![tok@] + tokens_of(
                    line@.subrange(i as int, line@.len() as int),
                ));
                assert(r@.push(tok).map_values(|t: Vec<char>| t@) =~= r@.map_values(
                    |t: Vec<char>| t@,
                ).push(tok@));
            }
            r.push(tok);
        }
    }
    proof {
        assert(line@.subrange(line@.len() as int, line@.len() as int) =~= Seq::<char>::empty());
        assert(tokens_of(Seq::<char>::empty()) =~= Seq::<Seq<char>>::empty());
        assert(r@.map_values(|t: Vec<char>| t@) =~= tokens_of(line@));
    }
    r
}

/// Split a text into its newline-separated lines.
pub(crate) fn split_lines(text: &Vec<char>) -> (r: Vec<Vec<char>>)
    ensures
        r@.map_values(|l: Vec<char>| l@) == lines_of(text@),
{
    let mut r: Vec<Vec<char>> = Vec::new();
    let mut i: usize = 0;
    proof {
        assert(text@.subrange(0, text@.len() as int) =~= text@);
        assert(r@.map_values(|l: Vec<char>| l@) =~= Seq::<Seq<char>>::empty());
        assert(r@.map_values(|l: Vec<char>| l@) + lines_of(text@) =~= lines_of(text@));
    }
    while i < text.len()
        invariant
            0 <= i <= text@.len(),
            r@.map_values(|l: Vec<char>| l@) + lines_of(text@.subrange(i as int, text@.len() as int))
                =~= lines_of(text@),
        decreases text@.len() - i,
    {
        let start = i;
        let mut line: Vec<char> = Vec::new();
        while i < text.len() && text[i] != '\n'
            invariant
                0 <= start <= i <= text@.len(),
                line@ =~= text@.subrange(start as int, i as int),
                forall|k: int| start <= k < i ==> text@[k] != '\n',
            decreases text@.len() - i,
        {
            line.push(text[i]);
            proof {
                assert(line@ =~= text@.subrange(start as int, i + 1));
            }
            i += 1;
        }
        proof {
            let rem = text@.subrange(start as int, text@.len() as int);
            assert forall|k: int| 0 <= k < i - start implies rem[k] != '\n' by {
                assert(rem[k] == text@[start + k]);
            }
            if (i as int) < text@.len() {
                assert(rem[i - start] == text@[i as int]);
            }
            lemma_line_len_at(rem, i - start);
            assert(rem.subrange(0, i - start) =~= text@.subrange(start as int, i as int));
            if (i as int) < text@.len() {
                assert(rem.subrange(i - start + 1, rem.len() as int) =~= text@.subrange(
                    i + 1,
                    text@.len() as int,
                ));
                assert(lines_of(rem) == seq![line@] + lines_of(
                    text@.subrange(i + 1, text@.len() as int),
                ));
            } else {
                assert(rem =~= line@);
                assert(line_len(rem) == rem.len());
                assert(lines_of(rem) == seq![line@]);
                assert(text@.subrange(text@.len() as int, text@.len() as int)
                    =~= Seq::<char>::empty());
                assert(lines_of(Seq::<char>::empty()) =~= Seq::<Seq<char>>::empty());
                assert(lines_of(rem) =~= seq![line@] + lines_of(
                    text@.subrange(text@.len() as int, text@.len() as int),
                ));
            }
            assert(r@.push(line).map_values(|l: Vec<char>| l@) =~= r@.map_values(
                |l: Vec<char>| l@,
            ).push(line@));
        }
        r.push(line);
        if i < text.len() {
            i += 1;
        }
    }
    proof {
        assert(text@.subrange(text@.len() as int, text@.len() as int) =~= Seq::<char>::empty());
        assert(lines_of(Seq::<char>::empty()) =~= Seq::<Seq<char>>::empty());
        assert(r@.map_values(|l: Vec<char>| l@) =~= lines_of(text@));
    }
    r
}


/// One single-character token per alphabet symbol: the header line.
pub open spec fn header_tokens(sorted: Seq<char>) -> Seq<Seq<char>> {
    sorted.map_values(|c: char| seq![c])
}

/// Three tokens per rule: the padded next state, the symbol to write, the
/// direction code.
pub open spec fn task_tokens(row: Seq<Task>) -> Seq<Seq<char>> {
    Seq::new(
        (3 * row.len()) as nat,
        |i: int|
            if i % 3 == 0 {
                padded2(row[i / 3].state as int)
            } else if i % 3 == 1 {
                seq![row[i / 3].character]
            } else {
                seq![row[i / 3].direction.spec_to_char()]
            },
    )
}

/// The lines a saved table consists of: the sorted alphabet, then one line
/// of rule tokens per state.
pub open spec fn table_lines(v: TableView) -> Seq<Seq<char>> {
    seq![join_tokens(header_tokens(v.sorted))] + v.grid.map_values(
        |row: Seq<Task>| join_tokens(task_tokens(row)),
    )
}

/// The text a saved table consists of.
pub open spec fn render_table(v: TableView) -> Seq<char> {
    unlines(table_lines(v))
}

/// The direction a code character denotes, when it denotes one.
pub open spec fn spec_parse_direction(c: char) -> Option<Direction> {
    if c == '-' {
        Some(Direction::Left)
    } else if c == '+' {
        Some(Direction::Right)
    } else if c == '0' {
        Some(Direction::Stop)
    } else {
        None
    }
}

/// The rule three tokens denote: a machine-word decimal state, any
/// non-empty symbol token (its first character counts), a direction code.
pub open spec fn spec_parse_task(st: Seq<char>, ch: Seq<char>, dr: Seq<char>) -> Option<Task> {
    if st.len() > 0 && all_digits(st) && val_of(st) <= usize::MAX as int && ch.len() > 0
        && dr.len() > 0 {
        match spec_parse_direction(dr[0]) {
            Some(d) => Some(Task { state: val_of(st) as usize, character: ch[0], direction: d }),
            None => None,
        }
    } else {
        None
    }
}

/// The rule the `k`-th token triple of a line denotes.
pub open spec fn triple_at(toks: Seq<Seq<char>>, k: int) -> Option<Task> {
    spec_parse_task(toks[3 * k], toks[3 * k + 1], toks[3 * k + 2])
}

/// Whether a data line supplies a parsable rule triple for each of `width`
/// alphabet symbols. Tokens beyond those are ignored.
pub open spec fn row_parses(toks: Seq<Seq<char>>, width: int) -> bool {
    &&& toks.len() >= 3 * width
    &&& forall|k: int| 0 <= k < width ==> (#[trigger] triple_at(toks, k)) is Some
}

/// The rules of a data line, in header order.
pub open spec fn parsed_row(toks: Seq<Seq<char>>, width: int) -> Seq<Task> {
    Seq::new(width as nat, |k: int| triple_at(toks, k)->0)
}

/// The characters of `s` in ascending order.
pub open spec fn sorted_of(s: Seq<char>) -> Seq<char>
    decreases s.len(),
{
    if s.len() == 0 {
        Seq::empty()
    } else {
        let rest = sorted_of(s.drop_last());
        rest.insert(insert_pos(rest, s.last()), s.last())
    }
}

/// Sorting a duplicate-free sequence keeps its characters and orders them
/// strictly.
pub proof fn lemma_sorted_of(s: Seq<char>)
    requires
        s.no_duplicates(),
    ensures
        strictly_sorted(sorted_of(s)),
        sorted_of(s).len() == s.len(),
        forall|c: char|
            #![trigger sorted_of(s).contains(c)]
            #![trigger s.contains(c)]
            sorted_of(s).contains(c) <==> s.contains(c),
    decreases s.len(),
{
    if s.len() > 0 {
        let front = s.drop_last();
        let c = s.last();
        assert(front.no_duplicates()) by {
            assert(forall|i: int| 0 <= i < front.len() ==> front[i] == #[trigger] s[i]);
        }
        lemma_sorted_of(front);
        let rest = sorted_of(front);
        assert(!rest.contains(c)) by {
            if front.contains(c) {
                let i = choose|i: int| 0 <= i < front.len() && front[i] == c;
                assert(s[i] == c && s[s.len() - 1] == c);
            }
        }
        lemma_insert_pos_spec(rest, c);
        let p = insert_pos(rest, c);
        rest.insert_ensures(p, c);
        let r = sorted_of(s);
        assert(r == rest.insert(p, c));
        assert forall|d: char| r.contains(d) implies s.contains(d) by {
            let x = choose|x: int| 0 <= x < r.len() && r[x] == d;
            if x == p {
                assert(d == c);
                assert(s[s.len() - 1] == c);
            } else {
                let sx: int = if x < p {
                    x
                } else {
                    x - 1
                };
                assert(rest[sx] == d);
                assert(front.contains(d));
                let i = choose|i: int| 0 <= i < front.len() && front[i] == d;
                assert(s[i] == d);
            }
        }
        assert forall|d: char| s.contains(d) implies r.contains(d) by {
            if d == c {
                assert(r[p] == c);
            } else {
                let i = choose|i: int| 0 <= i < s.len() && s[i] == d;
                assert(front[i] == d);
                assert(rest.contains(d));
                let x = choose|x: int| 0 <= x < rest.len() && rest[x] == d;
                if x < p {
                    assert(r[x] == d);
                } else {
                    assert(r[x + 1] == d);
                }
            }
        }
    }
}

/// Two strictly sorted sequences over the same characters are the same
/// sequence.
pub proof fn lemma_sorted_unique(a: Seq<char>, b: Seq<char>)
    requires
        strictly_sorted(a),
        strictly_sorted(b),
        forall|c: char|
            #![trigger a.contains(c)]
            #![trigger b.contains(c)]
            a.contains(c) <==> b.contains(c),
    ensures
        a == b,
    decreases a.len(),
{
    if a.len() == 0 {
        if b.len() > 0 {
            assert(b.contains(b[0]));
        }
        assert(a =~= b);
    } else {
        assert(a.contains(a[0]));
        assert(b.len() > 0);
        assert(b.contains(b[0]));
        let i = choose|i: int| 0 <= i < b.len() && b[i] == a[0];
        let j = choose|j: int| 0 <= j < a.len() && a[j] == b[0];
        assert((b[0] as int) <= (b[i] as int));
        assert((a[0] as int) <= (a[j] as int));
        assert(a[0] == b[0]);
        let at = a.drop_first();
        let bt = b.drop_first();
        assert(strictly_sorted(at) && strictly_sorted(bt)) by {
            assert(forall|x: int| 0 <= x < at.len() ==> at[x] == #[trigger] a[x + 1]);
            assert(forall|x: int| 0 <= x < bt.len() ==> bt[x] == #[trigger] b[x + 1]);
        }
        assert forall|c: char|
            #![trigger at.contains(c)]
            #![trigger bt.contains(c)]
        at.contains(c) <==> bt.contains(c) by {
            if at.contains(c) {
                let x = choose|x: int| 0 <= x < at.len() && at[x] == c;
                assert(a[x + 1] == c);
                assert((a[0] as int) < (c as int));
                assert(b.contains(c));
                let y = choose|y: int| 0 <= y < b.len() && b[y] == c;
                assert(y != 0);
                assert(bt[y - 1] == c);
            }
            if bt.contains(c) {
                let y = choose|y: int| 0 <= y < bt.len() && bt[y] == c;
                assert(b[y + 1] == c);
                assert((b[0] as int) < (c as int));
                assert(a.contains(c));
                let x = choose|x: int| 0 <= x < a.len() && a[x] == c;
                assert(x != 0);
                assert(at[x - 1] == c);
            }
        }
        lemma_sorted_unique(at, bt);
        assert(a.len() == b.len());
        assert forall|i: int| 0 <= i < a.len() implies a[i] == b[i] by {
            if i > 0 {
                assert(at[i - 1] == a[i]);
                assert(bt[i - 1] == b[i]);
            }
        }
        assert(a =~= b);
    }
}

/// Filtering a saved header line recovers the sorted alphabet it was built
/// from.
pub(crate) proof fn lemma_filter_header(sorted: Seq<char>)
    requires
        sorted.no_duplicates(),
        forall|i: int| 0 <= i < sorted.len() ==> !is_ws(#[trigger] sorted[i]),
    ensures
        filter_chars(join_tokens(header_tokens(sorted))) == sorted,
    decreases sorted.len(),
{
    if sorted.len() == 0 {
        assert(header_tokens(sorted) =~= Seq::<Seq<char>>::empty());
        assert(filter_chars(Seq::<char>::empty()) =~= Seq::<char>::empty());
    } else {
        let front = sorted.drop_last();
        let c = sorted.last();
        assert(front.no_duplicates()) by {
            assert(forall|i: int| 0 <= i < front.len() ==> front[i] == #[trigger] sorted[i]);
        }
        assert(forall|i: int| 0 <= i < front.len() ==> !is_ws(#[trigger] front[i])) by {
            assert(forall|i: int| 0 <= i < front.len() ==> front[i] == #[trigger] sorted[i]);
        }
        lemma_filter_header(front);
        assert(header_tokens(sorted) =~= header_tokens(front).push(seq![c]));
        lemma_join_push(header_tokens(front), seq![c]);
        let lf = join_tokens(header_tokens(front));
        let line = join_tokens(header_tokens(sorted));
        assert(!front.contains(c)) by {
            if front.contains(c) {
                let i = choose|i: int| 0 <= i < front.len() && front[i] == c;
                assert(sorted[i] == c && sorted[sorted.len() - 1] == c);
            }
        }
        if front.len() == 0 {
            assert(header_tokens(front).len() == 0);
            assert(line == seq![c]);
            assert(line.drop_last() =~= Seq::<char>::empty());
            assert(filter_chars(Seq::<char>::empty()) =~= Seq::<char>::empty());
            assert(filter_chars(line) =~= seq![c]);
            assert(sorted =~= seq![c]);
        } else {
            assert(header_tokens(front).len() > 0);
            assert(line == lf + seq![' '] + seq![c]);
            let mid = lf + seq![' '];
            assert(line.drop_last() =~= mid);
            assert(line.last() == c);
            assert(mid.drop_last() =~= lf);
            assert(mid.last() == ' ');
            assert(is_ws(' '));
            assert(filter_chars(mid) == filter_chars(lf));
            assert(filter_chars(lf) == front);
            assert(!is_ws(c));
            assert(!filter_chars(mid).contains(c));
            assert(filter_chars(line) == front.push(c));
            assert(front.push(c) =~= sorted);
        }
    }
}



/// The table a loaded text denotes, when every part of it parses: the
/// filtered header is the alphabet, each data line one state's rules in
/// header order, re-ordered into sorted columns; missing trailing states
/// are default.
pub open spec fn loaded_view(ls: Seq<Seq<char>>) -> TableView {
    let alpha = filter_chars(ls[0]);
    let width = alpha.len() as int;
    let n = ls.len() - 1;
    let states = clamp_states(n);
    TableView {
        states: states,
        alphabet: alpha,
        sorted: sorted_of(alpha),
        grid: Seq::new(
            states as nat,
            |s: int|
                if s < n {
                    Seq::new(
                        alpha.len(),
                        |j: int|
                            parsed_row(tokens_of(ls[s + 1]), width)[char_index(
                                alpha,
                                sorted_of(alpha)[j],
                            )],
                    )
                } else {
                    TableView::default_row_spec(width)
                },
        ),
    }
}

/// What loading a text yields. It fails exactly when the text has no line
/// at all, or some data line lacks a parsable rule triple for some alphabet
/// symbol.
pub open spec fn spec_load(text: Seq<char>) -> Option<TableView> {
    let ls = lines_of(text);
    if ls.len() == 0 {
        None
    } else if forall|s: int|
        0 <= s < ls.len() - 1 ==> #[trigger] row_parses(
            tokens_of(ls[s + 1]),
            filter_chars(ls[0]).len() as int,
        ) {
        Some(loaded_view(ls))
    } else {
        None
    }
}

/// Append `src` to `out`.
pub(crate) fn append_chars(out: &mut Vec<char>, src: &Vec<char>)
    ensures
        final(out)@ == old(out)@ + src@,
{
    let mut i: usize = 0;
    while i < src.len()
        invariant
            0 <= i <= src@.len(),
            out@ =~= old(out)@ + src@.subrange(0, i as int),
        decreases src@.len() - i,
    {
        out.push(src[i]);
        proof {
            assert(old(out)@ + src@.subrange(0, i + 1) =~= (old(out)@ + src@.subrange(
                0,
                i as int,
            )).push(src@[i as int]));
        }
        i += 1;
    }
    proof {
        assert(src@.subrange(0, src@.len() as int) =~= src@);
    }
}

/// Render the header line: the sorted alphabet, one symbol per column.
pub(crate) fn render_header(sorted: &Vec<char>) -> (r: Vec<char>)
    ensures
        r@ == join_tokens(header_tokens(sorted@)),
{
    let mut out: Vec<char> = Vec::new();
    let mut k: usize = 0;
    proof {
        assert(sorted@.subrange(0, 0) =~= Seq::<char>::empty());
        assert(header_tokens(Seq::<char>::empty()) =~= Seq::<Seq<char>>::empty());
    }
    while k < sorted.len()
        invariant
            0 <= k <= sorted@.len(),
            out@ =~= join_tokens(header_tokens(sorted@.subrange(0, k as int))),
        decreases sorted@.len() - k,
    {
        let ghost pre = header_tokens(sorted@.subrange(0, k as int));
        if k > 0 {
            out.push(' ');
        }
        out.push(sorted[k]);
        proof {
            let c = sorted@[k as int];
            assert(header_tokens(sorted@.subrange(0, k + 1)) =~= pre.push(seq![c]));
            lemma_join_push(pre, seq![c]);
            if k == 0 {
                assert(out@ =~= seq![c]);
            } else {
                assert(out@ =~= join_tokens(pre) + seq![' '] + seq![c]);
            }
        }
        k += 1;
    }
    proof {
        assert(sorted@.subrange(0, sorted@.len() as int) =~= sorted@);
    }
    out
}

/// Render one state's line: three tokens per rule, in sorted-column order.
pub(crate) fn render_row(row: &Vec<Task>) -> (r: Vec<char>)
    ensures
        r@ == join_tokens(task_tokens(row@)),
{
    let mut out: Vec<char> = Vec::new();
    let mut k: usize = 0;
    proof {
        assert(row@.subrange(0, 0) =~= Seq::<Task>::empty());
        assert(task_tokens(Seq::<Task>::empty()) =~= Seq::<Seq<char>>::empty());
    }
    while k < row.len()
        invariant
            0 <= k <= row@.len(),
            out@ =~= join_tokens(task_tokens(row@.subrange(0, k as int))),
        decreases row@.len() - k,
    {
        let ghost pre = task_tokens(row@.subrange(0, k as int));
        let ghost t = row@[k as int];
        let task = row[k];
        let state_tok = crate::numerals::format_padded2(task.state);
        if k > 0 {
            out.push(' ');
        }
        append_chars(&mut out, &state_tok);
        out.push(' ');
        out.push(task.character);
        out.push(' ');
        out.push(task.direction.to_char());
        proof {
            let now = task_tokens(row@.subrange(0, k + 1));
            assert(now =~= pre.push(padded2(t.state as int)).push(seq![t.character]).push(
                seq![t.direction.spec_to_char()],
            )) by {
                assert forall|i: int| 0 <= i < now.len() implies now[i] == pre.push(
                    padded2(t.state as int),
                ).push(seq![t.character]).push(seq![t.direction.spec_to_char()])[i] by {
                    if i < 3 * k {
                        assert(row@.subrange(0, k + 1)[i / 3] == row@.subrange(0, k as int)[i / 3]);
                    } else {
                        assert(i / 3 == k as int);
                        assert(row@.subrange(0, k + 1)[k as int] == t);
                    }
                }
            }
            let p1 = pre.push(padded2(t.state as int));
            let p2 = p1.push(seq![t.character]);
            lemma_join_push(pre, padded2(t.state as int));
            lemma_join_push(p1, seq![t.character]);
            lemma_join_push(p2, seq![t.direction.spec_to_char()]);
            if k == 0 {
                assert(out@ =~= join_tokens(now));
            } else {
                assert(out@ =~= join_tokens(now));
            }
        }
        k += 1;
    }
    proof {
        assert(row@.subrange(0, row@.len() as int) =~= row@);
    }
    out
}


/// A line joined from well-shaped tokens holds no newline.
pub(crate) proof fn lemma_join_line_good(toks: Seq<Seq<char>>)
    requires
        tokens_good(toks),
    ensures
        line_good(join_tokens(toks)),
    decreases toks.len(),
{
    if toks.len() == 0 {
    } else if toks.len() == 1 {
        let t = toks[0];
        assert(token_good(t));
        assert forall|j: int| 0 <= j < t.len() implies #[trigger] t[j] != '\n' by {
            assert(!is_ws(t[j]));
            assert(is_ws('\n'));
        }
    } else {
        let t0 = toks[0];
        let rest = join_tokens(toks.drop_first());
        let s = join_tokens(toks);
        assert(tokens_good(toks.drop_first())) by {
            assert(forall|i: int|
                0 <= i < toks.drop_first().len() ==> #[trigger] toks.drop_first()[i] == toks[i
                    + 1]);
        }
        lemma_join_line_good(toks.drop_first());
        assert(token_good(t0));
        assert forall|j: int| 0 <= j < s.len() implies #[trigger] s[j] != '\n' by {
            if j < t0.len() {
                assert(s[j] == t0[j]);
                assert(!is_ws(t0[j]));
                assert(is_ws('\n'));
            } else if j == t0.len() {
                assert(s[j] == ' ');
            } else {
                assert(s[j] == rest[j - t0.len() - 1]);
            }
        }
    }
}

/// The tokens a saved rule line consists of are well shaped, when no rule
/// writes a whitespace symbol.
pub(crate) proof fn lemma_task_tokens_good(row: Seq<Task>)
    requires
        forall|j: int| 0 <= j < row.len() ==> !is_ws(#[trigger] row[j].character),
    ensures
        tokens_good(task_tokens(row)),
{
    let toks = task_tokens(row);
    assert forall|i: int| 0 <= i < toks.len() implies token_good(#[trigger] toks[i]) by {
        let t = row[i / 3];
        if i % 3 == 0 {
            crate::numerals::lemma_padded2_round_trip(t.state as int);
            assert(toks[i] == padded2(t.state as int));
            assert forall|j: int| 0 <= j < toks[i].len() implies !is_ws(#[trigger] toks[i][j]) by {
                assert(crate::numerals::is_digit(toks[i][j]));
            }
        } else if i % 3 == 1 {
            assert(toks[i] == seq![t.character]);
            assert(!is_ws(t.character));
        } else {
            assert(toks[i] == seq![t.direction.spec_to_char()]);
            assert(!is_ws(t.direction.spec_to_char()));
        }
    }
}

/// Saving a table and loading the text back yields a table with the same
/// sorted alphabet, state count and rule grid; the typed alphabet comes
/// back in sorted order. It asks that no rule write a whitespace symbol:
/// saving such a symbol would break the whitespace-separated token layout.
pub proof fn lemma_save_load_round_trip(v: TableView)
    requires
        v.wf(),
        v.sorted.len() >= 1,
        forall|s: int, j: int|
            0 <= s < v.grid.len() && 0 <= j < v.grid[s].len() ==> !is_ws(
                #[trigger] v.grid[s][j].character,
            ),
    ensures
        spec_load(render_table(v)) is Some,
        spec_load(render_table(v))->0.sorted == v.sorted,
        spec_load(render_table(v))->0.alphabet == v.sorted,
        spec_load(render_table(v))->0.states == v.states,
        spec_load(render_table(v))->0.grid == v.grid,
{
    let all = table_lines(v);
    lemma_strictly_sorted_no_dup(v.sorted);
    assert forall|j: int| 0 <= j < v.sorted.len() implies !is_ws(#[trigger] v.sorted[j]) by {
        assert(v.sorted.contains(v.sorted[j]));
        assert(v.alphabet.contains(v.sorted[j]));
        let i = choose|i: int| 0 <= i < v.alphabet.len() && v.alphabet[i] == v.sorted[j];
        assert(!is_ws(v.alphabet[i]));
    }
    assert(tokens_good(header_tokens(v.sorted))) by {
        assert forall|i: int| 0 <= i < header_tokens(v.sorted).len() implies token_good(
            #[trigger] header_tokens(v.sorted)[i],
        ) by {
            assert(header_tokens(v.sorted)[i] == seq![v.sorted[i]]);
        }
    }
    assert(lines_good(all)) by {
        assert forall|i: int| 0 <= i < all.len() implies line_good(#[trigger] all[i]) by {
            if i == 0 {
                lemma_join_line_good(header_tokens(v.sorted));
            } else {
                let row = v.grid[i - 1];
                assert(all[i] == join_tokens(task_tokens(row)));
                lemma_task_tokens_good(row);
                lemma_join_line_good(task_tokens(row));
            }
        }
    }
    lemma_lines_of_unlines(all);
    let ls = lines_of(render_table(v));
    assert(ls == all);
    assert(ls.len() == 1 + v.grid.len());
    assert(ls[0] == join_tokens(header_tokens(v.sorted)));
    lemma_filter_header(v.sorted);
    let alpha = filter_chars(ls[0]);
    assert(alpha == v.sorted);
    let width = alpha.len() as int;
    assert(width == v.sorted.len());
    let n = ls.len() - 1;
    assert(n == v.states);
    assert forall|s: int| 0 <= s < n implies #[trigger] row_parses(
        tokens_of(ls[s + 1]),
        width,
    ) && (forall|k: int|
        0 <= k < width ==> #[trigger] triple_at(tokens_of(ls[s + 1]), k) == Some(
            v.grid[s][k],
        )) by {
        let row = v.grid[s];
        assert(row.len() == width);
        assert(ls[s + 1] == join_tokens(task_tokens(row)));
        lemma_task_tokens_good(row);
        lemma_tokens_of_join(task_tokens(row));
        let toks = tokens_of(ls[s + 1]);
        assert(toks == task_tokens(row));
        assert(toks.len() == 3 * width);
        assert forall|k: int| 0 <= k < width implies #[trigger] triple_at(toks, k) == Some(
            row[k],
        ) by {
            let t = row[k];
            assert((3 * k) % 3 == 0 && (3 * k) / 3 == k);
            assert((3 * k + 1) % 3 == 1 && (3 * k + 1) / 3 == k);
            assert((3 * k + 2) % 3 == 2 && (3 * k + 2) / 3 == k);
            assert(toks[3 * k] == padded2(t.state as int));
            assert(toks[3 * k + 1] == seq![t.character]);
            assert(toks[3 * k + 2] == seq![t.direction.spec_to_char()]);
            crate::numerals::lemma_padded2_round_trip(t.state as int);
            assert(spec_parse_direction(t.direction.spec_to_char()) == Some(t.direction));
            assert(spec_parse_task(toks[3 * k], toks[3 * k + 1], toks[3 * k + 2]) == Some(t));
        }
    }
    assert(spec_load(render_table(v)) == Some(loaded_view(ls)));
    let lv = loaded_view(ls);
    assert(lv.alphabet == v.sorted);
    assert(lv.states == clamp_states(v.states));
    assert(lv.states == v.states);
    lemma_sorted_of(alpha);
    lemma_sorted_unique(sorted_of(alpha), v.sorted);
    assert(lv.sorted == v.sorted);
    assert(lv.grid.len() == v.grid.len());
    assert forall|s: int| 0 <= s < lv.grid.len() implies lv.grid[s] =~= v.grid[s] by {
        let toks = tokens_of(ls[s + 1]);
        assert(lv.grid[s].len() == width);
        assert(v.grid[s].len() == width);
        assert forall|j: int| 0 <= j < width implies lv.grid[s][j] == v.grid[s][j] by {
            assert(sorted_of(alpha)[j] == v.sorted[j]);
            crate::charset::lemma_char_index_unique(alpha, j);
            assert(char_index(alpha, sorted_of(alpha)[j]) == j);
            assert(row_parses(tokens_of(ls[s + 1]), width));
            assert(triple_at(tokens_of(ls[s + 1]), j) == Some(v.grid[s][j]));
            assert(lv.grid[s][j] == parsed_row(toks, width)[j]);
            assert(parsed_row(toks, width)[j] == triple_at(toks, j)->0);
        }
    }
    assert(lv.grid =~~= v.grid);
}

} // verus!
