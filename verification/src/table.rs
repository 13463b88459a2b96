//! The transition function: a dense grid of rules, rows indexed by state and
//! columns by the position of a symbol in the sorted alphabet. The alphabet
//! can grow and shrink while the rules of the symbols that stay keep their
//! values.

use vstd::prelude::*;

use crate::charset::char_index;
use crate::charset::contains_char;
use crate::charset::filter_characters;
use crate::charset::filter_chars;
use crate::charset::insert_pos;
use crate::charset::insertion_position;
use crate::charset::is_ws;
use crate::charset::lemma_char_index_insert;
use crate::charset::lemma_char_index_remove;
use crate::charset::lemma_char_index_spec;
use crate::charset::lemma_char_index_unique;
use crate::charset::lemma_filter_chars_ok;
use crate::charset::lemma_insert_pos_spec;
use crate::charset::position_of;
use crate::charset::strictly_sorted;
use crate::numerals::parse_usize_chars;
use crate::serial::append_chars;
use crate::serial::header_tokens;
use crate::serial::join_tokens;
use crate::serial::lemma_unlines_push;
use crate::serial::lines_of;
use crate::serial::loaded_view;
use crate::serial::lemma_sorted_of;
use crate::serial::lemma_sorted_unique;
use crate::serial::parsed_row;
use crate::serial::render_header;
use crate::serial::render_row;
use crate::serial::render_table;
use crate::serial::row_parses;
use crate::serial::sorted_of;
use crate::serial::spec_load;
use crate::serial::split_lines;
use crate::serial::split_tokens;
use crate::serial::table_lines;
use crate::serial::task_tokens;
use crate::serial::tokens_of;
use crate::serial::triple_at;
use crate::serial::unlines;
use crate::task::Direction;
use crate::task::Task;

verus! {

/// Fewest states a table can have.
pub const MIN_STATES_NUMBER: usize = 1;

/// Most states a table can have.
pub const MAX_STATES_NUMBER: usize = 16;

/// The mathematical content of a table: the state count, the alphabet in
/// typed order, the same symbols in sorted order, and the rule grid.
#[verifier::ext_equal]
pub ghost struct TableView {
    pub states: int,
    pub alphabet: Seq<char>,
    pub sorted: Seq<char>,
    pub grid: Seq<Seq<Task>>,
}

impl TableView {
    /// Every table keeps this shape: a clamped state count, a duplicate-free
    /// whitespace-free alphabet, the same symbols sorted, and a dense grid of
    /// `states` rows by `sorted.len()` columns.
    pub open spec fn wf(self) -> bool {
        &&& MIN_STATES_NUMBER as int <= self.states <= MAX_STATES_NUMBER as int
        &&& self.alphabet.no_duplicates()
        &&& (forall|i: int| 0 <= i < self.alphabet.len() ==> !is_ws(#[trigger] self.alphabet[i]))
        &&& strictly_sorted(self.sorted)
        &&& self.sorted.len() == self.alphabet.len()
        &&& (forall|c: char|
            #![trigger self.sorted.contains(c)]
            #![trigger self.alphabet.contains(c)]
            self.sorted.contains(c) <==> self.alphabet.contains(c))
        &&& self.grid.len() == self.states
        &&& (forall|s: int|
            0 <= s < self.grid.len() ==> #[trigger] self.grid[s].len() == self.sorted.len())
    }

    /// A full row of default rules, as wide as the sorted alphabet.
    pub open spec fn default_row_spec(width: int) -> Seq<Task> {
        Seq::new(width as nat, |i: int| Task::spec_default())
    }
}

/// A state count request clamped into the allowed range.
pub open spec fn clamp_states(n: int) -> int {
    if n <= MIN_STATES_NUMBER as int {
        MIN_STATES_NUMBER as int
    } else if n >= MAX_STATES_NUMBER as int {
        MAX_STATES_NUMBER as int
    } else {
        n
    }
}

/// What a rule lookup yields: the cell of the symbol's sorted column, when
/// the state row exists and the symbol is in the alphabet.
pub open spec fn spec_get_task(t: TableView, state: int, character: char) -> Option<Task> {
    if t.sorted.contains(character) && 0 <= state < t.states {
        Some(t.grid[state][char_index(t.sorted, character)])
    } else {
        None
    }
}

/// How `set_states_number` changes a table: the count is clamped, the
/// alphabet survives, surviving rows are untouched and appended rows are
/// default.
pub open spec fn set_states_post(pre: TableView, post: TableView, n: int) -> bool {
    &&& post.states == clamp_states(n)
    &&& post.alphabet == pre.alphabet
    &&& post.sorted == pre.sorted
    &&& post.grid.len() == post.states
    &&& (forall|s: int|
        0 <= s < post.states && s < pre.states ==> #[trigger] post.grid[s] == pre.grid[s])
    &&& (forall|s: int|
        pre.states <= s < post.states ==> #[trigger] post.grid[s] == TableView::default_row_spec(
            pre.sorted.len() as int,
        ))
}

/// How `set_characters` changes a table: the typed alphabet is filtered, the
/// sorted alphabet holds exactly the filtered symbols, rules of symbols that
/// stay keep their values at their symbol's (moved) column, and columns of
/// fresh symbols are default.
pub open spec fn set_characters_post(pre: TableView, post: TableView, input: Seq<char>) -> bool {
    &&& post.states == pre.states
    &&& post.alphabet == filter_chars(input)
    &&& (forall|c: char|
        #![trigger post.sorted.contains(c)]
        #![trigger filter_chars(input).contains(c)]
        post.sorted.contains(c) <==> filter_chars(input).contains(c))
    &&& (forall|c: char, s: int|
        pre.sorted.contains(c) && post.sorted.contains(c) && 0 <= s < pre.states
            ==> #[trigger] post.grid[s][char_index(post.sorted, c)] == pre.grid[s][char_index(
            pre.sorted,
            c,
        )])
    &&& (forall|c: char, s: int|
        !pre.sorted.contains(c) && post.sorted.contains(c) && 0 <= s < post.states
            ==> #[trigger] post.grid[s][char_index(post.sorted, c)] == Task::spec_default())
}

/// The transition table.
#[derive(Debug, Clone)]
pub struct Table {
    /// Number of states; rows `0..states_number` of `tasks` are meaningful.
    states_number: usize,
    /// The alphabet in the order the user typed it, duplicates and
    /// whitespace filtered out.
    characters: Vec<char>,
    /// The same symbols in ascending order; a symbol's position here is its
    /// column in `tasks`.
    sorted_characters: Vec<char>,
    /// The rule grid: first index state, second index sorted-symbol column.
    tasks: Vec<Vec<Task>>,
}

impl View for Table {
    type V = TableView;

    closed spec fn view(&self) -> TableView {
        TableView {
            states: self.states_number as int,
            alphabet: self.characters@,
            sorted: self.sorted_characters@,
            grid: self.tasks@.map_values(|row: Vec<Task>| row@),
        }
    }
}

/// Build a row of `width` default rules.
fn default_row(width: usize) -> (r: Vec<Task>)
    ensures
        r@ == TableView::default_row_spec(width as int),
{
    let mut r: Vec<Task> = Vec::new();
    let mut i: usize = 0;
    while i < width
        invariant
            0 <= i <= width,
            r@.len() == i,
            forall|k: int| 0 <= k < i ==> r@[k] == Task::spec_default(),
        decreases width - i,
    {
        r.push(Task::new());
        i += 1;
    }
    proof {
        assert(r@ =~= TableView::default_row_spec(width as int));
    }
    r
}

impl Table {
    /// Build the fresh-document table: the blank and three letters for an
    /// alphabet, five states, every rule default.
    pub fn new_empty() -> (t: Table)
        ensures
            t@.wf(),
            t@.states == 5,
            t@.alphabet == seq!['#', 'a', 'b', 'c'],
            t@.sorted == seq!['#', 'a', 'b', 'c'],
            forall|s: int, k: int|
                0 <= s < 5 && 0 <= k < 4 ==> #[trigger] t@.grid[s][k] == Task::spec_default(),
    {
        let characters: Vec<char> = vec!['#', 'a', 'b', 'c'];
        let sorted_characters: Vec<char> = vec!['#', 'a', 'b', 'c'];
        let mut tasks: Vec<Vec<Task>> = Vec::new();
        let mut s: usize = 0;
        while s < 5
            invariant
                0 <= s <= 5,
                tasks@.len() == s,
                forall|k: int|
                    0 <= k < s ==> #[trigger] tasks@[k]@ == TableView::default_row_spec(4),
            decreases 5 - s,
        {
            tasks.push(default_row(4));
            s += 1;
        }
        let t = Table { states_number: 5, characters, sorted_characters, tasks };
        proof {
            let v = t@;
            assert(v.alphabet =~= seq!['#', 'a', 'b', 'c']);
            assert(v.sorted =~= seq!['#', 'a', 'b', 'c']);
            assert forall|c: char| v.sorted.contains(c) implies v.alphabet.contains(c) by {}
            assert forall|c: char| v.alphabet.contains(c) implies v.sorted.contains(c) by {}
            assert(strictly_sorted(v.sorted)) by {
                assert(v.sorted[0] == '#' && v.sorted[1] == 'a' && v.sorted[2] == 'b'
                    && v.sorted[3] == 'c');
            }
            assert(v.alphabet.no_duplicates());
            assert forall|i: int| 0 <= i < v.alphabet.len() implies !is_ws(
                #[trigger] v.alphabet[i],
            ) by {}
            assert forall|s2: int| 0 <= s2 < v.grid.len() implies #[trigger] v.grid[s2].len()
                == v.sorted.len() by {
                assert(v.grid[s2] == tasks@[s2]@);
            }
            assert forall|s2: int, k: int| 0 <= s2 < 5 && 0 <= k < 4 implies #[trigger] v.grid[s2][k]
                == Task::spec_default() by {
                assert(v.grid[s2] == tasks@[s2]@);
            }
        }
        t
    }

    /// The number of states.
    pub fn get_states_number(&self) -> (n: usize)
        ensures
            n as int == self@.states,
    {
        self.states_number
    }

    /// The alphabet in typed order.
    pub fn get_characters(&self) -> (r: &Vec<char>)
        ensures
            r@ == self@.alphabet,
    {
        &self.characters
    }

    /// Clamp the requested state count into range; drop trailing rows when
    /// shrinking, append default rows when growing.
    pub fn set_states_number(&mut self, new_states_number: usize)
        requires
            old(self)@.wf(),
        ensures
            final(self)@.wf(),
            set_states_post(old(self)@, final(self)@, new_states_number as int),
    {
        let ghost pre = self@;
        let clamped: usize = if new_states_number <= MIN_STATES_NUMBER {
            MIN_STATES_NUMBER
        } else if new_states_number >= MAX_STATES_NUMBER {
            MAX_STATES_NUMBER
        } else {
            new_states_number
        };
        if clamped < self.states_number {
            self.tasks.truncate(clamped);
            proof {
                assert(self@.grid =~= pre.grid.subrange(0, clamped as int));
            }
        } else {
            let width = self.sorted_characters.len();
            let mut s = self.states_number;
            while s < clamped
                invariant
                    pre.states <= s <= clamped,
                    width as int == pre.sorted.len(),
                    self.states_number == pre.states,
                    self.characters@ == pre.alphabet,
                    self.sorted_characters@ == pre.sorted,
                    self.tasks@.len() == s,
                    forall|k: int| 0 <= k < pre.states ==> #[trigger] self.tasks@[k]@ == pre.grid[k],
                    forall|k: int|
                        pre.states <= k < s ==> #[trigger] self.tasks@[k]@
                            == TableView::default_row_spec(pre.sorted.len() as int),
                decreases clamped - s,
            {
                self.tasks.push(default_row(width));
                s += 1;
            }
        }
        self.states_number = clamped;
        proof {
            let post = self@;
            assert forall|s2: int| 0 <= s2 < post.states && s2 < pre.states implies #[trigger] post
                .grid[s2] == pre.grid[s2] by {
                assert(post.grid[s2] == self.tasks@[s2]@);
            }
            assert forall|s2: int| pre.states <= s2 < post.states implies #[trigger] post.grid[s2]
                == TableView::default_row_spec(pre.sorted.len() as int) by {
                assert(post.grid[s2] == self.tasks@[s2]@);
            }
            assert forall|s2: int| 0 <= s2 < post.grid.len() implies #[trigger] post.grid[s2].len()
                == post.sorted.len() by {
                if s2 < pre.states {
                    assert(post.grid[s2] == pre.grid[s2]);
                }
            }
        }
    }

    /// Look up the rule for a state and a symbol: the symbol's sorted column
    /// in the state's row, or nothing when either is unknown.
    pub fn get_task(&self, state: usize, character: char) -> (r: Option<Task>)
        requires
            self@.wf(),
        ensures
            r == spec_get_task(self@, state as int, character),
    {
        match position_of(&self.sorted_characters, character) {
            None => None,
            Some(ci) => {
                if state < self.states_number {
                    proof {
                        lemma_char_index_spec(self@.sorted, character);
                    }
                    Some(self.tasks[state][ci])
                } else {
                    None
                }
            },
        }
    }

    /// Replace the rule at a grid position outright.
    pub fn set_task_by_position(&mut self, task: Task, row: usize, column: usize)
        requires
            old(self)@.wf(),
            row < old(self)@.states,
            column < old(self)@.sorted.len(),
        ensures
            final(self)@.wf(),
            final(self)@.states == old(self)@.states,
            final(self)@.alphabet == old(self)@.alphabet,
            final(self)@.sorted == old(self)@.sorted,
            final(self)@.grid == old(self)@.grid.update(
                row as int,
                old(self)@.grid[row as int].update(column as int, task),
            ),
    {
        let ghost pre = self@;
        proof {
            assert(self.tasks@.len() == pre.grid.len());
            assert(self.tasks@[row as int]@ == pre.grid[row as int]);
        }
        self.tasks[row][column] = task;
        proof {
            assert(self@.grid =~= pre.grid.update(
                row as int,
                pre.grid[row as int].update(column as int, task),
            ));
            assert forall|s2: int| 0 <= s2 < self@.grid.len() implies #[trigger] self@.grid[s2].len()
                == self@.sorted.len() by {
                if s2 != row {
                    assert(self@.grid[s2] == pre.grid[s2]);
                }
            }
        }
    }

    /// Replace the rule of a (state, symbol) pair; nothing happens and
    /// nothing is returned when the pair is unknown.
    pub fn set_task_by_state_and_character(
        &mut self,
        task: Task,
        state: usize,
        character: char,
    ) -> (r: Option<()>)
        requires
            old(self)@.wf(),
        ensures
            final(self)@.wf(),
            spec_get_task(old(self)@, state as int, character) is Some ==> {
                &&& r == Some(())
                &&& final(self)@.states == old(self)@.states
                &&& final(self)@.alphabet == old(self)@.alphabet
                &&& final(self)@.sorted == old(self)@.sorted
                &&& final(self)@.grid == old(self)@.grid.update(
                    state as int,
                    old(self)@.grid[state as int].update(
                        char_index(old(self)@.sorted, character),
                        task,
                    ),
                )
            },
            spec_get_task(old(self)@, state as int, character) is None ==> r is None && final(self)@
                == old(self)@,
    {
        match position_of(&self.sorted_characters, character) {
            None => None,
            Some(ci) => {
                if state < self.states_number {
                    proof {
                        lemma_char_index_spec(self@.sorted, character);
                    }
                    self.set_task_by_position(task, state, ci);
                    Some(())
                } else {
                    None
                }
            },
        }
    }
}

/// Remove the column at `ri` from every row.
fn remove_column(tasks: &mut Vec<Vec<Task>>, ri: usize)
    requires
        forall|k: int| 0 <= k < old(tasks)@.len() ==> ri < #[trigger] old(tasks)@[k]@.len(),
    ensures
        final(tasks)@.len() == old(tasks)@.len(),
        forall|k: int|
            0 <= k < old(tasks)@.len() ==> #[trigger] final(tasks)@[k]@ == old(
                tasks,
            )@[k]@.remove(ri as int),
{
    let ghost t0 = tasks@;
    let mut s: usize = 0;
    while s < tasks.len()
        invariant
            0 <= s <= t0.len(),
            tasks@.len() == t0.len(),
            forall|k: int| 0 <= k < t0.len() ==> ri < #[trigger] t0[k]@.len(),
            forall|k: int| 0 <= k < s ==> #[trigger] tasks@[k]@ == t0[k]@.remove(ri as int),
            forall|k: int| s <= k < t0.len() ==> #[trigger] tasks@[k] == t0[k],
        decreases t0.len() - s,
    {
        tasks[s].remove(ri);
        s += 1;
    }
}

/// Insert a column of copies of `t` at `ip` in every row.
fn insert_column(tasks: &mut Vec<Vec<Task>>, ip: usize, t: Task)
    requires
        forall|k: int| 0 <= k < old(tasks)@.len() ==> ip <= #[trigger] old(tasks)@[k]@.len(),
    ensures
        final(tasks)@.len() == old(tasks)@.len(),
        forall|k: int|
            0 <= k < old(tasks)@.len() ==> #[trigger] final(tasks)@[k]@ == old(
                tasks,
            )@[k]@.insert(ip as int, t),
{
    let ghost t0 = tasks@;
    let mut s: usize = 0;
    while s < tasks.len()
        invariant
            0 <= s <= t0.len(),
            tasks@.len() == t0.len(),
            forall|k: int| 0 <= k < t0.len() ==> ip <= #[trigger] t0[k]@.len(),
            forall|k: int| 0 <= k < s ==> #[trigger] tasks@[k]@ == t0[k]@.insert(ip as int, t),
            forall|k: int| s <= k < t0.len() ==> #[trigger] tasks@[k] == t0[k],
        decreases t0.len() - s,
    {
        tasks[s].insert(ip, t);
        s += 1;
    }
}

impl Table {
    /// First half of an alphabet change: delete the column and sorted entry
    /// of every current symbol that the filtered input no longer holds.
    fn remove_missing(&mut self, filtered: &Vec<char>)
        requires
            old(self)@.wf(),
        ensures
            final(self)@.states == old(self)@.states,
            final(self)@.alphabet == old(self)@.alphabet,
            strictly_sorted(final(self)@.sorted),
            final(self)@.grid.len() == final(self)@.states,
            forall|s: int|
                0 <= s < final(self)@.grid.len()
                    ==> #[trigger] final(self)@.grid[s].len() == final(self)@.sorted.len(),
            forall|c: char|
                #![trigger final(self)@.sorted.contains(c)]
                #![trigger old(self)@.sorted.contains(c)]
                #![trigger filtered@.contains(c)]
                final(self)@.sorted.contains(c) <==> old(self)@.sorted.contains(c)
                    && filtered@.contains(c),
            forall|c: char, s: int|
                final(self)@.sorted.contains(c) && 0 <= s < old(self)@.states
                    ==> #[trigger] final(self)@.grid[s][char_index(final(self)@.sorted, c)]
                    == old(self)@.grid[s][char_index(old(self)@.sorted, c)],
    {
        let ghost pre = self@;
        let mut i: usize = 0;
        while i < self.characters.len()
            invariant
                pre.wf(),
                0 <= i <= pre.alphabet.len(),
                self.characters@ == pre.alphabet,
                self.states_number as int == pre.states,
                strictly_sorted(self@.sorted),
                self@.grid.len() == pre.states,
                forall|s: int|
                    0 <= s < self@.grid.len() ==> #[trigger] self@.grid[s].len()
                        == self@.sorted.len(),
                forall|c: char|
                    #![trigger self@.sorted.contains(c)]
                    #![trigger pre.sorted.contains(c)]
                    self@.sorted.contains(c) <==> pre.sorted.contains(c) && (filtered@.contains(c)
                        || !pre.alphabet.subrange(0, i as int).contains(c)),
                forall|c: char, s: int|
                    self@.sorted.contains(c) && 0 <= s < pre.states
                        ==> #[trigger] self@.grid[s][char_index(self@.sorted, c)]
                        == pre.grid[s][char_index(pre.sorted, c)],
            decreases pre.alphabet.len() - i,
        {
            let c = self.characters[i];
            proof {
                assert(pre.alphabet[i as int] == c);
                assert(pre.alphabet.contains(c));
                assert(!pre.alphabet.subrange(0, i as int).contains(c)) by {
                    if pre.alphabet.subrange(0, i as int).contains(c) {
                        let k = choose|k: int|
                            0 <= k < i && pre.alphabet.subrange(0, i as int)[k] == c;
                        assert(pre.alphabet[k] == c);
                    }
                }
                assert(pre.alphabet.subrange(0, i + 1).drop_last() =~= pre.alphabet.subrange(
                    0,
                    i as int,
                ));
            }
            if !contains_char(filtered, c) {
                proof {
                    assert(self@.sorted.contains(c));
                }
                let ghost cur = self@;
                match position_of(&self.sorted_characters, c) {
                    Some(ri) => {
                        proof {
                            lemma_char_index_spec(cur.sorted, c);
                            crate::charset::lemma_strictly_sorted_no_dup(cur.sorted);
                            assert(cur.sorted[ri as int] == c);
                            assert(self.tasks@.len() == cur.grid.len());
                            assert forall|k: int| 0 <= k < self.tasks@.len() implies ri
                                < #[trigger] self.tasks@[k]@.len() by {
                                assert(self.tasks@[k]@ == cur.grid[k]);
                            }
                        }
                        remove_column(&mut self.tasks, ri);
                        self.sorted_characters.remove(ri);
                        proof {
                            let new = self@;
                            cur.sorted.remove_ensures(ri as int);
                            assert(new.sorted == cur.sorted.remove(ri as int));
                            assert forall|x: int, y: int|
                                0 <= x < y < new.sorted.len() implies (new.sorted[x] as int) < (
                            new.sorted[y] as int) by {
                                let sx: int = if x < ri {
                                    x
                                } else {
                                    x + 1
                                };
                                let sy: int = if y < ri {
                                    y
                                } else {
                                    y + 1
                                };
                                assert(new.sorted[x] == cur.sorted[sx]);
                                assert(new.sorted[y] == cur.sorted[sy]);
                            }
                            assert forall|d: char| new.sorted.contains(d) implies cur
                                .sorted.contains(d) && d != c by {
                                let x = choose|x: int|
                                    0 <= x < new.sorted.len() && new.sorted[x] == d;
                                let sx: int = if x < ri {
                                    x
                                } else {
                                    x + 1
                                };
                                assert(cur.sorted[sx] == d);
                                assert(sx != ri);
                            }
                            assert forall|d: char|
                                cur.sorted.contains(d) && d != c implies new.sorted.contains(
                                d,
                            ) by {
                                lemma_char_index_remove(cur.sorted, ri as int, d);
                            }
                            assert forall|s: int| 0 <= s < new.grid.len() implies #[trigger] new
                                .grid[s].len() == new.sorted.len() by {
                                assert(new.grid[s] == self.tasks@[s]@);
                                assert(new.grid[s] == cur.grid[s].remove(ri as int));
                                cur.grid[s].remove_ensures(ri as int);
                            }
                            assert forall|d: char, s: int|
                                new.sorted.contains(d) && 0 <= s < pre.states
                                    implies #[trigger] new.grid[s][char_index(new.sorted, d)]
                                == pre.grid[s][char_index(pre.sorted, d)] by {
                                assert(d != c && cur.sorted.contains(d));
                                lemma_char_index_remove(cur.sorted, ri as int, d);
                                lemma_char_index_spec(cur.sorted, d);
                                let di = char_index(cur.sorted, d);
                                assert(cur.grid[s][di] == pre.grid[s][char_index(pre.sorted, d)]);
                                assert(new.grid[s] == self.tasks@[s]@);
                                assert(new.grid[s] == cur.grid[s].remove(ri as int));
                                cur.grid[s].remove_ensures(ri as int);
                            }
                            assert forall|d: char| self@.sorted.contains(d) implies pre
                                .sorted.contains(d) && (filtered@.contains(d)
                                || !pre.alphabet.subrange(0, i + 1).contains(d)) by {
                                if !filtered@.contains(d) {
                                    assert(d != c);
                                    if pre.alphabet.subrange(0, i + 1).contains(d) {
                                        assert(pre.alphabet.subrange(0, i as int).contains(d));
                                    }
                                }
                            }
                            assert forall|d: char|
                                pre.sorted.contains(d) && (filtered@.contains(d)
                                    || !pre.alphabet.subrange(0, i + 1).contains(d)) implies self@
                                .sorted.contains(d) by {
                                assert(d != c) by {
                                    if d == c {
                                        assert(pre.alphabet.subrange(0, i + 1)[i as int] == c);
                                    }
                                }
                                if !filtered@.contains(d) {
                                    assert(!pre.alphabet.subrange(0, i as int).contains(d)) by {
                                        if pre.alphabet.subrange(0, i as int).contains(d) {
                                            let k = choose|k: int|
                                                0 <= k < i && pre.alphabet.subrange(0, i as int)[k]
                                                    == d;
                                            assert(pre.alphabet.subrange(0, i + 1)[k] == d);
                                        }
                                    }
                                }
                                assert(cur.sorted.contains(d));
                            }
                        }
                    },
                    None => {
                        proof {
                            assert(false);
                        }
                    },
                }
            } else {
                proof {
                    assert forall|d: char|
                        pre.sorted.contains(d) && (filtered@.contains(d) || !pre.alphabet.subrange(
                            0,
                            i + 1,
                        ).contains(d)) implies self@.sorted.contains(d) by {
                        if !filtered@.contains(d) {
                            assert(!pre.alphabet.subrange(0, i as int).contains(d)) by {
                                if pre.alphabet.subrange(0, i as int).contains(d) {
                                    let k = choose|k: int|
                                        0 <= k < i && pre.alphabet.subrange(0, i as int)[k] == d;
                                    assert(pre.alphabet.subrange(0, i + 1)[k] == d);
                                }
                            }
                        }
                    }
                    assert forall|d: char| self@.sorted.contains(d) implies pre.sorted.contains(
                        d,
                    ) && (filtered@.contains(d) || !pre.alphabet.subrange(0, i + 1).contains(
                        d,
                    )) by {
                        if !filtered@.contains(d) {
                            assert(!pre.alphabet.subrange(0, i as int).contains(d));
                            assert(!pre.alphabet.subrange(0, i + 1).contains(d)) by {
                                if pre.alphabet.subrange(0, i + 1).contains(d) {
                                    assert(d == c);
                                }
                            }
                        }
                    }
                }
            }
            i += 1;
        }
        proof {
            assert(pre.alphabet.subrange(0, pre.alphabet.len() as int) =~= pre.alphabet);
            assert forall|c: char| final(self)@.sorted.contains(c) implies pre.sorted.contains(c)
                && filtered@.contains(c) by {
                if !filtered@.contains(c) {
                    assert(pre.alphabet.contains(c));
                }
            }
        }
    }

    /// Second half of an alphabet change: give every filtered symbol that the
    /// table does not know yet a sorted entry and a column of default rules.
    fn add_new(&mut self, filtered: &Vec<char>)
        requires
            old(self)@.alphabet.no_duplicates(),
            strictly_sorted(old(self)@.sorted),
            old(self)@.grid.len() == old(self)@.states,
            forall|s: int|
                0 <= s < old(self)@.grid.len()
                    ==> #[trigger] old(self)@.grid[s].len() == old(self)@.sorted.len(),
            forall|c: char|
                #![trigger old(self)@.sorted.contains(c)]
                old(self)@.sorted.contains(c) ==> old(self)@.alphabet.contains(c)
                    && filtered@.contains(c),
            forall|c: char|
                #![trigger filtered@.contains(c)]
                #![trigger old(self)@.alphabet.contains(c)]
                filtered@.contains(c) && old(self)@.alphabet.contains(c) ==> old(
                    self,
                )@.sorted.contains(c),
            filtered@.no_duplicates(),
        ensures
            final(self)@.states == old(self)@.states,
            final(self)@.alphabet == old(self)@.alphabet,
            strictly_sorted(final(self)@.sorted),
            final(self)@.grid.len() == final(self)@.states,
            forall|s: int|
                0 <= s < final(self)@.grid.len()
                    ==> #[trigger] final(self)@.grid[s].len() == final(self)@.sorted.len(),
            forall|c: char|
                #![trigger final(self)@.sorted.contains(c)]
                #![trigger old(self)@.sorted.contains(c)]
                #![trigger filtered@.contains(c)]
                final(self)@.sorted.contains(c) <==> old(self)@.sorted.contains(c) || (
                filtered@.contains(c) && !old(self)@.alphabet.contains(c)),
            forall|c: char, s: int|
                old(self)@.sorted.contains(c) && 0 <= s < old(self)@.states
                    ==> #[trigger] final(self)@.grid[s][char_index(final(self)@.sorted, c)]
                    == old(self)@.grid[s][char_index(old(self)@.sorted, c)],
            forall|c: char, s: int|
                !old(self)@.sorted.contains(c) && final(self)@.sorted.contains(c) && 0 <= s < old(
                    self,
                )@.states ==> #[trigger] final(self)@.grid[s][char_index(final(self)@.sorted, c)]
                    == Task::spec_default(),
    {
        let ghost mid = self@;
        let mut j: usize = 0;
        while j < filtered.len()
            invariant
                0 <= j <= filtered@.len(),
                filtered@.no_duplicates(),
                mid.alphabet.no_duplicates(),
                forall|c: char|
                    #![trigger mid.sorted.contains(c)]
                    mid.sorted.contains(c) ==> mid.alphabet.contains(c) && filtered@.contains(c),
                forall|c: char|
                    #![trigger filtered@.contains(c)]
                    #![trigger mid.alphabet.contains(c)]
                    filtered@.contains(c) && mid.alphabet.contains(c) ==> mid.sorted.contains(c),
                self.characters@ == mid.alphabet,
                self.states_number as int == mid.states,
                strictly_sorted(self@.sorted),
                self@.grid.len() == mid.states,
                forall|s: int|
                    0 <= s < self@.grid.len() ==> #[trigger] self@.grid[s].len()
                        == self@.sorted.len(),
                forall|c: char|
                    #![trigger self@.sorted.contains(c)]
                    #![trigger mid.sorted.contains(c)]
                    self@.sorted.contains(c) <==> mid.sorted.contains(c) || (filtered@.subrange(
                        0,
                        j as int,
                    ).contains(c) && !mid.alphabet.contains(c)),
                forall|c: char, s: int|
                    mid.sorted.contains(c) && 0 <= s < mid.states
                        ==> #[trigger] self@.grid[s][char_index(self@.sorted, c)]
                        == mid.grid[s][char_index(mid.sorted, c)],
                forall|c: char, s: int|
                    !mid.sorted.contains(c) && self@.sorted.contains(c) && 0 <= s < mid.states
                        ==> #[trigger] self@.grid[s][char_index(self@.sorted, c)]
                        == Task::spec_default(),
            decreases filtered@.len() - j,
        {
            let c = filtered[j];
            proof {
                assert(filtered@[j as int] == c);
                assert(filtered@.contains(c));
                assert(!filtered@.subrange(0, j as int).contains(c)) by {
                    if filtered@.subrange(0, j as int).contains(c) {
                        let k = choose|k: int| 0 <= k < j && filtered@.subrange(0, j as int)[k] == c;
                        assert(filtered@[k] == c);
                    }
                }
                assert(filtered@.subrange(0, j + 1).drop_last() =~= filtered@.subrange(0, j as int));
                assert(filtered@.subrange(0, j + 1)[j as int] == c);
            }
            if !contains_char(&self.characters, c) {
                let ghost cur = self@;
                proof {
                    assert(!mid.alphabet.contains(c));
                    assert(!cur.sorted.contains(c)) by {
                        if mid.sorted.contains(c) {
                            assert(mid.alphabet.contains(c));
                        }
                    }
                    lemma_insert_pos_spec(cur.sorted, c);
                    crate::charset::lemma_strictly_sorted_no_dup(cur.sorted);
                    assert(self.tasks@.len() == cur.grid.len());
                    assert forall|k: int| 0 <= k < self.tasks@.len() implies insert_pos(
                        cur.sorted,
                        c,
                    ) <= #[trigger] self.tasks@[k]@.len() by {
                        assert(self.tasks@[k]@ == cur.grid[k]);
                    }
                }
                let ip = insertion_position(&self.sorted_characters, c);
                insert_column(&mut self.tasks, ip, Task::new());
                self.sorted_characters.insert(ip, c);
                proof {
                    let new = self@;
                    cur.sorted.insert_ensures(ip as int, c);
                    assert(new.sorted == cur.sorted.insert(ip as int, c));
                    assert(strictly_sorted(new.sorted));
                    crate::charset::lemma_strictly_sorted_no_dup(new.sorted);
                    assert(new.sorted[ip as int] == c);
                    lemma_char_index_unique(new.sorted, ip as int);
                    assert forall|d: char| new.sorted.contains(d) && d != c implies cur
                        .sorted.contains(d) by {
                        let x = choose|x: int| 0 <= x < new.sorted.len() && new.sorted[x] == d;
                        if x < ip {
                            assert(cur.sorted[x] == d);
                        } else {
                            assert(x > ip);
                            assert(cur.sorted[x - 1] == d);
                        }
                    }
                    assert forall|d: char| cur.sorted.contains(d) implies new.sorted.contains(
                        d,
                    ) by {
                        lemma_char_index_insert(cur.sorted, ip as int, c, d);
                    }
                    assert forall|s: int| 0 <= s < new.grid.len() implies #[trigger] new
                        .grid[s].len() == new.sorted.len() by {
                        assert(new.grid[s] == self.tasks@[s]@);
                        assert(new.grid[s] == cur.grid[s].insert(ip as int, Task::spec_default()));
                        cur.grid[s].insert_ensures(ip as int, Task::spec_default());
                    }
                    assert forall|d: char, s: int|
                        new.sorted.contains(d) && 0 <= s < mid.states
                            implies #[trigger] new.grid[s][char_index(new.sorted, d)] == (if d == c {
                            Task::spec_default()
                        } else {
                            cur.grid[s][char_index(cur.sorted, d)]
                        }) by {
                        assert(new.grid[s] == self.tasks@[s]@);
                        assert(new.grid[s] == cur.grid[s].insert(ip as int, Task::spec_default()));
                        cur.grid[s].insert_ensures(ip as int, Task::spec_default());
                        if d == c {
                            assert(char_index(new.sorted, d) == ip as int);
                        } else {
                            lemma_char_index_insert(cur.sorted, ip as int, c, d);
                            lemma_char_index_spec(cur.sorted, d);
                        }
                    }
                    assert forall|d: char, s: int|
                        mid.sorted.contains(d) && 0 <= s < mid.states
                            implies #[trigger] new.grid[s][char_index(new.sorted, d)]
                        == mid.grid[s][char_index(mid.sorted, d)] by {
                        assert(d != c);
                        assert(cur.sorted.contains(d));
                        assert(cur.grid[s][char_index(cur.sorted, d)] == mid.grid[s][char_index(
                            mid.sorted,
                            d,
                        )]);
                    }
                    assert forall|d: char, s: int|
                        !mid.sorted.contains(d) && new.sorted.contains(d) && 0 <= s < mid.states
                            implies #[trigger] new.grid[s][char_index(new.sorted, d)]
                        == Task::spec_default() by {
                        if d != c {
                            assert(cur.sorted.contains(d));
                            assert(cur.grid[s][char_index(cur.sorted, d)] == Task::spec_default());
                        }
                    }
                    assert forall|d: char|
                        new.sorted.contains(d) implies mid.sorted.contains(d) || (
                        filtered@.subrange(0, j + 1).contains(d) && !mid.alphabet.contains(d)) by {
                        if d != c {
                            assert(cur.sorted.contains(d));
                            if !mid.sorted.contains(d) {
                                assert(filtered@.subrange(0, j as int).contains(d));
                                let k = choose|k: int|
                                    0 <= k < j && filtered@.subrange(0, j as int)[k] == d;
                                assert(filtered@.subrange(0, j + 1)[k] == d);
                            }
                        }
                    }
                    assert forall|d: char|
                        mid.sorted.contains(d) || (filtered@.subrange(0, j + 1).contains(d)
                            && !mid.alphabet.contains(d)) implies new.sorted.contains(d) by {
                        if d != c {
                            if !mid.sorted.contains(d) {
                                let sub = filtered@.subrange(0, j + 1);
                                assert(sub.contains(d));
                                let k = choose|k: int| 0 <= k < sub.len() && sub[k] == d;
                                assert(k < j);
                                assert(filtered@.subrange(0, j as int)[k] == d);
                            }
                            assert(cur.sorted.contains(d));
                        }
                    }
                }
            } else {
                proof {
                    assert(mid.alphabet.contains(c));
                    assert(mid.sorted.contains(c));
                    assert forall|d: char|
                        self@.sorted.contains(d) <==> mid.sorted.contains(d) || (
                        filtered@.subrange(0, j + 1).contains(d) && !mid.alphabet.contains(d)) by {
                        if d != c && filtered@.subrange(0, j + 1).contains(d) {
                            let sub = filtered@.subrange(0, j + 1);
                            let k = choose|k: int| 0 <= k < sub.len() && sub[k] == d;
                            assert(k < j);
                            assert(filtered@.subrange(0, j as int)[k] == d);
                        }
                        if filtered@.subrange(0, j as int).contains(d) {
                            let k = choose|k: int|
                                0 <= k < j && filtered@.subrange(0, j as int)[k] == d;
                            assert(filtered@.subrange(0, j + 1)[k] == d);
                        }
                    }
                }
            }
            j += 1;
        }
        proof {
            assert(filtered@.subrange(0, filtered@.len() as int) =~= filtered@);
        }
    }

    /// Replace the alphabet with the filtered form of `new_characters`.
    /// Symbols that stay keep their rules; fresh symbols get default columns;
    /// symbols that left take their columns with them.
    pub fn set_characters(&mut self, new_characters: &Vec<char>)
        requires
            old(self)@.wf(),
        ensures
            final(self)@.wf(),
            set_characters_post(old(self)@, final(self)@, new_characters@),
    {
        let ghost pre = self@;
        let filtered = filter_characters(new_characters);
        let ghost f = filtered@;
        proof {
            lemma_filter_chars_ok(new_characters@);
        }
        self.remove_missing(&filtered);
        let ghost mid = self@;
        self.add_new(&filtered);
        let ghost fin = self@;
        self.characters = filtered;
        proof {
            let post = self@;
            assert(post.sorted == fin.sorted && post.grid == fin.grid && post.states == fin.states);
            assert(post.alphabet == f);
            assert forall|c: char| post.sorted.contains(c) implies f.contains(c) by {
                if mid.sorted.contains(c) {
                    assert(pre.sorted.contains(c) && f.contains(c));
                }
            }
            assert forall|c: char| f.contains(c) implies post.sorted.contains(c) by {
                if pre.alphabet.contains(c) {
                    assert(pre.sorted.contains(c));
                    assert(mid.sorted.contains(c));
                }
            }
            assert forall|c: char, s: int|
                pre.sorted.contains(c) && post.sorted.contains(c) && 0 <= s < pre.states
                    implies #[trigger] post.grid[s][char_index(post.sorted, c)]
                == pre.grid[s][char_index(pre.sorted, c)] by {
                assert(f.contains(c));
                assert(mid.sorted.contains(c));
                assert(fin.grid[s][char_index(fin.sorted, c)] == mid.grid[s][char_index(
                    mid.sorted,
                    c,
                )]);
                assert(mid.grid[s][char_index(mid.sorted, c)] == pre.grid[s][char_index(
                    pre.sorted,
                    c,
                )]);
            }
            assert forall|c: char, s: int|
                !pre.sorted.contains(c) && post.sorted.contains(c) && 0 <= s < post.states
                    implies #[trigger] post.grid[s][char_index(post.sorted, c)]
                == Task::spec_default() by {
                assert(!mid.sorted.contains(c)) by {
                    if mid.sorted.contains(c) {
                        assert(pre.sorted.contains(c));
                    }
                }
            }
            crate::charset::lemma_strictly_sorted_no_dup(post.sorted);
            crate::charset::lemma_same_members_same_len(post.sorted, post.alphabet);
            assert(post.wf());
        }
    }
}


/// The error a malformed persisted table is reported with.
#[derive(Clone, Copy, Debug, PartialEq, Eq, Structural)]
pub struct TableFormatError;

impl Table {
    /// Serialize the table: the sorted alphabet line, then one line of rule
    /// triples per state, all whitespace-separated.
    pub fn write_to_buffer(&self) -> (r: Vec<char>)
        requires
            self@.wf(),
        ensures
            r@ == render_table(self@),
    {
        let ghost all = table_lines(self@);
        let mut out = render_header(&self.sorted_characters);
        out.push('\n');
        proof {
            assert(all[0] == join_tokens(header_tokens(self@.sorted)));
            assert(all.subrange(0, 1) =~= seq![all[0]]);
            assert(unlines(Seq::<Seq<char>>::empty()) =~= Seq::<char>::empty());
            assert(unlines(seq![all[0]]) == all[0] + seq!['\n'] + unlines(
                seq![all[0]].drop_first(),
            ));
            assert(seq![all[0]].drop_first() =~= Seq::<Seq<char>>::empty());
            assert(out@ =~= unlines(all.subrange(0, 1)));
        }
        let mut s: usize = 0;
        while s < self.tasks.len()
            invariant
                self@.wf(),
                0 <= s <= self@.grid.len(),
                self.tasks@.len() == self@.grid.len(),
                all == table_lines(self@),
                all.len() == 1 + self@.grid.len(),
                out@ =~= unlines(all.subrange(0, 1 + s as int)),
            decreases self@.grid.len() - s,
        {
            let line = render_row(&self.tasks[s]);
            append_chars(&mut out, &line);
            out.push('\n');
            proof {
                assert(self.tasks@[s as int]@ == self@.grid[s as int]);
                assert(all[1 + s as int] == join_tokens(task_tokens(self@.grid[s as int])));
                assert(all.subrange(0, 2 + s as int) =~= all.subrange(0, 1 + s as int).push(
                    all[1 + s as int],
                ));
                lemma_unlines_push(all.subrange(0, 1 + s as int), all[1 + s as int]);
                assert(out@ =~= unlines(all.subrange(0, 2 + s as int)));
            }
            s += 1;
        }
        proof {
            assert(all.subrange(0, all.len() as int) =~= all);
        }
        out
    }
}


impl Table {
    /// Load a table from persisted text. Parsing builds a fresh table, so a
    /// failure leaves no table half-changed. It fails exactly when the text
    /// has no line at all, or some data line lacks a parsable rule triple
    /// for some alphabet symbol.
    pub fn new_from_buffer(text: &Vec<char>) -> (r: Result<Table, TableFormatError>)
        ensures
            match r {
                Ok(t) => t@.wf() && spec_load(text@) == Some(t@),
                Err(_) => spec_load(text@) is None,
            },
    {
        let lines = split_lines(text);
        let ghost ls = lines_of(text@);
        if lines.len() == 0 {
            proof {
                assert(ls.len() == 0);
            }
            return Err(TableFormatError);
        }
        let mut table = Table::new_empty();
        let ghost g0 = table@;
        table.set_characters(&lines[0]);
        let ghost g1 = table@;
        let ghost alpha = filter_chars(ls[0]);
        proof {
            assert(lines@[0]@ == ls[0]);
            assert(g1.alphabet == alpha);
            lemma_filter_chars_ok(ls[0]);
            crate::charset::lemma_strictly_sorted_no_dup(g1.sorted);
            lemma_sorted_of(alpha);
            lemma_sorted_unique(g1.sorted, sorted_of(alpha));
            assert forall|s2: int, j: int|
                0 <= s2 < g1.states && 0 <= j < alpha.len() implies #[trigger] g1.grid[s2][j]
                == Task::spec_default() by {
                let c = g1.sorted[j];
                lemma_char_index_unique(g1.sorted, j);
                assert(g1.sorted.contains(c));
                if g0.sorted.contains(c) {
                    lemma_char_index_spec(g0.sorted, c);
                    assert(g0.grid[s2][char_index(g0.sorted, c)] == Task::spec_default());
                    assert(g1.grid[s2][char_index(g1.sorted, c)] == g0.grid[s2][char_index(
                        g0.sorted,
                        c,
                    )]);
                } else {
                    assert(g1.grid[s2][char_index(g1.sorted, c)] == Task::spec_default());
                }
            }
        }
        let n = lines.len() - 1;
        table.set_states_number(n);
        let ghost srt = table@.sorted;
        let ghost states = table@.states;
        proof {
            let g2 = table@;
            assert(srt == sorted_of(alpha));
            assert(states == clamp_states(n as int));
            assert forall|s2: int, j: int|
                0 <= s2 < g2.states && 0 <= j < alpha.len() implies #[trigger] g2.grid[s2][j]
                == Task::spec_default() by {
                if s2 < g1.states {
                    assert(g2.grid[s2] == g1.grid[s2]);
                } else {
                    assert(g2.grid[s2] == TableView::default_row_spec(g1.sorted.len() as int));
                }
            }
        }
        let width = table.get_characters().len();
        let mut alphabet: Vec<char> = Vec::new();
        let mut k0: usize = 0;
        while k0 < width
            invariant
                table@.alphabet == alpha,
                width as int == alpha.len(),
                0 <= k0 <= width,
                alphabet@ =~= alpha.subrange(0, k0 as int),
            decreases width - k0,
        {
            let c = table.get_characters()[k0];
            alphabet.push(c);
            proof {
                assert(alphabet@ =~= alpha.subrange(0, k0 + 1));
            }
            k0 += 1;
        }
        proof {
            assert(alphabet@ =~= alpha);
        }
        let mut s: usize = 0;
        while s < n
            invariant
                0 <= s <= n,
                lines@.len() == ls.len(),
                n as int == ls.len() - 1,
                lines@.map_values(|l: Vec<char>| l@) == ls,
                ls == lines_of(text@),
                alpha == filter_chars(ls[0]),
                table@.wf(),
                table@.alphabet == alpha,
                table@.sorted == srt,
                srt == sorted_of(alpha),
                alpha.no_duplicates(),
                width as int == alpha.len(),
                alphabet@ == alpha,
                table@.states == states,
                states == clamp_states(n as int),
                forall|s2: int|
                    0 <= s2 < s ==> #[trigger] row_parses(tokens_of(ls[s2 + 1]), alpha.len() as int),
                forall|s2: int, j: int|
                    0 <= s2 < table@.states && 0 <= j < alpha.len()
                        ==> #[trigger] table@.grid[s2][j] == (if s2 < s {
                        parsed_row(tokens_of(ls[s2 + 1]), alpha.len() as int)[char_index(
                            alpha,
                            srt[j],
                        )]
                    } else {
                        Task::spec_default()
                    }),
            decreases n - s,
        {
            let toks = split_tokens(&lines[1 + s]);
            let ghost tks = tokens_of(ls[1 + s as int]);
            proof {
                assert(lines@[1 + s as int]@ == ls[1 + s as int]);
                assert(toks@.map_values(|t: Vec<char>| t@) == tks);
                assert(toks@.len() == tks.len());
            }
            if width > toks.len() / 3 {
                proof {
                    assert(tks.len() < 3 * alpha.len());
                    assert(!row_parses(tks, alpha.len() as int));
                    if spec_load(text@) is Some {
                        assert(row_parses(
                            tokens_of(ls[s as int + 1]),
                            filter_chars(ls[0]).len() as int,
                        ));
                        assert(false);
                    }
                }
                return Err(TableFormatError);
            }
            proof {
                assert forall|j: int| 0 <= j < alpha.len() implies #[trigger] char_index(
                    alpha,
                    srt[j],
                ) >= 0 by {
                    assert(srt.contains(srt[j]));
                    assert(alpha.contains(srt[j]));
                    lemma_char_index_spec(alpha, srt[j]);
                }
            }
            let mut k: usize = 0;
            while k < width
                invariant
                    0 <= k <= width,
                    0 <= s < n,
                    lines@.len() == ls.len(),
                    n as int == ls.len() - 1,
                    ls == lines_of(text@),
                    alpha == filter_chars(ls[0]),
                    tks == tokens_of(ls[1 + s as int]),
                    toks@.map_values(|t: Vec<char>| t@) == tks,
                    toks@.len() == tks.len(),
                    width <= toks@.len() / 3,
                    table@.wf(),
                    table@.alphabet == alpha,
                    table@.sorted == srt,
                    srt == sorted_of(alpha),
                    alpha.no_duplicates(),
                    width as int == alpha.len(),
                    alphabet@ == alpha,
                    table@.states == states,
                    states == clamp_states(n as int),
                    forall|k2: int| 0 <= k2 < k ==> (#[trigger] triple_at(tks, k2)) is Some,
                    forall|s2: int|
                        0 <= s2 < s ==> #[trigger] row_parses(
                            tokens_of(ls[s2 + 1]),
                            alpha.len() as int,
                        ),
                    forall|s2: int, j: int|
                        0 <= s2 < table@.states && 0 <= j < alpha.len()
                            ==> #[trigger] table@.grid[s2][j] == (if s2 < s {
                            parsed_row(tokens_of(ls[s2 + 1]), alpha.len() as int)[char_index(
                                alpha,
                                srt[j],
                            )]
                        } else if s2 == s && char_index(alpha, srt[j]) < k {
                            parsed_row(tks, alpha.len() as int)[char_index(alpha, srt[j])]
                        } else {
                            Task::spec_default()
                        }),
                decreases width - k,
            {
                let i0 = 3 * k;
                proof {
                    assert(toks@[i0 as int]@ == tks[3 * k]);
                    assert(toks@[i0 + 1]@ == tks[3 * k + 1]);
                    assert(toks@[i0 + 2]@ == tks[3 * k + 2]);
                }
                let st = match parse_usize_chars(&toks[i0]) {
                    Some(v) => v,
                    None => {
                        proof {
                            assert(triple_at(tks, k as int) is None);
                            assert(!row_parses(tks, alpha.len() as int));
                            if spec_load(text@) is Some {
                                assert(row_parses(
                                    tokens_of(ls[s as int + 1]),
                                    filter_chars(ls[0]).len() as int,
                                ));
                                assert(false);
                            }
                        }
                        return Err(TableFormatError);
                    },
                };
                if toks[i0 + 1].len() == 0 || toks[i0 + 2].len() == 0 {
                    proof {
                        assert(triple_at(tks, k as int) is None);
                        assert(!row_parses(tks, alpha.len() as int));
                        if spec_load(text@) is Some {
                            assert(row_parses(
                                tokens_of(ls[s as int + 1]),
                                filter_chars(ls[0]).len() as int,
                            ));
                            assert(false);
                        }
                    }
                    return Err(TableFormatError);
                }
                let ch = toks[i0 + 1][0];
                let d = match Direction::from_char(toks[i0 + 2][0]) {
                    Ok(d) => d,
                    Err(_) => {
                        proof {
                            assert(triple_at(tks, k as int) is None);
                            assert(!row_parses(tks, alpha.len() as int));
                            if spec_load(text@) is Some {
                                assert(row_parses(
                                    tokens_of(ls[s as int + 1]),
                                    filter_chars(ls[0]).len() as int,
                                ));
                                assert(false);
                            }
                        }
                        return Err(TableFormatError);
                    },
                };
                let task = Task { state: st, character: ch, direction: d };
                proof {
                    assert(triple_at(tks, k as int) == Some(task));
                }
                let ghost pre_set = table@;
                table.set_task_by_state_and_character(task, s, alphabet[k]);
                proof {
                    let post = table@;
                    assert(alpha[k as int] == alphabet@[k as int]);
                    assert(alpha.contains(alpha[k as int]));
                    assert(srt.contains(alpha[k as int]));
                    lemma_char_index_unique(alpha, k as int);
                    crate::charset::lemma_strictly_sorted_no_dup(srt);
                    if (s as int) < states {
                        lemma_char_index_spec(srt, alpha[k as int]);
                        let jk = char_index(srt, alpha[k as int]);
                        assert(srt[jk] == alpha[k as int]);
                        assert(char_index(alpha, srt[jk]) == k as int);
                        assert(post.grid == pre_set.grid.update(
                            s as int,
                            pre_set.grid[s as int].update(jk, task),
                        ));
                        assert forall|s2: int, j: int|
                            0 <= s2 < post.states && 0 <= j < alpha.len()
                                implies #[trigger] post.grid[s2][j] == (if s2 < s {
                                parsed_row(tokens_of(ls[s2 + 1]), alpha.len() as int)[char_index(
                                    alpha,
                                    srt[j],
                                )]
                            } else if s2 == s && char_index(alpha, srt[j]) < k + 1 {
                                parsed_row(tks, alpha.len() as int)[char_index(alpha, srt[j])]
                            } else {
                                Task::spec_default()
                            }) by {
                            if s2 == s {
                                if j == jk {
                                    assert(post.grid[s2][j] == task);
                                    assert(parsed_row(tks, alpha.len() as int)[k as int] == task);
                                } else {
                                    assert(post.grid[s2][j] == pre_set.grid[s2][j]);
                                    assert(char_index(alpha, srt[j]) != k as int) by {
                                        if char_index(alpha, srt[j]) == k as int {
                                            assert(alpha.contains(srt[j])) by {
                                                assert(srt.contains(srt[j]));
                                            }
                                            lemma_char_index_spec(alpha, srt[j]);
                                            assert(alpha[k as int] == srt[j]);
                                            lemma_char_index_unique(srt, j);
                                        }
                                    }
                                }
                            } else {
                                assert(post.grid[s2][j] == pre_set.grid[s2][j]);
                            }
                        }
                    } else {
                        assert(spec_get_task(pre_set, s as int, alpha[k as int]) is None);
                        assert(post == pre_set);
                    }
                }
                k += 1;
            }
            proof {
                assert(row_parses(tks, alpha.len() as int));
                let v = table@;
                assert forall|s2: int, j: int|
                    0 <= s2 < v.states && 0 <= j < alpha.len() implies #[trigger] v.grid[s2][j] == (
                if s2 < s + 1 {
                    parsed_row(tokens_of(ls[s2 + 1]), alpha.len() as int)[char_index(
                        alpha,
                        srt[j],
                    )]
                } else {
                    Task::spec_default()
                }) by {
                    if s2 == s {
                        assert(srt.contains(srt[j]));
                        assert(alpha.contains(srt[j]));
                        lemma_char_index_spec(alpha, srt[j]);
                    }
                }
            }
            s += 1;
        }
        proof {
            let lv = loaded_view(ls);
            let v = table@;
            assert forall|s2: int|
                0 <= s2 < ls.len() - 1 implies #[trigger] row_parses(
                    tokens_of(ls[s2 + 1]),
                    filter_chars(ls[0]).len() as int,
                ) by {}
            assert(spec_load(text@) == Some(lv));
            assert(v.states == lv.states);
            assert(v.alphabet == lv.alphabet);
            assert(v.sorted == lv.sorted);
            assert(v.grid.len() == lv.grid.len());
            assert forall|s2: int| 0 <= s2 < v.grid.len() implies v.grid[s2] =~= lv.grid[s2] by {
                assert(v.grid[s2].len() == alpha.len());
                assert(lv.grid[s2].len() == alpha.len());
                assert forall|j: int| 0 <= j < alpha.len() implies v.grid[s2][j]
                    == lv.grid[s2][j] by {
                    if s2 < n {
                        assert(v.grid[s2][j] == parsed_row(
                            tokens_of(ls[s2 + 1]),
                            alpha.len() as int,
                        )[char_index(alpha, srt[j])]);
                    } else {
                        assert(v.grid[s2][j] == Task::spec_default());
                        assert(lv.grid[s2] == TableView::default_row_spec(alpha.len() as int));
                    }
                }
            }
            assert(v.grid =~~= lv.grid);
            assert(v =~~= lv);
        }
        Ok(table)
    }
}


/// Changing the alphabet twice never touches the rules of a symbol that
/// every alphabet along the way keeps: whatever was removed and re-added
/// around it, the symbol's column carries the same rules, found at its
/// possibly moved sorted position.
pub proof fn lemma_alphabet_resize_preserves_rules(
    t1: TableView,
    t2: TableView,
    t3: TableView,
    in2: Seq<char>,
    in3: Seq<char>,
    c: char,
    s: int,
)
    requires
        set_characters_post(t1, t2, in2),
        set_characters_post(t2, t3, in3),
        t1.sorted.contains(c),
        t2.sorted.contains(c),
        t3.sorted.contains(c),
        0 <= s < t1.states,
    ensures
        t3.grid[s][char_index(t3.sorted, c)] == t1.grid[s][char_index(t1.sorted, c)],
{
    assert(t2.grid[s][char_index(t2.sorted, c)] == t1.grid[s][char_index(t1.sorted, c)]);
    assert(t3.grid[s][char_index(t3.sorted, c)] == t2.grid[s][char_index(t2.sorted, c)]);
}

/// Setting the state count to the same value twice is one call: the second
/// changes nothing.
pub proof fn lemma_set_states_idempotent(t1: TableView, t2: TableView, t3: TableView, n: int)
    requires
        set_states_post(t1, t2, n),
        set_states_post(t2, t3, n),
    ensures
        t3 == t2,
{
    assert(t3.grid.len() == t2.grid.len());
    assert forall|s: int| 0 <= s < t3.grid.len() implies t3.grid[s] == t2.grid[s] by {}
    assert(t3.grid =~= t2.grid);
    assert(t3 =~~= t2);
}

/// Growing the state count and shrinking it back restores the table
/// exactly: the rows that existed before the growth come back untouched.
pub proof fn lemma_set_states_grow_shrink(t1: TableView, t2: TableView, t3: TableView, m: int)
    requires
        t1.wf(),
        m >= t1.states,
        set_states_post(t1, t2, m),
        set_states_post(t2, t3, t1.states),
    ensures
        t3 == t1,
{
    assert(clamp_states(t1.states) == t1.states);
    assert(t2.states >= t1.states);
    assert(t3.grid.len() == t1.grid.len());
    assert forall|s: int| 0 <= s < t3.grid.len() implies t3.grid[s] == t1.grid[s] by {
        assert(t3.grid[s] == t2.grid[s]);
        assert(t2.grid[s] == t1.grid[s]);
    }
    assert(t3.grid =~= t1.grid);
    assert(t3 =~~= t1);
}

} // verus!
