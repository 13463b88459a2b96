//! Character helpers shared by the table and the persistence format:
//! the whitespace predicate, the alphabet filter (unique, non-whitespace,
//! first occurrence kept), and membership search.

use vstd::prelude::*;

verus! {

/// The Unicode `White_Space` characters, the set `char::is_whitespace`
/// recognizes.
pub open spec fn is_ws(c: char) -> bool {
    ||| ('\u{0009}' <= c && c <= '\u{000D}')
    ||| c == '\u{0020}'
    ||| c == '\u{0085}'
    ||| c == '\u{00A0}'
    ||| c == '\u{1680}'
    ||| ('\u{2000}' <= c && c <= '\u{200A}')
    ||| c == '\u{2028}'
    ||| c == '\u{2029}'
    ||| c == '\u{202F}'
    ||| c == '\u{205F}'
    ||| c == '\u{3000}'
}

/// Decide whether `c` is a whitespace character.
pub(crate) fn is_whitespace_char(c: char) -> (b: bool)
    ensures
        b == is_ws(c),
{
    let n = c as u32;
    (0x9 <= n && n <= 0xD) || n == 0x20 || n == 0x85 || n == 0xA0 || n == 0x1680 || (0x2000 <= n
        && n <= 0x200A) || n == 0x2028 || n == 0x2029 || n == 0x202F || n == 0x205F || n == 0x3000
}

/// The filtered form of a typed alphabet: whitespace dropped, later
/// duplicates dropped, first occurrences kept in their order.
pub open spec fn filter_chars(s: Seq<char>) -> Seq<char>
    decreases s.len(),
{
    if s.len() == 0 {
        Seq::empty()
    } else {
        let prefix = filter_chars(s.drop_last());
        let c = s.last();
        if is_ws(c) || prefix.contains(c) {
            prefix
        } else {
            prefix.push(c)
        }
    }
}

/// A filtered alphabet holds no whitespace and no duplicate.
pub proof fn lemma_filter_chars_ok(s: Seq<char>)
    ensures
        forall|i: int| 0 <= i < filter_chars(s).len() ==> !is_ws(#[trigger] filter_chars(s)[i]),
        forall|i: int, j: int|
            0 <= i < j < filter_chars(s).len() ==> filter_chars(s)[i] != filter_chars(s)[j],
        forall|c: char| filter_chars(s).contains(c) <==> s.contains(c) && !is_ws(c),
    decreases s.len(),
{
    if s.len() > 0 {
        lemma_filter_chars_ok(s.drop_last());
        let fs = filter_chars(s);
        let prefix = filter_chars(s.drop_last());
        assert forall|c: char| s.contains(c) && !is_ws(c) implies fs.contains(c) by {
            if c == s.last() {
                if prefix.contains(c) {
                    let i = choose|i: int| 0 <= i < prefix.len() && prefix[i] == c;
                    assert(fs[i] == c);
                } else {
                    assert(fs == prefix.push(c));
                    assert(fs[fs.len() - 1] == c);
                }
            } else {
                let i = choose|i: int| 0 <= i < s.len() && s[i] == c;
                assert(s.drop_last()[i] == c);
                assert(prefix.contains(c));
                let j = choose|j: int| 0 <= j < prefix.len() && prefix[j] == c;
                assert(fs[j] == c);
            }
        }
        assert forall|c: char| fs.contains(c) implies s.contains(c) && !is_ws(c) by {
            let j = choose|j: int| 0 <= j < fs.len() && fs[j] == c;
            if j < prefix.len() {
                assert(prefix.contains(c));
                let i = choose|i: int| 0 <= i < s.drop_last().len() && s.drop_last()[i] == c;
                assert(s[i] == c);
            } else {
                assert(c == s.last());
                assert(s[s.len() - 1] == c);
            }
        }
    }
}

/// Compare two characters by code point.
pub(crate) fn char_lt(a: char, b: char) -> (r: bool)
    ensures
        r == ((a as int) < (b as int)),
{
    (a as u32) < (b as u32)
}

/// Characters in strictly ascending code-point order; such a sequence also
/// holds no duplicate.
pub open spec fn strictly_sorted(s: Seq<char>) -> bool {
    forall|i: int, j: int| 0 <= i < j < s.len() ==> (s[i] as int) < (s[j] as int)
}

/// The index of the first occurrence of `c` in `s` (its length when absent).
pub open spec fn char_index(s: Seq<char>, c: char) -> int
    decreases s.len(),
{
    if s.len() == 0 {
        0
    } else if s[0] == c {
        0
    } else {
        1 + char_index(s.drop_first(), c)
    }
}

/// When `s` holds `c`, `char_index` points at its first occurrence.
pub proof fn lemma_char_index_spec(s: Seq<char>, c: char)
    requires
        s.contains(c),
    ensures
        0 <= char_index(s, c) < s.len(),
        s[char_index(s, c)] == c,
        forall|k: int| 0 <= k < char_index(s, c) ==> s[k] != c,
    decreases s.len(),
{
    if s.len() > 0 && s[0] != c {
        let i = choose|i: int| 0 <= i < s.len() && s[i] == c;
        assert(s.drop_first()[i - 1] == c);
        lemma_char_index_spec(s.drop_first(), c);
        assert forall|k: int| 0 <= k < char_index(s, c) implies s[k] != c by {
            if k > 0 {
                assert(s.drop_first()[k - 1] != c);
            }
        }
    }
}

/// In a duplicate-free sequence, `char_index` recovers the position any
/// occurrence sits at.
pub proof fn lemma_char_index_unique(s: Seq<char>, i: int)
    requires
        s.no_duplicates(),
        0 <= i < s.len(),
    ensures
        char_index(s, s[i]) == i,
{
    assert(s.contains(s[i]));
    lemma_char_index_spec(s, s[i]);
}

/// Where a fresh character lands in a sorted alphabet: the position of the
/// first character above it.
pub open spec fn insert_pos(s: Seq<char>, c: char) -> int
    decreases s.len(),
{
    if s.len() == 0 {
        0
    } else if (s[0] as int) > (c as int) {
        0
    } else {
        1 + insert_pos(s.drop_first(), c)
    }
}

/// In a sorted alphabet that lacks `c`, everything before `insert_pos` is
/// below `c` and everything from it on is above, so inserting there keeps
/// the order strict.
pub proof fn lemma_insert_pos_spec(s: Seq<char>, c: char)
    requires
        strictly_sorted(s),
        !s.contains(c),
    ensures
        0 <= insert_pos(s, c) <= s.len(),
        forall|k: int| 0 <= k < insert_pos(s, c) ==> (s[k] as int) < (c as int),
        forall|k: int| insert_pos(s, c) <= k < s.len() ==> (s[k] as int) > (c as int),
        strictly_sorted(s.insert(insert_pos(s, c), c)),
    decreases s.len(),
{
    if s.len() > 0 && !((s[0] as int) > (c as int)) {
        let t = s.drop_first();
        assert(strictly_sorted(t));
        assert forall|k: int| 0 <= k < t.len() implies t[k] != c by {
            if t[k] == c {
                assert(s[k + 1] == c);
            }
        }
        assert(!t.contains(c));
        lemma_insert_pos_spec(t, c);
        assert(s[0] != c);
        assert((s[0] as int) < (c as int));
        assert forall|k: int| 0 <= k < insert_pos(s, c) implies (s[k] as int) < (c as int) by {
            if k > 0 {
                assert(t[k - 1] == s[k]);
            }
        }
        assert forall|k: int| insert_pos(s, c) <= k < s.len() implies (s[k] as int) > (
        c as int) by {
            assert(t[k - 1] == s[k]);
        }
    }
    let p = insert_pos(s, c);
    let r = s.insert(p, c);
    s.insert_ensures(p, c);
    assert forall|i: int, j: int| 0 <= i < j < r.len() implies (r[i] as int) < (r[j] as int) by {
        if i < p && j == p {
        } else if i == p && j > p {
        } else if i < p && j > p {
            assert((s[i] as int) < (c as int) && (c as int) < (s[j - 1] as int));
        }
    }
}

/// Inserting a fresh character keeps every old first-occurrence index in
/// step: indices below the insertion point stay, the rest shift up by one.
pub(crate) proof fn lemma_char_index_insert(s: Seq<char>, p: int, c: char, d: char)
    requires
        s.no_duplicates(),
        0 <= p <= s.len(),
        !s.contains(c),
        s.contains(d),
    ensures
        s.insert(p, c).contains(d),
        char_index(s.insert(p, c), d) == if char_index(s, d) < p {
            char_index(s, d)
        } else {
            char_index(s, d) + 1
        },
{
    let r = s.insert(p, c);
    s.insert_ensures(p, c);
    lemma_char_index_spec(s, d);
    let i = char_index(s, d);
    assert(r.no_duplicates());
    if i < p {
        assert(r[i] == d);
        lemma_char_index_unique(r, i);
    } else {
        assert(r[i + 1] == d);
        lemma_char_index_unique(r, i + 1);
    }
}

/// Removing one character keeps every other first-occurrence index in step:
/// indices below the removed one stay, the rest shift down by one.
pub(crate) proof fn lemma_char_index_remove(s: Seq<char>, p: int, d: char)
    requires
        s.no_duplicates(),
        0 <= p < s.len(),
        s.contains(d),
        s[p] != d,
    ensures
        s.remove(p).contains(d),
        s.remove(p).no_duplicates(),
        char_index(s.remove(p), d) == if char_index(s, d) < p {
            char_index(s, d)
        } else {
            char_index(s, d) - 1
        },
{
    let r = s.remove(p);
    s.remove_ensures(p);
    lemma_char_index_spec(s, d);
    let i = char_index(s, d);
    assert forall|x: int, y: int| 0 <= x < y < r.len() implies r[x] != r[y] by {
        let sx: int = if x < p {
            x
        } else {
            x + 1
        };
        let sy: int = if y < p {
            y
        } else {
            y + 1
        };
        assert(r[x] == s[sx] && r[y] == s[sy]);
    }
    if i < p {
        assert(r[i] == d);
        lemma_char_index_unique(r, i);
    } else {
        assert(i > p);
        assert(r[i - 1] == d);
        lemma_char_index_unique(r, i - 1);
    }
}

/// Strict order leaves no room for a repeated character.
pub proof fn lemma_strictly_sorted_no_dup(s: Seq<char>)
    requires
        strictly_sorted(s),
    ensures
        s.no_duplicates(),
{
    assert forall|i: int, j: int| 0 <= i < s.len() && 0 <= j < s.len() && i != j implies s[i]
        != s[j] by {
        if i < j {
            assert((s[i] as int) < (s[j] as int));
        } else {
            assert((s[j] as int) < (s[i] as int));
        }
    }
}

/// Two duplicate-free sequences over the same characters have the same
/// length.
pub(crate) proof fn lemma_same_members_same_len(a: Seq<char>, b: Seq<char>)
    requires
        a.no_duplicates(),
        b.no_duplicates(),
        forall|c: char| a.contains(c) <==> b.contains(c),
    ensures
        a.len() == b.len(),
{
    assert(a.to_set() =~= b.to_set());
    a.unique_seq_to_set();
    b.unique_seq_to_set();
}

/// Find the first occurrence of `c` in `v`.
pub(crate) fn position_of(v: &Vec<char>, c: char) -> (r: Option<usize>)
    ensures
        match r {
            Some(i) => v@.contains(c) && i as int == char_index(v@, c),
            None => !v@.contains(c),
        },
{
    let mut i: usize = 0;
    while i < v.len()
        invariant
            0 <= i <= v@.len(),
            forall|k: int| 0 <= k < i ==> v@[k] != c,
        decreases v@.len() - i,
    {
        if v[i] == c {
            proof {
                assert(v@[i as int] == c);
                lemma_char_index_first(v@, c, i as int);
            }
            return Some(i);
        }
        i += 1;
    }
    None
}

/// The index of any occurrence that nothing precedes is the first-occurrence
/// index.
pub(crate) proof fn lemma_char_index_first(s: Seq<char>, c: char, i: int)
    requires
        0 <= i < s.len(),
        s[i] == c,
        forall|k: int| 0 <= k < i ==> s[k] != c,
    ensures
        char_index(s, c) == i,
    decreases s.len(),
{
    if s[0] != c {
        assert(s.drop_first()[i - 1] == c);
        assert forall|k: int| 0 <= k < i - 1 implies s.drop_first()[k] != c by {
            assert(s[k + 1] != c);
        }
        lemma_char_index_first(s.drop_first(), c, i - 1);
    }
}

/// Find where a fresh character belongs in the sorted alphabet `v`: the
/// position of the first character above it.
pub(crate) fn insertion_position(v: &Vec<char>, c: char) -> (r: usize)
    ensures
        r as int == insert_pos(v@, c),
{
    let mut i: usize = 0;
    while i < v.len()
        invariant
            0 <= i <= v@.len(),
            forall|k: int| 0 <= k < i ==> !((v@[k] as int) > (c as int)),
        decreases v@.len() - i,
    {
        let vi = v[i];
        if char_lt(c, vi) {
            proof {
                lemma_insert_pos_first(v@, c, i as int);
            }
            return i;
        }
        i += 1;
    }
    proof {
        lemma_insert_pos_all(v@, c);
    }
    v.len()
}

/// An index whose character is the first above `c` is the insertion point.
pub(crate) proof fn lemma_insert_pos_first(s: Seq<char>, c: char, i: int)
    requires
        0 <= i < s.len(),
        (s[i] as int) > (c as int),
        forall|k: int| 0 <= k < i ==> !((s[k] as int) > (c as int)),
    ensures
        insert_pos(s, c) == i,
    decreases s.len(),
{
    if !((s[0] as int) > (c as int)) {
        assert(s.drop_first()[i - 1] == s[i]);
        assert forall|k: int| 0 <= k < i - 1 implies !((s.drop_first()[k] as int) > (
        c as int)) by {
            assert(s.drop_first()[k] == s[k + 1]);
        }
        lemma_insert_pos_first(s.drop_first(), c, i - 1);
    }
}

/// When no character lies above `c`, the insertion point is the end.
pub(crate) proof fn lemma_insert_pos_all(s: Seq<char>, c: char)
    requires
        forall|k: int| 0 <= k < s.len() ==> !((s[k] as int) > (c as int)),
    ensures
        insert_pos(s, c) == s.len(),
    decreases s.len(),
{
    if s.len() > 0 {
        assert forall|k: int| 0 <= k < s.drop_first().len() implies !((s.drop_first()[k] as int)
            > (c as int)) by {
            assert(s.drop_first()[k] == s[k + 1]);
        }
        lemma_insert_pos_all(s.drop_first(), c);
    }
}

/// Decide whether `v` holds `c`.
pub(crate) fn contains_char(v: &Vec<char>, c: char) -> (b: bool)
    ensures
        b == v@.contains(c),
{
    let mut i: usize = 0;
    while i < v.len()
        invariant
            0 <= i <= v@.len(),
            forall|k: int| 0 <= k < i ==> v@[k] != c,
        decreases v@.len() - i,
    {
        if v[i] == c {
            return true;
        }
        i += 1;
    }
    false
}

/// Filter a typed alphabet down to its unique non-whitespace characters,
/// first occurrences kept in their order.
pub(crate) fn filter_characters(s: &Vec<char>) -> (r: Vec<char>)
    ensures
        r@ == filter_chars(s@),
{
    let mut r: Vec<char> = Vec::new();
    let mut i: usize = 0;
    while i < s.len()
        invariant
            0 <= i <= s@.len(),
            r@ == filter_chars(s@.subrange(0, i as int)),
        decreases s@.len() - i,
    {
        let c = s[i];
        proof {
            assert(s@.subrange(0, i + 1).drop_last() =~= s@.subrange(0, i as int));
            assert(s@.subrange(0, i + 1).last() == s@[i as int]);
        }
        if !is_whitespace_char(c) && !contains_char(&r, c) {
            r.push(c);
        }
        i += 1;
    }
    proof {
        assert(s@.subrange(0, s@.len() as int) =~= s@);
    }
    r
}

} // verus!

