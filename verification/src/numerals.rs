//! Decimal numerals for the persistence format: rendering a number as
//! digits (padded to two) and reading digits back, with the round trip
//! proved.

use vstd::prelude::*;

verus! {

/// Whether `c` is a decimal digit.
pub open spec fn is_digit(c: char) -> bool {
    '0' <= c && c <= '9'
}

/// The value of a decimal digit.
pub open spec fn digit_val(c: char) -> int {
    c as int - '0' as int
}

/// The digit character of a value below ten.
pub open spec fn digit_char(d: int) -> char {
    if d == 0 {
        '0'
    } else if d == 1 {
        '1'
    } else if d == 2 {
        '2'
    } else if d == 3 {
        '3'
    } else if d == 4 {
        '4'
    } else if d == 5 {
        '5'
    } else if d == 6 {
        '6'
    } else if d == 7 {
        '7'
    } else if d == 8 {
        '8'
    } else {
        '9'
    }
}

/// The decimal digits of a non-negative number, most significant first.
pub open spec fn digits_of(n: int) -> Seq<char>
    decreases n,
{
    if n < 10 {
        seq![digit_char(if n < 0 { 0 } else { n })]
    } else {
        digits_of(n / 10).push(digit_char(n % 10))
    }
}

/// The digits of a number, padded with a zero to at least two columns.
pub open spec fn padded2(n: int) -> Seq<char> {
    if n < 10 {
        seq!['0'].push(digit_char(if n < 0 { 0 } else { n }))
    } else {
        digits_of(n)
    }
}

/// The number a digit string denotes.
pub open spec fn val_of(s: Seq<char>) -> int
    decreases s.len(),
{
    if s.len() == 0 {
        0
    } else {
        val_of(s.drop_last()) * 10 + digit_val(s.last())
    }
}

/// Whether every character of `s` is a digit.
pub open spec fn all_digits(s: Seq<char>) -> bool {
    forall|i: int| 0 <= i < s.len() ==> is_digit(#[trigger] s[i])
}

/// Rendering a number and reading it back gives the number; the rendering
/// is a non-empty digit string.
pub proof fn lemma_digits_round_trip(n: int)
    requires
        n >= 0,
    ensures
        digits_of(n).len() >= 1,
        all_digits(digits_of(n)),
        val_of(digits_of(n)) == n,
    decreases n,
{
    if n < 10 {
        assert(digits_of(n) =~= seq![digit_char(n)]);
        assert(digits_of(n).drop_last() =~= Seq::<char>::empty());
        assert(val_of(Seq::<char>::empty()) == 0);
        assert(digit_val(digit_char(n)) == n);
        assert(val_of(digits_of(n)) == n);
    } else {
        lemma_digits_round_trip(n / 10);
        let d = digits_of(n);
        assert(d.drop_last() =~= digits_of(n / 10));
        assert(d.last() == digit_char(n % 10));
        assert(digit_val(digit_char(n % 10)) == n % 10);
        assert forall|i: int| 0 <= i < d.len() implies is_digit(#[trigger] d[i]) by {
            if i < d.len() - 1 {
                assert(d[i] == digits_of(n / 10)[i]);
            }
        }
        assert(val_of(digits_of(n)) == n);
    }
}

/// The same round trip through the two-column padded form.
pub proof fn lemma_padded2_round_trip(n: int)
    requires
        n >= 0,
    ensures
        padded2(n).len() >= 2,
        all_digits(padded2(n)),
        val_of(padded2(n)) == n,
{
    lemma_digits_round_trip(n);
    if n < 10 {
        let p = padded2(n);
        assert(p =~= seq!['0', digit_char(n)]);
        assert(p.drop_last() =~= seq!['0']);
        assert(p.drop_last().drop_last() =~= Seq::<char>::empty());
        assert(val_of(Seq::<char>::empty()) == 0);
        assert(val_of(seq!['0']) == 0) by {
            assert(seq!['0'].drop_last() =~= Seq::<char>::empty());
            assert(val_of(Seq::<char>::empty()) == 0);
        }
        assert(digit_val('0') == 0);
        assert(digit_val(digit_char(n)) == n);
        assert(val_of(digits_of(n)) == n);
    } else {
        assert(digits_of(n).len() >= 2) by {
            assert(digits_of(n).len() == digits_of(n / 10).len() + 1);
            lemma_digits_round_trip(n / 10);
        }
    }
}

/// A digit string denotes at least the value of any of its prefixes.
pub(crate) proof fn lemma_val_of_prefix(s: Seq<char>, k: int)
    requires
        all_digits(s),
        0 <= k <= s.len(),
    ensures
        0 <= val_of(s.subrange(0, k)) <= val_of(s),
        val_of(s) >= 0,
    decreases s.len() - k,
{
    if k == s.len() {
        assert(s.subrange(0, k) =~= s);
        lemma_val_of_nonneg(s);
    } else {
        lemma_val_of_prefix(s, k + 1);
        let p = s.subrange(0, k + 1);
        assert(p.drop_last() =~= s.subrange(0, k));
        assert(is_digit(s[k]));
        assert(val_of(p) == val_of(s.subrange(0, k)) * 10 + digit_val(s[k]));
        lemma_val_of_nonneg(s.subrange(0, k));
    }
}

/// A digit string denotes a non-negative number.
pub(crate) proof fn lemma_val_of_nonneg(s: Seq<char>)
    requires
        all_digits(s),
    ensures
        val_of(s) >= 0,
    decreases s.len(),
{
    if s.len() > 0 {
        assert(all_digits(s.drop_last())) by {
            assert(forall|i: int|
                0 <= i < s.len() - 1 ==> s.drop_last()[i] == #[trigger] s[i] && is_digit(s[i]));
        }
        lemma_val_of_nonneg(s.drop_last());
        assert(is_digit(s.last()));
    }
}

/// Read a digit character's value; refuse anything else.
fn digit_of(c: char) -> (r: Option<u8>)
    ensures
        is_digit(c) ==> r == Some(digit_val(c) as u8),
        !is_digit(c) ==> r is None,
{
    let n = c as u32;
    if 0x30 <= n && n <= 0x39 {
        Some((n - 0x30) as u8)
    } else {
        None
    }
}

/// The digit character of a value below ten.
fn char_of_digit(d: u8) -> (r: char)
    requires
        d < 10,
    ensures
        r == digit_char(d as int),
{
    match d {
        0 => '0',
        1 => '1',
        2 => '2',
        3 => '3',
        4 => '4',
        5 => '5',
        6 => '6',
        7 => '7',
        8 => '8',
        _ => '9',
    }
}

/// Parse a whole token as a decimal number: it succeeds exactly on
/// non-empty all-digit tokens whose value fits the machine word.
pub(crate) fn parse_usize_chars(tok: &Vec<char>) -> (r: Option<usize>)
    ensures
        r is Some <==> tok@.len() > 0 && all_digits(tok@) && val_of(tok@) <= usize::MAX,
        r is Some ==> r == Some(val_of(tok@) as usize),
{
    if tok.len() == 0 {
        return None;
    }
    let mut acc: usize = 0;
    let mut i: usize = 0;
    while i < tok.len()
        invariant
            0 < tok@.len(),
            0 <= i <= tok@.len(),
            all_digits(tok@.subrange(0, i as int)),
            acc as int == val_of(tok@.subrange(0, i as int)),
        decreases tok@.len() - i,
    {
        let c = tok[i];
        proof {
            assert(tok@.subrange(0, i + 1).drop_last() =~= tok@.subrange(0, i as int));
            assert(tok@.subrange(0, i + 1).last() == tok@[i as int]);
        }
        match digit_of(c) {
            None => {
                proof {
                    assert(!is_digit(tok@[i as int]));
                }
                return None;
            },
            Some(d) => {
                if acc > (usize::MAX - d as usize) / 10 {
                    proof {
                        let p = tok@.subrange(0, i + 1);
                        assert(all_digits(p));
                        assert(val_of(p) == acc as int * 10 + d as int);
                        assert(val_of(p) > usize::MAX as int);
                        if all_digits(tok@) && val_of(tok@) <= usize::MAX {
                            lemma_val_of_prefix(tok@, i + 1);
                        }
                    }
                    return None;
                }
                acc = acc * 10 + d as usize;
            },
        }
        i += 1;
    }
    proof {
        assert(tok@.subrange(0, tok@.len() as int) =~= tok@);
    }
    Some(acc)
}

/// Render a number as decimal digits padded to at least two columns.
pub(crate) fn format_padded2(n: usize) -> (r: Vec<char>)
    ensures
        r@ == padded2(n as int),
{
    if n < 10 {
        let mut r: Vec<char> = Vec::new();
        r.push('0');
        r.push(char_of_digit(n as u8));
        proof {
            assert(r@ =~= padded2(n as int));
        }
        r
    } else {
        let mut rev: Vec<char> = Vec::new();
        let mut m: usize = n;
        while m > 0
            invariant
                m >= 0,
                m > 0 ==> digits_of(n as int) =~= digits_of(m as int) + rev@.reverse(),
                m == 0 ==> digits_of(n as int) =~= rev@.reverse(),
            decreases m,
        {
            let ghost prev = rev@;
            let ghost pm = m as int;
            rev.push(char_of_digit((m % 10) as u8));
            m = m / 10;
            proof {
                assert(rev@ == prev.push(digit_char(pm % 10)));
                lemma_reverse_push(prev, digit_char(pm % 10));
                if pm < 10 {
                    assert(digits_of(pm) =~= seq![digit_char(pm)]);
                    assert(pm % 10 == pm);
                    assert(digits_of(n as int) =~= rev@.reverse());
                } else {
                    assert(digits_of(pm) =~= digits_of(pm / 10).push(digit_char(pm % 10)));
                    assert(digits_of(pm) + prev.reverse() =~= digits_of(pm / 10) + (seq![
                        digit_char(pm % 10)
                    ] + prev.reverse()));
                    assert(digits_of(n as int) =~= digits_of(m as int) + rev@.reverse());
                }
            }
        }
        let mut r: Vec<char> = Vec::new();
        let mut i: usize = rev.len();
        while i > 0
            invariant
                0 <= i <= rev@.len(),
                r@.len() == rev@.len() - i,
                forall|k: int| 0 <= k < r@.len() ==> r@[k] == rev@[rev@.len() - 1 - k],
            decreases i,
        {
            i -= 1;
            r.push(rev[i]);
        }
        proof {
            assert(r@ =~= rev@.reverse());
            assert(r@ =~= padded2(n as int));
        }
        r
    }
}

/// Reversing after a push puts the new element first.
pub(crate) proof fn lemma_reverse_push(s: Seq<char>, x: char)
    ensures
        s.push(x).reverse() =~= seq![x] + s.reverse(),
{
    let a = s.push(x).reverse();
    let b = seq![x] + s.reverse();
    assert(a.len() == b.len());
    assert forall|i: int| 0 <= i < a.len() implies a[i] == b[i] by {
        assert(a[i] == s.push(x)[s.len() - i]);
        if i == 0 {
            assert(a[0] == x);
        } else {
            assert(s.push(x)[s.len() - i] == s[s.len() - i]);
            assert(b[i] == s.reverse()[i - 1]);
            assert(s.reverse()[i - 1] == s[s.len() - i]);
        }
    }
}

} // verus!
