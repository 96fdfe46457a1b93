//! Character-level helpers: conversion between strings and character
//! vectors, searching, and decimal numbers.
use vstd::prelude::*;
use vstd::std_specs::iter::IteratorSpec;

verus! {

/// Whether `c` is an ASCII decimal digit.
pub open spec fn is_digit(c: char) -> bool {
    '0' <= c && c <= '9'
}

/// Whether `s` is a non-empty run of ASCII decimal digits.
pub open spec fn all_digits(s: Seq<char>) -> bool {
    s.len() > 0 && forall|i: int| 0 <= i < s.len() ==> is_digit(#[trigger] s[i])
}

/// The value of one decimal digit character.
pub open spec fn digit_value(c: char) -> nat {
    (c as u32 - '0' as u32) as nat
}

/// The value of a run of decimal digits, most significant first.
pub open spec fn digits_value(s: Seq<char>) -> nat
    decreases s.len(),
{
    if s.len() == 0 {
        0
    } else {
        digits_value(s.drop_last()) * 10 + digit_value(s.last())
    }
}

/// The character of a digit value below ten.
pub open spec fn digit_char(d: nat) -> char {
    if d == 0 { '0' }
    else if d == 1 { '1' }
    else if d == 2 { '2' }
    else if d == 3 { '3' }
    else if d == 4 { '4' }
    else if d == 5 { '5' }
    else if d == 6 { '6' }
    else if d == 7 { '7' }
    else if d == 8 { '8' }
    else { '9' }
}

/// The shortest decimal representation of `n`.
pub open spec fn decimal(n: nat) -> Seq<char>
    decreases n,
{
    if n < 10 {
        seq![digit_char(n)]
    } else {
        decimal(n / 10).push(digit_char(n % 10))
    }
}

/// A decimal number that fits in a `u64`, or `None`.
pub open spec fn decode_u64(s: Seq<char>) -> Option<u64> {
    if all_digits(s) && digits_value(s) <= u64::MAX {
        Some(digits_value(s) as u64)
    } else {
        None
    }
}

pub proof fn lemma_digit_char(d: nat)
    requires
        d < 10,
    ensures
        is_digit(digit_char(d)),
        digit_value(digit_char(d)) == d,
{
}

/// The decimal representation reads back as the number it was made from.
pub proof fn lemma_decimal(n: nat)
    ensures
        all_digits(decimal(n)),
        digits_value(decimal(n)) == n,
    decreases n,
{
    if n < 10 {
        lemma_digit_char(n);
        assert(decimal(n).drop_last() =~= Seq::<char>::empty());
        assert(digits_value(decimal(n)) == digits_value(Seq::<char>::empty()) * 10 + n);
    } else {
        lemma_decimal(n / 10);
        lemma_digit_char(n % 10);
        let s = decimal(n);
        assert(s.drop_last() =~= decimal(n / 10));
        assert forall|i: int| 0 <= i < s.len() implies is_digit(#[trigger] s[i]) by {
            if i < s.len() - 1 {
                assert(s[i] == decimal(n / 10)[i]);
            }
        }
        assert(digits_value(s) == digits_value(decimal(n / 10)) * 10 + n % 10);
        assert(n == (n / 10) * 10 + n % 10) by (nonlinear_arith);
    }
}

/// Extending a run of digits never lowers its value.
pub proof fn lemma_digits_value_prefix(s: Seq<char>, k: int)
    requires
        0 <= k <= s.len(),
    ensures
        digits_value(s.subrange(0, k)) <= digits_value(s),
    decreases s.len(),
{
    if k < s.len() {
        lemma_digits_value_prefix(s.drop_last(), k);
        assert(s.drop_last().subrange(0, k) =~= s.subrange(0, k));
    } else {
        assert(s.subrange(0, k) =~= s);
    }
}

/// In `a`, then `c`, then `b` free of `c`, the last `c` is the one between.
pub proof fn lemma_last_index_between(a: Seq<char>, c: char, b: Seq<char>)
    requires
        !b.contains(c),
    ensures
        (a.push(c) + b).index_of_last(c) == Some(a.len() as int),
{
    let s = a.push(c) + b;
    s.index_of_last_ensures(c);
    assert(s[a.len() as int] == c);
    match s.index_of_last(c) {
        Some(k) => {
            if k > a.len() {
                assert(b[k - a.len() - 1] == c);
            }
        },
        None => {},
    }
}

/// In `a` free of `c`, then `c`, then `b`, the first `c` is the one between.
pub proof fn lemma_first_index_between(a: Seq<char>, c: char, b: Seq<char>)
    requires
        !a.contains(c),
    ensures
        (a.push(c) + b).index_of_first(c) == Some(a.len() as int),
{
    let s = a.push(c) + b;
    s.index_of_first_ensures(c);
    assert(s[a.len() as int] == c);
    match s.index_of_first(c) {
        Some(k) => {
            if k < a.len() {
                assert(a[k] == c);
            }
        },
        None => {},
    }
}

/// A run of digits holds no character but digits.
pub proof fn lemma_digits_exclude(s: Seq<char>, c: char)
    requires
        all_digits(s),
        !is_digit(c),
    ensures
        !s.contains(c),
{
    if s.contains(c) {
        let i = choose|i: int| 0 <= i < s.len() && s[i] == c;
        assert(is_digit(s[i]));
    }
}

/// Relies on `String::push`, which appends one character.
#[verifier::external_body]
pub fn push_char(s: &mut String, c: char)
    ensures
        final(s)@ == old(s)@.push(c),
{
    s.push(c);
}

/// The characters of `s`, in order.
pub fn chars_of(s: &str) -> (r: Vec<char>)
    ensures
        r@ == s@,
{
    let mut r: Vec<char> = Vec::new();
    let mut it = s.chars();
    loop
        invariant
            r@ + it.remaining() == s@,
            it.obeys_prophetic_iter_laws(),
            it.decrease() is Some,
        decreases it.decrease()->0,
    {
        match it.next() {
            Some(c) => {
                r.push(c);
            },
            None => {
                assert(r@ + it.remaining() =~= r@);
                return r;
            },
        }
    }
}

/// The position of the last `c` among the first `hi` characters of `cs`.
pub fn rfind(cs: &Vec<char>, hi: usize, c: char) -> (r: Option<usize>)
    requires
        hi <= cs.len(),
    ensures
        match r {
            Some(i) => i < hi && cs@.subrange(0, hi as int).index_of_last(c) == Some(i as int),
            None => cs@.subrange(0, hi as int).index_of_last(c) is None,
        },
{
    let ghost s = cs@.subrange(0, hi as int);
    proof {
        s.index_of_last_ensures(c);
    }
    let mut k: usize = hi;
    while k > 0
        invariant
            k <= hi <= cs.len(),
            s == cs@.subrange(0, hi as int),
            forall|j: int| k <= j < hi ==> s[j] != c,
        decreases k,
    {
        if cs[k - 1] == c {
            proof {
                s.index_of_last_ensures(c);
                assert(s[k - 1] == c);
                match s.index_of_last(c) {
                    Some(m) => {
                        assert(m == k - 1);
                    },
                    None => {
                        assert(s.contains(c));
                    },
                }
            }
            return Some(k - 1);
        }
        k = k - 1;
    }
    proof {
        match s.index_of_last(c) {
            Some(m) => {
                assert(s[m] == c);
            },
            None => {},
        }
    }
    None
}

/// The position of the first `c` among the characters `lo..hi` of `cs`,
/// counted from `lo`.
pub fn find(cs: &Vec<char>, lo: usize, hi: usize, c: char) -> (r: Option<usize>)
    requires
        lo <= hi <= cs.len(),
    ensures
        match r {
            Some(i) => lo + i < hi && cs@.subrange(lo as int, hi as int).index_of_first(c) == Some(
                i as int,
            ),
            None => cs@.subrange(lo as int, hi as int).index_of_first(c) is None,
        },
{
    let ghost s = cs@.subrange(lo as int, hi as int);
    proof {
        s.index_of_first_ensures(c);
    }
    let mut k: usize = lo;
    while k < hi
        invariant
            lo <= k <= hi <= cs.len(),
            s == cs@.subrange(lo as int, hi as int),
            forall|j: int| 0 <= j < k - lo ==> s[j] != c,
        decreases hi - k,
    {
        if cs[k] == c {
            proof {
                s.index_of_first_ensures(c);
                assert(s[k - lo] == c);
                match s.index_of_first(c) {
                    Some(m) => {
                        assert(m == k - lo);
                    },
                    None => {
                        assert(s.contains(c));
                    },
                }
            }
            return Some(k - lo);
        }
        k = k + 1;
    }
    proof {
        match s.index_of_first(c) {
            Some(m) => {
                assert(s[m] == c);
            },
            None => {},
        }
    }
    None
}

/// Whether the first `hi` characters of `cs` end with `suffix`.
pub fn ends_with(cs: &Vec<char>, hi: usize, suffix: &Vec<char>) -> (r: bool)
    requires
        hi <= cs.len(),
    ensures
        r == has_suffix(cs@.subrange(0, hi as int), suffix@),
{
    let ghost s = cs@.subrange(0, hi as int);
    if suffix.len() > hi {
        return false;
    }
    let start: usize = hi - suffix.len();
    let mut k: usize = 0;
    while k < suffix.len()
        invariant
            start + suffix.len() == hi <= cs.len(),
            k <= suffix.len(),
            s == cs@.subrange(0, hi as int),
            forall|j: int| 0 <= j < k ==> cs@[start + j] == suffix@[j],
        decreases suffix.len() - k,
    {
        if cs[start + k] != suffix[k] {
            assert(s.subrange(start as int, hi as int)[k as int] != suffix@[k as int]);
            return false;
        }
        k = k + 1;
    }
    assert(s.subrange(start as int, hi as int) =~= suffix@);
    true
}

/// Whether `s` ends with `suffix`.
pub open spec fn has_suffix(s: Seq<char>, suffix: Seq<char>) -> bool {
    suffix.len() <= s.len() && s.subrange(s.len() - suffix.len(), s.len() as int) == suffix
}

/// A new string holding the characters `lo..hi` of `cs`.
pub fn string_of(cs: &Vec<char>, lo: usize, hi: usize) -> (r: String)
    requires
        lo <= hi <= cs.len(),
    ensures
        r@ == cs@.subrange(lo as int, hi as int),
{
    let mut r = String::new();
    let mut k: usize = lo;
    while k < hi
        invariant
            lo <= k <= hi <= cs.len(),
            r@ == cs@.subrange(lo as int, k as int),
        decreases hi - k,
    {
        push_char(&mut r, cs[k]);
        assert(cs@.subrange(lo as int, k + 1) =~= cs@.subrange(lo as int, k as int).push(cs@[k as int]));
        k = k + 1;
    }
    r
}

/// The number written in decimal by the characters `lo..hi` of `cs`, if
/// they are all digits and the value fits in a `u64`.
pub fn read_u64(cs: &Vec<char>, lo: usize, hi: usize) -> (r: Option<u64>)
    requires
        lo <= hi <= cs.len(),
    ensures
        r == decode_u64(cs@.subrange(lo as int, hi as int)),
{
    let ghost s = cs@.subrange(lo as int, hi as int);
    if lo == hi {
        return None;
    }
    let mut acc: u64 = 0;
    let mut k: usize = lo;
    while k < hi
        invariant
            lo <= k <= hi <= cs.len(),
            s == cs@.subrange(lo as int, hi as int),
            forall|j: int| 0 <= j < k - lo ==> is_digit(#[trigger] s[j]),
            acc == digits_value(s.subrange(0, k - lo)),
        decreases hi - k,
    {
        let c = cs[k];
        if !('0' <= c && c <= '9') {
            assert(!is_digit(s[k - lo]));
            return None;
        }
        let d: u64 = (c as u32 - '0' as u32) as u64;
        let ghost prefix = s.subrange(0, k - lo + 1);
        assert(prefix.drop_last() =~= s.subrange(0, k - lo));
        assert(digits_value(prefix) == acc * 10 + d);
        if acc > (u64::MAX - d) / 10 {
            proof {
                assert(acc * 10 + d > u64::MAX) by (nonlinear_arith)
                    requires
                        acc > (u64::MAX - d) / 10,
                        d <= 9,
                ;
                lemma_digits_value_prefix(s, k - lo + 1);
            }
            return None;
        }
        assert(acc * 10 + d <= u64::MAX) by (nonlinear_arith)
            requires
                acc <= (u64::MAX - d) / 10,
                d <= 9,
        ;
        acc = acc * 10 + d;
        k = k + 1;
    }
    assert(s.subrange(0, hi - lo) =~= s);
    Some(acc)
}

/// The character of a digit value below ten.
pub fn digit_to_char(d: u64) -> (r: char)
    requires
        d < 10,
    ensures
        r == digit_char(d as nat),
{
    if d == 0 { '0' }
    else if d == 1 { '1' }
    else if d == 2 { '2' }
    else if d == 3 { '3' }
    else if d == 4 { '4' }
    else if d == 5 { '5' }
    else if d == 6 { '6' }
    else if d == 7 { '7' }
    else if d == 8 { '8' }
    else { '9' }
}

/// Appends the decimal representation of `n` to `out`.
pub fn push_decimal(out: &mut String, n: u64)
    ensures
        final(out)@ == old(out)@ + decimal(n as nat),
    decreases n,
{
    if n >= 10 {
        push_decimal(out, n / 10);
    }
    push_char(out, digit_to_char(n % 10));
    assert(out@ =~= old(out)@ + decimal(n as nat));
}

/// Whether the characters `lo..hi` of `cs` are exactly `word`.
pub fn equals_at(cs: &Vec<char>, lo: usize, hi: usize, word: &Vec<char>) -> (r: bool)
    requires
        lo <= hi <= cs.len(),
    ensures
        r == (cs@.subrange(lo as int, hi as int) == word@),
{
    if hi - lo != word.len() {
        return false;
    }
    let mut k: usize = 0;
    while k < word.len()
        invariant
            lo + word.len() == hi <= cs.len(),
            k <= word.len(),
            forall|j: int| 0 <= j < k ==> cs@[lo + j] == word@[j],
        decreases word.len() - k,
    {
        if cs[lo + k] != word[k] {
            assert(cs@.subrange(lo as int, hi as int)[k as int] != word@[k as int]);
            return false;
        }
        k = k + 1;
    }
    assert(cs@.subrange(lo as int, hi as int) =~= word@);
    true
}

/// Appends every character of `cs` to `out`.
pub fn push_all(out: &mut String, cs: &Vec<char>)
    ensures
        final(out)@ == old(out)@ + cs@,
{
    let mut k: usize = 0;
    while k < cs.len()
        invariant
            k <= cs.len(),
            out@ == old(out)@ + cs@.subrange(0, k as int),
        decreases cs.len() - k,
    {
        push_char(out, cs[k]);
        assert(cs@.subrange(0, k + 1) =~= cs@.subrange(0, k as int).push(cs@[k as int]));
        k = k + 1;
    }
    assert(cs@.subrange(0, cs.len() as int) =~= cs@);
}

} // verus!
