//! Character classes, decimal digit strings, and first-occurrence search:
//! the ground layer that the version grammar and the line patcher build on.

use vstd::prelude::*;

verus! {

/// Decimal digit.
pub open spec fn is_digit(c: char) -> bool {
    '0' as int <= c as int && c as int <= '9' as int
}

/// Character allowed inside a prerelease or build identifier:
/// ASCII letter, digit, or hyphen.
pub open spec fn is_ident_char(c: char) -> bool {
    ||| is_digit(c)
    ||| 'a' as int <= c as int && c as int <= 'z' as int
    ||| 'A' as int <= c as int && c as int <= 'Z' as int
    ||| c == '-'
}

/// Every character of `s` is a decimal digit.
pub open spec fn all_digits(s: Seq<char>) -> bool {
    forall|i: int| 0 <= i < s.len() ==> is_digit(s[i])
}

/// Numeric value of a digit character.
pub open spec fn char_val(c: char) -> int {
    c as int - '0' as int
}

/// The digit character for `d` in `0..10` (and `'0'` outside that range).
pub open spec fn digit_char(d: int) -> char {
    if d == 1 {
        '1'
    } else if d == 2 {
        '2'
    } else if d == 3 {
        '3'
    } else if d == 4 {
        '4'
    } else if d == 5 {
        '5'
    } else if d == 6 {
        '6'
    } else if d == 7 {
        '7'
    } else if d == 8 {
        '8'
    } else if d == 9 {
        '9'
    } else {
        '0'
    }
}

/// Value of a string of decimal digits, most significant first.
pub open spec fn str_val(s: Seq<char>) -> int
    decreases s.len(),
{
    if s.len() == 0 {
        0
    } else {
        10 * str_val(s.drop_last()) + char_val(s.last())
    }
}

/// Canonical decimal representation of `n` (no leading zero; `"0"` for zero
/// and for any negative argument).
pub open spec fn dec_rep(n: int) -> Seq<char>
    decreases n,
{
    if n < 10 {
        seq![digit_char(n)]
    } else {
        dec_rep(n / 10).push(digit_char(n % 10))
    }
}

/// Index of the first occurrence of `c` in `s`, or -1 when `c` does not occur.
pub open spec fn find_char(s: Seq<char>, c: char) -> int
    decreases s.len(),
{
    if s.len() == 0 {
        -1
    } else if s[0] == c {
        0
    } else {
        let r = find_char(s.subrange(1, s.len() as int), c);
        if r == -1 {
            -1
        } else {
            r + 1
        }
    }
}

/// What `find_char` finds: a hit is in bounds, is `c`, and is the first.
pub proof fn lemma_find_char(s: Seq<char>, c: char)
    ensures
        find_char(s, c) == -1 ==> forall|i: int| 0 <= i < s.len() ==> s[i] != c,
        find_char(s, c) != -1 ==> 0 <= find_char(s, c) < s.len() && s[find_char(s, c)] == c,
        find_char(s, c) != -1 ==> forall|i: int| 0 <= i < find_char(s, c) ==> s[i] != c,
    decreases s.len(),
{
    if s.len() == 0 {
    } else if s[0] == c {
    } else {
        let rest = s.subrange(1, s.len() as int);
        lemma_find_char(rest, c);
        assert forall|i: int| 1 <= i < s.len() implies s[i] == rest[i - 1] by {}
    }
}

/// `find_char` returns exactly the index of the first hit.
pub proof fn lemma_find_char_is(s: Seq<char>, c: char, i: int)
    requires
        0 <= i < s.len(),
        s[i] == c,
        forall|j: int| 0 <= j < i ==> s[j] != c,
    ensures
        find_char(s, c) == i,
    decreases i,
{
    if i == 0 {
    } else {
        let rest = s.subrange(1, s.len() as int);
        assert(s[0] != c);
        assert(rest[i - 1] == c);
        assert forall|j: int| 0 <= j < i - 1 implies rest[j] != c by {
            assert(rest[j] == s[j + 1]);
        }
        lemma_find_char_is(rest, c, i - 1);
    }
}

/// `find_char` returns -1 when `c` occurs nowhere in `s`.
pub proof fn lemma_find_char_none(s: Seq<char>, c: char)
    requires
        forall|j: int| 0 <= j < s.len() ==> s[j] != c,
    ensures
        find_char(s, c) == -1,
    decreases s.len(),
{
    if s.len() == 0 {
    } else {
        let rest = s.subrange(1, s.len() as int);
        assert forall|j: int| 0 <= j < rest.len() implies rest[j] != c by {
            assert(rest[j] == s[j + 1]);
        }
        lemma_find_char_none(rest, c);
    }
}

/// `dec_rep` emits only digits, is never empty, and never has a leading zero.
pub proof fn lemma_dec_rep_canonical(n: int)
    ensures
        dec_rep(n).len() >= 1,
        all_digits(dec_rep(n)),
        n >= 1 ==> dec_rep(n)[0] != '0',
        n < 10 ==> dec_rep(n).len() == 1,
    decreases n,
{
    if n < 10 {
        assert(is_digit(digit_char(n)));
    } else {
        assert(n / 10 >= 1 && n / 10 < n) by (nonlinear_arith)
            requires
                n >= 10,
        ;
        assert(0 <= n % 10 < 10) by (nonlinear_arith)
            requires
                n >= 10,
        ;
        lemma_dec_rep_canonical(n / 10);
        let front = dec_rep(n / 10);
        let whole = front.push(digit_char(n % 10));
        assert(is_digit(digit_char(n % 10)));
        assert forall|i: int| 0 <= i < whole.len() implies is_digit(whole[i]) by {
            if i < front.len() {
                assert(whole[i] == front[i]);
            }
        }
        assert(whole[0] == front[0]);
    }
}

/// A digit string's value is non-negative, and at least one (or ten) when it
/// does not start with `'0'` (and has at least two digits).
pub proof fn lemma_str_val_bounds(s: Seq<char>)
    requires
        all_digits(s),
    ensures
        0 <= str_val(s),
        s.len() >= 1 && s[0] != '0' ==> str_val(s) >= 1,
        s.len() >= 2 && s[0] != '0' ==> str_val(s) >= 10,
    decreases s.len(),
{
    if s.len() == 0 {
    } else {
        let front = s.drop_last();
        assert(all_digits(front)) by {
            assert(forall|i: int| 0 <= i < front.len() ==> front[i] == s[i]);
        }
        lemma_str_val_bounds(front);
        assert(is_digit(s.last()));
        assert(0 <= char_val(s.last()) <= 9);
        if s.len() >= 2 && s[0] != '0' {
            assert(front[0] == s[0]);
        }
    }
}

/// The value of a prefix of a digit string never exceeds the whole string's value.
pub proof fn lemma_str_val_prefix(s: Seq<char>, k: int)
    requires
        all_digits(s),
        0 <= k <= s.len(),
    ensures
        str_val(s.subrange(0, k)) <= str_val(s),
    decreases s.len() - k,
{
    if k == s.len() {
        assert(s.subrange(0, k) =~= s);
    } else {
        lemma_str_val_prefix(s, k + 1);
        let longer = s.subrange(0, k + 1);
        assert(longer.drop_last() =~= s.subrange(0, k));
        assert(all_digits(longer.drop_last()));
        lemma_str_val_bounds(longer.drop_last());
        assert(is_digit(longer.last()));
    }
}

/// `str_val` inverts `dec_rep`: the canonical representation of `n` has value
/// `n`.
pub proof fn lemma_str_val_dec_rep(n: int)
    requires
        n >= 0,
    ensures
        str_val(dec_rep(n)) == n,
    decreases n,
{
    if n < 10 {
        let s = dec_rep(n);
        assert(s.len() == 1);
        assert(s.drop_last().len() == 0);
        assert(str_val(s.drop_last()) == 0);
        assert(char_val(digit_char(n)) == n);
    } else {
        assert(n / 10 >= 1 && n / 10 < n) by (nonlinear_arith)
            requires
                n >= 10,
        ;
        assert(0 <= n % 10 < 10) by (nonlinear_arith)
            requires
                n >= 10,
        ;
        lemma_str_val_dec_rep(n / 10);
        let s = dec_rep(n);
        assert(s == dec_rep(n / 10).push(digit_char(n % 10)));
        assert(s.drop_last() =~= dec_rep(n / 10));
        assert(s.last() == digit_char(n % 10));
        assert(char_val(digit_char(n % 10)) == n % 10);
        vstd::arithmetic::div_mod::lemma_fundamental_div_mod(n, 10);
    }
}

/// A canonical digit string is recovered from its own value: `dec_rep` inverts
/// `str_val` on non-empty all-digit strings without a leading zero.
pub proof fn lemma_dec_rep_str_val(s: Seq<char>)
    requires
        s.len() >= 1,
        all_digits(s),
        s.len() > 1 ==> s[0] != '0',
    ensures
        dec_rep(str_val(s)) == s,
    decreases s.len(),
{
    if s.len() == 1 {
        let c = s[0];
        assert(is_digit(c));
        assert(s.last() == c);
        assert(s.drop_last().len() == 0);
        assert(str_val(s.drop_last()) == 0);
        assert(str_val(s) == char_val(c));
        assert(digit_char(char_val(c)) == c);
        assert(dec_rep(str_val(s)) =~= s);
    } else {
        let front = s.drop_last();
        let d = char_val(s.last());
        assert(all_digits(front)) by {
            assert(forall|i: int| 0 <= i < front.len() ==> front[i] == s[i]);
        }
        assert(front[0] == s[0]);
        lemma_str_val_bounds(front);
        let f = str_val(front);
        assert(f >= 1);
        assert(is_digit(s.last()));
        assert(0 <= d <= 9);
        let n = str_val(s);
        assert(n == 10 * f + d);
        assert(n >= 10);
        vstd::arithmetic::div_mod::lemma_fundamental_div_mod_converse(n, 10, f, d);
        assert(n / 10 == f && n % 10 == d);
        lemma_dec_rep_str_val(front);
        assert(digit_char(d) == s.last());
        assert(dec_rep(n) == front.push(s.last()));
        assert(front.push(s.last()) =~= s);
    }
}

/// Exec search for the first occurrence of `c` among the characters of `s`.
pub fn find_char_str(s: &str, c: char) -> (r: Option<usize>)
    ensures
        match r {
            Some(i) => find_char(s@, c) == i as int,
            None => find_char(s@, c) == -1,
        },
{
    let n = s.unicode_len();
    let mut i: usize = 0;
    while i < n
        invariant
            n == s@.len(),
            0 <= i <= n,
            forall|j: int| 0 <= j < i ==> s@[j] != c,
        decreases n - i,
    {
        if s.get_char(i) == c {
            proof {
                lemma_find_char_is(s@, c, i as int);
            }
            return Some(i);
        }
        i = i + 1;
    }
    proof {
        lemma_find_char_none(s@, c);
    }
    None
}

} // verus!
