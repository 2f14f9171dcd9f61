//! Verified character-sequence utilities shared by the whole crate.
//!
//! Every contract in the crate speaks about `Seq<char>` views, so the
//! primitive transformations (case folding, searching, trimming, number
//! rendering and parsing) live here with exact specifications.

use vstd::prelude::*;

verus! {

/// ASCII lower-casing of one character; other characters are unchanged.
pub open spec fn lower_char(c: char) -> char {
    if 'A' <= c && c <= 'Z' {
        ((c as u32) + 32) as char
    } else {
        c
    }
}

/// ASCII lower-casing of a whole sequence.
pub open spec fn lower_chars(s: Seq<char>) -> Seq<char> {
    s.map_values(|c: char| lower_char(c))
}

/// Relies on String::push: appends exactly one character to the string.
#[verifier::external_body]
pub fn push_char(s: &mut String, c: char)
    ensures
        final(s)@ == old(s)@.push(c),
{
    s.push(c);
}

/// Lower-cases the ASCII letters of a string, leaving all other
/// characters as they are.
pub fn ascii_lowercase(s: &str) -> (r: String)
    ensures
        r@ == lower_chars(s@),
{
    let n = s.unicode_len();
    let mut r = String::new();
    let mut i: usize = 0;
    while i < n
        invariant
            n == s@.len(),
            i <= n,
            r@ == lower_chars(s@.subrange(0, i as int)),
        decreases n - i,
    {
        let c = s.get_char(i);
        let lc: char = if 'A' <= c && c <= 'Z' {
            ((c as u8) + 32) as char
        } else {
            c
        };
        assert(lc == lower_char(s@[i as int]));
        push_char(&mut r, lc);
        i = i + 1;
        assert(s@.subrange(0, i as int) == s@.subrange(0, i as int - 1).push(s@[i as int - 1]));
    }
    assert(s@.subrange(0, n as int) == s@);
    r
}

/// The needle `n` occurs in `h` at position `i`.
pub open spec fn matches_at(h: Seq<char>, n: Seq<char>, i: int) -> bool {
    0 <= i && i + n.len() <= h.len() && h.subrange(i, i + n.len()) =~= n
}

/// The needle `n` occurs somewhere in `h`.
pub open spec fn contains_seq(h: Seq<char>, n: Seq<char>) -> bool {
    exists|i: int| matches_at(h, n, i)
}

/// Copies the characters of `s` between `from` and `to` into a new string.
pub fn substring_copy(s: &str, from: usize, to: usize) -> (r: String)
    requires
        from <= to <= s@.len(),
    ensures
        r@ == s@.subrange(from as int, to as int),
{
    let mut r = String::new();
    let mut i: usize = from;
    while i < to
        invariant
            from <= i <= to <= s@.len(),
            r@ == s@.subrange(from as int, i as int),
        decreases to - i,
    {
        let c = s.get_char(i);
        push_char(&mut r, c);
        i = i + 1;
        assert(s@.subrange(from as int, i as int)
            == s@.subrange(from as int, i as int - 1).push(s@[i as int - 1]));
    }
    r
}

/// Compares two strings character by character.
pub fn eq_str(a: &str, b: &str) -> (r: bool)
    ensures
        r == (a@ == b@),
{
    let na = a.unicode_len();
    let nb = b.unicode_len();
    if na != nb {
        assert(a@ != b@);
        return false;
    }
    let mut i: usize = 0;
    while i < na
        invariant
            na == a@.len() == b@.len(),
            i <= na,
            a@.subrange(0, i as int) == b@.subrange(0, i as int),
        decreases na - i,
    {
        if a.get_char(i) != b.get_char(i) {
            assert(a@ != b@);
            return false;
        }
        assert(a@.subrange(0, i as int + 1)
            == a@.subrange(0, i as int).push(a@[i as int]));
        assert(b@.subrange(0, i as int + 1)
            == b@.subrange(0, i as int).push(b@[i as int]));
        i = i + 1;
    }
    assert(a@.subrange(0, na as int) == a@);
    assert(b@.subrange(0, nb as int) == b@);
    true
}

/// Whether `n` occurs in `h` starting at position `at` (both exec strings).
fn matches_at_exec(h: &str, n: &str, at: usize) -> (r: bool)
    requires
        at + n@.len() <= h@.len(),
    ensures
        r == matches_at(h@, n@, at as int),
{
    let lh = h.unicode_len();
    let ln = n.unicode_len();
    let mut j: usize = 0;
    while j < ln
        invariant
            lh == h@.len(),
            ln == n@.len(),
            at + ln <= lh,
            j <= ln,
            h@.subrange(at as int, at as int + j as int) == n@.subrange(0, j as int),
        decreases ln - j,
    {
        if h.get_char(at + j) != n.get_char(j) {
            assert(h@.subrange(at as int, at as int + n@.len())[j as int] == h@[at as int + j]);
            assert(!matches_at(h@, n@, at as int));
            return false;
        }
        assert(h@.subrange(at as int, at as int + j as int + 1)
            == h@.subrange(at as int, at as int + j as int).push(h@[at as int + j]));
        assert(n@.subrange(0, j as int + 1)
            == n@.subrange(0, j as int).push(n@[j as int]));
        j = j + 1;
    }
    assert(n@.subrange(0, ln as int) == n@);
    true
}

/// Finds the first occurrence of `n` in `h`.
pub fn find_str(h: &str, n: &str) -> (r: Option<usize>)
    ensures
        match r {
            Some(i) => matches_at(h@, n@, i as int) && forall|j: int|
                0 <= j < i ==> !matches_at(h@, n@, j),
            None => !contains_seq(h@, n@),
        },
{
    let lh = h.unicode_len();
    let ln = n.unicode_len();
    if ln > lh {
        assert(forall|i: int| !matches_at(h@, n@, i));
        return None;
    }
    let mut i: usize = 0;
    while i <= lh - ln
        invariant
            lh == h@.len(),
            ln == n@.len(),
            ln <= lh,
            i <= lh - ln + 1,
            forall|j: int| 0 <= j < i ==> !matches_at(h@, n@, j),
        decreases lh - ln + 1 - i,
    {
        if matches_at_exec(h, n, i) {
            return Some(i);
        }
        i = i + 1;
    }
    assert(forall|j: int| j > lh - ln ==> !matches_at(h@, n@, j));
    None
}

/// Whether `h` contains `n`.
pub fn contains_str(h: &str, n: &str) -> (r: bool)
    ensures
        r == contains_seq(h@, n@),
{
    match find_str(h, n) {
        Some(i) => {
            assert(matches_at(h@, n@, i as int));
            true
        },
        None => false,
    }
}

/// Whether `s` starts with `p`.
pub open spec fn starts_with(s: Seq<char>, p: Seq<char>) -> bool {
    p.len() <= s.len() && s.subrange(0, p.len() as int) =~= p
}

/// Whether `s` ends with `p`.
pub open spec fn ends_with(s: Seq<char>, p: Seq<char>) -> bool {
    p.len() <= s.len() && s.subrange(s.len() - p.len(), s.len() as int) =~= p
}

/// Tests whether `s` starts with `p`.
pub fn starts_with_str(s: &str, p: &str) -> (r: bool)
    ensures
        r == starts_with(s@, p@),
{
    let ls = s.unicode_len();
    let lp = p.unicode_len();
    if lp > ls {
        return false;
    }
    matches_at_exec(s, p, 0)
}

/// Tests whether `s` ends with `p`.
pub fn ends_with_str(s: &str, p: &str) -> (r: bool)
    ensures
        r == ends_with(s@, p@),
{
    let ls = s.unicode_len();
    let lp = p.unicode_len();
    if lp > ls {
        return false;
    }
    matches_at_exec(s, p, ls - lp)
}

/// Index of the first occurrence of `c` in `s`, or `s.len()` if absent.
pub open spec fn find_char_at(s: Seq<char>, c: char) -> int
    decreases s.len(),
{
    if s.len() == 0 {
        0
    } else if s[0] == c {
        0
    } else {
        1 + find_char_at(s.skip(1), c)
    }
}

pub proof fn lemma_find_char_at(s: Seq<char>, c: char)
    ensures
        0 <= find_char_at(s, c) <= s.len(),
        forall|j: int| 0 <= j < find_char_at(s, c) ==> s[j] != c,
        find_char_at(s, c) < s.len() ==> s[find_char_at(s, c)] == c,
    decreases s.len(),
{
    if s.len() > 0 && s[0] != c {
        lemma_find_char_at(s.skip(1), c);
        assert forall|j: int| 0 <= j < find_char_at(s, c) implies s[j] != c by {
            if j > 0 {
                assert(s.skip(1)[j - 1] == s[j]);
            }
        }
        if find_char_at(s, c) < s.len() {
            assert(s.skip(1)[find_char_at(s, c) - 1] == s[find_char_at(s, c)]);
        }
    }
}

/// Finds the first occurrence of the character `c` in `s`; the result is
/// `s@.len()` when `c` does not occur.
pub fn find_char(s: &str, c: char) -> (r: usize)
    ensures
        r as int == find_char_at(s@, c),
{
    let n = s.unicode_len();
    proof {
        lemma_find_char_at(s@, c);
    }
    let mut i: usize = 0;
    while i < n
        invariant
            n == s@.len(),
            i <= n,
            0 <= find_char_at(s@, c) <= n,
            forall|j: int| 0 <= j < find_char_at(s@, c) ==> s@[j] != c,
            find_char_at(s@, c) < n ==> s@[find_char_at(s@, c)] == c,
            forall|j: int| 0 <= j < i ==> s@[j] != c,
        decreases n - i,
    {
        if s.get_char(i) == c {
            return i;
        }
        i = i + 1;
    }
    n
}

/// Index of the last occurrence of `c` in `s`, or `s.len()` if absent.
pub open spec fn rfind_char_or_len(s: Seq<char>, c: char) -> int
    decreases s.len(),
{
    if s.len() == 0 {
        0
    } else if s[s.len() - 1] == c {
        s.len() - 1
    } else if find_char_at(s, c) < s.len() {
        rfind_char_or_len(s.take(s.len() - 1), c)
    } else {
        s.len() as int
    }
}

pub proof fn lemma_rfind_char_or_len(s: Seq<char>, c: char)
    ensures
        0 <= rfind_char_or_len(s, c) <= s.len(),
        rfind_char_or_len(s, c) < s.len() ==> s[rfind_char_or_len(s, c)] == c,
        forall|j: int| rfind_char_or_len(s, c) < j < s.len() ==> s[j] != c,
        rfind_char_or_len(s, c) == s.len() ==> forall|j: int| 0 <= j < s.len() ==> s[j] != c,
    decreases s.len(),
{
    lemma_find_char_at(s, c);
    if s.len() > 0 && s[s.len() - 1] != c && find_char_at(s, c) < s.len() {
        let t = s.take(s.len() - 1);
        let f = find_char_at(s, c);
        lemma_rfind_char_or_len(t, c);
        assert(f < s.len() - 1);
        assert(t[f] == s[f]);
        let r = rfind_char_or_len(t, c);
        assert(r < t.len()) by {
            if r == t.len() {
                assert(t[f] != c);
            }
        }
        assert(t[r] == s[r]);
        assert forall|j: int| rfind_char_or_len(s, c) < j < s.len() implies s[j] != c by {
            if j < s.len() - 1 {
                assert(t[j] == s[j]);
            }
        }
    }
}

/// Finds the last occurrence of `c` in `s`; the result is `s@.len()` when
/// `c` does not occur.
pub fn rfind_char(s: &str, c: char) -> (r: usize)
    ensures
        r as int == rfind_char_or_len(s@, c),
{
    let n = s.unicode_len();
    proof {
        lemma_rfind_char_or_len(s@, c);
    }
    let mut i: usize = n;
    while i > 0
        invariant
            n == s@.len(),
            i <= n,
            0 <= rfind_char_or_len(s@, c) <= n,
            rfind_char_or_len(s@, c) < n ==> s@[rfind_char_or_len(s@, c)] == c,
            forall|j: int| rfind_char_or_len(s@, c) < j < n ==> s@[j] != c,
            rfind_char_or_len(s@, c) == n ==> forall|j: int| 0 <= j < n ==> s@[j] != c,
            forall|j: int| i <= j < n ==> s@[j] != c,
        decreases i,
    {
        i = i - 1;
        if s.get_char(i) == c {
            return i;
        }
    }
    n
}

/// ASCII whitespace as the harness understands it.
pub open spec fn is_ws(c: char) -> bool {
    c == ' ' || c == '\t' || c == '\n' || c == '\r'
}

/// Number of leading whitespace characters.
pub open spec fn ws_prefix_len(s: Seq<char>) -> int
    decreases s.len(),
{
    if s.len() == 0 {
        0
    } else if !is_ws(s[0]) {
        0
    } else {
        1 + ws_prefix_len(s.skip(1))
    }
}

pub proof fn lemma_ws_prefix_len(s: Seq<char>)
    ensures
        0 <= ws_prefix_len(s) <= s.len(),
        forall|j: int| 0 <= j < ws_prefix_len(s) ==> is_ws(s[j]),
        ws_prefix_len(s) < s.len() ==> !is_ws(s[ws_prefix_len(s)]),
    decreases s.len(),
{
    if s.len() > 0 && is_ws(s[0]) {
        lemma_ws_prefix_len(s.skip(1));
        assert forall|j: int| 0 <= j < ws_prefix_len(s) implies is_ws(s[j]) by {
            if j > 0 {
                assert(s.skip(1)[j - 1] == s[j]);
            }
        }
        if ws_prefix_len(s) < s.len() {
            assert(s.skip(1)[ws_prefix_len(s) - 1] == s[ws_prefix_len(s)]);
        }
    }
}

/// Number of trailing whitespace characters.
pub open spec fn ws_suffix_len(s: Seq<char>) -> int
    decreases s.len(),
{
    if s.len() == 0 {
        0
    } else if !is_ws(s[s.len() - 1]) {
        0
    } else {
        1 + ws_suffix_len(s.take(s.len() - 1))
    }
}

pub proof fn lemma_ws_suffix_len(s: Seq<char>)
    ensures
        0 <= ws_suffix_len(s) <= s.len(),
        forall|j: int| s.len() - ws_suffix_len(s) <= j < s.len() ==> is_ws(s[j]),
        ws_suffix_len(s) < s.len() ==> !is_ws(s[s.len() - 1 - ws_suffix_len(s)]),
    decreases s.len(),
{
    if s.len() > 0 && is_ws(s[s.len() - 1]) {
        let t = s.take(s.len() - 1);
        lemma_ws_suffix_len(t);
        assert forall|j: int| s.len() - ws_suffix_len(s) <= j < s.len() implies is_ws(s[j]) by {
            if j < s.len() - 1 {
                assert(t[j] == s[j]);
            }
        }
        if ws_suffix_len(s) < s.len() {
            assert(t[s.len() - 2 - ws_suffix_len(t)] == s[s.len() - 1 - ws_suffix_len(s)]);
        }
    }
}

/// The string with leading and trailing ASCII whitespace removed.
pub open spec fn trim_spec(s: Seq<char>) -> Seq<char> {
    if ws_prefix_len(s) == s.len() {
        Seq::empty()
    } else {
        s.subrange(ws_prefix_len(s), s.len() - ws_suffix_len(s))
    }
}

/// Removes leading and trailing ASCII whitespace.
pub fn trim_str(s: &str) -> (r: String)
    ensures
        r@ == trim_spec(s@),
{
    let n = s.unicode_len();
    proof {
        lemma_ws_prefix_len(s@);
        lemma_ws_suffix_len(s@);
    }
    let mut a: usize = 0;
    let mut stop = false;
    while !stop && a < n
        invariant
            n == s@.len(),
            a <= n,
            forall|j: int| 0 <= j < a ==> is_ws(s@[j]),
            stop ==> a < n && !is_ws(s@[a as int]),
        decreases n - a, 1int - (if stop { 1int } else { 0int }),
    {
        let c = s.get_char(a);
        if c == ' ' || c == '\t' || c == '\n' || c == '\r' {
            a = a + 1;
        } else {
            stop = true;
        }
    }
    if a == n {
        assert(ws_prefix_len(s@) == n) by {
            if ws_prefix_len(s@) < n {
                assert(is_ws(s@[ws_prefix_len(s@)]));
            }
        }
        return String::new();
    }
    assert(a as int == ws_prefix_len(s@)) by {
        if (a as int) < ws_prefix_len(s@) {
            assert(is_ws(s@[a as int]));
        }
        if (a as int) > ws_prefix_len(s@) {
            assert(is_ws(s@[ws_prefix_len(s@)]));
        }
    }
    let mut b: usize = n;
    let mut stop2 = false;
    while !stop2 && b > a
        invariant
            n == s@.len(),
            a <= b <= n,
            a as int == ws_prefix_len(s@) < n,
            !is_ws(s@[a as int]),
            forall|j: int| b <= j < n ==> is_ws(s@[j]),
            stop2 ==> b > a && !is_ws(s@[b as int - 1]),
        decreases b, 1int - (if stop2 { 1int } else { 0int }),
    {
        let c = s.get_char(b - 1);
        if c == ' ' || c == '\t' || c == '\n' || c == '\r' {
            b = b - 1;
        } else {
            stop2 = true;
        }
    }
    assert(b > a) by {
        if b == a {
            assert(is_ws(s@[a as int]));
        }
    }
    assert(b as int == n - ws_suffix_len(s@)) by {
        if (b as int) < n - ws_suffix_len(s@) {
            assert(is_ws(s@[b as int - 1]));
        }
        if (b as int) > n - ws_suffix_len(s@) {
            assert(ws_suffix_len(s@) < n);
            assert(is_ws(s@[n - 1 - ws_suffix_len(s@)]));
        }
    }
    substring_copy(s, a, b)
}

/// The sequence with every occurrence of `c` removed.
pub open spec fn remove_char_spec(s: Seq<char>, c: char) -> Seq<char>
    decreases s.len(),
{
    if s.len() == 0 {
        s
    } else if s.last() == c {
        remove_char_spec(s.drop_last(), c)
    } else {
        remove_char_spec(s.drop_last(), c).push(s.last())
    }
}

/// Removes every occurrence of `c` from `s`.
pub fn remove_char(s: &str, c: char) -> (r: String)
    ensures
        r@ == remove_char_spec(s@, c),
{
    let n = s.unicode_len();
    let mut r = String::new();
    let mut i: usize = 0;
    while i < n
        invariant
            n == s@.len(),
            i <= n,
            r@ == remove_char_spec(s@.subrange(0, i as int), c),
        decreases n - i,
    {
        let x = s.get_char(i);
        if x != c {
            push_char(&mut r, x);
        }
        i = i + 1;
        assert(s@.subrange(0, i as int).drop_last() == s@.subrange(0, i as int - 1));
        assert(s@.subrange(0, i as int).last() == s@[i as int - 1]);
    }
    assert(s@.subrange(0, n as int) == s@);
    r
}

/// Decimal digit test.
pub open spec fn is_digit(c: char) -> bool {
    '0' <= c && c <= '9'
}

/// The subsequence of decimal digits of `s`.
pub open spec fn keep_digits_spec(s: Seq<char>) -> Seq<char>
    decreases s.len(),
{
    if s.len() == 0 {
        s
    } else if is_digit(s.last()) {
        keep_digits_spec(s.drop_last()).push(s.last())
    } else {
        keep_digits_spec(s.drop_last())
    }
}

/// Keeps only the decimal digits of `s`.
pub fn keep_digits(s: &str) -> (r: String)
    ensures
        r@ == keep_digits_spec(s@),
{
    let n = s.unicode_len();
    let mut r = String::new();
    let mut i: usize = 0;
    while i < n
        invariant
            n == s@.len(),
            i <= n,
            r@ == keep_digits_spec(s@.subrange(0, i as int)),
        decreases n - i,
    {
        let x = s.get_char(i);
        if '0' <= x && x <= '9' {
            push_char(&mut r, x);
        }
        i = i + 1;
        assert(s@.subrange(0, i as int).drop_last() == s@.subrange(0, i as int - 1));
        assert(s@.subrange(0, i as int).last() == s@[i as int - 1]);
    }
    assert(s@.subrange(0, n as int) == s@);
    r
}

/// The character for a single decimal digit.
pub open spec fn digit_char(d: int) -> char {
    ((48 + d) as u32) as char
}

/// Numeric value of a digit character.
pub open spec fn digit_val(c: char) -> int {
    (c as u32) - 48
}

/// Decimal rendering of a non-negative integer, most significant digit
/// first, with no leading zeros (a single '0' for zero).
pub open spec fn dec_str_nat(n: int) -> Seq<char>
    recommends
        n >= 0,
    decreases n,
{
    if n < 10 {
        seq![digit_char(n)]
    } else {
        dec_str_nat(n / 10).push(digit_char(n % 10))
    }
}

/// Decimal rendering of a signed integer: a leading '-' for negatives.
pub open spec fn dec_str_i64(n: int) -> Seq<char> {
    if n < 0 {
        seq!['-'] + dec_str_nat(-n)
    } else {
        dec_str_nat(n)
    }
}

/// Renders an unsigned integer in decimal.
pub fn u64_to_string(n: u64) -> (r: String)
    ensures
        r@ == dec_str_nat(n as int),
{
    let mut digits: Vec<char> = Vec::new();
    let mut m: u64 = n;
    let ghost mut done: Seq<char> = Seq::empty();
    loop
        invariant
            done.len() == digits@.len(),
            forall|j: int| 0 <= j < done.len() ==> done[j] == digits@[done.len() - 1 - j],
            m > 0 ==> dec_str_nat(n as int) =~= dec_str_nat(m as int) + done,
            m == 0 && digits@.len() > 0 ==> dec_str_nat(n as int) =~= done,
            m == 0 && digits@.len() == 0 ==> n == 0,
        ensures
            m == 0,
            digits@.len() > 0,
            done.len() == digits@.len(),
            forall|j: int| 0 <= j < done.len() ==> done[j] == digits@[done.len() - 1 - j],
            dec_str_nat(n as int) =~= done,
        decreases m, (if digits@.len() == 0 { 1int } else { 0int }),
    {
        if m == 0 && digits.len() > 0 {
            break;
        }
        let d: char = (48 + (m % 10) as u8) as char;
        assert(d == digit_char(m as int % 10));
        digits.push(d);
        proof {
            done = seq![d] + done;
        }
        let m0 = m;
        m = m / 10;
        proof {
            if m0 < 10 {
                assert(dec_str_nat(m0 as int) == seq![digit_char(m0 as int)]);
                assert(m0 as int % 10 == m0 as int);
            } else {
                assert(dec_str_nat(m0 as int) == dec_str_nat(m0 as int / 10).push(
                    digit_char(m0 as int % 10)));
            }
        }
    }
    let mut r = String::new();
    let mut k: usize = digits.len();
    while k > 0
        invariant
            done.len() == digits@.len(),
            forall|j: int| 0 <= j < done.len() ==> done[j] == digits@[done.len() - 1 - j],
            dec_str_nat(n as int) =~= done,
            k <= digits@.len(),
            r@ =~= done.subrange(0, done.len() - k),
        decreases k,
    {
        k = k - 1;
        let c = digits[k];
        push_char(&mut r, c);
        assert(r@ =~= done.subrange(0, done.len() - k));
    }
    assert(r@ =~= done);
    r
}

/// Renders a signed integer in decimal.
pub fn i64_to_string(n: i64) -> (r: String)
    requires
        n > i64::MIN,
    ensures
        r@ == dec_str_i64(n as int),
{
    if n < 0 {
        let mut r = String::new();
        push_char(&mut r, '-');
        let m = u64_to_string((-n) as u64);
        let mut r2 = r;
        r2.append(m.as_str());
        assert(r2@ =~= dec_str_i64(n as int));
        r2
    } else {
        u64_to_string(n as u64)
    }
}

/// Numeric value of a digit string, most significant digit first.
pub open spec fn digits_val(s: Seq<char>) -> int
    decreases s.len(),
{
    if s.len() == 0 {
        0
    } else {
        digits_val(s.drop_last()) * 10 + digit_val(s.last())
    }
}

pub proof fn lemma_digits_val_bounds(s: Seq<char>)
    requires
        forall|j: int| 0 <= j < s.len() ==> is_digit(s[j]),
    ensures
        digits_val(s) >= 0,
        s.len() > 0 ==> digits_val(s) >= digits_val(s.drop_last()),
    decreases s.len(),
{
    if s.len() > 0 {
        lemma_digits_val_bounds(s.drop_last());
    }
}

/// Parses a non-empty all-digit string as a `u32`; `None` on an empty
/// string, a non-digit character, or overflow.
pub fn parse_u32(s: &str) -> (r: Option<u32>)
    ensures
        match r {
            Some(v) => s@.len() > 0 && (forall|j: int| 0 <= j < s@.len() ==> is_digit(s@[j]))
                && v as int == digits_val(s@),
            None => s@.len() == 0 || (exists|j: int| 0 <= j < s@.len() && !is_digit(s@[j]))
                || ((forall|j: int| 0 <= j < s@.len() ==> is_digit(s@[j])) && digits_val(s@)
                > u32::MAX),
        },
{
    let n = s.unicode_len();
    if n == 0 {
        return None;
    }
    let mut acc: u64 = 0;
    let mut i: usize = 0;
    while i < n
        invariant
            n == s@.len(),
            i <= n,
            forall|j: int| 0 <= j < i ==> is_digit(s@[j]),
            acc as int == digits_val(s@.subrange(0, i as int)),
            acc <= u32::MAX,
        decreases n - i,
    {
        let c = s.get_char(i);
        if !('0' <= c && c <= '9') {
            return None;
        }
        let d: u64 = ((c as u8) - 48) as u64;
        assert(d as int == digit_val(s@[i as int]));
        let next: u64 = acc * 10 + d;
        proof {
            assert(s@.subrange(0, i as int + 1).drop_last() == s@.subrange(0, i as int));
            assert(s@.subrange(0, i as int + 1).last() == s@[i as int]);
        }
        if next > 0xFFFF_FFFF {
            proof {
                let t = s@.subrange(0, i as int + 1);
                assert(digits_val(t) == next);
                if forall|j: int| 0 <= j < s@.len() ==> is_digit(s@[j]) {
                    lemma_digits_val_prefix_monotone(s@, i as int + 1);
                }
            }
            return None;
        }
        acc = next;
        i = i + 1;
    }
    assert(s@.subrange(0, n as int) == s@);
    Some(acc as u32)
}

/// Extending a digit string to the right never decreases its value.
pub proof fn lemma_digits_val_prefix_monotone(s: Seq<char>, k: int)
    requires
        0 <= k <= s.len(),
        forall|j: int| 0 <= j < s.len() ==> is_digit(s[j]),
    ensures
        digits_val(s) >= digits_val(s.subrange(0, k)),
    decreases s.len() - k,
{
    if k < s.len() {
        lemma_digits_val_prefix_monotone(s, k + 1);
        let a = s.subrange(0, k);
        let b = s.subrange(0, k + 1);
        assert(b.drop_last() == a);
        assert(b.last() == s[k]);
        lemma_digits_val_bounds(a);
        assert(digits_val(b) == digits_val(a) * 10 + digit_val(s[k]));
        assert(digit_val(s[k]) >= 0);
        assert(digits_val(a) * 10 >= digits_val(a)) by (nonlinear_arith)
            requires digits_val(a) >= 0;
    } else {
        assert(s.subrange(0, s.len() as int) == s);
    }
}

/// Lexicographic order on character sequences by code point.
pub open spec fn lex_le(a: Seq<char>, b: Seq<char>) -> bool
    decreases a.len(),
{
    if a.len() == 0 {
        true
    } else if b.len() == 0 {
        false
    } else if a[0] != b[0] {
        a[0] < b[0]
    } else {
        lex_le(a.skip(1), b.skip(1))
    }
}

pub proof fn lemma_lex_le_total(a: Seq<char>, b: Seq<char>)
    ensures
        lex_le(a, b) || lex_le(b, a),
    decreases a.len(),
{
    if a.len() == 0 || b.len() == 0 {
    } else if a[0] == b[0] {
        lemma_lex_le_total(a.skip(1), b.skip(1));
    } else {
    }
}

pub proof fn lemma_lex_le_trans(a: Seq<char>, b: Seq<char>, c: Seq<char>)
    requires
        lex_le(a, b),
        lex_le(b, c),
    ensures
        lex_le(a, c),
    decreases a.len(),
{
    if a.len() > 0 && b.len() > 0 && c.len() > 0 && a[0] == b[0] && b[0] == c[0] {
        lemma_lex_le_trans(a.skip(1), b.skip(1), c.skip(1));
    }
}

/// Compares two strings in lexicographic code-point order.
pub fn str_le(a: &str, b: &str) -> (r: bool)
    ensures
        r == lex_le(a@, b@),
{
    let na = a.unicode_len();
    let nb = b.unicode_len();
    let mut i: usize = 0;
    proof {
        assert(a@.skip(0) =~= a@);
        assert(b@.skip(0) =~= b@);
    }
    loop
        invariant
            na == a@.len(),
            nb == b@.len(),
            i <= na,
            i <= nb,
            a@.subrange(0, i as int) == b@.subrange(0, i as int),
            lex_le(a@, b@) == lex_le(a@.skip(i as int), b@.skip(i as int)),
        decreases na - i,
    {
        if i >= na {
            assert(a@.skip(i as int).len() == 0);
            return true;
        }
        if i >= nb {
            assert(b@.skip(i as int).len() == 0);
            assert(a@.skip(i as int).len() > 0);
            return false;
        }
        let ca = a.get_char(i);
        let cb = b.get_char(i);
        assert(a@.skip(i as int)[0] == ca);
        assert(b@.skip(i as int)[0] == cb);
        if ca != cb {
            return ca < cb;
        }
        proof {
            assert(a@.skip(i as int).skip(1) =~= a@.skip(i as int + 1));
            assert(b@.skip(i as int).skip(1) =~= b@.skip(i as int + 1));
            assert(a@.subrange(0, i as int + 1) =~= a@.subrange(0, i as int).push(a@[i as int]));
            assert(b@.subrange(0, i as int + 1) =~= b@.subrange(0, i as int).push(b@[i as int]));
        }
        i = i + 1;
    }
}

/// Sortedness in lexicographic order.
pub open spec fn sorted_lex(s: Seq<Seq<char>>) -> bool {
    forall|i: int, j: int| 0 <= i < j < s.len() ==> lex_le(s[i], s[j])
}

/// Sorts the strings into lexicographic code-point order; the result is a
/// sorted permutation of the input.
pub fn sort_strings(v: &Vec<String>) -> (r: Vec<String>)
    ensures
        sorted_lex(r.deep_view()),
        r.deep_view().to_multiset() == v.deep_view().to_multiset(),
{
    let mut out: Vec<String> = Vec::new();
    let mut i: usize = 0;
    proof {
        assert(v.deep_view().subrange(0, 0) =~= Seq::<Seq<char>>::empty());
        assert(out.deep_view() =~= Seq::<Seq<char>>::empty());
        out.deep_view().to_multiset_ensures();
        v.deep_view().subrange(0, 0).to_multiset_ensures();
        assert(out.deep_view().to_multiset() =~= v.deep_view().subrange(0, 0).to_multiset());
    }
    while i < v.len()
        invariant
            i <= v@.len(),
            v.deep_view().len() == v@.len(),
            sorted_lex(out.deep_view()),
            out.deep_view().to_multiset() == v.deep_view().subrange(0, i as int).to_multiset(),
        decreases v@.len() - i,
    {
        let x = substring_copy(v[i].as_str(), 0, v[i].as_str().unicode_len());
        assert(x@ == v.deep_view()[i as int]);
        let mut p: usize = 0;
        let mut stop = false;
        while !stop && p < out.len()
            invariant
                p <= out@.len(),
                out.deep_view().len() == out@.len(),
                forall|k: int| 0 <= k < p ==> lex_le(#[trigger] out.deep_view()[k], x@),
                stop ==> p < out@.len() && !lex_le(out.deep_view()[p as int], x@),
            decreases out@.len() - p, (if stop { 0int } else { 1int }),
        {
            assert(out.deep_view()[p as int] == out@[p as int]@);
            if !str_le(out[p].as_str(), x.as_str()) {
                stop = true;
            } else {
                p = p + 1;
            }
        }
        proof {
            if stop {
                lemma_lex_le_total(out.deep_view()[p as int], x@);
                assert(lex_le(x@, out.deep_view()[p as int]));
            }
        }
        let ghost old_dv = out.deep_view();
        let ghost was_stop = stop;
        out.insert(p, x);
        proof {
            let dv = out.deep_view();
            assert(dv =~~= old_dv.insert(p as int, x@));
            assert forall|a: int, b: int| 0 <= a < b < dv.len() implies lex_le(dv[a], dv[b]) by {
                if b < p {
                    assert(dv[a] == old_dv[a]);
                    assert(dv[b] == old_dv[b]);
                } else if a == p && b > p {
                    assert(dv[b] == old_dv[b - 1]);
                    assert(p as int <= b - 1 < old_dv.len());
                    assert(was_stop);
                    if b - 1 == p as int {
                        assert(lex_le(x@, old_dv[p as int]));
                    } else {
                        lemma_lex_le_trans(x@, old_dv[p as int], old_dv[b - 1]);
                    }
                } else if a < p && b == p {
                    assert(dv[a] == old_dv[a]);
                } else if a < p && b > p {
                    assert(dv[a] == old_dv[a]);
                    assert(dv[b] == old_dv[b - 1]);
                    if b - 1 == a {
                    } else {
                        assert(lex_le(old_dv[a], old_dv[b - 1]));
                    }
                } else {
                    assert(a > p || (a == p && b <= p));
                    assert(a > p);
                    assert(dv[a] == old_dv[a - 1]);
                    assert(dv[b] == old_dv[b - 1]);
                }
            }
            assert(dv.to_multiset() =~= v.deep_view().subrange(0, i as int + 1).to_multiset()) by {
                assert(dv =~~= old_dv.insert(p as int, x@));
                vstd::seq_lib::to_multiset_insert(old_dv, p as int, x@);
                assert(v.deep_view().subrange(0, i as int + 1) =~= v.deep_view().subrange(
                    0, i as int).push(x@));
                v.deep_view().subrange(0, i as int).to_multiset_ensures();
            }
        }
        i = i + 1;
    }
    proof {
        assert(v.deep_view().subrange(0, v@.len() as int) =~= v.deep_view());
    }
    out
}


/// Number of leading non-whitespace characters.
pub open spec fn non_ws_prefix_len(s: Seq<char>) -> int
    decreases s.len(),
{
    if s.len() == 0 {
        0
    } else if is_ws(s[0]) {
        0
    } else {
        1 + non_ws_prefix_len(s.skip(1))
    }
}

pub proof fn lemma_non_ws_prefix_len(s: Seq<char>)
    ensures
        0 <= non_ws_prefix_len(s) <= s.len(),
        forall|j: int| 0 <= j < non_ws_prefix_len(s) ==> !is_ws(s[j]),
        non_ws_prefix_len(s) < s.len() ==> is_ws(s[non_ws_prefix_len(s)]),
    decreases s.len(),
{
    if s.len() > 0 && !is_ws(s[0]) {
        lemma_non_ws_prefix_len(s.skip(1));
        assert forall|j: int| 0 <= j < non_ws_prefix_len(s) implies !is_ws(s[j]) by {
            if j > 0 {
                assert(s.skip(1)[j - 1] == s[j]);
            }
        }
        if non_ws_prefix_len(s) < s.len() {
            assert(s.skip(1)[non_ws_prefix_len(s) - 1] == s[non_ws_prefix_len(s)]);
        }
    }
}

/// The whitespace-separated tokens of `s`, in order.
pub open spec fn tokens_spec(s: Seq<char>) -> Seq<Seq<char>>
    decreases s.len(),
    via tokens_spec_decreases
{
    if s.len() == 0 {
        Seq::empty()
    } else if is_ws(s[0]) {
        tokens_spec(s.skip(1))
    } else {
        seq![s.subrange(0, non_ws_prefix_len(s))] + tokens_spec(s.skip(non_ws_prefix_len(s)))
    }
}

#[via_fn]
proof fn tokens_spec_decreases(s: Seq<char>) {
    if s.len() > 0 && !is_ws(s[0]) {
        lemma_non_ws_prefix_len(s);
        assert(non_ws_prefix_len(s) >= 1);
    }
}

/// Splits `s` at whitespace into its tokens.
pub fn tokens(s: &str) -> (r: Vec<String>)
    ensures
        r.deep_view() == tokens_spec(s@),
{
    let n = s.unicode_len();
    let mut out: Vec<String> = Vec::new();
    let mut i: usize = 0;
    proof {
        assert(s@.skip(0) =~= s@);
        assert(out.deep_view() + tokens_spec(s@) =~= tokens_spec(s@));
    }
    while i < n
        invariant
            n == s@.len(),
            i <= n,
            tokens_spec(s@) =~= out.deep_view() + tokens_spec(s@.skip(i as int)),
        decreases n - i,
    {
        let c = s.get_char(i);
        if c == ' ' || c == '\t' || c == '\n' || c == '\r' {
            proof {
                assert(s@.skip(i as int)[0] == s@[i as int]);
                assert(s@.skip(i as int).skip(1) =~= s@.skip(i as int + 1));
            }
            i = i + 1;
        } else {
            let start = i;
            let mut stop = false;
            while !stop && i < n
                invariant
                    n == s@.len(),
                    start <= i <= n,
                    forall|j: int| start <= j < i ==> !is_ws(s@[j]),
                    stop ==> i < n && is_ws(s@[i as int]),
                decreases n - i, (if stop { 0int } else { 1int }),
            {
                let c2 = s.get_char(i);
                if c2 == ' ' || c2 == '\t' || c2 == '\n' || c2 == '\r' {
                    stop = true;
                } else {
                    i = i + 1;
                }
            }
            let tok = substring_copy(s, start, i);
            proof {
                let rest = s@.skip(start as int);
                lemma_non_ws_prefix_len(rest);
                assert(non_ws_prefix_len(rest) == i - start) by {
                    assert forall|j: int| 0 <= j < i - start implies !is_ws(rest[j]) by {
                        assert(rest[j] == s@[start + j]);
                    }
                    if non_ws_prefix_len(rest) < i - start {
                        assert(rest[non_ws_prefix_len(rest)] == s@[start + non_ws_prefix_len(
                            rest)]);
                        assert(is_ws(s@[start + non_ws_prefix_len(rest)]));
                    }
                    if non_ws_prefix_len(rest) > i - start {
                        if i < n {
                            assert(rest[i - start] == s@[i as int]);
                            assert(!is_ws(rest[i - start]));
                            assert(is_ws(s@[i as int]));
                        }
                    }
                }
                assert(rest.subrange(0, i - start) =~= s@.subrange(start as int, i as int));
                assert(rest.skip(i - start) =~= s@.skip(i as int));
                assert(tokens_spec(rest) =~= seq![s@.subrange(start as int, i as int)]
                    + tokens_spec(s@.skip(i as int)));
            }
            let ghost old_dv = out.deep_view();
            out.push(tok);
            proof {
                assert(out.deep_view() =~~= old_dv.push(tok@));
                assert(out.deep_view() + tokens_spec(s@.skip(i as int)) =~= old_dv + (seq![
                    tok@] + tokens_spec(s@.skip(i as int))));
            }
        }
    }
    proof {
        assert(s@.skip(n as int).len() == 0);
        assert(tokens_spec(s@.skip(n as int)) =~= Seq::<Seq<char>>::empty());
        assert(out.deep_view() =~= out.deep_view() + Seq::<Seq<char>>::empty());
    }
    out
}

/// The pieces of `s` split at every occurrence of `c`; splitting the empty
/// string gives one empty piece.
pub open spec fn split_char_spec(s: Seq<char>, c: char) -> Seq<Seq<char>>
    decreases s.len(),
    via split_char_spec_decreases
{
    let f = find_char_at(s, c);
    if f == s.len() {
        seq![s]
    } else {
        seq![s.subrange(0, f)] + split_char_spec(s.skip(f + 1), c)
    }
}

#[via_fn]
proof fn split_char_spec_decreases(s: Seq<char>, c: char) {
    lemma_find_char_at(s, c);
}

/// Splits `s` at every occurrence of `c`.
pub fn split_char(s: &str, c: char) -> (r: Vec<String>)
    ensures
        r.deep_view() == split_char_spec(s@, c),
{
    let mut out: Vec<String> = Vec::new();
    let mut rest: String = substring_copy(s, 0, s.unicode_len());
    proof {
        assert(s@.subrange(0, s@.len() as int) =~= s@);
        assert(out.deep_view() + split_char_spec(rest@, c) =~= split_char_spec(s@, c));
    }
    loop
        invariant_except_break
            split_char_spec(s@, c) =~= out.deep_view() + split_char_spec(rest@, c),
        ensures
            out.deep_view() == split_char_spec(s@, c),
        decreases rest@.len(),
    {
        proof {
            lemma_find_char_at(rest@, c);
        }
        let f = find_char(rest.as_str(), c);
        let n = rest.unicode_len();
        if f >= n {
            let ghost old_dv = out.deep_view();
            let ghost last_piece = rest@;
            out.push(rest);
            proof {
                assert(out.deep_view() =~~= old_dv.push(last_piece));
                assert(split_char_spec(last_piece, c) =~= seq![last_piece]);
                assert(old_dv.push(last_piece) =~= old_dv + seq![last_piece]);
            }
            break;
        } else {
            let piece = substring_copy(rest.as_str(), 0, f);
            let new_rest = substring_copy(rest.as_str(), f + 1, n);
            let ghost old_dv = out.deep_view();
            let ghost old_rest = rest@;
            out.push(piece);
            proof {
                assert(out.deep_view() =~~= old_dv.push(old_rest.subrange(0, f as int)));
                assert(new_rest@ =~= old_rest.skip(f as int + 1));
                assert(split_char_spec(old_rest, c) =~= seq![old_rest.subrange(0, f as int)]
                    + split_char_spec(old_rest.skip(f as int + 1), c));
                assert(out.deep_view() + split_char_spec(new_rest@, c) =~= (old_dv + (seq![
                    old_rest.subrange(0, f as int)] + split_char_spec(new_rest@, c))));
            }
            rest = new_rest;
        }
    }
    out
}

/// The string with every leading copy of the prefix `p` removed.
pub open spec fn strip_all_prefix(s: Seq<char>, p: Seq<char>) -> Seq<char>
    decreases s.len(),
{
    if p.len() > 0 && starts_with(s, p) {
        strip_all_prefix(s.skip(p.len() as int), p)
    } else {
        s
    }
}

/// Removes every leading copy of `p` from `s`.
pub fn trim_start_matches_str(s: &str, p: &str) -> (r: String)
    ensures
        r@ == strip_all_prefix(s@, p@),
{
    let mut cur: String = substring_copy(s, 0, s.unicode_len());
    proof {
        assert(s@.subrange(0, s@.len() as int) =~= s@);
    }
    loop
        invariant
            strip_all_prefix(s@, p@) == strip_all_prefix(cur@, p@),
        ensures
            cur@ == strip_all_prefix(s@, p@),
        decreases cur@.len() + 1,
    {
        let lp = p.unicode_len();
        if lp == 0 {
            return cur;
        }
        if !starts_with_str(cur.as_str(), p) {
            return cur;
        }
        let n = cur.unicode_len();
        let next = substring_copy(cur.as_str(), lp, n);
        proof {
            assert(next@ =~= cur@.skip(p@.len() as int));
        }
        cur = next;
    }
}

/// `s` with a comma inserted before every position whose distance from the
/// end is a positive multiple of three.
pub open spec fn group_digits_from(s: Seq<char>, i: int) -> Seq<char>
    decreases s.len() - i,
{
    if i < 0 || i >= s.len() {
        Seq::empty()
    } else {
        let sep: Seq<char> = if i > 0 && (s.len() - i) % 3 == 0 {
            seq![',']
        } else {
            Seq::empty()
        };
        sep + seq![s[i]] + group_digits_from(s, i + 1)
    }
}

/// Digit grouping of a whole rendered number.
pub open spec fn group_digits(s: Seq<char>) -> Seq<char> {
    group_digits_from(s, 0)
}

/// Inserts comma separators between groups of three digits.
pub fn group_with_commas(s: &str) -> (r: String)
    ensures
        r@ == group_digits(s@),
{
    let n = s.unicode_len();
    let mut r = String::new();
    let mut i: usize = 0;
    proof {
        assert(r@ + group_digits_from(s@, 0) =~= group_digits_from(s@, 0));
    }
    while i < n
        invariant
            n == s@.len(),
            i <= n,
            group_digits(s@) =~= r@ + group_digits_from(s@, i as int),
        decreases n - i,
    {
        if i > 0 && (n - i) % 3 == 0 {
            push_char(&mut r, ',');
        }
        let c = s.get_char(i);
        push_char(&mut r, c);
        i = i + 1;
    }
    assert(group_digits_from(s@, n as int) =~= Seq::<char>::empty());
    assert(r@ + Seq::<char>::empty() =~= r@);
    r
}

/// Integer part of a plain decimal string: everything before the first dot.
pub open spec fn dec_int_part(s: Seq<char>) -> Seq<char> {
    s.subrange(0, find_char_at(s, '.'))
}

/// Fractional part of a plain decimal string: everything after the first
/// dot; empty when there is no dot.
pub open spec fn dec_frac_part(s: Seq<char>) -> Seq<char> {
    if find_char_at(s, '.') < s.len() {
        s.subrange(find_char_at(s, '.') + 1, s.len() as int)
    } else {
        Seq::empty()
    }
}

/// A plain decimal string: digits around at most one dot, with at least
/// one digit in all.
pub open spec fn dec_wellformed(s: Seq<char>) -> bool {
    &&& s.len() > 0
    &&& forall|j: int| 0 <= j < dec_int_part(s).len() ==> is_digit(#[trigger] dec_int_part(s)[j])
    &&& forall|j: int| 0 <= j < dec_frac_part(s).len() ==> is_digit(#[trigger] dec_frac_part(s)[j])
    &&& find_char_at(dec_frac_part(s), '.') == dec_frac_part(s).len()
    &&& !(dec_int_part(s).len() == 0 && dec_frac_part(s).len() == 0)
}

/// Ceiling value of a plain decimal string; `None` when the shape is
/// different.
pub open spec fn dec_ceil_of(s: Seq<char>) -> Option<int> {
    if !dec_wellformed(s) {
        None
    } else if exists|j: int| 0 <= j < dec_frac_part(s).len() && #[trigger] dec_frac_part(s)[j]
        != '0' {
        Some(digits_val(dec_int_part(s)) + 1)
    } else {
        Some(digits_val(dec_int_part(s)))
    }
}

/// Parses a plain decimal string and rounds it up to a whole number.
/// Values above `u64::MAX` are rejected.
pub fn parse_decimal_ceil(s: &str) -> (r: Option<u64>)
    ensures
        match r {
            Some(v) => dec_ceil_of(s@) == Some(v as int),
            None => dec_ceil_of(s@) is None || dec_ceil_of(s@).unwrap() > u64::MAX,
        },
{
    let n = s.unicode_len();
    if n == 0 {
        return None;
    }
    proof {
        lemma_find_char_at(s@, '.');
    }
    let dot = find_char(s, '.');
    let ghost ip = dec_int_part(s@);
    let ghost fp = dec_frac_part(s@);
    proof {
        assert(ip == s@.subrange(0, dot as int));
        if (dot as int) < s@.len() {
            assert(fp == s@.subrange(dot as int + 1, s@.len() as int));
        } else {
            assert(fp == Seq::<char>::empty());
        }
    }
    // integer part: all digits, accumulate with overflow detection
    let mut acc: u64 = 0;
    let mut i: usize = 0;
    while i < dot
        invariant
            n == s@.len(),
            dot as int == find_char_at(s@, '.'),
            0 <= dot <= n,
            ip == s@.subrange(0, dot as int),
            i <= dot,
            forall|j: int| 0 <= j < i ==> is_digit(ip[j]),
            acc as int == digits_val(ip.subrange(0, i as int)),
            acc <= u64::MAX,
        decreases dot - i,
    {
        let c = s.get_char(i);
        assert(c == ip[i as int]);
        if !('0' <= c && c <= '9') {
            return None;
        }
        let d: u64 = ((c as u8) - 48) as u64;
        proof {
            assert(ip.subrange(0, i as int + 1).drop_last() == ip.subrange(0, i as int));
            assert(ip.subrange(0, i as int + 1).last() == ip[i as int]);
        }
        if acc > 0xFFFF_FFFF_FFFF_FFFF / 10 || 10 * acc > u64::MAX - d {
            proof {
                let t = ip.subrange(0, i as int + 1);
                lemma_digits_val_bounds(t);
                assert(digits_val(t) == (acc as int) * 10 + d);
                assert(digits_val(t) > u64::MAX) by (nonlinear_arith)
                    requires
                        digits_val(t) == (acc as int) * 10 + (d as int),
                        acc as int > 0x1999999999999999 || (acc as int) * 10 > u64::MAX - d,
                        0 <= d <= 9,
                        0 <= acc <= u64::MAX;
                if forall|j: int| 0 <= j < ip.len() ==> is_digit(ip[j]) {
                    lemma_digits_val_prefix_monotone(ip, i as int + 1);
                    assert(ip.subrange(0, ip.len() as int) == ip);
                }
            }
            return None;
        }
        acc = acc * 10 + d;
        i = i + 1;
    }
    assert(ip.subrange(0, dot as int) == ip);
    // fractional part: all digits, note any non-zero digit
    let mut any_nonzero = false;
    if dot < n {
        let mut k: usize = dot + 1;
        while k < n
            invariant
                n == s@.len(),
                dot as int == find_char_at(s@, '.'),
                dot < n,
                fp == s@.subrange(dot as int + 1, s@.len() as int),
                dot + 1 <= k <= n,
                forall|j: int| 0 <= j < k - dot - 1 ==> is_digit(fp[j]),
                any_nonzero == exists|j: int| 0 <= j < k - dot - 1 && fp[j] != '0',
            decreases n - k,
        {
            let c = s.get_char(k);
            assert(c == fp[k - dot - 1]);
            if !('0' <= c && c <= '9') {
                assert(0 <= k - dot - 1 < fp.len() && !is_digit(fp[k as int - dot - 1]));
                return None;
            }
            if c != '0' {
                any_nonzero = true;
                assert(0 <= k - dot - 1 < fp.len() && fp[k as int - dot - 1] != '0');
            }
            k = k + 1;
        }
        assert(fp.len() == n - dot - 1);
    }
    proof {
        lemma_find_char_at(fp, '.');
        if (dot as int) < s@.len() {
            assert forall|j: int| 0 <= j < fp.len() implies fp[j] != '.' by {
                assert(fp[j] == s@[dot as int + 1 + j]);
                lemma_find_char_at(s@, '.');
            }
            if find_char_at(fp, '.') < fp.len() {
                assert(fp[find_char_at(fp, '.')] == '.');
            }
        }
        assert(find_char_at(fp, '.') == fp.len());
    }
    proof {
        if dot == n {
            assert(fp =~= Seq::<char>::empty());
        }
        assert(ip.len() == dot);
        assert(forall|j: int| 0 <= j < ip.len() ==> is_digit(ip[j]));
        assert(forall|j: int| 0 <= j < fp.len() ==> is_digit(fp[j]));
    }
    if dot == 0 && (dot == n || n == dot + 1) {
        // a bare "." carries no digits at all
        return None;
    }
    proof {
        assert(dec_wellformed(s@));
        assert(any_nonzero == (exists|j: int| 0 <= j < fp.len() && #[trigger] fp[j] != '0'));
    }
    if any_nonzero {
        assert(dec_ceil_of(s@) == Some(digits_val(ip) + 1));
        if acc == 0xFFFF_FFFF_FFFF_FFFF {
            return None;
        }
        Some(acc + 1)
    } else {
        assert(dec_ceil_of(s@) == Some(digits_val(ip)));
        Some(acc)
    }
}


/// The smaller of two indices.
pub open spec fn min2(a: int, b: int) -> int {
    if a <= b {
        a
    } else {
        b
    }
}

/// Index of the first occurrence of `n` in `h`, or `h.len()` if absent.
pub open spec fn find_sub_at(h: Seq<char>, n: Seq<char>) -> int
    decreases h.len(),
{
    if matches_at(h, n, 0) {
        0
    } else if h.len() == 0 {
        0
    } else {
        1 + find_sub_at(h.skip(1), n)
    }
}

pub proof fn lemma_find_sub_at(h: Seq<char>, n: Seq<char>)
    ensures
        0 <= find_sub_at(h, n) <= h.len(),
        contains_seq(h, n) ==> matches_at(h, n, find_sub_at(h, n)) && forall|j: int|
            0 <= j < find_sub_at(h, n) ==> !matches_at(h, n, j),
        !contains_seq(h, n) ==> find_sub_at(h, n) == h.len(),
    decreases h.len(),
{
    if matches_at(h, n, 0) {
        assert(contains_seq(h, n));
    } else if h.len() == 0 {
        if contains_seq(h, n) {
            let i = choose|i: int| matches_at(h, n, i);
            assert(i == 0 && n.len() == 0);
            assert(matches_at(h, n, 0));
        }
    } else {
        let t = h.skip(1);
        lemma_find_sub_at(t, n);
        assert forall|j: int| 0 <= j implies matches_at(h, n, j + 1) == matches_at(t, n, j) by {
            if j + 1 + n.len() <= h.len() {
                assert(h.subrange(j + 1, j + 1 + n.len()) =~= t.subrange(j, j + n.len()));
            }
        }
        if contains_seq(h, n) {
            let i = choose|i: int| matches_at(h, n, i);
            assert(i > 0);
            assert(matches_at(t, n, i - 1));
            assert(contains_seq(t, n));
            assert(matches_at(h, n, find_sub_at(h, n)));
            assert forall|j: int| 0 <= j < find_sub_at(h, n) implies !matches_at(h, n, j) by {
                if j > 0 {
                    assert(matches_at(h, n, j) == matches_at(t, n, j - 1));
                }
            }
        } else {
            if contains_seq(t, n) {
                let i = choose|i: int| matches_at(t, n, i);
                assert(matches_at(h, n, i + 1));
            }
        }
    }
}

/// Number of leading copies of `c`.
pub open spec fn char_prefix_len(s: Seq<char>, c: char) -> int
    decreases s.len(),
{
    if s.len() == 0 {
        0
    } else if s[0] != c {
        0
    } else {
        1 + char_prefix_len(s.skip(1), c)
    }
}

pub proof fn lemma_char_prefix_len(s: Seq<char>, c: char)
    ensures
        0 <= char_prefix_len(s, c) <= s.len(),
        forall|j: int| 0 <= j < char_prefix_len(s, c) ==> s[j] == c,
        char_prefix_len(s, c) < s.len() ==> s[char_prefix_len(s, c)] != c,
    decreases s.len(),
{
    if s.len() > 0 && s[0] == c {
        lemma_char_prefix_len(s.skip(1), c);
        assert forall|j: int| 0 <= j < char_prefix_len(s, c) implies s[j] == c by {
            if j > 0 {
                assert(s.skip(1)[j - 1] == s[j]);
            }
        }
        if char_prefix_len(s, c) < s.len() {
            assert(s.skip(1)[char_prefix_len(s, c) - 1] == s[char_prefix_len(s, c)]);
        }
    }
}

/// Number of trailing copies of `c`.
pub open spec fn char_suffix_len(s: Seq<char>, c: char) -> int
    decreases s.len(),
{
    if s.len() == 0 {
        0
    } else if s[s.len() - 1] != c {
        0
    } else {
        1 + char_suffix_len(s.take(s.len() - 1), c)
    }
}

pub proof fn lemma_char_suffix_len(s: Seq<char>, c: char)
    ensures
        0 <= char_suffix_len(s, c) <= s.len(),
        forall|j: int| s.len() - char_suffix_len(s, c) <= j < s.len() ==> s[j] == c,
        char_suffix_len(s, c) < s.len() ==> s[s.len() - 1 - char_suffix_len(s, c)] != c,
    decreases s.len(),
{
    if s.len() > 0 && s[s.len() - 1] == c {
        let t = s.take(s.len() - 1);
        lemma_char_suffix_len(t, c);
        assert forall|j: int| s.len() - char_suffix_len(s, c) <= j < s.len() implies s[j] == c by {
            if j < s.len() - 1 {
                assert(t[j] == s[j]);
            }
        }
        if char_suffix_len(s, c) < s.len() {
            assert(t[s.len() - 2 - char_suffix_len(t, c)] == s[s.len() - 1 - char_suffix_len(
                s, c)]);
        }
    }
}

/// The string with every leading and trailing copy of `c` removed.
pub open spec fn trim_char_spec(s: Seq<char>, c: char) -> Seq<char> {
    if char_prefix_len(s, c) == s.len() {
        Seq::empty()
    } else {
        s.subrange(char_prefix_len(s, c), s.len() - char_suffix_len(s, c))
    }
}

/// Removes every leading and trailing copy of `c`.
pub fn trim_matches_char(s: &str, c: char) -> (r: String)
    ensures
        r@ == trim_char_spec(s@, c),
{
    let n = s.unicode_len();
    proof {
        lemma_char_prefix_len(s@, c);
        lemma_char_suffix_len(s@, c);
    }
    let mut a: usize = 0;
    let mut stop = false;
    while !stop && a < n
        invariant
            n == s@.len(),
            a <= n,
            forall|j: int| 0 <= j < a ==> s@[j] == c,
            stop ==> a < n && s@[a as int] != c,
        decreases n - a, (if stop { 0int } else { 1int }),
    {
        if s.get_char(a) == c {
            a = a + 1;
        } else {
            stop = true;
        }
    }
    if a == n {
        assert(char_prefix_len(s@, c) == n) by {
            if char_prefix_len(s@, c) < n {
                assert(s@[char_prefix_len(s@, c)] == c);
            }
        }
        return String::new();
    }
    assert(a as int == char_prefix_len(s@, c)) by {
        if (a as int) < char_prefix_len(s@, c) {
            assert(s@[a as int] == c);
        }
        if (a as int) > char_prefix_len(s@, c) {
            assert(s@[char_prefix_len(s@, c)] == c);
        }
    }
    let mut b: usize = n;
    let mut stop2 = false;
    while !stop2 && b > a
        invariant
            n == s@.len(),
            a <= b <= n,
            a as int == char_prefix_len(s@, c) < n,
            s@[a as int] != c,
            forall|j: int| b <= j < n ==> s@[j] == c,
            stop2 ==> b > a && s@[b as int - 1] != c,
        decreases b, (if stop2 { 0int } else { 1int }),
    {
        if s.get_char(b - 1) == c {
            b = b - 1;
        } else {
            stop2 = true;
        }
    }
    assert(b > a) by {
        if b == a {
            assert(s@[a as int] == c);
        }
    }
    assert(b as int == n - char_suffix_len(s@, c)) by {
        if (b as int) < n - char_suffix_len(s@, c) {
            assert(s@[b as int - 1] == c);
        }
        if (b as int) > n - char_suffix_len(s@, c) {
            assert(char_suffix_len(s@, c) < n);
            assert(s@[n - 1 - char_suffix_len(s@, c)] == c);
        }
    }
    substring_copy(s, a, b)
}


/// Every character the digit filter keeps is a digit.
pub proof fn lemma_keep_digits_all(s: Seq<char>)
    ensures
        forall|j: int| 0 <= j < keep_digits_spec(s).len() ==> is_digit(
            #[trigger] keep_digits_spec(s)[j]),
    decreases s.len(),
{
    if s.len() > 0 {
        lemma_keep_digits_all(s.drop_last());
        if is_digit(s.last()) {
            assert forall|j: int| 0 <= j < keep_digits_spec(s).len() implies is_digit(
                #[trigger] keep_digits_spec(s)[j]) by {
                if j < keep_digits_spec(s).len() - 1 {
                    assert(keep_digits_spec(s)[j] == keep_digits_spec(s.drop_last())[j]);
                }
            }
        }
    }
}


/// Stripping a repeated prefix leaves a suffix of the string.
pub proof fn lemma_strip_all_prefix_suffix(s: Seq<char>, p: Seq<char>) -> (k: int)
    ensures
        0 <= k <= s.len(),
        strip_all_prefix(s, p) =~= s.skip(k),
    decreases s.len(),
{
    if p.len() > 0 && starts_with(s, p) {
        let k2 = lemma_strip_all_prefix_suffix(s.skip(p.len() as int), p);
        assert(s.skip(p.len() as int).skip(k2) =~= s.skip(p.len() + k2));
        p.len() + k2
    } else {
        assert(s.skip(0) =~= s);
        0
    }
}

/// Case folding commutes with taking a suffix.
pub proof fn lemma_lower_chars_skip(s: Seq<char>, k: int)
    requires
        0 <= k <= s.len(),
    ensures
        lower_chars(s).skip(k) =~= lower_chars(s.skip(k)),
{
}

/// Removing a character distributes over concatenation.
pub proof fn lemma_remove_char_append(a: Seq<char>, b: Seq<char>, c: char)
    ensures
        remove_char_spec(a + b, c) =~= remove_char_spec(a, c) + remove_char_spec(b, c),
    decreases b.len(),
{
    if b.len() == 0 {
        assert(a + b =~= a);
        assert(remove_char_spec(b, c) =~= Seq::<char>::empty());
    } else {
        lemma_remove_char_append(a, b.drop_last(), c);
        assert((a + b).drop_last() =~= a + b.drop_last());
        assert((a + b).last() == b.last());
    }
}

} // verus!
