//! Text helpers on character sequences: decimal numerals, searching and
//! slicing of strings.

use vstd::prelude::*;

verus! {

/// The character of a decimal digit `d` (0 to 9).
pub open spec fn digit_char(d: int) -> char {
    ((d + 48) as u8) as char
}

/// The decimal numeral of `n`, without sign or leading zeros.
pub open spec fn decimal_text(n: nat) -> Seq<char>
    decreases n,
{
    if n < 10 {
        seq![digit_char(n as int)]
    } else {
        decimal_text(n / 10).push(digit_char((n % 10) as int))
    }
}

/// A string holding the single digit `d`.
fn digit_string(d: u64) -> (s: String)
    requires
        d < 10,
    ensures
        s@ == seq![digit_char(d as int)],
{
    let digits = "0123456789";
    proof {
        reveal_strlit("0123456789");
    }
    let one = digits.substring_char(d as usize, (d + 1) as usize);
    let s = String::from_str(one);
    assert(s@ =~= seq![digit_char(d as int)]);
    s
}

/// The decimal numeral of `n`, as `n.to_string()` writes it.
pub fn u64_to_decimal(n: u64) -> (s: String)
    ensures
        s@ == decimal_text(n as nat),
{
    let mut rest: u64 = n / 10;
    let mut out = digit_string(n % 10);
    proof {
        if n >= 10 {
            assert(decimal_text(n as nat) =~= decimal_text(rest as nat) + out@);
        }
    }
    while rest > 0
        invariant
            rest > 0 ==> decimal_text(n as nat) == decimal_text(rest as nat) + out@,
            rest == 0 ==> decimal_text(n as nat) == out@,
        decreases rest,
    {
        let d = digit_string(rest % 10);
        let ghost old_out = out@;
        let mut t = d;
        t.append(out.as_str());
        out = t;
        proof {
            if rest >= 10 {
                assert(decimal_text(rest as nat) == decimal_text((rest / 10) as nat).push(
                    digit_char((rest % 10) as int),
                ));
                assert(decimal_text(n as nat) =~= decimal_text((rest / 10) as nat) + out@);
            } else {
                assert(decimal_text(n as nat) =~= out@);
            }
        }
        rest = rest / 10;
    }
    out
}


/// Whether `c` is an ASCII decimal digit.
pub open spec fn is_digit(c: char) -> bool {
    48 <= c as int <= 57
}

/// Whether every character of `s` is an ASCII decimal digit.
pub open spec fn all_digits(s: Seq<char>) -> bool {
    forall|i: int| 0 <= i < s.len() ==> is_digit(#[trigger] s[i])
}

/// The value of a digit character.
pub open spec fn digit_value(c: char) -> int {
    c as int - 48
}

/// The value of a string of decimal digits, most significant first.
pub open spec fn digits_value(s: Seq<char>) -> int
    decreases s.len(),
{
    if s.len() == 0 {
        0
    } else {
        digits_value(s.drop_last()) * 10 + digit_value(s.last())
    }
}

/// What `i32::from_str` gives for `s`: an optional sign, then one or more
/// decimal digits whose value fits an `i32`; `None` for anything else.
pub open spec fn i32_from_text(s: Seq<char>) -> Option<i32> {
    if s.len() == 0 {
        None
    } else {
        let signed = s[0] == '-' || s[0] == '+';
        let digits = if signed { s.drop_first() } else { s };
        let v = if s[0] == '-' { -digits_value(digits) } else { digits_value(digits) };
        if digits.len() > 0 && all_digits(digits) && i32::MIN <= v <= i32::MAX {
            Some(v as i32)
        } else {
            None
        }
    }
}

proof fn lemma_digits_value_nonneg(s: Seq<char>)
    requires
        all_digits(s),
    ensures
        digits_value(s) >= 0,
    decreases s.len(),
{
    if s.len() > 0 {
        assert(all_digits(s.drop_last()));
        lemma_digits_value_nonneg(s.drop_last());
        assert(is_digit(s[s.len() - 1]));
    }
}

/// A prefix of a digit string never has a larger value than the whole.
proof fn lemma_digits_value_prefix(s: Seq<char>, k: int)
    requires
        all_digits(s),
        0 <= k <= s.len(),
    ensures
        digits_value(s.take(k)) <= digits_value(s),
    decreases s.len(),
{
    if k == s.len() {
        assert(s.take(k) =~= s);
    } else {
        let t = s.drop_last();
        assert(all_digits(t));
        assert(s.take(k) =~= t.take(k));
        lemma_digits_value_prefix(t, k);
        lemma_digits_value_nonneg(t);
        assert(is_digit(s[s.len() - 1]));
    }
}

/// Reads `s` as `i32::from_str` does.
pub fn parse_i32(s: &str) -> (r: Option<i32>)
    ensures
        r == i32_from_text(s@),
{
    let n = s.unicode_len();
    if n == 0 {
        return None;
    }
    let c0 = s.get_char(0);
    let negative = c0 == '-';
    let start: usize = if c0 == '-' || c0 == '+' { 1 } else { 0 };
    let ghost digits = if start == 1 { s@.drop_first() } else { s@ };
    assert(digits =~= s@.subrange(start as int, n as int));
    if start == n {
        return None;
    }
    let mut acc: i64 = 0;
    let mut i: usize = start;
    while i < n
        invariant
            n == s@.len(),
            n > 0,
            start <= i <= n,
            start == 1 <==> (s@[0] == '-' || s@[0] == '+'),
            start == 0 || start == 1,
            negative == (s@[0] == '-'),
            digits == s@.subrange(start as int, n as int),
            digits == (if start == 1 { s@.drop_first() } else { s@ }),
            all_digits(s@.subrange(start as int, i as int)),
            acc == digits_value(s@.subrange(start as int, i as int)),
            0 <= acc <= 2147483648,
        decreases n - i,
    {
        let c = s.get_char(i);
        let code = c as u32;
        if code < 48 || code > 57 {
            assert(digits[i - start] == c);
            assert(!is_digit(digits[i - start]));
            assert(!all_digits(digits));
            return None;
        }
        let ghost prev = s@.subrange(start as int, i as int);
        let ghost next = s@.subrange(start as int, i + 1);
        assert(next.drop_last() =~= prev);
        assert(all_digits(next));
        acc = acc * 10 + (code - 48) as i64;
        i = i + 1;
        if acc > 2147483648 {
            proof {
                assert(next =~= digits.take(next.len() as int));
                if all_digits(digits) {
                    lemma_digits_value_prefix(digits, next.len() as int);
                    assert(digits_value(digits) > 2147483648);
                }
            }
            return None;
        }
    }
    assert(s@.subrange(start as int, n as int) =~= digits);
    if negative {
        Some((-acc) as i32)
    } else if acc <= 2147483647 {
        Some(acc as i32)
    } else {
        None
    }
}


/// The position of the first `c` in `s`, or `s.len()` where there is none.
pub open spec fn first_index(s: Seq<char>, c: char) -> int
    decreases s.len(),
{
    if s.len() == 0 {
        0
    } else if s[0] == c {
        0
    } else {
        1 + first_index(s.drop_first(), c)
    }
}

/// `first_index` is the one position before which no `c` occurs and at
/// which `c` stands, or the end.
pub proof fn lemma_first_index(s: Seq<char>, c: char, i: int)
    requires
        0 <= i <= s.len(),
        forall|k: int| 0 <= k < i ==> s[k] != c,
        i == s.len() || s[i] == c,
    ensures
        first_index(s, c) == i,
    decreases s.len(),
{
    if s.len() > 0 && s[0] != c {
        let t = s.drop_first();
        assert forall|k: int| 0 <= k < i - 1 implies t[k] != c by {
            assert(t[k] == s[k + 1]);
        }
        lemma_first_index(t, c, i - 1);
    }
}

/// The position of the first `c` in `s`, counted in characters.
pub fn find_char(s: &str, c: char) -> (r: Option<usize>)
    ensures
        r matches Some(i) ==> i as int == first_index(s@, c) && i < s@.len(),
        r is None ==> first_index(s@, c) == s@.len(),
{
    let n = s.unicode_len();
    let mut i: usize = 0;
    while i < n
        invariant
            n == s@.len(),
            0 <= i <= n,
            forall|k: int| 0 <= k < i ==> s@[k] != c,
        decreases n - i,
    {
        if s.get_char(i) == c {
            proof {
                lemma_first_index(s@, c, i as int);
            }
            return Some(i);
        }
        i = i + 1;
    }
    proof {
        lemma_first_index(s@, c, n as int);
    }
    None
}

/// `s` without its first parenthesised part: from the first `(` up to and
/// including the first `)` after it. Without such a pair, `s` itself.
pub open spec fn without_first_group(s: Seq<char>) -> Seq<char> {
    let open_at = first_index(s, '(');
    let close_after = first_index(s.skip(open_at), ')');
    if open_at < s.len() && close_after < s.len() - open_at {
        s.take(open_at) + s.skip(open_at + close_after + 1)
    } else {
        s
    }
}

/// Removes the first parenthesised part of `s`, as a line number such as
/// `U79 (Duisburg)` is shortened for display.
pub fn remove_first_group(s: &str) -> (r: String)
    ensures
        r@ == without_first_group(s@),
{
    let n = s.unicode_len();
    match find_char(s, '(') {
        None => String::from_str(s),
        Some(open_at) => {
            let tail = s.substring_char(open_at, n);
            match find_char(tail, ')') {
                None => String::from_str(s),
                Some(close_after) => {
                    let head = String::from_str(s.substring_char(0, open_at));
                    let rest = s.substring_char(open_at + close_after + 1, n);
                    let r = head.concat(rest);
                    assert(tail@ =~= s@.skip(open_at as int));
                    assert(r@ =~= without_first_group(s@));
                    r
                }
            }
        }
    }
}

/// Cutting the first group from `a(g)b`, where `a` holds no `(` and `g` no
/// `)`, leaves `ab`; a text without `(` stays as it is.
pub proof fn lemma_first_group_cut(a: Seq<char>, g: Seq<char>, b: Seq<char>)
    ensures
        (forall|i: int| 0 <= i < a.len() ==> a[i] != '(') && (forall|i: int|
            0 <= i < g.len() ==> g[i] != ')') ==> without_first_group(
            a + seq!['('] + g + seq![')'] + b,
        ) == a + b,
        (forall|i: int| 0 <= i < a.len() ==> a[i] != '(') ==> without_first_group(a) == a,
{
    if forall|i: int| 0 <= i < a.len() ==> a[i] != '(' {
        lemma_first_index(a, '(', a.len() as int);
        if forall|i: int| 0 <= i < g.len() ==> g[i] != ')' {
            let s = a + seq!['('] + g + seq![')'] + b;
            assert forall|k: int| 0 <= k < a.len() implies s[k] != '(' by {
                assert(s[k] == a[k]);
            }
            lemma_first_index(s, '(', a.len() as int);
            let t = s.skip(a.len() as int);
            assert forall|k: int| 0 <= k < g.len() + 1 implies t[k] != ')' by {
                if k > 0 {
                    assert(t[k] == g[k - 1]);
                }
            }
            assert(t[g.len() as int + 1] == ')');
            lemma_first_index(t, ')', g.len() as int + 1);
            assert(s.take(a.len() as int) =~= a);
            assert(s.skip(a.len() as int + g.len() as int + 2) =~= b);
        }
    }
}

/// Whether `p` occurs in `s` as a contiguous part.
pub open spec fn contains_text(s: Seq<char>, p: Seq<char>) -> bool {
    exists|i: int| 0 <= i && i + p.len() <= s.len() && #[trigger] s.subrange(i, i + p.len()) == p
}

/// Whether `s` holds `p` at position `i`.
fn matches_at(s: &str, p: &str, i: usize) -> (r: bool)
    requires
        i + p@.len() <= s@.len(),
    ensures
        r == (s@.subrange(i as int, i + p@.len()) == p@),
{
    let _n = s.unicode_len();
    let m = p.unicode_len();
    let mut j: usize = 0;
    while j < m
        invariant
            m == p@.len(),
            _n == s@.len(),
            i + m <= s@.len(),
            0 <= j <= m,
            forall|k: int| 0 <= k < j ==> s@[i + k] == p@[k],
        decreases m - j,
    {
        if s.get_char(i + j) != p.get_char(j) {
            assert(s@.subrange(i as int, i + m)[j as int] != p@[j as int]);
            return false;
        }
        j = j + 1;
    }
    assert(s@.subrange(i as int, i + m) =~= p@);
    true
}

/// Whether `p` occurs in `s`, as `str::contains` answers.
pub fn contains(s: &str, p: &str) -> (r: bool)
    ensures
        r == contains_text(s@, p@),
{
    let n = s.unicode_len();
    let m = p.unicode_len();
    if m > n {
        return false;
    }
    if m == 0 {
        assert(s@.subrange(0, 0 + p@.len() as int) =~= p@);
        return true;
    }
    let mut i: usize = 0;
    while i <= n - m
        invariant
            n == s@.len(),
            m == p@.len(),
            0 < m <= n,
            0 <= i <= n - m + 1,
            forall|k: int| 0 <= k < i ==> #[trigger] s@.subrange(k, k + m) != p@,
        decreases n - m + 1 - i,
    {
        if matches_at(s, p, i) {
            return true;
        }
        i = i + 1;
    }
    false
}

/// `s` without the prefix `p`, where `s` starts with `p`.
pub open spec fn without_prefix(s: Seq<char>, p: Seq<char>) -> Option<Seq<char>> {
    if p.len() <= s.len() && s.take(p.len() as int) == p {
        Some(s.skip(p.len() as int))
    } else {
        None
    }
}

/// `s` without the suffix `p`, where `s` ends with `p`.
pub open spec fn without_suffix(s: Seq<char>, p: Seq<char>) -> Option<Seq<char>> {
    if p.len() <= s.len() && s.skip(s.len() - p.len()) == p {
        Some(s.take(s.len() - p.len()))
    } else {
        None
    }
}

/// `str::strip_prefix`, giving an owned string.
pub fn strip_prefix(s: &str, p: &str) -> (r: Option<String>)
    ensures
        r matches Some(t) ==> without_prefix(s@, p@) == Some(t@),
        r is None ==> without_prefix(s@, p@) is None,
{
    let n = s.unicode_len();
    let m = p.unicode_len();
    if m > n {
        return None;
    }
    if matches_at(s, p, 0) {
        assert(s@.subrange(0, m as int) =~= s@.take(m as int));
        let t = String::from_str(s.substring_char(m, n));
        assert(t@ =~= s@.skip(m as int));
        Some(t)
    } else {
        assert(s@.subrange(0, m as int) =~= s@.take(m as int));
        None
    }
}

/// `str::strip_suffix`, giving an owned string.
pub fn strip_suffix(s: &str, p: &str) -> (r: Option<String>)
    ensures
        r matches Some(t) ==> without_suffix(s@, p@) == Some(t@),
        r is None ==> without_suffix(s@, p@) is None,
{
    let n = s.unicode_len();
    let m = p.unicode_len();
    if m > n {
        return None;
    }
    if matches_at(s, p, n - m) {
        assert(s@.subrange(n - m, n as int) =~= s@.skip(n - m));
        let t = String::from_str(s.substring_char(0, n - m));
        assert(t@ =~= s@.take(n - m));
        Some(t)
    } else {
        assert(s@.subrange(n - m, n as int) =~= s@.skip(n - m));
        None
    }
}

/// Whether `c` has the Unicode White_Space property, as `char::is_whitespace`.
pub open spec fn is_white_space(c: char) -> bool {
    let x = c as int;
    ||| 9 <= x <= 13
    ||| x == 32
    ||| x == 0x85
    ||| x == 0xA0
    ||| x == 0x1680
    ||| 0x2000 <= x <= 0x200A
    ||| x == 0x2028
    ||| x == 0x2029
    ||| x == 0x202F
    ||| x == 0x205F
    ||| x == 0x3000
}

/// Whether `s` is empty once trimmed: all its characters are white space.
pub open spec fn is_blank(s: Seq<char>) -> bool {
    forall|i: int| 0 <= i < s.len() ==> is_white_space(#[trigger] s[i])
}

fn white_space(c: char) -> (r: bool)
    ensures
        r == is_white_space(c),
{
    let x = c as u32;
    (9 <= x && x <= 13) || x == 32 || x == 0x85 || x == 0xA0 || x == 0x1680 || (0x2000 <= x
        && x <= 0x200A) || x == 0x2028 || x == 0x2029 || x == 0x202F || x == 0x205F || x
        == 0x3000
}

/// Whether `s.trim().is_empty()`.
pub fn blank(s: &str) -> (r: bool)
    ensures
        r == is_blank(s@),
{
    let n = s.unicode_len();
    let mut i: usize = 0;
    while i < n
        invariant
            n == s@.len(),
            0 <= i <= n,
            forall|k: int| 0 <= k < i ==> is_white_space(#[trigger] s@[k]),
        decreases n - i,
    {
        if !white_space(s.get_char(i)) {
            return false;
        }
        i = i + 1;
    }
    true
}

/// Lexicographic order of strings by code point, which is the order of
/// `String`'s `Ord` (UTF-8 keeps the order of code points).
pub open spec fn text_lt(a: Seq<char>, b: Seq<char>) -> bool
    decreases a.len(),
{
    if b.len() == 0 {
        false
    } else if a.len() == 0 {
        true
    } else if a[0] != b[0] {
        (a[0] as int) < (b[0] as int)
    } else {
        text_lt(a.drop_first(), b.drop_first())
    }
}

/// Whether `a < b` as strings.
pub fn text_less(a: &str, b: &str) -> (r: bool)
    ensures
        r == text_lt(a@, b@),
{
    let n = a.unicode_len();
    let m = b.unicode_len();
    let mut i: usize = 0;
    assert(a@.skip(0) =~= a@ && b@.skip(0) =~= b@);
    while i < n && i < m
        invariant
            n == a@.len(),
            m == b@.len(),
            0 <= i <= n,
            i <= m,
            text_lt(a@, b@) == text_lt(a@.skip(i as int), b@.skip(i as int)),
        decreases n - i,
    {
        let x = a.get_char(i);
        let y = b.get_char(i);
        assert(a@.skip(i as int)[0] == x && b@.skip(i as int)[0] == y);
        if x != y {
            return (x as u32) < (y as u32);
        }
        assert(a@.skip(i as int).drop_first() =~= a@.skip(i + 1));
        assert(b@.skip(i as int).drop_first() =~= b@.skip(i + 1));
        i = i + 1;
    }
    i < m
}


/// No string comes before itself, and of two strings at most one comes
/// before the other.
pub proof fn lemma_text_lt_asymmetric(a: Seq<char>, b: Seq<char>)
    ensures
        text_lt(a, b) ==> !text_lt(b, a),
    decreases a.len(),
{
    if a.len() > 0 && b.len() > 0 && a[0] == b[0] {
        lemma_text_lt_asymmetric(a.drop_first(), b.drop_first());
    }
}

/// The order of strings is transitive.
pub proof fn lemma_text_lt_transitive(a: Seq<char>, b: Seq<char>, c: Seq<char>)
    requires
        text_lt(a, b),
        text_lt(b, c),
    ensures
        text_lt(a, c),
    decreases a.len(),
{
    if a.len() > 0 && b.len() > 0 && c.len() > 0 && a[0] == b[0] && b[0] == c[0] {
        lemma_text_lt_transitive(a.drop_first(), b.drop_first(), c.drop_first());
    }
}

/// Of two different strings, one comes before the other.
pub proof fn lemma_text_lt_total(a: Seq<char>, b: Seq<char>)
    ensures
        a == b || text_lt(a, b) || text_lt(b, a),
    decreases a.len(),
{
    if a.len() == 0 && b.len() == 0 {
        assert(a =~= b);
    } else if a.len() > 0 && b.len() > 0 && a[0] == b[0] {
        lemma_text_lt_total(a.drop_first(), b.drop_first());
        if a.drop_first() == b.drop_first() {
            assert(a =~= seq![a[0]] + a.drop_first());
            assert(b =~= seq![b[0]] + b.drop_first());
        }
    } else if a.len() > 0 && b.len() > 0 {
        assert(a[0] as int != b[0] as int);
    }
}


proof fn lemma_digit_char(d: int)
    requires
        0 <= d < 10,
    ensures
        is_digit(digit_char(d)),
        digit_value(digit_char(d)) == d,
{
    if d == 0 {
    } else if d == 1 {
    } else if d == 2 {
    } else if d == 3 {
    } else if d == 4 {
    } else if d == 5 {
    } else if d == 6 {
    } else if d == 7 {
    } else if d == 8 {
    } else {
        assert(d == 9);
    }
}

pub(crate) proof fn lemma_decimal_digits(n: nat)
    ensures
        all_digits(decimal_text(n)),
        digits_value(decimal_text(n)) == n,
        decimal_text(n).len() > 0,
    decreases n,
{
    lemma_digit_char((n % 10) as int);
    if n < 10 {
        assert(n % 10 == n);
        let t = decimal_text(n);
        assert(t.drop_last() =~= Seq::<char>::empty());
        assert(digits_value(t) == digits_value(t.drop_last()) * 10 + digit_value(t.last()));
    } else {
        lemma_decimal_digits(n / 10);
        let t = decimal_text(n);
        assert(t.drop_last() =~= decimal_text(n / 10));
        assert(t.last() == digit_char((n % 10) as int));
        assert(digits_value(t) == digits_value(t.drop_last()) * 10 + digit_value(t.last()));
        assert((n / 10) * 10 + n % 10 == n);
        assert forall|i: int| 0 <= i < t.len() implies is_digit(#[trigger] t[i]) by {
            if i < t.len() - 1 {
                assert(t[i] == decimal_text(n / 10)[i]);
            }
        }
    }
}

/// Reading back a numeral that `u64_to_decimal` wrote gives the number,
/// for every number that fits an `i32`.
pub proof fn lemma_decimal_reads_back(n: nat)
    requires
        n <= i32::MAX,
    ensures
        i32_from_text(decimal_text(n)) == Some(n as i32),
{
    lemma_decimal_digits(n);
    assert(is_digit(decimal_text(n)[0]));
}

} // verus!
