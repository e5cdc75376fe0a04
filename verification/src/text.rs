//! Character-level helpers shared by the alias and script grammars.
use vstd::prelude::*;

verus! {

// ---------------------------------------------------------------------------
// Strings and character sequences
// ---------------------------------------------------------------------------

/// Appends one character to a `String` (`String::push`).
#[verifier::external_body]
pub(crate) fn push_char(s: &mut String, c: char)
    ensures
        final(s)@ == old(s)@.push(c),
{
    s.push(c)
}

/// The characters of a string slice, in order.
pub fn str_chars(s: &str) -> (v: Vec<char>)
    ensures
        v@ == s@,
{
    let mut v: Vec<char> = Vec::new();
    for c in it: s.chars()
        invariant
            v@ == it.seq().take(it.index() as int),
    {
        v.push(c);
    }
    v
}

/// A `String` holding the characters `v[from..to]`.
pub fn string_of(v: &Vec<char>, from: usize, to: usize) -> (s: String)
    requires
        from <= to <= v.len(),
    ensures
        s@ == v@.subrange(from as int, to as int),
{
    let mut s = String::new();
    let mut i = from;
    while i < to
        invariant
            from <= i <= to <= v.len(),
            s@ == v@.subrange(from as int, i as int),
        decreases to - i,
    {
        push_char(&mut s, v[i]);
        i = i + 1;
        assert(s@ =~= v@.subrange(from as int, i as int));
    }
    s
}

/// Appends `src[from..to]` to `dst`.
pub fn extend_chars(dst: &mut Vec<char>, src: &Vec<char>, from: usize, to: usize)
    requires
        from <= to <= src.len(),
    ensures
        final(dst)@ == old(dst)@ + src@.subrange(from as int, to as int),
{
    let mut i = from;
    while i < to
        invariant
            from <= i <= to <= src.len(),
            dst@ == old(dst)@ + src@.subrange(from as int, i as int),
        decreases to - i,
    {
        dst.push(src[i]);
        i = i + 1;
        assert(dst@ =~= old(dst)@ + src@.subrange(from as int, i as int));
    }
}

// ---------------------------------------------------------------------------
// Decimal digits
// ---------------------------------------------------------------------------

/// Whether the regex class `\d` (Unicode general category Nd) holds `c`.
pub uninterp spec fn regex_decimal_digit(c: char) -> bool;

/// Tests `c` against the class `\d` of the regex crate, which by default is the
/// Unicode class of decimal numbers (Nd). Only characters outside ASCII are asked
/// here; the contract says no more than that the answer is that class's.
#[verifier::external_body]
fn regex_class_digit(c: char) -> (r: bool)
    ensures
        r == regex_decimal_digit(c),
{
    let mut buf = [0u8; 4];
    match lazy_regex::regex::Regex::new(r"\A\d\z") {
        Ok(re) => re.is_match(c.encode_utf8(&mut buf)),
        Err(_) => false,
    }
}

/// An ASCII decimal digit `0`..`9`.
pub open spec fn is_ascii_digit(c: char) -> bool {
    '0' <= c && c <= '9'
}

/// The class `\d` of the alias and script patterns. Within ASCII, Nd holds exactly
/// the digits `0`..`9`; outside ASCII it is the regex crate's Unicode table.
pub open spec fn is_digit(c: char) -> bool {
    if (c as u32) < 128 {
        is_ascii_digit(c)
    } else {
        regex_decimal_digit(c)
    }
}

/// Executable form of [`is_digit`].
pub fn digit_class(c: char) -> (r: bool)
    ensures
        r == is_digit(c),
{
    if (c as u32) < 128 {
        '0' <= c && c <= '9'
    } else {
        regex_class_digit(c)
    }
}

/// End of the longest run of `\d` characters of `s` that starts at `i`.
pub open spec fn digit_run_end(s: Seq<char>, i: int) -> int
    decreases s.len() - i,
{
    if 0 <= i < s.len() && is_digit(s[i]) {
        digit_run_end(s, i + 1)
    } else {
        i
    }
}

/// Facts about a digit run: it stays in bounds, holds only digits, and stops at a
/// non-digit or at the end.
pub proof fn lemma_digit_run(s: Seq<char>, i: int)
    requires
        0 <= i <= s.len(),
    ensures
        i <= digit_run_end(s, i) <= s.len(),
        forall|j: int| i <= j < digit_run_end(s, i) ==> is_digit(#[trigger] s[j]),
        digit_run_end(s, i) < s.len() ==> !is_digit(s[digit_run_end(s, i)]),
    decreases s.len() - i,
{
    if i < s.len() && is_digit(s[i]) {
        lemma_digit_run(s, i + 1);
    }
}

/// A digit run only depends on the characters it covers and the one that stops it.
pub proof fn lemma_digit_run_agree(s: Seq<char>, t: Seq<char>, i: int)
    requires
        0 <= i <= s.len(),
        0 <= i <= t.len(),
        digit_run_end(s, i) < s.len(),
        digit_run_end(s, i) < t.len(),
        forall|j: int| i <= j <= digit_run_end(s, i) ==> s[j] == t[j],
    ensures
        digit_run_end(t, i) == digit_run_end(s, i),
    decreases s.len() - i,
{
    lemma_digit_run(s, i);
    assert(s[i] == t[i]);
    if is_digit(s[i]) {
        lemma_digit_run_agree(s, t, i + 1);
    }
}

/// The digit run of `t` at `i`, where `t[i..]` begins with digits `d` followed by
/// a non-digit or by the end.
pub proof fn lemma_digit_run_of_prefix(t: Seq<char>, i: int, n: int)
    requires
        0 <= i,
        i + n <= t.len(),
        0 <= n,
        forall|j: int| i <= j < i + n ==> is_digit(#[trigger] t[j]),
        i + n == t.len() || !is_digit(t[i + n]),
    ensures
        digit_run_end(t, i) == i + n,
    decreases n,
{
    if n > 0 {
        lemma_digit_run_of_prefix(t, i + 1, n - 1);
    }
}

/// End of the digit run of `s` at `i`.
pub fn find_digit_run_end(s: &Vec<char>, i: usize) -> (e: usize)
    requires
        i <= s.len(),
    ensures
        e == digit_run_end(s@, i as int),
        i <= e <= s.len(),
{
    proof { lemma_digit_run(s@, i as int); }
    let mut e = i;
    while e < s.len() && digit_class(s[e])
        invariant
            i <= e <= s.len(),
            digit_run_end(s@, e as int) == digit_run_end(s@, i as int),
        decreases s.len() - e,
    {
        e = e + 1;
    }
    e
}

/// Value of a sequence of ASCII digits read in base ten.
pub open spec fn decimal_value(s: Seq<char>) -> nat
    decreases s.len(),
{
    if s.len() == 0 {
        0
    } else {
        decimal_value(s.drop_last()) * 10 + ((s.last() as u32) - ('0' as u32)) as nat
    }
}

/// Every character of `s` is an ASCII digit.
pub open spec fn all_ascii_digits(s: Seq<char>) -> bool {
    forall|j: int| 0 <= j < s.len() ==> is_ascii_digit(#[trigger] s[j])
}

/// What `usize::from_str` gives for a string of `\d` characters: the value, when
/// every character is an ASCII digit and the value fits.
pub open spec fn usize_of_digits(s: Seq<char>) -> Option<usize> {
    if s.len() > 0 && all_ascii_digits(s) && decimal_value(s) <= usize::MAX {
        Some(decimal_value(s) as usize)
    } else {
        None
    }
}

/// A prefix of a digit string has a value no larger than the whole.
pub proof fn lemma_decimal_value_prefix(s: Seq<char>, i: int)
    requires
        0 <= i <= s.len(),
        all_ascii_digits(s),
    ensures
        decimal_value(s.take(i)) <= decimal_value(s),
    decreases s.len(),
{
    if i < s.len() {
        assert(s.drop_last().take(i) =~= s.take(i));
        assert(all_ascii_digits(s.drop_last()));
        lemma_decimal_value_prefix(s.drop_last(), i);
    } else {
        assert(s.take(i) =~= s);
    }
}

/// Reads the digits `s[from..to]` as a `usize` (`usize::from_str`): `None` when a
/// character is not an ASCII digit, when the range is empty, or on overflow.
pub fn parse_usize(s: &Vec<char>, from: usize, to: usize) -> (r: Option<usize>)
    requires
        from <= to <= s.len(),
    ensures
        r == usize_of_digits(s@.subrange(from as int, to as int)),
{
    let ghost d = s@.subrange(from as int, to as int);
    if from == to {
        return None;
    }
    let mut i = from;
    while i < to
        invariant
            from <= i <= to <= s.len(),
            d == s@.subrange(from as int, to as int),
            forall|j: int| from <= j < i ==> is_ascii_digit(#[trigger] s@[j]),
        decreases to - i,
    {
        if !('0' <= s[i] && s[i] <= '9') {
            assert(!is_ascii_digit(d[i - from]));
            return None;
        }
        i = i + 1;
    }
    assert(all_ascii_digits(d));
    let mut value: usize = 0;
    let mut i = from;
    while i < to
        invariant
            from <= i <= to <= s.len(),
            d == s@.subrange(from as int, to as int),
            all_ascii_digits(d),
            value == decimal_value(d.take(i - from)),
        decreases to - i,
    {
        assert(is_ascii_digit(d[i - from]));
        assert(d[i - from] == s@[i as int]);
        let digit = ((s[i] as u32) - ('0' as u32)) as usize;
        assert(d.take(i - from + 1).drop_last() =~= d.take(i - from));
        assert(d.take(i - from + 1).last() == s@[i as int]);
        match value.checked_mul(10) {
            Some(v) => match v.checked_add(digit) {
                Some(w) => {
                    value = w;
                },
                None => {
                    proof { lemma_decimal_value_prefix(d, i - from + 1); }
                    return None;
                },
            },
            None => {
                proof { lemma_decimal_value_prefix(d, i - from + 1); }
                return None;
            },
        }
        i = i + 1;
    }
    assert(d.take(to - from) =~= d);
    Some(value)
}

/// The digits of a signed number and whether it is negative: a leading `-` or
/// `+` is the sign.
pub open spec fn split_sign(s: Seq<char>) -> (bool, Seq<char>) {
    if s.len() > 0 && s[0] == '-' {
        (true, s.drop_first())
    } else if s.len() > 0 && s[0] == '+' {
        (false, s.drop_first())
    } else {
        (false, s)
    }
}

/// What `i32::from_str` gives: an optional sign followed by at least one ASCII
/// digit, whose value lies in the range of `i32`.
pub open spec fn i32_of_text(s: Seq<char>) -> Option<i32> {
    let (negative, digits) = split_sign(s);
    let value: int = if negative {
        -decimal_value(digits)
    } else {
        decimal_value(digits) as int
    };
    if digits.len() > 0 && all_ascii_digits(digits) && i32::MIN <= value <= i32::MAX {
        Some(value as i32)
    } else {
        None
    }
}

/// Reads `s` as an `i32` (`i32::from_str`).
pub fn parse_i32(s: &str) -> (r: Option<i32>)
    ensures
        r == i32_of_text(s@),
{
    let v = str_chars(s);
    let negative = v.len() > 0 && v[0] == '-';
    let start: usize = if v.len() > 0 && (v[0] == '-' || v[0] == '+') { 1 } else { 0 };
    let ghost digits = split_sign(s@).1;
    assert(v@.subrange(start as int, v@.len() as int) =~= digits);
    match parse_usize(&v, start, v.len()) {
        Some(n) => {
            if negative {
                if n <= 2147483648 {
                    let r: i64 = 0i64 - (n as i64);
                    Some(r as i32)
                } else {
                    None
                }
            } else if n <= 2147483647 {
                Some(n as i32)
            } else {
                None
            }
        },
        None => {
            assert(usize::MAX >= 2147483648) by {
                assert(usize::MAX == u32::MAX || usize::MAX == u64::MAX);
            }
            None
        },
    }
}

/// The ASCII digit for `d < 10`.
pub open spec fn digit_char(d: nat) -> char {
    ((d + 48) as u8) as char
}

/// How `usize` is displayed: base ten, no sign, no leading zeros.
pub open spec fn decimal_digits(n: nat) -> Seq<char>
    decreases n,
{
    if n < 10 {
        seq![digit_char(n)]
    } else {
        decimal_digits(n / 10).push(digit_char(n % 10))
    }
}

/// The display of a number is a non-empty run of ASCII digits that reads back as it.
pub proof fn lemma_decimal_digits(n: nat)
    ensures
        decimal_digits(n).len() > 0,
        all_ascii_digits(decimal_digits(n)),
        decimal_value(decimal_digits(n)) == n,
    decreases n,
{
    let d = n % 10;
    let c = digit_char(d);
    assert(((d + 48) as u8) as u32 == d + 48);
    assert((c as u32) == d + 48);
    if n < 10 {
        let s = decimal_digits(n);
        assert(s.drop_last() =~= Seq::<char>::empty());
        assert(s.last() == c);
        assert(decimal_value(s) == decimal_value(s.drop_last()) * 10 + ((c as u32) - ('0' as u32)) as nat);
    }
    if n >= 10 {
        lemma_decimal_digits(n / 10);
        let s = decimal_digits(n);
        assert(s.drop_last() =~= decimal_digits(n / 10));
        assert(s.last() == c);
        assert(decimal_value(s) == decimal_value(s.drop_last()) * 10 + ((c as u32) - ('0' as u32)) as nat);
        assert(decimal_value(s) == (n / 10) * 10 + d);
        assert forall|j: int| 0 <= j < s.len() implies is_ascii_digit(#[trigger] s[j]) by {
            if j < s.len() - 1 {
                assert(s[j] == decimal_digits(n / 10)[j]);
            }
        }
    }
}

/// Appends the display of `n` to `out`.
pub fn push_decimal(out: &mut Vec<char>, n: usize)
    ensures
        final(out)@ == old(out)@ + decimal_digits(n as nat),
    decreases n,
{
    if n >= 10 {
        push_decimal(out, n / 10);
    }
    let d = (n % 10) as u8;
    out.push((d + 48) as char);
    proof {
        if n >= 10 {
            assert(final(out)@ =~= old(out)@ + decimal_digits(n as nat));
        } else {
            assert(final(out)@ =~= old(out)@ + decimal_digits(n as nat));
        }
    }
}

// ---------------------------------------------------------------------------
// Whitespace, trimming and lines
// ---------------------------------------------------------------------------

/// The Unicode `White_Space` property, which `char::is_whitespace` tests.
pub open spec fn is_white_space(c: char) -> bool {
    let u = c as u32;
    (0x9 <= u && u <= 0xd) || u == 0x20 || u == 0x85 || u == 0xa0 || u == 0x1680 || (0x2000 <= u
        && u <= 0x200a) || u == 0x2028 || u == 0x2029 || u == 0x202f || u == 0x205f || u == 0x3000
}

/// Executable form of [`is_white_space`].
pub fn white_space(c: char) -> (r: bool)
    ensures
        r == is_white_space(c),
{
    let u = c as u32;
    (0x9 <= u && u <= 0xd) || u == 0x20 || u == 0x85 || u == 0xa0 || u == 0x1680 || (0x2000 <= u
        && u <= 0x200a) || u == 0x2028 || u == 0x2029 || u == 0x202f || u == 0x205f || u == 0x3000
}

/// First position at or after `i` that is not whitespace.
pub open spec fn skip_white_space(s: Seq<char>, i: int) -> int
    decreases s.len() - i,
{
    if 0 <= i < s.len() && is_white_space(s[i]) {
        skip_white_space(s, i + 1)
    } else {
        i
    }
}

/// Position just after the last non-whitespace character before `j`, not going
/// below `from`.
pub open spec fn back_white_space(s: Seq<char>, from: int, j: int) -> int
    decreases j - from,
{
    if from < j && is_white_space(s[j - 1]) {
        back_white_space(s, from, j - 1)
    } else {
        j
    }
}

/// `str::trim`: `s` without leading and trailing whitespace.
pub open spec fn trim(s: Seq<char>) -> Seq<char> {
    let a = skip_white_space(s, 0);
    s.subrange(a, back_white_space(s, a, s.len() as int))
}

proof fn lemma_skip_white_space(s: Seq<char>, i: int)
    requires
        0 <= i <= s.len(),
    ensures
        i <= skip_white_space(s, i) <= s.len(),
    decreases s.len() - i,
{
    if i < s.len() && is_white_space(s[i]) {
        lemma_skip_white_space(s, i + 1);
    }
}

proof fn lemma_back_white_space(s: Seq<char>, from: int, j: int)
    requires
        0 <= from <= j <= s.len(),
    ensures
        from <= back_white_space(s, from, j) <= j,
    decreases j - from,
{
    if from < j && is_white_space(s[j - 1]) {
        lemma_back_white_space(s, from, j - 1);
    }
}

/// The characters of `s` without leading and trailing whitespace.
pub fn trimmed(s: &Vec<char>) -> (r: Vec<char>)
    ensures
        r@ == trim(s@),
{
    proof { lemma_skip_white_space(s@, 0); }
    let mut a: usize = 0;
    while a < s.len() && white_space(s[a])
        invariant
            a <= s.len(),
            skip_white_space(s@, a as int) == skip_white_space(s@, 0),
        decreases s.len() - a,
    {
        a = a + 1;
    }
    proof { lemma_back_white_space(s@, a as int, s@.len() as int); }
    let mut b: usize = s.len();
    while b > a && white_space(s[b - 1])
        invariant
            a <= b <= s.len(),
            back_white_space(s@, a as int, b as int) == back_white_space(
                s@,
                a as int,
                s@.len() as int,
            ),
        decreases b - a,
    {
        b = b - 1;
    }
    let mut r: Vec<char> = Vec::new();
    extend_chars(&mut r, s, a, b);
    assert(r@ =~= trim(s@));
    r
}

/// `lit` occurs in `s` at position `i`.
pub open spec fn occurs_at(s: Seq<char>, i: int, lit: Seq<char>) -> bool {
    0 <= i && i + lit.len() <= s.len() && s.subrange(i, i + lit.len()) == lit
}

/// Executable form of [`occurs_at`].
pub fn occurs_at_exec(s: &Vec<char>, i: usize, lit: &Vec<char>) -> (r: bool)
    ensures
        r == occurs_at(s@, i as int, lit@),
{
    if i > s.len() || s.len() - i < lit.len() {
        return false;
    }
    let mut j: usize = 0;
    while j < lit.len()
        invariant
            j <= lit.len(),
            i + lit.len() <= s.len(),
            s@.subrange(i as int, i + j) == lit@.take(j as int),
        decreases lit.len() - j,
    {
        if s[i + j] != lit[j] {
            assert(s@.subrange(i as int, i + lit.len())[j as int] != lit@[j as int]);
            return false;
        }
        j = j + 1;
        assert(s@.subrange(i as int, i + j) =~= lit@.take(j as int));
    }
    assert(lit@.take(lit.len() as int) =~= lit@);
    true
}

/// A vector holding the characters of `a`.
pub fn vec_of(a: &[char]) -> (v: Vec<char>)
    ensures
        v@ == a@,
{
    let mut v: Vec<char> = Vec::new();
    let mut i: usize = 0;
    while i < a.len()
        invariant
            i <= a.len(),
            v@ == a@.take(i as int),
        decreases a.len() - i,
    {
        v.push(a[i]);
        i = i + 1;
        assert(v@ =~= a@.take(i as int));
    }
    assert(a@.take(a@.len() as int) =~= a@);
    v
}

/// First position at or after `i` holding `c`, or the length when there is none.
pub open spec fn find_char(s: Seq<char>, i: int, c: char) -> int
    decreases s.len() - i,
{
    if i < 0 || i >= s.len() {
        s.len() as int
    } else if s[i] == c {
        i
    } else {
        find_char(s, i + 1, c)
    }
}

/// Facts about [`find_char`].
pub proof fn lemma_find_char(s: Seq<char>, i: int, c: char)
    requires
        0 <= i <= s.len(),
    ensures
        i <= find_char(s, i, c) <= s.len(),
        find_char(s, i, c) < s.len() ==> s[find_char(s, i, c)] == c,
        forall|j: int| i <= j < find_char(s, i, c) ==> s[j] != c,
    decreases s.len() - i,
{
    if i < s.len() && s[i] != c {
        lemma_find_char(s, i + 1, c);
    }
}

/// Executable form of [`find_char`].
pub fn find_char_exec(s: &Vec<char>, i: usize, c: char) -> (r: usize)
    requires
        i <= s.len(),
    ensures
        r == find_char(s@, i as int, c),
{
    let mut j = i;
    while j < s.len() && s[j] != c
        invariant
            i <= j <= s.len(),
            find_char(s@, j as int, c) == find_char(s@, i as int, c),
        decreases s.len() - j,
    {
        j = j + 1;
    }
    j
}

/// `str::lines`: pieces split after each `\n`, each without its `\n` and, before
/// it, one `\r`; a last piece without `\n` is kept as it is, and nothing follows a
/// final `\n`.
pub open spec fn lines(s: Seq<char>) -> Seq<Seq<char>>
    decreases s.len(),
{
    if s.len() == 0 {
        Seq::empty()
    } else {
        let nl = find_char(s, 0, '\n');
        if nl >= s.len() {
            seq![s]
        } else {
            proof { lemma_find_char(s, 0, '\n'); }
            seq![first_line(s)] + lines(s.skip(nl + 1))
        }
    }
}

/// The first line of `s`, as [`lines`] gives it.
pub open spec fn first_line(s: Seq<char>) -> Seq<char> {
    let nl = find_char(s, 0, '\n');
    if nl >= s.len() {
        s
    } else if nl > 0 && s[nl - 1] == '\r' {
        s.take(nl - 1)
    } else {
        s.take(nl)
    }
}

/// The first line of `s[from..]` and the position of the line break that ends it
/// (the length when none does).
pub fn next_line(s: &Vec<char>, from: usize) -> (r: (Vec<char>, usize))
    requires
        from < s.len(),
    ensures
        r.0@ == first_line(s@.skip(from as int)),
        from <= r.1 <= s.len(),
        r.1 == from + find_char(s@.skip(from as int), 0, '\n'),
        r.1 < s.len() ==> s@.skip(r.1 + 1) == s@.skip(from as int).skip(
            find_char(s@.skip(from as int), 0, '\n') + 1,
        ),
{
    let ghost rest = s@.skip(from as int);
    let nl = find_char_exec(s, from, '\n');
    proof {
        lemma_find_char(s@, from as int, '\n');
        lemma_find_char_shift(s@, from as int, 0, '\n');
    }
    let end = if nl < s.len() && nl > from && s[nl - 1] == '\r' {
        nl - 1
    } else {
        nl
    };
    let mut line: Vec<char> = Vec::new();
    extend_chars(&mut line, s, from, end);
    assert(line@ =~= first_line(rest));
    if nl < s.len() {
        assert(s@.skip(nl + 1) =~= rest.skip(nl - from + 1));
    }
    (line, nl)
}

/// Searching a suffix is searching the whole from further on.
pub proof fn lemma_find_char_shift(s: Seq<char>, from: int, i: int, c: char)
    requires
        0 <= from <= s.len(),
        0 <= i <= s.len() - from,
    ensures
        find_char(s.skip(from), i, c) == find_char(s, from + i, c) - from,
    decreases s.len() - from - i,
{
    if i < s.len() - from && s[from + i] != c {
        lemma_find_char_shift(s, from, i + 1, c);
    }
}

} // verus!
