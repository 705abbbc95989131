//! Character-level text utilities shared by the parser, the renamer and the
//! stores: conversions between `&str` and `Vec<char>`, searching, trimming,
//! and decimal formatting and parsing.
use vstd::prelude::*;

verus! {

/// The whitespace characters recognised by the title grammar: the ASCII
/// whitespace characters together with the no-break and ideographic spaces.
pub open spec fn is_space_char(c: char) -> bool {
    c == ' ' || c == '\t' || c == '\n' || c == '\r' || c == '\u{b}' || c == '\u{c}'
        || c == '\u{a0}' || c == '\u{3000}'
}

/// ASCII decimal digit.
pub open spec fn is_digit_char(c: char) -> bool {
    '0' <= c && c <= '9'
}

/// Index of the first occurrence of `c` in `s` at or after `i`; `s.len()` when
/// there is none.
pub open spec fn spec_find_char(s: Seq<char>, i: int, c: char) -> int
    decreases s.len() - i,
{
    if i < 0 {
        spec_find_char(s, 0, c)
    } else if i >= s.len() {
        s.len() as int
    } else if s[i] == c {
        i
    } else {
        spec_find_char(s, i + 1, c)
    }
}

/// Index of the first character at or after `i` that is not whitespace;
/// `s.len()` when the rest is all whitespace.
pub open spec fn spec_skip_spaces(s: Seq<char>, i: int) -> int
    decreases s.len() - i,
{
    if i < 0 {
        spec_skip_spaces(s, 0)
    } else if i >= s.len() {
        s.len() as int
    } else if is_space_char(s[i]) {
        spec_skip_spaces(s, i + 1)
    } else {
        i
    }
}

/// Length of `s` once trailing whitespace is removed.
pub open spec fn spec_rtrim_len(s: Seq<char>) -> int
    decreases s.len(),
{
    if s.len() == 0 {
        0
    } else if is_space_char(s.last()) {
        spec_rtrim_len(s.drop_last())
    } else {
        s.len() as int
    }
}

/// `s` with whitespace removed from both ends.
pub open spec fn spec_trim(s: Seq<char>) -> Seq<char> {
    let lead = spec_skip_spaces(s, 0);
    let rlen = spec_rtrim_len(s);
    if lead <= rlen {
        s.subrange(lead, rlen)
    } else {
        Seq::empty()
    }
}

pub proof fn lemma_find_char_props(s: Seq<char>, i: int, c: char)
    requires
        0 <= i <= s.len(),
    ensures
        i <= spec_find_char(s, i, c) <= s.len(),
        spec_find_char(s, i, c) < s.len() ==> s[spec_find_char(s, i, c)] == c,
        forall|k: int| i <= k < spec_find_char(s, i, c) ==> s[k] != c,
    decreases s.len() - i,
{
    if i < s.len() && s[i] != c {
        lemma_find_char_props(s, i + 1, c);
    }
}

/// Whether `c` is whitespace, decided executably.
pub fn space_char(c: char) -> (r: bool)
    ensures
        r == is_space_char(c),
{
    c == ' ' || c == '\t' || c == '\n' || c == '\r' || c == '\u{b}' || c == '\u{c}'
        || c == '\u{a0}' || c == '\u{3000}'
}

/// Whether `c` is an ASCII decimal digit, decided executably.
pub fn digit_char(c: char) -> (r: bool)
    ensures
        r == is_digit_char(c),
{
    '0' <= c && c <= '9'
}

/// First occurrence of `c` at or after `i`.
pub fn find_char(s: &Vec<char>, i: usize, c: char) -> (r: usize)
    requires
        i <= s@.len(),
    ensures
        r == spec_find_char(s@, i as int, c),
        i <= r <= s@.len(),
{
    let mut j: usize = i;
    while j < s.len()
        invariant
            i <= j <= s@.len(),
            spec_find_char(s@, i as int, c) == spec_find_char(s@, j as int, c),
        decreases s@.len() - j,
    {
        if s[j] == c {
            return j;
        }
        j = j + 1;
    }
    j
}

/// First non-whitespace position at or after `i`.
pub fn skip_spaces(s: &Vec<char>, i: usize) -> (r: usize)
    requires
        i <= s@.len(),
    ensures
        r == spec_skip_spaces(s@, i as int),
        i <= r <= s@.len(),
{
    let mut j: usize = i;
    while j < s.len()
        invariant
            i <= j <= s@.len(),
            spec_skip_spaces(s@, i as int) == spec_skip_spaces(s@, j as int),
        decreases s@.len() - j,
    {
        if !space_char(s[j]) {
            return j;
        }
        j = j + 1;
    }
    j
}

/// Copy of `s[from..to]`.
pub fn subrange_chars(s: &Vec<char>, from: usize, to: usize) -> (r: Vec<char>)
    requires
        from <= to <= s@.len(),
    ensures
        r@ == s@.subrange(from as int, to as int),
{
    let mut out: Vec<char> = Vec::new();
    let mut j: usize = from;
    while j < to
        invariant
            from <= j <= to <= s@.len(),
            out@ == s@.subrange(from as int, j as int),
        decreases to - j,
    {
        out.push(s[j]);
        assert(out@ == s@.subrange(from as int, j + 1 as int));
        j = j + 1;
    }
    out
}

/// Append a copy of `src` to `dst`.
pub fn append_chars(dst: &mut Vec<char>, src: &Vec<char>)
    ensures
        final(dst)@ == old(dst)@ + src@,
{
    let mut j: usize = 0;
    while j < src.len()
        invariant
            j <= src@.len(),
            dst@ == old(dst)@ + src@.subrange(0, j as int),
        decreases src@.len() - j,
    {
        dst.push(src[j]);
        assert(dst@ == old(dst)@ + src@.subrange(0, j + 1 as int));
        j = j + 1;
    }
    assert(src@.subrange(0, src@.len() as int) == src@);
}

/// `s` with whitespace removed from both ends.
pub fn trim_chars(s: &Vec<char>) -> (r: Vec<char>)
    ensures
        r@ == spec_trim(s@),
{
    let lead = skip_spaces(s, 0);
    let mut rlen: usize = s.len();
    assert(s@.subrange(0, s@.len() as int) == s@);
    while rlen > 0 && space_char(s[rlen - 1])
        invariant
            rlen <= s@.len(),
            spec_rtrim_len(s@) == spec_rtrim_len(s@.subrange(0, rlen as int)),
        decreases rlen,
    {
        assert(s@.subrange(0, rlen as int).drop_last() == s@.subrange(0, rlen - 1 as int));
        rlen = rlen - 1;
    }
    assert(spec_rtrim_len(s@.subrange(0, rlen as int)) == rlen);
    if lead <= rlen {
        let r = subrange_chars(s, lead, rlen);
        r
    } else {
        let r: Vec<char> = Vec::new();
        r
    }
}

/// The characters of `s`, as a vector.
pub fn chars_vec(s: &str) -> (r: Vec<char>)
    ensures
        r@ == s@,
{
    let n = s.unicode_len();
    let mut out: Vec<char> = Vec::new();
    let mut j: usize = 0;
    while j < n
        invariant
            j <= n,
            n == s@.len(),
            out@ == s@.subrange(0, j as int),
        decreases n - j,
    {
        out.push(s.get_char(j));
        assert(out@ == s@.subrange(0, j + 1 as int));
        j = j + 1;
    }
    assert(s@.subrange(0, s@.len() as int) == s@);
    out
}

/// Relies on std's `FromIterator` for `String`: collecting a vector of
/// characters yields the string of exactly those characters in order.
#[verifier::external_body]
pub fn string_from_chars(v: &Vec<char>) -> (r: String)
    ensures
        r@ == v@,
{
    v.iter().collect()
}

/// Whether `pre` is a prefix of `s`.
pub open spec fn spec_starts_with(s: Seq<char>, pre: Seq<char>) -> bool {
    pre.len() <= s.len() && s.subrange(0, pre.len() as int) == pre
}

/// Index of the last occurrence of `c` in `s`, or `-1` when there is none.
pub open spec fn spec_rfind_char(s: Seq<char>, c: char) -> int
    decreases s.len(),
{
    if s.len() == 0 {
        -1
    } else if s.last() == c {
        s.len() - 1
    } else {
        spec_rfind_char(s.drop_last(), c)
    }
}

pub proof fn lemma_rfind_char_props(s: Seq<char>, c: char)
    ensures
        -1 <= spec_rfind_char(s, c) < s.len(),
        spec_rfind_char(s, c) >= 0 ==> s[spec_rfind_char(s, c)] == c,
        forall|k: int| spec_rfind_char(s, c) < k < s.len() ==> s[k] != c,
    decreases s.len(),
{
    if s.len() > 0 && s.last() != c {
        lemma_rfind_char_props(s.drop_last(), c);
        assert forall|k: int| spec_rfind_char(s, c) < k < s.len() implies s[k] != c by {
            if k < s.len() - 1 {
                assert(s.drop_last()[k] == s[k]);
            }
        }
    }
}

/// Whether `s` begins with the characters of `pre`.
pub fn has_prefix(s: &Vec<char>, pre: &Vec<char>) -> (r: bool)
    ensures
        r == spec_starts_with(s@, pre@),
{
    if pre.len() > s.len() {
        return false;
    }
    let mut j: usize = 0;
    while j < pre.len()
        invariant
            j <= pre@.len() <= s@.len(),
            forall|k: int| 0 <= k < j ==> s@[k] == pre@[k],
        decreases pre@.len() - j,
    {
        if s[j] != pre[j] {
            assert(s@.subrange(0, pre@.len() as int)[j as int] != pre@[j as int]);
            return false;
        }
        j = j + 1;
    }
    assert(s@.subrange(0, pre@.len() as int) =~= pre@);
    true
}

/// Last occurrence of `c` in `s`, as an index one past which no `c` occurs;
/// the result is `None` when `c` does not occur.
pub fn rfind_char(s: &Vec<char>, c: char) -> (r: Option<usize>)
    ensures
        match r {
            Some(i) => i == spec_rfind_char(s@, c),
            None => spec_rfind_char(s@, c) == -1,
        },
{
    let mut j: usize = s.len();
    assert(s@.subrange(0, s@.len() as int) == s@);
    while j > 0
        invariant
            j <= s@.len(),
            spec_rfind_char(s@, c) == spec_rfind_char(s@.subrange(0, j as int), c),
        decreases j,
    {
        proof {
            assert(s@.subrange(0, j as int).drop_last() == s@.subrange(0, j - 1 as int));
        }
        if s[j - 1] == c {
            assert(s@.subrange(0, j as int).last() == c);
            return Some(j - 1);
        }
        j = j - 1;
    }
    assert(s@.subrange(0, 0) =~= Seq::<char>::empty());
    None
}

/// Whether two string slices hold the same characters.
pub fn str_equal(a: &str, b: &str) -> (r: bool)
    ensures
        r == (a@ == b@),
{
    let sa: String = a.to_owned();
    let sb: String = b.to_owned();
    sa == sb
}

/// Append the characters of `s` to `dst`.
pub fn append_str(dst: &mut Vec<char>, s: &str)
    ensures
        final(dst)@ == old(dst)@ + s@,
{
    let v = chars_vec(s);
    append_chars(dst, &v);
}

/// The character for the decimal digit `d`.
pub open spec fn spec_digit(d: int) -> char {
    seq!['0', '1', '2', '3', '4', '5', '6', '7', '8', '9'][d]
}

/// Decimal representation of `n`, without leading zeros.
pub open spec fn spec_decimal(n: int) -> Seq<char>
    decreases n,
{
    if n < 10 {
        seq![spec_digit(if n < 0 { 0 } else { n % 10 })]
    } else {
        spec_decimal(n / 10).push(spec_digit(n % 10))
    }
}

/// Decimal representation of `n`, zero-padded on the left to two characters.
pub open spec fn spec_pad2(n: int) -> Seq<char> {
    if n < 10 {
        seq!['0'] + spec_decimal(n)
    } else {
        spec_decimal(n)
    }
}

/// Numeric value of a digit string.
pub open spec fn spec_digits_val(s: Seq<char>) -> int
    decreases s.len(),
{
    if s.len() == 0 {
        0
    } else {
        spec_digits_val(s.drop_last()) * 10 + (s.last() as int - '0' as int)
    }
}

/// What parsing a decimal `u64` out of `s` yields: the digits' value when `s`
/// is a non-empty digit string whose value fits in a `u64`, nothing otherwise.
pub open spec fn spec_parse_u64(s: Seq<char>) -> Option<u64> {
    if s.len() > 0 && (forall|k: int| 0 <= k < s.len() ==> is_digit_char(s[k]))
        && spec_digits_val(s) <= u64::MAX {
        Some(spec_digits_val(s) as u64)
    } else {
        None
    }
}

proof fn lemma_digits_val_nonneg(s: Seq<char>)
    requires
        forall|k: int| 0 <= k < s.len() ==> is_digit_char(s[k]),
    ensures
        spec_digits_val(s) >= 0,
    decreases s.len(),
{
    if s.len() > 0 {
        lemma_digits_val_nonneg(s.drop_last());
    }
}

/// The decimal digit character for `d`.
pub fn digit_of(d: u64) -> (r: char)
    requires
        d < 10,
    ensures
        r == spec_digit(d as int),
{
    match d {
        0 => '0',
        1 => '1',
        2 => '2',
        3 => '3',
        4 => '4',
        5 => '5',
        6 => '6',
        7 => '7',
        8 => '8',
        _ => '9',
    }
}

/// Decimal representation of `n`.
pub fn decimal_u64(n: u64) -> (r: Vec<char>)
    ensures
        r@ == spec_decimal(n as int),
    decreases n,
{
    if n < 10 {
        let mut out: Vec<char> = Vec::new();
        out.push(digit_of(n));
        out
    } else {
        let mut out = decimal_u64(n / 10);
        out.push(digit_of(n % 10));
        out
    }
}

/// Decimal representation of `n`, zero-padded to at least two characters.
pub fn pad2_u64(n: u64) -> (r: Vec<char>)
    ensures
        r@ == spec_pad2(n as int),
{
    if n < 10 {
        let mut out: Vec<char> = Vec::new();
        out.push('0');
        out.push(digit_of(n));
        assert(out@ == seq!['0'] + spec_decimal(n as int));
        out
    } else {
        decimal_u64(n)
    }
}

/// Parse `s[from..to]` as a decimal `u64`.
pub fn parse_u64_range(s: &Vec<char>, from: usize, to: usize) -> (r: Option<u64>)
    requires
        from <= to <= s@.len(),
    ensures
        r == spec_parse_u64(s@.subrange(from as int, to as int)),
{
    let ghost whole: Seq<char> = s@.subrange(from as int, to as int);
    if from == to {
        return None;
    }
    let mut acc: u64 = 0;
    let mut j: usize = from;
    while j < to
        invariant
            from <= j <= to <= s@.len(),
            whole == s@.subrange(from as int, to as int),
            forall|k: int| from <= k < j ==> is_digit_char(s@[k]),
            acc == spec_digits_val(s@.subrange(from as int, j as int)),
        decreases to - j,
    {
        let c = s[j];
        if !digit_char(c) {
            assert(!is_digit_char(whole[j - from]));
            return None;
        }
        let d: u64 = (c as u32 as u64) - 48;
        assert(d < 10);
        let ghost pre = s@.subrange(from as int, j as int);
        let ghost cur = s@.subrange(from as int, j + 1 as int);
        assert(cur.drop_last() == pre);
        assert(cur.last() == c);
        if acc > (u64::MAX - d) / 10 {
            // The prefix already exceeds the range; appending digits only grows it.
            assert(acc * 10 + d > u64::MAX) by (nonlinear_arith)
                requires
                    acc > (u64::MAX - d) / 10,
                    d < 10,
            ;
            proof {
                if forall|k: int| 0 <= k < whole.len() ==> is_digit_char(whole[k]) {
                    lemma_digits_prefix_monotone(whole, j + 1 - from);
                    assert(whole.subrange(0, j + 1 - from) == cur);
                }
            }
            return None;
        }
        assert(acc * 10 + d <= u64::MAX) by (nonlinear_arith)
            requires
                acc <= (u64::MAX - d) / 10,
                d < 10,
        ;
        acc = acc * 10 + d;
        j = j + 1;
    }
    assert(whole == s@.subrange(from as int, j as int));
    Some(acc)
}

/// The value of a digit string is at least the value of any of its prefixes.
proof fn lemma_digits_prefix_monotone(s: Seq<char>, i: int)
    requires
        0 <= i <= s.len(),
        forall|k: int| 0 <= k < s.len() ==> is_digit_char(s[k]),
    ensures
        spec_digits_val(s) >= spec_digits_val(s.subrange(0, i)),
    decreases s.len() - i,
{
    lemma_digits_val_nonneg(s.subrange(0, i));
    if i < s.len() {
        lemma_digits_prefix_monotone(s, i + 1);
        let p = s.subrange(0, i);
        let q = s.subrange(0, i + 1);
        assert(q.drop_last() == p);
        assert(spec_digits_val(q) == spec_digits_val(p) * 10 + (s[i] as int - '0' as int));
        assert(spec_digits_val(p) * 10 >= spec_digits_val(p)) by (nonlinear_arith)
            requires
                spec_digits_val(p) >= 0,
        ;
    } else {
        assert(s.subrange(0, i) == s);
    }
}

} // verus!
