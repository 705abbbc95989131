//! The mikan feed dialect: the item title grammar and the assembly of feed
//! items into subscription items.
//!
//! Titles are free form. After pre-normalisation, the primary grammar reads
//! `[fansub] title - episode [media]...`; when it fails, a fallback splits
//! the title on brackets and dashes and scavenges the parts. An item fitting
//! neither grammar is skipped, never aborting the feed.
use vstd::prelude::*;

use crate::text::{
    digit_char, find_char, is_digit_char, is_space_char, skip_spaces, space_char, spec_find_char,
    spec_parse_u64, spec_skip_spaces, spec_starts_with, spec_trim, string_from_chars,
    subrange_chars, trim_chars,
};

verus! {

/// One pass of bracket normalisation: every `o`…`c` pair, scanned from the
/// left with the nearest closer, is rewritten to `[`…`]`.
pub open spec fn spec_rewrite_pair(s: Seq<char>, o: char, c: char) -> Seq<char>
    decreases s.len(),
{
    if s.len() == 0 {
        s
    } else if s[0] == o && 1 <= spec_find_char(s, 1, c) < s.len() {
        let j = spec_find_char(s, 1, c);
        seq!['['] + s.subrange(1, j) + seq![']'] + spec_rewrite_pair(
            s.subrange(j + 1, s.len() as int),
            o,
            c,
        )
    } else {
        seq![s[0]] + spec_rewrite_pair(s.drop_first(), o, c)
    }
}

/// Where the seasonal-release tag starting at the head of `s` ends: the
/// first `]`, provided the three characters before it read `月新番`.
pub open spec fn spec_tag_end(s: Seq<char>) -> int {
    let q = spec_find_char(s, 1, ']');
    if q < s.len() && q >= 4 && s[q - 3] == '月' && s[q - 2] == '新' && s[q - 1] == '番' {
        q
    } else {
        s.len() as int
    }
}

/// Remove every bracketed seasonal-release tag (`[…月新番]`).
pub open spec fn spec_strip_seasonal(s: Seq<char>) -> Seq<char>
    decreases s.len(),
{
    if s.len() == 0 {
        s
    } else if s[0] == '[' && 4 <= spec_tag_end(s) < s.len() {
        spec_strip_seasonal(s.subrange(spec_tag_end(s) + 1, s.len() as int))
    } else {
        seq![s[0]] + spec_strip_seasonal(s.drop_first())
    }
}

/// The pre-normalised form of an item title: fullwidth and starred bracket
/// pairs rewritten to plain brackets, then seasonal-release tags removed.
pub open spec fn spec_pretreat(s: Seq<char>) -> Seq<char> {
    spec_strip_seasonal(
        spec_rewrite_pair(spec_rewrite_pair(spec_rewrite_pair(s, '【', '】'), '★', '★'), '*', '*'),
    )
}

/// One bracket-normalisation pass, executably.
pub fn rewrite_pair(s: &Vec<char>, o: char, c: char) -> (r: Vec<char>)
    ensures
        r@ == spec_rewrite_pair(s@, o, c),
    decreases s@.len(),
{
    let mut out: Vec<char> = Vec::new();
    let mut i: usize = 0;
    proof {
        assert(s@.skip(0) == s@);
    }
    while i < s.len()
        invariant
            i <= s@.len(),
            spec_rewrite_pair(s@, o, c) == out@ + spec_rewrite_pair(s@.skip(i as int), o, c),
        decreases s@.len() - i,
    {
        let ghost rest = s@.skip(i as int);
        proof {
            assert(rest[0] == s@[i as int]);
        }
        if s[i] == o {
            let j = find_char(s, i + 1, c);
            proof {
                crate::text::lemma_find_char_props(s@, i + 1 as int, c);
                lemma_find_char_shift(s@, i as int, c);
            }
            if j < s.len() {
                out.push('[');
                let mid = subrange_chars(s, i + 1, j);
                crate::text::append_chars(&mut out, &mid);
                out.push(']');
                proof {
                    let sj = spec_find_char(rest, 1, c);
                    assert(sj == j - i);
                    assert(rest.subrange(1, sj) =~= s@.subrange(i + 1 as int, j as int));
                    assert(rest.subrange(sj + 1, rest.len() as int) =~= s@.skip(j + 1 as int));
                    assert(spec_rewrite_pair(rest, o, c) == seq!['['] + rest.subrange(1, sj) + seq![
                        ']',
                    ] + spec_rewrite_pair(rest.subrange(sj + 1, rest.len() as int), o, c));
                }
                i = j + 1;
            } else {
                proof {
                    let sj = spec_find_char(rest, 1, c);
                    assert(sj == rest.len());
                    assert(rest.drop_first() =~= s@.skip(i + 1 as int));
                }
                out.push(s[i]);
                i = i + 1;
            }
        } else {
            proof {
                assert(rest.drop_first() =~= s@.skip(i + 1 as int));
            }
            out.push(s[i]);
            i = i + 1;
        }
    }
    proof {
        assert(s@.skip(s@.len() as int).len() == 0);
    }
    out
}

/// Finding `c` in the tail of `s` is finding it in `s` past the cut.
proof fn lemma_find_char_shift(s: Seq<char>, i: int, c: char)
    requires
        0 <= i < s.len(),
    ensures
        ({
            let rest = s.skip(i);
            let sj = spec_find_char(rest, 1, c);
            let j = spec_find_char(s, i + 1, c);
            sj == j - i
        }),
{
    let rest = s.skip(i);
    let sj = spec_find_char(rest, 1, c);
    let j = spec_find_char(s, i + 1, c);
    crate::text::lemma_find_char_props(s, i + 1, c);
    lemma_find_char_rel(s, i, 1, c);
}

/// `spec_find_char` on a suffix mirrors `spec_find_char` on the whole.
proof fn lemma_find_char_rel(s: Seq<char>, base: int, k: int, c: char)
    requires
        0 <= base < s.len(),
        1 <= k <= s.len() - base,
    ensures
        spec_find_char(s.skip(base), k, c) == spec_find_char(s, base + k, c) - base,
    decreases s.len() - base - k,
{
    let rest = s.skip(base);
    if k >= rest.len() {
    } else if rest[k] == c {
        assert(s[base + k] == c);
    } else {
        assert(s[base + k] != c);
        lemma_find_char_rel(s, base, k + 1, c);
    }
}

/// Strip seasonal-release tags, executably.
pub fn strip_seasonal(s: &Vec<char>) -> (r: Vec<char>)
    ensures
        r@ == spec_strip_seasonal(s@),
{
    let mut out: Vec<char> = Vec::new();
    let mut i: usize = 0;
    proof {
        assert(s@.skip(0) == s@);
    }
    while i < s.len()
        invariant
            i <= s@.len(),
            spec_strip_seasonal(s@) == out@ + spec_strip_seasonal(s@.skip(i as int)),
        decreases s@.len() - i,
    {
        let ghost rest = s@.skip(i as int);
        proof {
            assert(rest[0] == s@[i as int]);
        }
        let mut consumed = false;
        if s[i] == '[' {
            let q = find_char(s, i + 1, ']');
            proof {
                crate::text::lemma_find_char_props(s@, i + 1 as int, ']');
                lemma_find_char_shift(s@, i as int, ']');
            }
            if q < s.len() && q - i >= 4 && s[q - 3] == '月' && s[q - 2] == '新' && s[q - 1] == '番' {
                proof {
                    let sq = spec_find_char(rest, 1, ']');
                    assert(sq == q - i);
                    assert(rest[sq - 3] == s@[q - 3 as int]);
                    assert(rest[sq - 2] == s@[q - 2 as int]);
                    assert(rest[sq - 1] == s@[q - 1 as int]);
                    assert(spec_tag_end(rest) == sq);
                    assert(rest.subrange(sq + 1, rest.len() as int) =~= s@.skip(q + 1 as int));
                }
                i = q + 1;
                consumed = true;
            } else {
                proof {
                    let sq = spec_find_char(rest, 1, ']');
                    if sq < rest.len() && sq >= 4 {
                        assert(rest[sq - 3] == s@[i + sq - 3]);
                        assert(rest[sq - 2] == s@[i + sq - 2]);
                        assert(rest[sq - 1] == s@[i + sq - 1]);
                    }
                    assert(spec_tag_end(rest) == rest.len());
                }
            }
        }
        if !consumed {
            proof {
                assert(rest.drop_first() =~= s@.skip(i + 1 as int));
            }
            out.push(s[i]);
            i = i + 1;
        }
    }
    proof {
        assert(s@.skip(s@.len() as int).len() == 0);
    }
    out
}

/// Pre-normalise an item title.
pub fn pretreat_rss_item_title(s: &Vec<char>) -> (r: Vec<char>)
    ensures
        r@ == spec_pretreat(s@),
{
    let a = rewrite_pair(s, '【', '】');
    let b = rewrite_pair(&a, '★', '★');
    let c = rewrite_pair(&b, '*', '*');
    strip_seasonal(&c)
}

/// Numeral value of a season character; 0 when it is none.
pub open spec fn spec_season_char(c: char) -> int {
    if c == '一' { 1 }
    else if c == '二' { 2 }
    else if c == '三' { 3 }
    else if c == '四' { 4 }
    else if c == '五' { 5 }
    else if c == '六' { 6 }
    else if c == '七' { 7 }
    else if c == '八' { 8 }
    else if c == '九' { 9 }
    else if c == '十' { 10 }
    else { 0 }
}

/// Characters the season grammar's title part may contain.
pub open spec fn spec_cls_ok(c: char) -> bool {
    c != '[' && c != ']'
}

/// Whether a season marker ` 第X季` begins at `i`.
pub open spec fn spec_is_cand(s: Seq<char>, i: int) -> bool {
    &&& 0 <= i
    &&& i + 3 < s.len()
    &&& is_space_char(s[i])
    &&& s[i + 1] == '第'
    &&& spec_season_char(s[i + 2]) > 0
    &&& s[i + 3] == '季'
}

/// First season marker at or after `i`; `s.len()` when there is none.
pub open spec fn spec_first_cand(s: Seq<char>, i: int) -> int
    decreases s.len() - i,
{
    if i < 0 {
        spec_first_cand(s, 0)
    } else if i >= s.len() {
        s.len() as int
    } else if spec_is_cand(s, i) {
        i
    } else {
        spec_first_cand(s, i + 1)
    }
}

/// Start of the maximal title-character run ending at `e`.
pub open spec fn spec_run_start(s: Seq<char>, e: int) -> int
    decreases e,
{
    if e <= 0 {
        0
    } else if !spec_cls_ok(s[e - 1]) {
        e
    } else {
        spec_run_start(s, e - 1)
    }
}

/// First position at or after `i` holding a character the title part may not
/// contain; `s.len()` when there is none.
pub open spec fn spec_find_noncls(s: Seq<char>, i: int) -> int
    decreases s.len() - i,
{
    if i < 0 {
        spec_find_noncls(s, 0)
    } else if i >= s.len() {
        s.len() as int
    } else if !spec_cls_ok(s[i]) {
        i
    } else {
        spec_find_noncls(s, i + 1)
    }
}

/// Last season marker in `[lo, k]`; `lo` when only `lo` itself is one.
pub open spec fn spec_last_cand(s: Seq<char>, lo: int, k: int) -> int
    decreases k - lo,
{
    if k <= lo {
        lo
    } else if spec_is_cand(s, k) {
        k
    } else {
        spec_last_cand(s, lo, k - 1)
    }
}

/// End of the first title among several separated by `/` or `|`.
pub open spec fn spec_split_end(s: Seq<char>) -> int {
    let a = spec_find_char(s, 0, '/');
    let b = spec_find_char(s, 0, '|');
    if a <= b { a } else { b }
}

/// The show title and season read out of a title string: the season marker
/// ` 第X季` with the longest bracket-free run before it names the title and
/// the season; without a marker the whole string is the title and the season
/// is 1. Either way the title is its first `/`- or `|`-separated component,
/// trimmed.
pub open spec fn spec_title_season(s: Seq<char>) -> (Seq<char>, int) {
    let c1 = spec_first_cand(s, 0);
    if c1 == s.len() {
        (spec_trim(s.subrange(0, spec_split_end(s))), 1)
    } else {
        let p = spec_run_start(s, c1);
        let b = spec_find_noncls(s, c1);
        let istar = spec_last_cand(s, c1, b - 1);
        let cap = s.subrange(p, istar);
        (spec_trim(cap.subrange(0, spec_split_end(cap))), spec_season_char(s[istar + 2]))
    }
}

/// Numeral value of a season character, executably.
fn season_char(c: char) -> (r: u64)
    ensures
        r as int == spec_season_char(c),
{
    if c == '一' { 1 }
    else if c == '二' { 2 }
    else if c == '三' { 3 }
    else if c == '四' { 4 }
    else if c == '五' { 5 }
    else if c == '六' { 6 }
    else if c == '七' { 7 }
    else if c == '八' { 8 }
    else if c == '九' { 9 }
    else if c == '十' { 10 }
    else { 0 }
}

fn cls_ok(c: char) -> (r: bool)
    ensures
        r == spec_cls_ok(c),
{
    c != '[' && c != ']'
}

/// Whether a season marker begins at `i`, executably.
fn is_cand(s: &Vec<char>, i: usize) -> (r: bool)
    requires
        i < s@.len(),
    ensures
        r == spec_is_cand(s@, i as int),
{
    if s.len() - i < 4 {
        return false;
    }
    space_char(s[i]) && s[i + 1] == '第' && season_char(s[i + 2]) > 0 && s[i + 3] == '季'
}

fn first_cand(s: &Vec<char>) -> (r: usize)
    ensures
        r == spec_first_cand(s@, 0),
        r <= s@.len(),
{
    let mut j: usize = 0;
    while j < s.len()
        invariant
            j <= s@.len(),
            spec_first_cand(s@, 0) == spec_first_cand(s@, j as int),
        decreases s@.len() - j,
    {
        if is_cand(s, j) {
            return j;
        }
        j = j + 1;
    }
    j
}

fn run_start(s: &Vec<char>, e: usize) -> (r: usize)
    requires
        e <= s@.len(),
    ensures
        r == spec_run_start(s@, e as int),
        r <= e,
{
    let mut j: usize = e;
    while j > 0 && cls_ok(s[j - 1])
        invariant
            j <= e <= s@.len(),
            spec_run_start(s@, e as int) == spec_run_start(s@, j as int),
        decreases j,
    {
        j = j - 1;
    }
    j
}

fn find_noncls(s: &Vec<char>, i: usize) -> (r: usize)
    requires
        i <= s@.len(),
    ensures
        r == spec_find_noncls(s@, i as int),
        i <= r <= s@.len(),
{
    let mut j: usize = i;
    while j < s.len()
        invariant
            i <= j <= s@.len(),
            spec_find_noncls(s@, i as int) == spec_find_noncls(s@, j as int),
        decreases s@.len() - j,
    {
        if !cls_ok(s[j]) {
            return j;
        }
        j = j + 1;
    }
    j
}

fn last_cand(s: &Vec<char>, lo: usize, from: usize) -> (r: usize)
    requires
        lo <= from,
        from < s@.len(),
    ensures
        r == spec_last_cand(s@, lo as int, from as int),
        lo <= r <= from,
{
    let mut j: usize = from;
    while j > lo
        invariant
            lo <= j <= from < s@.len(),
            spec_last_cand(s@, lo as int, from as int) == spec_last_cand(
                s@,
                lo as int,
                j as int,
            ),
        decreases j,
    {
        if is_cand(s, j) {
            return j;
        }
        j = j - 1;
    }
    j
}

fn split_end(s: &Vec<char>) -> (r: usize)
    ensures
        r == spec_split_end(s@),
        r <= s@.len(),
{
    let a = find_char(s, 0, '/');
    let b = find_char(s, 0, '|');
    if a <= b {
        a
    } else {
        b
    }
}

/// The show title and season read out of a title string.
pub fn parse_bangumi_title_and_season(s: &Vec<char>) -> (r: (Vec<char>, u64))
    ensures
        (r.0@, r.1 as int) == spec_title_season(s@),
{
    let c1 = first_cand(s);
    if c1 == s.len() {
        let part = subrange_chars(s, 0, split_end(s));
        let t = trim_chars(&part);
        (t, 1)
    } else {
        proof {
            lemma_first_cand_is_cand(s@, 0);
        }
        let p = run_start(s, c1);
        let b = find_noncls(s, c1);
        proof {
            assert(spec_is_cand(s@, c1 as int));
            assert(spec_cls_ok(s@[c1 as int]));
            lemma_find_noncls_props(s@, c1 as int);
        }
        let istar = last_cand(s, c1, b - 1);
        proof {
            lemma_last_cand_is_cand(s@, c1 as int, b - 1 as int);
        }
        let cap = subrange_chars(s, p, istar);
        let part = subrange_chars(&cap, 0, split_end(&cap));
        let t = trim_chars(&part);
        let season = season_char(s[istar + 2]);
        (t, season)
    }
}

proof fn lemma_first_cand_is_cand(s: Seq<char>, i: int)
    requires
        0 <= i <= s.len(),
    ensures
        spec_first_cand(s, i) < s.len() ==> spec_is_cand(s, spec_first_cand(s, i)),
        i <= spec_first_cand(s, i) <= s.len(),
    decreases s.len() - i,
{
    if i < s.len() && !spec_is_cand(s, i) {
        lemma_first_cand_is_cand(s, i + 1);
    }
}

proof fn lemma_find_noncls_props(s: Seq<char>, i: int)
    requires
        0 <= i <= s.len(),
    ensures
        i <= spec_find_noncls(s, i) <= s.len(),
        spec_find_noncls(s, i) > i || i >= s.len() || !spec_cls_ok(s[i]),
    decreases s.len() - i,
{
    if i < s.len() && spec_cls_ok(s[i]) {
        lemma_find_noncls_props(s, i + 1);
    }
}

proof fn lemma_last_cand_is_cand(s: Seq<char>, lo: int, k: int)
    requires
        0 <= lo <= k < s.len(),
        spec_is_cand(s, lo),
    ensures
        spec_is_cand(s, spec_last_cand(s, lo, k)),
        lo <= spec_last_cand(s, lo, k) <= k,
    decreases k - lo,
{
    if k > lo && !spec_is_cand(s, k) {
        lemma_last_cand_is_cand(s, lo, k - 1);
    }
}

/// Remove every bracketed span `[…]` left in a title.
pub open spec fn spec_remove_brackets(s: Seq<char>) -> Seq<char>
    decreases s.len(),
{
    if s.len() == 0 {
        s
    } else if s[0] == '[' && 1 <= spec_find_char(s, 1, ']') < s.len() {
        spec_remove_brackets(s.subrange(spec_find_char(s, 1, ']') + 1, s.len() as int))
    } else {
        seq![s[0]] + spec_remove_brackets(s.drop_first())
    }
}

/// Remove bracketed spans, executably.
pub fn remove_redundant_brackets(s: &Vec<char>) -> (r: Vec<char>)
    ensures
        r@ == spec_remove_brackets(s@),
{
    let mut out: Vec<char> = Vec::new();
    let mut i: usize = 0;
    proof {
        assert(s@.skip(0) == s@);
    }
    while i < s.len()
        invariant
            i <= s@.len(),
            spec_remove_brackets(s@) == out@ + spec_remove_brackets(s@.skip(i as int)),
        decreases s@.len() - i,
    {
        let ghost rest = s@.skip(i as int);
        proof {
            assert(rest[0] == s@[i as int]);
        }
        if s[i] == '[' {
            let j = find_char(s, i + 1, ']');
            proof {
                crate::text::lemma_find_char_props(s@, i + 1 as int, ']');
                lemma_find_char_shift(s@, i as int, ']');
            }
            if j < s.len() {
                proof {
                    let sj = spec_find_char(rest, 1, ']');
                    assert(rest.subrange(sj + 1, rest.len() as int) =~= s@.skip(j + 1 as int));
                }
                i = j + 1;
            } else {
                proof {
                    assert(rest.drop_first() =~= s@.skip(i + 1 as int));
                }
                out.push(s[i]);
                i = i + 1;
            }
        } else {
            proof {
                assert(rest.drop_first() =~= s@.skip(i + 1 as int));
            }
            out.push(s[i]);
            i = i + 1;
        }
    }
    proof {
        assert(s@.skip(s@.len() as int).len() == 0);
    }
    out
}

/// Whether the separator ` - ` of the primary grammar stands at `i`: a dash
/// whose next non-space character is a digit.
pub open spec fn spec_sep_ok(s: Seq<char>, i: int) -> bool {
    &&& 0 <= i < s.len()
    &&& s[i] == '-'
    &&& spec_skip_spaces(s, i + 1) < s.len()
    &&& is_digit_char(s[spec_skip_spaces(s, i + 1)])
}

/// First separator position at or after `i`; `s.len()` when there is none.
pub open spec fn spec_find_sep(s: Seq<char>, i: int) -> int
    decreases s.len() - i,
{
    if i < 0 {
        spec_find_sep(s, 0)
    } else if i >= s.len() {
        s.len() as int
    } else if spec_sep_ok(s, i) {
        i
    } else {
        spec_find_sep(s, i + 1)
    }
}

/// End of the digit run starting at `i`.
pub open spec fn spec_digit_end(s: Seq<char>, i: int) -> int
    decreases s.len() - i,
{
    if i < 0 {
        spec_digit_end(s, 0)
    } else if i >= s.len() {
        s.len() as int
    } else if is_digit_char(s[i]) {
        spec_digit_end(s, i + 1)
    } else {
        i
    }
}

/// First opening bracket or parenthesis at or after `i`.
pub open spec fn spec_find_open(s: Seq<char>, i: int) -> int
    decreases s.len() - i,
{
    if i < 0 {
        spec_find_open(s, 0)
    } else if i >= s.len() {
        s.len() as int
    } else if s[i] == '[' || s[i] == '(' {
        i
    } else {
        spec_find_open(s, i + 1)
    }
}

/// What the primary grammar reads out of a pre-normalised title
/// `[fansub] titles - episode[vN] [episode name] [media]…`: the fansub tag up
/// to the first `]`; the titles between it and the first dash followed by a
/// number, handed to the season grammar and stripped of leftover brackets;
/// the digits after that dash as the episode, an optional `v`-revision
/// skipped; and, when the title ends in a closing bracket, the media
/// annotation from the first opening bracket after the episode and its name.
pub open spec fn spec_primary(s: Seq<char>) -> Option<(Seq<char>, Seq<char>, int, int, Seq<char>)> {
    if s.len() == 0 || s[0] != '[' {
        None
    } else {
        let f = spec_find_char(s, 1, ']');
        if f >= s.len() {
            None
        } else {
            let d = spec_find_sep(s, f + 1);
            if d >= s.len() {
                None
            } else {
                let e = spec_skip_spaces(s, d + 1);
                let k = spec_digit_end(s, e);
                match spec_parse_u64(s.subrange(e, k)) {
                    None => None,
                    Some(ep) => {
                        let k2 = if k + 1 < s.len() && s[k] == 'v' && is_digit_char(s[k + 1]) {
                            k + 2
                        } else {
                            k
                        };
                        let kp = spec_skip_spaces(s, k2);
                        let media = if kp < s.len() && (s[s.len() - 1] == ']' || s[s.len() - 1]
                            == ')') && spec_find_open(s, kp) < s.len() {
                            s.subrange(spec_find_open(s, kp), s.len() as int)
                        } else {
                            Seq::empty()
                        };
                        let ts = spec_title_season(spec_trim(s.subrange(f + 1, d)));
                        Some(
                            (
                                s.subrange(0, f + 1),
                                spec_trim(spec_remove_brackets(ts.0)),
                                ts.1,
                                ep as int,
                                media,
                            ),
                        )
                    },
                }
            }
        }
    }
}

fn find_sep(s: &Vec<char>, i: usize) -> (r: usize)
    requires
        i <= s@.len(),
    ensures
        r == spec_find_sep(s@, i as int),
        i <= r <= s@.len(),
{
    let mut j: usize = i;
    while j < s.len()
        invariant
            i <= j <= s@.len(),
            spec_find_sep(s@, i as int) == spec_find_sep(s@, j as int),
        decreases s@.len() - j,
    {
        if s[j] == '-' {
            let e = skip_spaces(s, j + 1);
            if e < s.len() && digit_char(s[e]) {
                return j;
            }
        }
        j = j + 1;
    }
    j
}

fn digit_end(s: &Vec<char>, i: usize) -> (r: usize)
    requires
        i <= s@.len(),
    ensures
        r == spec_digit_end(s@, i as int),
        i <= r <= s@.len(),
{
    let mut j: usize = i;
    while j < s.len()
        invariant
            i <= j <= s@.len(),
            spec_digit_end(s@, i as int) == spec_digit_end(s@, j as int),
        decreases s@.len() - j,
    {
        if !digit_char(s[j]) {
            return j;
        }
        j = j + 1;
    }
    j
}

fn find_open(s: &Vec<char>, i: usize) -> (r: usize)
    requires
        i <= s@.len(),
    ensures
        r == spec_find_open(s@, i as int),
        i <= r <= s@.len(),
{
    let mut j: usize = i;
    while j < s.len()
        invariant
            i <= j <= s@.len(),
            spec_find_open(s@, i as int) == spec_find_open(s@, j as int),
        decreases s@.len() - j,
    {
        if s[j] == '[' || s[j] == '(' {
            return j;
        }
        j = j + 1;
    }
    j
}

/// Read a pre-normalised title with the primary grammar.
pub fn split_by_regular_format(s: &Vec<char>) -> (r: Option<
    (Vec<char>, Vec<char>, u64, u64, Vec<char>),
>)
    ensures
        match r {
            Some(p) => spec_primary(s@) == Some((p.0@, p.1@, p.2 as int, p.3 as int, p.4@)),
            None => spec_primary(s@) is None,
        },
{
    if s.len() == 0 {
        return None;
    }
    if s[0] != '[' {
        return None;
    }
    let f = find_char(s, 1, ']');
    if f >= s.len() {
        return None;
    }
    let d = find_sep(s, f + 1);
    if d >= s.len() {
        return None;
    }
    let e = skip_spaces(s, d + 1);
    let k = digit_end(s, e);
    let ep = match crate::text::parse_u64_range(s, e, k) {
        Some(v) => v,
        None => {
            return None;
        },
    };
    let k2: usize = if k < s.len() && k + 1 < s.len() && s[k] == 'v' && digit_char(s[k + 1]) {
        k + 2
    } else {
        k
    };
    let kp = skip_spaces(s, k2);
    let last = s[s.len() - 1];
    let mut media: Vec<char> = Vec::new();
    if kp < s.len() && (last == ']' || last == ')') {
        let u = find_open(s, kp);
        if u < s.len() {
            media = subrange_chars(s, u, s.len());
        }
    }
    let tcap = subrange_chars(s, f + 1, d);
    let tt = trim_chars(&tcap);
    let (t0, season) = parse_bangumi_title_and_season(&tt);
    let cleaned = remove_redundant_brackets(&t0);
    let title = trim_chars(&cleaned);
    let fansub = subrange_chars(s, 0, f + 1);
    Some((fansub, title, season, ep, media))
}

/// The characters the fallback grammar splits a title on.
pub open spec fn spec_is_delim(c: char) -> bool {
    c == '[' || c == ']' || c == '-'
}

/// First split character at or after `i`; `s.len()` when there is none.
pub open spec fn spec_find_delim(s: Seq<char>, i: int) -> int
    decreases s.len() - i,
{
    if i < 0 {
        spec_find_delim(s, 0)
    } else if i >= s.len() {
        s.len() as int
    } else if spec_is_delim(s[i]) {
        i
    } else {
        spec_find_delim(s, i + 1)
    }
}

/// The parts of `s` between split characters, empty parts kept.
pub open spec fn spec_split_multi(s: Seq<char>) -> Seq<Seq<char>>
    decreases s.len(),
{
    let d = spec_find_delim(s, 0);
    if 0 <= d && d < s.len() {
        seq![s.subrange(0, d)] + spec_split_multi(s.subrange(d + 1, s.len() as int))
    } else {
        seq![s]
    }
}

/// The non-empty parts, in order.
pub open spec fn spec_filter_nonempty(parts: Seq<Seq<char>>) -> Seq<Seq<char>>
    decreases parts.len(),
{
    if parts.len() == 0 {
        parts
    } else if parts.last().len() > 0 {
        spec_filter_nonempty(parts.drop_last()).push(parts.last())
    } else {
        spec_filter_nonempty(parts.drop_last())
    }
}

/// What the fallback reads as fansub, title and season: the first non-empty
/// part, re-wrapped in brackets, and the second handed to the season
/// grammar. It needs at least two non-empty parts.
pub open spec fn spec_fallback_fts(s: Seq<char>) -> Option<(Seq<char>, Seq<char>, int)> {
    let f = spec_filter_nonempty(spec_split_multi(s));
    if f.len() >= 2 {
        let ts = spec_title_season(f[1]);
        Some((seq!['['] + f[0] + seq![']'], ts.0, ts.1))
    } else {
        None
    }
}

/// First part at or after `i` that reads as a number.
pub open spec fn spec_first_num(parts: Seq<Seq<char>>, i: int) -> int
    decreases parts.len() - i,
{
    if i < 0 {
        spec_first_num(parts, 0)
    } else if i >= parts.len() {
        parts.len() as int
    } else if spec_parse_u64(parts[i]) is Some {
        i
    } else {
        spec_first_num(parts, i + 1)
    }
}

/// The media annotation rebuilt from the parts at and after `i`: each
/// non-empty part re-wrapped in brackets.
pub open spec fn spec_media_concat(parts: Seq<Seq<char>>, i: int) -> Seq<char>
    decreases parts.len() - i,
{
    if i < 0 {
        spec_media_concat(parts, 0)
    } else if i >= parts.len() {
        Seq::empty()
    } else {
        (if parts[i].len() == 0 {
            Seq::<char>::empty()
        } else {
            seq!['['] + parts[i] + seq![']']
        }) + spec_media_concat(parts, i + 1)
    }
}

/// What the fallback reads as episode and media: the first part that is a
/// number, and the later parts re-wrapped as the media annotation.
pub open spec fn spec_fallback_ep(s: Seq<char>) -> Option<(int, Seq<char>)> {
    let parts = spec_split_multi(s);
    let i = spec_first_num(parts, 0);
    if i < parts.len() {
        Some((spec_parse_u64(parts[i])->Some_0 as int, spec_media_concat(parts, i + 1)))
    } else {
        None
    }
}

/// The views of a list of character vectors.
pub open spec fn spec_views(parts: Seq<Vec<char>>) -> Seq<Seq<char>> {
    parts.map(|i: int, p: Vec<char>| p@)
}

/// `spec_find_delim` on a suffix mirrors it on the whole.
proof fn lemma_find_delim_rel(s: Seq<char>, base: int, k: int)
    requires
        0 <= base <= s.len(),
        0 <= k <= s.len() - base,
    ensures
        spec_find_delim(s.skip(base), k) == spec_find_delim(s, base + k) - base,
    decreases s.len() - base - k,
{
    let rest = s.skip(base);
    if k >= rest.len() {
    } else if spec_is_delim(rest[k]) {
        assert(s[base + k] == rest[k]);
    } else {
        assert(s[base + k] == rest[k]);
        lemma_find_delim_rel(s, base, k + 1);
    }
}

fn is_delim(c: char) -> (r: bool)
    ensures
        r == spec_is_delim(c),
{
    c == '[' || c == ']' || c == '-'
}

fn find_delim(s: &Vec<char>, i: usize) -> (r: usize)
    requires
        i <= s@.len(),
    ensures
        r == spec_find_delim(s@, i as int),
        i <= r <= s@.len(),
{
    let mut j: usize = i;
    while j < s.len()
        invariant
            i <= j <= s@.len(),
            spec_find_delim(s@, i as int) == spec_find_delim(s@, j as int),
        decreases s@.len() - j,
    {
        if is_delim(s[j]) {
            return j;
        }
        j = j + 1;
    }
    j
}

/// Split a title on brackets and dashes, empty parts kept.
pub fn split_multi(s: &Vec<char>) -> (r: Vec<Vec<char>>)
    ensures
        spec_views(r@) == spec_split_multi(s@),
{
    let mut out: Vec<Vec<char>> = Vec::new();
    let mut cur: usize = 0;
    proof {
        assert(s@.skip(0) == s@);
        assert(spec_views(out@) =~= Seq::<Seq<char>>::empty());
    }
    loop
        invariant
            cur <= s@.len(),
            spec_split_multi(s@) == spec_views(out@) + spec_split_multi(s@.skip(cur as int)),
        decreases s@.len() - cur,
    {
        let ghost rest = s@.skip(cur as int);
        let d = find_delim(s, cur);
        proof {
            lemma_find_delim_rel(s@, cur as int, 0);
        }
        if d < s.len() {
            let part = subrange_chars(s, cur, d);
            out.push(part);
            proof {
                let sd = spec_find_delim(rest, 0);
                assert(sd == d - cur);
                assert(rest.subrange(0, sd) =~= s@.subrange(cur as int, d as int));
                assert(rest.subrange(sd + 1, rest.len() as int) =~= s@.skip(d + 1 as int));
                assert(spec_views(out@) =~= spec_views(out@.drop_last()) + seq![
                    s@.subrange(cur as int, d as int),
                ]);
            }
            cur = d + 1;
        } else {
            let part = subrange_chars(s, cur, s.len());
            out.push(part);
            proof {
                let sd = spec_find_delim(rest, 0);
                assert(sd == rest.len());
                assert(rest =~= s@.subrange(cur as int, s@.len() as int));
                assert(spec_split_multi(rest) == seq![rest]);
                assert(spec_views(out@) =~= spec_views(out@.drop_last()) + seq![rest]);
            }
            return out;
        }
    }
}

/// The non-empty parts, in order, executably.
fn filter_nonempty(parts: &Vec<Vec<char>>) -> (r: Vec<Vec<char>>)
    ensures
        spec_views(r@) == spec_filter_nonempty(spec_views(parts@)),
{
    let mut out: Vec<Vec<char>> = Vec::new();
    let mut j: usize = 0;
    proof {
        assert(spec_views(parts@.subrange(0, 0)) =~= Seq::<Seq<char>>::empty());
        assert(spec_views(out@) =~= Seq::<Seq<char>>::empty());
    }
    while j < parts.len()
        invariant
            j <= parts@.len(),
            spec_views(out@) == spec_filter_nonempty(spec_views(parts@.subrange(0, j as int))),
        decreases parts@.len() - j,
    {
        let ghost pre = parts@.subrange(0, j as int);
        let ghost cur = parts@.subrange(0, j + 1 as int);
        proof {
            assert(cur.drop_last() == pre);
            assert(spec_views(cur).drop_last() =~= spec_views(pre));
            assert(spec_views(cur).last() == parts@[j as int]@);
        }
        if parts[j].len() > 0 {
            let ghost old_out = out@;
            let copy = subrange_chars(&parts[j], 0, parts[j].len());
            proof {
                assert(copy@ =~= parts@[j as int]@);
            }
            out.push(copy);
            proof {
                assert(spec_views(out@) =~= spec_views(old_out).push(parts@[j as int]@));
            }
        }
        j = j + 1;
    }
    proof {
        assert(parts@.subrange(0, parts@.len() as int) == parts@);
    }
    out
}

/// Read fansub, title and season with the fallback grammar.
pub fn parse_fansub_title_season(s: &Vec<char>) -> (r: Option<(Vec<char>, Vec<char>, u64)>)
    ensures
        match r {
            Some(p) => spec_fallback_fts(s@) == Some((p.0@, p.1@, p.2 as int)),
            None => spec_fallback_fts(s@) is None,
        },
{
    let parts = split_multi(s);
    let f = filter_nonempty(&parts);
    if f.len() >= 2 {
        let mut fansub: Vec<char> = Vec::new();
        fansub.push('[');
        crate::text::append_chars(&mut fansub, &f[0]);
        fansub.push(']');
        proof {
            assert(fansub@ =~= seq!['['] + f@[0]@ + seq![']']);
            assert(spec_views(f@)[0] == f@[0]@);
            assert(spec_views(f@)[1] == f@[1]@);
        }
        let (title, season) = parse_bangumi_title_and_season(&f[1]);
        Some((fansub, title, season))
    } else {
        None
    }
}

/// Read episode and media with the fallback grammar.
pub fn parse_episode_num_and_media_info(s: &Vec<char>) -> (r: Option<(u64, Vec<char>)>)
    ensures
        match r {
            Some(p) => spec_fallback_ep(s@) == Some((p.0 as int, p.1@)),
            None => spec_fallback_ep(s@) is None,
        },
{
    let parts = split_multi(s);
    let ghost pv = spec_views(parts@);
    let mut i: usize = 0;
    while i < parts.len()
        invariant
            i <= parts@.len(),
            pv == spec_views(parts@),
            pv == spec_split_multi(s@),
            spec_first_num(pv, 0) == spec_first_num(pv, i as int),
        decreases parts@.len() - i,
    {
        proof {
            assert(pv[i as int] == parts@[i as int]@);
        }
        match crate::text::parse_u64_range(&parts[i], 0, parts[i].len()) {
            Some(ep) => {
                proof {
                    assert(parts@[i as int]@.subrange(0, parts@[i as int]@.len() as int) =~= parts@[
                        i as int]@);
                    assert(spec_parse_u64(pv[i as int]) == Some(ep));
                }
                let mut media: Vec<char> = Vec::new();
                let mut j: usize = i + 1;
                #[verifier::loop_isolation(false)]
                while j < parts.len()
                    invariant
                        i + 1 <= j <= parts@.len(),
                        pv == spec_views(parts@),
                        spec_media_concat(pv, i + 1 as int) == media@ + spec_media_concat(
                            pv,
                            j as int,
                        ),
                    decreases parts@.len() - j,
                {
                    proof {
                        assert(pv[j as int] == parts@[j as int]@);
                    }
                    if parts[j].len() > 0 {
                        media.push('[');
                        let pj = subrange_chars(&parts[j], 0, parts[j].len());
                        proof {
                            assert(pj@ =~= parts@[j as int]@);
                        }
                        crate::text::append_chars(&mut media, &pj);
                        media.push(']');
                    }
                    j = j + 1;
                }
                proof {
                    assert(spec_media_concat(pv, parts@.len() as int) =~= Seq::<char>::empty());
                    assert(media@ =~= spec_media_concat(pv, i + 1 as int));
                }
                return Some((ep, media));
            },
            None => {
                proof {
                    assert(parts@[i as int]@.subrange(0, parts@[i as int]@.len() as int) =~= parts@[
                        i as int]@);
                    assert(spec_parse_u64(pv[i as int]) is None);
                }
            },
        }
        i = i + 1;
    }
    None
}

/// What an item title parses to: fansub, title, season, episode and media,
/// by the primary grammar after pre-normalisation, else by the fallback,
/// else nothing.
pub open spec fn spec_parse_item_info(s: Seq<char>) -> Option<
    (Seq<char>, Seq<char>, int, int, Seq<char>),
> {
    let pre = spec_pretreat(s);
    match spec_primary(pre) {
        Some(x) => Some(x),
        None => match (spec_fallback_fts(pre), spec_fallback_ep(pre)) {
            (Some(a), Some(b)) => Some((a.0, a.1, a.2, b.0, b.1)),
            _ => None,
        },
    }
}

/// Parse one item title into fansub, title, season, episode and media.
pub fn parse_rss_item_info(content: &str) -> (r: Option<(String, String, u64, u64, String)>)
    ensures
        match r {
            Some(p) => spec_parse_item_info(content@) == Some(
                (p.0@, p.1@, p.2 as int, p.3 as int, p.4@),
            ),
            None => spec_parse_item_info(content@) is None,
        },
{
    let v = crate::text::chars_vec(content);
    let pre = pretreat_rss_item_title(&v);
    match split_by_regular_format(&pre) {
        Some((f, t, se, ep, m)) => Some(
            (
                string_from_chars(&f),
                string_from_chars(&t),
                se,
                ep,
                string_from_chars(&m),
            ),
        ),
        None => {
            match parse_fansub_title_season(&pre) {
                Some((f, t, se)) => {
                    match parse_episode_num_and_media_info(&pre) {
                        Some((ep, m)) => Some(
                            (
                                string_from_chars(&f),
                                string_from_chars(&t),
                                se,
                                ep,
                                string_from_chars(&m),
                            ),
                        ),
                        None => None,
                    }
                },
                None => None,
            }
        },
    }
}

/// The torrent reference of a feed item: its enclosure url, with placement
/// left unset at this layer.
pub fn parse_rss_item_torrent(enclosure_url: &str) -> (r: crate::torrent::TorrentMeta)
    ensures
        r.url@ == enclosure_url@,
        r.save_path is None,
        r.category is None,
{
    crate::torrent::TorrentMeta { url: enclosure_url.to_owned(), save_path: None, category: None }
}

/// Parse one feed item. An item whose title fits neither grammar is reported
/// as an unrecognized episode, carrying the title verbatim.
pub fn parse_rss_item(link: &str, title: &str, enclosure_url: &str) -> (r: Result<
    crate::rss::RssSubscriptionItem,
    crate::rss::ParsingError,
>)
    ensures
        match r {
            Ok(item) => {
                match spec_parse_item_info(title@) {
                    Some(p) => item.url@ == link@ && item.title@ == p.1 && item.episode_title@
                        == Seq::<char>::empty() && item.season as int == p.2 && item.episode as int
                        == p.3 && item.fansub@ == p.0 && item.media_info@ == p.4
                        && item.torrent.url@ == enclosure_url@ && item.torrent.save_path is None
                        && item.torrent.category is None && item.category@ == Seq::<char>::empty(),
                    None => false,
                }
            },
            Err(e) => spec_parse_item_info(title@) is None && match e {
                crate::rss::ParsingError::UnrecognizedEpisode(raw) => raw@ == title@,
                _ => false,
            },
        },
{
    match parse_rss_item_info(title) {
        Some((fansub, t, season, episode, media_info)) => {
            let torrent = parse_rss_item_torrent(enclosure_url);
            Ok(
                crate::rss::RssSubscriptionItem {
                    url: link.to_owned(),
                    title: t,
                    episode_title: String::new(),
                    season,
                    episode,
                    fansub,
                    media_info,
                    torrent,
                    category: String::new(),
                },
            )
        },
        None => Err(crate::rss::ParsingError::UnrecognizedEpisode(title.to_owned())),
    }
}

/// The channel-title prefix the aggregator site prepends.
pub open spec fn spec_mikan_prefix() -> Seq<char> {
    seq!['M', 'i', 'k', 'a', 'n', ' ', 'P', 'r', 'o', 'j', 'e', 'c', 't', ' ', '-', ' ']
}

/// A channel title with its aggregator prefix removed.
pub open spec fn spec_strip_prefix(s: Seq<char>) -> Seq<char> {
    if s.len() >= 16 && s.subrange(0, 16) == spec_mikan_prefix() {
        s.subrange(16, s.len() as int)
    } else {
        s
    }
}

/// Strip the `Mikan Project - ` prefix from a channel title, if present.
pub fn strip_mikan_prefix<'a>(title: &'a str) -> (r: &'a str)
    ensures
        r@ == spec_strip_prefix(title@),
{
    proof {
        reveal_strlit("Mikan Project - ");
        assert("Mikan Project - "@ =~= spec_mikan_prefix());
    }
    let n = title.unicode_len();
    if n >= 16 {
        let head = title.substring_char(0, 16);
        if crate::text::str_equal(head, "Mikan Project - ") {
            return title.substring_char(16, n);
        }
    }
    title
}

/// One feed item as the channel's XML carries it.
#[derive(Debug)]
pub struct RawFeedItem {
    /// The episode page.
    pub link: String,
    /// The raw item title.
    pub title: String,
    /// The `.torrent` url from the enclosure element.
    pub enclosure_url: String,
}

/// A decoded feed envelope: the channel's title and link and its items in
/// document order.
#[derive(Debug)]
pub struct RssDocument {
    pub channel_title: String,
    pub channel_link: String,
    pub items: Vec<RawFeedItem>,
}

/// The content of a subscription item, at the specification level.
pub struct ItemView {
    pub url: Seq<char>,
    pub title: Seq<char>,
    pub episode_title: Seq<char>,
    pub season: int,
    pub episode: int,
    pub fansub: Seq<char>,
    pub media_info: Seq<char>,
    pub torrent_url: Seq<char>,
    pub category: Seq<char>,
}

/// The content of a parsed subscription item.
pub open spec fn spec_item_view(it: crate::rss::RssSubscriptionItem) -> ItemView {
    ItemView {
        url: it.url@,
        title: it.title@,
        episode_title: it.episode_title@,
        season: it.season as int,
        episode: it.episode as int,
        fansub: it.fansub@,
        media_info: it.media_info@,
        torrent_url: it.torrent.url@,
        category: it.category@,
    }
}

/// The contents of a sequence of subscription items.
pub open spec fn spec_item_views(items: Seq<crate::rss::RssSubscriptionItem>) -> Seq<ItemView> {
    items.map(|i: int, it: crate::rss::RssSubscriptionItem| spec_item_view(it))
}

/// The aggregator channel sentinel.
pub open spec fn spec_aggregator_title() -> Seq<char> {
    seq!['我', '的', '番', '组']
}

/// What one raw item assembles to: nothing when its title fits no grammar;
/// otherwise the parsed item, where — outside an aggregator channel — the
/// subscription's title, season and category overrides take precedence over
/// the channel's title and season, which take precedence over the item's
/// own.
pub open spec fn spec_assemble(
    raw: RawFeedItem,
    title_ov: Option<String>,
    season_ov: Option<u64>,
    cat_ov: Option<String>,
    ch_title: Seq<char>,
    ch_season: int,
    agg: bool,
) -> Option<ItemView> {
    match spec_parse_item_info(raw.title@) {
        None => None,
        Some(p) => Some(
            ItemView {
                url: raw.link@,
                title: if agg {
                    p.1
                } else {
                    match title_ov {
                        Some(t) => t@,
                        None => ch_title,
                    }
                },
                episode_title: Seq::empty(),
                season: if agg {
                    p.2
                } else {
                    match season_ov {
                        Some(s) => s as int,
                        None => ch_season,
                    }
                },
                episode: p.3,
                fansub: p.0,
                media_info: p.4,
                torrent_url: raw.enclosure_url@,
                category: if agg {
                    Seq::empty()
                } else {
                    match cat_ov {
                        Some(c) => c@,
                        None => Seq::empty(),
                    }
                },
            },
        ),
    }
}

/// The items a feed's raw items assemble to, in document order, items whose
/// titles fit no grammar skipped.
pub open spec fn spec_doc_items(
    items: Seq<RawFeedItem>,
    title_ov: Option<String>,
    season_ov: Option<u64>,
    cat_ov: Option<String>,
    ch_title: Seq<char>,
    ch_season: int,
    agg: bool,
) -> Seq<ItemView>
    decreases items.len(),
{
    if items.len() == 0 {
        Seq::empty()
    } else {
        let rest = spec_doc_items(
            items.drop_last(),
            title_ov,
            season_ov,
            cat_ov,
            ch_title,
            ch_season,
            agg,
        );
        match spec_assemble(items.last(), title_ov, season_ov, cat_ov, ch_title, ch_season, agg) {
            Some(v) => rest.push(v),
            None => rest,
        }
    }
}

/// The parser for the mikan feed dialect.
#[derive(Debug)]
pub struct MikanParser {}

impl MikanParser {
    pub fn new() -> (r: Self) {
        MikanParser {  }
    }

    /// Assemble a decoded feed envelope into a subscription's items: the
    /// channel title, stripped of its site prefix, yields the channel's show
    /// title and season; when it is the aggregator sentinel, the items keep
    /// their own titles and seasons. An item whose title fits no grammar is
    /// skipped, and never aborts the feed.
    pub fn parse_document(&self, rss: &crate::rss::Rss, doc: &RssDocument) -> (r:
        crate::rss::RssSubscription)
        ensures
            r.url == doc.channel_link,
            ({
                let st = spec_strip_prefix(doc.channel_title@);
                let ts = spec_title_season(st);
                let agg = (ts.0 == spec_aggregator_title());
                spec_item_views(r.items@) == spec_doc_items(
                    doc.items@,
                    rss.title,
                    rss.season,
                    rss.category,
                    ts.0,
                    ts.1,
                    agg,
                )
            }),
    {
        let stripped = strip_mikan_prefix(doc.channel_title.as_str());
        let sv = crate::text::chars_vec(stripped);
        let (ct, cs) = parse_bangumi_title_and_season(&sv);
        let ct_str = string_from_chars(&ct);
        let agg = crate::text::str_equal(ct_str.as_str(), "我的番组");
        proof {
            reveal_strlit("我的番组");
            assert("我的番组"@ =~= spec_aggregator_title());
        }
        let ghost st = spec_strip_prefix(doc.channel_title@);
        let ghost ts = spec_title_season(st);
        let mut items: Vec<crate::rss::RssSubscriptionItem> = Vec::new();
        let mut j: usize = 0;
        proof {
            assert(doc.items@.subrange(0, 0) =~= Seq::<RawFeedItem>::empty());
            assert(spec_item_views(items@) =~= Seq::<ItemView>::empty());
        }
        #[verifier::loop_isolation(false)]
        while j < doc.items.len()
            invariant
                j <= doc.items@.len(),
                spec_item_views(items@) == spec_doc_items(
                    doc.items@.subrange(0, j as int),
                    rss.title,
                    rss.season,
                    rss.category,
                    ts.0,
                    ts.1,
                    agg,
                ),
            decreases doc.items@.len() - j,
        {
            let ghost pre = doc.items@.subrange(0, j as int);
            let ghost cur = doc.items@.subrange(0, j + 1 as int);
            proof {
                assert(cur.drop_last() == pre);
            }
            let raw = &doc.items[j];
            match parse_rss_item(raw.link.as_str(), raw.title.as_str(), raw.enclosure_url.as_str())
            {
                Ok(parsed) => {
                    let mut item = parsed;
                    if !agg {
                        item.title = match &rss.title {
                            Some(t) => t.clone(),
                            None => ct_str.clone(),
                        };
                        item.season = match rss.season {
                            Some(s) => s,
                            None => cs,
                        };
                        match &rss.category {
                            Some(c) => {
                                item.category = c.clone();
                            },
                            None => {},
                        }
                    }
                    let ghost old_items = items@;
                    items.push(item);
                    proof {
                        assert(spec_item_views(items@) =~= spec_item_views(old_items).push(
                            spec_item_view(item),
                        ));
                        assert(spec_assemble(
                            doc.items@[j as int],
                            rss.title,
                            rss.season,
                            rss.category,
                            ts.0,
                            ts.1,
                            agg,
                        ) == Some(spec_item_view(item)));
                    }
                },
                Err(_) => {
                    proof {
                        assert(spec_assemble(
                            doc.items@[j as int],
                            rss.title,
                            rss.season,
                            rss.category,
                            ts.0,
                            ts.1,
                            agg,
                        ) is None);
                    }
                },
            }
            j = j + 1;
        }
        proof {
            assert(doc.items@.subrange(0, doc.items@.len() as int) == doc.items@);
        }
        crate::rss::RssSubscription { url: doc.channel_link.clone(), items }
    }
}

} // verus!
