//! Exclusion filters over torrent names: a subscription item is admitted
//! exactly when no filter of its chain matches the torrent's declared name.
use vstd::prelude::*;

use crate::text::spec_starts_with;

verus! {

/// Whether the case-insensitive regex `pattern` compiles. Compilation
/// depends on the pattern alone.
pub uninterp spec fn regex_ci_pattern_ok(pattern: Seq<char>) -> bool;

/// Whether the case-insensitive regex `pattern` matches somewhere in `text`.
/// The outcome depends on the pattern and the text alone.
pub uninterp spec fn regex_ci_match(pattern: Seq<char>, text: Seq<char>) -> bool;

/// Relies on regex's `RegexBuilder::build` and `Regex::is_match`: building a
/// case-insensitive regex succeeds on a fixed set of patterns, and matching
/// is a function of the pattern and the text.
#[verifier::external_body]
fn regex_ci_is_match(pattern: &str, text: &str) -> (r: Option<bool>)
    ensures
        r is Some <==> regex_ci_pattern_ok(pattern@),
        match r {
            Some(m) => m == regex_ci_match(pattern@, text@),
            None => true,
        },
{
    match regex::RegexBuilder::new(pattern).case_insensitive(true).build() {
        Ok(re) => Some(re.is_match(text)),
        Err(_) => None,
    }
}

/// An exclusion predicate over torrent file names.
#[derive(Debug)]
pub enum RssFilter {
    /// Matches the name against a case-insensitive regex.
    FilenameRegex(String),
}

impl Clone for RssFilter {
    fn clone(&self) -> (r: Self)
        ensures
            r == *self,
    {
        match self {
            RssFilter::FilenameRegex(p) => RssFilter::FilenameRegex(p.clone()),
        }
    }
}

/// Whether a filter matches a torrent name: a pattern that does not compile
/// matches nothing, so a broken filter admits everything it sees.
pub open spec fn spec_filter_matches(f: RssFilter, name: Seq<char>) -> bool {
    match f {
        RssFilter::FilenameRegex(p) => regex_ci_pattern_ok(p@) && regex_ci_match(p@, name),
    }
}

/// Match `filename` against the case-insensitive regex `pattern`; a pattern
/// that fails to build matches nothing.
pub fn match_by_regex(pattern: &str, filename: &str) -> (r: bool)
    ensures
        r == (regex_ci_pattern_ok(pattern@) && regex_ci_match(pattern@, filename@)),
{
    match regex_ci_is_match(pattern, filename) {
        Some(m) => m,
        None => false,
    }
}

impl RssFilter {
    /// Whether this filter matches the torrent's declared name.
    pub fn is_match(&self, name: &str) -> (r: bool)
        ensures
            r == spec_filter_matches(*self, name@),
    {
        match self {
            RssFilter::FilenameRegex(pattern) => match_by_regex(pattern.as_str(), name),
        }
    }
}

/// An ordered chain of exclusion filters.
#[derive(Debug)]
pub struct RssFilterChain(pub Vec<RssFilter>);

impl Clone for RssFilterChain {
    fn clone(&self) -> (r: Self)
        ensures
            r.0@ =~= self.0@,
    {
        let mut out: Vec<RssFilter> = Vec::new();
        let mut j: usize = 0;
        while j < self.0.len()
            invariant
                j <= self.0@.len(),
                out@ =~= self.0@.subrange(0, j as int),
            decreases self.0@.len() - j,
        {
            out.push(self.0[j].clone());
            assert(out@ =~= self.0@.subrange(0, j + 1 as int));
            j = j + 1;
        }
        assert(self.0@.subrange(0, self.0@.len() as int) == self.0@);
        RssFilterChain(out)
    }
}

/// A chain admits a name exactly when none of its filters matches it.
pub open spec fn spec_chain_admits(chain: Seq<RssFilter>, name: Seq<char>) -> bool {
    forall|i: int| 0 <= i < chain.len() ==> !spec_filter_matches(#[trigger] chain[i], name)
}

impl RssFilterChain {
    /// Whether the item whose torrent declares `name` is admitted: true
    /// exactly when no filter of the chain matches the name, so the empty
    /// chain admits everything.
    pub fn is_match(&self, name: &str) -> (r: bool)
        ensures
            r == spec_chain_admits(self.0@, name@),
            self.0@.len() == 0 ==> r,
    {
        let mut j: usize = 0;
        while j < self.0.len()
            invariant
                j <= self.0@.len(),
                forall|k: int| 0 <= k < j ==> !spec_filter_matches(#[trigger] self.0@[k], name@),
            decreases self.0@.len() - j,
        {
            if self.0[j].is_match(name) {
                return false;
            }
            j = j + 1;
        }
        true
    }

    /// Admission when the torrent's name may be unavailable: an item whose
    /// name could not be fetched is admitted.
    pub fn is_admitted(&self, name: Option<&str>) -> (r: bool)
        ensures
            match name {
                Some(n) => r == spec_chain_admits(self.0@, n@),
                None => r,
            },
    {
        match name {
            Some(n) => self.is_match(n),
            None => true,
        }
    }
}

/// The label prefix a filter is stored under.
pub open spec fn spec_label_prefix() -> Seq<char> {
    seq!['F', 'i', 'l', 'e', 'n', 'a', 'm', 'e', 'R', 'e', 'g', 'e', 'x', '-']
}

/// The stored label of a filter: the prefix, a dash, the pattern.
pub open spec fn spec_filter_label(f: RssFilter) -> Seq<char> {
    match f {
        RssFilter::FilenameRegex(p) => spec_label_prefix() + p@,
    }
}

/// How one character is written inside a JSON string: quotes, backslashes
/// and the named control characters get two-character escapes, other control
/// characters a `\u00..` escape with lowercase hex, everything else itself.
pub open spec fn spec_json_escape_char(c: char) -> Seq<char> {
    if c == '"' {
        seq!['\\', '"']
    } else if c == '\\' {
        seq!['\\', '\\']
    } else if c == '\u{8}' {
        seq!['\\', 'b']
    } else if c == '\u{c}' {
        seq!['\\', 'f']
    } else if c == '\n' {
        seq!['\\', 'n']
    } else if c == '\r' {
        seq!['\\', 'r']
    } else if c == '\t' {
        seq!['\\', 't']
    } else if (c as u32) < 32 {
        seq!['\\', 'u', '0', '0'] + seq![
            crate::torrent::spec_hex_digit(c as u32 as int / 16),
            crate::torrent::spec_hex_digit(c as u32 as int % 16),
        ]
    } else {
        seq![c]
    }
}

/// A string's characters, escaped for JSON.
pub open spec fn spec_json_escaped(s: Seq<char>) -> Seq<char>
    decreases s.len(),
{
    if s.len() == 0 {
        Seq::empty()
    } else {
        spec_json_escape_char(s[0]) + spec_json_escaped(s.drop_first())
    }
}

/// A JSON string literal: the escaped characters between quotes.
pub open spec fn spec_json_string(s: Seq<char>) -> Seq<char> {
    seq!['"'] + spec_json_escaped(s) + seq!['"']
}

/// The JSON array body of the labels of `chain[..n]`, comma separated.
pub open spec fn spec_labels_body(chain: Seq<RssFilter>, n: int) -> Seq<char>
    decreases n,
{
    if n <= 0 {
        Seq::empty()
    } else if n == 1 {
        spec_json_string(spec_filter_label(chain[0]))
    } else {
        spec_labels_body(chain, n - 1) + seq![','] + spec_json_string(
            spec_filter_label(chain[n - 1]),
        )
    }
}

/// The JSON encoding of a filter chain: an array of label strings.
pub open spec fn spec_encode_filters(chain: Seq<RssFilter>) -> Seq<char> {
    seq!['['] + spec_labels_body(chain, chain.len() as int) + seq![']']
}

/// Escape one string into `out`.
fn push_json_escaped(out: &mut Vec<char>, s: &Vec<char>)
    ensures
        final(out)@ == old(out)@ + spec_json_escaped(s@),
{
    let mut j: usize = 0;
    proof {
        assert(s@.skip(0) == s@);
    }
    while j < s.len()
        invariant
            j <= s@.len(),
            out@ + spec_json_escaped(s@.skip(j as int)) == old(out)@ + spec_json_escaped(s@),
        decreases s@.len() - j,
    {
        let ghost rest = s@.skip(j as int);
        let ghost out_before = out@;
        proof {
            assert(rest[0] == s@[j as int]);
            assert(rest.drop_first() =~= s@.skip(j + 1 as int));
        }
        let c = s[j];
        if c == '"' {
            out.push('\\');
            out.push('"');
        } else if c == '\\' {
            out.push('\\');
            out.push('\\');
        } else if c == '\u{8}' {
            out.push('\\');
            out.push('b');
        } else if c == '\u{c}' {
            out.push('\\');
            out.push('f');
        } else if c == '\n' {
            out.push('\\');
            out.push('n');
        } else if c == '\r' {
            out.push('\\');
            out.push('r');
        } else if c == '\t' {
            out.push('\\');
            out.push('t');
        } else if (c as u32) < 32 {
            out.push('\\');
            out.push('u');
            out.push('0');
            out.push('0');
            out.push(hex_digit_char((c as u32 / 16) as u8));
            out.push(hex_digit_char((c as u32 % 16) as u8));
        } else {
            out.push(c);
        }
        proof {
            assert(out@ =~= out_before + spec_json_escape_char(c));
        }
        j = j + 1;
    }
    proof {
        assert(spec_json_escaped(s@.skip(s@.len() as int)) =~= Seq::<char>::empty());
    }
}

/// The lowercase hex character for `d`.
fn hex_digit_char(d: u8) -> (r: char)
    requires
        d < 16,
    ensures
        r == crate::torrent::spec_hex_digit(d as int),
{
    match d {
        0 => '0',
        1 => '1',
        2 => '2',
        3 => '3',
        4 => '4',
        5 => '5',
        6 => '6',
        7 => '7',
        8 => '8',
        9 => '9',
        10 => 'a',
        11 => 'b',
        12 => 'c',
        13 => 'd',
        14 => 'e',
        _ => 'f',
    }
}

impl RssFilter {
    /// The label this filter is stored under.
    pub fn to_label(&self) -> (r: String)
        ensures
            r@ == spec_filter_label(*self),
    {
        match self {
            RssFilter::FilenameRegex(p) => {
                let mut out = crate::text::chars_vec("FilenameRegex-");
                proof {
                    reveal_strlit("FilenameRegex-");
                    assert("FilenameRegex-"@ =~= spec_label_prefix());
                }
                crate::text::append_str(&mut out, p.as_str());
                crate::text::string_from_chars(&out)
            },
        }
    }

    /// The filter a stored label denotes: the label must carry the prefix,
    /// and the rest is the pattern.
    pub fn from_label(label: &str) -> (r: Option<RssFilter>)
        ensures
            match r {
                Some(f) => f is FilenameRegex && label@ == spec_filter_label(f),
                None => !spec_starts_with(label@, spec_label_prefix()),
            },
    {
        let v = crate::text::chars_vec(label);
        let prefix = crate::text::chars_vec("FilenameRegex-");
        proof {
            reveal_strlit("FilenameRegex-");
            assert("FilenameRegex-"@ =~= spec_label_prefix());
        }
        if crate::text::has_prefix(&v, &prefix) {
            let rest = crate::text::subrange_chars(&v, prefix.len(), v.len());
            let f = RssFilter::FilenameRegex(crate::text::string_from_chars(&rest));
            proof {
                assert(label@ =~= spec_label_prefix() + rest@);
            }
            Some(f)
        } else {
            None
        }
    }
}

impl RssFilterChain {
    /// The JSON text this chain is stored as: an array of filter labels.
    pub fn encode(&self) -> (r: String)
        ensures
            r@ == spec_encode_filters(self.0@),
    {
        let mut out: Vec<char> = Vec::new();
        out.push('[');
        let mut j: usize = 0;
        #[verifier::loop_isolation(false)]
        while j < self.0.len()
            invariant
                j <= self.0@.len(),
                out@ == seq!['['] + spec_labels_body(self.0@, j as int),
            decreases self.0@.len() - j,
        {
            if j > 0 {
                out.push(',');
            }
            let label = self.0[j].to_label();
            out.push('"');
            let lv = crate::text::chars_vec(label.as_str());
            push_json_escaped(&mut out, &lv);
            out.push('"');
            proof {
                assert(out@ =~= seq!['['] + spec_labels_body(self.0@, j + 1 as int));
            }
            j = j + 1;
        }
        out.push(']');
        crate::text::string_from_chars(&out)
    }
}

/// A lowercase hex digit.
pub open spec fn spec_is_hex(c: char) -> bool {
    crate::text::is_digit_char(c) || ('a' <= c && c <= 'f')
}

/// Value of a lowercase hex digit.
pub open spec fn spec_hex_val(c: char) -> int {
    if crate::text::is_digit_char(c) {
        c as int - 48
    } else {
        c as int - 87
    }
}

/// The character a two-character escape denotes, if it is one.
pub open spec fn spec_unescape_short(c: char) -> Option<char> {
    if c == '"' {
        Some('"')
    } else if c == '\\' {
        Some('\\')
    } else if c == 'b' {
        Some('\u{8}')
    } else if c == 'f' {
        Some('\u{c}')
    } else if c == 'n' {
        Some('\n')
    } else if c == 'r' {
        Some('\r')
    } else if c == 't' {
        Some('\t')
    } else {
        None
    }
}

/// Content of a JSON string read from `i` — just after its opening quote —
/// up to and including its closing quote, accepting exactly the escapes the
/// encoder writes.
pub open spec fn spec_json_unstring(s: Seq<char>, i: int) -> Option<(Seq<char>, int)>
    decreases s.len() - i,
{
    if !(0 <= i && i < s.len()) {
        None
    } else if s[i] == '"' {
        Some((Seq::empty(), i + 1))
    } else if s[i] == '\\' {
        if i + 1 >= s.len() {
            None
        } else {
            let e = s[i + 1];
            if e == 'u' {
                if i + 5 < s.len() && s[i + 2] == '0' && s[i + 3] == '0' && spec_is_hex(s[i + 4])
                    && spec_is_hex(s[i + 5]) && spec_hex_val(s[i + 4]) * 16 + spec_hex_val(
                    s[i + 5],
                ) < 32 {
                    match spec_json_unstring(s, i + 6) {
                        Some((rest, end)) => Some(
                            (
                                seq![
                                    ((spec_hex_val(s[i + 4]) * 16 + spec_hex_val(
                                        s[i + 5],
                                    )) as u8) as char,
                                ] + rest,
                                end,
                            ),
                        ),
                        None => None,
                    }
                } else {
                    None
                }
            } else {
                match spec_unescape_short(e) {
                    Some(m) => match spec_json_unstring(s, i + 2) {
                        Some((rest, end)) => Some((seq![m] + rest, end)),
                        None => None,
                    },
                    None => None,
                }
            }
        }
    } else if (s[i] as u32) >= 32 {
        match spec_json_unstring(s, i + 1) {
            Some((rest, end)) => Some((seq![s[i]] + rest, end)),
            None => None,
        }
    } else {
        None
    }
}

/// The strings of a JSON array read from `i` — at an element's opening
/// quote — up to and including the closing bracket.
pub open spec fn spec_json_strings(s: Seq<char>, i: int) -> Option<(Seq<Seq<char>>, int)>
    decreases s.len() - i,
{
    if !(0 <= i && i < s.len() && s[i] == '"') {
        None
    } else {
        match spec_json_unstring(s, i + 1) {
            Some((str1, j)) => if i + 1 <= j <= s.len() {
                if j < s.len() && s[j] == ',' {
                    match spec_json_strings(s, j + 1) {
                        Some((rest, end)) => Some((seq![str1] + rest, end)),
                        None => None,
                    }
                } else if j < s.len() && s[j] == ']' {
                    Some((seq![str1], j + 1))
                } else {
                    None
                }
            } else {
                None
            },
            None => None,
        }
    }
}

/// The strings a stored JSON array denotes, when the text is exactly one
/// array of strings.
pub open spec fn spec_decode_strings(s: Seq<char>) -> Option<Seq<Seq<char>>> {
    if s.len() >= 2 && s[0] == '[' {
        if s.len() == 2 && s[1] == ']' {
            Some(Seq::empty())
        } else {
            match spec_json_strings(s, 1) {
                Some((items, end)) => if end == s.len() {
                    Some(items)
                } else {
                    None
                },
                None => None,
            }
        }
    } else {
        None
    }
}

/// The filter patterns of the labels at and after `i`: every label must
/// carry the filter prefix.
pub open spec fn spec_patterns_of(strs: Seq<Seq<char>>, i: int) -> Option<Seq<Seq<char>>>
    decreases strs.len() - i,
{
    if i < 0 {
        spec_patterns_of(strs, 0)
    } else if i >= strs.len() {
        Some(Seq::empty())
    } else if spec_starts_with(strs[i], spec_label_prefix()) {
        match spec_patterns_of(strs, i + 1) {
            Some(rest) => Some(
                seq![strs[i].subrange(spec_label_prefix().len() as int, strs[i].len() as int)]
                    + rest,
            ),
            None => None,
        }
    } else {
        None
    }
}

/// The filter patterns a stored JSON text denotes.
pub open spec fn spec_decode_filters(s: Seq<char>) -> Option<Seq<Seq<char>>> {
    match spec_decode_strings(s) {
        Some(strs) => spec_patterns_of(strs, 0),
        None => None,
    }
}

/// The patterns of a chain.
pub open spec fn spec_chain_patterns(chain: Seq<RssFilter>) -> Seq<Seq<char>> {
    chain.map(
        |i: int, f: RssFilter|
            match f {
                RssFilter::FilenameRegex(p) => p@,
            },
    )
}

fn hex_char(c: char) -> (r: bool)
    ensures
        r == spec_is_hex(c),
{
    crate::text::digit_char(c) || ('a' <= c && c <= 'f')
}

fn hex_val(c: char) -> (r: u32)
    requires
        spec_is_hex(c),
    ensures
        r as int == spec_hex_val(c),
{
    if crate::text::digit_char(c) {
        (c as u32) - 48
    } else {
        (c as u32) - 87
    }
}

/// Read a JSON string's content from `i`, just after its opening quote.
fn json_unstring(s: &Vec<char>, i: usize) -> (r: Option<(Vec<char>, usize)>)
    requires
        i <= s@.len(),
    ensures
        match r {
            Some(p) => spec_json_unstring(s@, i as int) == Some((p.0@, p.1 as int)) && i < p.1
                <= s@.len(),
            None => spec_json_unstring(s@, i as int) is None,
        },
{
    let mut acc: Vec<char> = Vec::new();
    let mut cur: usize = i;
    proof {
        lemma_unstring_bounds(s@, i as int);
        if spec_json_unstring(s@, i as int) is Some {
            let (rest, end) = spec_json_unstring(s@, i as int)->Some_0;
            assert(acc@ + rest =~= rest);
        }
    }
    loop
        invariant
            i <= cur <= s@.len(),
            ({
                let full = spec_json_unstring(s@, i as int);
                match spec_json_unstring(s@, cur as int) {
                    Some((rest, end)) => full == Some((acc@ + rest, end)),
                    None => full is None,
                }
            }),
        decreases s@.len() - cur,
    {
        proof {
            lemma_unstring_bounds(s@, cur as int);
        }
        if cur >= s.len() {
            return None;
        }
        let c = s[cur];
        if c == '"' {
            proof {
                assert(acc@ + Seq::<char>::empty() =~= acc@);
            }
            return Some((acc, cur + 1));
        }
        if c == '\\' {
            if cur + 1 >= s.len() {
                return None;
            }
            let e = s[cur + 1];
            if e == 'u' {
                if s.len() - cur > 5 && s[cur + 2] == '0' && s[cur + 3] == '0' && hex_char(
                    s[cur + 4],
                ) && hex_char(s[cur + 5]) {
                    let hv = hex_val(s[cur + 4]) * 16 + hex_val(s[cur + 5]);
                    if hv < 32 {
                        let ghost acc0 = acc@;
                        acc.push((hv as u8) as char);
                        proof {
                            lemma_unstring_step(s@, cur as int, acc0, acc@.last());
                        }
                        cur = cur + 6;
                    } else {
                        return None;
                    }
                } else {
                    return None;
                }
            } else {
                let m: char = if e == '"' {
                    '"'
                } else if e == '\\' {
                    '\\'
                } else if e == 'b' {
                    '\u{8}'
                } else if e == 'f' {
                    '\u{c}'
                } else if e == 'n' {
                    '\n'
                } else if e == 'r' {
                    '\r'
                } else if e == 't' {
                    '\t'
                } else {
                    return None;
                };
                let ghost acc0 = acc@;
                acc.push(m);
                proof {
                    lemma_unstring_step(s@, cur as int, acc0, m);
                }
                cur = cur + 2;
            }
        } else if (c as u32) >= 32 {
            let ghost acc0 = acc@;
            acc.push(c);
            proof {
                lemma_unstring_step(s@, cur as int, acc0, c);
            }
            cur = cur + 1;
        } else {
            return None;
        }
    }
}

/// A successful string read ends after where it began, within the text.
proof fn lemma_unstring_bounds(s: Seq<char>, i: int)
    ensures
        spec_json_unstring(s, i) is Some ==> ({
            let (rest, end) = spec_json_unstring(s, i)->Some_0;
            i < end <= s.len()
        }),
    decreases s.len() - i,
{
    if 0 <= i && i < s.len() {
        if s[i] == '"' {
        } else if s[i] == '\\' {
            if i + 1 < s.len() {
                if s[i + 1] == 'u' {
                    if i + 5 < s.len() {
                        lemma_unstring_bounds(s, i + 6);
                    }
                } else {
                    lemma_unstring_bounds(s, i + 2);
                }
            }
        } else {
            lemma_unstring_bounds(s, i + 1);
        }
    }
}

/// One step of reading a string: the first decoded character is peeled off.
proof fn lemma_unstring_step(s: Seq<char>, cur: int, acc0: Seq<char>, c: char)
    ensures
        forall|rest: Seq<char>| #[trigger] (acc0 + (seq![c] + rest)) =~= acc0.push(c) + rest,
{
    assert forall|rest: Seq<char>| #[trigger] (acc0 + (seq![c] + rest)) =~= acc0.push(c)
        + rest by {
        assert((acc0 + (seq![c] + rest)).len() == (acc0.push(c) + rest).len());
    }
}

/// Decode a stored filter-chain JSON text: exactly one array of filter
/// labels, each carrying the filter prefix.
pub fn decode_filters(text: &str) -> (r: Option<RssFilterChain>)
    ensures
        match r {
            Some(ch) => spec_decode_filters(text@) == Some(spec_chain_patterns(ch.0@)),
            None => spec_decode_filters(text@) is None,
        },
{
    let v = crate::text::chars_vec(text);
    let n = v.len();
    if n < 2 {
        return None;
    }
    if v[0] != '[' {
        return None;
    }
    if n == 2 && v[1] == ']' {
        let ch = RssFilterChain(Vec::new());
        proof {
            assert(spec_chain_patterns(ch.0@) =~= Seq::<Seq<char>>::empty());
        }
        return Some(ch);
    }
    let mut strs: Vec<Vec<char>> = Vec::new();
    let mut cur: usize = 1;
    let ghost sv = v@;
    proof {
        assert(crate::mikan::spec_views(strs@) =~= Seq::<Seq<char>>::empty());
        if spec_json_strings(sv, 1) is Some {
            let (items, end) = spec_json_strings(sv, 1)->Some_0;
            assert(crate::mikan::spec_views(strs@) + items =~= items);
        }
    }
    let mut done: bool = false;
    #[verifier::loop_isolation(false)]
    loop
        invariant
            1 <= cur <= sv.len(),
            sv == v@,
            n == sv.len(),
            ({
                let full = spec_json_strings(sv, 1);
                match spec_json_strings(sv, cur as int) {
                    Some((rest, end)) => full == Some(
                        (crate::mikan::spec_views(strs@) + rest, end),
                    ),
                    None => full is None,
                }
            }),
        decreases sv.len() - cur,
    {
        if cur >= n {
            return None;
        }
        if v[cur] != '"' {
            return None;
        }
        match json_unstring(&v, cur + 1) {
            None => {
                return None;
            },
            Some((content, j)) => {
                let ghost strs0 = strs@;
                let ghost cv = content@;
                strs.push(content);
                proof {
                    assert(crate::mikan::spec_views(strs@) =~= crate::mikan::spec_views(
                        strs0,
                    ).push(cv));
                    if spec_json_strings(sv, j as int + 1) is Some {
                        let (rest, end) = spec_json_strings(sv, j as int + 1)->Some_0;
                        assert(crate::mikan::spec_views(strs0) + (seq![cv] + rest)
                            =~= crate::mikan::spec_views(strs0).push(cv) + rest);
                    }
                    assert(seq![cv] =~= Seq::<Seq<char>>::empty().push(cv));
                    assert(crate::mikan::spec_views(strs0) + seq![cv]
                        =~= crate::mikan::spec_views(strs0).push(cv));
                }
                if j < n && v[j] == ',' {
                    cur = j + 1;
                } else if j < n && v[j] == ']' {
                    if j + 1 == n {
                        done = true;
                        break;
                    } else {
                        return None;
                    }
                } else {
                    return None;
                }
            },
        }
    }
    if !done {
        return None;
    }
    proof {
        assert(spec_decode_strings(sv) == Some(crate::mikan::spec_views(strs@)));
    }
    let mut filters: Vec<RssFilter> = Vec::new();
    let mut k: usize = 0;
    let ghost all = crate::mikan::spec_views(strs@);
    proof {
        if spec_patterns_of(all, 0) is Some {
        }
        assert(spec_chain_patterns(filters@) =~= Seq::<Seq<char>>::empty());
    }
    #[verifier::loop_isolation(false)]
    while k < strs.len()
        invariant
            k <= strs@.len(),
            all == crate::mikan::spec_views(strs@),
            ({
                let full = spec_patterns_of(all, 0);
                match spec_patterns_of(all, k as int) {
                    Some(rest) => full == Some(spec_chain_patterns(filters@) + rest),
                    None => full is None,
                }
            }),
        decreases strs@.len() - k,
    {
        let label = crate::text::string_from_chars(&strs[k]);
        match RssFilter::from_label(label.as_str()) {
            Some(f) => {
                let ghost f0 = filters@;
                let ghost pv = match &f {
                    RssFilter::FilenameRegex(p) => p@,
                };
                proof {
                    assert(all[k as int] == strs@[k as int]@);
                    assert(all[k as int] == spec_label_prefix() + pv);
                    assert((spec_label_prefix() + pv).subrange(
                        0,
                        spec_label_prefix().len() as int,
                    ) =~= spec_label_prefix());
                    assert(spec_starts_with(all[k as int], spec_label_prefix()));
                    assert(all[k as int].subrange(
                        spec_label_prefix().len() as int,
                        all[k as int].len() as int,
                    ) =~= pv);
                }
                filters.push(f);
                proof {
                    assert(spec_chain_patterns(filters@) =~= spec_chain_patterns(f0).push(pv));
                    if spec_patterns_of(all, k as int + 1) is Some {
                        let rest = spec_patterns_of(all, k as int + 1)->Some_0;
                        assert(spec_chain_patterns(f0) + (seq![pv] + rest) =~= spec_chain_patterns(
                            f0,
                        ).push(pv) + rest);
                    }
                }
            },
            None => {
                proof {
                    assert(all[k as int] == strs@[k as int]@);
                    assert(spec_patterns_of(all, k as int) is None);
                }
                return None;
            },
        }
        k = k + 1;
    }
    proof {
        if spec_patterns_of(all, strs@.len() as int) is Some {
            assert(spec_chain_patterns(filters@) + Seq::<Seq<char>>::empty() =~= spec_chain_patterns(
                filters@,
            ));
        }
    }
    Some(RssFilterChain(filters))
}

/// Hex digits read back as their value.
proof fn lemma_hex_digit_val(d: int)
    requires
        0 <= d < 16,
    ensures
        spec_is_hex(crate::torrent::spec_hex_digit(d)),
        spec_hex_val(crate::torrent::spec_hex_digit(d)) == d,
{
}

/// Escaping never produces an empty sequence for a character.
proof fn lemma_escape_char_len(c: char)
    ensures
        1 <= spec_json_escape_char(c).len() <= 6,
{
}

/// A control character survives its trip through the `\u00..` escape.
proof fn lemma_low_char_cast(c: char)
    requires
        (c as u32) < 32,
    ensures
        ((c as u32) as u8) as char == c,
{
    assert(((c as u32) as u8) as u32 == c as u32);
}

/// Reading an escaped string back: decoding `spec_json_escaped(p)` followed
/// by a closing quote recovers exactly `p`.
proof fn lemma_unstring_escape(s: Seq<char>, p: Seq<char>, i: int)
    requires
        0 <= i,
        i + spec_json_escaped(p).len() < s.len(),
        s.subrange(i, i + spec_json_escaped(p).len()) == spec_json_escaped(p),
        s[i + spec_json_escaped(p).len()] == '"',
    ensures
        spec_json_unstring(s, i) == Some((p, i + spec_json_escaped(p).len() + 1)),
    decreases p.len(),
{
    let esc = spec_json_escaped(p);
    if p.len() == 0 {
        assert(s[i] == '"');
        assert(p =~= Seq::<char>::empty());
    } else {
        let c = p[0];
        let e0 = spec_json_escape_char(c);
        let rest = p.drop_first();
        let resc = spec_json_escaped(rest);
        assert(esc == e0 + resc);
        lemma_escape_char_len(c);
        assert forall|k: int| 0 <= k < esc.len() implies s[i + k] == esc[k] by {
            assert(s.subrange(i, i + esc.len())[k] == s[i + k]);
        }
        let j = i + e0.len();
        assert forall|k: int| 0 <= k < resc.len() implies s.subrange(j, j + resc.len())[k]
            == resc[k] by {
            assert(s.subrange(j, j + resc.len())[k] == s[j + k]);
            assert(esc[e0.len() + k] == resc[k]);
        }
        assert(s.subrange(j, j + resc.len()) =~= resc);
        lemma_unstring_escape(s, rest, j);
        assert(p =~= seq![c] + rest);
        assert forall|k: int| 0 <= k < e0.len() implies s[i + k] == e0[k] by {
            assert(s[i + k] == esc[k]);
            assert(esc[k] == e0[k]);
        }
        if c == '"' || c == '\\' || c == '\u{8}' || c == '\u{c}' || c == '\n' || c == '\r' || c
            == '\t' {
            assert(s[i] == e0[0]);
            assert(s[i + 1] == e0[1]);
            assert(s[i] == '\\');
            assert(spec_unescape_short(s[i + 1]) == Some(c));
        } else if (c as u32) < 32 {
            assert(s[i] == e0[0] && s[i + 1] == e0[1] && s[i + 2] == e0[2] && s[i + 3] == e0[3]
                && s[i + 4] == e0[4] && s[i + 5] == e0[5]);
            assert(s[i] == '\\' && s[i + 1] == 'u' && s[i + 2] == '0' && s[i + 3] == '0');
            lemma_hex_digit_val(c as u32 as int / 16);
            lemma_hex_digit_val(c as u32 as int % 16);
            assert(spec_hex_val(s[i + 4]) * 16 + spec_hex_val(s[i + 5]) == c as u32);
            lemma_low_char_cast(c);
        } else {
            assert(s[i] == e0[0]);
            assert(s[i] == c);
            assert(s[i] != '"' && s[i] != '\\' && (s[i] as u32) >= 32);
        }
    }
}

/// Decoding an encoded JSON string recovers the string: the escaped form of
/// `p`, a closing quote, and anything after read back as exactly `p`.
pub proof fn lemma_json_string_round_trip(p: Seq<char>, t: Seq<char>)
    ensures
        spec_json_unstring(spec_json_escaped(p) + seq!['"'] + t, 0) == Some(
            (p, spec_json_escaped(p).len() as int + 1),
        ),
{
    let s = spec_json_escaped(p) + seq!['"'] + t;
    assert(s.subrange(0, spec_json_escaped(p).len() as int) =~= spec_json_escaped(p));
    assert(s[spec_json_escaped(p).len() as int] == '"');
    lemma_unstring_escape(s, p, 0);
}

/// The labels of `chain[k..n]`, comma separated, without the brackets.
pub open spec fn spec_labels_mid(chain: Seq<RssFilter>, k: int, n: int) -> Seq<char>
    decreases n - k,
{
    if k < 0 || k >= n {
        Seq::empty()
    } else if k == n - 1 {
        spec_json_string(spec_filter_label(chain[k]))
    } else {
        spec_json_string(spec_filter_label(chain[k])) + seq![','] + spec_labels_mid(
            chain,
            k + 1,
            n,
        )
    }
}

/// The labels of `chain[k..n]`, each as a character sequence.
pub open spec fn spec_labels_from(chain: Seq<RssFilter>, k: int, n: int) -> Seq<Seq<char>>
    decreases n - k,
{
    if k < 0 || k >= n {
        Seq::empty()
    } else {
        seq![spec_filter_label(chain[k])] + spec_labels_from(chain, k + 1, n)
    }
}

/// Appending one more label to a comma-joined run.
proof fn lemma_mid_snoc(chain: Seq<RssFilter>, k: int, n: int)
    requires
        0 <= k < n < chain.len() || (0 <= k < n && n < chain.len() + 1),
        n <= chain.len(),
    ensures
        n < chain.len() ==> spec_labels_mid(chain, k, n + 1) == spec_labels_mid(chain, k, n)
            + seq![','] + spec_json_string(spec_filter_label(chain[n])),
    decreases n - k,
{
    if n < chain.len() {
        if k == n - 1 {
            assert(spec_labels_mid(chain, k + 1, n + 1) == spec_json_string(
                spec_filter_label(chain[n]),
            ));
            assert(spec_labels_mid(chain, k, n) == spec_json_string(spec_filter_label(chain[k])));
            assert(spec_labels_mid(chain, k, n + 1) =~= spec_labels_mid(chain, k, n) + seq![',']
                + spec_json_string(spec_filter_label(chain[n])));
        } else {
            lemma_mid_snoc(chain, k + 1, n);
            let jsk = spec_json_string(spec_filter_label(chain[k]));
            let jsn = spec_json_string(spec_filter_label(chain[n]));
            assert(spec_labels_mid(chain, k, n + 1) == jsk + seq![','] + spec_labels_mid(
                chain,
                k + 1,
                n + 1,
            ));
            assert(spec_labels_mid(chain, k + 1, n + 1) == spec_labels_mid(chain, k + 1, n)
                + seq![','] + jsn);
            assert(spec_labels_mid(chain, k, n) == jsk + seq![','] + spec_labels_mid(
                chain,
                k + 1,
                n,
            ));
            assert(jsk + seq![','] + (spec_labels_mid(chain, k + 1, n) + seq![','] + jsn) =~= (jsk
                + seq![','] + spec_labels_mid(chain, k + 1, n)) + seq![','] + jsn);
        }
    }
}

/// The array body built label by label equals the comma-joined run.
proof fn lemma_body_is_mid(chain: Seq<RssFilter>, n: int)
    requires
        1 <= n <= chain.len(),
    ensures
        spec_labels_body(chain, n) == spec_labels_mid(chain, 0, n),
    decreases n,
{
    if n > 1 {
        lemma_body_is_mid(chain, n - 1);
        lemma_mid_snoc(chain, 0, n - 1);
    }
}

/// Parsing a comma-joined run of labels followed by the closing bracket
/// yields exactly those labels.
proof fn lemma_parse_mid(chain: Seq<RssFilter>, k: int, n: int, s: Seq<char>, pos: int)
    requires
        0 <= k < n <= chain.len(),
        0 <= pos,
        pos + spec_labels_mid(chain, k, n).len() + 1 == s.len(),
        s.subrange(pos, s.len() as int) == spec_labels_mid(chain, k, n) + seq![']'],
    ensures
        spec_json_strings(s, pos) == Some((spec_labels_from(chain, k, n), s.len() as int)),
    decreases n - k,
{
    let label = spec_filter_label(chain[k]);
    let js = spec_json_string(label);
    let esc = spec_json_escaped(label);
    let whole = s.subrange(pos, s.len() as int);
    assert forall|x: int| 0 <= x < s.len() - pos implies s[pos + x] == whole[x] by {
        assert(whole[x] == s[pos + x]);
    }
    let mid = spec_labels_mid(chain, k, n);
    assert(js == seq!['"'] + esc + seq!['"']);
    assert(s[pos] == whole[0]);
    assert(whole[0] == mid[0]);
    assert(mid[0] == js[0]);
    assert(s[pos] == '"');
    assert forall|x: int| 0 <= x < esc.len() implies s.subrange(
        pos + 1,
        pos + 1 + esc.len(),
    )[x] == esc[x] by {
        assert(s.subrange(pos + 1, pos + 1 + esc.len())[x] == s[pos + 1 + x]);
        assert(whole[1 + x] == js[1 + x]);
        assert(js[1 + x] == esc[x]);
    }
    assert(s.subrange(pos + 1, pos + 1 + esc.len()) =~= esc);
    assert(s[pos + 1 + esc.len()] == whole[js.len() - 1]);
    assert(whole[js.len() - 1] == mid[js.len() - 1]);
    assert(mid[js.len() - 1] == js[js.len() - 1]);
    assert(js[js.len() - 1] == '"');
    lemma_unstring_escape(s, label, pos + 1);
    let after = pos + 1 + esc.len() + 1;
    assert(after == pos + js.len());
    if k == n - 1 {
        assert(s[after] == whole[js.len() as int]);
        assert(whole[js.len() as int] == ']');
        assert(after + 1 == s.len());
        assert(spec_labels_from(chain, k, n) =~= seq![label]);
    } else {
        assert(s[after] == whole[js.len() as int]);
        assert(whole[js.len() as int] == mid[js.len() as int]);
        assert(mid[js.len() as int] == ',');
        assert(s[after] == ',');
        let mid2 = spec_labels_mid(chain, k + 1, n);
        assert forall|x: int| 0 <= x < s.len() - after - 1 implies s.subrange(
            after + 1,
            s.len() as int,
        )[x] == (mid2 + seq![']'])[x] by {
            assert(s.subrange(after + 1, s.len() as int)[x] == s[after + 1 + x]);
            assert(whole[after + 1 + x - pos] == (spec_labels_mid(chain, k, n) + seq![']'])[
                after + 1 + x - pos]);
        }
        assert(s.subrange(after + 1, s.len() as int) =~= mid2 + seq![']']);
        lemma_parse_mid(chain, k + 1, n, s, after + 1);
        assert(spec_labels_from(chain, k, n) == seq![label] + spec_labels_from(chain, k + 1, n));
    }
}

/// Every label in the window is the label of its filter.
proof fn lemma_labels_from_index(chain: Seq<RssFilter>, k: int, n: int)
    requires
        0 <= k <= n <= chain.len(),
    ensures
        spec_labels_from(chain, k, n).len() == n - k,
        forall|x: int|
            0 <= x < n - k ==> spec_labels_from(chain, k, n)[x] == spec_filter_label(chain[k + x]),
    decreases n - k,
{
    if k < n {
        lemma_labels_from_index(chain, k + 1, n);
        assert forall|x: int| 0 <= x < n - k implies spec_labels_from(chain, k, n)[x]
            == spec_filter_label(chain[k + x]) by {
            if x > 0 {
                assert(spec_labels_from(chain, k, n)[x] == spec_labels_from(chain, k + 1, n)[x
                    - 1]);
            }
        }
    }
}

/// Reading patterns back out of a window of labels.
proof fn lemma_patterns_of_labels(chain: Seq<RssFilter>, labels: Seq<Seq<char>>, i: int)
    requires
        labels.len() == chain.len(),
        forall|x: int| 0 <= x < labels.len() ==> labels[x] == spec_filter_label(chain[x]),
        0 <= i <= labels.len(),
    ensures
        spec_patterns_of(labels, i) == Some(
            spec_chain_patterns(chain).subrange(i, chain.len() as int),
        ),
    decreases labels.len() - i,
{
    let pats = spec_chain_patterns(chain);
    if i == labels.len() {
        assert(pats.subrange(i, chain.len() as int) =~= Seq::<Seq<char>>::empty());
    } else {
        lemma_patterns_of_labels(chain, labels, i + 1);
        let label = labels[i];
        let p = match chain[i] {
            RssFilter::FilenameRegex(p) => p@,
        };
        assert(label == spec_label_prefix() + p);
        assert((spec_label_prefix() + p).subrange(0, spec_label_prefix().len() as int)
            =~= spec_label_prefix());
        assert(spec_starts_with(label, spec_label_prefix()));
        assert(label.subrange(spec_label_prefix().len() as int, label.len() as int) =~= p);
        assert(pats[i] == p);
        assert(seq![p] + pats.subrange(i + 1, chain.len() as int) =~= pats.subrange(
            i,
            chain.len() as int,
        ));
    }
}

/// Decoding an encoded filter chain recovers every pattern verbatim: the
/// stored JSON round-trips.
pub proof fn lemma_filters_round_trip(chain: Seq<RssFilter>)
    ensures
        spec_decode_filters(spec_encode_filters(chain)) == Some(spec_chain_patterns(chain)),
{
    let s = spec_encode_filters(chain);
    let n = chain.len() as int;
    if n == 0 {
        assert(spec_labels_body(chain, 0) =~= Seq::<char>::empty());
        assert(s =~= seq!['[', ']']);
        assert(spec_decode_strings(s) == Some(Seq::<Seq<char>>::empty()));
        assert(spec_chain_patterns(chain) =~= Seq::<Seq<char>>::empty());
    } else {
        lemma_body_is_mid(chain, n);
        let mid = spec_labels_mid(chain, 0, n);
        assert(s == seq!['['] + mid + seq![']']);
        assert(mid.len() >= 2) by {
            if n == 1 {
            }
        }
        assert(s[0] == '[');
        assert forall|x: int| 0 <= x < s.len() - 1 implies s.subrange(1, s.len() as int)[x] == (mid
            + seq![']'])[x] by {
            assert(s.subrange(1, s.len() as int)[x] == s[1 + x]);
        }
        assert(s.subrange(1, s.len() as int) =~= mid + seq![']']);
        lemma_parse_mid(chain, 0, n, s, 1);
        assert(!(s.len() == 2 && s[1] == ']'));
        let labels = spec_labels_from(chain, 0, n);
        lemma_labels_from_index(chain, 0, n);
        lemma_patterns_of_labels(chain, labels, 0);
        assert(spec_chain_patterns(chain).subrange(0, n) =~= spec_chain_patterns(chain));
    }
}

} // verus!
