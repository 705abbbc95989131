//! Bencode: the encoding of `.torrent` files. The parser accepts canonical
//! numbers only — no leading zeros, no negative zero — and the central law
//! holds: re-encoding whatever was parsed reproduces the consumed bytes.
use vstd::prelude::*;

verus! {

/// A bencode value. Dictionary entries keep their source order.
#[derive(Debug)]
pub enum BencodeValue {
    Int(i64),
    Bytes(Vec<u8>),
    List(Vec<BencodeValue>),
    Dict(Vec<(Vec<u8>, BencodeValue)>),
}

/// A bencode value, at the specification level.
pub enum BValue {
    Int(int),
    Bytes(Seq<u8>),
    List(Seq<BValue>),
    Dict(Seq<(Seq<u8>, BValue)>),
}

/// The content of a parsed value.
pub open spec fn view_value(v: BencodeValue) -> BValue
    decreases v, 0int,
{
    match v {
        BencodeValue::Int(i) => BValue::Int(i as int),
        BencodeValue::Bytes(b) => BValue::Bytes(b@),
        BencodeValue::List(l) => BValue::List(view_items(l@, 0)),
        BencodeValue::Dict(d) => BValue::Dict(view_pairs(d@, 0)),
    }
}

pub open spec fn view_items(items: Seq<BencodeValue>, i: int) -> Seq<BValue>
    decreases items, items.len() - i, 1int,
{
    if 0 <= i < items.len() {
        seq![view_value(items[i])] + view_items(items, i + 1)
    } else {
        Seq::empty()
    }
}

pub open spec fn view_pairs(pairs: Seq<(Vec<u8>, BencodeValue)>, i: int) -> Seq<(Seq<u8>, BValue)>
    decreases pairs, pairs.len() - i, 1int,
{
    if 0 <= i < pairs.len() {
        seq![(pairs[i].0@, view_value(pairs[i].1))] + view_pairs(pairs, i + 1)
    } else {
        Seq::empty()
    }
}

/// The byte for decimal digit `d`.
pub open spec fn spec_digit_b(d: int) -> u8 {
    (48 + d) as u8
}

/// Whether `b` is an ASCII digit byte.
pub open spec fn is_digit_b(b: u8) -> bool {
    48 <= b <= 57
}

/// Decimal digits of `n`, as bytes, without leading zeros.
pub open spec fn spec_dec_bytes(n: int) -> Seq<u8>
    decreases n,
{
    if n < 10 {
        seq![spec_digit_b(if n < 0 { 0 } else { n % 10 })]
    } else {
        spec_dec_bytes(n / 10).push(spec_digit_b(n % 10))
    }
}

/// The bencode integer body: digits, with a sign for negative numbers.
pub open spec fn spec_int_bytes(i: int) -> Seq<u8> {
    if i < 0 {
        seq![45u8] + spec_dec_bytes(-i)
    } else {
        spec_dec_bytes(i)
    }
}

/// The encoding of a byte string: its length, a colon, its bytes.
pub open spec fn spec_encode_bstr(b: Seq<u8>) -> Seq<u8> {
    spec_dec_bytes(b.len() as int) + seq![58u8] + b
}

/// The encoding of a bencode value.
pub open spec fn spec_encode(v: BValue) -> Seq<u8>
    decreases v, 0int,
{
    match v {
        BValue::Int(i) => seq![105u8] + spec_int_bytes(i) + seq![101u8],
        BValue::Bytes(b) => spec_encode_bstr(b),
        BValue::List(l) => seq![108u8] + spec_encode_items(l, 0) + seq![101u8],
        BValue::Dict(d) => seq![100u8] + spec_encode_pairs(d, 0) + seq![101u8],
    }
}

/// The concatenated encodings of the items at and after `i`.
pub open spec fn spec_encode_items(items: Seq<BValue>, i: int) -> Seq<u8>
    decreases items, items.len() - i, 1int,
{
    if 0 <= i < items.len() {
        spec_encode(items[i]) + spec_encode_items(items, i + 1)
    } else {
        Seq::empty()
    }
}

/// The concatenated encodings of the pairs at and after `i`.
pub open spec fn spec_encode_pairs(pairs: Seq<(Seq<u8>, BValue)>, i: int) -> Seq<u8>
    decreases pairs, pairs.len() - i, 1int,
{
    if 0 <= i < pairs.len() {
        spec_encode_bstr(pairs[i].0) + spec_encode(pairs[i].1) + spec_encode_pairs(pairs, i + 1)
    } else {
        Seq::empty()
    }
}

/// Numeric value of a byte digit string.
pub open spec fn spec_digits_val_b(s: Seq<u8>) -> int
    decreases s.len(),
{
    if s.len() == 0 {
        0
    } else {
        spec_digits_val_b(s.drop_last()) * 10 + (s.last() - 48)
    }
}

/// End of the digit run starting at `i`.
pub open spec fn spec_digit_run_b(s: Seq<u8>, i: int) -> int
    decreases s.len() - i,
{
    if i < 0 {
        spec_digit_run_b(s, 0)
    } else if i >= s.len() {
        s.len() as int
    } else if is_digit_b(s[i]) {
        spec_digit_run_b(s, i + 1)
    } else {
        i
    }
}

/// A canonical number body: at least one digit, no leading zero.
pub open spec fn spec_num_canon(ds: Seq<u8>) -> bool {
    &&& ds.len() >= 1
    &&& forall|k: int| 0 <= k < ds.len() ==> is_digit_b(ds[k])
    &&& (ds.len() == 1 || ds[0] != 48)
}

/// What parsing a byte string at `pos` yields: its bytes and the position
/// after them, for a canonical length, a colon, and enough bytes after it.
pub open spec fn spec_parse_bstr(s: Seq<u8>, pos: int) -> Option<(Seq<u8>, int)> {
    let dend = spec_digit_run_b(s, pos);
    if 0 <= pos && pos < dend && dend < s.len() && s[dend] == 58 && spec_num_canon(
        s.subrange(pos, dend),
    ) {
        let n = spec_digits_val_b(s.subrange(pos, dend));
        if dend + 1 + n <= s.len() {
            Some((s.subrange(dend + 1, dend + 1 + n), dend + 1 + n))
        } else {
            None
        }
    } else {
        None
    }
}

/// What parsing an integer `i…e` at `pos` yields; the value must fit a
/// 64-bit signed integer, and `-0` is not a number.
pub open spec fn spec_parse_int(s: Seq<u8>, pos: int) -> Option<(int, int)> {
    if !(0 <= pos && pos < s.len() && s[pos] == 105) {
        None
    } else {
        let neg = pos + 1 < s.len() && s[pos + 1] == 45;
        let dstart = if neg {
            pos + 2
        } else {
            pos + 1
        };
        let dend = spec_digit_run_b(s, dstart);
        if dstart < dend && dend < s.len() && s[dend] == 101 && spec_num_canon(
            s.subrange(dstart, dend),
        ) {
            let n = spec_digits_val_b(s.subrange(dstart, dend));
            if neg {
                if 0 < n <= 0x8000_0000_0000_0000 {
                    Some((-n, dend + 1))
                } else {
                    None
                }
            } else {
                if n <= i64::MAX {
                    Some((n, dend + 1))
                } else {
                    None
                }
            }
        } else {
            None
        }
    }
}

/// What parsing a bencode value at `pos` yields: the value and the position
/// after it, or nothing when no canonical value begins there.
pub open spec fn spec_parse(s: Seq<u8>, pos: int) -> Option<(BValue, int)>
    decreases s.len() - pos, 0int,
{
    if !(0 <= pos && pos < s.len()) {
        None
    } else if s[pos] == 105 {
        match spec_parse_int(s, pos) {
            Some((i, end)) => Some((BValue::Int(i), end)),
            None => None,
        }
    } else if is_digit_b(s[pos]) {
        match spec_parse_bstr(s, pos) {
            Some((b, end)) => Some((BValue::Bytes(b), end)),
            None => None,
        }
    } else if s[pos] == 108 {
        match spec_parse_list(s, pos + 1) {
            Some((items, end)) => Some((BValue::List(items), end)),
            None => None,
        }
    } else if s[pos] == 100 {
        match spec_parse_dict(s, pos + 1) {
            Some((pairs, end)) => Some((BValue::Dict(pairs), end)),
            None => None,
        }
    } else {
        None
    }
}

/// List items from `pos` up to and including the closing `e`.
pub open spec fn spec_parse_list(s: Seq<u8>, pos: int) -> Option<(Seq<BValue>, int)>
    decreases s.len() - pos, 1int,
{
    if !(0 <= pos && pos < s.len()) {
        None
    } else if s[pos] == 101 {
        Some((Seq::empty(), pos + 1))
    } else {
        match spec_parse(s, pos) {
            Some((v, mid)) => if pos < mid <= s.len() {
                match spec_parse_list(s, mid) {
                    Some((rest, end)) => Some((seq![v] + rest, end)),
                    None => None,
                }
            } else {
                None
            },
            None => None,
        }
    }
}

/// Dictionary pairs from `pos` up to and including the closing `e`.
pub open spec fn spec_parse_dict(s: Seq<u8>, pos: int) -> Option<(Seq<(Seq<u8>, BValue)>, int)>
    decreases s.len() - pos, 1int,
{
    if !(0 <= pos && pos < s.len()) {
        None
    } else if s[pos] == 101 {
        Some((Seq::empty(), pos + 1))
    } else {
        match spec_parse_bstr(s, pos) {
            Some((k, mid)) => if pos < mid <= s.len() {
                match spec_parse(s, mid) {
                    Some((v, mid2)) => if mid < mid2 <= s.len() {
                        match spec_parse_dict(s, mid2) {
                            Some((rest, end)) => Some((seq![(k, v)] + rest, end)),
                            None => None,
                        }
                    } else {
                        None
                    },
                    None => None,
                }
            } else {
                None
            },
            None => None,
        }
    }
}

/// Copy of `s[from..to]`.
fn subrange_bytes(s: &Vec<u8>, from: usize, to: usize) -> (r: Vec<u8>)
    requires
        from <= to <= s@.len(),
    ensures
        r@ == s@.subrange(from as int, to as int),
{
    let mut out: Vec<u8> = Vec::new();
    let mut j: usize = from;
    while j < to
        invariant
            from <= j <= to <= s@.len(),
            out@ == s@.subrange(from as int, j as int),
        decreases to - j,
    {
        out.push(s[j]);
        assert(out@ == s@.subrange(from as int, j + 1 as int));
        j = j + 1;
    }
    out
}

fn digit_b(b: u8) -> (r: bool)
    ensures
        r == is_digit_b(b),
{
    48 <= b && b <= 57
}

fn digit_run_b(s: &Vec<u8>, i: usize) -> (r: usize)
    requires
        i <= s@.len(),
    ensures
        r == spec_digit_run_b(s@, i as int),
        i <= r <= s@.len(),
{
    let mut j: usize = i;
    while j < s.len()
        invariant
            i <= j <= s@.len(),
            spec_digit_run_b(s@, i as int) == spec_digit_run_b(s@, j as int),
        decreases s@.len() - j,
    {
        if !digit_b(s[j]) {
            return j;
        }
        j = j + 1;
    }
    j
}

proof fn lemma_digits_val_b_nonneg(s: Seq<u8>)
    requires
        forall|k: int| 0 <= k < s.len() ==> is_digit_b(s[k]),
    ensures
        spec_digits_val_b(s) >= 0,
    decreases s.len(),
{
    if s.len() > 0 {
        lemma_digits_val_b_nonneg(s.drop_last());
    }
}

/// The value of a byte digit string is at least that of any of its prefixes.
proof fn lemma_digits_b_prefix_monotone(s: Seq<u8>, i: int)
    requires
        0 <= i <= s.len(),
        forall|k: int| 0 <= k < s.len() ==> is_digit_b(s[k]),
    ensures
        spec_digits_val_b(s) >= spec_digits_val_b(s.subrange(0, i)),
    decreases s.len() - i,
{
    lemma_digits_val_b_nonneg(s.subrange(0, i));
    if i < s.len() {
        lemma_digits_b_prefix_monotone(s, i + 1);
        let p = s.subrange(0, i);
        let q = s.subrange(0, i + 1);
        assert(q.drop_last() == p);
        assert(spec_digits_val_b(p) * 10 >= spec_digits_val_b(p)) by (nonlinear_arith)
            requires
                spec_digits_val_b(p) >= 0,
        ;
    } else {
        assert(s.subrange(0, i) == s);
    }
}

/// Parse the digits `s[from..to]` as a `u64`.
fn parse_digits_b(s: &Vec<u8>, from: usize, to: usize) -> (r: Option<u64>)
    requires
        from <= to <= s@.len(),
        forall|k: int| from <= k < to ==> is_digit_b(s@[k]),
    ensures
        ({
            let whole = s@.subrange(from as int, to as int);
            match r {
                Some(v) => v as int == spec_digits_val_b(whole),
                None => spec_digits_val_b(whole) > u64::MAX,
            }
        }),
{
    let ghost whole: Seq<u8> = s@.subrange(from as int, to as int);
    let mut acc: u64 = 0;
    let mut j: usize = from;
    proof {
        assert(s@.subrange(from as int, from as int) =~= Seq::<u8>::empty());
    }
    #[verifier::loop_isolation(false)]
    while j < to
        invariant
            from <= j <= to,
            acc as int == spec_digits_val_b(s@.subrange(from as int, j as int)),
        decreases to - j,
    {
        let d: u64 = (s[j] - 48) as u64;
        let ghost pre = s@.subrange(from as int, j as int);
        let ghost cur = s@.subrange(from as int, j + 1 as int);
        proof {
            assert(cur.drop_last() == pre);
            assert(cur.last() == s@[j as int]);
        }
        if acc > (u64::MAX - d) / 10 {
            assert(acc * 10 + d > u64::MAX) by (nonlinear_arith)
                requires
                    acc > (u64::MAX - d) / 10,
                    d < 10,
            ;
            proof {
                assert(forall|k: int| 0 <= k < whole.len() ==> is_digit_b(whole[k]));
                lemma_digits_b_prefix_monotone(whole, j + 1 - from);
                assert(whole.subrange(0, j + 1 - from) == cur);
            }
            return None;
        }
        assert(acc * 10 + d <= u64::MAX) by (nonlinear_arith)
            requires
                acc <= (u64::MAX - d) / 10,
                d < 10,
        ;
        acc = acc * 10 + d;
        j = j + 1;
    }
    Some(acc)
}

/// Whether the digits `s[from..to]` are a canonical number body.
fn num_canon_b(s: &Vec<u8>, from: usize, to: usize) -> (r: bool)
    requires
        from <= to <= s@.len(),
        forall|k: int| from <= k < to ==> is_digit_b(s@[k]),
    ensures
        r == spec_num_canon(s@.subrange(from as int, to as int)),
{
    let ghost whole = s@.subrange(from as int, to as int);
    if to == from {
        return false;
    }
    if to - from == 1 {
        return true;
    }
    assert(whole[0] == s@[from as int]);
    s[from] != 48
}

/// A parsed value together with where it ended.
pub struct Parsed {
    pub value: BencodeValue,
    pub end: usize,
}

/// Parse one bencode value at `pos`: exactly the canonical value that begins
/// there, if any; re-encoding it reproduces the consumed bytes.
pub fn parse_value(s: &Vec<u8>, pos: usize) -> (r: Option<Parsed>)
    requires
        pos <= s@.len(),
    ensures
        match r {
            Some(p) => spec_parse(s@, pos as int) == Some((view_value(p.value), p.end as int))
                && pos < p.end <= s@.len(),
            None => spec_parse(s@, pos as int) is None,
        },
    decreases s@.len() - pos, 0int,
{
    if pos >= s.len() {
        return None;
    }
    let b = s[pos];
    if b == 105 {
        match parse_int_at(s, pos) {
            Some((i, end)) => {
                let v = BencodeValue::Int(i);
                assert(view_value(v) == BValue::Int(i as int));
                Some(Parsed { value: v, end })
            },
            None => None,
        }
    } else if digit_b(b) {
        match parse_bstr_at(s, pos) {
            Some((bytes, end)) => {
                let v = BencodeValue::Bytes(bytes);
                Some(Parsed { value: v, end })
            },
            None => None,
        }
    } else if b == 108 {
        match parse_list_at(s, pos + 1) {
            Some((items, end)) => {
                let v = BencodeValue::List(items);
                Some(Parsed { value: v, end })
            },
            None => None,
        }
    } else if b == 100 {
        match parse_dict_at(s, pos + 1) {
            Some((pairs, end)) => {
                let v = BencodeValue::Dict(pairs);
                Some(Parsed { value: v, end })
            },
            None => None,
        }
    } else {
        None
    }
}

/// Parse a byte string at `pos`.
fn parse_bstr_at(s: &Vec<u8>, pos: usize) -> (r: Option<(Vec<u8>, usize)>)
    requires
        pos <= s@.len(),
    ensures
        match r {
            Some(p) => spec_parse_bstr(s@, pos as int) == Some((p.0@, p.1 as int)) && pos < p.1
                <= s@.len(),
            None => spec_parse_bstr(s@, pos as int) is None,
        },
{
    let dend = digit_run_b(s, pos);
    proof {
        lemma_digit_run_props(s@, pos as int);
    }
    if dend == pos || dend >= s.len() {
        return None;
    }
    if s[dend] != 58 {
        return None;
    }
    if !num_canon_b(s, pos, dend) {
        return None;
    }
    let n = match parse_digits_b(s, pos, dend) {
        Some(v) => v,
        None => {
            proof {
                assert(s@.len() <= u64::MAX);
            }
            return None;
        },
    };
    let remaining = s.len() - dend - 1;
    if n > remaining as u64 {
        return None;
    }
    let end = dend + 1 + (n as usize);
    let bytes = subrange_bytes(s, dend + 1, end);
    Some((bytes, end))
}

/// Parse an integer at `pos` (at the `i`).
fn parse_int_at(s: &Vec<u8>, pos: usize) -> (r: Option<(i64, usize)>)
    requires
        pos < s@.len(),
        s@[pos as int] == 105,
    ensures
        match r {
            Some(p) => spec_parse_int(s@, pos as int) == Some((p.0 as int, p.1 as int)) && pos < p.1
                <= s@.len(),
            None => spec_parse_int(s@, pos as int) is None,
        },
{
    let n_total = s.len();
    assert(pos < n_total);
    let neg = pos + 1 < n_total && s[pos + 1] == 45;
    let dstart = if neg {
        pos + 2
    } else {
        pos + 1
    };
    if dstart > s.len() {
        proof {
            assert(spec_digit_run_b(s@, dstart as int) == spec_digit_run_b(s@, s@.len() as int));
        }
        return None;
    }
    let dend = digit_run_b(s, dstart);
    proof {
        lemma_digit_run_props(s@, dstart as int);
    }
    if dend == dstart || dend >= s.len() {
        return None;
    }
    if s[dend] != 101 {
        return None;
    }
    if !num_canon_b(s, dstart, dend) {
        return None;
    }
    let n = match parse_digits_b(s, dstart, dend) {
        Some(v) => v,
        None => {
            return None;
        },
    };
    if neg {
        if n == 0 {
            return None;
        }
        if n <= 9223372036854775807u64 {
            return Some((-(n as i64), dend + 1));
        }
        if n == 9223372036854775808u64 {
            return Some((i64::MIN, dend + 1));
        }
        None
    } else {
        if n <= 9223372036854775807u64 {
            return Some((n as i64, dend + 1));
        }
        None
    }
}

proof fn lemma_digit_run_props(s: Seq<u8>, i: int)
    requires
        0 <= i <= s.len(),
    ensures
        i <= spec_digit_run_b(s, i) <= s.len(),
        forall|k: int| i <= k < spec_digit_run_b(s, i) ==> is_digit_b(s[k]),
        spec_digit_run_b(s, i) < s.len() ==> !is_digit_b(s[spec_digit_run_b(s, i)]),
    decreases s.len() - i,
{
    if i < s.len() && is_digit_b(s[i]) {
        lemma_digit_run_props(s, i + 1);
    }
}

/// The items of `items` viewed, one more at the end.
proof fn lemma_view_items_push(items: Seq<BencodeValue>, x: BencodeValue, i: int)
    requires
        0 <= i <= items.len(),
    ensures
        view_items(items.push(x), i) == view_items(items, i).push(view_value(x)),
    decreases items.len() - i,
{
    let l = items.push(x);
    if i < items.len() {
        assert(l[i] == items[i]);
        lemma_view_items_push(items, x, i + 1);
        assert(view_items(l, i) == seq![view_value(items[i])] + view_items(l, i + 1));
        assert(seq![view_value(items[i])] + view_items(items, i + 1).push(view_value(x)) =~= (seq![
            view_value(items[i]),
        ] + view_items(items, i + 1)).push(view_value(x)));
    } else {
        assert(l[i] == x);
        assert(view_items(l, i + 1) =~= Seq::<BValue>::empty());
        assert(view_items(l, i) =~= Seq::<BValue>::empty().push(view_value(x)));
    }
}

proof fn lemma_view_pairs_push(
    pairs: Seq<(Vec<u8>, BencodeValue)>,
    x: (Vec<u8>, BencodeValue),
    i: int,
)
    requires
        0 <= i <= pairs.len(),
    ensures
        view_pairs(pairs.push(x), i) == view_pairs(pairs, i).push((x.0@, view_value(x.1))),
    decreases pairs.len() - i,
{
    let l = pairs.push(x);
    if i < pairs.len() {
        assert(l[i] == pairs[i]);
        lemma_view_pairs_push(pairs, x, i + 1);
        assert(view_pairs(l, i) == seq![(pairs[i].0@, view_value(pairs[i].1))] + view_pairs(
            l,
            i + 1,
        ));
        assert(seq![(pairs[i].0@, view_value(pairs[i].1))] + view_pairs(pairs, i + 1).push(
            (x.0@, view_value(x.1)),
        ) =~= (seq![(pairs[i].0@, view_value(pairs[i].1))] + view_pairs(pairs, i + 1)).push(
            (x.0@, view_value(x.1)),
        ));
    } else {
        assert(l[i] == x);
        assert(view_pairs(l, i + 1) =~= Seq::<(Seq<u8>, BValue)>::empty());
        assert(view_pairs(l, i) =~= Seq::<(Seq<u8>, BValue)>::empty().push(
            (x.0@, view_value(x.1)),
        ));
    }
}

/// Parse list items at `pos` up to and including the closing `e`.
fn parse_list_at(s: &Vec<u8>, pos: usize) -> (r: Option<(Vec<BencodeValue>, usize)>)
    requires
        pos <= s@.len(),
    ensures
        match r {
            Some(p) => spec_parse_list(s@, pos as int) == Some((view_items(p.0@, 0), p.1 as int))
                && pos < p.1 <= s@.len(),
            None => spec_parse_list(s@, pos as int) is None,
        },
    decreases s@.len() - pos, 1int,
{
    let mut items: Vec<BencodeValue> = Vec::new();
    let mut cur: usize = pos;
    proof {
        assert(view_items(items@, 0) =~= Seq::<BValue>::empty());
    }
    loop
        invariant
            pos <= cur <= s@.len(),
            cur > pos ==> cur > 0,
            ({
                let full = spec_parse_list(s@, pos as int);
                match spec_parse_list(s@, cur as int) {
                    Some((rest, end)) => full == Some((view_items(items@, 0) + rest, end)),
                    None => full is None,
                }
            }),
        decreases s@.len() - cur,
    {
        if cur >= s.len() {
            return None;
        }
        if s[cur] == 101 {
            proof {
                assert(view_items(items@, 0) + Seq::<BValue>::empty() =~= view_items(items@, 0));
            }
            return Some((items, cur + 1));
        }
        match parse_value(s, cur) {
            Some(p) => {
                let ghost old_items = items@;
                let ghost pv = view_value(p.value);
                let newcur = p.end;
                items.push(p.value);
                proof {
                    lemma_view_items_push(old_items, items@.last(), 0);
                    assert(view_items(items@, 0) =~= view_items(old_items, 0).push(pv));
                    if spec_parse_list(s@, newcur as int) is Some {
                        let (rest, end) = spec_parse_list(s@, newcur as int)->Some_0;
                        assert(seq![pv] + rest =~= Seq::<BValue>::empty().push(pv) + rest);
                        assert(view_items(old_items, 0).push(pv) + rest =~= view_items(
                            old_items,
                            0,
                        ) + (seq![pv] + rest));
                    }
                }
                cur = newcur;
            },
            None => {
                return None;
            },
        }
    }
}

/// Parse dictionary pairs at `pos` up to and including the closing `e`.
fn parse_dict_at(s: &Vec<u8>, pos: usize) -> (r: Option<(Vec<(Vec<u8>, BencodeValue)>, usize)>)
    requires
        pos <= s@.len(),
    ensures
        match r {
            Some(p) => spec_parse_dict(s@, pos as int) == Some((view_pairs(p.0@, 0), p.1 as int))
                && pos < p.1 <= s@.len(),
            None => spec_parse_dict(s@, pos as int) is None,
        },
    decreases s@.len() - pos, 1int,
{
    let mut pairs: Vec<(Vec<u8>, BencodeValue)> = Vec::new();
    let mut cur: usize = pos;
    proof {
        assert(view_pairs(pairs@, 0) =~= Seq::<(Seq<u8>, BValue)>::empty());
    }
    loop
        invariant
            pos <= cur <= s@.len(),
            ({
                let full = spec_parse_dict(s@, pos as int);
                match spec_parse_dict(s@, cur as int) {
                    Some((rest, end)) => full == Some((view_pairs(pairs@, 0) + rest, end)),
                    None => full is None,
                }
            }),
        decreases s@.len() - cur,
    {
        if cur >= s.len() {
            return None;
        }
        if s[cur] == 101 {
            proof {
                assert(view_pairs(pairs@, 0) + Seq::<(Seq<u8>, BValue)>::empty() =~= view_pairs(
                    pairs@,
                    0,
                ));
            }
            return Some((pairs, cur + 1));
        }
        let (key, mid) = match parse_bstr_at(s, cur) {
            Some(k) => k,
            None => {
                return None;
            },
        };
        match parse_value(s, mid) {
            Some(p) => {
                let ghost old_pairs = pairs@;
                let ghost kv = (key@, view_value(p.value));
                let newcur = p.end;
                pairs.push((key, p.value));
                proof {
                    lemma_view_pairs_push(old_pairs, pairs@.last(), 0);
                    assert(view_pairs(pairs@, 0) =~= view_pairs(old_pairs, 0).push(kv));
                    if spec_parse_dict(s@, newcur as int) is Some {
                        let (rest, end) = spec_parse_dict(s@, newcur as int)->Some_0;
                        assert(seq![kv] + rest =~= Seq::<(Seq<u8>, BValue)>::empty().push(kv)
                            + rest);
                        assert(view_pairs(old_pairs, 0).push(kv) + rest =~= view_pairs(
                            old_pairs,
                            0,
                        ) + (seq![kv] + rest));
                    }
                }
                cur = newcur;
            },
            None => {
                return None;
            },
        }
    }
}

proof fn lemma_digits_val_b_pos(ds: Seq<u8>)
    requires
        ds.len() >= 1,
        forall|k: int| 0 <= k < ds.len() ==> is_digit_b(ds[k]),
        ds[0] != 48,
    ensures
        spec_digits_val_b(ds) >= 1,
        ds.len() >= 2 ==> spec_digits_val_b(ds) >= 10,
    decreases ds.len(),
{
    if ds.len() == 1 {
        assert(ds.drop_last().len() == 0);
        assert(spec_digits_val_b(ds.drop_last()) == 0);
    } else {
        let head = ds.drop_last();
        assert(head[0] == ds[0]);
        lemma_digits_val_b_pos(head);
        assert(spec_digits_val_b(head) * 10 >= 10) by (nonlinear_arith)
            requires
                spec_digits_val_b(head) >= 1,
        ;
    }
}

/// Printing the value of a canonical digit string gives the string back.
proof fn lemma_dec_roundtrip(ds: Seq<u8>)
    requires
        spec_num_canon(ds),
    ensures
        spec_dec_bytes(spec_digits_val_b(ds)) == ds,
    decreases ds.len(),
{
    let v = spec_digits_val_b(ds);
    if ds.len() == 1 {
        assert(ds.drop_last().len() == 0);
        assert(spec_digits_val_b(ds.drop_last()) == 0);
        assert(v == ds[0] - 48);
        assert(spec_dec_bytes(v) =~= ds);
    } else {
        let head = ds.drop_last();
        let d = ds.last() - 48;
        assert(head[0] == ds[0]);
        lemma_digits_val_b_pos(head);
        let hv = spec_digits_val_b(head);
        assert(v == hv * 10 + d);
        assert(v >= 10) by (nonlinear_arith)
            requires
                hv >= 1,
                v == hv * 10 + d,
                d >= 0,
        ;
        assert(v / 10 == hv && v % 10 == d) by (nonlinear_arith)
            requires
                v == hv * 10 + d,
                0 <= d < 10,
                hv >= 0,
        ;
        lemma_dec_roundtrip(head);
        assert(spec_dec_bytes(v) == spec_dec_bytes(hv).push(spec_digit_b(d)));
        assert(spec_digit_b(d) == ds.last());
        assert(head.push(ds.last()) =~= ds);
    }
}

/// Encoding a later start of a prepended item sequence.
proof fn lemma_items_shift(x: BValue, rest: Seq<BValue>, k: int)
    requires
        0 <= k <= rest.len(),
    ensures
        spec_encode_items(seq![x] + rest, k + 1) == spec_encode_items(rest, k),
    decreases rest.len() - k,
{
    let l = seq![x] + rest;
    if k < rest.len() {
        assert(l[k + 1] == rest[k]);
        lemma_items_shift(x, rest, k + 1);
    }
}

proof fn lemma_pairs_shift(x: (Seq<u8>, BValue), rest: Seq<(Seq<u8>, BValue)>, k: int)
    requires
        0 <= k <= rest.len(),
    ensures
        spec_encode_pairs(seq![x] + rest, k + 1) == spec_encode_pairs(rest, k),
    decreases rest.len() - k,
{
    let l = seq![x] + rest;
    if k < rest.len() {
        assert(l[k + 1] == rest[k]);
        lemma_pairs_shift(x, rest, k + 1);
    }
}

/// Re-encoding a parsed byte string reproduces its source bytes.
proof fn lemma_bstr_exact(s: Seq<u8>, pos: int)
    requires
        spec_parse_bstr(s, pos) is Some,
    ensures
        ({
            let (b, end) = spec_parse_bstr(s, pos)->Some_0;
            pos < end <= s.len() && spec_encode_bstr(b) == s.subrange(pos, end)
        }),
{
    let dend = spec_digit_run_b(s, pos);
    lemma_digit_run_props(s, pos);
    let ds = s.subrange(pos, dend);
    let n = spec_digits_val_b(ds);
    lemma_digits_val_b_nonneg(ds);
    lemma_dec_roundtrip(ds);
    let b = s.subrange(dend + 1, dend + 1 + n);
    assert(b.len() == n);
    assert(spec_encode_bstr(b) =~= s.subrange(pos, dend + 1 + n));
}

/// Re-encoding whatever the parser accepted reproduces exactly the bytes it
/// consumed: bencode, as accepted here, is a canonical encoding.
pub proof fn lemma_parse_exact(s: Seq<u8>, pos: int)
    requires
        spec_parse(s, pos) is Some,
    ensures
        ({
            let (v, end) = spec_parse(s, pos)->Some_0;
            pos < end <= s.len() && spec_encode(v) == s.subrange(pos, end)
        }),
    decreases s.len() - pos, 0int,
{
    if s[pos] == 105 {
        let (i, end) = spec_parse_int(s, pos)->Some_0;
        let neg = pos + 1 < s.len() && s[pos + 1] == 45;
        let dstart = if neg {
            pos + 2
        } else {
            pos + 1
        };
        let dend = spec_digit_run_b(s, dstart);
        lemma_digit_run_props(s, dstart);
        let ds = s.subrange(dstart, dend);
        lemma_dec_roundtrip(ds);
        lemma_digits_val_b_nonneg(ds);
        if neg {
            assert(spec_int_bytes(i) == seq![45u8] + ds);
            assert(spec_encode(BValue::Int(i)) =~= s.subrange(pos, end));
        } else {
            lemma_digits_val_b_nonneg(ds);
            assert(spec_int_bytes(i) == ds);
            assert(spec_encode(BValue::Int(i)) =~= s.subrange(pos, end));
        }
    } else if is_digit_b(s[pos]) {
        lemma_bstr_exact(s, pos);
    } else if s[pos] == 108 {
        lemma_list_exact(s, pos + 1);
        let (items, end) = spec_parse_list(s, pos + 1)->Some_0;
        assert(spec_encode(BValue::List(items)) =~= s.subrange(pos, end));
    } else {
        lemma_dict_exact(s, pos + 1);
        let (pairs, end) = spec_parse_dict(s, pos + 1)->Some_0;
        assert(spec_encode(BValue::Dict(pairs)) =~= s.subrange(pos, end));
    }
}

proof fn lemma_list_exact(s: Seq<u8>, pos: int)
    requires
        spec_parse_list(s, pos) is Some,
    ensures
        ({
            let (items, end) = spec_parse_list(s, pos)->Some_0;
            pos < end <= s.len() && s[end - 1] == 101 && spec_encode_items(items, 0) == s.subrange(
                pos,
                end - 1,
            )
        }),
    decreases s.len() - pos, 1int,
{
    let (items, end) = spec_parse_list(s, pos)->Some_0;
    if s[pos] == 101 {
        assert(spec_encode_items(items, 0) =~= s.subrange(pos, pos));
    } else {
        let (v, mid) = spec_parse(s, pos)->Some_0;
        let (rest, end2) = spec_parse_list(s, mid)->Some_0;
        lemma_parse_exact(s, pos);
        lemma_list_exact(s, mid);
        lemma_items_shift(v, rest, 0);
        assert(items == seq![v] + rest);
        assert(items[0] == v);
        if rest.len() > 0 {
            assert(spec_encode_items(items, 1) == spec_encode_items(rest, 0));
        } else {
            assert(spec_encode_items(items, 1) == spec_encode_items(rest, 0));
        }
        assert(spec_encode_items(items, 0) == spec_encode(v) + spec_encode_items(rest, 0));
        assert(spec_encode(v) + spec_encode_items(rest, 0) =~= s.subrange(pos, end - 1));
    }
}

proof fn lemma_dict_exact(s: Seq<u8>, pos: int)
    requires
        spec_parse_dict(s, pos) is Some,
    ensures
        ({
            let (pairs, end) = spec_parse_dict(s, pos)->Some_0;
            pos < end <= s.len() && s[end - 1] == 101 && spec_encode_pairs(pairs, 0) == s.subrange(
                pos,
                end - 1,
            )
        }),
    decreases s.len() - pos, 1int,
{
    let (pairs, end) = spec_parse_dict(s, pos)->Some_0;
    if s[pos] == 101 {
        assert(spec_encode_pairs(pairs, 0) =~= s.subrange(pos, pos));
    } else {
        let (k, mid) = spec_parse_bstr(s, pos)->Some_0;
        let (v, mid2) = spec_parse(s, mid)->Some_0;
        let (rest, end2) = spec_parse_dict(s, mid2)->Some_0;
        lemma_bstr_exact(s, pos);
        lemma_parse_exact(s, mid);
        lemma_dict_exact(s, mid2);
        lemma_pairs_shift((k, v), rest, 0);
        assert(pairs == seq![(k, v)] + rest);
        assert(pairs[0] == (k, v));
        assert(spec_encode_pairs(pairs, 1) == spec_encode_pairs(rest, 0));
        assert(spec_encode_pairs(pairs, 0) == spec_encode_bstr(k) + spec_encode(v)
            + spec_encode_pairs(rest, 0));
        assert(spec_encode_bstr(k) + spec_encode(v) + spec_encode_pairs(rest, 0) =~= s.subrange(
            pos,
            end - 1,
        ));
    }
}

/// Lexicographic order on key bytes — the canonical dictionary order.
pub open spec fn spec_bytes_le(a: Seq<u8>, b: Seq<u8>) -> bool
    decreases a.len(),
{
    if a.len() == 0 {
        true
    } else if b.len() == 0 {
        false
    } else if a[0] != b[0] {
        a[0] < b[0]
    } else {
        spec_bytes_le(a.drop_first(), b.drop_first())
    }
}

/// Whether the pairs' keys already stand in canonical order.
pub open spec fn spec_keys_sorted(pairs: Seq<(Seq<u8>, BValue)>) -> bool {
    forall|i: int, j: int|
        0 <= i < j < pairs.len() ==> spec_bytes_le(
            (#[trigger] pairs[i]).0,
            (#[trigger] pairs[j]).0,
        )
}

proof fn lemma_all_sorted_list(l: Seq<BValue>)
    requires
        spec_all_sorted(BValue::List(l)),
    ensures
        forall|k: int| 0 <= k < l.len() ==> spec_all_sorted(#[trigger] l[k]),
{
    lemma_items_all_sorted_index(l, 0);
}

proof fn lemma_all_sorted_dict(d: Seq<(Seq<u8>, BValue)>)
    requires
        spec_all_sorted(BValue::Dict(d)),
    ensures
        spec_keys_sorted(d),
        forall|k: int| 0 <= k < d.len() ==> spec_all_sorted((#[trigger] d[k]).1),
{
    lemma_pair_values_all_sorted_index(d, 0);
}

/// Whether every dictionary anywhere in `v` has its keys in canonical order.
pub open spec fn spec_all_sorted(v: BValue) -> bool
    decreases v, 0int,
{
    match v {
        BValue::Int(i) => true,
        BValue::Bytes(b) => true,
        BValue::List(l) => spec_items_all_sorted(l, 0),
        BValue::Dict(d) => spec_keys_sorted(d) && spec_pair_values_all_sorted(d, 0),
    }
}

/// Whether the items at and after `i` are sorted throughout.
pub open spec fn spec_items_all_sorted(l: Seq<BValue>, i: int) -> bool
    decreases l, l.len() - i, 1int,
{
    if 0 <= i < l.len() {
        spec_all_sorted(l[i]) && spec_items_all_sorted(l, i + 1)
    } else {
        true
    }
}

/// Whether the pairs' values at and after `i` are sorted throughout.
pub open spec fn spec_pair_values_all_sorted(d: Seq<(Seq<u8>, BValue)>, i: int) -> bool
    decreases d, d.len() - i, 1int,
{
    if 0 <= i < d.len() {
        spec_all_sorted(d[i].1) && spec_pair_values_all_sorted(d, i + 1)
    } else {
        true
    }
}

proof fn lemma_items_all_sorted_index(l: Seq<BValue>, i: int)
    requires
        0 <= i <= l.len(),
        spec_items_all_sorted(l, i),
    ensures
        forall|k: int| i <= k < l.len() ==> spec_all_sorted(#[trigger] l[k]),
    decreases l.len() - i,
{
    if i < l.len() {
        lemma_items_all_sorted_index(l, i + 1);
    }
}

proof fn lemma_pair_values_all_sorted_index(d: Seq<(Seq<u8>, BValue)>, i: int)
    requires
        0 <= i <= d.len(),
        spec_pair_values_all_sorted(d, i),
    ensures
        forall|k: int| i <= k < d.len() ==> spec_all_sorted((#[trigger] d[k]).1),
    decreases d.len() - i,
{
    if i < d.len() {
        lemma_pair_values_all_sorted_index(d, i + 1);
    }
}

proof fn lemma_view_items_index(items: Seq<BencodeValue>, i: int)
    requires
        0 <= i <= items.len(),
    ensures
        view_items(items, i).len() == items.len() - i,
        forall|k: int|
            0 <= k < items.len() - i ==> view_items(items, i)[k] == view_value(
                items[i + k],
            ),
    decreases items.len() - i,
{
    if i < items.len() {
        lemma_view_items_index(items, i + 1);
        assert forall|k: int| 0 <= k < items.len() - i implies view_items(items, i)[k]
            == view_value(items[i + k]) by {
            if k > 0 {
                assert(view_items(items, i)[k] == view_items(items, i + 1)[k - 1]);
            }
        }
    }
}

proof fn lemma_view_pairs_index(pairs: Seq<(Vec<u8>, BencodeValue)>, i: int)
    requires
        0 <= i <= pairs.len(),
    ensures
        view_pairs(pairs, i).len() == pairs.len() - i,
        forall|k: int|
            0 <= k < pairs.len() - i ==> view_pairs(pairs, i)[k] == (
            pairs[i + k].0@,
            view_value(pairs[i + k].1),
            ),
    decreases pairs.len() - i,
{
    if i < pairs.len() {
        lemma_view_pairs_index(pairs, i + 1);
        assert forall|k: int| 0 <= k < pairs.len() - i implies view_pairs(pairs, i)[k] == (
        pairs[i + k].0@,
        view_value(pairs[i + k].1),
        ) by {
            if k > 0 {
                assert(view_pairs(pairs, i)[k] == view_pairs(pairs, i + 1)[k - 1]);
            }
        }
    }
}

/// Whether `a`'s bytes come at or before `b`'s in canonical order.
fn bytes_le(a: &Vec<u8>, b: &Vec<u8>) -> (r: bool)
    ensures
        r == spec_bytes_le(a@, b@),
{
    let mut j: usize = 0;
    proof {
        assert(a@.skip(0) == a@);
        assert(b@.skip(0) == b@);
    }
    while j < a.len() && j < b.len()
        invariant
            j <= a@.len(),
            j <= b@.len(),
            spec_bytes_le(a@, b@) == spec_bytes_le(a@.skip(j as int), b@.skip(j as int)),
        decreases a@.len() - j,
    {
        proof {
            assert(a@.skip(j as int)[0] == a@[j as int]);
            assert(b@.skip(j as int)[0] == b@[j as int]);
            assert(a@.skip(j as int).drop_first() == a@.skip(j + 1 as int));
            assert(b@.skip(j as int).drop_first() == b@.skip(j + 1 as int));
        }
        if a[j] != b[j] {
            return a[j] < b[j];
        }
        j = j + 1;
    }
    proof {
        assert(a@.skip(j as int).len() == a@.len() - j);
        assert(b@.skip(j as int).len() == b@.len() - j);
    }
    j >= a.len()
}

/// Decimal digits of `n`, as bytes.
fn dec_bytes_u64(n: u64) -> (r: Vec<u8>)
    ensures
        r@ == spec_dec_bytes(n as int),
    decreases n,
{
    if n < 10 {
        let mut out: Vec<u8> = Vec::new();
        out.push(48 + (n as u8));
        assert(out@ =~= seq![spec_digit_b(n as int)]);
        out
    } else {
        let mut out = dec_bytes_u64(n / 10);
        out.push(48 + ((n % 10) as u8));
        assert(out@ =~= spec_dec_bytes(n as int / 10).push(spec_digit_b(n as int % 10)));
        out
    }
}

/// Append the encoding of the byte string `b`.
fn push_bstr(out: &mut Vec<u8>, b: &Vec<u8>)
    ensures
        final(out)@ == old(out)@ + spec_encode_bstr(b@),
{
    let n = dec_bytes_u64(b.len() as u64);
    let mut j: usize = 0;
    let ghost base = out@;
    while j < n.len()
        invariant
            j <= n@.len(),
            out@ == base + n@.subrange(0, j as int),
        decreases n@.len() - j,
    {
        out.push(n[j]);
        assert(out@ == base + n@.subrange(0, j + 1 as int));
        j = j + 1;
    }
    proof {
        assert(n@.subrange(0, n@.len() as int) == n@);
    }
    out.push(58);
    let ghost base2 = out@;
    let mut k: usize = 0;
    while k < b.len()
        invariant
            k <= b@.len(),
            out@ == base2 + b@.subrange(0, k as int),
        decreases b@.len() - k,
    {
        out.push(b[k]);
        assert(out@ == base2 + b@.subrange(0, k + 1 as int));
        k = k + 1;
    }
    proof {
        assert(b@.subrange(0, b@.len() as int) == b@);
        assert(out@ =~= base + spec_encode_bstr(b@));
    }
}

/// Append a copy of `src`.
fn append_bytes(dst: &mut Vec<u8>, src: &Vec<u8>)
    ensures
        final(dst)@ == old(dst)@ + src@,
{
    let mut j: usize = 0;
    while j < src.len()
        invariant
            j <= src@.len(),
            dst@ == old(dst)@ + src@.subrange(0, j as int),
        decreases src@.len() - j,
    {
        dst.push(src[j]);
        assert(dst@ == old(dst)@ + src@.subrange(0, j + 1 as int));
        j = j + 1;
    }
    proof {
        assert(src@.subrange(0, src@.len() as int) == src@);
    }
}

/// The canonical pairs picked out by an index order.
pub open spec fn spec_order_pairs(order: Seq<usize>, cp: Seq<(Seq<u8>, BValue)>) -> Seq<
    (Seq<u8>, BValue),
> {
    order.map(|t: int, oi: usize| cp[oi as int])
}

/// Encode a value canonically: dictionaries are emitted with their entries
/// re-filed in key order — which leaves every already-sorted dictionary, and
/// so every canonical torrent, byte-identical (`lemma_canon_sorted_id`).
pub fn encode_canonical(v: &BencodeValue) -> (r: Vec<u8>)
    ensures
        r@ == spec_encode(spec_canon(view_value(*v))),
    decreases *v,
{
    let mut out: Vec<u8> = Vec::new();
    match v {
        BencodeValue::Int(i) => {
            out.push(105);
            if *i < 0 {
                out.push(45);
            }
            let m: u64 = if *i < 0 {
                if *i == i64::MIN {
                    9223372036854775808u64
                } else {
                    (-(*i)) as u64
                }
            } else {
                (*i) as u64
            };
            let ds = dec_bytes_u64(m);
            append_bytes(&mut out, &ds);
            out.push(101);
            proof {
                assert(out@ =~= spec_encode(spec_canon(view_value(*v))));
            }
        },
        BencodeValue::Bytes(b) => {
            push_bstr(&mut out, b);
            proof {
                assert(spec_canon(view_value(*v)) == view_value(*v));
            }
        },
        BencodeValue::List(l) => {
            proof {
                lemma_view_items_index(l@, 0);
            }
            let ghost lv = view_items(l@, 0);
            let ghost cl = spec_canon_items(lv, 0);
            proof {
                lemma_canon_items_index(lv, 0);
                assert(spec_canon(view_value(*v)) == BValue::List(cl));
            }
            out.push(108);
            let mut k: usize = 0;
            #[verifier::loop_isolation(false)]
            while k < l.len()
                invariant
                    k <= l@.len(),
                    out@ + spec_encode_items(cl, k as int) == seq![108u8] + spec_encode_items(
                        cl,
                        0,
                    ),
                decreases l@.len() - k,
            {
                let e = encode_canonical(&l[k]);
                proof {
                    assert(cl[k as int] == spec_canon(lv[k as int]));
                    assert(lv[k as int] == view_value(l@[k as int]));
                    assert(spec_encode_items(cl, k as int) == spec_encode(cl[k as int])
                        + spec_encode_items(cl, k + 1 as int));
                }
                append_bytes(&mut out, &e);
                k = k + 1;
            }
            proof {
                assert(spec_encode_items(cl, l@.len() as int) =~= Seq::<u8>::empty());
            }
            out.push(101);
            proof {
                assert(out@ =~= spec_encode(spec_canon(view_value(*v))));
            }
        },
        BencodeValue::Dict(d) => {
            proof {
                lemma_view_pairs_index(d@, 0);
            }
            let ghost dv = view_pairs(d@, 0);
            let ghost cp = spec_canon_pairs(dv, 0);
            proof {
                lemma_canon_pairs_index(dv, 0);
                assert(spec_canon(view_value(*v)) == BValue::Dict(spec_sort_pairs(cp)));
                assert(cp.take(0) =~= Seq::<(Seq<u8>, BValue)>::empty());
                assert(spec_order_pairs(Seq::<usize>::empty(), cp) =~= Seq::<
                    (Seq<u8>, BValue),
                >::empty());
            }
            // File each entry's index into canonical key order.
            let mut order: Vec<usize> = Vec::new();
            let mut idx: usize = 0;
            #[verifier::loop_isolation(false)]
            while idx < d.len()
                invariant
                    idx <= d@.len(),
                    order@.len() == idx,
                    forall|t: int| 0 <= t < order@.len() ==> (#[trigger] order@[t]) < d@.len(),
                    spec_order_pairs(order@, cp) == spec_sort_pairs(cp.take(idx as int)),
                decreases d@.len() - idx,
            {
                let ghost sorted_prev = spec_order_pairs(order@, cp);
                let ghost key = cp[idx as int].0;
                proof {
                    lemma_pair_pos_props(sorted_prev, key, 0);
                    assert(key == d@[idx as int].0@);
                }
                let mut p: usize = 0;
                #[verifier::loop_isolation(false)]
                while p < order.len() && bytes_le(&d[order[p]].0, &d[idx].0)
                    invariant
                        p <= order@.len(),
                        spec_pair_pos(sorted_prev, key, 0) == spec_pair_pos(
                            sorted_prev,
                            key,
                            p as int,
                        ),
                    decreases order@.len() - p,
                {
                    proof {
                        assert(sorted_prev[p as int] == cp[order@[p as int] as int]);
                        assert(sorted_prev[p as int].0 == d@[order@[p as int] as int].0@);
                    }
                    p = p + 1;
                }
                proof {
                    if p < order.len() {
                        assert(sorted_prev[p as int].0 == d@[order@[p as int] as int].0@);
                        assert(spec_pair_pos(sorted_prev, key, 0) == p);
                    } else {
                        assert(spec_pair_pos(sorted_prev, key, 0) == p);
                    }
                }
                let ghost order0 = order@;
                order.insert(p, idx);
                proof {
                    let cur = cp.take(idx + 1 as int);
                    assert(cur.drop_last() =~= cp.take(idx as int));
                    assert(cur.last() == cp[idx as int]);
                    assert(spec_sort_pairs(cur) == sorted_prev.insert(
                        spec_pair_pos(sorted_prev, key, 0),
                        cp[idx as int],
                    ));
                    assert(spec_order_pairs(order@, cp) =~= sorted_prev.insert(
                        p as int,
                        cp[idx as int],
                    )) by {
                        assert forall|t: int|
                            0 <= t < order@.len() implies #[trigger] spec_order_pairs(order@, cp)[t]
                            == sorted_prev.insert(p as int, cp[idx as int])[t] by {
                            if t < p {
                                assert(order@[t] == order0[t]);
                            } else if t == p {
                                assert(order@[t] == idx);
                            } else {
                                assert(order@[t] == order0[t - 1]);
                            }
                        }
                    }
                }
                idx = idx + 1;
            }
            proof {
                assert(cp.take(d@.len() as int) =~= cp);
            }
            let ghost sortedv = spec_sort_pairs(cp);
            out.push(100);
            let mut t: usize = 0;
            #[verifier::loop_isolation(false)]
            while t < order.len()
                invariant
                    t <= order@.len(),
                    out@ + spec_encode_pairs(sortedv, t as int) == seq![100u8]
                        + spec_encode_pairs(sortedv, 0),
                decreases order@.len() - t,
            {
                let oi = order[t];
                proof {
                    assert(sortedv[t as int] == cp[oi as int]);
                    assert(cp[oi as int].0 == dv[oi as int].0);
                    assert(dv[oi as int].0 == d@[oi as int].0@);
                    assert(cp[oi as int].1 == spec_canon(dv[oi as int].1));
                    assert(dv[oi as int].1 == view_value(d@[oi as int].1));
                    assert(spec_encode_pairs(sortedv, t as int) == spec_encode_bstr(
                        sortedv[t as int].0,
                    ) + spec_encode(sortedv[t as int].1) + spec_encode_pairs(
                        sortedv,
                        t + 1 as int,
                    ));
                }
                push_bstr(&mut out, &d[oi].0);
                let e = encode_canonical(&d[oi].1);
                append_bytes(&mut out, &e);
                t = t + 1;
            }
            proof {
                assert(spec_encode_pairs(sortedv, sortedv.len() as int) =~= Seq::<u8>::empty());
                assert(order@.len() == sortedv.len());
            }
            out.push(101);
            proof {
                assert(out@ =~= spec_encode(spec_canon(view_value(*v))));
            }
        },
    }
    out
}

/// The first `n` bytes of `v`.
pub fn take_bytes(v: &Vec<u8>, n: usize) -> (r: Vec<u8>)
    requires
        n <= v@.len(),
    ensures
        r@ == v@.take(n as int),
{
    let mut out: Vec<u8> = Vec::new();
    let mut j: usize = 0;
    while j < n
        invariant
            j <= n <= v@.len(),
            out@ == v@.subrange(0, j as int),
        decreases n - j,
    {
        out.push(v[j]);
        assert(out@ == v@.subrange(0, j + 1 as int));
        j = j + 1;
    }
    out
}

/// The indexed content of a dictionary's pairs.
pub proof fn lemma_view_pairs_index_pub(pairs: Seq<(Vec<u8>, BencodeValue)>, i: int)
    requires
        0 <= i <= pairs.len(),
    ensures
        view_pairs(pairs, i).len() == pairs.len() - i,
        forall|k: int|
            0 <= k < pairs.len() - i ==> view_pairs(pairs, i)[k] == (
            pairs[i + k].0@,
            view_value(pairs[i + k].1),
            ),
{
    lemma_view_pairs_index(pairs, i);
}

/// Where a pair with key `key` is filed into the already-sorted `sorted`:
/// before the first entry whose key does not come at or before it, so after
/// every entry with an equal key.
pub open spec fn spec_pair_pos(sorted: Seq<(Seq<u8>, BValue)>, key: Seq<u8>, j: int) -> int
    decreases sorted.len() - j,
{
    if j < 0 {
        spec_pair_pos(sorted, key, 0)
    } else if j >= sorted.len() {
        sorted.len() as int
    } else if !spec_bytes_le(sorted[j].0, key) {
        j
    } else {
        spec_pair_pos(sorted, key, j + 1)
    }
}

proof fn lemma_pair_pos_props(sorted: Seq<(Seq<u8>, BValue)>, key: Seq<u8>, j: int)
    requires
        0 <= j <= sorted.len(),
    ensures
        j <= spec_pair_pos(sorted, key, j) <= sorted.len(),
        forall|x: int| j <= x < spec_pair_pos(sorted, key, j) ==> spec_bytes_le(sorted[x].0, key),
    decreases sorted.len() - j,
{
    if j < sorted.len() && spec_bytes_le(sorted[j].0, key) {
        lemma_pair_pos_props(sorted, key, j + 1);
    }
}

/// The pairs filed into canonical key order, one by one, keeping the source
/// order of entries with equal keys.
pub open spec fn spec_sort_pairs(pairs: Seq<(Seq<u8>, BValue)>) -> Seq<(Seq<u8>, BValue)>
    decreases pairs.len(),
{
    if pairs.len() == 0 {
        pairs
    } else {
        let sorted = spec_sort_pairs(pairs.drop_last());
        sorted.insert(spec_pair_pos(sorted, pairs.last().0, 0), pairs.last())
    }
}

/// The canonical form of a bencode value: every dictionary's entries are
/// re-filed in key order, keys and values kept, values themselves made
/// canonical first.
pub open spec fn spec_canon(v: BValue) -> BValue
    decreases v, 0int,
{
    match v {
        BValue::Int(i) => BValue::Int(i),
        BValue::Bytes(b) => BValue::Bytes(b),
        BValue::List(l) => BValue::List(spec_canon_items(l, 0)),
        BValue::Dict(d) => BValue::Dict(spec_sort_pairs(spec_canon_pairs(d, 0))),
    }
}

/// The items at and after `i`, each made canonical.
pub open spec fn spec_canon_items(items: Seq<BValue>, i: int) -> Seq<BValue>
    decreases items, items.len() - i, 1int,
{
    if 0 <= i < items.len() {
        seq![spec_canon(items[i])] + spec_canon_items(items, i + 1)
    } else {
        Seq::empty()
    }
}

/// The pairs at and after `i`, keys kept, values made canonical.
pub open spec fn spec_canon_pairs(pairs: Seq<(Seq<u8>, BValue)>, i: int) -> Seq<(Seq<u8>, BValue)>
    decreases pairs, pairs.len() - i, 1int,
{
    if 0 <= i < pairs.len() {
        seq![(pairs[i].0, spec_canon(pairs[i].1))] + spec_canon_pairs(pairs, i + 1)
    } else {
        Seq::empty()
    }
}

proof fn lemma_canon_items_index(items: Seq<BValue>, i: int)
    requires
        0 <= i <= items.len(),
    ensures
        spec_canon_items(items, i).len() == items.len() - i,
        forall|k: int|
            0 <= k < items.len() - i ==> spec_canon_items(items, i)[k] == spec_canon(
                items[i + k],
            ),
    decreases items.len() - i,
{
    if i < items.len() {
        lemma_canon_items_index(items, i + 1);
        assert forall|k: int| 0 <= k < items.len() - i implies spec_canon_items(items, i)[k]
            == spec_canon(items[i + k]) by {
            if k > 0 {
                assert(spec_canon_items(items, i)[k] == spec_canon_items(items, i + 1)[k - 1]);
            }
        }
    }
}

proof fn lemma_canon_pairs_index(pairs: Seq<(Seq<u8>, BValue)>, i: int)
    requires
        0 <= i <= pairs.len(),
    ensures
        spec_canon_pairs(pairs, i).len() == pairs.len() - i,
        forall|k: int|
            0 <= k < pairs.len() - i ==> spec_canon_pairs(pairs, i)[k] == (
            pairs[i + k].0,
            spec_canon(pairs[i + k].1),
            ),
    decreases pairs.len() - i,
{
    if i < pairs.len() {
        lemma_canon_pairs_index(pairs, i + 1);
        assert forall|k: int| 0 <= k < pairs.len() - i implies spec_canon_pairs(pairs, i)[k] == (
        pairs[i + k].0,
        spec_canon(pairs[i + k].1),
        ) by {
            if k > 0 {
                assert(spec_canon_pairs(pairs, i)[k] == spec_canon_pairs(pairs, i + 1)[k - 1]);
            }
        }
    }
}

/// Filing already-sorted pairs changes nothing.
proof fn lemma_sort_sorted_id(pairs: Seq<(Seq<u8>, BValue)>)
    requires
        spec_keys_sorted(pairs),
    ensures
        spec_sort_pairs(pairs) == pairs,
    decreases pairs.len(),
{
    if pairs.len() > 0 {
        let head = pairs.drop_last();
        assert forall|a: int, b: int| 0 <= a < b < head.len() implies spec_bytes_le(
            (#[trigger] head[a]).0,
            (#[trigger] head[b]).0,
        ) by {
            assert(head[a] == pairs[a] && head[b] == pairs[b]);
        }
        lemma_sort_sorted_id(head);
        lemma_pair_pos_props(head, pairs.last().0, 0);
        assert(spec_pair_pos(head, pairs.last().0, 0) == head.len()) by {
            lemma_pair_pos_last(head, pairs, 0);
        }
        assert(head.insert(head.len() as int, pairs.last()) =~= pairs);
    }
}

/// In a sorted run every key files after the run's own keys.
proof fn lemma_pair_pos_last(head: Seq<(Seq<u8>, BValue)>, pairs: Seq<(Seq<u8>, BValue)>, j: int)
    requires
        spec_keys_sorted(pairs),
        pairs.len() == head.len() + 1,
        forall|k: int| 0 <= k < head.len() ==> #[trigger] head[k] == pairs[k],
        0 <= j <= head.len(),
    ensures
        spec_pair_pos(head, pairs.last().0, j) == head.len(),
    decreases head.len() - j,
{
    if j < head.len() {
        assert(spec_bytes_le(pairs[j].0, pairs[pairs.len() - 1].0));
        lemma_pair_pos_last(head, pairs, j + 1);
    }
}

/// A value whose dictionaries are already in canonical key order is its own
/// canonical form: re-encoding it canonically is byte-identical.
pub proof fn lemma_canon_sorted_id(v: BValue)
    ensures
        spec_all_sorted(v) ==> spec_canon(v) == v,
    decreases v,
{
    match v {
        BValue::Int(i) => {},
        BValue::Bytes(b) => {},
        BValue::List(l) => {
            if spec_all_sorted(v) {
                lemma_all_sorted_list(l);
                lemma_canon_items_index(l, 0);
                assert forall|k: int| 0 <= k < l.len() implies spec_canon_items(l, 0)[k]
                    == l[k] by {
                    lemma_canon_sorted_id(l[k]);
                }
                assert(spec_canon_items(l, 0) =~= l);
            }
        },
        BValue::Dict(d) => {
            if spec_all_sorted(v) {
                lemma_all_sorted_dict(d);
                lemma_canon_pairs_index(d, 0);
                assert forall|k: int| 0 <= k < d.len() implies spec_canon_pairs(d, 0)[k]
                    == d[k] by {
                    lemma_canon_sorted_id(d[k].1);
                }
                assert(spec_canon_pairs(d, 0) =~= d);
                lemma_sort_sorted_id(d);
            }
        },
    }
}

} // verus!
