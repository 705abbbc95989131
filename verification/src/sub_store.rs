//! The subscription store: the persistent list of RSS subscriptions, kept in
//! the order the daemon reads them in — enabled rows first, then by title,
//! then by season. The store is modelled in memory; the surrounding program
//! mirrors every operation onto its database row for row.
use vstd::prelude::*;

use crate::rss::Rss;
use crate::text::str_equal;

verus! {

/// Strict lexicographic order on character sequences, by scalar value — the
/// order the database's byte collation induces on its UTF-8 text.
pub open spec fn spec_str_lt(a: Seq<char>, b: Seq<char>) -> bool
    decreases a.len(),
{
    if b.len() == 0 {
        false
    } else if a.len() == 0 {
        true
    } else if a[0] != b[0] {
        a[0] < b[0]
    } else {
        spec_str_lt(a.drop_first(), b.drop_first())
    }
}

proof fn lemma_str_lt_connected(a: Seq<char>, b: Seq<char>)
    ensures
        spec_str_lt(a, b) || spec_str_lt(b, a) || a == b,
    decreases a.len(),
{
    if a.len() == 0 && b.len() == 0 {
        assert(a =~= b);
    } else if a.len() > 0 && b.len() > 0 && a[0] == b[0] {
        lemma_str_lt_connected(a.drop_first(), b.drop_first());
        if a.drop_first() == b.drop_first() {
            assert(a.drop_first().len() == b.drop_first().len());
            assert(a.len() == b.len());
            assert forall|i: int| 0 <= i < a.len() implies a[i] == b[i] by {
                if i > 0 {
                    assert(a[i] == a.drop_first()[i - 1]);
                    assert(b[i] == b.drop_first()[i - 1]);
                }
            }
            assert(a =~= b);
        }
    }
}

proof fn lemma_str_lt_asym(a: Seq<char>, b: Seq<char>)
    ensures
        !(spec_str_lt(a, b) && spec_str_lt(b, a)),
    decreases a.len(),
{
    if a.len() > 0 && b.len() > 0 && a[0] == b[0] {
        lemma_str_lt_asym(a.drop_first(), b.drop_first());
    }
}

proof fn lemma_str_lt_trans(a: Seq<char>, b: Seq<char>, c: Seq<char>)
    requires
        spec_str_lt(a, b),
        spec_str_lt(b, c),
    ensures
        spec_str_lt(a, c),
    decreases a.len(),
{
    if a.len() > 0 && c.len() > 0 {
        if b.len() > 0 {
            if a[0] == b[0] && b[0] == c[0] {
                lemma_str_lt_trans(a.drop_first(), b.drop_first(), c.drop_first());
            }
        }
    }
}

/// Position of a subscription in the enabled-first rank: enabled rows come
/// first, then disabled ones, then rows whose flag is unset.
pub open spec fn spec_enabled_rank(e: Option<bool>) -> int {
    match e {
        Some(true) => 0,
        Some(false) => 1,
        None => 2,
    }
}

/// A title for ordering: an absent title sorts before every present one.
pub open spec fn spec_title_rank(t: Option<String>) -> int {
    match t {
        None => 0,
        Some(s) => 1,
    }
}

pub open spec fn spec_title_chars(t: Option<String>) -> Seq<char> {
    match t {
        None => Seq::empty(),
        Some(s) => s@,
    }
}

pub open spec fn spec_season_rank(s: Option<u64>) -> int {
    match s {
        None => 0,
        Some(v) => 1,
    }
}

pub open spec fn spec_season_val(s: Option<u64>) -> int {
    match s {
        None => 0,
        Some(v) => v as int,
    }
}

/// The reading order of the subscription list: enabled rows first, then by
/// title ascending, then by season ascending, absent fields first.
pub open spec fn spec_sub_le(a: Rss, b: Rss) -> bool {
    let ea = spec_enabled_rank(a.enabled);
    let eb = spec_enabled_rank(b.enabled);
    let ta = spec_title_rank(a.title);
    let tb = spec_title_rank(b.title);
    let sa = spec_title_chars(a.title);
    let sb = spec_title_chars(b.title);
    if ea != eb {
        ea < eb
    } else if ta != tb {
        ta < tb
    } else if sa != sb {
        spec_str_lt(sa, sb)
    } else if spec_season_rank(a.season) != spec_season_rank(b.season) {
        spec_season_rank(a.season) < spec_season_rank(b.season)
    } else {
        spec_season_val(a.season) <= spec_season_val(b.season)
    }
}

pub proof fn lemma_sub_le_total(a: Rss, b: Rss)
    ensures
        spec_sub_le(a, b) || spec_sub_le(b, a),
{
    lemma_str_lt_connected(spec_title_chars(a.title), spec_title_chars(b.title));
}

pub proof fn lemma_sub_le_trans(a: Rss, b: Rss, c: Rss)
    requires
        spec_sub_le(a, b),
        spec_sub_le(b, c),
    ensures
        spec_sub_le(a, c),
{
    let sa = spec_title_chars(a.title);
    let sb = spec_title_chars(b.title);
    let sc = spec_title_chars(c.title);
    if sa != sb && sb != sc && sa != sc && spec_str_lt(sa, sb) && spec_str_lt(sb, sc) {
        lemma_str_lt_trans(sa, sb, sc);
    }
    if sa != sb && sb != sc && sa == sc {
        lemma_str_lt_asym(sa, sb);
    }
}

/// Whether `a` reads before `b`, decided executably.
pub fn sub_le(a: &Rss, b: &Rss) -> (r: bool)
    ensures
        r == spec_sub_le(*a, *b),
{
    let ea = enabled_rank(&a.enabled);
    let eb = enabled_rank(&b.enabled);
    if ea != eb {
        return ea < eb;
    }
    let ta: u8 = if a.title.is_some() {
        1
    } else {
        0
    };
    let tb: u8 = if b.title.is_some() {
        1
    } else {
        0
    };
    if ta != tb {
        return ta < tb;
    }
    match (&a.title, &b.title) {
        (Some(x), Some(y)) => {
            if !str_equal(x.as_str(), y.as_str()) {
                return str_lt(x.as_str(), y.as_str());
            }
        },
        _ => {},
    }
    match (&a.season, &b.season) {
        (None, None) => true,
        (None, Some(_)) => true,
        (Some(_), None) => false,
        (Some(x), Some(y)) => x <= y,
    }
}

fn enabled_rank(e: &Option<bool>) -> (r: u8)
    ensures
        r as int == spec_enabled_rank(*e),
{
    match e {
        Some(true) => 0,
        Some(false) => 1,
        None => 2,
    }
}

/// Whether two subscriptions carry the same content, id aside: every stored
/// field comes back verbatim.
pub open spec fn spec_rss_matches(a: Rss, b: Rss) -> bool {
    &&& a.url == b.url
    &&& a.title == b.title
    &&& a.rss_type == b.rss_type
    &&& a.season == b.season
    &&& a.enabled == b.enabled
    &&& match (a.filters, b.filters) {
        (Some(x), Some(y)) => x.0@ == y.0@,
        (None, None) => true,
        _ => false,
    }
    &&& a.description == b.description
    &&& a.category == b.category
}

/// First index whose row has url `u`, at or after `i`; `rows.len()` if none.
pub open spec fn spec_find_url(rows: Seq<Rss>, u: Seq<char>, i: int) -> int
    decreases rows.len() - i,
{
    if i < 0 {
        spec_find_url(rows, u, 0)
    } else if i >= rows.len() {
        rows.len() as int
    } else if rows[i].url@ == u {
        i
    } else {
        spec_find_url(rows, u, i + 1)
    }
}

/// First index whose row has id `id`, at or after `i`; `rows.len()` if none.
pub open spec fn spec_find_id(rows: Seq<Rss>, id: i64, i: int) -> int
    decreases rows.len() - i,
{
    if i < 0 {
        spec_find_id(rows, id, 0)
    } else if i >= rows.len() {
        rows.len() as int
    } else if rows[i].id == Some(id) {
        i
    } else {
        spec_find_id(rows, id, i + 1)
    }
}

/// The position a new subscription is filed at: before the first row that
/// does not read at or before it.
pub open spec fn spec_insert_pos(rows: Seq<Rss>, x: Rss, i: int) -> int
    decreases rows.len() - i,
{
    if i < 0 {
        spec_insert_pos(rows, x, 0)
    } else if i >= rows.len() {
        rows.len() as int
    } else if !spec_sub_le(rows[i], x) {
        i
    } else {
        spec_insert_pos(rows, x, i + 1)
    }
}

pub proof fn lemma_find_url_props(rows: Seq<Rss>, u: Seq<char>, i: int)
    requires
        0 <= i <= rows.len(),
    ensures
        i <= spec_find_url(rows, u, i) <= rows.len(),
        spec_find_url(rows, u, i) < rows.len() ==> rows[spec_find_url(rows, u, i)].url@ == u,
        forall|k: int| i <= k < spec_find_url(rows, u, i) ==> rows[k].url@ != u,
    decreases rows.len() - i,
{
    if i < rows.len() && rows[i].url@ != u {
        lemma_find_url_props(rows, u, i + 1);
    }
}

pub proof fn lemma_find_id_props(rows: Seq<Rss>, id: i64, i: int)
    requires
        0 <= i <= rows.len(),
    ensures
        i <= spec_find_id(rows, id, i) <= rows.len(),
        spec_find_id(rows, id, i) < rows.len() ==> rows[spec_find_id(rows, id, i)].id == Some(id),
        forall|k: int| i <= k < spec_find_id(rows, id, i) ==> rows[k].id != Some(id),
    decreases rows.len() - i,
{
    if i < rows.len() && rows[i].id != Some(id) {
        lemma_find_id_props(rows, id, i + 1);
    }
}

proof fn lemma_insert_pos_props(rows: Seq<Rss>, x: Rss, i: int)
    requires
        0 <= i <= rows.len(),
    ensures
        i <= spec_insert_pos(rows, x, i) <= rows.len(),
        spec_insert_pos(rows, x, i) < rows.len() ==> !spec_sub_le(
            rows[spec_insert_pos(rows, x, i)],
            x,
        ),
        forall|k: int| i <= k < spec_insert_pos(rows, x, i) ==> spec_sub_le(rows[k], x),
    decreases rows.len() - i,
{
    if i < rows.len() && spec_sub_le(rows[i], x) {
        lemma_insert_pos_props(rows, x, i + 1);
    }
}

/// Rows in reading order.
pub open spec fn spec_sorted(rows: Seq<Rss>) -> bool {
    forall|i: int, j: int| 0 <= i < j < rows.len() ==> spec_sub_le(#[trigger] rows[i], #[trigger] rows[j])
}

/// The subscription store.
pub struct SubscriptionStore {
    pub rows: Vec<Rss>,
    /// The id the next inserted subscription receives.
    pub next_id: i64,
}

impl SubscriptionStore {
    /// Store invariant: rows are kept in reading order, every row has an id,
    /// ids and urls are unique, and ids stay below the next free one.
    pub open spec fn wf(&self) -> bool {
        &&& spec_sorted(self.rows@)
        &&& forall|i: int| 0 <= i < self.rows@.len() ==> (#[trigger] self.rows@[i]).id is Some
        &&& forall|i: int, j: int|
            0 <= i < j < self.rows@.len() ==> (#[trigger] self.rows@[i]).id != (
            #[trigger] self.rows@[j]).id
        &&& forall|i: int, j: int|
            0 <= i < j < self.rows@.len() ==> (#[trigger] self.rows@[i]).url@ != (
            #[trigger] self.rows@[j]).url@
        &&& forall|i: int|
            0 <= i < self.rows@.len() ==> (#[trigger] self.rows@[i]).id->Some_0 < self.next_id
        &&& 1 <= self.next_id
    }

    /// An empty store.
    pub fn empty() -> (r: Self)
        ensures
            r.wf(),
            r.rows@.len() == 0,
            r.next_id == 1,
    {
        SubscriptionStore { rows: Vec::new(), next_id: 1 }
    }

    fn find_url(&self, url: &str) -> (r: usize)
        ensures
            r == spec_find_url(self.rows@, url@, 0),
            r <= self.rows@.len(),
    {
        let mut j: usize = 0;
        while j < self.rows.len()
            invariant
                j <= self.rows@.len(),
                spec_find_url(self.rows@, url@, 0) == spec_find_url(self.rows@, url@, j as int),
            decreases self.rows@.len() - j,
        {
            if str_equal(self.rows[j].url.as_str(), url) {
                return j;
            }
            j = j + 1;
        }
        j
    }

    fn find_id(&self, id: i64) -> (r: usize)
        ensures
            r == spec_find_id(self.rows@, id, 0),
            r <= self.rows@.len(),
    {
        let mut j: usize = 0;
        while j < self.rows.len()
            invariant
                j <= self.rows@.len(),
                spec_find_id(self.rows@, id, 0) == spec_find_id(self.rows@, id, j as int),
            decreases self.rows@.len() - j,
        {
            let hit = match self.rows[j].id {
                Some(v) => v == id,
                None => false,
            };
            if hit {
                return j;
            }
            j = j + 1;
        }
        j
    }

    /// The id of the subscription with this url, if one is stored.
    pub fn check_repeat_by_url(&self, url: &str) -> (r: Option<i64>)
        ensures
            ({
                let i = spec_find_url(self.rows@, url@, 0);
                if i < self.rows@.len() {
                    r == self.rows@[i].id
                } else {
                    r is None
                }
            }),
    {
        let i = self.find_url(url);
        if i < self.rows.len() {
            self.rows[i].id
        } else {
            None
        }
    }

    /// Insert `row`, which carries its id, at its reading position.
    fn insert_sorted(&mut self, row: Rss)
        requires
            spec_sorted(old(self).rows@),
        ensures
            final(self).rows@ == old(self).rows@.insert(
                spec_insert_pos(old(self).rows@, row, 0),
                row,
            ),
            spec_sorted(final(self).rows@),
            final(self).next_id == old(self).next_id,
    {
        let ghost rows0 = self.rows@;
        proof {
            lemma_insert_pos_props(rows0, row, 0);
        }
        let mut p: usize = 0;
        while p < self.rows.len() && sub_le(&self.rows[p], &row)
            invariant
                p <= self.rows@.len(),
                self.rows@ == rows0,
                spec_insert_pos(rows0, row, 0) == spec_insert_pos(rows0, row, p as int),
            decreases self.rows@.len() - p,
        {
            p = p + 1;
        }
        self.rows.insert(p, row);
        proof {
            let rows1 = self.rows@;
            assert forall|i: int, j: int| 0 <= i < j < rows1.len() implies spec_sub_le(
                #[trigger] rows1[i],
                #[trigger] rows1[j],
            ) by {
                lemma_sub_le_total(rows0[if p < rows1.len() - 1 {
                    p as int
                } else {
                    0
                }], row);
                if i < p && j == p {
                    assert(rows1[i] == rows0[i]);
                    assert(spec_sub_le(rows0[i], row));
                } else if i == p && j > p {
                    assert(rows1[j] == rows0[j - 1]);
                    assert(!spec_sub_le(rows0[p as int], row));
                    lemma_sub_le_total(rows0[p as int], row);
                    if j - 1 > p {
                        lemma_sub_le_trans(row, rows0[p as int], rows0[j - 1]);
                    }
                } else if i < p && j > p {
                    assert(rows1[i] == rows0[i] && rows1[j] == rows0[j - 1]);
                } else if i != p && j != p {
                    assert(rows1[i] == rows0[if i < p {
                        i
                    } else {
                        i - 1
                    }]);
                }
            }
        }
    }

    /// Insert a subscription: when one with the same url is stored already,
    /// its id is returned and nothing changes; otherwise the subscription is
    /// filed verbatim under a fresh id, which is returned.
    pub fn add_rss(&mut self, rss: &Rss) -> (r: i64)
        requires
            old(self).wf(),
            old(self).next_id < i64::MAX,
        ensures
            final(self).wf(),
            ({
                let rows = old(self).rows@;
                let i = spec_find_url(rows, rss.url@, 0);
                if i < rows.len() {
                    r == rows[i].id->Some_0 && final(self).rows@ == rows && final(self).next_id
                        == old(self).next_id
                } else {
                    let p = spec_insert_pos(rows, *rss, 0);
                    let added = final(self).rows@[p];
                    &&& r == old(self).next_id
                    &&& final(self).next_id == old(self).next_id + 1
                    &&& final(self).rows@ == rows.insert(p, added)
                    &&& added.id == Some(r)
                    &&& spec_rss_matches(added, *rss)
                }
            }),
    {
        let ghost rows0 = self.rows@;
        proof {
            lemma_find_url_props(rows0, rss.url@, 0);
        }
        let i = self.find_url(rss.url.as_str());
        if i < self.rows.len() {
            let id = match self.rows[i].id {
                Some(v) => v,
                None => 0,
            };
            return id;
        }
        let id = self.next_id;
        let mut row = rss.clone();
        row.id = Some(id);
        let ghost added = row;
        proof {
            assert(spec_insert_pos(rows0, added, 0) == spec_insert_pos(rows0, *rss, 0)) by {
                lemma_insert_pos_same(rows0, added, *rss, 0);
            }
        }
        self.insert_sorted(row);
        self.next_id = id + 1;
        proof {
            let p = spec_insert_pos(rows0, *rss, 0);
            lemma_insert_pos_props(rows0, *rss, 0);
            let rows1 = self.rows@;
            assert(rows1[p] == added);
            assert forall|a: int, b: int| 0 <= a < b < rows1.len() implies (#[trigger] rows1[a]).id
                != (#[trigger] rows1[b]).id by {
                if a != p && b != p {
                    assert(rows1[a] == rows0[if a < p {
                        a
                    } else {
                        a - 1
                    }]);
                    assert(rows1[b] == rows0[if b < p {
                        b
                    } else {
                        b - 1
                    }]);
                }
            }
            assert forall|a: int, b: int| 0 <= a < b < rows1.len() implies (#[trigger] rows1[a]).url@
                != (#[trigger] rows1[b]).url@ by {
                if a != p && b != p {
                    assert(rows1[a] == rows0[if a < p {
                        a
                    } else {
                        a - 1
                    }]);
                    assert(rows1[b] == rows0[if b < p {
                        b
                    } else {
                        b - 1
                    }]);
                } else {
                    assert(forall|k: int| 0 <= k < rows0.len() ==> rows0[k].url@ != rss.url@);
                }
            }
        }
        id
    }

    /// Remove the subscription with this id, if one is stored. Removal does
    /// not cascade: download tasks keep their rows.
    pub fn delete_rss(&mut self, id: i64)
        requires
            old(self).wf(),
        ensures
            final(self).wf(),
            ({
                let rows = old(self).rows@;
                let i = spec_find_id(rows, id, 0);
                if i < rows.len() {
                    final(self).rows@ == rows.remove(i)
                } else {
                    final(self).rows@ == rows
                }
            }),
            final(self).next_id == old(self).next_id,
    {
        let ghost rows0 = self.rows@;
        proof {
            lemma_find_id_props(rows0, id, 0);
        }
        let i = self.find_id(id);
        if i < self.rows.len() {
            self.rows.remove(i);
        }
    }

    /// Overwrite the subscription with this id. Nothing changes, and false
    /// comes back, when no row has the id or when the new url belongs to a
    /// different row.
    pub fn update_rss(&mut self, id: i64, rss: &Rss) -> (r: bool)
        requires
            old(self).wf(),
        ensures
            final(self).wf(),
            ({
                let rows = old(self).rows@;
                let i = spec_find_id(rows, id, 0);
                let u = spec_find_url(rows, rss.url@, 0);
                if i < rows.len() && (u == i || u == rows.len()) {
                    let base = rows.remove(i);
                    let p = spec_insert_pos(base, *rss, 0);
                    let added = final(self).rows@[p];
                    &&& r
                    &&& final(self).rows@ == base.insert(p, added)
                    &&& added.id == Some(id)
                    &&& spec_rss_matches(added, *rss)
                } else {
                    !r && final(self).rows@ == rows
                }
            }),
            final(self).next_id == old(self).next_id,
    {
        let ghost rows0 = self.rows@;
        proof {
            lemma_find_id_props(rows0, id, 0);
            lemma_find_url_props(rows0, rss.url@, 0);
        }
        let i = self.find_id(id);
        if i >= self.rows.len() {
            return false;
        }
        let u = self.find_url(rss.url.as_str());
        if u < self.rows.len() && u != i {
            return false;
        }
        self.rows.remove(i);
        let ghost base = self.rows@;
        let mut row = rss.clone();
        row.id = Some(id);
        let ghost added = row;
        proof {
            assert forall|a: int, b: int| 0 <= a < b < base.len() implies spec_sub_le(
                #[trigger] base[a],
                #[trigger] base[b],
            ) by {}
            lemma_insert_pos_same(base, added, *rss, 0);
            lemma_insert_pos_props(base, *rss, 0);
        }
        self.insert_sorted(row);
        proof {
            let p = spec_insert_pos(base, *rss, 0);
            let rows1 = self.rows@;
            assert(rows1[p] == added);
            assert forall|a: int, b: int| 0 <= a < b < rows1.len() implies ((#[trigger] rows1[a]).id
                != (#[trigger] rows1[b]).id && rows1[a].url@ != rows1[b].url@) by {
                if a != p && b != p {
                    assert(rows1[a] == base[if a < p {
                        a
                    } else {
                        a - 1
                    }]);
                    assert(rows1[b] == base[if b < p {
                        b
                    } else {
                        b - 1
                    }]);
                } else {
                    assert(forall|k: int| 0 <= k < base.len() ==> base[k].id != Some(id));
                    assert(forall|k: int| 0 <= k < base.len() ==> base[k].url@ != rss.url@);
                }
            }
        }
        true
    }

    /// The subscriptions, in reading order — enabled rows first, then by
    /// title, then by season — each field verbatim as stored.
    pub fn query_rss(&self) -> (r: Vec<Rss>)
        requires
            self.wf(),
        ensures
            r@.len() == self.rows@.len(),
            forall|i: int|
                0 <= i < r@.len() ==> (spec_rss_matches(#[trigger] r@[i], self.rows@[i]) && r@[i].id
                    == self.rows@[i].id),
            forall|i: int, j: int|
                0 <= i < j < r@.len() ==> spec_sub_le(#[trigger] r@[i], #[trigger] r@[j]),
    {
        let mut out: Vec<Rss> = Vec::new();
        let mut j: usize = 0;
        while j < self.rows.len()
            invariant
                j <= self.rows@.len(),
                out@.len() == j,
                forall|i: int|
                    0 <= i < j ==> (spec_rss_matches(#[trigger] out@[i], self.rows@[i])
                        && out@[i].id == self.rows@[i].id),
            decreases self.rows@.len() - j,
        {
            out.push(self.rows[j].clone());
            j = j + 1;
        }
        proof {
            assert forall|i: int, j2: int| 0 <= i < j2 < out@.len() implies spec_sub_le(
                #[trigger] out@[i],
                #[trigger] out@[j2],
            ) by {
                assert(spec_sub_le(self.rows@[i], self.rows@[j2]));
            }
        }
        out
    }
}

/// Filing position ignores fields outside the reading order, which two
/// subscriptions with the same flags, title and season share.
proof fn lemma_insert_pos_same(rows: Seq<Rss>, x: Rss, y: Rss, i: int)
    requires
        0 <= i <= rows.len(),
        x.enabled == y.enabled,
        x.title == y.title,
        x.season == y.season,
    ensures
        spec_insert_pos(rows, x, i) == spec_insert_pos(rows, y, i),
    decreases rows.len() - i,
{
    if i < rows.len() {
        assert(spec_sub_le(rows[i], x) == spec_sub_le(rows[i], y));
        if spec_sub_le(rows[i], x) {
            lemma_insert_pos_same(rows, x, y, i + 1);
        }
    }
}

/// Whether `a` comes strictly before `b` in lexicographic order.
fn str_lt(a: &str, b: &str) -> (r: bool)
    ensures
        r == spec_str_lt(a@, b@),
{
    let va = crate::text::chars_vec(a);
    let vb = crate::text::chars_vec(b);
    let mut j: usize = 0;
    proof {
        assert(va@.skip(0) == va@);
        assert(vb@.skip(0) == vb@);
    }
    while j < va.len() && j < vb.len()
        invariant
            j <= va@.len(),
            j <= vb@.len(),
            forall|k: int| 0 <= k < j ==> va@[k] == vb@[k],
            spec_str_lt(a@, b@) == spec_str_lt(va@.skip(j as int), vb@.skip(j as int)),
        decreases va@.len() - j,
    {
        let ca = va[j];
        let cb = vb[j];
        proof {
            assert(va@.skip(j as int)[0] == ca);
            assert(vb@.skip(j as int)[0] == cb);
            assert(va@.skip(j as int).drop_first() == va@.skip(j + 1 as int));
            assert(vb@.skip(j as int).drop_first() == vb@.skip(j + 1 as int));
        }
        if ca != cb {
            return ca < cb;
        }
        j = j + 1;
    }
    proof {
        assert(va@.skip(j as int).len() == va@.len() - j);
        assert(vb@.skip(j as int).len() == vb@.len() - j);
    }
    j >= va.len() && j < vb.len()
}

} // verus!
