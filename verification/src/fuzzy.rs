//! Fuzzy filtering of the choices with `nucleo-matcher`, and the ranking of
//! the choices that match.
use vstd::prelude::*;
use nucleo_matcher::pattern::{AtomKind, CaseMatching, Normalization, Pattern};
use nucleo_matcher::{Config, Matcher, Utf32Str};
use crate::style::utf8_size;

verus! {

broadcast use vstd::string::group_string_axioms;

#[verifier::external_type_specification]
#[verifier::external_body]
pub struct ExPattern(Pattern);

#[verifier::external_type_specification]
#[verifier::external_body]
pub struct ExMatcher(Matcher);

/// What `nucleo-matcher` finds when it matches the query `query` (split
/// into words, case ignored, Latin letters normalized, each word matched
/// fuzzily) against `entry`: `None` when it does not match, else the score
/// and the positions of the matched characters, word after word.
pub uninterp spec fn fuzzy_match(query: Seq<char>, entry: Seq<char>) -> Option<(u32, Seq<u32>)>;

/// A query compiled into a matcher pattern, with the text it was compiled
/// from.
pub struct Query {
    text: String,
    pattern: Pattern,
}

impl Query {
    /// The text the pattern was compiled from.
    pub closed spec fn text(&self) -> Seq<char> {
        self.text@
    }
}

/// Compiles `query` (`Pattern::new` with case ignored, smart normalization
/// and fuzzy words). Claimed: the pattern stands for `query`.
#[verifier::external_body]
fn compile(query: &str) -> (r: Query)
    ensures
        r.text() == query@,
{
    Query {
        text: query.to_string(),
        pattern: Pattern::new(query, CaseMatching::Ignore, Normalization::Smart, AtomKind::Fuzzy),
    }
}

/// A matcher with the default configuration (`Matcher::new`).
#[verifier::external_body]
fn new_matcher() -> Matcher {
    Matcher::new(Config::DEFAULT)
}

/// The number of words of `q`: runs of characters other than a space.
pub open spec fn word_count(q: Seq<char>) -> nat
    decreases q.len(),
{
    if q.len() == 0 {
        0
    } else if q.last() != ' ' && (q.len() == 1 || q[q.len() - 2] == ' ') {
        word_count(q.drop_last()) + 1
    } else {
        word_count(q.drop_last())
    }
}

/// The number of words of `q` ([`word_count`]).
pub fn count_words(q: &[char]) -> (r: usize)
    ensures
        r == word_count(q@),
{
    let mut count: usize = 0;
    let mut after_space = true;
    let mut i: usize = 0;
    while i < q.len()
        invariant
            i <= q@.len(),
            count <= i,
            count == word_count(q@.take(i as int)),
            after_space == (i == 0 || q@[i - 1] == ' '),
        decreases q.len() - i,
    {
        let c = q[i];
        proof {
            let next = q@.take(i + 1);
            assert(next.drop_last() =~= q@.take(i as int));
            assert(next.last() == c);
            if i > 0 {
                assert(next[next.len() - 2] == q@[i - 1]);
            }
        }
        if c != ' ' && after_space {
            count = count + 1;
        }
        after_space = c == ' ';
        i = i + 1;
    }
    assert(q@.take(q.len() as int) =~= q@);
    count
}

/// Matches `entry` against the query (`Pattern::indices` on
/// `Utf32Str::new`). Claimed: the result is `fuzzy_match` of the query's
/// text and `entry`; a query without words compiles to a pattern without
/// words, which matches every entry with score 0 and no positions; the
/// matcher and the buffer are scratch space. Left
/// out: an entry of more than `u32::MAX` UTF-8 bytes, on which the matcher
/// can panic (an entry whose graphemes all start with an ASCII character is
/// handed over as its bytes, and the matcher asserts that the text it gets
/// has at most `u32::MAX` units; it never gets more units than bytes), and a
/// query of more than 65537 words. The pattern's words are the pieces
/// between spaces that no backslash escapes, empty ones dropped, so there
/// are no more of them than [`word_count`] counts; each scores at most
/// `u16::MAX`, and their sum is taken in a `u32`, which more than 65537 of
/// them can overflow (a panic in a debug build).
#[verifier::external_body]
fn match_entry(query: &Query, matcher: &mut Matcher, buffer: &mut Vec<char>, entry: &str) -> (r: Option<
    (u32, Vec<u32>),
>)
    requires
        utf8_size(entry@) <= u32::MAX,
        word_count(query.text()) <= 65537,
    ensures
        match r {
            Some((s, v)) => fuzzy_match(query.text(), entry@) == Some((s, v@)),
            None => fuzzy_match(query.text(), entry@) is None,
        },
        word_count(query.text()) == 0 ==> r is Some && r->Some_0.0 == 0 && r->Some_0.1@.len() == 0,
{
    let mut indices = Vec::new();
    match query.pattern.indices(Utf32Str::new(entry, buffer), matcher, &mut indices) {
        Some(score) => Some((score, indices)),
        None => None,
    }
}

/// A choice that matches the query: its position among the choices and
/// the positions of its matched characters, in increasing order.
#[derive(Debug)]
pub struct Match {
    pub original: usize,
    pub indices: Vec<u32>,
}

/// The view of a [`Match`].
pub struct MatchView {
    pub original: usize,
    pub indices: Seq<u32>,
}

impl View for Match {
    type V = MatchView;

    open spec fn view(&self) -> MatchView {
        MatchView { original: self.original, indices: self.indices@ }
    }
}

/// Whether `s` increases strictly.
pub open spec fn increasing(s: Seq<u32>) -> bool {
    forall|i: int, j: int| 0 <= i < j < s.len() ==> s[i] < s[j]
}

/// Whether `out` holds the values of `raw`, each once, in increasing order
/// (what `sort_unstable` then `dedup` leave).
pub open spec fn sorted_set_of(out: Seq<u32>, raw: Seq<u32>) -> bool {
    &&& increasing(out)
    &&& forall|x: u32| out.contains(x) <==> raw.contains(x)
}

/// The values of `raw` in increasing order, each once.
pub fn sorted_unique(raw: &Vec<u32>) -> (r: Vec<u32>)
    ensures
        sorted_set_of(r@, raw@),
{
    let mut r: Vec<u32> = Vec::new();
    let mut k: usize = 0;
    while k < raw.len()
        invariant
            k <= raw.len(),
            increasing(r@),
            forall|x: u32| r@.contains(x) <==> raw@.take(k as int).contains(x),
        decreases raw.len() - k,
    {
        let x = raw[k];
        let mut p: usize = 0;
        while p < r.len() && r[p] < x
            invariant
                p <= r.len(),
                forall|m: int| 0 <= m < p ==> r@[m] < x,
            decreases r.len() - p,
        {
            p = p + 1;
        }
        let ghost before = r@;
        if p < r.len() && r[p] == x {
            proof {
                assert forall|y: u32| r@.contains(y) <==> (before.contains(y) || y == x) by {
                    if y == x {
                        assert(r@[p as int] == x);
                    }
                }
            }
        } else {
            r.insert(p, x);
            proof {
                before.insert_ensures(p as int, x);
                assert forall|i: int, j: int| 0 <= i < j < r@.len() implies r@[i] < r@[j] by {
                    if j < p {
                    } else if j == p {
                    } else if i < p {
                        assert(r@[j] == before[j - 1]);
                        assert(before[j - 1] >= x);
                    } else if i == p {
                        assert(r@[j] == before[j - 1]);
                        if p < before.len() {
                            assert(before[p as int] > x);
                            if j - 1 > p {
                                assert(before[p as int] < before[j - 1]);
                            }
                        }
                    } else {
                        assert(r@[i] == before[i - 1]);
                        assert(r@[j] == before[j - 1]);
                    }
                }
                assert forall|y: u32| r@.contains(y) <==> (before.contains(y) || y == x) by {
                    if r@.contains(y) {
                        let i = choose|i: int| 0 <= i < r@.len() && r@[i] == y;
                        if i < p {
                            assert(before[i] == y);
                        } else if i > p {
                            assert(before[i - 1] == y);
                        }
                    }
                    if before.contains(y) {
                        let i = choose|i: int| 0 <= i < before.len() && before[i] == y;
                        if i < p {
                            assert(r@[i] == y);
                        } else {
                            assert(r@[i + 1] == y);
                        }
                    }
                    if y == x {
                        assert(r@[p as int] == x);
                    }
                }
            }
        }
        proof {
            let next = raw@.take(k + 1);
            let prev = raw@.take(k as int);
            assert(next =~= prev.push(x));
            assert forall|y: u32| r@.contains(y) <==> next.contains(y) by {
                assert(r@.contains(y) <==> (before.contains(y) || y == x));
                assert(before.contains(y) <==> prev.contains(y));
                if next.contains(y) {
                    let i = choose|i: int| 0 <= i < next.len() && next[i] == y;
                    if i < k {
                        assert(prev[i] == y);
                    }
                }
                if prev.contains(y) {
                    let i = choose|i: int| 0 <= i < prev.len() && prev[i] == y;
                    assert(next[i] == y);
                }
                if y == x {
                    assert(next[k as int] == x);
                }
            }
        }
        k = k + 1;
    }
    assert(raw@.take(raw.len() as int) =~= raw@);
    r
}

/// Whether `entry` matches `query`.
pub open spec fn matches(query: Seq<char>, entry: Seq<char>) -> bool {
    fuzzy_match(query, entry) is Some
}

/// The score of a matching `entry`.
pub open spec fn score_of(query: Seq<char>, entry: Seq<char>) -> u32 {
    match fuzzy_match(query, entry) {
        Some((s, _)) => s,
        None => 0,
    }
}

/// The positions of the matched characters of a matching `entry`, as the
/// matcher lists them.
pub open spec fn raw_indices(query: Seq<char>, entry: Seq<char>) -> Seq<u32> {
    match fuzzy_match(query, entry) {
        Some((_, v)) => v,
        None => Seq::empty(),
    }
}

/// The positions, among the first `n` choices, of those that match, in
/// increasing order.
pub open spec fn matching_positions(entries: Seq<Seq<char>>, query: Seq<char>, n: int) -> Seq<usize>
    decreases n,
{
    if n <= 0 {
        Seq::empty()
    } else if matches(query, entries[n - 1]) {
        matching_positions(entries, query, n - 1).push((n - 1) as usize)
    } else {
        matching_positions(entries, query, n - 1)
    }
}

/// The positions of all the choices that match, in increasing order.
pub open spec fn candidates(entries: Seq<Seq<char>>, query: Seq<char>) -> Seq<usize> {
    matching_positions(entries, query, entries.len() as int)
}

/// Whether choice `a` ranks before choice `b`: a higher score first, and
/// among equal scores the earlier choice first.
pub open spec fn ranks_before(entries: Seq<Seq<char>>, query: Seq<char>, a: usize, b: usize) -> bool {
    let sa = score_of(query, entries[a as int]);
    let sb = score_of(query, entries[b as int]);
    sa > sb || (sa == sb && a < b)
}

/// Whether some match of `r` is for choice `k`.
pub open spec fn has_original(r: Seq<MatchView>, k: usize) -> bool {
    exists|i: int| 0 <= i < r.len() && r[i].original == k
}

/// Whether `r` is what filtering `entries` with `query` gives: one match
/// for each choice that matches, with its matched positions sorted and
/// deduplicated; in the choices' order when `sort` is off or the query is
/// empty, else ranked by [`ranks_before`].
pub open spec fn is_filter_result(
    r: Seq<MatchView>,
    entries: Seq<Seq<char>>,
    query: Seq<char>,
    sort: bool,
) -> bool {
    let c = candidates(entries, query);
    &&& r.len() == c.len()
    &&& forall|i: int|
        0 <= i < r.len() ==> (#[trigger] r[i]).original < entries.len() && sorted_set_of(
            r[i].indices,
            raw_indices(query, entries[r[i].original as int]),
        )
    &&& if sort && query.len() > 0 {
        &&& forall|i: int, j: int|
            0 <= i < j < r.len() ==> ranks_before(entries, query, r[i].original, r[j].original)
        &&& forall|k: usize| c.contains(k) <==> has_original(r, k)
    } else {
        forall|i: int| 0 <= i < r.len() ==> (#[trigger] r[i]).original == c[i]
    }
}

/// The views of a vector of strings.
pub open spec fn texts(v: Seq<String>) -> Seq<Seq<char>> {
    v.map_values(|s: String| s@)
}

/// The views of a vector of matches.
pub open spec fn match_views(v: Seq<Match>) -> Seq<MatchView> {
    v.map_values(|m: Match| m@)
}

/// Whether every choice and the query are small enough for the matcher:
/// a choice of at most `u32::MAX` UTF-8 bytes, a query of at most 65537
/// words.
pub open spec fn matchable(entries: Seq<Seq<char>>, query: Seq<char>) -> bool {
    &&& word_count(query) <= 65537
    &&& forall|i: int| 0 <= i < entries.len() ==> utf8_size(#[trigger] entries[i]) <= u32::MAX
}

proof fn lemma_matching_positions(entries: Seq<Seq<char>>, query: Seq<char>, n: int)
    requires
        0 <= n <= entries.len() <= usize::MAX,
    ensures
        forall|i: int|
            0 <= i < matching_positions(entries, query, n).len() ==> (#[trigger] matching_positions(
                entries,
                query,
                n,
            )[i]) < n && matches(query, entries[matching_positions(entries, query, n)[i] as int]),
        forall|i: int, j: int|
            0 <= i < j < matching_positions(entries, query, n).len() ==> matching_positions(
                entries,
                query,
                n,
            )[i] < matching_positions(entries, query, n)[j],
        forall|k: int|
            0 <= k < n && matches(query, entries[k]) ==> matching_positions(entries, query, n).contains(
                k as usize,
            ),
    decreases n,
{
    if n > 0 {
        lemma_matching_positions(entries, query, n - 1);
        let prev = matching_positions(entries, query, n - 1);
        let cur = matching_positions(entries, query, n);
        assert forall|i: int| 0 <= i < cur.len() implies (#[trigger] cur[i]) < n && matches(
            query,
            entries[cur[i] as int],
        ) by {
            if i < prev.len() {
                assert(cur[i] == prev[i]);
            }
        }
        assert forall|i: int, j: int| 0 <= i < j < cur.len() implies cur[i] < cur[j] by {
            if j < prev.len() {
                assert(cur[i] == prev[i]);
                assert(cur[j] == prev[j]);
            } else {
                assert(cur[i] == prev[i]);
            }
        }
        assert forall|k: int| 0 <= k < n && matches(query, entries[k]) implies cur.contains(
            k as usize,
        ) by {
            if k < n - 1 {
                let i = choose|i: int| 0 <= i < prev.len() && prev[i] == k as usize;
                assert(cur[i] == k as usize);
            } else {
                assert(cur[cur.len() - 1] == k as usize);
            }
        }
    }
}

/// A sort key: a score and a position among the matches.
type Key = (u32, usize);

/// Whether `a` sorts before `b`: the higher score first, and among equal
/// scores the lower position.
pub open spec fn key_before(a: (u32, usize), b: (u32, usize)) -> bool {
    a.0 > b.0 || (a.0 == b.0 && a.1 < b.1)
}

/// Whether `s` is sorted strictly by [`key_before`].
pub open spec fn keys_sorted(s: Seq<(u32, usize)>) -> bool {
    forall|i: int, j: int| 0 <= i < j < s.len() ==> key_before(s[i], s[j])
}

/// Whether the elements of `s` are pairwise distinct.
pub open spec fn keys_distinct(s: Seq<(u32, usize)>) -> bool {
    forall|i: int, j: int| 0 <= i < j < s.len() ==> s[i] != s[j]
}

proof fn lemma_push_contains<T>(s: Seq<T>, x: T)
    ensures
        forall|y: T| #[trigger] s.push(x).contains(y) <==> (s.contains(y) || y == x),
{
    assert forall|y: T| #[trigger] s.push(x).contains(y) <==> (s.contains(y) || y == x) by {
        if s.push(x).contains(y) && y != x {
            let p = choose|p: int| 0 <= p < s.push(x).len() && s.push(x)[p] == y;
            assert(s[p] == y);
        }
        if s.contains(y) {
            let p = choose|p: int| 0 <= p < s.len() && s[p] == y;
            assert(s.push(x)[p] == y);
        }
        if y == x {
            assert(s.push(x)[s.len() as int] == x);
        }
    }
}

/// Merges two sorted key sequences with no key in common.
fn merge(a: &Vec<Key>, b: &Vec<Key>) -> (r: Vec<Key>)
    requires
        keys_sorted(a@),
        keys_sorted(b@),
        forall|i: int, j: int| 0 <= i < a@.len() && 0 <= j < b@.len() ==> a@[i] != b@[j],
    ensures
        r@.len() == a@.len() + b@.len(),
        keys_sorted(r@),
        forall|x: Key| r@.contains(x) <==> (a@.contains(x) || b@.contains(x)),
{
    let mut r: Vec<Key> = Vec::new();
    let mut i: usize = 0;
    let mut j: usize = 0;
    while i < a.len() || j < b.len()
        invariant
            i <= a@.len(),
            j <= b@.len(),
            r@.len() == i + j,
            keys_sorted(a@),
            keys_sorted(b@),
            forall|p: int, q: int| 0 <= p < a@.len() && 0 <= q < b@.len() ==> a@[p] != b@[q],
            keys_sorted(r@),
            forall|x: Key| r@.contains(x) <==> (a@.take(i as int).contains(x) || b@.take(j as int).contains(x)),
            r@.len() > 0 && i < a@.len() ==> key_before(r@.last(), a@[i as int]),
            r@.len() > 0 && j < b@.len() ==> key_before(r@.last(), b@[j as int]),
        decreases a@.len() + b@.len() - i - j,
    {
        let take_a = if i >= a.len() {
            false
        } else if j >= b.len() {
            true
        } else {
            let x = a[i];
            let y = b[j];
            x.0 > y.0 || (x.0 == y.0 && x.1 < y.1)
        };
        let ghost before = r@;
        if take_a {
            let x = a[i];
            r.push(x);
            proof {
                let na = a@.take(i + 1);
                let pa = a@.take(i as int);
                assert(na =~= pa.push(x));
                assert forall|p: int, q: int| 0 <= p < q < r@.len() implies key_before(r@[p], r@[q]) by {
                    if q == r@.len() - 1 {
                        if p < before.len() - 1 {
                            lemma_key_before_transitive(before[p], before.last(), x);
                        }
                    } else {
                        assert(r@[p] == before[p] && r@[q] == before[q]);
                    }
                }
                lemma_push_contains(before, x);
                lemma_push_contains(pa, x);
                assert(r@ == before.push(x));
                if i + 1 < a@.len() {
                    assert(key_before(a@[i as int], a@[i + 1]));
                }
                if j < b@.len() {
                    assert(a@[i as int] != b@[j as int]);
                }
            }
            i = i + 1;
        } else {
            let y = b[j];
            r.push(y);
            proof {
                if i < a@.len() {
                    assert(a@[i as int] != b@[j as int]);
                    assert(key_before(b@[j as int], a@[i as int]));
                }
                let nb = b@.take(j + 1);
                let pb = b@.take(j as int);
                assert(nb =~= pb.push(y));
                assert forall|p: int, q: int| 0 <= p < q < r@.len() implies key_before(r@[p], r@[q]) by {
                    if q == r@.len() - 1 {
                        if p < before.len() - 1 {
                            lemma_key_before_transitive(before[p], before.last(), y);
                        }
                    } else {
                        assert(r@[p] == before[p] && r@[q] == before[q]);
                    }
                }
                lemma_push_contains(before, y);
                lemma_push_contains(pb, y);
                assert(r@ == before.push(y));
                if j + 1 < b@.len() {
                    assert(key_before(b@[j as int], b@[j + 1]));
                }
                if i < a@.len() {
                    assert(a@[i as int] != b@[j as int]);
                }
            }
            j = j + 1;
        }
    }
    assert(a@.take(a@.len() as int) =~= a@);
    assert(b@.take(b@.len() as int) =~= b@);
    r
}

/// The keys of `v` from `start` up to `end`.
fn copy_keys(v: &Vec<Key>, start: usize, end: usize) -> (r: Vec<Key>)
    requires
        start <= end <= v.len(),
    ensures
        r@ == v@.subrange(start as int, end as int),
{
    let mut r: Vec<Key> = Vec::new();
    let mut i = start;
    while i < end
        invariant
            start <= i <= end <= v.len(),
            r@ == v@.subrange(start as int, i as int),
        decreases end - i,
    {
        r.push(v[i]);
        i = i + 1;
        assert(r@ =~= v@.subrange(start as int, i as int));
    }
    r
}

/// Sorts pairwise distinct keys by [`key_before`] (merge sort).
fn sort_keys(v: &Vec<Key>) -> (r: Vec<Key>)
    requires
        keys_distinct(v@),
    ensures
        r@.len() == v@.len(),
        keys_sorted(r@),
        forall|x: Key| r@.contains(x) <==> v@.contains(x),
    decreases v@.len(),
{
    if v.len() <= 1 {
        let r = copy_keys(v, 0, v.len());
        assert(r@ =~= v@);
        return r;
    }
    let mid = v.len() / 2;
    let left = copy_keys(v, 0, mid);
    let right = copy_keys(v, mid, v.len());
    let sl = sort_keys(&left);
    let sr = sort_keys(&right);
    proof {
        assert forall|x: Key| v@.contains(x) <==> (left@.contains(x) || right@.contains(x)) by {
            if v@.contains(x) {
                let p = choose|p: int| 0 <= p < v@.len() && v@[p] == x;
                if p < mid {
                    assert(left@[p] == x);
                } else {
                    assert(right@[p - mid] == x);
                }
            }
            if left@.contains(x) {
                let p = choose|p: int| 0 <= p < left@.len() && left@[p] == x;
                assert(v@[p] == x);
            }
            if right@.contains(x) {
                let p = choose|p: int| 0 <= p < right@.len() && right@[p] == x;
                assert(v@[p + mid] == x);
            }
        }
        assert forall|p: int, q: int| 0 <= p < sl@.len() && 0 <= q < sr@.len() implies sl@[p] != sr@[q] by {
            assert(left@.contains(sl@[p]));
            assert(right@.contains(sr@[q]));
            let a = choose|a: int| 0 <= a < left@.len() && left@[a] == sl@[p];
            let b = choose|b: int| 0 <= b < right@.len() && right@[b] == sr@[q];
            assert(v@[a] == left@[a]);
            assert(v@[b + mid] == right@[b]);
        }
    }
    merge(&sl, &sr)
}

proof fn lemma_key_before_transitive(a: Key, b: Key, c: Key)
    requires
        key_before(a, b),
        key_before(b, c),
    ensures
        key_before(a, c),
{
}

/// A copy of `v`.
fn copy_indices(v: &Vec<u32>) -> (r: Vec<u32>)
    ensures
        r@ == v@,
{
    let mut r: Vec<u32> = Vec::new();
    let mut i: usize = 0;
    while i < v.len()
        invariant
            i <= v.len(),
            r@ == v@.take(i as int),
        decreases v.len() - i,
    {
        r.push(v[i]);
        i = i + 1;
        assert(r@ =~= v@.take(i as int));
    }
    assert(v@.take(v.len() as int) =~= v@);
    r
}

/// Filters `entries` with the fuzzy query `query`: one [`Match`] for each
/// choice that matches, in the choices' order, or ranked best first when
/// `sort` is on and the query is not empty ([`is_filter_result`]).
pub fn filter_entries(entries: &[String], query: &str, sort: bool) -> (r: Vec<Match>)
    requires
        matchable(texts(entries@), query@),
    ensures
        is_filter_result(match_views(r@), texts(entries@), query@, sort),
        word_count(query@) == 0 ==> forall|k: int|
            0 <= k < entries@.len() ==> fuzzy_match(query@, #[trigger] texts(entries@)[k]) == Some(
                (0u32, Seq::<u32>::empty()),
            ),
{
    let ghost es = texts(entries@);
    let compiled = compile(query);
    let mut matcher = new_matcher();
    let mut buffer: Vec<char> = Vec::new();
    let mut found: Vec<Match> = Vec::new();
    let mut scores: Vec<u32> = Vec::new();
    let mut i: usize = 0;
    while i < entries.len()
        invariant
            i <= entries@.len(),
            es == texts(entries@),
            compiled.text() == query@,
            matchable(es, query@),
            found@.len() == scores@.len(),
            found@.len() == matching_positions(es, query@, i as int).len(),
            forall|k: int|
                0 <= k < found@.len() ==> (#[trigger] found@[k]).original == matching_positions(
                    es,
                    query@,
                    i as int,
                )[k],
            forall|k: int|
                0 <= k < found@.len() ==> sorted_set_of(
                    (#[trigger] found@[k]).indices@,
                    raw_indices(query@, es[found@[k].original as int]),
                ) && scores@[k] == score_of(query@, es[found@[k].original as int]),
            word_count(query@) == 0 ==> forall|k: int|
                0 <= k < i ==> fuzzy_match(query@, #[trigger] es[k]) == Some(
                    (0u32, Seq::<u32>::empty()),
                ),
        decreases entries@.len() - i,
    {
        assert(es[i as int] == entries@[i as int]@);
        let m = match_entry(&compiled, &mut matcher, &mut buffer, entries[i].as_str());
        proof {
            if word_count(query@) == 0 {
                let (s0, v0) = m->Some_0;
                assert(v0@ =~= Seq::<u32>::empty());
            }
        }
        match m {
            Some((score, raw)) => {
                let indices = sorted_unique(&raw);
                found.push(Match { original: i, indices });
                scores.push(score);
            },
            None => {},
        }
        i = i + 1;
    }
    proof {
        lemma_matching_positions(es, query@, es.len() as int);
    }
    let ghost c = candidates(es, query@);
    assert(c == matching_positions(es, query@, i as int));
    if !(sort && !query.is_empty()) {
        proof {
            assert forall|k: int| 0 <= k < found@.len() implies (#[trigger] match_views(found@)[k]).original
                < es.len() && sorted_set_of(
                match_views(found@)[k].indices,
                raw_indices(query@, es[match_views(found@)[k].original as int]),
            ) by {
                assert(match_views(found@)[k] == found@[k]@);
            }
        }
        return found;
    }
    let mut keys: Vec<Key> = Vec::new();
    let mut k: usize = 0;
    while k < scores.len()
        invariant
            k <= scores@.len(),
            keys@.len() == k,
            forall|m: int| 0 <= m < k ==> #[trigger] keys@[m] == (scores@[m], m as usize),
        decreases scores@.len() - k,
    {
        keys.push((scores[k], k));
        k = k + 1;
    }
    let sorted = sort_keys(&keys);
    let mut r: Vec<Match> = Vec::new();
    let mut t: usize = 0;
    while t < sorted.len()
        invariant
            t <= sorted@.len() == keys@.len() == found@.len() == scores@.len() == c.len(),
            keys_sorted(sorted@),
            forall|x: Key| sorted@.contains(x) <==> keys@.contains(x),
            forall|m: int| 0 <= m < keys@.len() ==> #[trigger] keys@[m] == (scores@[m], m as usize),
            r@.len() == t,
            forall|m: int|
                0 <= m < t ==> (#[trigger] r@[m]).original == found@[sorted@[m].1 as int].original
                    && r@[m].indices@ == found@[sorted@[m].1 as int].indices@,
        decreases sorted@.len() - t,
    {
        let p = sorted[t].1;
        assert(keys@.contains(sorted@[t as int]));
        let ghost q = choose|q: int| 0 <= q < keys@.len() && keys@[q] == sorted@[t as int];
        assert(p < found@.len());
        let m = Match { original: found[p].original, indices: copy_indices(&found[p].indices) };
        r.push(m);
        t = t + 1;
    }
    proof {
        let rv = match_views(r@);
        assert forall|m: int| 0 <= m < sorted@.len() implies (#[trigger] sorted@[m]).1 < found@.len()
            && scores@[sorted@[m].1 as int] == sorted@[m].0 by {
            assert(keys@.contains(sorted@[m]));
            let q = choose|q: int| 0 <= q < keys@.len() && keys@[q] == sorted@[m];
        }
        assert forall|m: int| 0 <= m < rv.len() implies (#[trigger] rv[m]).original < es.len()
            && sorted_set_of(rv[m].indices, raw_indices(query@, es[rv[m].original as int])) by {
            assert(rv[m] == r@[m]@);
            assert(sorted@[m].1 < found@.len());
        }
        assert forall|a: int, b: int| 0 <= a < b < rv.len() implies ranks_before(
            es,
            query@,
            rv[a].original,
            rv[b].original,
        ) by {
            assert(rv[a] == r@[a]@);
            assert(rv[b] == r@[b]@);
            assert(key_before(sorted@[a], sorted@[b]));
            let pa = sorted@[a].1 as int;
            let pb = sorted@[b].1 as int;
            assert(sorted@[a].1 < found@.len());
            assert(sorted@[b].1 < found@.len());
            if pa < pb {
                assert(c[pa] < c[pb]);
            }
        }
        assert forall|x: usize| c.contains(x) <==> has_original(rv, x) by {
            if c.contains(x) {
                let q = choose|q: int| 0 <= q < c.len() && c[q] == x;
                assert(keys@[q] == (scores@[q], q as usize));
                assert(keys@.contains(keys@[q]));
                assert(sorted@.contains(keys@[q]));
                let m = choose|m: int| 0 <= m < sorted@.len() && sorted@[m] == keys@[q];
                assert(rv[m] == r@[m]@);
                assert(rv[m].original == x);
            }
            if exists|m: int| 0 <= m < rv.len() && rv[m].original == x {
                let m = choose|m: int| 0 <= m < rv.len() && rv[m].original == x;
                assert(rv[m] == r@[m]@);
                assert(sorted@[m].1 < found@.len());
                assert(c[sorted@[m].1 as int] == x);
            }
        }
    }
    r
}


proof fn lemma_increasing_agree(a: Seq<u32>, b: Seq<u32>, k: int)
    requires
        increasing(a),
        increasing(b),
        forall|x: u32| a.contains(x) <==> b.contains(x),
        0 <= k <= a.len(),
        k <= b.len(),
    ensures
        forall|j: int| 0 <= j < k ==> a[j] == b[j],
    decreases k,
{
    if k > 0 {
        lemma_increasing_agree(a, b, k - 1);
        let i = k - 1;
        if a[i] != b[i] {
            assert(a.contains(a[i]));
            let j = choose|j: int| 0 <= j < b.len() && b[j] == a[i];
            if j < i {
                assert(a[j] == b[j]);
            } else {
                assert(b.contains(b[i]));
                let m = choose|m: int| 0 <= m < a.len() && a[m] == b[i];
                if m < i {
                    assert(a[m] == b[m]);
                }
            }
        }
    }
}

/// The values of a sequence, sorted and deduplicated, are one sequence
/// only.
pub proof fn lemma_sorted_set_unique(a: Seq<u32>, b: Seq<u32>, raw: Seq<u32>)
    requires
        sorted_set_of(a, raw),
        sorted_set_of(b, raw),
    ensures
        a == b,
{
    assert forall|x: u32| a.contains(x) <==> b.contains(x) by {
        assert(a.contains(x) <==> raw.contains(x));
        assert(b.contains(x) <==> raw.contains(x));
    }
    if a.len() <= b.len() {
        lemma_increasing_agree(a, b, a.len() as int);
        if a.len() < b.len() {
            let x = b[a.len() as int];
            assert(b.contains(x));
            let j = choose|j: int| 0 <= j < a.len() && a[j] == x;
            assert(a[j] == b[j]);
        }
    } else {
        lemma_increasing_agree(a, b, b.len() as int);
        let x = a[b.len() as int];
        assert(a.contains(x));
        let j = choose|j: int| 0 <= j < b.len() && b[j] == x;
        assert(a[j] == b[j]);
    }
    assert(a =~= b);
}

proof fn lemma_ranked_agree(
    r1: Seq<MatchView>,
    r2: Seq<MatchView>,
    entries: Seq<Seq<char>>,
    query: Seq<char>,
    k: int,
)
    requires
        r1.len() == r2.len(),
        forall|i: int, j: int|
            0 <= i < j < r1.len() ==> ranks_before(entries, query, r1[i].original, r1[j].original),
        forall|i: int, j: int|
            0 <= i < j < r2.len() ==> ranks_before(entries, query, r2[i].original, r2[j].original),
        forall|x: usize| has_original(r1, x) <==> has_original(r2, x),
        0 <= k <= r1.len(),
    ensures
        forall|j: int| 0 <= j < k ==> r1[j].original == r2[j].original,
    decreases k,
{
    if k > 0 {
        lemma_ranked_agree(r1, r2, entries, query, k - 1);
        let i = k - 1;
        let a = r1[i].original;
        let b = r2[i].original;
        if a != b {
            assert(has_original(r1, a));
            assert(has_original(r2, a));
            let j = choose|j: int| 0 <= j < r2.len() && r2[j].original == a;
            assert(has_original(r2, b));
            assert(has_original(r1, b));
            let m = choose|m: int| 0 <= m < r1.len() && r1[m].original == b;
            if j < i {
                assert(r1[j].original == r2[j].original);
                assert(ranks_before(entries, query, r1[j].original, r1[i].original));
            } else if m < i {
                assert(r1[m].original == r2[m].original);
                assert(ranks_before(entries, query, r2[m].original, r2[i].original));
            } else {
                assert(ranks_before(entries, query, r2[i].original, r2[j].original));
                assert(ranks_before(entries, query, r1[i].original, r1[m].original));
            }
        }
    }
}

/// Filtering is a function of the choices, the query and the sort flag:
/// the contract of [`filter_entries`] admits a single result.
pub proof fn lemma_filter_result_unique(
    r1: Seq<MatchView>,
    r2: Seq<MatchView>,
    entries: Seq<Seq<char>>,
    query: Seq<char>,
    sort: bool,
)
    requires
        is_filter_result(r1, entries, query, sort),
        is_filter_result(r2, entries, query, sort),
    ensures
        r1 == r2,
{
    let c = candidates(entries, query);
    if sort && query.len() > 0 {
        assert forall|x: usize| has_original(r1, x) <==> has_original(r2, x) by {
            assert(c.contains(x) <==> has_original(r1, x));
            assert(c.contains(x) <==> has_original(r2, x));
        }
        lemma_ranked_agree(r1, r2, entries, query, r1.len() as int);
    }
    assert forall|i: int| 0 <= i < r1.len() implies r1[i] == r2[i] by {
        assert(r1[i].original == r2[i].original);
        lemma_sorted_set_unique(
            r1[i].indices,
            r2[i].indices,
            raw_indices(query, entries[r1[i].original as int]),
        );
    }
    assert(r1 =~= r2);
}

/// Without ranking (sorting off, or an empty query) the matches keep the
/// choices' order.
pub proof fn lemma_unranked_keeps_order(
    r: Seq<MatchView>,
    entries: Seq<Seq<char>>,
    query: Seq<char>,
    sort: bool,
)
    requires
        is_filter_result(r, entries, query, sort),
        !(sort && query.len() > 0),
        entries.len() <= usize::MAX,
    ensures
        forall|i: int, j: int| 0 <= i < j < r.len() ==> r[i].original < r[j].original,
{
    lemma_matching_positions(entries, query, entries.len() as int);
    let c = candidates(entries, query);
    assert forall|i: int, j: int| 0 <= i < j < r.len() implies r[i].original < r[j].original by {
        assert(r[i].original == c[i]);
        assert(r[j].original == c[j]);
    }
}

/// Every choice that matches has exactly one match in the result, and
/// nothing else has one.
pub proof fn lemma_matches_are_the_matching_choices(
    r: Seq<MatchView>,
    entries: Seq<Seq<char>>,
    query: Seq<char>,
    sort: bool,
    k: usize,
)
    requires
        is_filter_result(r, entries, query, sort),
        entries.len() <= usize::MAX,
    ensures
        has_original(r, k) <==> (k < entries.len() && matches(query, entries[k as int])),
{
    lemma_matching_positions(entries, query, entries.len() as int);
    let c = candidates(entries, query);
    if !(sort && query.len() > 0) {
        if has_original(r, k) {
            let i = choose|i: int| 0 <= i < r.len() && r[i].original == k;
            assert(r[i].original == c[i]);
        }
        if k < entries.len() && matches(query, entries[k as int]) {
            assert(c.contains(k));
            let i = choose|i: int| 0 <= i < c.len() && c[i] == k;
            assert(r[i].original == c[i]);
        }
    } else {
        if has_original(r, k) {
            assert(c.contains(k));
            let i = choose|i: int| 0 <= i < c.len() && c[i] == k;
        }
        if k < entries.len() && matches(query, entries[k as int]) {
            assert(c.contains(k));
        }
    }
}

/// Sorting only reorders: with ranking on, the result holds the same
/// matches as without it (as many, for the same choices, each the same),
/// no choice twice in either; and with an empty query the two are equal.
pub proof fn lemma_sort_only_reorders(
    ranked: Seq<MatchView>,
    plain: Seq<MatchView>,
    entries: Seq<Seq<char>>,
    query: Seq<char>,
)
    requires
        is_filter_result(ranked, entries, query, true),
        is_filter_result(plain, entries, query, false),
        entries.len() <= usize::MAX,
    ensures
        ranked.len() == plain.len(),
        forall|k: usize| has_original(ranked, k) <==> has_original(plain, k),
        forall|i: int, j: int|
            0 <= i < ranked.len() && 0 <= j < plain.len() && ranked[i].original == plain[j].original
                ==> ranked[i] == plain[j],
        forall|i: int, j: int| 0 <= i < j < ranked.len() ==> ranked[i].original != ranked[j].original,
        forall|i: int, j: int| 0 <= i < j < plain.len() ==> plain[i].original != plain[j].original,
        query.len() == 0 ==> ranked == plain,
{
    lemma_unranked_keeps_order(plain, entries, query, false);
    assert forall|k: usize| has_original(ranked, k) <==> has_original(plain, k) by {
        lemma_matches_are_the_matching_choices(ranked, entries, query, true, k);
        lemma_matches_are_the_matching_choices(plain, entries, query, false, k);
    }
    assert forall|i: int, j: int|
        0 <= i < ranked.len() && 0 <= j < plain.len() && ranked[i].original
            == plain[j].original implies ranked[i] == plain[j] by {
        lemma_sorted_set_unique(
            ranked[i].indices,
            plain[j].indices,
            raw_indices(query, entries[ranked[i].original as int]),
        );
    }
    if query.len() == 0 {
        lemma_filter_result_unique(ranked, plain, entries, query, false);
    } else {
        assert forall|i: int, j: int| 0 <= i < j < ranked.len() implies ranked[i].original
            != ranked[j].original by {
            assert(ranks_before(entries, query, ranked[i].original, ranked[j].original));
        }
    }
}

proof fn lemma_all_match_positions(entries: Seq<Seq<char>>, query: Seq<char>, n: int)
    requires
        0 <= n <= entries.len() <= usize::MAX,
        forall|k: int| 0 <= k < entries.len() ==> #[trigger] matches(query, entries[k]),
    ensures
        matching_positions(entries, query, n).len() == n,
        forall|k: int| 0 <= k < n ==> matching_positions(entries, query, n)[k] == k,
    decreases n,
{
    if n > 0 {
        lemma_all_match_positions(entries, query, n - 1);
        assert(matches(query, entries[n - 1]));
        let prev = matching_positions(entries, query, n - 1);
        assert(matching_positions(entries, query, n) == prev.push((n - 1) as usize));
        assert forall|k: int| 0 <= k < n implies matching_positions(entries, query, n)[k] == k by {
            if k < n - 1 {
                assert(prev.push((n - 1) as usize)[k] == prev[k]);
            }
        }
    }
}

/// With an empty query every choice matches with no positions, so the
/// result lists every choice once, in order, with no positions.
pub proof fn lemma_empty_query_keeps_all(
    r: Seq<MatchView>,
    entries: Seq<Seq<char>>,
    query: Seq<char>,
    sort: bool,
)
    requires
        is_filter_result(r, entries, query, sort),
        query.len() == 0,
        entries.len() <= usize::MAX,
        forall|k: int|
            0 <= k < entries.len() ==> fuzzy_match(query, #[trigger] entries[k]) == Some(
                (0u32, Seq::<u32>::empty()),
            ),
    ensures
        r.len() == entries.len(),
        forall|i: int| 0 <= i < r.len() ==> (#[trigger] r[i]).original == i && r[i].indices.len() == 0,
{
    assert forall|k: int| 0 <= k < entries.len() implies #[trigger] matches(query, entries[k]) by {
        assert(fuzzy_match(query, entries[k]) is Some);
    }
    lemma_all_match_positions(entries, query, entries.len() as int);
    assert forall|i: int| 0 <= i < r.len() implies (#[trigger] r[i]).original == i
        && r[i].indices.len() == 0 by {
        assert(r[i].original == candidates(entries, query)[i]);
        let raw = raw_indices(query, entries[r[i].original as int]);
        assert(raw =~= Seq::<u32>::empty());
        if r[i].indices.len() > 0 {
            assert(r[i].indices.contains(r[i].indices[0]));
            assert(raw.contains(r[i].indices[0]));
        }
    }
}

/// With sorting on and a query of at least one character, the matches come
/// best first: every match scores at least as high as each later one, and
/// of two with the same score the earlier choice comes first.
pub proof fn lemma_sorted_results_rank_best_first(
    r: Seq<MatchView>,
    entries: Seq<Seq<char>>,
    query: Seq<char>,
)
    requires
        is_filter_result(r, entries, query, true),
        query.len() >= 1,
    ensures
        forall|i: int, j: int|
            0 <= i < j < r.len() ==> score_of(query, entries[r[i].original as int]) >= score_of(
                query,
                entries[r[j].original as int],
            ),
        forall|i: int, j: int|
            0 <= i < j < r.len() && score_of(query, entries[r[i].original as int]) == score_of(
                query,
                entries[r[j].original as int],
            ) ==> r[i].original < r[j].original,
{
    assert forall|i: int, j: int| 0 <= i < j < r.len() implies score_of(
        query,
        entries[r[i].original as int],
    ) >= score_of(query, entries[r[j].original as int]) && (score_of(
        query,
        entries[r[i].original as int],
    ) == score_of(query, entries[r[j].original as int]) ==> r[i].original < r[j].original) by {
        assert(ranks_before(entries, query, r[i].original, r[j].original));
    }
}

} // verus!
