//! Character-level text handling: conversions between `str`, `String` and
//! character vectors, Unicode whitespace trimming, line splitting, searching
//! and decimal rendering.
use vstd::prelude::*;

verus! {

broadcast use vstd::string::group_string_axioms;

/// The characters of `s`, in order.
pub fn chars_of(s: &str) -> (r: Vec<char>)
    ensures
        r@ == s@,
{
    let mut r: Vec<char> = Vec::new();
    for c in it: s.chars()
        invariant
            r@ == it.seq().take(it.index()),
    {
        r.push(c);
    }
    r
}

/// Appends one character to a string (`String::push`).
#[verifier::external_body]
fn push_char(s: &mut String, c: char)
    ensures
        final(s)@ == old(s)@.push(c),
{
    s.push(c);
}

/// The string made of the characters of `v`.
pub fn string_from(v: &[char]) -> (r: String)
    ensures
        r@ == v@,
{
    let mut r = String::new();
    let mut i: usize = 0;
    while i < v.len()
        invariant
            i <= v.len(),
            r@ == v@.take(i as int),
        decreases v.len() - i,
    {
        push_char(&mut r, v[i]);
        i = i + 1;
        assert(r@ =~= v@.take(i as int));
    }
    assert(v@.take(v.len() as int) =~= v@);
    r
}

/// Appends the characters of `b` to `a`.
pub fn extend_chars(a: &mut Vec<char>, b: &[char])
    ensures
        final(a)@ == old(a)@ + b@,
{
    let mut i: usize = 0;
    while i < b.len()
        invariant
            i <= b.len(),
            a@ == old(a)@ + b@.take(i as int),
        decreases b.len() - i,
    {
        a.push(b[i]);
        i = i + 1;
        assert(a@ =~= old(a)@ + b@.take(i as int));
    }
    assert(b@.take(b.len() as int) =~= b@);
}

/// The characters of `v` from `start` up to `end`.
pub fn copy_range(v: &[char], start: usize, end: usize) -> (r: Vec<char>)
    requires
        start <= end <= v.len(),
    ensures
        r@ == v@.subrange(start as int, end as int),
{
    let mut r: Vec<char> = Vec::new();
    let mut i: usize = start;
    while i < end
        invariant
            start <= i <= end <= v.len(),
            r@ == v@.subrange(start as int, i as int),
        decreases end - i,
    {
        r.push(v[i]);
        i = i + 1;
        assert(r@ =~= v@.subrange(start as int, i as int));
    }
    r
}

/// `a` followed by `b`, as a new vector.
pub fn concat_chars(a: &[char], b: &[char]) -> (r: Vec<char>)
    ensures
        r@ == a@ + b@,
{
    let mut r = copy_range(a, 0, a.len());
    assert(a@.subrange(0, a@.len() as int) =~= a@);
    extend_chars(&mut r, b);
    r
}

/// Whether `v` holds exactly the characters of `s`.
pub fn same_text(v: &[char], s: &str) -> (b: bool)
    ensures
        b == (v@ == s@),
{
    let w = chars_of(s);
    if v.len() != w.len() {
        return false;
    }
    let mut i: usize = 0;
    while i < v.len()
        invariant
            v.len() == w@.len(),
            w@ == s@,
            i <= v.len(),
            forall|k: int| 0 <= k < i ==> v@[k] == w@[k],
        decreases v.len() - i,
    {
        if v[i] != w[i] {
            return false;
        }
        i = i + 1;
    }
    assert(v@ =~= w@);
    true
}

/// Whether `c` has the Unicode `White_Space` property, which is what
/// `char::is_whitespace` (and so `str::trim`) tests.
pub open spec fn is_space(c: char) -> bool {
    ||| ('\u{9}' <= c <= '\u{d}')
    ||| c == ' '
    ||| c == '\u{85}'
    ||| c == '\u{a0}'
    ||| c == '\u{1680}'
    ||| ('\u{2000}' <= c <= '\u{200a}')
    ||| c == '\u{2028}'
    ||| c == '\u{2029}'
    ||| c == '\u{202f}'
    ||| c == '\u{205f}'
    ||| c == '\u{3000}'
}

/// Executable test for [`is_space`].
pub fn space(c: char) -> (b: bool)
    ensures
        b == is_space(c),
{
    ('\u{9}' <= c && c <= '\u{d}') || c == ' ' || c == '\u{85}' || c == '\u{a0}' || c
        == '\u{1680}' || ('\u{2000}' <= c && c <= '\u{200a}') || c == '\u{2028}' || c
        == '\u{2029}' || c == '\u{202f}' || c == '\u{205f}' || c == '\u{3000}'
}

/// `s` without its leading whitespace.
pub open spec fn trim_start(s: Seq<char>) -> Seq<char>
    decreases s.len(),
{
    if s.len() > 0 && is_space(s[0]) {
        trim_start(s.drop_first())
    } else {
        s
    }
}

/// `s` without its trailing whitespace.
pub open spec fn trim_end(s: Seq<char>) -> Seq<char>
    decreases s.len(),
{
    if s.len() > 0 && is_space(s.last()) {
        trim_end(s.drop_last())
    } else {
        s
    }
}

/// `s` without leading and trailing whitespace (`str::trim`).
pub open spec fn trim(s: Seq<char>) -> Seq<char> {
    trim_end(trim_start(s))
}

proof fn lemma_trim_start_skip(s: Seq<char>, i: int)
    requires
        0 <= i < s.len(),
        is_space(s[i]),
    ensures
        trim_start(s.subrange(i, s.len() as int)) == trim_start(s.subrange(i + 1, s.len() as int)),
{
    assert(s.subrange(i, s.len() as int).drop_first() =~= s.subrange(i + 1, s.len() as int));
}

proof fn lemma_trim_end_skip(s: Seq<char>, j: int)
    requires
        0 < j <= s.len(),
        is_space(s[j - 1]),
    ensures
        trim_end(s.subrange(0, j)) == trim_end(s.subrange(0, j - 1)),
{
    assert(s.subrange(0, j).drop_last() =~= s.subrange(0, j - 1));
}

/// The bounds of `trim(v)` within `v`.
pub fn trim_bounds(v: &[char]) -> (r: (usize, usize))
    ensures
        r.0 <= r.1 <= v.len(),
        v@.subrange(r.0 as int, r.1 as int) == trim(v@),
{
    let n = v.len();
    let mut i: usize = 0;
    assert(v@.subrange(0, n as int) =~= v@);
    while i < n && space(v[i])
        invariant
            i <= n == v.len(),
            trim_start(v@) == trim_start(v@.subrange(i as int, n as int)),
        decreases n - i,
    {
        proof {
            lemma_trim_start_skip(v@, i as int);
        }
        i = i + 1;
    }
    let ghost rest = v@.subrange(i as int, n as int);
    assert(trim_start(rest) == rest);
    assert(trim_start(v@) == rest);
    let mut j: usize = n;
    assert(rest.subrange(0, (j - i) as int) =~= rest);
    while j > i && space(v[j - 1])
        invariant
            i <= j <= n == v.len(),
            rest == v@.subrange(i as int, n as int),
            trim_end(rest) == trim_end(rest.subrange(0, (j - i) as int)),
        decreases j,
    {
        proof {
            lemma_trim_end_skip(rest, (j - i) as int);
        }
        j = j - 1;
    }
    let ghost kept = rest.subrange(0, (j - i) as int);
    assert(trim_end(kept) == kept);
    assert(kept =~= v@.subrange(i as int, j as int));
    (i, j)
}

/// `trim(v)` as a new vector.
pub fn trimmed(v: &[char]) -> (r: Vec<char>)
    ensures
        r@ == trim(v@),
{
    let (a, b) = trim_bounds(v);
    copy_range(v, a, b)
}

/// Whether `s` holds only whitespace (or nothing).
pub open spec fn all_space(s: Seq<char>) -> bool {
    forall|i: int| 0 <= i < s.len() ==> is_space(#[trigger] s[i])
}

proof fn lemma_trim_start_all_space(s: Seq<char>)
    ensures
        trim_start(s).len() == 0 <==> all_space(s),
        trim_start(s).len() > 0 ==> !is_space(trim_start(s)[0]),
    decreases s.len(),
{
    if s.len() > 0 && is_space(s[0]) {
        lemma_trim_start_all_space(s.drop_first());
        if all_space(s.drop_first()) {
            assert forall|i: int| 0 <= i < s.len() implies is_space(#[trigger] s[i]) by {
                if i > 0 {
                    assert(s[i] == s.drop_first()[i - 1]);
                }
            }
        }
        if all_space(s) {
            assert forall|i: int| 0 <= i < s.drop_first().len() implies is_space(
                #[trigger] s.drop_first()[i],
            ) by {
                assert(s.drop_first()[i] == s[i + 1]);
            }
        }
    } else if s.len() > 0 {
        assert(!is_space(s[0]));
    }
}

pub proof fn lemma_trim_end_keeps_first(s: Seq<char>)
    requires
        s.len() > 0,
        !is_space(s[0]),
    ensures
        trim_end(s).len() > 0,
        trim_end(s)[0] == s[0],
    decreases s.len(),
{
    if s.len() > 0 && is_space(s.last()) {
        assert(s.len() > 1);
        lemma_trim_end_keeps_first(s.drop_last());
    }
}

/// Trimming changes nothing at an end that is not whitespace.
pub proof fn lemma_trim_unchanged(s: Seq<char>)
    ensures
        s.len() > 0 && !is_space(s[0]) ==> trim_start(s) == s,
        s.len() > 0 && !is_space(s.last()) ==> trim_end(s) == s,
{
}

/// Trailing whitespace of `p + s` is that of `s` when `s` starts with a
/// character that is not whitespace.
pub proof fn lemma_trim_end_append(p: Seq<char>, s: Seq<char>)
    requires
        s.len() > 0,
        !is_space(s[0]),
    ensures
        trim_end(p + s) == p + trim_end(s),
    decreases s.len(),
{
    if is_space(s.last()) {
        assert(s.len() > 1);
        assert((p + s).last() == s.last());
        assert((p + s).drop_last() =~= p + s.drop_last());
        lemma_trim_end_append(p, s.drop_last());
    } else {
        assert((p + s).last() == s.last());
    }
}

/// A string trims to nothing exactly when it is all whitespace.
pub proof fn lemma_trim_empty(s: Seq<char>)
    ensures
        trim(s).len() == 0 <==> all_space(s),
{
    lemma_trim_start_all_space(s);
    if trim_start(s).len() > 0 {
        lemma_trim_end_keeps_first(trim_start(s));
    }
}

/// Whether `v` is empty or all whitespace, that is, whether it trims to
/// nothing.
pub fn is_blank(v: &[char]) -> (b: bool)
    ensures
        b == (trim(v@).len() == 0),
{
    let (a, z) = trim_bounds(v);
    a == z
}

/// Index of the first `c` in `s` at or after `from`, or `s.len()`.
pub open spec fn next_index_of(s: Seq<char>, c: char, from: int) -> int
    decreases s.len() - from,
{
    if from >= s.len() {
        s.len() as int
    } else if s[from] == c {
        from
    } else {
        next_index_of(s, c, from + 1)
    }
}

proof fn lemma_next_index_of_bounds(s: Seq<char>, c: char, from: int)
    requires
        0 <= from,
    ensures
        from <= next_index_of(s, c, from) || from > s.len(),
        next_index_of(s, c, from) <= s.len(),
        next_index_of(s, c, from) < s.len() ==> s[next_index_of(s, c, from)] == c,
        forall|k: int| from <= k < next_index_of(s, c, from) ==> s[k] != c,
    decreases s.len() - from,
{
    if from < s.len() && s[from] != c {
        lemma_next_index_of_bounds(s, c, from + 1);
    }
}

/// Executable [`next_index_of`].
pub fn find_char(v: &[char], c: char, from: usize) -> (r: usize)
    requires
        from <= v.len(),
    ensures
        r as int == next_index_of(v@, c, from as int),
        from <= r <= v.len(),
        r < v.len() ==> v@[r as int] == c,
        forall|k: int| from <= k < r ==> v@[k] != c,
{
    let mut j = from;
    while j < v.len() && v[j] != c
        invariant
            from <= j <= v.len(),
            next_index_of(v@, c, from as int) == next_index_of(v@, c, j as int),
            forall|k: int| from <= k < j ==> v@[k] != c,
        decreases v.len() - j,
    {
        j = j + 1;
    }
    j
}

/// A line as `str::lines` yields it from the characters `start..end`: a
/// line ended by `\n` also drops a `\r` just before it.
pub open spec fn line_end(s: Seq<char>, start: int, end: int) -> int {
    if end < s.len() && end > start && s[end - 1] == '\r' {
        end - 1
    } else {
        end
    }
}

/// The `(start, end)` bounds of the lines of `s` from position `from` on,
/// as `str::lines` splits them: at each `\n`, with `\r\n` counting as one
/// line ending, and no empty line after a final line ending.
pub open spec fn line_spans(s: Seq<char>, from: int) -> Seq<(int, int)>
    decreases s.len() + 1 - from,
{
    if from >= s.len() || from < 0 {
        Seq::empty()
    } else {
        let e = next_index_of(s, '\n', from);
        if e < from || e > s.len() {
            Seq::empty()
        } else {
            seq![(from, line_end(s, from, e))] + line_spans(s, e + 1)
        }
    }
}

/// The lines of `s` (`str::lines`).
pub open spec fn lines(s: Seq<char>) -> Seq<Seq<char>> {
    line_spans(s, 0).map_values(|p: (int, int)| s.subrange(p.0, p.1))
}

/// The bounds of the lines of `v`, as [`line_spans`] states them.
pub fn line_bounds(v: &[char]) -> (r: Vec<(usize, usize)>)
    ensures
        r@.len() == line_spans(v@, 0).len(),
        forall|k: int|
            0 <= k < r@.len() ==> (#[trigger] r@[k]).0 as int == line_spans(v@, 0)[k].0 && r@[k].1 as int
                == line_spans(v@, 0)[k].1,
        forall|k: int| 0 <= k < r@.len() ==> (#[trigger] r@[k]).0 <= r@[k].1 <= v@.len(),
{
    let mut r: Vec<(usize, usize)> = Vec::new();
    let mut pos: usize = 0;
    let ghost spans = line_spans(v@, 0);
    while pos < v.len()
        invariant
            pos <= v.len(),
            spans == line_spans(v@, 0),
            spans == r@.map_values(|p: (usize, usize)| (p.0 as int, p.1 as int)) + line_spans(v@, pos as int),
            forall|k: int| 0 <= k < r@.len() ==> (#[trigger] r@[k]).0 <= r@[k].1 <= v@.len(),
        decreases v.len() - pos,
    {
        let e = find_char(v, '\n', pos);
        proof {
            lemma_next_index_of_bounds(v@, '\n', pos as int);
        }
        let end = if e < v.len() && e > pos && v[e - 1] == '\r' {
            e - 1
        } else {
            e
        };
        let ghost before = r@;
        r.push((pos, end));
        assert(line_spans(v@, pos as int) == seq![(pos as int, end as int)] + line_spans(
            v@,
            e + 1,
        ));
        assert(r@.map_values(|p: (usize, usize)| (p.0 as int, p.1 as int)) =~= before.map_values(
            |p: (usize, usize)| (p.0 as int, p.1 as int),
        ) + seq![(pos as int, end as int)]);
        if e == v.len() {
            assert(line_spans(v@, e + 1) =~= Seq::<(int, int)>::empty());
            pos = e;
        } else {
            pos = e + 1;
        }
    }
    assert(line_spans(v@, pos as int) =~= Seq::<(int, int)>::empty());
    assert(spans =~= r@.map_values(|p: (usize, usize)| (p.0 as int, p.1 as int)));
    assert forall|k: int| 0 <= k < r@.len() implies (#[trigger] r@[k]).0 as int == spans[k].0
        && r@[k].1 as int == spans[k].1 by {
        assert(spans[k] == r@.map_values(|p: (usize, usize)| (p.0 as int, p.1 as int))[k]);
    }
    r
}

/// The lines of `s` as strings (`str::lines`).
pub fn split_lines(s: &str) -> (r: Vec<String>)
    ensures
        r@.len() == lines(s@).len(),
        forall|k: int| 0 <= k < r@.len() ==> (#[trigger] r@[k])@ == lines(s@)[k],
{
    let v = chars_of(s);
    let bounds = line_bounds(v.as_slice());
    let mut r: Vec<String> = Vec::new();
    let mut k: usize = 0;
    while k < bounds.len()
        invariant
            v@ == s@,
            k <= bounds@.len() == line_spans(s@, 0).len(),
            r@.len() == k,
            forall|m: int|
                0 <= m < bounds@.len() ==> (#[trigger] bounds@[m]).0 as int == line_spans(s@, 0)[m].0
                    && bounds@[m].1 as int == line_spans(s@, 0)[m].1,
            forall|m: int| 0 <= m < bounds@.len() ==> (#[trigger] bounds@[m]).0 <= bounds@[m].1 <= v@.len(),
            forall|m: int| 0 <= m < k ==> (#[trigger] r@[m])@ == lines(s@)[m],
        decreases bounds.len() - k,
    {
        let (a, b) = bounds[k];
        let line = copy_range(v.as_slice(), a, b);
        r.push(string_from(line.as_slice()));
        k = k + 1;
    }
    r
}

/// Whether `pat` occurs in `s` at position `i`.
pub open spec fn occurs_at(s: Seq<char>, pat: Seq<char>, i: int) -> bool {
    0 <= i && i + pat.len() <= s.len() && s.subrange(i, i + pat.len()) == pat
}

/// The greatest position at or below `i` where `pat` occurs in `s`.
pub open spec fn last_occurrence_from(s: Seq<char>, pat: Seq<char>, i: int) -> Option<int>
    decreases i + 1,
{
    if i < 0 {
        None
    } else if occurs_at(s, pat, i) {
        Some(i)
    } else {
        last_occurrence_from(s, pat, i - 1)
    }
}

/// The position of the last occurrence of `pat` in `s`, as `str::rsplit_once`
/// finds it.
pub open spec fn last_occurrence(s: Seq<char>, pat: Seq<char>) -> Option<int> {
    last_occurrence_from(s, pat, s.len() - pat.len())
}

/// A found occurrence is an occurrence.
pub proof fn lemma_last_occurrence_from_occurs(s: Seq<char>, pat: Seq<char>, i: int)
    ensures
        last_occurrence_from(s, pat, i) matches Some(k) ==> occurs_at(s, pat, k) && k <= i,
    decreases i + 1,
{
    if i >= 0 && !occurs_at(s, pat, i) {
        lemma_last_occurrence_from_occurs(s, pat, i - 1);
    }
}

/// Whether `pat` occurs in `v` at position `i`.
pub fn matches_at(v: &[char], pat: &[char], i: usize) -> (b: bool)
    ensures
        b == occurs_at(v@, pat@, i as int),
{
    if i > v.len() || pat.len() > v.len() - i {
        return false;
    }
    let mut k: usize = 0;
    while k < pat.len()
        invariant
            i + pat.len() <= v.len(),
            k <= pat.len(),
            forall|m: int| 0 <= m < k ==> v@[i + m] == pat@[m],
        decreases pat.len() - k,
    {
        if v[i + k] != pat[k] {
            assert(v@.subrange(i as int, i + pat.len())[k as int] != pat@[k as int]);
            return false;
        }
        k = k + 1;
    }
    assert(v@.subrange(i as int, i + pat.len()) =~= pat@);
    true
}

/// Executable [`last_occurrence`].
pub fn rfind(v: &[char], pat: &[char]) -> (r: Option<usize>)
    ensures
        r matches Some(i) ==> last_occurrence(v@, pat@) == Some(i as int),
        r matches Some(i) ==> occurs_at(v@, pat@, i as int),
        r is None ==> last_occurrence(v@, pat@) is None,
{
    if pat.len() > v.len() {
        assert(last_occurrence(v@, pat@) is None);
        return None;
    }
    let mut i: usize = v.len() - pat.len();
    loop
        invariant
            i + pat.len() <= v.len(),
            last_occurrence(v@, pat@) == last_occurrence_from(v@, pat@, i as int),
        decreases i,
    {
        if matches_at(v, pat, i) {
            return Some(i);
        }
        if i == 0 {
            assert(last_occurrence_from(v@, pat@, -1) is None);
            return None;
        }
        i = i - 1;
    }
}

/// The decimal digit character for `d < 10`.
pub open spec fn digit_char(d: nat) -> char {
    if d < 10 {
        ((d + '0' as nat) as u8) as char
    } else {
        '0'
    }
}

/// The decimal representation of `n`, as `Display` writes it.
pub open spec fn decimal(n: nat) -> Seq<char>
    decreases n,
{
    if n < 10 {
        seq![digit_char(n)]
    } else {
        decimal(n / 10).push(digit_char(n % 10))
    }
}

/// `n` in decimal.
pub fn decimal_chars(n: usize) -> (r: Vec<char>)
    ensures
        r@ == decimal(n as nat),
    decreases n,
{
    let d = (n % 10) as u8;
    let c = (d + 48u8) as char;
    assert(c == digit_char((n % 10) as nat));
    if n < 10 {
        let mut r: Vec<char> = Vec::new();
        r.push(c);
        assert(r@ =~= seq![digit_char(n as nat)]);
        r
    } else {
        let mut r = decimal_chars(n / 10);
        r.push(c);
        r
    }
}

/// The text that `format!("{:?}", s)` produces: `s` quoted, with special
/// characters escaped.
pub uninterp spec fn debug_text(s: Seq<char>) -> Seq<char>;

/// Calls `<str as Debug>::fmt` through `format!`. Claimed: the result is
/// `debug_text` of the argument (the formatting depends on the text alone).
#[verifier::external_body]
pub(crate) fn debug_quoted(s: &str) -> (r: String)
    ensures
        r@ == debug_text(s@),
{
    format!("{:?}", s)
}

} // verus!
