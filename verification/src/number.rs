//! Number syntax: unsigned decimal integers as `usize::from_str` reads them,
//! and the float literals that `f64::from_str` accepts.
use vstd::prelude::*;

verus! {

/// Why a text is not a `usize` (`std::num::IntErrorKind`).
#[derive(Clone, Copy, Debug, PartialEq, Eq, Structural)]
pub enum IntError {
    Empty,
    InvalidDigit,
    PosOverflow,
}

/// Whether `c` is an ASCII decimal digit.
pub open spec fn is_digit(c: char) -> bool {
    '0' <= c <= '9'
}

/// The value of the ASCII digit `c`.
pub open spec fn digit_value(c: char) -> nat {
    (c as u32 - '0' as u32) as nat
}

/// Reads `d[i..]` as decimal digits after the value `acc` of the digits
/// before them, failing at the first non-digit or as soon as the value
/// passes `usize::MAX`.
pub open spec fn fold_digits(d: Seq<char>, i: int, acc: nat) -> Result<nat, IntError>
    decreases d.len() - i,
{
    if i >= d.len() || i < 0 {
        Ok(acc)
    } else if !is_digit(d[i]) {
        Err(IntError::InvalidDigit)
    } else if acc * 10 + digit_value(d[i]) > usize::MAX {
        Err(IntError::PosOverflow)
    } else {
        fold_digits(d, i + 1, acc * 10 + digit_value(d[i]))
    }
}

/// `s` read as a `usize` the way `usize::from_str` reads it: an optional
/// `+`, then decimal digits, nothing else.
pub open spec fn parse_usize(s: Seq<char>) -> Result<nat, IntError> {
    if s.len() == 0 {
        Err(IntError::Empty)
    } else if (s[0] == '+' || s[0] == '-') && s.len() == 1 {
        Err(IntError::InvalidDigit)
    } else if s[0] == '+' {
        fold_digits(s, 1, 0)
    } else {
        fold_digits(s, 0, 0)
    }
}

/// The message that `ParseIntError` displays for each kind.
pub open spec fn int_error_message(e: IntError) -> Seq<char> {
    match e {
        IntError::Empty => "cannot parse integer from empty string"@,
        IntError::InvalidDigit => "invalid digit found in string"@,
        IntError::PosOverflow => "number too large to fit in target type"@,
    }
}

/// The message of an integer error.
pub fn int_error_text(e: IntError) -> (r: String)
    ensures
        r@ == int_error_message(e),
{
    match e {
        IntError::Empty => String::from_str("cannot parse integer from empty string"),
        IntError::InvalidDigit => String::from_str("invalid digit found in string"),
        IntError::PosOverflow => String::from_str("number too large to fit in target type"),
    }
}

proof fn lemma_fold_digits_bound(d: Seq<char>, i: int, acc: nat)
    requires
        acc <= usize::MAX,
    ensures
        fold_digits(d, i, acc) matches Ok(n) ==> n <= usize::MAX,
    decreases d.len() - i,
{
    if 0 <= i < d.len() && is_digit(d[i]) && acc * 10 + digit_value(d[i]) <= usize::MAX {
        lemma_fold_digits_bound(d, i + 1, acc * 10 + digit_value(d[i]));
    }
}

/// Reads `s` as a `usize` (`usize::from_str`).
pub fn parse_usize_chars(s: &[char]) -> (r: Result<usize, IntError>)
    ensures
        match r {
            Ok(n) => parse_usize(s@) == Ok::<nat, IntError>(n as nat),
            Err(e) => parse_usize(s@) == Err::<nat, IntError>(e),
        },
{
    if s.len() == 0 {
        return Err(IntError::Empty);
    }
    if (s[0] == '+' || s[0] == '-') && s.len() == 1 {
        return Err(IntError::InvalidDigit);
    }
    let mut i: usize = if s[0] == '+' {
        1
    } else {
        0
    };
    let ghost start = i;
    let mut acc: usize = 0;
    while i < s.len()
        invariant
            i <= s.len(),
            parse_usize(s@) == fold_digits(s@, i as int, acc as nat),
        decreases s.len() - i,
    {
        let c = s[i];
        if !('0' <= c && c <= '9') {
            return Err(IntError::InvalidDigit);
        }
        let d = (c as u32 - '0' as u32) as usize;
        assert(d as nat == digit_value(c));
        if acc > (usize::MAX - d) / 10 {
            assert(acc * 10 + d > usize::MAX) by (nonlinear_arith)
                requires
                    acc > (usize::MAX - d) / 10,
                    d <= 9,
            ;
            return Err(IntError::PosOverflow);
        }
        assert(acc * 10 + d <= usize::MAX) by (nonlinear_arith)
            requires
                acc <= (usize::MAX - d) / 10,
                d <= 9,
        ;
        acc = acc * 10 + d;
        i = i + 1;
    }
    Ok(acc)
}

/// Whether `s[from..]` begins with `n` ASCII digits.
pub open spec fn digits_from(s: Seq<char>, from: int, n: int) -> bool {
    forall|k: int| from <= k < from + n ==> is_digit(#[trigger] s[k])
}

/// The number of consecutive ASCII digits in `s` from `from` on.
pub open spec fn digit_run(s: Seq<char>, from: int) -> int
    decreases s.len() - from,
{
    if from < 0 || from >= s.len() || !is_digit(s[from]) {
        0
    } else {
        1 + digit_run(s, from + 1)
    }
}

/// Whether `t` is an exponent: `e` or `E`, an optional sign, one or more
/// digits.
pub open spec fn is_exponent(t: Seq<char>) -> bool {
    &&& t.len() >= 2
    &&& (t[0] == 'e' || t[0] == 'E')
    &&& {
        let k: int = if t[1] == '+' || t[1] == '-' {
            2
        } else {
            1
        };
        k < t.len() && digit_run(t, k) == t.len() - k
    }
}

/// Whether `s` is a decimal number: digits with an optional point and
/// fraction, at least one digit in all, then an optional exponent.
pub open spec fn is_decimal_number(s: Seq<char>) -> bool {
    let a = digit_run(s, 0);
    let (digits, j) = if a < s.len() && s[a] == '.' {
        (a + digit_run(s, a + 1), a + 1 + digit_run(s, a + 1))
    } else {
        (a, a)
    };
    digits > 0 && (j == s.len() || is_exponent(s.subrange(j, s.len() as int)))
}

/// Whether `s`, with ASCII letters lowered, is `inf`, `infinity` or `nan`.
pub open spec fn is_special_float(s: Seq<char>) -> bool {
    let l = s.map_values(|c: char| ascii_lower(c));
    l == "inf"@ || l == "infinity"@ || l == "nan"@
}

/// `c` with an ASCII capital lowered.
pub open spec fn ascii_lower(c: char) -> char {
    if 'A' <= c <= 'Z' {
        ((c as u32) + 32) as char
    } else {
        c
    }
}

/// Whether `f64::from_str` accepts `s`: an optional sign, then `inf`,
/// `infinity`, `nan` (in any case) or a decimal number, as the grammar in
/// the documentation of `f64::from_str` states.
pub open spec fn is_float_literal(s: Seq<char>) -> bool {
    let body = if s.len() > 0 && (s[0] == '+' || s[0] == '-') {
        s.drop_first()
    } else {
        s
    };
    is_special_float(body) || is_decimal_number(body)
}

/// The message that `ParseFloatError` displays for `s` when `s` is not a
/// float literal.
pub open spec fn float_error_message(s: Seq<char>) -> Seq<char> {
    if s.len() == 0 {
        "cannot parse float from empty string"@
    } else {
        "invalid float literal"@
    }
}

/// The message for a text that is not a float literal.
pub fn float_error_text(s: &[char]) -> (r: String)
    ensures
        r@ == float_error_message(s@),
{
    if s.len() == 0 {
        String::from_str("cannot parse float from empty string")
    } else {
        String::from_str("invalid float literal")
    }
}

proof fn lemma_digit_run_bounds(s: Seq<char>, from: int)
    requires
        0 <= from <= s.len(),
    ensures
        0 <= digit_run(s, from) <= s.len() - from,
        digits_from(s, from, digit_run(s, from)),
        from + digit_run(s, from) < s.len() ==> !is_digit(s[from + digit_run(s, from)]),
    decreases s.len() - from,
{
    if from < s.len() && is_digit(s[from]) {
        lemma_digit_run_bounds(s, from + 1);
    }
}

/// Executable [`digit_run`].
fn count_digits(s: &[char], from: usize) -> (r: usize)
    requires
        from <= s.len(),
    ensures
        r as int == digit_run(s@, from as int),
        from + r <= s.len(),
{
    let mut j = from;
    proof {
        lemma_digit_run_bounds(s@, from as int);
    }
    while j < s.len() && '0' <= s[j] && s[j] <= '9'
        invariant
            from <= j <= s.len(),
            digit_run(s@, from as int) == (j - from) + digit_run(s@, j as int),
        decreases s.len() - j,
    {
        j = j + 1;
    }
    j - from
}

proof fn lemma_digit_run_shift(s: Seq<char>, j: int, from: int)
    requires
        0 <= j <= from <= s.len(),
    ensures
        digit_run(s.subrange(j, s.len() as int), from - j) == digit_run(s, from),
    decreases s.len() - from,
{
    let t = s.subrange(j, s.len() as int);
    if from < s.len() {
        assert(t[from - j] == s[from]);
        if is_digit(s[from]) {
            lemma_digit_run_shift(s, j, from + 1);
        }
    }
}

/// Whether `s[j..]` is an exponent.
fn exponent_at(s: &[char], j: usize) -> (b: bool)
    requires
        j <= s.len(),
    ensures
        b == is_exponent(s@.subrange(j as int, s.len() as int)),
{
    let ghost t = s@.subrange(j as int, s.len() as int);
    if s.len() - j < 2 {
        return false;
    }
    if !(s[j] == 'e' || s[j] == 'E') {
        return false;
    }
    let k: usize = if s[j + 1] == '+' || s[j + 1] == '-' {
        2
    } else {
        1
    };
    if j + k >= s.len() {
        return false;
    }
    let n = count_digits(s, j + k);
    proof {
        lemma_digit_run_shift(s@, j as int, (j + k) as int);
    }
    j + k + n == s.len()
}

/// Whether `s` is a decimal number ([`is_decimal_number`]).
fn decimal_number(s: &[char]) -> (b: bool)
    ensures
        b == is_decimal_number(s@),
{
    let a = count_digits(s, 0);
    let (digits, j) = if a < s.len() && s[a] == '.' {
        let f = count_digits(s, a + 1);
        (a + f, a + 1 + f)
    } else {
        (a, a)
    };
    digits > 0 && (j == s.len() || exponent_at(s, j))
}

/// Whether `s` equals `word` once its ASCII capitals are lowered.
fn equals_lowered(s: &[char], word: &[char]) -> (b: bool)
    ensures
        b == (s@.map_values(|c: char| ascii_lower(c)) == word@),
{
    let ghost l = s@.map_values(|c: char| ascii_lower(c));
    if s.len() != word.len() {
        assert(l.len() != word@.len());
        return false;
    }
    let mut i: usize = 0;
    while i < s.len()
        invariant
            s.len() == word.len(),
            i <= s.len(),
            l == s@.map_values(|c: char| ascii_lower(c)),
            forall|k: int| 0 <= k < i ==> l[k] == word@[k],
        decreases s.len() - i,
    {
        let c = s[i];
        let lc = if 'A' <= c && c <= 'Z' {
            ((c as u8) + 32) as char
        } else {
            c
        };
        assert(lc == l[i as int]);
        if lc != word[i] {
            return false;
        }
        i = i + 1;
    }
    assert(l =~= word@);
    true
}

/// Whether `f64::from_str` accepts `s` ([`is_float_literal`]).
pub fn float_literal(s: &[char]) -> (b: bool)
    ensures
        b == is_float_literal(s@),
{
    let start: usize = if s.len() > 0 && (s[0] == '+' || s[0] == '-') {
        1
    } else {
        0
    };
    let body = crate::text::copy_range(s, start, s.len());
    assert(start == 1 ==> body@ =~= s@.drop_first());
    assert(start == 0 ==> body@ =~= s@);
    special(body.as_slice()) || decimal_number(body.as_slice())
}

/// Whether `body` is `inf`, `infinity` or `nan` in any case
/// ([`is_special_float`]).
fn special(body: &[char]) -> (b: bool)
    ensures
        b == is_special_float(body@),
{
    let inf = ['i', 'n', 'f'];
    let infinity = ['i', 'n', 'f', 'i', 'n', 'i', 't', 'y'];
    let nan = ['n', 'a', 'n'];
    proof {
        reveal_strlit("inf");
        reveal_strlit("infinity");
        reveal_strlit("nan");
        assert(inf@ =~= "inf"@);
        assert(infinity@ =~= "infinity"@);
        assert(nan@ =~= "nan"@);
    }
    equals_lowered(body, &inf) || equals_lowered(body, &infinity) || equals_lowered(body, &nan)
}

/// `10` to the power `n`.
pub open spec fn pow10(n: nat) -> nat
    decreases n,
{
    if n == 0 {
        1
    } else {
        10 * pow10((n - 1) as nat)
    }
}

/// The value of the decimal digits `s`.
pub open spec fn digits_value(s: Seq<char>) -> nat
    decreases s.len(),
{
    if s.len() == 0 {
        0
    } else {
        digits_value(s.drop_last()) * 10 + digit_value(s.last())
    }
}

/// A float literal without its sign.
pub open spec fn unsigned_part(s: Seq<char>) -> Seq<char> {
    if s.len() > 0 && (s[0] == '+' || s[0] == '-') {
        s.drop_first()
    } else {
        s
    }
}

/// Whether a float literal starts with `-`.
pub open spec fn is_negative(s: Seq<char>) -> bool {
    s.len() > 0 && s[0] == '-'
}

/// Whether the decimal number `b` has a decimal point.
pub open spec fn has_point(b: Seq<char>) -> bool {
    digit_run(b, 0) < b.len() && b[digit_run(b, 0)] == '.'
}

/// The number of digits after the decimal point of `b`.
pub open spec fn fraction_len(b: Seq<char>) -> int {
    if has_point(b) {
        digit_run(b, digit_run(b, 0) + 1)
    } else {
        0
    }
}

/// Where the exponent of the decimal number `b` starts (`b.len()` when
/// it has none).
pub open spec fn exponent_start(b: Seq<char>) -> int {
    if has_point(b) {
        digit_run(b, 0) + 1 + fraction_len(b)
    } else {
        digit_run(b, 0)
    }
}

/// The digits of the decimal number `b`, without its point.
pub open spec fn mantissa(b: Seq<char>) -> Seq<char> {
    let a = digit_run(b, 0);
    if has_point(b) {
        b.subrange(0, a) + b.subrange(a + 1, a + 1 + fraction_len(b))
    } else {
        b.subrange(0, a)
    }
}

/// The exponent of the decimal number `b` (0 when it has none).
pub open spec fn exponent_of(b: Seq<char>) -> int {
    let e = exponent_start(b);
    if e >= b.len() {
        0
    } else {
        let t = b.subrange(e, b.len() as int);
        let k: int = if t[1] == '+' || t[1] == '-' {
            2
        } else {
            1
        };
        let v = digits_value(t.subrange(k, t.len() as int)) as int;
        if t[1] == '-' {
            -v
        } else {
            v
        }
    }
}

/// The decimal number `b` is `digits_value(mantissa(b))` times ten to this
/// power.
pub open spec fn scale_of(b: Seq<char>) -> int {
    exponent_of(b) - fraction_len(b)
}

/// Whether `m` times ten to the power `k` is at least `n`.
pub open spec fn scaled_at_least(m: nat, k: int, n: nat) -> bool {
    if k >= 0 {
        m * pow10(k as nat) >= n
    } else {
        m >= n * pow10((-k) as nat)
    }
}

/// Whether `m` times ten to the power `k` is at most `n`.
pub open spec fn scaled_at_most(m: nat, k: int, n: nat) -> bool {
    if k >= 0 {
        m * pow10(k as nat) <= n
    } else {
        m <= n * pow10((-k) as nat)
    }
}

/// Whether the float literal `s` stands for a number of at least
/// `n / 10^f`: `inf`, `nan` and negative numbers never do.
pub open spec fn denotes_at_least(s: Seq<char>, n: nat, f: nat) -> bool {
    let b = unsigned_part(s);
    &&& is_float_literal(s)
    &&& !is_special_float(b)
    &&& !is_negative(s)
    &&& scaled_at_least(digits_value(mantissa(b)), scale_of(b) + f, n)
}

/// Whether the float literal `s` stands for a number of at most
/// `n / 10^f`: `inf` and `nan` never do, negative numbers always.
pub open spec fn denotes_at_most(s: Seq<char>, n: nat, f: nat) -> bool {
    let b = unsigned_part(s);
    &&& is_float_literal(s)
    &&& !is_special_float(b)
    &&& (is_negative(s) || scaled_at_most(digits_value(mantissa(b)), scale_of(b) + f, n))
}

/// The whole part of `m` times ten to the power `k`.
pub open spec fn floor_of(m: nat, k: int) -> nat {
    if k >= 0 {
        m * pow10(k as nat)
    } else {
        m / pow10((-k) as nat)
    }
}

/// Whether `m` times ten to the power `k` has a fractional part.
pub open spec fn has_fraction(m: nat, k: int) -> bool {
    k < 0 && m % pow10((-k) as nat) != 0
}

/// `x`, at most `c`.
pub open spec fn capped(x: nat, c: nat) -> nat {
    if x < c {
        x
    } else {
        c
    }
}

proof fn lemma_pow10_positive(n: nat)
    ensures
        pow10(n) >= 1,
    decreases n,
{
    if n > 0 {
        lemma_pow10_positive((n - 1) as nat);
    }
}

proof fn lemma_pow10_monotonic(a: nat, b: nat)
    requires
        a <= b,
    ensures
        pow10(a) <= pow10(b),
    decreases b,
{
    if a < b {
        lemma_pow10_monotonic(a, (b - 1) as nat);
        lemma_pow10_positive((b - 1) as nat);
    }
}

proof fn lemma_digits_value_bound(s: Seq<char>)
    requires
        forall|i: int| 0 <= i < s.len() ==> is_digit(#[trigger] s[i]),
    ensures
        digits_value(s) < pow10(s.len()),
    decreases s.len(),
{
    if s.len() > 0 {
        let t = s.drop_last();
        assert forall|i: int| 0 <= i < t.len() implies is_digit(#[trigger] t[i]) by {
            assert(t[i] == s[i]);
        }
        lemma_digits_value_bound(t);
        assert(is_digit(s.last()));
        let v = digits_value(t);
        let p = pow10(t.len());
        let d = digit_value(s.last());
        assert(v * 10 + d < 10 * p) by (nonlinear_arith)
            requires
                v < p,
                d <= 9,
        ;
    }
}

proof fn lemma_digits_value_split(s: Seq<char>, p: int)
    requires
        0 <= p <= s.len(),
    ensures
        digits_value(s) == digits_value(s.subrange(0, p)) * pow10((s.len() - p) as nat)
            + digits_value(s.subrange(p, s.len() as int)),
    decreases s.len(),
{
    if p == s.len() {
        assert(s.subrange(0, p) =~= s);
        assert(s.subrange(p, s.len() as int) =~= Seq::<char>::empty());
        assert(pow10(0) == 1);
        assert(digits_value(s) * 1 == digits_value(s));
    } else {
        let t = s.drop_last();
        lemma_digits_value_split(t, p);
        assert(t.subrange(0, p) =~= s.subrange(0, p));
        let tail = s.subrange(p, s.len() as int);
        let ttail = t.subrange(p, t.len() as int);
        assert(tail.drop_last() =~= ttail);
        assert(tail.last() == s.last());
        let a = digits_value(s.subrange(0, p));
        let q = pow10((t.len() - p) as nat);
        let r = digits_value(ttail);
        let d = digit_value(s.last());
        assert(digits_value(t) == a * q + r);
        assert(digits_value(s) == digits_value(t) * 10 + d);
        assert(digits_value(tail) == r * 10 + d);
        assert(((s.len() - p) as nat - 1) as nat == (t.len() - p) as nat);
        assert(pow10((s.len() - p) as nat) == 10 * q);
        assert((a * q + r) * 10 + d == a * (10 * q) + (r * 10 + d)) by (nonlinear_arith);
    }
}

proof fn lemma_cap_step(v: nat, d: nat, c: nat)
    ensures
        capped(capped(v, c) * 10 + d, c) == capped(v * 10 + d, c),
{
    if v >= c {
        assert(v * 10 + d >= c) by (nonlinear_arith)
            requires
                v >= c,
        ;
        assert(c * 10 + d >= c) by (nonlinear_arith);
    }
}

/// `min(digits_value(d[from..to]), cap)`, for digits.
fn capped_value(d: &[char], from: usize, to: usize, cap: u128) -> (r: u128)
    requires
        from <= to <= d.len(),
        cap <= 100_000_000_000_000_000_000u128,
        forall|i: int| from <= i < to ==> is_digit(#[trigger] d@[i]),
    ensures
        r as nat == capped(digits_value(d@.subrange(from as int, to as int)), cap as nat),
{
    let mut acc: u128 = 0;
    let mut i = from;
    assert(d@.subrange(from as int, from as int) =~= Seq::<char>::empty());
    while i < to
        invariant
            from <= i <= to <= d.len(),
            cap <= 100_000_000_000_000_000_000u128,
            forall|k: int| from <= k < to ==> is_digit(#[trigger] d@[k]),
            acc as nat == capped(digits_value(d@.subrange(from as int, i as int)), cap as nat),
        decreases to - i,
    {
        let c = d[i];
        assert(is_digit(c));
        let dv = (c as u32 - '0' as u32) as u128;
        let ghost prev = d@.subrange(from as int, i as int);
        let ghost next = d@.subrange(from as int, i + 1);
        assert(next.drop_last() =~= prev);
        assert(next.last() == c);
        proof {
            lemma_cap_step(digits_value(prev), dv as nat, cap as nat);
        }
        let x = acc * 10 + dv;
        acc = if x < cap {
            x
        } else {
            cap
        };
        i = i + 1;
    }
    acc
}

/// Whether `digits_value(d[from..to])` is not zero, for digits.
fn nonzero_value(d: &[char], from: usize, to: usize) -> (r: bool)
    requires
        from <= to <= d.len(),
        forall|i: int| from <= i < to ==> is_digit(#[trigger] d@[i]),
    ensures
        r == (digits_value(d@.subrange(from as int, to as int)) != 0),
{
    let mut found = false;
    let mut i = from;
    assert(d@.subrange(from as int, from as int) =~= Seq::<char>::empty());
    while i < to
        invariant
            from <= i <= to <= d.len(),
            forall|k: int| from <= k < to ==> is_digit(#[trigger] d@[k]),
            found == (digits_value(d@.subrange(from as int, i as int)) != 0),
        decreases to - i,
    {
        let ghost prev = d@.subrange(from as int, i as int);
        let ghost next = d@.subrange(from as int, i + 1);
        assert(next.drop_last() =~= prev);
        assert(next.last() == d@[i as int]);
        if d[i] != '0' {
            found = true;
        }
        i = i + 1;
    }
    found
}

proof fn lemma_floor_by_split(m_digits: Seq<char>, p: int)
    requires
        0 <= p <= m_digits.len(),
        forall|i: int| 0 <= i < m_digits.len() ==> is_digit(#[trigger] m_digits[i]),
    ensures
        floor_of(digits_value(m_digits), p - m_digits.len()) == digits_value(m_digits.subrange(0, p)),
        has_fraction(digits_value(m_digits), p - m_digits.len()) == (p < m_digits.len()
            && digits_value(m_digits.subrange(p, m_digits.len() as int)) != 0),
{
    let n = m_digits.len();
    lemma_digits_value_split(m_digits, p);
    let tail = m_digits.subrange(p, n as int);
    assert forall|i: int| 0 <= i < tail.len() implies is_digit(#[trigger] tail[i]) by {
        assert(tail[i] == m_digits[p + i]);
    }
    lemma_digits_value_bound(tail);
    let j = (n - p) as nat;
    lemma_pow10_positive(j);
    if p < n {
        vstd::arithmetic::div_mod::lemma_fundamental_div_mod_converse(
            digits_value(m_digits) as int,
            pow10(j) as int,
            digits_value(m_digits.subrange(0, p)) as int,
            digits_value(tail) as int,
        );
    } else {
        assert(pow10(0) == 1);
        assert(m_digits.subrange(0, p) =~= m_digits);
        assert(digits_value(m_digits) * 1 == digits_value(m_digits));
    }
}

proof fn lemma_floor_below(m_digits: Seq<char>, k: int)
    requires
        k < -(m_digits.len() as int),
        forall|i: int| 0 <= i < m_digits.len() ==> is_digit(#[trigger] m_digits[i]),
    ensures
        floor_of(digits_value(m_digits), k) == 0,
        has_fraction(digits_value(m_digits), k) == (digits_value(m_digits) != 0),
{
    let j = (-k) as nat;
    lemma_digits_value_bound(m_digits);
    lemma_pow10_monotonic(m_digits.len(), j);
    vstd::arithmetic::div_mod::lemma_fundamental_div_mod_converse(
        digits_value(m_digits) as int,
        pow10(j) as int,
        0,
        digits_value(m_digits) as int,
    );
}

proof fn lemma_floor_compare(m: nat, k: int, n: nat)
    ensures
        scaled_at_least(m, k, n) == (floor_of(m, k) >= n),
        scaled_at_most(m, k, n) == (floor_of(m, k) < n || (floor_of(m, k) == n && !has_fraction(
            m,
            k,
        ))),
{
    if k < 0 {
        let j = (-k) as nat;
        let p = pow10(j);
        lemma_pow10_positive(j);
        vstd::arithmetic::div_mod::lemma_fundamental_div_mod(m as int, p as int);
        let q = (m as int) / (p as int);
        let r = (m as int) % (p as int);
        assert(0 <= r < p);
        assert(q >= 0) by (nonlinear_arith)
            requires
                m == p * q + r,
                0 <= r < p,
                m >= 0,
        ;
        assert((m >= n * p) == (q >= n)) by (nonlinear_arith)
            requires
                m == p * q + r,
                0 <= r < p,
                p >= 1,
        ;
        assert((m <= n * p) == (q < n || (q == n && r == 0))) by (nonlinear_arith)
            requires
                m == p * q + r,
                0 <= r < p,
                p >= 1,
        ;
    }
}

/// The digits of the decimal number `b` without its point, and the
/// number of digits before the point.
fn mantissa_digits(b: &[char]) -> (r: (Vec<char>, usize))
    requires
        is_decimal_number(b@),
    ensures
        r.0@ == mantissa(b@),
        r.1 as int == digit_run(b@, 0),
        forall|i: int| 0 <= i < r.0@.len() ==> is_digit(#[trigger] r.0@[i]),
{
    let ghost bv = b@;
    let len = b.len();
    let a = count_digits(b, 0);
    proof {
        lemma_digit_run_bounds(bv, 0);
    }
    let point = a < len && b[a] == '.';
    let int_part = crate::text::copy_range(b, 0, a);
    if point {
        proof {
            lemma_digit_run_bounds(bv, a + 1);
        }
        let f = count_digits(b, a + 1);
        let frac_part = crate::text::copy_range(b, a + 1, a + 1 + f);
        let mant = crate::text::concat_chars(int_part.as_slice(), frac_part.as_slice());
        assert forall|i: int| 0 <= i < mant@.len() implies is_digit(#[trigger] mant@[i]) by {
            if i < a {
                assert(mant@[i] == bv[i]);
            } else {
                assert(mant@[i] == bv[i + 1]);
            }
        }
        (mant, a)
    } else {
        assert forall|i: int| 0 <= i < int_part@.len() implies is_digit(#[trigger] int_part@[i]) by {
            assert(int_part@[i] == bv[i]);
        }
        (int_part, a)
    }
}

/// Whether the exponent of the decimal number `b` is negative, and its
/// magnitude capped at `10^20`.
fn exponent_parts(b: &[char]) -> (r: (bool, u128))
    requires
        is_decimal_number(b@),
    ensures
        r.1 as nat == capped(
            (if exponent_of(b@) < 0 {
                -exponent_of(b@)
            } else {
                exponent_of(b@)
            }) as nat,
            100_000_000_000_000_000_000,
        ),
        r.0 ==> exponent_of(b@) <= 0,
        !r.0 ==> exponent_of(b@) >= 0,
{
    let ghost bv = b@;
    let len = b.len();
    let a = count_digits(b, 0);
    proof {
        lemma_digit_run_bounds(bv, 0);
    }
    let point = a < len && b[a] == '.';
    let e: usize = if point {
        proof {
            lemma_digit_run_bounds(bv, a + 1);
        }
        a + 1 + count_digits(b, a + 1)
    } else {
        a
    };
    assert(e as int == exponent_start(bv));
    if e >= len {
        return (false, 0);
    }
    let ghost t = bv.subrange(e as int, len as int);
    assert(is_exponent(t));
    let sign = b[e + 1];
    let k: usize = if sign == '+' || sign == '-' {
        2
    } else {
        1
    };
    proof {
        lemma_digit_run_bounds(t, k as int);
        assert forall|i: int| e + k <= i < len implies is_digit(#[trigger] bv[i]) by {
            assert(bv[i] == t[i - e]);
        }
        assert(t.subrange(k as int, t.len() as int) =~= bv.subrange(e + k, len as int));
    }
    (sign == '-', capped_value(b, e + k, len, 100_000_000_000_000_000_000u128))
}

/// `j` zeros.
pub open spec fn zeros(j: nat) -> Seq<char> {
    Seq::new(j, |i: int| '0')
}

/// The digits of the whole part of `digits_value(m)` times ten to the
/// power `p - m.len()`: the first `p` digits of `m`, followed by zeros
/// where `p` passes its end.
pub open spec fn floor_digits(m: Seq<char>, p: int) -> Seq<char> {
    if p <= 0 {
        Seq::empty()
    } else if p <= m.len() {
        m.subrange(0, p)
    } else {
        m + zeros((p - m.len()) as nat)
    }
}

/// Whether every character of `s` is a decimal digit.
pub open spec fn all_digits(s: Seq<char>) -> bool {
    forall|i: int| 0 <= i < s.len() ==> is_digit(#[trigger] s[i])
}

/// Whether `s` is a number written in decimal digits without a leading zero.
pub open spec fn plain_numeral(s: Seq<char>) -> bool {
    s.len() > 0 && all_digits(s) && s[0] != '0'
}

proof fn lemma_zeros_value(m: Seq<char>, j: nat)
    ensures
        digits_value(m + zeros(j)) == digits_value(m) * pow10(j),
    decreases j,
{
    if j == 0 {
        assert(m + zeros(0) =~= m);
        assert(pow10(0) == 1);
        assert(digits_value(m) * 1 == digits_value(m));
    } else {
        lemma_zeros_value(m, (j - 1) as nat);
        let t = m + zeros(j);
        assert(t.drop_last() =~= m + zeros((j - 1) as nat));
        assert(t.last() == '0');
        assert(digit_value('0') == 0);
        assert(digits_value(t) == digits_value(m + zeros((j - 1) as nat)) * 10);
        assert(pow10(j) == 10 * pow10((j - 1) as nat));
        assert(digits_value(m) * pow10((j - 1) as nat) * 10 == digits_value(m) * (10 * pow10(
            (j - 1) as nat,
        ))) by (nonlinear_arith);
    }
}

proof fn lemma_zero_digits(s: Seq<char>)
    requires
        forall|i: int| 0 <= i < s.len() ==> #[trigger] s[i] == '0',
    ensures
        digits_value(s) == 0,
    decreases s.len(),
{
    if s.len() > 0 {
        let t = s.drop_last();
        assert forall|i: int| 0 <= i < t.len() implies #[trigger] t[i] == '0' by {
            assert(t[i] == s[i]);
        }
        lemma_zero_digits(t);
        assert(s.last() == '0');
    }
}

proof fn lemma_floor_digits(m: Seq<char>, p: int)
    requires
        all_digits(m),
    ensures
        all_digits(floor_digits(m, p)),
        floor_digits(m, p).len() == (if p <= 0 { 0 } else { p }),
        digits_value(floor_digits(m, p)) == floor_of(digits_value(m), p - m.len()),
{
    let n = m.len();
    let f = floor_digits(m, p);
    assert forall|i: int| 0 <= i < f.len() implies is_digit(#[trigger] f[i]) by {
        if i < n {
            assert(f[i] == m[i]);
        } else {
            assert(f[i] == '0');
        }
    }
    if p < 0 {
        lemma_floor_below(m, p - n);
    } else if p <= n {
        lemma_floor_by_split(m, p);
    } else {
        lemma_zeros_value(m, (p - n) as nat);
    }
}

proof fn lemma_leading_zeros(s: Seq<char>, z: int)
    requires
        0 <= z <= s.len(),
        forall|i: int| 0 <= i < z ==> #[trigger] s[i] == '0',
    ensures
        digits_value(s) == digits_value(s.subrange(z, s.len() as int)),
{
    lemma_digits_value_split(s, z);
    let h = s.subrange(0, z);
    assert forall|i: int| 0 <= i < h.len() implies #[trigger] h[i] == '0' by {
        assert(h[i] == s[i]);
    }
    lemma_zero_digits(h);
}

proof fn lemma_numeral_lower(s: Seq<char>)
    requires
        plain_numeral(s),
    ensures
        digits_value(s) >= pow10((s.len() - 1) as nat),
{
    lemma_digits_value_split(s, 1);
    let h = s.subrange(0, 1);
    assert(h.drop_last() =~= Seq::<char>::empty());
    assert(h.last() == s[0]);
    assert(is_digit(s[0]));
    assert(digit_value(s[0]) >= 1);
    let p = pow10((s.len() - 1) as nat);
    lemma_pow10_positive((s.len() - 1) as nat);
    assert(digits_value(h) * p >= p) by (nonlinear_arith)
        requires
            digits_value(h) >= 1,
            p >= 1,
    ;
}

proof fn lemma_longer_numeral(u: Seq<char>, v: Seq<char>)
    requires
        plain_numeral(u),
        all_digits(v),
        u.len() > v.len(),
    ensures
        digits_value(u) > digits_value(v),
{
    lemma_numeral_lower(u);
    lemma_digits_value_bound(v);
    lemma_pow10_monotonic(v.len(), (u.len() - 1) as nat);
}

proof fn lemma_first_difference(u: Seq<char>, v: Seq<char>, i: int)
    requires
        all_digits(u),
        all_digits(v),
        u.len() == v.len(),
        0 <= i < u.len(),
        forall|k: int| 0 <= k < i ==> u[k] == v[k],
        u[i] < v[i],
    ensures
        digits_value(u) < digits_value(v),
{
    let n = u.len() as int;
    lemma_digits_value_split(u, i);
    lemma_digits_value_split(v, i);
    assert(u.subrange(0, i) =~= v.subrange(0, i));
    let ut = u.subrange(i, n);
    let vt = v.subrange(i, n);
    assert(all_digits(ut)) by {
        assert forall|k: int| 0 <= k < ut.len() implies is_digit(#[trigger] ut[k]) by {
            assert(ut[k] == u[i + k]);
        }
    }
    assert(all_digits(vt)) by {
        assert forall|k: int| 0 <= k < vt.len() implies is_digit(#[trigger] vt[k]) by {
            assert(vt[k] == v[i + k]);
        }
    }
    lemma_digits_value_split(ut, 1);
    lemma_digits_value_split(vt, 1);
    let uh = ut.subrange(0, 1);
    let vh = vt.subrange(0, 1);
    assert(uh.drop_last() =~= Seq::<char>::empty());
    assert(vh.drop_last() =~= Seq::<char>::empty());
    assert(uh.last() == u[i]);
    assert(vh.last() == v[i]);
    let ur = ut.subrange(1, ut.len() as int);
    assert(all_digits(ur)) by {
        assert forall|k: int| 0 <= k < ur.len() implies is_digit(#[trigger] ur[k]) by {
            assert(ur[k] == u[i + 1 + k]);
        }
    }
    lemma_digits_value_bound(ur);
    let q = pow10((n - i - 1) as nat);
    let du = digit_value(u[i]);
    let dv = digit_value(v[i]);
    assert(uh.len() == 1 && vh.len() == 1);
    assert(digits_value(uh.drop_last()) == 0);
    assert(digits_value(vh.drop_last()) == 0);
    assert(digits_value(uh) == du);
    assert(digits_value(vh) == dv);
    assert(ut.len() == n - i && vt.len() == n - i);
    assert(digits_value(ut) == du * q + digits_value(ur));
    assert(digits_value(vt) >= dv * q);
    assert(du < dv);
    assert(du * q + digits_value(ur) < dv * q) by (nonlinear_arith)
        requires
            du < dv,
            digits_value(ur) < q,
    ;
    let a = digits_value(u.subrange(0, i));
    let big = pow10((n - i) as nat);
    assert(digits_value(ut) < digits_value(vt));
    assert(a * big + digits_value(ut) < a * big + digits_value(vt));
}

/// Compares `digits_value(floor_digits(m, p))` with `digits_value(d)`:
/// negative, zero or positive as the first is smaller, equal or larger.
fn compare_floor(m: &[char], p: i128, d: &[char]) -> (r: i8)
    requires
        all_digits(m@),
        plain_numeral(d@),
        -1_000_000_000_000_000_000_000_000i128 <= p <= 1_000_000_000_000_000_000_000_000i128,
    ensures
        (r < 0) == (digits_value(floor_digits(m@, p as int)) < digits_value(d@)),
        (r == 0) == (digits_value(floor_digits(m@, p as int)) == digits_value(d@)),
{
    let ghost f = floor_digits(m@, p as int);
    proof {
        lemma_floor_digits(m@, p as int);
        lemma_numeral_lower(d@);
        lemma_pow10_positive((d@.len() - 1) as nat);
    }
    let n = m.len();
    let top: usize = if p <= 0 {
        0
    } else if p <= n as i128 {
        p as usize
    } else {
        n
    };
    let mut z: usize = 0;
    while z < top && m[z] == '0'
        invariant
            z <= top <= n == m@.len(),
            forall|i: int| 0 <= i < z ==> #[trigger] m@[i] == '0',
        decreases top - z,
    {
        z = z + 1;
    }
    if z == top {
        proof {
            assert forall|i: int| 0 <= i < f.len() implies #[trigger] f[i] == '0' by {
                if i < n {
                    assert(f[i] == m@[i]);
                }
            }
            lemma_zero_digits(f);
        }
        return -1;
    }
    let ghost u = f.subrange(z as int, f.len() as int);
    proof {
        assert forall|i: int| 0 <= i < z implies #[trigger] f[i] == '0' by {
            assert(f[i] == m@[i]);
        }
        lemma_leading_zeros(f, z as int);
        assert(u[0] == m@[z as int]);
        assert(plain_numeral(u)) by {
            assert forall|i: int| 0 <= i < u.len() implies is_digit(#[trigger] u[i]) by {
                assert(u[i] == f[z + i]);
            }
        }
    }
    let sig: i128 = p - z as i128;
    assert(sig == u.len());
    if sig > d.len() as i128 {
        proof {
            lemma_longer_numeral(u, d@);
        }
        return 1;
    }
    if sig < d.len() as i128 {
        proof {
            lemma_longer_numeral(d@, u);
        }
        return -1;
    }
    let len = d.len();
    let mut i: usize = 0;
    while i < len
        invariant
            len == d@.len() == u.len(),
            z < top <= n == m@.len(),
            plain_numeral(u),
            plain_numeral(d@),
            forall|k: int| 0 <= k < u.len() ==> #[trigger] u[k] == (if z + k < n {
                m@[z + k]
            } else {
                '0'
            }),
            i <= len,
            forall|k: int| 0 <= k < i ==> u[k] == d@[k],
            digits_value(floor_digits(m@, p as int)) == digits_value(u),
        decreases len - i,
    {
        let c = if i < n - z {
            m[z + i]
        } else {
            '0'
        };
        assert(c == u[i as int]);
        if c < d[i] {
            proof {
                lemma_first_difference(u, d@, i as int);
            }
            return -1;
        }
        if c > d[i] {
            proof {
                lemma_first_difference(d@, u, i as int);
            }
            return 1;
        }
        i = i + 1;
    }
    proof {
        assert(u =~= d@);
    }
    0
}

proof fn lemma_scaled_monotonic(m: nat, j1: nat, j2: nat)
    requires
        j1 <= j2,
    ensures
        m * pow10(j1) <= m * pow10(j2),
{
    lemma_pow10_monotonic(j1, j2);
    assert(m * pow10(j1) <= m * pow10(j2)) by (nonlinear_arith)
        requires
            pow10(j1) <= pow10(j2),
    ;
}

/// Compares the decimal number `b` times `10^f` with the number `d`: its
/// whole part against `d` (negative, zero or positive as it is smaller,
/// equal or larger), and whether it has a fractional part.
fn compare_scaled(b: &[char], f: u32, d: &[char]) -> (r: (i8, bool))
    requires
        is_decimal_number(b@),
        plain_numeral(d@),
    ensures
        (r.0 < 0) == (floor_of(digits_value(mantissa(b@)), scale_of(b@) + f) < digits_value(d@)),
        (r.0 == 0) == (floor_of(digits_value(mantissa(b@)), scale_of(b@) + f) == digits_value(d@)),
        r.1 == has_fraction(digits_value(mantissa(b@)), scale_of(b@) + f),
{
    let ghost bv = b@;
    let (mant, a) = mantissa_digits(b);
    let n = mant.len();
    let (negative_exponent, exp_value) = exponent_parts(b);
    let bound: u128 = 100_000_000_000_000_000_000u128;
    let ghost m = digits_value(mantissa(bv));
    let ghost k_true = scale_of(bv) + f;
    let ghost p_true = a + exponent_of(bv) + f;
    proof {
        lemma_digit_run_bounds(bv, 0);
        if has_point(bv) {
            lemma_digit_run_bounds(bv, a + 1);
        }
        assert(n == a + fraction_len(bv));
        assert(k_true == p_true - n);
        lemma_floor_digits(mant@, p_true);
    }
    let p: i128 = if negative_exponent {
        a as i128 - exp_value as i128 + f as i128
    } else {
        a as i128 + exp_value as i128 + f as i128
    };
    let c = compare_floor(mant.as_slice(), p, d);
    proof {
        lemma_floor_digits(mant@, p as int);
        if exp_value < bound {
            assert(p as int == p_true);
        } else if negative_exponent {
            assert(p < 0);
            assert(p_true < 0);
            lemma_floor_below(mant@, k_true);
            lemma_floor_below(mant@, p - n);
        } else {
            let j1 = (p - n) as nat;
            let j2 = (p_true - n) as nat;
            assert(j1 <= j2);
            assert(floor_of(m, p - n) == m * pow10(j1));
            assert(floor_of(m, k_true) == m * pow10(j2));
            if m == 0 {
                assert(m * pow10(j1) == 0 && m * pow10(j2) == 0) by (nonlinear_arith)
                    requires
                        m == 0,
                ;
            } else {
                assert(d@.len() == d.len());
                assert(n == mant@.len());
                lemma_scaled_monotonic(m, j1, j2);
                lemma_digits_value_bound(d@);
                lemma_pow10_monotonic(d@.len(), j1);
                assert(m * pow10(j1) >= pow10(j1)) by (nonlinear_arith)
                    requires
                        m >= 1,
                ;
            }
        }
    }
    let frac = if p >= n as i128 {
        false
    } else if p >= 0 {
        let q = p as usize;
        proof {
            lemma_floor_by_split(mant@, q as int);
        }
        nonzero_value(mant.as_slice(), q, n)
    } else {
        proof {
            lemma_floor_below(mant@, p - n);
            assert(mant@.subrange(0, n as int) =~= mant@);
        }
        nonzero_value(mant.as_slice(), 0, n)
    };
    (c, frac)
}

/// Whether the float literal `s` stands for a number of at least
/// `digits_value(d) / 10^f` ([`denotes_at_least`]).
pub fn at_least(s: &[char], d: &[char], f: u32) -> (r: bool)
    requires
        is_float_literal(s@),
        plain_numeral(d@),
    ensures
        r == denotes_at_least(s@, digits_value(d@), f as nat),
{
    let negative = s.len() > 0 && s[0] == '-';
    let start: usize = if s.len() > 0 && (s[0] == '+' || s[0] == '-') {
        1
    } else {
        0
    };
    let body = crate::text::copy_range(s, start, s.len());
    assert(body@ =~= unsigned_part(s@));
    if special(body.as_slice()) || negative {
        return false;
    }
    let (c, _) = compare_scaled(body.as_slice(), f, d);
    proof {
        lemma_floor_compare(digits_value(mantissa(body@)), scale_of(body@) + f, digits_value(d@));
    }
    c >= 0
}

/// Whether the float literal `s` stands for a number of at most
/// `digits_value(d) / 10^f` ([`denotes_at_most`]).
pub fn at_most(s: &[char], d: &[char], f: u32) -> (r: bool)
    requires
        is_float_literal(s@),
        plain_numeral(d@),
    ensures
        r == denotes_at_most(s@, digits_value(d@), f as nat),
{
    let negative = s.len() > 0 && s[0] == '-';
    let start: usize = if s.len() > 0 && (s[0] == '+' || s[0] == '-') {
        1
    } else {
        0
    };
    let body = crate::text::copy_range(s, start, s.len());
    assert(body@ =~= unsigned_part(s@));
    if special(body.as_slice()) {
        return false;
    }
    if negative {
        return true;
    }
    let (c, frac) = compare_scaled(body.as_slice(), f, d);
    proof {
        lemma_floor_compare(digits_value(mantissa(body@)), scale_of(body@) + f, digits_value(d@));
    }
    c < 0 || (c == 0 && !frac)
}


/// `2^1024 - 2^970`, the least number that an `f64` rounds to infinity
/// (halfway between `f64::MAX` and `2^1024`; the tie goes to the even
/// neighbour, which is infinity).
pub open spec fn f64_overflow() -> Seq<char> {
    "179769313486231580793728971405303415079934132710037826936173778980444968292764750946649017977587207096330286416692887910946555547851940402630657488671505820681908902000708383676273854845817711531764475730270069855571366959622842914819860834936475292719074168444365510704342711559699508093042880177904174497792"@
}

/// Whether the float literal `s` reads as a finite `f64`: not `inf` or
/// `nan`, and of a magnitude below [`f64_overflow`].
pub open spec fn reads_finite(s: Seq<char>) -> bool {
    let b = unsigned_part(s);
    &&& is_float_literal(s)
    &&& !is_special_float(b)
    &&& !scaled_at_least(digits_value(mantissa(b)), scale_of(b), digits_value(f64_overflow()))
}

/// Whether the float literal `s` reads as a finite `f64` ([`reads_finite`]).
pub fn finite_f64(s: &[char]) -> (r: bool)
    requires
        is_float_literal(s@),
    ensures
        r == reads_finite(s@),
{
    let start: usize = if s.len() > 0 && (s[0] == '+' || s[0] == '-') {
        1
    } else {
        0
    };
    let body = crate::text::copy_range(s, start, s.len());
    assert(body@ =~= unsigned_part(s@));
    if special(body.as_slice()) {
        return false;
    }
    let limit = crate::text::chars_of("179769313486231580793728971405303415079934132710037826936173778980444968292764750946649017977587207096330286416692887910946555547851940402630657488671505820681908902000708383676273854845817711531764475730270069855571366959622842914819860834936475292719074168444365510704342711559699508093042880177904174497792");
    proof {
        reveal_strlit("179769313486231580793728971405303415079934132710037826936173778980444968292764750946649017977587207096330286416692887910946555547851940402630657488671505820681908902000708383676273854845817711531764475730270069855571366959622842914819860834936475292719074168444365510704342711559699508093042880177904174497792");
        assert(plain_numeral(limit@));
    }
    let (c, _) = compare_scaled(body.as_slice(), 0, limit.as_slice());
    proof {
        lemma_floor_compare(digits_value(mantissa(body@)), scale_of(body@), digits_value(limit@));
    }
    c < 0
}

} // verus!
