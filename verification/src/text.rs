//! Character-sequence primitives shared by the parsers and renderers.
//!
//! Strings are reasoned about through their view, a `Seq<char>`. Whitespace
//! is stated as the Unicode `White_Space` list; the other classifications and
//! the case mappings of the standard library are named results, as their
//! tables take pages to state, and every caller's contract speaks of them by
//! name.
use vstd::prelude::*;

verus! {

// ---------------------------------------------------------------------------
// Unicode facts from std, by name
// ---------------------------------------------------------------------------
/// The characters with the Unicode `White_Space` property, which
/// `char::is_whitespace` answers `true` for: tab to carriage return, space,
/// next line, no-break space, ogham space mark, en quad to hair space, line
/// and paragraph separators, narrow no-break space, medium mathematical
/// space, ideographic space.
pub open spec fn unicode_whitespace(c: char) -> bool {
    let n = c as u32;
    ||| 0x09 <= n <= 0x0D
    ||| n == 0x20
    ||| n == 0x85
    ||| n == 0xA0
    ||| n == 0x1680
    ||| 0x2000 <= n <= 0x200A
    ||| n == 0x2028
    ||| n == 0x2029
    ||| n == 0x202F
    ||| n == 0x205F
    ||| n == 0x3000
}

/// What `char::is_alphanumeric` answers for `c`.
pub uninterp spec fn unicode_alphanumeric(c: char) -> bool;

/// What `char::is_uppercase` answers for `c`.
pub uninterp spec fn unicode_uppercase(c: char) -> bool;

/// What `str::to_lowercase` returns for a string with these characters.
pub uninterp spec fn unicode_lowercase(s: Seq<char>) -> Seq<char>;

/// What `str::to_uppercase` returns for a string with these characters.
pub uninterp spec fn unicode_uppercase_str(s: Seq<char>) -> Seq<char>;

/// `char::is_whitespace`: whether `c` has the Unicode `White_Space` property,
/// stated as the list of those characters.
#[verifier::external_body]
pub(crate) fn is_whitespace(c: char) -> (r: bool)
    ensures
        r == unicode_whitespace(c),
{
    c.is_whitespace()
}

/// `char::is_alphanumeric`: Unicode `Alphabetic` or `Numeric`. The contract
/// only names the answer.
#[verifier::external_body]
pub(crate) fn is_alphanumeric(c: char) -> (r: bool)
    ensures
        r == unicode_alphanumeric(c),
{
    c.is_alphanumeric()
}

/// `char::is_uppercase`: Unicode `Uppercase` property. The contract only
/// names the answer.
#[verifier::external_body]
pub(crate) fn is_uppercase(c: char) -> (r: bool)
    ensures
        r == unicode_uppercase(c),
{
    c.is_uppercase()
}

/// `str::to_lowercase`: the Unicode lowercase mapping of a whole string. The
/// contract only names the result.
#[verifier::external_body]
pub(crate) fn to_lowercase(s: &str) -> (r: String)
    ensures
        r@ == unicode_lowercase(s@),
{
    s.to_lowercase()
}

/// `str::to_uppercase`: the Unicode uppercase mapping of a whole string. The
/// contract only names the result.
#[verifier::external_body]
pub(crate) fn to_uppercase(s: &str) -> (r: String)
    ensures
        r@ == unicode_uppercase_str(s@),
{
    s.to_uppercase()
}

/// `String::push`: appends one character.
#[verifier::external_body]
pub(crate) fn push_char(s: &mut String, c: char)
    ensures
        final(s)@ == old(s)@.push(c),
{
    s.push(c);
}

// ---------------------------------------------------------------------------
// Specifications over character sequences
// ---------------------------------------------------------------------------
/// ASCII letters and digits (`char::is_ascii_alphanumeric`).
pub open spec fn ascii_alnum(c: char) -> bool {
    ('0' <= c && c <= '9') || ('a' <= c && c <= 'z') || ('A' <= c && c <= 'Z')
}

/// ASCII digits (`char::is_ascii_digit`).
pub open spec fn ascii_digit(c: char) -> bool {
    '0' <= c && c <= '9'
}

/// `p` occurs in `s` starting at index `i`.
pub open spec fn occurs_at(s: Seq<char>, p: Seq<char>, i: int) -> bool {
    0 <= i && i + p.len() <= s.len() && s.subrange(i, i + p.len()) == p
}

/// `p` occurs somewhere in `s`.
pub open spec fn has_sub(s: Seq<char>, p: Seq<char>) -> bool {
    exists|i: int| #[trigger] occurs_at(s, p, i)
}

/// `p` is a prefix of `s`.
pub open spec fn starts_with(s: Seq<char>, p: Seq<char>) -> bool {
    p.len() <= s.len() && s.take(p.len() as int) == p
}

/// `p` is a suffix of `s`.
pub open spec fn ends_with(s: Seq<char>, p: Seq<char>) -> bool {
    p.len() <= s.len() && s.skip(s.len() - p.len()) == p
}

/// The first index at which `p` occurs in `s`, at or after `from`.
pub open spec fn first_at(s: Seq<char>, p: Seq<char>, from: int, i: int) -> bool {
    from <= i && occurs_at(s, p, i) && forall|j: int| from <= j < i ==> !#[trigger] occurs_at(s, p, j)
}

/// Number of leading whitespace characters.
pub open spec fn lead_ws(s: Seq<char>) -> nat
    decreases s.len(),
{
    if s.len() > 0 && unicode_whitespace(s[0]) {
        1 + lead_ws(s.drop_first())
    } else {
        0
    }
}

/// Number of trailing whitespace characters.
pub open spec fn trail_ws(s: Seq<char>) -> nat
    decreases s.len(),
{
    if s.len() > 0 && unicode_whitespace(s.last()) {
        1 + trail_ws(s.drop_last())
    } else {
        0
    }
}

/// `str::trim`: `s` without leading and trailing whitespace.
pub open spec fn trim(s: Seq<char>) -> Seq<char> {
    let a = lead_ws(s);
    if a == s.len() {
        Seq::empty()
    } else {
        s.subrange(a as int, s.len() - trail_ws(s))
    }
}

/// `str::trim_start_matches(c)`: drops every leading `c`.
pub open spec fn trim_start_char(s: Seq<char>, c: char) -> Seq<char>
    decreases s.len(),
{
    if s.len() > 0 && s[0] == c {
        trim_start_char(s.drop_first(), c)
    } else {
        s
    }
}

/// `str::trim_end_matches(c)`: drops every trailing `c`.
pub open spec fn trim_end_char(s: Seq<char>, c: char) -> Seq<char>
    decreases s.len(),
{
    if s.len() > 0 && s.last() == c {
        trim_end_char(s.drop_last(), c)
    } else {
        s
    }
}

/// `str::trim_end_matches(p)` for a nonempty pattern: drops every trailing
/// copy of `p`.
pub open spec fn trim_end_seq(s: Seq<char>, p: Seq<char>) -> Seq<char>
    decreases s.len(),
{
    if p.len() > 0 && ends_with(s, p) {
        trim_end_seq(s.take(s.len() - p.len()), p)
    } else {
        s
    }
}

/// `s` with every `from` replaced by the sequence `to`.
pub open spec fn replace_char(s: Seq<char>, from: char, to: Seq<char>) -> Seq<char>
    decreases s.len(),
{
    if s.len() == 0 {
        Seq::empty()
    } else {
        replace_char(s.drop_last(), from, to) + (if s.last() == from {
            to
        } else {
            seq![s.last()]
        })
    }
}

/// Decimal digits of a natural number, most significant first.
pub open spec fn decimal(n: nat) -> Seq<char>
    decreases n,
{
    if n < 10 {
        seq![digit_char(n)]
    } else {
        decimal(n / 10) + seq![digit_char(n % 10)]
    }
}

/// The ASCII digit for `d < 10`.
pub open spec fn digit_char(d: nat) -> char {
    if d == 0 { '0' }
    else if d == 1 { '1' }
    else if d == 2 { '2' }
    else if d == 3 { '3' }
    else if d == 4 { '4' }
    else if d == 5 { '5' }
    else if d == 6 { '6' }
    else if d == 7 { '7' }
    else if d == 8 { '8' }
    else { '9' }
}

/// Value of a run of ASCII digits.
pub open spec fn digits_value(s: Seq<char>) -> nat
    decreases s.len(),
{
    if s.len() == 0 {
        0
    } else {
        digits_value(s.drop_last()) * 10 + ((s.last() as int - '0' as int) as nat)
    }
}

/// All characters of `s` are ASCII digits.
pub open spec fn all_digits(s: Seq<char>) -> bool {
    forall|i: int| 0 <= i < s.len() ==> ascii_digit(#[trigger] s[i])
}

/// What `str::parse::<u64>` accepts: an optional `+`, then one or more ASCII
/// digits, with a value that fits.
pub open spec fn parse_u64_spec(s: Seq<char>) -> Option<u64> {
    let body = if s.len() > 0 && s[0] == '+' { s.drop_first() } else { s };
    if body.len() > 0 && all_digits(body) && digits_value(body) <= u64::MAX {
        Some(digits_value(body) as u64)
    } else {
        None
    }
}

/// What `str::parse::<i64>` accepts: an optional sign, then one or more ASCII
/// digits, with a value in range.
pub open spec fn parse_i64_spec(s: Seq<char>) -> Option<i64> {
    let neg = s.len() > 0 && s[0] == '-';
    let body = if s.len() > 0 && (s[0] == '+' || s[0] == '-') { s.drop_first() } else { s };
    if body.len() > 0 && all_digits(body) {
        let v: int = if neg { -(digits_value(body) as int) } else { digits_value(body) as int };
        if i64::MIN <= v && v <= i64::MAX {
            Some(v as i64)
        } else {
            None
        }
    } else {
        None
    }
}

/// Lexicographic "less than" by code point, as `Ord for str` compares (UTF-8
/// byte order agrees with code point order).
pub open spec fn seq_lt(a: Seq<char>, b: Seq<char>) -> bool
    decreases a.len(),
{
    if a.len() == 0 {
        b.len() > 0
    } else if b.len() == 0 {
        false
    } else if a[0] != b[0] {
        a[0] < b[0]
    } else {
        seq_lt(a.drop_first(), b.drop_first())
    }
}

// ---------------------------------------------------------------------------
// Executable helpers
// ---------------------------------------------------------------------------
/// The characters of a string slice, in order.
pub fn chars_of(s: &str) -> (r: Vec<char>)
    ensures
        r@ == s@,
{
    let mut out: Vec<char> = Vec::new();
    for c in it: s.chars()
        invariant
            out@ == it.seq().take(it.index() as int),
            it.seq() == s@,
    {
        out.push(c);
    }
    out
}

/// A string holding exactly the characters `v`.
pub fn string_of(v: &[char]) -> (r: String)
    ensures
        r@ == v@,
{
    let mut out = String::new();
    let mut i: usize = 0;
    while i < v.len()
        invariant
            i <= v@.len(),
            out@ == v@.take(i as int),
        decreases v@.len() - i,
    {
        push_char(&mut out, v[i]);
        i += 1;
        assert(out@ =~= v@.take(i as int));
    }
    assert(v@.take(i as int) =~= v@);
    out
}

/// Appends the characters of `t` to `s`.
pub fn push_str(s: &mut String, t: &str)
    ensures
        final(s)@ == old(s)@ + t@,
{
    let cs = chars_of(t);
    let mut i: usize = 0;
    while i < cs.len()
        invariant
            i <= cs@.len(),
            cs@ == t@,
            s@ == old(s)@ + cs@.take(i as int),
        decreases cs@.len() - i,
    {
        push_char(s, cs[i]);
        i += 1;
        assert(s@ =~= old(s)@ + cs@.take(i as int));
    }
    assert(cs@.take(i as int) =~= cs@);
}

/// Whether two strings hold the same characters.
pub fn str_eq(a: &str, b: &str) -> (r: bool)
    ensures
        r == (a@ == b@),
{
    let x = chars_of(a);
    let y = chars_of(b);
    seq_eq(&x, &y)
}

/// Whether two character slices are equal.
pub fn seq_eq(x: &[char], y: &[char]) -> (r: bool)
    ensures
        r == (x@ == y@),
{
    if x.len() != y.len() {
        return false;
    }
    let mut i: usize = 0;
    while i < x.len()
        invariant
            i <= x@.len() == y@.len(),
            x@.take(i as int) == y@.take(i as int),
        decreases x@.len() - i,
    {
        if x[i] != y[i] {
            return false;
        }
        i += 1;
        assert(x@.take(i as int) =~= y@.take(i as int)) by {
            assert forall|k: int| 0 <= k < i implies x@.take(i as int)[k] == y@.take(i as int)[k] by {
                if k < i - 1 {
                    assert(x@.take(i - 1)[k] == y@.take(i - 1)[k]);
                }
            }
        }
    }
    assert(x@ =~= x@.take(i as int));
    assert(y@ =~= y@.take(i as int));
    true
}

/// Whether `p` occurs in `s` at index `i`.
pub fn occurs_at_exec(s: &[char], p: &[char], i: usize) -> (r: bool)
    ensures
        r == occurs_at(s@, p@, i as int),
{
    if i > s.len() || p.len() > s.len() - i {
        return false;
    }
    let mut k: usize = 0;
    let n = s.len();
    while k < p.len()
        invariant
            n == s@.len(),
            i + p@.len() <= s@.len(),
            k <= p@.len(),
            forall|j: int| 0 <= j < k ==> s@[i + j] == p@[j],
        decreases p@.len() - k,
    {
        let idx = i + k;
        if s[idx] != p[k] {
            assert(s@.subrange(i as int, i + p@.len())[k as int] != p@[k as int]);
            return false;
        }
        k += 1;
    }
    assert(s@.subrange(i as int, i + p@.len()) =~= p@);
    true
}

/// The first occurrence of `p` in `s` at or after `from`.
pub fn find_from(s: &[char], p: &[char], from: usize) -> (r: Option<usize>)
    ensures
        match r {
            Some(i) => first_at(s@, p@, from as int, i as int),
            None => forall|j: int| from <= j ==> !#[trigger] occurs_at(s@, p@, j),
        },
{
    let mut i = from;
    while i <= s.len()
        invariant
            from <= i,
            forall|j: int| from <= j < i ==> !#[trigger] occurs_at(s@, p@, j),
        decreases s@.len() + 1 - i,
    {
        if occurs_at_exec(s, p, i) {
            return Some(i);
        }
        if i == s.len() {
            proof {
                assert forall|j: int| from <= j implies !#[trigger] occurs_at(s@, p@, j) by {
                    if j > i && occurs_at(s@, p@, j) {
                    }
                }
            }
            return None;
        }
        i += 1;
    }
    None
}

/// Whether `p` occurs anywhere in `s`.
pub fn contains_seq(s: &[char], p: &[char]) -> (r: bool)
    ensures
        r == has_sub(s@, p@),
{
    match find_from(s, p, 0) {
        Some(i) => true,
        None => {
            assert forall|j: int| !#[trigger] occurs_at(s@, p@, j) by {
                if j >= 0 {
                }
            }
            false
        },
    }
}

/// Whether `p` is a prefix of `s`.
pub fn starts_with_exec(s: &[char], p: &[char]) -> (r: bool)
    ensures
        r == starts_with(s@, p@),
{
    let r = occurs_at_exec(s, p, 0);
    proof {
        if starts_with(s@, p@) {
            assert(s@.subrange(0, p@.len() as int) =~= s@.take(p@.len() as int));
        }
        if r {
            assert(s@.subrange(0, p@.len() as int) =~= s@.take(p@.len() as int));
        }
    }
    r
}

/// Whether `p` is a suffix of `s`.
pub fn ends_with_exec(s: &[char], p: &[char]) -> (r: bool)
    ensures
        r == ends_with(s@, p@),
{
    if p.len() > s.len() {
        return false;
    }
    let r = occurs_at_exec(s, p, s.len() - p.len());
    proof {
        assert(s@.subrange(s@.len() - p@.len(), s@.len() as int) =~= s@.skip(s@.len() - p@.len()));
    }
    r
}

/// Whether `c` occurs in `s`.
pub fn contains_char(s: &[char], c: char) -> (r: bool)
    ensures
        r == s@.contains(c),
{
    let mut i: usize = 0;
    while i < s.len()
        invariant
            i <= s@.len(),
            forall|j: int| 0 <= j < i ==> s@[j] != c,
        decreases s@.len() - i,
    {
        if s[i] == c {
            return true;
        }
        i += 1;
    }
    false
}

/// Index of the first `c` in `s`.
pub fn find_char(s: &[char], c: char) -> (r: Option<usize>)
    ensures
        match r {
            Some(i) => i < s@.len() && s@[i as int] == c && forall|j: int| 0 <= j < i ==> s@[j] != c,
            None => !s@.contains(c),
        },
{
    let mut i: usize = 0;
    while i < s.len()
        invariant
            i <= s@.len(),
            forall|j: int| 0 <= j < i ==> s@[j] != c,
        decreases s@.len() - i,
    {
        if s[i] == c {
            return Some(i);
        }
        i += 1;
    }
    None
}

/// Index of the last `c` in `s`.
pub fn rfind_char(s: &[char], c: char) -> (r: Option<usize>)
    ensures
        match r {
            Some(i) => i < s@.len() && s@[i as int] == c && forall|j: int| i < j < s@.len() ==> s@[j] != c,
            None => !s@.contains(c),
        },
{
    let mut i: usize = s.len();
    while i > 0
        invariant
            i <= s@.len(),
            forall|j: int| i <= j < s@.len() ==> s@[j] != c,
        decreases i,
    {
        if s[i - 1] == c {
            return Some(i - 1);
        }
        i -= 1;
    }
    None
}

proof fn lemma_lead_ws_bound(s: Seq<char>)
    ensures
        lead_ws(s) <= s.len(),
        forall|j: int| 0 <= j < lead_ws(s) ==> unicode_whitespace(#[trigger] s[j]),
        lead_ws(s) < s.len() ==> !unicode_whitespace(s[lead_ws(s) as int]),
    decreases s.len(),
{
    if s.len() > 0 && unicode_whitespace(s[0]) {
        lemma_lead_ws_bound(s.drop_first());
        assert forall|j: int| 0 <= j < lead_ws(s) implies unicode_whitespace(#[trigger] s[j]) by {
            if j > 0 {
                assert(s[j] == s.drop_first()[j - 1]);
            }
        }
    }
}

proof fn lemma_trail_ws_bound(s: Seq<char>)
    ensures
        trail_ws(s) <= s.len(),
        forall|j: int| s.len() - trail_ws(s) <= j < s.len() ==> unicode_whitespace(#[trigger] s[j]),
        trail_ws(s) < s.len() ==> !unicode_whitespace(s[s.len() - 1 - trail_ws(s)]),
    decreases s.len(),
{
    if s.len() > 0 && unicode_whitespace(s.last()) {
        lemma_trail_ws_bound(s.drop_last());
        assert forall|j: int| s.len() - trail_ws(s) <= j < s.len() implies unicode_whitespace(#[trigger] s[j]) by {
            if j < s.len() - 1 {
                assert(s[j] == s.drop_last()[j]);
            }
        }
    }
}

/// Number of leading whitespace characters of `s`.
pub fn count_lead_ws(s: &[char]) -> (r: usize)
    ensures
        r == lead_ws(s@),
{
    let mut i: usize = 0;
    assert(s@.skip(0) =~= s@);
    while i < s.len() && is_whitespace(s[i])
        invariant
            i <= s@.len(),
            lead_ws(s@) == i + lead_ws(s@.skip(i as int)),
        decreases s@.len() - i,
    {
        assert(s@.skip(i as int).drop_first() =~= s@.skip(i + 1));
        i += 1;
    }
    i
}

/// Number of trailing whitespace characters of `s`.
pub fn count_trail_ws(s: &[char]) -> (r: usize)
    ensures
        r == trail_ws(s@),
{
    let mut i: usize = s.len();
    assert(s@.take(s@.len() as int) =~= s@);
    while i > 0 && is_whitespace(s[i - 1])
        invariant
            i <= s@.len(),
            trail_ws(s@) == (s@.len() - i) + trail_ws(s@.take(i as int)),
        decreases i,
    {
        assert(s@.take(i as int).drop_last() =~= s@.take(i - 1));
        i -= 1;
    }
    i = s.len() - i;
    assert(s@.take(s@.len() as int) =~= s@);
    i
}

/// The bounds `[a, b)` of `trim(s)` within `s`.
pub fn trim_bounds(s: &[char]) -> (r: (usize, usize))
    ensures
        r.0 <= r.1 <= s@.len(),
        s@.subrange(r.0 as int, r.1 as int) == trim(s@),
{
    let a = count_lead_ws(s);
    proof {
        lemma_lead_ws_bound(s@);
        lemma_trail_ws_bound(s@);
    }
    if a == s.len() {
        return (a, a);
    }
    let t = count_trail_ws(s);
    proof {
        // the first non-space char is not in the trailing run
        assert(!unicode_whitespace(s@[a as int]));
        assert(s@.len() - t > a);
    }
    (a, s.len() - t)
}

/// `str::trim` on a character slice.
pub fn trim_chars(s: &[char]) -> (r: Vec<char>)
    ensures
        r@ == trim(s@),
{
    let (a, b) = trim_bounds(s);
    slice_range(s, a, b)
}

/// A copy of `s[from..to]`.
pub fn slice_range(s: &[char], from: usize, to: usize) -> (r: Vec<char>)
    requires
        from <= to <= s@.len(),
    ensures
        r@ == s@.subrange(from as int, to as int),
{
    let mut out: Vec<char> = Vec::new();
    let mut i = from;
    while i < to
        invariant
            from <= i <= to <= s@.len(),
            out@ == s@.subrange(from as int, i as int),
        decreases to - i,
    {
        out.push(s[i]);
        i += 1;
        assert(out@ =~= s@.subrange(from as int, i as int));
    }
    out
}

/// `str::trim_start_matches(c)`.
pub fn trim_start_char_exec(s: &[char], c: char) -> (r: Vec<char>)
    ensures
        r@ == trim_start_char(s@, c),
{
    let mut i: usize = 0;
    assert(s@.skip(0) =~= s@);
    while i < s.len() && s[i] == c
        invariant
            i <= s@.len(),
            trim_start_char(s@, c) == trim_start_char(s@.skip(i as int), c),
        decreases s@.len() - i,
    {
        assert(s@.skip(i as int).drop_first() =~= s@.skip(i + 1));
        i += 1;
    }
    assert(s@.skip(i as int) =~= s@.subrange(i as int, s@.len() as int));
    slice_range(s, i, s.len())
}

/// `str::trim_end_matches(c)`.
pub fn trim_end_char_exec(s: &[char], c: char) -> (r: Vec<char>)
    ensures
        r@ == trim_end_char(s@, c),
{
    let mut i: usize = s.len();
    assert(s@.take(s@.len() as int) =~= s@);
    while i > 0 && s[i - 1] == c
        invariant
            i <= s@.len(),
            trim_end_char(s@, c) == trim_end_char(s@.take(i as int), c),
        decreases i,
    {
        assert(s@.take(i as int).drop_last() =~= s@.take(i - 1));
        i -= 1;
    }
    assert(s@.take(i as int) =~= s@.subrange(0, i as int));
    slice_range(s, 0, i)
}

/// `str::trim_end_matches(p)` for a nonempty pattern `p`.
pub fn trim_end_seq_exec(s: &[char], p: &[char]) -> (r: Vec<char>)
    ensures
        r@ == trim_end_seq(s@, p@),
{
    let mut i: usize = s.len();
    assert(s@.take(s@.len() as int) =~= s@);
    loop
        invariant
            i <= s@.len(),
            trim_end_seq(s@, p@) == trim_end_seq(s@.take(i as int), p@),
        decreases i,
    {
        let t = slice_range(s, 0, i);
        assert(t@ =~= s@.take(i as int));
        if p.len() > 0 && ends_with_exec(&t, p) {
            assert(s@.take(i as int).take(i - p@.len()) =~= s@.take(i - p@.len()));
            i = i - p.len();
        } else {
            return t;
        }
    }
}

/// Decimal text of an unsigned integer (`u64::to_string`).
pub fn u64_to_string(n: u64) -> (r: String)
    ensures
        r@ == decimal(n as nat),
{
    let mut digits: Vec<char> = Vec::new();
    let mut m = n;
    // digits are produced least significant first
    while m >= 10
        invariant
            decimal(n as nat) == decimal(m as nat) + digits@.reverse(),
        decreases m,
    {
        let c = digit_of(m % 10);
        let ghost old_digits = digits@;
        digits.push(c);
        assert(digits@.reverse() =~= seq![c] + old_digits.reverse());
        assert(decimal(m as nat) == decimal((m / 10) as nat) + seq![c]);
        m = m / 10;
    }
    let c = digit_of(m);
    let ghost old_digits = digits@;
    digits.push(c);
    assert(decimal(m as nat) =~= seq![c]);
    assert(digits@.reverse() =~= seq![c] + old_digits.reverse());
    assert(decimal(n as nat) =~= digits@.reverse());
    let mut out = String::new();
    let mut k = digits.len();
    while k > 0
        invariant
            k <= digits@.len(),
            out@ == digits@.reverse().take((digits@.len() - k) as int),
        decreases k,
    {
        push_char(&mut out, digits[k - 1]);
        k -= 1;
        assert(out@ =~= digits@.reverse().take((digits@.len() - k) as int));
    }
    assert(digits@.reverse().take(digits@.len() as int) =~= digits@.reverse());
    out
}

/// Decimal rendering of a signed integer (`Display` for `i32` and `i64`).
pub open spec fn signed_decimal(n: int) -> Seq<char> {
    if n < 0 {
        seq!['-'] + decimal((-n) as nat)
    } else {
        decimal(n as nat)
    }
}

/// Decimal text of a signed integer (`i64::to_string`).
pub fn i64_to_string(n: i64) -> (r: String)
    ensures
        r@ == signed_decimal(n as int),
{
    if n < 0 {
        let mag: u64 = if n == i64::MIN { 9223372036854775808u64 } else { (-n) as u64 };
        let mut out = String::new();
        push_char(&mut out, '-');
        let d = u64_to_string(mag);
        push_str(&mut out, d.as_str());
        assert(out@ =~= seq!['-'] + decimal((-(n as int)) as nat));
        out
    } else {
        u64_to_string(n as u64)
    }
}

/// The ASCII digit for `d < 10`.
pub fn digit_of(d: u64) -> (c: char)
    requires
        d < 10,
    ensures
        c == digit_char(d as nat),
{
    if d == 0 { '0' }
    else if d == 1 { '1' }
    else if d == 2 { '2' }
    else if d == 3 { '3' }
    else if d == 4 { '4' }
    else if d == 5 { '5' }
    else if d == 6 { '6' }
    else if d == 7 { '7' }
    else if d == 8 { '8' }
    else { '9' }
}

/// Lowercase a string held as characters (`str::to_lowercase`).
pub fn lower_chars(s: &[char]) -> (r: Vec<char>)
    ensures
        r@ == unicode_lowercase(s@),
{
    let t = string_of(s);
    let l = to_lowercase(t.as_str());
    chars_of(l.as_str())
}

/// Lexicographic comparison by code point: `a < b`.
pub fn seq_lt_exec(a: &[char], b: &[char]) -> (r: bool)
    ensures
        r == seq_lt(a@, b@),
{
    let mut i: usize = 0;
    assert(a@.skip(0) =~= a@);
    assert(b@.skip(0) =~= b@);
    while i < a.len() && i < b.len()
        invariant
            i <= a@.len(),
            i <= b@.len(),
            seq_lt(a@, b@) == seq_lt(a@.skip(i as int), b@.skip(i as int)),
        decreases a@.len() - i,
    {
        if a[i] != b[i] {
            return a[i] < b[i];
        }
        assert(a@.skip(i as int).drop_first() =~= a@.skip(i + 1));
        assert(b@.skip(i as int).drop_first() =~= b@.skip(i + 1));
        i += 1;
    }
    i == a.len() && i < b.len()
}

/// The index of the first entry of `names` equal to `name`.
pub fn position_of(names: &Vec<Vec<char>>, name: &Vec<char>) -> (r: Option<usize>)
    ensures
        match r {
            Some(k) => k < names@.len() && names@[k as int]@ == name@ && forall|k2: int|
                0 <= k2 < k ==> (#[trigger] names@[k2])@ != name@,
            None => forall|k2: int| 0 <= k2 < names@.len() ==> (#[trigger] names@[k2])@ != name@,
        },
{
    let mut k: usize = 0;
    while k < names.len()
        invariant
            k <= names@.len(),
            forall|k2: int| 0 <= k2 < k ==> (#[trigger] names@[k2])@ != name@,
        decreases names@.len() - k,
    {
        if seq_eq(&names[k], name) {
            return Some(k);
        }
        k += 1;
    }
    None
}


// ---------------------------------------------------------------------------
// Splitting
// ---------------------------------------------------------------------------
/// `str::splitn(n, sep)`: the pieces of `s` between separators, with at most
/// `n` pieces (the last piece keeps any further separators). Always at least
/// one piece.
pub open spec fn splitn_on(s: Seq<char>, sep: char, n: nat) -> Seq<Seq<char>>
    decreases s.len(),
{
    if s.len() == 0 {
        seq![Seq::empty()]
    } else {
        let p = splitn_on(s.drop_last(), sep, n);
        if s.last() == sep && p.len() < n {
            p.push(Seq::empty())
        } else {
            p.update(p.len() - 1, p.last().push(s.last()))
        }
    }
}

/// `str::split(sep)`: all the pieces of `s` between separators.
pub open spec fn split_on(s: Seq<char>, sep: char) -> Seq<Seq<char>> {
    splitn_on(s, sep, s.len() + 1)
}

proof fn lemma_splitn_len(s: Seq<char>, sep: char, n: nat)
    requires
        n >= 1,
    ensures
        1 <= splitn_on(s, sep, n).len() <= n,
        splitn_on(s, sep, n).len() <= s.len() + 1,
    decreases s.len(),
{
    if s.len() > 0 {
        lemma_splitn_len(s.drop_last(), sep, n);
    }
}

/// The piece limit `limit` stands for: itself, or one more than the length
/// of `s` (so no limit at all).
pub open spec fn piece_limit(s: Seq<char>, limit: Option<usize>) -> nat {
    match limit {
        Some(n) => n as nat,
        None => s.len() + 1,
    }
}

/// The pieces of `s` between `sep` characters, at most `limit` of them.
fn split_core(s: &[char], sep: char, limit: Option<usize>) -> (r: Vec<Vec<char>>)
    requires
        piece_limit(s@, limit) >= 1,
    ensures
        r@.map_values(|p: Vec<char>| p@) == splitn_on(s@, sep, piece_limit(s@, limit)),
{
    let ghost n = piece_limit(s@, limit);
    let mut r: Vec<Vec<char>> = Vec::new();
    let mut cur: Vec<char> = Vec::new();
    let mut i: usize = 0;
    proof {
        assert(s@.take(0) =~= Seq::<char>::empty());
    }
    while i < s.len()
        invariant
            i <= s@.len(),
            n == piece_limit(s@, limit),
            n >= 1,
            r@.map_values(|p: Vec<char>| p@).push(cur@) == splitn_on(s@.take(i as int), sep, n),
        decreases s@.len() - i,
    {
        let ghost pre = s@.take(i as int);
        let ghost rv = r@.map_values(|p: Vec<char>| p@);
        proof {
            assert(s@.take(i + 1).drop_last() =~= pre);
            assert(s@.take(i + 1).last() == s@[i as int]);
            lemma_splitn_len(pre, sep, n);
        }
        let room = match limit {
            Some(m) => r.len() + 1 < m,
            None => true,
        };
        if s[i] == sep && room {
            let done = cur;
            r.push(done);
            cur = Vec::new();
            proof {
                assert(r@.map_values(|p: Vec<char>| p@) =~= rv.push(done@));
                assert(r@.map_values(|p: Vec<char>| p@).push(cur@) =~= rv.push(done@).push(Seq::<char>::empty()));
            }
        } else {
            let ghost c0 = cur@;
            cur.push(s[i]);
            proof {
                assert(r@.map_values(|p: Vec<char>| p@).push(cur@) =~= rv.push(c0).update(rv.len() as int, c0.push(s@[i as int])));
            }
        }
        i += 1;
    }
    proof {
        assert(s@.take(i as int) =~= s@);
    }
    let ghost rv = r@.map_values(|p: Vec<char>| p@);
    r.push(cur);
    proof {
        assert(r@.map_values(|p: Vec<char>| p@) =~= rv.push(cur@));
    }
    r
}

/// The pieces of `s` between `sep` characters, at most `n` of them.
pub fn splitn_exec(s: &[char], sep: char, n: usize) -> (r: Vec<Vec<char>>)
    requires
        n >= 1,
    ensures
        r@.map_values(|p: Vec<char>| p@) == splitn_on(s@, sep, n as nat),
{
    split_core(s, sep, Some(n))
}

/// The pieces of `s` between `sep` characters.
pub fn split_exec(s: &[char], sep: char) -> (r: Vec<Vec<char>>)
    ensures
        r@.map_values(|p: Vec<char>| p@) == split_on(s@, sep),
        r@.len() >= 1,
{
    let r = split_core(s, sep, None);
    proof {
        lemma_splitn_len(s@, sep, s@.len() + 1);
    }
    r
}

/// A line without the `\r` of a `\r\n` ending.
pub open spec fn strip_cr(l: Seq<char>) -> Seq<char> {
    if l.len() > 0 && l.last() == '\r' {
        l.drop_last()
    } else {
        l
    }
}

/// `str::lines`: the lines of `s`, split at `\n` or `\r\n`; a final line
/// ending adds no empty line.
pub open spec fn lines_spec(s: Seq<char>) -> Seq<Seq<char>> {
    let p = split_on(s, '\n');
    let body = p.drop_last().map_values(|l: Seq<char>| strip_cr(l));
    if p.last().len() == 0 {
        body
    } else {
        body.push(p.last())
    }
}

/// The lines of `s`.
pub fn lines_exec(s: &[char]) -> (r: Vec<Vec<char>>)
    ensures
        r@.map_values(|p: Vec<char>| p@) == lines_spec(s@),
{
    let pieces = split_exec(s, '\n');
    let ghost pv = pieces@.map_values(|p: Vec<char>| p@);
    proof {
        lemma_splitn_len(s@, '\n', s@.len() + 1);
    }
    let last = pieces.len() - 1;
    let mut r: Vec<Vec<char>> = Vec::new();
    let mut k: usize = 0;
    while k < last
        invariant
            k <= last,
            last + 1 == pieces@.len(),
            pv == pieces@.map_values(|p: Vec<char>| p@),
            r@.map_values(|p: Vec<char>| p@) == pv.drop_last().take(k as int).map_values(|l: Seq<char>| strip_cr(l)),
        decreases last - k,
    {
        let ghost r0 = r@.map_values(|p: Vec<char>| p@);
        let l = &pieces[k];
        let line = if l.len() > 0 && l[l.len() - 1] == '\r' {
            slice_range(l, 0, l.len() - 1)
        } else {
            slice_range(l, 0, l.len())
        };
        proof {
            assert(pv[k as int] == l@);
            assert(line@ =~= strip_cr(l@));
        }
        r.push(line);
        proof {
            assert(r@.map_values(|p: Vec<char>| p@) =~= r0.push(strip_cr(pv[k as int])));
            assert(pv.drop_last().take(k + 1).map_values(|l: Seq<char>| strip_cr(l)) =~= pv.drop_last().take(k as int).map_values(
                |l: Seq<char>| strip_cr(l),
            ).push(strip_cr(pv[k as int])));
        }
        k += 1;
    }
    proof {
        assert(pv.drop_last().take(k as int) =~= pv.drop_last());
        assert(pv.last() == pieces@[last as int]@);
    }
    if pieces[last].len() > 0 {
        let ghost r0 = r@.map_values(|p: Vec<char>| p@);
        let l = slice_range(&pieces[last], 0, pieces[last].len());
        r.push(l);
        proof {
            assert(l@ =~= pieces@[last as int]@);
            assert(r@.map_values(|p: Vec<char>| p@) =~= r0.push(pv.last()));
        }
    }
    r
}

/// The value of the ASCII digits `s` (empty gives 0), if it is at most `max`.
fn digits_upto(s: &[char], max: u64) -> (r: Option<u64>)
    requires
        all_digits(s@),
    ensures
        match r {
            Some(v) => v == digits_value(s@) && v <= max,
            None => digits_value(s@) > max,
        },
{
    let mut acc: u64 = 0;
    let mut i: usize = 0;
    while i < s.len()
        invariant
            i <= s@.len(),
            all_digits(s@),
            acc == digits_value(s@.take(i as int)),
            acc <= max,
        decreases s@.len() - i,
    {
        proof {
            assert(s@.take(i + 1).drop_last() =~= s@.take(i as int));
            assert(ascii_digit(s@[i as int]));
        }
        let d: u64 = (s[i] as u32 - '0' as u32) as u64;
        if d > max || acc > (max - d) / 10 {
            proof {
                lemma_digits_value_mono(s@, i + 1);
                if d <= max {
                    assert(acc * 10 + d > max) by (nonlinear_arith)
                        requires
                            acc > (max - d) / 10,
                            max >= d,
                    ;
                }
            }
            return None;
        }
        proof {
            assert(acc * 10 + d <= max) by (nonlinear_arith)
                requires
                    acc <= (max - d) / 10,
                    max >= d,
            ;
        }
        acc = acc * 10 + d;
        i += 1;
    }
    assert(s@.take(i as int) =~= s@);
    Some(acc)
}

proof fn lemma_digits_value_mono(s: Seq<char>, i: int)
    requires
        0 <= i <= s.len(),
    ensures
        digits_value(s.take(i)) <= digits_value(s),
    decreases s.len() - i,
{
    if i < s.len() {
        lemma_digits_value_mono(s, i + 1);
        assert(s.take(i + 1).drop_last() =~= s.take(i));
        assert(digits_value(s.take(i + 1)) == digits_value(s.take(i)) * 10 + ((s.take(i + 1).last() as int - '0' as int) as nat));
        assert(digits_value(s.take(i)) <= digits_value(s.take(i)) * 10) by (nonlinear_arith);
    } else {
        assert(s.take(i) =~= s);
    }
}

/// Whether every character is an ASCII digit.
fn all_digits_exec(s: &[char]) -> (r: bool)
    ensures
        r == all_digits(s@),
{
    let mut i: usize = 0;
    while i < s.len()
        invariant
            i <= s@.len(),
            forall|j: int| 0 <= j < i ==> ascii_digit(#[trigger] s@[j]),
        decreases s@.len() - i,
    {
        if !('0' <= s[i] && s[i] <= '9') {
            return false;
        }
        i += 1;
    }
    true
}

/// `str::parse::<i64>`.
pub fn parse_i64(s: &[char]) -> (r: Option<i64>)
    ensures
        r == parse_i64_spec(s@),
{
    let neg = s.len() > 0 && s[0] == '-';
    let from: usize = if s.len() > 0 && (s[0] == '+' || s[0] == '-') {
        1
    } else {
        0
    };
    let body = slice_range(s, from, s.len());
    proof {
        if from == 1 {
            assert(body@ =~= s@.drop_first());
        } else {
            assert(body@ =~= s@);
        }
    }
    if body.len() == 0 || !all_digits_exec(&body) {
        return None;
    }
    if neg {
        match digits_upto(&body, 9223372036854775808u64) {
            Some(v) => {
                if v == 9223372036854775808u64 {
                    Some(i64::MIN)
                } else {
                    Some(-(v as i64))
                }
            },
            None => None,
        }
    } else {
        match digits_upto(&body, 9223372036854775807u64) {
            Some(v) => Some(v as i64),
            None => None,
        }
    }
}

/// Bytes taken by `c` in UTF-8.
pub open spec fn utf8_width(c: char) -> nat {
    if (c as u32) < 0x80 {
        1
    } else if (c as u32) < 0x800 {
        2
    } else if (c as u32) < 0x10000 {
        3
    } else {
        4
    }
}

/// Length in UTF-8 bytes (`str::len`).
pub open spec fn utf8_len(s: Seq<char>) -> nat
    decreases s.len(),
{
    if s.len() == 0 {
        0
    } else {
        utf8_len(s.drop_last()) + utf8_width(s.last())
    }
}

/// Whether `s` takes at least `n` bytes in UTF-8.
pub fn utf8_at_least(s: &Vec<char>, n: usize) -> (r: bool)
    ensures
        r == (utf8_len(s@) >= n),
{
    if n == 0 {
        return true;
    }
    let mut acc: usize = 0;
    let mut i: usize = 0;
    while i < s.len()
        invariant
            i <= s@.len(),
            acc == utf8_len(s@.take(i as int)),
            acc < n,
        decreases s@.len() - i,
    {
        let c = s[i];
        let w: usize = if (c as u32) < 0x80 {
            1
        } else if (c as u32) < 0x800 {
            2
        } else if (c as u32) < 0x10000 {
            3
        } else {
            4
        };
        proof {
            assert(s@.take(i + 1).drop_last() =~= s@.take(i as int));
            assert(w == utf8_width(c));
        }
        if w >= n - acc {
            proof {
                lemma_utf8_len_mono(s@, i + 1);
            }
            return true;
        }
        acc = acc + w;
        i += 1;
    }
    assert(s@.take(i as int) =~= s@);
    false
}

pub proof fn lemma_utf8_len_mono(s: Seq<char>, i: int)
    requires
        0 <= i <= s.len(),
    ensures
        utf8_len(s.take(i)) <= utf8_len(s),
    decreases s.len() - i,
{
    if i < s.len() {
        lemma_utf8_len_mono(s, i + 1);
        assert(s.take(i + 1).drop_last() =~= s.take(i));
    } else {
        assert(s.take(i) =~= s);
    }
}


/// `seq_lt` is transitive.
pub proof fn lemma_seq_lt_trans(a: Seq<char>, b: Seq<char>, c: Seq<char>)
    requires
        seq_lt(a, b),
        seq_lt(b, c),
    ensures
        seq_lt(a, c),
    decreases a.len(),
{
    if a.len() > 0 && b.len() > 0 && c.len() > 0 {
        if a[0] == b[0] && b[0] == c[0] {
            lemma_seq_lt_trans(a.drop_first(), b.drop_first(), c.drop_first());
        }
    }
}

/// `seq_lt` is irreflexive.
pub proof fn lemma_seq_lt_irrefl(a: Seq<char>)
    ensures
        !seq_lt(a, a),
    decreases a.len(),
{
    if a.len() > 0 {
        lemma_seq_lt_irrefl(a.drop_first());
    }
}

/// `seq_lt` is total on distinct sequences and never holds both ways.
pub proof fn lemma_seq_lt_total(a: Seq<char>, b: Seq<char>)
    ensures
        a != b ==> seq_lt(a, b) || seq_lt(b, a),
        !(seq_lt(a, b) && seq_lt(b, a)),
    decreases a.len(),
{
    if a.len() > 0 && b.len() > 0 {
        lemma_seq_lt_total(a.drop_first(), b.drop_first());
        if a[0] == b[0] && a != b {
            assert(a =~= seq![a[0]] + a.drop_first());
            assert(b =~= seq![b[0]] + b.drop_first());
        }
    } else if a.len() == 0 && b.len() == 0 {
        assert(a =~= b);
    }
}

/// `str::parse::<u64>`.
pub fn parse_u64(s: &[char]) -> (r: Option<u64>)
    ensures
        r == parse_u64_spec(s@),
{
    let from: usize = if s.len() > 0 && s[0] == '+' {
        1
    } else {
        0
    };
    let body = slice_range(s, from, s.len());
    proof {
        if from == 1 {
            assert(body@ =~= s@.drop_first());
        } else {
            assert(body@ =~= s@);
        }
    }
    if body.len() == 0 || !all_digits_exec(&body) {
        return None;
    }
    match digits_upto(&body, u64::MAX) {
        Some(v) => Some(v),
        None => None,
    }
}

/// The first index at which the nonempty `p` occurs in `s`, if any.
pub open spec fn first_occurrence(s: Seq<char>, p: Seq<char>) -> Option<int> {
    if has_sub(s, p) {
        Some(choose|i: int| first_at(s, p, 0, i))
    } else {
        None
    }
}

/// `s` up to the first occurrence of `p`, or all of it.
pub open spec fn cut_at(s: Seq<char>, p: Seq<char>) -> Seq<char> {
    match first_occurrence(s, p) {
        Some(i) => s.take(i),
        None => s,
    }
}

/// `s` up to the first occurrence of `p`, or all of it.
pub fn cut_at_exec(s: &Vec<char>, p: &Vec<char>) -> (r: Vec<char>)
    ensures
        r@ == cut_at(s@, p@),
{
    match find_from(s, p, 0) {
        Some(i) => {
            proof {
                assert(has_sub(s@, p@)) by {
                    assert(occurs_at(s@, p@, i as int));
                }
                let j = choose|j: int| first_at(s@, p@, 0, j);
                if j < i as int {
                    assert(!occurs_at(s@, p@, j));
                } else if j > i as int {
                    assert(!occurs_at(s@, p@, i as int));
                }
            }
            slice_range(s, 0, i)
        },
        None => {
            proof {
                assert(!has_sub(s@, p@)) by {
                    if has_sub(s@, p@) {
                        let j = choose|j: int| #[trigger] occurs_at(s@, p@, j);
                        assert(j >= 0);
                    }
                }
            }
            slice_range(s, 0, s.len())
        },
    }
}
} // verus!
