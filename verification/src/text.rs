//! Character-level text primitives shared by the deck parser, the template
//! engine and the project-manifest reader.
//!
//! Every function here works on sequences of `char` and is specified by a
//! spec function over `Seq<char>` that states the text rule it implements
//! (Unicode whitespace, trimming, line splitting, whitespace-separated
//! fields, decimal and floating-point literal syntax).

use vstd::prelude::*;

verus! {

// ---------------------------------------------------------------------------
// Character classes
// ---------------------------------------------------------------------------

/// Unicode `White_Space` (the class `char::is_whitespace` tests).
pub open spec fn is_ws(c: char) -> bool {
    ||| c == '\t'
    ||| c == '\n'
    ||| c == '\x0B'
    ||| c == '\x0C'
    ||| c == '\r'
    ||| c == ' '
    ||| c == '\u{85}'
    ||| c == '\u{A0}'
    ||| c == '\u{1680}'
    ||| ('\u{2000}' <= c && c <= '\u{200A}')
    ||| c == '\u{2028}'
    ||| c == '\u{2029}'
    ||| c == '\u{202F}'
    ||| c == '\u{205F}'
    ||| c == '\u{3000}'
}

/// ASCII whitespace as `char::is_ascii_whitespace` defines it (no vertical tab).
pub open spec fn is_ascii_ws(c: char) -> bool {
    c == ' ' || c == '\t' || c == '\n' || c == '\x0C' || c == '\r'
}

pub open spec fn is_digit(c: char) -> bool {
    '0' <= c && c <= '9'
}

pub open spec fn is_ascii_alnum(c: char) -> bool {
    ||| is_digit(c)
    ||| ('a' <= c && c <= 'z')
    ||| ('A' <= c && c <= 'Z')
}

/// ASCII upper-casing of one character; every other character is unchanged.
pub open spec fn upper_char(c: char) -> char {
    if 'a' <= c && c <= 'z' {
        ((c as u32) - 32) as char
    } else {
        c
    }
}

/// ASCII lower-casing of one character; every other character is unchanged.
pub open spec fn lower_char(c: char) -> char {
    if 'A' <= c && c <= 'Z' {
        ((c as u32) + 32) as char
    } else {
        c
    }
}

pub open spec fn upper(s: Seq<char>) -> Seq<char> {
    s.map_values(|c: char| upper_char(c))
}

pub open spec fn lower(s: Seq<char>) -> Seq<char> {
    s.map_values(|c: char| lower_char(c))
}

pub fn is_whitespace_char(c: char) -> (r: bool)
    ensures
        r == is_ws(c),
{
    c == '\t' || c == '\n' || c == '\x0B' || c == '\x0C' || c == '\r' || c == ' ' || c
        == '\u{85}' || c == '\u{A0}' || c == '\u{1680}' || ('\u{2000}' <= c && c <= '\u{200A}')
        || c == '\u{2028}' || c == '\u{2029}' || c == '\u{202F}' || c == '\u{205F}' || c
        == '\u{3000}'
}

pub fn is_ascii_whitespace_char(c: char) -> (r: bool)
    ensures
        r == is_ascii_ws(c),
{
    c == ' ' || c == '\t' || c == '\n' || c == '\x0C' || c == '\r'
}

pub fn is_digit_char(c: char) -> (r: bool)
    ensures
        r == is_digit(c),
{
    '0' <= c && c <= '9'
}

pub fn is_ascii_alnum_char(c: char) -> (r: bool)
    ensures
        r == is_ascii_alnum(c),
{
    ('0' <= c && c <= '9') || ('a' <= c && c <= 'z') || ('A' <= c && c <= 'Z')
}

pub fn to_upper_char(c: char) -> (r: char)
    ensures
        r == upper_char(c),
{
    if 'a' <= c && c <= 'z' {
        let b: u8 = (c as u32 - 32) as u8;
        b as char
    } else {
        c
    }
}

pub fn to_lower_char(c: char) -> (r: char)
    ensures
        r == lower_char(c),
{
    if 'A' <= c && c <= 'Z' {
        let b: u8 = (c as u32 + 32) as u8;
        b as char
    } else {
        c
    }
}

// ---------------------------------------------------------------------------
// Conversions between `str`/`String` and `Vec<char>`
// ---------------------------------------------------------------------------

/// Appends one character to a `String` (`String::push`).
#[verifier::external_body]
pub(crate) fn push_char(s: &mut String, c: char)
    ensures
        final(s)@ == old(s)@.push(c),
{
    s.push(c);
}

pub fn chars_of(s: &str) -> (v: Vec<char>)
    ensures
        v@ == s@,
{
    let mut v: Vec<char> = Vec::new();
    for c in it: s.chars()
        invariant
            v@ == it.seq().take(it.index() as int),
            it.seq() == s@,
    {
        v.push(c);
    }
    v
}

pub fn string_of(v: &[char]) -> (s: String)
    ensures
        s@ == v@,
{
    let mut s = String::new();
    let mut i: usize = 0;
    while i < v.len()
        invariant
            i <= v.len(),
            s@ == v@.take(i as int),
        decreases v.len() - i,
    {
        push_char(&mut s, v[i]);
        i = i + 1;
        assert(s@ == v@.take(i as int));
    }
    assert(v@.take(v.len() as int) == v@);
    s
}

/// Copy of `s[a..b]`.
pub fn slice_chars(s: &[char], a: usize, b: usize) -> (r: Vec<char>)
    requires
        a <= b <= s.len(),
    ensures
        r@ == s@.subrange(a as int, b as int),
{
    let mut r: Vec<char> = Vec::new();
    let mut i: usize = a;
    while i < b
        invariant
            a <= i <= b <= s.len(),
            r@ == s@.subrange(a as int, i as int),
        decreases b - i,
    {
        r.push(s[i]);
        i = i + 1;
        assert(r@ == s@.subrange(a as int, i as int));
    }
    r
}

pub fn chars_eq(a: &[char], b: &[char]) -> (r: bool)
    ensures
        r == (a@ == b@),
{
    if a.len() != b.len() {
        return false;
    }
    let mut i: usize = 0;
    while i < a.len()
        invariant
            a.len() == b.len(),
            i <= a.len(),
            forall|j: int| 0 <= j < i ==> a@[j] == b@[j],
        decreases a.len() - i,
    {
        if a[i] != b[i] {
            return false;
        }
        i = i + 1;
    }
    assert(a@ =~= b@);
    true
}

/// Whether `s` begins with `p`.
pub fn starts_with_chars(s: &[char], p: &[char]) -> (r: bool)
    ensures
        r == (p@.len() <= s@.len() && s@.take(p@.len() as int) == p@),
{
    if p.len() > s.len() {
        return false;
    }
    let mut i: usize = 0;
    while i < p.len()
        invariant
            p.len() <= s.len(),
            i <= p.len(),
            forall|j: int| 0 <= j < i ==> s@[j] == p@[j],
        decreases p.len() - i,
    {
        if s[i] != p[i] {
            assert(s@.take(p@.len() as int)[i as int] != p@[i as int]);
            return false;
        }
        i = i + 1;
    }
    assert(s@.take(p@.len() as int) =~= p@);
    true
}

/// Whether `p` occurs somewhere inside `s` as a contiguous piece.
pub open spec fn contains_at(s: Seq<char>, p: Seq<char>, k: int) -> bool {
    0 <= k && k + p.len() <= s.len() && s.subrange(k, k + p.len()) == p
}

pub open spec fn contains_seq(s: Seq<char>, p: Seq<char>) -> bool {
    exists|k: int| contains_at(s, p, k)
}

pub fn contains_chars(s: &[char], p: &[char]) -> (r: bool)
    ensures
        r == contains_seq(s@, p@),
{
    if p.len() > s.len() {
        assert(forall|k: int| !contains_at(s@, p@, k));
        return false;
    }
    let mut k: usize = 0;
    while k <= s.len() - p.len()
        invariant
            p.len() <= s.len(),
            k <= s.len() - p.len() + 1,
            forall|j: int| 0 <= j < k ==> !contains_at(s@, p@, j),
        decreases s.len() - k,
    {
        let mut i: usize = 0;
        let mut ok = true;
        while i < p.len()
            invariant
                k + p.len() <= s.len(),
                i <= p.len(),
                ok == (forall|j: int| 0 <= j < i ==> s@[k + j] == p@[j]),
            decreases p.len() - i,
        {
            if s[k + i] != p[i] {
                ok = false;
            }
            i = i + 1;
        }
        if ok {
            assert(s@.subrange(k as int, k + p.len()) =~= p@);
            assert(contains_at(s@, p@, k as int));
            return true;
        }
        assert(!contains_at(s@, p@, k as int)) by {
            if contains_at(s@, p@, k as int) {
                assert forall|j: int| 0 <= j < p.len() implies s@[k + j] == p@[j] by {
                    assert(s@.subrange(k as int, k + p.len())[j] == s@[k + j]);
                }
            }
        }
        k = k + 1;
    }
    assert forall|j: int| !contains_at(s@, p@, j) by {
        if 0 <= j && j + p.len() <= s.len() {
            assert(j < k);
        }
    }
    false
}

// ---------------------------------------------------------------------------
// Trimming
// ---------------------------------------------------------------------------

/// Number of leading whitespace characters.
pub open spec fn lead_ws(s: Seq<char>) -> nat
    decreases s.len(),
{
    if s.len() > 0 && is_ws(s[0]) {
        1 + lead_ws(s.skip(1))
    } else {
        0
    }
}

/// Number of trailing whitespace characters.
pub open spec fn trail_ws(s: Seq<char>) -> nat
    decreases s.len(),
{
    if s.len() > 0 && is_ws(s.last()) {
        1 + trail_ws(s.drop_last())
    } else {
        0
    }
}

pub open spec fn trim_start(s: Seq<char>) -> Seq<char> {
    s.skip(lead_ws(s) as int)
}

pub open spec fn trim_end(s: Seq<char>) -> Seq<char> {
    s.take(s.len() - trail_ws(s))
}

/// `str::trim`: both leading and trailing Unicode whitespace removed.
pub open spec fn trim(s: Seq<char>) -> Seq<char> {
    trim_end(trim_start(s))
}

pub proof fn lemma_lead_ws(s: Seq<char>, i: int)
    requires
        0 <= i <= s.len(),
        forall|j: int| 0 <= j < i ==> is_ws(s[j]),
        i == s.len() || !is_ws(s[i]),
    ensures
        lead_ws(s) == i,
    decreases i,
{
    if i > 0 {
        lemma_lead_ws(s.skip(1), i - 1);
    }
}

pub proof fn lemma_trail_ws(s: Seq<char>, i: int)
    requires
        0 <= i <= s.len(),
        forall|j: int| i <= j < s.len() ==> is_ws(s[j]),
        i == 0 || !is_ws(s[i - 1]),
    ensures
        trail_ws(s) == s.len() - i,
    decreases s.len() - i,
{
    if i < s.len() {
        lemma_trail_ws(s.drop_last(), i);
    }
}

/// Bounds of the trimmed part of `s`: `s[a..b]` is `trim(s)`.
pub fn trim_bounds(s: &[char]) -> (r: (usize, usize))
    ensures
        r.0 <= r.1 <= s.len(),
        s@.subrange(r.0 as int, r.1 as int) == trim(s@),
{
    let n = s.len();
    let mut a: usize = 0;
    while a < n && is_whitespace_char(s[a])
        invariant
            a <= n == s.len(),
            forall|j: int| 0 <= j < a ==> is_ws(s@[j]),
        decreases n - a,
    {
        a = a + 1;
    }
    proof {
        lemma_lead_ws(s@, a as int);
    }
    let ghost t = s@.skip(a as int);
    let mut b: usize = n;
    while b > a && is_whitespace_char(s[b - 1])
        invariant
            a <= b <= n == s.len(),
            t == s@.skip(a as int),
            forall|j: int| b <= j < n ==> is_ws(s@[j]),
        decreases b - a,
    {
        b = b - 1;
    }
    proof {
        assert forall|j: int| b - a <= j < t.len() implies is_ws(t[j]) by {
            assert(t[j] == s@[a + j]);
        }
        if b > a {
            assert(t[b - a - 1] == s@[b - 1]);
        }
        lemma_trail_ws(t, b - a);
        assert(trim(s@) =~= s@.subrange(a as int, b as int));
    }
    (a, b)
}

pub fn trim_chars(s: &[char]) -> (r: Vec<char>)
    ensures
        r@ == trim(s@),
{
    let (a, b) = trim_bounds(s);
    slice_chars(s, a, b)
}

/// `str::trim` on a `str`.
pub fn trim_str(s: &str) -> (r: Vec<char>)
    ensures
        r@ == trim(s@),
{
    let v = chars_of(s);
    trim_chars(&v)
}

// ---------------------------------------------------------------------------
// Lines
// ---------------------------------------------------------------------------

/// The pieces of `s` between `'\n'` characters (`str::split('\n')`), built
/// one character at a time: a newline opens a new piece, any other character
/// extends the last one.
pub open spec fn split_newlines(s: Seq<char>) -> Seq<Seq<char>>
    decreases s.len(),
{
    if s.len() == 0 {
        seq![Seq::<char>::empty()]
    } else {
        let prev = split_newlines(s.drop_last());
        if s.last() == '\n' {
            prev.push(Seq::<char>::empty())
        } else {
            prev.update(prev.len() - 1, prev.last().push(s.last()))
        }
    }
}

/// One trailing `'\r'` removed, if there is one.
pub open spec fn strip_cr(l: Seq<char>) -> Seq<char> {
    if l.len() > 0 && l.last() == '\r' {
        l.drop_last()
    } else {
        l
    }
}

/// `str::lines`: lines end at `'\n'` or `"\r\n"`; the final line needs no
/// terminator, and a terminator at the very end opens no further line.
pub open spec fn lines(s: Seq<char>) -> Seq<Seq<char>> {
    let parts = split_newlines(s);
    let ended = parts.drop_last().map_values(|l: Seq<char>| strip_cr(l));
    if s.len() == 0 || s.last() == '\n' {
        ended
    } else {
        ended.push(parts.last())
    }
}

pub proof fn lemma_split_newlines_nonempty(s: Seq<char>)
    ensures
        split_newlines(s).len() >= 1,
    decreases s.len(),
{
    if s.len() > 0 {
        lemma_split_newlines_nonempty(s.drop_last());
    }
}

pub fn strip_cr_chars(l: Vec<char>) -> (r: Vec<char>)
    ensures
        r@ == strip_cr(l@),
{
    let mut l = l;
    if l.len() > 0 && l[l.len() - 1] == '\r' {
        l.pop();
    }
    l
}

pub open spec fn lines_view(v: Seq<Vec<char>>) -> Seq<Seq<char>> {
    v.map_values(|l: Vec<char>| l@)
}

/// The lines of `s`, as `str::lines` yields them.
pub fn lines_of(s: &[char]) -> (r: Vec<Vec<char>>)
    ensures
        lines_view(r@) == lines(s@),
{
    let mut done: Vec<Vec<char>> = Vec::new();
    let mut cur: Vec<char> = Vec::new();
    let mut i: usize = 0;
    proof {
        assert(s@.take(0) =~= Seq::<char>::empty());
    }
    while i < s.len()
        invariant
            i <= s.len(),
            split_newlines(s@.take(i as int)) == lines_view(done@).push(cur@),
            lines_view(done@) == split_newlines(s@.take(i as int)).drop_last(),
        decreases s.len() - i,
    {
        let ghost prev = split_newlines(s@.take(i as int));
        proof {
            assert(s@.take(i + 1).drop_last() =~= s@.take(i as int));
            assert(s@.take(i + 1).last() == s@[i as int]);
        }
        if s[i] == '\n' {
            let line = cur;
            done.push(line);
            cur = Vec::new();
            proof {
                assert(lines_view(done@) =~= prev);
                assert(split_newlines(s@.take(i + 1)) =~= lines_view(done@).push(cur@));
            }
        } else {
            cur.push(s[i]);
            proof {
                assert(split_newlines(s@.take(i + 1)) =~= lines_view(done@).push(cur@));
                assert(lines_view(done@) =~= split_newlines(s@.take(i + 1)).drop_last());
            }
        }
        i = i + 1;
    }
    proof {
        assert(s@.take(s.len() as int) =~= s@);
    }
    let ghost parts = split_newlines(s@);
    proof {
        lemma_split_newlines_nonempty(s@);
    }
    // Every piece but the last was ended by a newline.
    let mut out: Vec<Vec<char>> = Vec::new();
    let mut k: usize = 0;
    let n = done.len();
    while k < n
        invariant
            n == done.len(),
            parts.len() >= 1,
            k <= n,
            lines_view(done@) == parts.drop_last(),
            out.len() == k,
            forall|j: int| 0 <= j < k ==> #[trigger] out@[j]@ == strip_cr(parts[j]),
        decreases n - k,
    {
        let l = strip_cr_chars(done[k].clone());
        proof {
            assert(done@[k as int]@ == lines_view(done@)[k as int]);
            assert(lines_view(done@).len() == n);
            assert(parts.drop_last()[k as int] == parts[k as int]);
        }
        out.push(l);
        k = k + 1;
    }
    proof {
        assert(lines_view(out@) =~= parts.drop_last().map_values(|l: Seq<char>| strip_cr(l)));
    }
    if s.len() == 0 || s[s.len() - 1] == '\n' {
        out
    } else {
        out.push(cur);
        proof {
            assert(lines_view(out@) =~= lines(s@));
        }
        out
    }
}

// ---------------------------------------------------------------------------
// Whitespace-separated fields
// ---------------------------------------------------------------------------

/// `str::split_whitespace`: the maximal runs of non-whitespace characters,
/// built one character at a time — whitespace adds nothing, a non-whitespace
/// character extends the last field when the character before it was also
/// non-whitespace and opens a new field otherwise.
pub open spec fn split_ws(s: Seq<char>) -> Seq<Seq<char>>
    decreases s.len(),
{
    if s.len() == 0 {
        Seq::empty()
    } else {
        let prev = split_ws(s.drop_last());
        let c = s.last();
        if is_ws(c) {
            prev
        } else if s.len() >= 2 && !is_ws(s[s.len() - 2]) {
            prev.update(prev.len() - 1, prev.last().push(c))
        } else {
            prev.push(seq![c])
        }
    }
}

pub fn split_ws_chars(s: &[char]) -> (r: Vec<Vec<char>>)
    ensures
        lines_view(r@) == split_ws(s@),
{
    let mut out: Vec<Vec<char>> = Vec::new();
    let mut i: usize = 0;
    proof {
        assert(s@.take(0) =~= Seq::<char>::empty());
    }
    while i < s.len()
        invariant
            i <= s.len(),
            lines_view(out@) == split_ws(s@.take(i as int)),
            i > 0 && !is_ws(s@[i - 1]) ==> out.len() >= 1,
        decreases s.len() - i,
    {
        let c = s[i];
        proof {
            assert(s@.take(i + 1).drop_last() =~= s@.take(i as int));
            assert(s@.take(i + 1).last() == c);
            if i >= 1 {
                assert(s@.take(i + 1)[i - 1] == s@[i - 1]);
            }
        }
        if is_whitespace_char(c) {
        } else if i >= 1 && !is_whitespace_char(s[i - 1]) {
            let last = out.len() - 1;
            let mut f = out.remove(last);
            f.push(c);
            out.push(f);
            proof {
                assert(lines_view(out@) =~= split_ws(s@.take(i + 1)));
            }
        } else {
            let mut f: Vec<char> = Vec::new();
            f.push(c);
            out.push(f);
            proof {
                assert(f@ =~= seq![c]);
                assert(lines_view(out@) =~= split_ws(s@.take(i + 1)));
            }
        }
        i = i + 1;
    }
    proof {
        assert(s@.take(s.len() as int) =~= s@);
    }
    out
}

// ---------------------------------------------------------------------------
// Numeric literal syntax
// ---------------------------------------------------------------------------

/// Number of leading decimal digits.
pub open spec fn digits_prefix(s: Seq<char>) -> nat
    decreases s.len(),
{
    if s.len() > 0 && is_digit(s[0]) {
        1 + digits_prefix(s.skip(1))
    } else {
        0
    }
}

pub proof fn lemma_digits_prefix(s: Seq<char>, i: int)
    requires
        0 <= i <= s.len(),
        forall|j: int| 0 <= j < i ==> is_digit(s[j]),
        i == s.len() || !is_digit(s[i]),
    ensures
        digits_prefix(s) == i,
    decreases i,
{
    if i > 0 {
        lemma_digits_prefix(s.skip(1), i - 1);
    }
}

pub open spec fn is_sign(c: char) -> bool {
    c == '+' || c == '-'
}

pub open spec fn is_e(c: char) -> bool {
    c == 'e' || c == 'E'
}

/// `s` without one leading `+` or `-`.
pub open spec fn unsigned_part(s: Seq<char>) -> Seq<char> {
    if s.len() > 0 && is_sign(s[0]) {
        s.skip(1)
    } else {
        s
    }
}

/// `Exp` without its `e`: `Sign? Digit+`.
pub open spec fn is_exponent(x: Seq<char>) -> bool {
    let y = unsigned_part(x);
    y.len() > 0 && digits_prefix(y) == y.len()
}

/// `Number ::= ( Digit+ | Digit+ '.' Digit* | Digit* '.' Digit+ ) Exp?`,
/// read left to right: integer digits, an optional `.` with fraction digits
/// (at least one digit in all), then nothing or an exponent.
pub open spec fn is_decimal_number(b: Seq<char>) -> bool {
    let k1 = digits_prefix(b);
    let r1 = b.skip(k1 as int);
    let has_dot = r1.len() > 0 && r1[0] == '.';
    let k2: nat = if has_dot {
        digits_prefix(r1.skip(1))
    } else {
        0
    };
    let r2 = if has_dot {
        r1.skip((1 + k2) as int)
    } else {
        r1
    };
    &&& k1 + k2 >= 1
    &&& (r2.len() == 0 || (is_e(r2[0]) && is_exponent(r2.skip(1))))
}

/// The text a Rust `f64` parses from without error:
/// `Sign? ( 'inf' | 'infinity' | 'nan' | Number )`, letters in any case.
pub open spec fn is_float_text(s: Seq<char>) -> bool {
    let b = unsigned_part(s);
    ||| lower(b) == seq!['i', 'n', 'f']
    ||| lower(b) == seq!['i', 'n', 'f', 'i', 'n', 'i', 't', 'y']
    ||| lower(b) == seq!['n', 'a', 'n']
    ||| is_decimal_number(b)
}

/// Whether `s[from..]`, lower-cased, equals `w` (given in lower case).
fn lower_tail_eq(s: &[char], from: usize, w: &[char]) -> (r: bool)
    requires
        from <= s.len(),
    ensures
        r == (lower(s@.skip(from as int)) == w@),
{
    let ghost t = s@.skip(from as int);
    if s.len() - from != w.len() {
        assert(lower(t).len() == t.len());
        return false;
    }
    let mut i: usize = 0;
    while i < w.len()
        invariant
            s.len() - from == w.len(),
            from <= s.len(),
            t == s@.skip(from as int),
            i <= w.len(),
            forall|j: int| 0 <= j < i ==> lower_char(s@[from + j]) == w@[j],
        decreases w.len() - i,
    {
        if to_lower_char(s[from + i]) != w[i] {
            assert(lower(t)[i as int] == lower_char(s@[from + i]));
            return false;
        }
        i = i + 1;
    }
    assert(lower(t) =~= w@);
    true
}

/// Counts digits from position `i`; returns the first position after them.
fn skip_digits(s: &[char], i: usize) -> (r: usize)
    requires
        i <= s.len(),
    ensures
        i <= r <= s.len(),
        digits_prefix(s@.skip(i as int)) == r - i,
{
    let mut k = i;
    while k < s.len() && is_digit_char(s[k])
        invariant
            i <= k <= s.len(),
            forall|j: int| i <= j < k ==> is_digit(s@[j]),
        decreases s.len() - k,
    {
        k = k + 1;
    }
    proof {
        let t = s@.skip(i as int);
        assert forall|j: int| 0 <= j < k - i implies is_digit(t[j]) by {
            assert(t[j] == s@[i + j]);
        }
        if k < s.len() {
            assert(t[k - i] == s@[k as int]);
        }
        lemma_digits_prefix(t, k - i);
    }
    k
}

/// Whether `s` is text a Rust `f64` parses from (see [`is_float_text`]).
pub fn float_text_ok(s: &[char]) -> (r: bool)
    ensures
        r == is_float_text(s@),
{
    let n = s.len();
    let start: usize = if n > 0 && (s[0] == '+' || s[0] == '-') {
        1
    } else {
        0
    };
    let ghost b = unsigned_part(s@);
    assert(b == s@.skip(start as int));
    let inf = ['i', 'n', 'f'];
    let infinity = ['i', 'n', 'f', 'i', 'n', 'i', 't', 'y'];
    let nan = ['n', 'a', 'n'];
    let special = lower_tail_eq(s, start, &inf) || lower_tail_eq(s, start, &infinity)
        || lower_tail_eq(s, start, &nan);
    proof {
        assert(inf@ == seq!['i', 'n', 'f']);
        assert(infinity@ == seq!['i', 'n', 'f', 'i', 'n', 'i', 't', 'y']);
        assert(nan@ == seq!['n', 'a', 'n']);
    }
    if special {
        return true;
    }
    decimal_number_ok(s, start)
}

/// Whether `s[start..]` is a `Number` (see [`is_decimal_number`]).
fn decimal_number_ok(s: &[char], start: usize) -> (r: bool)
    requires
        start <= s.len(),
    ensures
        r == is_decimal_number(s@.skip(start as int)),
{
    let n = s.len();
    let ghost b = s@.skip(start as int);
    let i1 = skip_digits(s, start);
    let k1 = i1 - start;
    let ghost r1 = b.skip(k1 as int);
    assert(r1 =~= s@.skip(i1 as int));
    let has_dot = i1 < n && s[i1] == '.';
    proof {
        if i1 < n {
            assert(r1[0] == s@[i1 as int]);
        }
    }
    let mut i2 = i1;
    let mut k2: usize = 0;
    if has_dot {
        i2 = skip_digits(s, i1 + 1);
        k2 = i2 - (i1 + 1);
        assert(r1.skip(1) =~= s@.skip(i1 + 1));
    }
    let ghost r2 = if has_dot {
        r1.skip((1 + k2) as int)
    } else {
        r1
    };
    assert(r2 =~= s@.skip(i2 as int));
    if k1 + k2 == 0 {
        return false;
    }
    if i2 == n {
        return true;
    }
    assert(r2[0] == s@[i2 as int]);
    if !(s[i2] == 'e' || s[i2] == 'E') {
        return false;
    }
    let ghost x = r2.skip(1);
    assert(x =~= s@.skip(i2 + 1));
    let mut j = i2 + 1;
    proof {
        if i2 + 1 < n {
            assert(x[0] == s@[i2 + 1]);
        }
    }
    if j < n && (s[j] == '+' || s[j] == '-') {
        j = j + 1;
    }
    let ghost y = unsigned_part(x);
    assert(y =~= s@.skip(j as int));
    let e = skip_digits(s, j);
    e > j && e == n
}

// ---------------------------------------------------------------------------
// Unsigned decimal integers
// ---------------------------------------------------------------------------

pub open spec fn digit_value(c: char) -> nat {
    ((c as u32) - ('0' as u32)) as nat
}

/// Value of a run of decimal digits, most significant first.
pub open spec fn decimal_value(d: Seq<char>) -> nat
    decreases d.len(),
{
    if d.len() == 0 {
        0
    } else {
        decimal_value(d.drop_last()) * 10 + digit_value(d.last())
    }
}

/// What `u32::from_str` returns: an optional `+`, then at least one decimal
/// digit and nothing else, with a value that fits in `u32`.
pub open spec fn parse_u32_spec(s: Seq<char>) -> Option<u32> {
    let d = if s.len() > 0 && s[0] == '+' {
        s.skip(1)
    } else {
        s
    };
    if d.len() > 0 && digits_prefix(d) == d.len() && decimal_value(d) <= u32::MAX {
        Some(decimal_value(d) as u32)
    } else {
        None
    }
}

pub proof fn lemma_decimal_value_mono(d: Seq<char>, i: int)
    requires
        0 <= i <= d.len(),
        forall|j: int| 0 <= j < d.len() ==> is_digit(d[j]),
    ensures
        decimal_value(d.take(i)) <= decimal_value(d),
    decreases d.len() - i,
{
    if i < d.len() {
        lemma_decimal_value_mono(d, i + 1);
        assert(d.take(i + 1).drop_last() =~= d.take(i));
    } else {
        assert(d.take(i) =~= d);
    }
}

/// `u32::from_str`, as [`parse_u32_spec`] states it.
pub fn parse_u32_text(s: &[char]) -> (r: Option<u32>)
    ensures
        r == parse_u32_spec(s@),
{
    let start: usize = if s.len() > 0 && s[0] == '+' {
        1
    } else {
        0
    };
    let ghost d = if s@.len() > 0 && s@[0] == '+' {
        s@.skip(1)
    } else {
        s@
    };
    assert(d == s@.skip(start as int));
    let end = skip_digits(s, start);
    if end == start || end != s.len() {
        return None;
    }
    proof {
        assert forall|j: int| 0 <= j < d.len() implies is_digit(d[j]) by {
            assert(d[j] == s@[start + j]);
            if !is_digit(d[j]) {
                // digits_prefix(d) == d.len() contradicts a non-digit inside
                let t = d;
                lemma_not_all_digits(t, j);
            }
        }
    }
    let mut v: u64 = 0;
    let mut i = start;
    proof {
        assert(d.take(0) =~= Seq::<char>::empty());
    }
    while i < s.len()
        invariant
            start <= i <= s.len(),
            d == s@.skip(start as int),
            d == (if s@.len() > 0 && s@[0] == '+' {
                s@.skip(1)
            } else {
                s@
            }),
            forall|j: int| 0 <= j < d.len() ==> is_digit(d[j]),
            v as nat == decimal_value(d.take(i - start)),
            v <= u32::MAX,
        decreases s.len() - i,
    {
        proof {
            assert(d[i - start] == s@[i as int]);
            assert(d.take(i - start + 1).drop_last() =~= d.take(i - start));
            assert(d.take(i - start + 1).last() == s@[i as int]);
        }
        let dig = (s[i] as u32 - '0' as u32) as u64;
        let nv = v * 10 + dig;
        assert(nv as nat == decimal_value(d.take(i - start + 1)));
        if nv > u32::MAX as u64 {
            proof {
                lemma_decimal_value_mono(d, i - start + 1);
                assert(decimal_value(d) > u32::MAX);
                assert(d.len() > 0);
                lemma_parse_u32_too_big(s@);
            }
            return None;
        }
        v = nv;
        i = i + 1;
    }
    proof {
        assert(d.take(d.len() as int) =~= d);
    }
    Some(v as u32)
}

proof fn lemma_parse_u32_too_big(s: Seq<char>)
    requires
        decimal_value(
            if s.len() > 0 && s[0] == '+' {
                s.skip(1)
            } else {
                s
            },
        ) > u32::MAX,
    ensures
        parse_u32_spec(s) is None,
{
}

pub proof fn lemma_not_all_digits(d: Seq<char>, j: int)
    requires
        0 <= j < d.len(),
        !is_digit(d[j]),
    ensures
        digits_prefix(d) <= j,
    decreases j,
{
    if j > 0 && is_digit(d[0]) {
        lemma_not_all_digits(d.skip(1), j - 1);
    }
}

/// Decimal text of `n`, without leading zeros.
pub open spec fn decimal_text(n: nat) -> Seq<char>
    decreases n,
{
    if n < 10 {
        seq![(n + ('0' as u32)) as char]
    } else {
        decimal_text(n / 10).push(((n % 10) + ('0' as u32)) as char)
    }
}

/// `n.to_string()` for an unsigned integer.
pub fn u64_text(n: u64) -> (r: Vec<char>)
    ensures
        r@ == decimal_text(n as nat),
    decreases n,
{
    if n < 10 {
        let c = ((n as u8) + 48u8) as char;
        let mut r: Vec<char> = Vec::new();
        r.push(c);
        assert(r@ =~= decimal_text(n as nat));
        r
    } else {
        let mut r = u64_text(n / 10);
        let c = (((n % 10) as u8) + 48u8) as char;
        r.push(c);
        assert(r@ =~= decimal_text(n as nat));
        r
    }
}

} // verus!

verus! {

/// Appends the decimal text of `n` to `s`.
pub fn push_decimal(s: &mut String, n: u64)
    ensures
        final(s)@ == old(s)@ + decimal_text(n as nat),
{
    let d = u64_text(n);
    let t = string_of(&d);
    s.append(t.as_str());
}

} // verus!
