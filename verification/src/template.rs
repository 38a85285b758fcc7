//! Variable substitution for NEC deck templates.
//!
//! Tokens `$NAME` (ASCII letters, digits and `_`, case-sensitive, longest
//! match) are replaced with the value the variable map gives `NAME`; `$$` is a
//! literal `$`, and a `$` that no name follows is kept as it stands. The first
//! name the map lacks stops the substitution with a [`TemplateError`] that
//! carries the name and its 1-based line.

use std::collections::HashMap;
use vstd::prelude::*;
use crate::text::{
    chars_of, decimal_text, is_ascii_alnum, is_ascii_alnum_char, push_char, slice_chars, string_of,
    u64_text,
};

verus! {

/// A template referenced a variable that the map does not define.
#[derive(Debug, Clone, PartialEq)]
pub struct TemplateError {
    /// The variable name that was referenced but not found in the map.
    pub undefined_var: String,
    /// 1-based line number where the undefined token appeared.
    pub line: usize,
}

pub open spec fn is_ident_char(c: char) -> bool {
    is_ascii_alnum(c) || c == '_'
}

/// Length of the longest prefix made of identifier characters.
pub open spec fn ident_len(s: Seq<char>) -> nat
    decreases s.len(),
{
    if s.len() > 0 && is_ident_char(s[0]) {
        1 + ident_len(s.skip(1))
    } else {
        0
    }
}

pub proof fn lemma_ident_len_bound(s: Seq<char>)
    ensures
        ident_len(s) <= s.len(),
    decreases s.len(),
{
    if s.len() > 0 && is_ident_char(s[0]) {
        lemma_ident_len_bound(s.skip(1));
    }
}

pub proof fn lemma_ident_len(s: Seq<char>, i: int)
    requires
        0 <= i <= s.len(),
        forall|j: int| 0 <= j < i ==> is_ident_char(s[j]),
        i == s.len() || !is_ident_char(s[i]),
    ensures
        ident_len(s) == i,
    decreases i,
{
    if i > 0 {
        lemma_ident_len(s.skip(1), i - 1);
    }
}

/// Outcome of substituting a template: the text, or the undefined name and
/// its line.
pub type Substituted = Result<Seq<char>, (Seq<char>, nat)>;

/// `p` in front of a successful outcome; an error passes through.
pub open spec fn prefixed(p: Seq<char>, r: Substituted) -> Substituted {
    match r {
        Ok(t) => Ok(p + t),
        Err(e) => Err(e),
    }
}

/// The substitution of `s`, whose first character is on line `line`.
pub open spec fn substitution(s: Seq<char>, vars: Map<Seq<char>, Seq<char>>, line: nat) -> Substituted
    decreases s.len(),
{
    if s.len() == 0 {
        Ok(Seq::empty())
    } else if s[0] == '\n' {
        prefixed(seq!['\n'], substitution(s.skip(1), vars, line + 1))
    } else if s[0] != '$' {
        prefixed(seq![s[0]], substitution(s.skip(1), vars, line))
    } else if s.len() >= 2 && s[1] == '$' {
        prefixed(seq!['$'], substitution(s.skip(2), vars, line))
    } else {
        let k = ident_len(s.skip(1));
        if k == 0 {
            prefixed(seq!['$'], substitution(s.skip(1), vars, line))
        } else {
            let name = s.subrange(1, (1 + k) as int);
            if vars.contains_key(name) {
                proof {
                    lemma_ident_len_bound(s.skip(1));
                }
                prefixed(vars[name], substitution(s.skip((1 + k) as int), vars, line))
            } else {
                Err((name, line))
            }
        }
    }
}

pub proof fn lemma_prefixed_prefixed(p: Seq<char>, q: Seq<char>, r: Substituted)
    ensures
        prefixed(p, prefixed(q, r)) == prefixed(p + q, r),
{
    match r {
        Ok(t) => {
            assert(p + (q + t) =~= (p + q) + t);
        },
        Err(_) => {},
    }
}

/// `HashMap::get`: the value the map holds for `name`, if any.
#[verifier::external_body]
fn lookup_var<'a>(vars: &'a HashMap<String, String>, name: &str) -> (r: Option<&'a String>)
    ensures
        match r {
            Some(v) => vars.deep_view().contains_key(name@) && v@ == vars.deep_view()[name@],
            None => !vars.deep_view().contains_key(name@),
        },
{
    vars.get(name)
}

/// Substitute `$VARNAME` tokens in `input` using the values in `vars`.
///
/// - `$$` is replaced with a literal `$`.
/// - Variable names consist of ASCII letters, digits, and underscores;
///   the longest match starting immediately after `$` is used.
/// - Returns [`TemplateError`] on the first undefined variable encountered.
pub fn substitute(input: &str, vars: &HashMap<String, String>) -> (r: Result<String, TemplateError>)
    ensures
        match r {
            Ok(out) => substitution(input@, vars.deep_view(), 1) == Ok::<Seq<char>, (Seq<char>, nat)>(out@),
            Err(e) => substitution(input@, vars.deep_view(), 1) == Err::<Seq<char>, (Seq<char>, nat)>(
                (e.undefined_var@, e.line as nat),
            ),
        },
{
    let ghost m = vars.deep_view();
    let chars = chars_of(input);
    let n = chars.len();
    let mut out = String::new();
    let mut i: usize = 0;
    let mut newlines: usize = 0;
    proof {
        assert(chars@.skip(0) =~= chars@);
        assert(out@ + Seq::<char>::empty() =~= out@);
        match substitution(chars@, m, 1) {
            Ok(t) => {
                assert(Seq::<char>::empty() + t =~= t);
            },
            Err(_) => {},
        }
    }
    while i < n
        invariant
            n == chars.len(),
            chars@ == input@,
            m == vars.deep_view(),
            i <= n,
            newlines <= i,
            substitution(chars@, m, 1) == prefixed(out@, substitution(chars@.skip(i as int), m, (newlines + 1) as nat)),
        decreases n - i,
    {
        let ghost rest = chars@.skip(i as int);
        let ghost old_out = out@;
        let ch = chars[i];
        assert(rest[0] == ch);
        if ch == '\n' {
            push_char(&mut out, ch);
            proof {
                assert(rest.skip(1) =~= chars@.skip(i + 1));
                lemma_prefixed_prefixed(old_out, seq!['\n'], substitution(rest.skip(1), m, (newlines + 2) as nat));
                assert(old_out + seq!['\n'] =~= out@);
            }
            newlines = newlines + 1;
            i = i + 1;
            continue;
        }
        if ch != '$' {
            push_char(&mut out, ch);
            proof {
                assert(rest.skip(1) =~= chars@.skip(i + 1));
                lemma_prefixed_prefixed(old_out, seq![ch], substitution(rest.skip(1), m, (newlines + 1) as nat));
                assert(old_out + seq![ch] =~= out@);
            }
            i = i + 1;
            continue;
        }
        if i + 1 < n && chars[i + 1] == '$' {
            push_char(&mut out, '$');
            proof {
                assert(rest[1] == chars@[i + 1]);
                assert(rest.skip(2) =~= chars@.skip(i + 2));
                lemma_prefixed_prefixed(old_out, seq!['$'], substitution(rest.skip(2), m, (newlines + 1) as nat));
                assert(old_out + seq!['$'] =~= out@);
            }
            i = i + 2;
            continue;
        }
        // Longest identifier after the '$'.
        let start = i + 1;
        let mut j = start;
        while j < n && (is_ascii_alnum_char(chars[j]) || chars[j] == '_')
            invariant
                n == chars.len(),
                start <= j <= n,
                forall|q: int| start <= q < j ==> is_ident_char(chars@[q]),
            decreases n - j,
        {
            j = j + 1;
        }
        proof {
            let t = rest.skip(1);
            assert(t =~= chars@.skip(start as int));
            assert forall|q: int| 0 <= q < j - start implies is_ident_char(t[q]) by {
                assert(t[q] == chars@[start + q]);
            }
            if j < n {
                assert(t[j - start] == chars@[j as int]);
            }
            lemma_ident_len(t, j - start);
        }
        if j == start {
            push_char(&mut out, '$');
            proof {
                assert(rest.skip(1) =~= chars@.skip(i + 1));
                lemma_prefixed_prefixed(old_out, seq!['$'], substitution(rest.skip(1), m, (newlines + 1) as nat));
                assert(old_out + seq!['$'] =~= out@);
            }
            i = i + 1;
            continue;
        }
        let name_chars = slice_chars(&chars, start, j);
        let name = string_of(&name_chars);
        let ghost k = (j - start) as nat;
        proof {
            assert(name@ =~= rest.subrange(1, (1 + k) as int));
        }
        match lookup_var(vars, name.as_str()) {
            Some(val) => {
                out.append(val.as_str());
                proof {
                    assert(rest.skip((1 + k) as int) =~= chars@.skip(j as int));
                    lemma_prefixed_prefixed(old_out, m[name@], substitution(rest.skip((1 + k) as int), m, (newlines + 1) as nat));
                }
                i = j;
            },
            None => {
                return Err(TemplateError { undefined_var: name, line: newlines + 1 });
            },
        }
    }
    proof {
        assert(chars@.skip(n as int) =~= Seq::<char>::empty());
        assert(out@ + Seq::<char>::empty() =~= out@);
    }
    Ok(out)
}

impl TemplateError {
    /// The message shown for this error:
    /// `line N: undefined template variable '$NAME'; provide it via --vars`.
    pub fn message(&self) -> (r: String)
        ensures
            r@ == "line "@ + decimal_text(self.line as nat) + ": undefined template variable '$"@
                + self.undefined_var@ + "'; provide it via --vars"@,
    {
        let mut r = String::new();
        r.append("line ");
        let digits = u64_text(self.line as u64);
        let d = string_of(&digits);
        r.append(d.as_str());
        r.append(": undefined template variable '$");
        r.append(self.undefined_var.as_str());
        r.append("'; provide it via --vars");
        r
    }
}

} // verus!

verus! {

/// Text without `$` passes through substitution unchanged, whatever the
/// variables are.
pub proof fn law_text_without_dollar_is_unchanged(s: Seq<char>, vars: Map<Seq<char>, Seq<char>>, line: nat)
    requires
        forall|i: int| 0 <= i < s.len() ==> s[i] != '$',
    ensures
        substitution(s, vars, line) == Ok::<Seq<char>, (Seq<char>, nat)>(s),
    decreases s.len(),
{
    if s.len() > 0 {
        let next_line = if s[0] == '\n' { line + 1 } else { line };
        assert forall|i: int| 0 <= i < s.skip(1).len() implies s.skip(1)[i] != '$' by {
            assert(s.skip(1)[i] == s[i + 1]);
        }
        law_text_without_dollar_is_unchanged(s.skip(1), vars, next_line as nat);
        assert(seq![s[0]] + s.skip(1) =~= s);
        if s[0] == '\n' {
            assert(seq!['\n'] + s.skip(1) =~= s);
        }
    } else {
        assert(s =~= Seq::<char>::empty());
    }
}

/// How many line breaks `s` holds.
pub open spec fn newline_count(s: Seq<char>) -> nat
    decreases s.len(),
{
    if s.len() == 0 {
        0
    } else {
        (if s[0] == '\n' { 1nat } else { 0nat }) + newline_count(s.skip(1))
    }
}

/// The outcome of two pieces of a template laid end to end: the first
/// piece's text, then the second's; the first error wins.
pub open spec fn then_outcome(first: Substituted, second: Substituted) -> Substituted {
    match first {
        Ok(t) => prefixed(t, second),
        Err(e) => Err(e),
    }
}

/// The outcome of two lines of a template joined by a line break: the
/// first line's text, the break, then the second's; the first error wins.
pub open spec fn joined_by_newline(first: Substituted, second: Substituted) -> Substituted {
    match first {
        Ok(t) => prefixed(t + seq!['\n'], second),
        Err(e) => Err(e),
    }
}

proof fn lemma_ident_len_stops(a: Seq<char>, b: Seq<char>)
    requires
        b.len() > 0,
        !is_ident_char(b[0]),
    ensures
        ident_len(a + b) == ident_len(a),
    decreases a.len(),
{
    let s = a + b;
    if a.len() == 0 {
        assert(s =~= b);
    } else {
        assert(s[0] == a[0]);
        assert(s.skip(1) =~= a.skip(1) + b);
        lemma_ident_len_stops(a.skip(1), b);
    }
}

proof fn lemma_newlines_skip_ident(a: Seq<char>, m: int)
    requires
        0 <= m <= a.len(),
        forall|j: int| 0 <= j < m ==> a[j] != '\n',
    ensures
        newline_count(a) == newline_count(a.skip(m)),
    decreases m,
{
    if m > 0 {
        assert(a.skip(1).skip(m - 1) =~= a.skip(m));
        lemma_newlines_skip_ident(a.skip(1), m - 1);
    } else {
        assert(a.skip(0) =~= a);
    }
}

proof fn lemma_prefixed_then(p: Seq<char>, x: Substituted, y: Substituted)
    ensures
        prefixed(p, then_outcome(x, y)) == then_outcome(prefixed(p, x), y),
{
    match x {
        Ok(t) => {
            lemma_prefixed_prefixed(p, t, y);
        },
        Err(_) => {},
    }
}

/// A template splits before any character that is neither `$` nor part of
/// a name: substituting `a` then `b` gives `a` substituted, then `b`
/// substituted from the line `a` ends on — every character outside a token
/// is kept, no token reaches across the split, and the first undefined name
/// wins.
pub proof fn law_substitution_splits_at_a_separator(
    a: Seq<char>,
    b: Seq<char>,
    vars: Map<Seq<char>, Seq<char>>,
    line: nat,
)
    requires
        b.len() > 0,
        b[0] != '$',
        !is_ident_char(b[0]),
    ensures
        substitution(a + b, vars, line) == then_outcome(
            substitution(a, vars, line),
            substitution(b, vars, line + newline_count(a)),
        ),
    decreases a.len(),
{
    let s = a + b;
    let rest = substitution(b, vars, line + newline_count(a));
    if a.len() == 0 {
        assert(s =~= b);
        lemma_prefixed_prefixed(Seq::<char>::empty(), Seq::<char>::empty(), rest);
        match rest {
            Ok(t) => {
                assert(Seq::<char>::empty() + t =~= t);
            },
            Err(_) => {},
        }
    } else {
        assert(s[0] == a[0]);
        assert(s.skip(1) =~= a.skip(1) + b);
        if a[0] == '\n' {
            law_substitution_splits_at_a_separator(a.skip(1), b, vars, line + 1);
            lemma_prefixed_then(seq!['\n'], substitution(a.skip(1), vars, line + 1), rest);
        } else if a[0] != '$' {
            law_substitution_splits_at_a_separator(a.skip(1), b, vars, line);
            lemma_prefixed_then(seq![a[0]], substitution(a.skip(1), vars, line), rest);
        } else if a.len() >= 2 && a[1] == '$' {
            assert(s[1] == '$');
            assert(s.skip(2) =~= a.skip(2) + b);
            lemma_newlines_skip_ident(a, 2);
            law_substitution_splits_at_a_separator(a.skip(2), b, vars, line);
            lemma_prefixed_then(seq!['$'], substitution(a.skip(2), vars, line), rest);
        } else if a.len() == 1 {
            assert(s[1] == b[0]);
            assert(s.skip(1) =~= b);
            assert(ident_len(s.skip(1)) == 0);
            assert(a.skip(1) =~= Seq::<char>::empty());
            assert(ident_len(a.skip(1)) == 0);
            lemma_newlines_skip_ident(a, 1);
            assert(newline_count(Seq::<char>::empty()) == 0);
            assert(newline_count(a) == 0);
            assert(substitution(a.skip(1), vars, line) == Ok::<Seq<char>, (Seq<char>, nat)>(Seq::empty()));
            assert(seq!['$'] + Seq::<char>::empty() =~= seq!['$']);
        } else {
            assert(s[1] == a[1]);
            lemma_ident_len_stops(a.skip(1), b);
            let k = ident_len(a.skip(1));
            assert(ident_len(s.skip(1)) == k);
            assert(newline_count(a) == newline_count(a.skip(1)));
            if k == 0 {
                law_substitution_splits_at_a_separator(a.skip(1), b, vars, line);
                lemma_prefixed_then(seq!['$'], substitution(a.skip(1), vars, line), rest);
            } else {
                lemma_ident_len_bound(a.skip(1));
                let name = a.subrange(1, (1 + k) as int);
                assert(s.subrange(1, (1 + k) as int) =~= name);
                if vars.contains_key(name) {
                    assert(s.skip((1 + k) as int) =~= a.skip((1 + k) as int) + b);
                    assert forall|j: int| 0 <= j < k implies a.skip(1)[j] != '\n' by {
                        lemma_ident_prefix(a.skip(1), j);
                    }
                    lemma_newlines_skip_ident(a.skip(1), k as int);
                    assert(a.skip(1).skip(k as int) =~= a.skip((1 + k) as int));
                    law_substitution_splits_at_a_separator(a.skip((1 + k) as int), b, vars, line);
                    lemma_prefixed_then(vars[name], substitution(a.skip((1 + k) as int), vars, line), rest);
                }
            }
        }
    }
}

/// A line break in a template stays a line break in the text: substituting
/// `a`, a line break, then `b` gives `a` substituted, the line break, then
/// `b` substituted from the next line on.
pub proof fn law_line_breaks_are_kept(a: Seq<char>, b: Seq<char>, vars: Map<Seq<char>, Seq<char>>, line: nat)
    ensures
        substitution(a + seq!['\n'] + b, vars, line) == joined_by_newline(
            substitution(a, vars, line),
            substitution(b, vars, line + newline_count(a) + 1),
        ),
{
    let nb = seq!['\n'] + b;
    assert(a + seq!['\n'] + b =~= a + nb);
    assert(nb[0] == '\n');
    law_substitution_splits_at_a_separator(a, nb, vars, line);
    assert(nb.skip(1) =~= b);
    let rest = substitution(b, vars, line + newline_count(a) + 1);
    assert(substitution(nb, vars, line + newline_count(a)) == prefixed(seq!['\n'], rest));
    match substitution(a, vars, line) {
        Ok(t) => {
            lemma_prefixed_prefixed(t, seq!['\n'], rest);
        },
        Err(_) => {},
    }
}

/// The first `ident_len(s)` characters of `s` are identifier characters.
proof fn lemma_ident_prefix(s: Seq<char>, j: int)
    requires
        0 <= j < ident_len(s),
    ensures
        is_ident_char(s[j]),
    decreases j,
{
    lemma_ident_len_bound(s);
    assert(s.len() > 0 && is_ident_char(s[0]));
    if j > 0 {
        lemma_ident_prefix(s.skip(1), j - 1);
        assert(s.skip(1)[j - 1] == s[j]);
    }
}

/// A token on its own: `$NAME` becomes the value the map gives `NAME`, or,
/// when the map lacks it, the error naming it and its line; `$$` is one `$`.
pub proof fn law_a_token_becomes_its_value(name: Seq<char>, vars: Map<Seq<char>, Seq<char>>, line: nat)
    requires
        name.len() > 0,
        forall|j: int| 0 <= j < name.len() ==> is_ident_char(#[trigger] name[j]),
    ensures
        vars.contains_key(name) ==> substitution(seq!['$'] + name, vars, line) == Ok::<
            Seq<char>,
            (Seq<char>, nat),
        >(vars[name]),
        !vars.contains_key(name) ==> substitution(seq!['$'] + name, vars, line) == Err::<
            Seq<char>,
            (Seq<char>, nat),
        >((name, line)),
        substitution(seq!['$', '$'], vars, line) == Ok::<Seq<char>, (Seq<char>, nat)>(seq!['$']),
{
    let s = seq!['$'] + name;
    assert(s[0] == '$');
    assert(s[1] == name[0]);
    assert(is_ident_char(name[0]));
    assert(s[1] != '$');
    assert(substitution(Seq::<char>::empty(), vars, line) == Ok::<Seq<char>, (Seq<char>, nat)>(Seq::empty()));
    assert(s.skip(1) =~= name);
    lemma_ident_len(name, name.len() as int);
    assert(s.subrange(1, (1 + name.len()) as int) =~= name);
    assert(s.skip((1 + name.len()) as int) =~= Seq::<char>::empty());
    assert(vars.contains_key(name) ==> vars[name] + Seq::<char>::empty() =~= vars[name]);
    let dd = seq!['$', '$'];
    assert(dd[0] == '$' && dd[1] == '$' && dd.len() == 2);
    assert(dd.skip(2) =~= Seq::<char>::empty());
    assert(seq!['$'] + Seq::<char>::empty() =~= seq!['$']);
    assert(substitution(dd, vars, line) == prefixed(seq!['$'], substitution(dd.skip(2), vars, line)));
}

} // verus!
