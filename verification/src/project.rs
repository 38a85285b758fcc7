//! Project manifests: the solver configuration a project carries, the
//! version rule of the project file format, and the Markdown manifest that
//! wraps a TOML project document.
//!
//! A Markdown manifest is YAML frontmatter between `---` lines, with keys
//! `format: fnec-project-markdown` and `version: <n>`, followed somewhere by
//! one fenced block opened by a line ```` ```toml project ```` whose body is
//! the TOML project document.

use vstd::prelude::*;
use crate::text::{
    chars_eq, chars_of, contains_chars, contains_seq, decimal_text, lines, lines_of, lines_view,
    parse_u32_spec, parse_u32_text, push_char, slice_chars, starts_with_chars, string_of, trim,
    trim_chars, u64_text, push_decimal,
};

verus! {

/// A TOML serialisation error (`toml::ser::Error`).
#[verifier::external_type_specification]
#[verifier::external_body]
pub struct ExTomlSerError(toml::ser::Error);

/// A TOML deserialisation error (`toml::de::Error`).
#[verifier::external_type_specification]
#[verifier::external_body]
pub struct ExTomlDeError(toml::de::Error);

/// The only supported project file format version.
pub const PROJECT_FILE_VERSION: u32 = 1;

/// Solver configuration for a project or a named run.
///
/// Both fields are free-form strings that correspond to the values accepted
/// by the `--solver` and `--pulse-rhs` CLI flags.
#[derive(Debug, Clone, PartialEq)]
pub struct SolverConfig {
    /// Solver mode: `"hallen"`, `"continuity"`, `"sinusoidal"`, or `"auto"`.
    pub mode: String,
    /// Pulse-RHS normalisation: `"auto"`, `"1"`, or `"1/dl_lambda"`.
    pub pulse_rhs: String,
}

impl Default for SolverConfig {
    /// The Hallén solver with automatic pulse-RHS normalisation.
    fn default() -> (r: SolverConfig)
        ensures
            r.mode@ == "hallen"@,
            r.pulse_rhs@ == "auto"@,
    {
        SolverConfig { mode: "hallen".to_owned(), pulse_rhs: "auto".to_owned() }
    }
}

/// A named run variant inside a project: it uses the project-level solver
/// configuration unless it carries its own.
#[derive(Debug, Clone, PartialEq)]
pub struct NamedRun {
    /// Short identifier for this run, unique within a project.
    pub name: String,
    /// Optional free-form description shown in reports.
    pub description: Option<String>,
    /// Optional per-run solver override.
    pub solver: Option<SolverConfig>,
}

/// Error type for project file load/save operations.
#[derive(Debug)]
pub enum ProjectError {
    /// TOML serialisation failed.
    SerialiseError(toml::ser::Error),
    /// TOML deserialisation failed.
    DeserialiseError(toml::de::Error),
    /// The file declares an unsupported format version.
    UnsupportedVersion(u32),
    /// Markdown import parsing failed.
    MarkdownParseError(String),
}

/// `toml::ser::Error`'s `Display`: the text of the serialisation error.
/// Nothing is claimed of the text, which the error's inner cause decides.
#[verifier::external_body]
fn ser_error_text(e: &toml::ser::Error) -> String {
    e.to_string()
}

/// `toml::de::Error`'s `Display`: the text of the deserialisation error.
/// Nothing is claimed of the text, which the error's inner cause decides.
#[verifier::external_body]
fn de_error_text(e: &toml::de::Error) -> String {
    e.to_string()
}

impl ProjectError {
    /// The message shown for this error; a TOML error's own text follows
    /// its prefix.
    pub fn message(&self) -> (r: String)
        ensures
            match self {
                ProjectError::SerialiseError(_) => exists|t: Seq<char>| r@ == "project serialise error: "@ + t,
                ProjectError::DeserialiseError(_) => exists|t: Seq<char>| r@ == "project deserialise error: "@ + t,
                ProjectError::UnsupportedVersion(v) => r@ == "unsupported project file version "@ + decimal_text(
                    *v as nat,
                ) + " (expected "@ + decimal_text(PROJECT_FILE_VERSION as nat) + ")"@,
                ProjectError::MarkdownParseError(m) => r@ == "project markdown parse error: "@ + m@,
            },
    {
        let mut r = String::new();
        match self {
            ProjectError::SerialiseError(e) => {
                r.append("project serialise error: ");
                let t = ser_error_text(e);
                r.append(t.as_str());
                assert(r@ == "project serialise error: "@ + t@);
            },
            ProjectError::DeserialiseError(e) => {
                r.append("project deserialise error: ");
                let t = de_error_text(e);
                r.append(t.as_str());
                assert(r@ == "project deserialise error: "@ + t@);
            },
            ProjectError::UnsupportedVersion(v) => {
                r.append("unsupported project file version ");
                push_decimal(&mut r, *v as u64);
                r.append(" (expected ");
                push_decimal(&mut r, PROJECT_FILE_VERSION as u64);
                r.append(")");
            },
            ProjectError::MarkdownParseError(m) => {
                r.append("project markdown parse error: ");
                r.append(m.as_str());
            },
        }
        r
    }
}

/// Refuse a project document whose `version` is not [`PROJECT_FILE_VERSION`].
pub fn check_project_version(version: u32) -> (r: Result<(), ProjectError>)
    ensures
        version == PROJECT_FILE_VERSION <==> r is Ok,
        r matches Err(e) ==> e matches ProjectError::UnsupportedVersion(v) && v == version,
{
    if version != PROJECT_FILE_VERSION {
        Err(ProjectError::UnsupportedVersion(version))
    } else {
        Ok(())
    }
}

/// Refuse a Markdown manifest whose frontmatter version differs from the
/// version of the project document it carries.
pub fn check_payload_version(frontmatter_version: u32, payload_version: u32) -> (r: Result<
    (),
    ProjectError,
>)
    ensures
        frontmatter_version == payload_version <==> r is Ok,
        r matches Err(e) ==> e matches ProjectError::MarkdownParseError(m) && m@ == "frontmatter version "@
            + decimal_text(frontmatter_version as nat) + " does not match project payload version "@
            + decimal_text(payload_version as nat),
{
    if frontmatter_version != payload_version {
        let mut m = String::new();
        m.append("frontmatter version ");
        m.append(string_of(&u64_text(frontmatter_version as u64)).as_str());
        m.append(" does not match project payload version ");
        m.append(string_of(&u64_text(payload_version as u64)).as_str());
        Err(ProjectError::MarkdownParseError(m))
    } else {
        Ok(())
    }
}

// ---------------------------------------------------------------------------
// YAML scalars
// ---------------------------------------------------------------------------

/// `v` without one pair of enclosing double or single quotes.
pub open spec fn unquoted(v: Seq<char>) -> Seq<char> {
    if v.len() >= 2 && ((v[0] == '"' && v.last() == '"') || (v[0] == '\'' && v.last() == '\'')) {
        v.subrange(1, v.len() - 1)
    } else {
        v
    }
}

/// Strip one pair of enclosing double or single quotes from a YAML scalar.
pub fn strip_yaml_scalar(value: &str) -> (r: &str)
    ensures
        r@ == unquoted(value@),
{
    let v = chars_of(value);
    let n = v.len();
    if n >= 2 && ((v[0] == '"' && v[n - 1] == '"') || (v[0] == '\'' && v[n - 1] == '\'')) {
        value.substring_char(1, n - 1)
    } else {
        value
    }
}

fn unquote_chars(v: Vec<char>) -> (r: Vec<char>)
    ensures
        r@ == unquoted(v@),
{
    let n = v.len();
    if n >= 2 && ((v[0] == '"' && v[n - 1] == '"') || (v[0] == '\'' && v[n - 1] == '\'')) {
        slice_chars(&v, 1, n - 1)
    } else {
        v
    }
}

// ---------------------------------------------------------------------------
// The manifest grammar
// ---------------------------------------------------------------------------

pub open spec fn is_delimiter(l: Seq<char>) -> bool {
    trim(l) == seq!['-', '-', '-']
}

/// Index of the first delimiter line at or after `i`.
pub open spec fn delimiter_from(ls: Seq<Seq<char>>, i: int) -> Option<int>
    decreases ls.len() - i,
{
    if i < 0 || i >= ls.len() {
        None
    } else if is_delimiter(ls[i]) {
        Some(i)
    } else {
        delimiter_from(ls, i + 1)
    }
}

/// Position of the first `:` in `t`.
pub open spec fn colon_at(t: Seq<char>) -> Option<int>
    decreases t.len(),
{
    if t.len() == 0 {
        None
    } else {
        match colon_at(t.drop_last()) {
            Some(c) => Some(c),
            None => if t.last() == ':' {
                Some(t.len() - 1)
            } else {
                None
            },
        }
    }
}

/// Frontmatter keys read so far: `format` and `version`.
pub type Frontmatter = (Option<Seq<char>>, Option<u32>);

/// One frontmatter line applied to the keys read so far: blank lines and
/// `#` comments are skipped, a line without `:` is an error, `format` and
/// `version` are recorded (a later line overrides an earlier one) and other
/// keys are ignored.
pub open spec fn frontmatter_step(st: Frontmatter, line: Seq<char>) -> Result<Frontmatter, Seq<char>> {
    let t = trim(line);
    if t.len() == 0 || t[0] == '#' {
        Ok(st)
    } else {
        match colon_at(t) {
            None => Err("invalid frontmatter line: "@ + t),
            Some(c) => {
                let key = trim(t.take(c));
                let value = unquoted(trim(t.skip(c + 1)));
                if key == "format"@ {
                    Ok((Some(value), st.1))
                } else if key == "version"@ {
                    match parse_u32_spec(value) {
                        Some(v) => Ok((st.0, Some(v))),
                        None => Err("frontmatter version must be an integer"@),
                    }
                } else {
                    Ok(st)
                }
            },
        }
    }
}

/// The frontmatter keys of lines `lo..hi`.
pub open spec fn frontmatter(ls: Seq<Seq<char>>, lo: int, hi: int) -> Result<Frontmatter, Seq<char>>
    decreases hi - lo,
{
    if hi <= lo {
        Ok((None, None))
    } else {
        match frontmatter(ls, lo, hi - 1) {
            Err(e) => Err(e),
            Ok(st) => frontmatter_step(st, ls[hi - 1]),
        }
    }
}

pub proof fn lemma_frontmatter_err_stays(ls: Seq<Seq<char>>, lo: int, h: int, h2: int)
    requires
        lo <= h <= h2,
        frontmatter(ls, lo, h) is Err,
    ensures
        frontmatter(ls, lo, h2) == frontmatter(ls, lo, h),
    decreases h2 - h,
{
    if h2 > h {
        lemma_frontmatter_err_stays(ls, lo, h, h2 - 1);
    }
}

/// Reading state of the fenced block: inside it, past its end, and the body
/// collected so far.
pub type BlockState = (bool, bool, Seq<char>);

/// Whether a trimmed line opens the project block: ```` ``` ```` followed by
/// an info string that starts with `toml` and mentions `project`.
pub open spec fn opens_block(t: Seq<char>) -> bool {
    t.len() >= 3 && t.take(3) == seq!['`', '`', '`'] && {
        let info = trim(t.skip(3));
        info.len() >= 4 && info.take(4) == seq!['t', 'o', 'm', 'l'] && contains_seq(
            info,
            seq!['p', 'r', 'o', 'j', 'e', 'c', 't'],
        )
    }
}

pub open spec fn block_step(st: BlockState, line: Seq<char>) -> BlockState {
    let t = trim(line);
    if st.1 {
        st
    } else if !st.0 {
        if opens_block(t) {
            (true, false, st.2)
        } else {
            st
        }
    } else if t == seq!['`', '`', '`'] {
        (true, true, st.2)
    } else {
        (true, false, st.2 + line + seq!['\n'])
    }
}

/// The block-reading state after lines `lo..hi`.
pub open spec fn block(ls: Seq<Seq<char>>, lo: int, hi: int) -> BlockState
    decreases hi - lo,
{
    if hi <= lo {
        (false, false, Seq::empty())
    } else {
        block_step(block(ls, lo, hi - 1), ls[hi - 1])
    }
}

/// What a Markdown manifest yields: the frontmatter version and the TOML
/// project text, or the message of the `MarkdownParseError` it is refused with.
pub open spec fn manifest(s: Seq<char>) -> Result<(u32, Seq<char>), Seq<char>> {
    let ls = lines(s);
    if ls.len() < 3 || !is_delimiter(ls[0]) {
        Err("missing YAML frontmatter opening delimiter"@)
    } else {
        match delimiter_from(ls, 1) {
            None => Err("missing YAML frontmatter closing delimiter"@),
            Some(e) => match frontmatter(ls, 1, e) {
                Err(m) => Err(m),
                Ok(fm) => if fm.0 != Some("fnec-project-markdown"@) {
                    Err("frontmatter format must be fnec-project-markdown"@)
                } else {
                    match fm.1 {
                        None => Err("frontmatter version is required"@),
                        Some(v) => {
                            let body = block(ls, e + 1, ls.len() as int).2;
                            if trim(body).len() == 0 {
                                Err("missing fenced TOML project block (```toml project)"@)
                            } else {
                                Ok((v, body))
                            }
                        },
                    }
                },
            },
        }
    }
}

/// The parts of a Markdown manifest: what its TOML block must be read into a
/// project document from, and the frontmatter version that document's own
/// version must then equal (see [`check_payload_version`]).
pub struct MarkdownManifest {
    pub frontmatter_version: u32,
    pub project_toml: String,
}

fn markdown_error(msg: &str) -> (r: Result<MarkdownManifest, ProjectError>)
    ensures
        r matches Err(e) && e matches ProjectError::MarkdownParseError(m) && m@ == msg@,
{
    Err(ProjectError::MarkdownParseError(msg.to_owned()))
}

fn is_delimiter_exec(l: &[char]) -> (r: bool)
    ensures
        r == is_delimiter(l@),
{
    let t = trim_chars(l);
    let d = ['-', '-', '-'];
    assert(d@ =~= seq!['-', '-', '-']);
    chars_eq(&t, &d)
}

fn colon_index(t: &[char]) -> (r: Option<usize>)
    ensures
        match r {
            Some(c) => c < t.len() && colon_at(t@) == Some(c as int),
            None => colon_at(t@) is None,
        },
{
    let mut i: usize = 0;
    proof {
        assert(t@.take(0) =~= Seq::<char>::empty());
    }
    while i < t.len()
        invariant
            i <= t.len(),
            colon_at(t@.take(i as int)) is None,
        decreases t.len() - i,
    {
        proof {
            assert(t@.take(i + 1).drop_last() =~= t@.take(i as int));
        }
        if t[i] == ':' {
            proof {
                lemma_colon_prefix(t@, i as int);
            }
            return Some(i);
        }
        i = i + 1;
    }
    assert(t@.take(t.len() as int) =~= t@);
    None
}

proof fn lemma_colon_prefix(t: Seq<char>, i: int)
    requires
        0 <= i < t.len(),
        t[i] == ':',
        colon_at(t.take(i)) is None,
    ensures
        colon_at(t) == Some(i),
    decreases t.len(),
{
    if i + 1 < t.len() {
        assert(t.drop_last().take(i) =~= t.take(i));
        lemma_colon_prefix(t.drop_last(), i);
    } else {
        assert(t.drop_last() =~= t.take(i));
    }
}

fn frontmatter_line(st_format: Option<Vec<char>>, st_version: Option<u32>, line: &[char]) -> (r: Result<
    (Option<Vec<char>>, Option<u32>),
    String,
>)
    ensures
        match r {
            Ok((f, v)) => frontmatter_step(
                (
                    match st_format {
                        Some(x) => Some(x@),
                        None => None,
                    },
                    st_version,
                ),
                line@,
            ) == Ok::<Frontmatter, Seq<char>>(
                (
                    match f {
                        Some(x) => Some(x@),
                        None => None,
                    },
                    v,
                ),
            ),
            Err(m) => frontmatter_step(
                (
                    match st_format {
                        Some(x) => Some(x@),
                        None => None,
                    },
                    st_version,
                ),
                line@,
            ) == Err::<Frontmatter, Seq<char>>(m@),
        },
{
    let t = trim_chars(line);
    if t.len() == 0 || t[0] == '#' {
        return Ok((st_format, st_version));
    }
    match colon_index(&t) {
        None => {
            let mut m = String::new();
            m.append("invalid frontmatter line: ");
            let ts = string_of(&t);
            m.append(ts.as_str());
            Err(m)
        },
        Some(c) => {
            let k = slice_chars(&t, 0, c);
            let key = trim_chars(&k);
            let vv = slice_chars(&t, c + 1, t.len());
            let value = unquote_chars(trim_chars(&vv));
            proof {
                assert(k@ =~= t@.take(c as int));
                assert(vv@ =~= t@.skip(c + 1));
            }
            let format_word = chars_of("format");
            let version_word = chars_of("version");
            if chars_eq(&key, &format_word) {
                Ok((Some(value), st_version))
            } else if chars_eq(&key, &version_word) {
                match parse_u32_text(&value) {
                    Some(v) => Ok((st_format, Some(v))),
                    None => Err("frontmatter version must be an integer".to_owned()),
                }
            } else {
                Ok((st_format, st_version))
            }
        },
    }
}

pub open spec fn opt_view(o: Option<Vec<char>>) -> Option<Seq<char>> {
    match o {
        Some(x) => Some(x@),
        None => None,
    }
}

fn opens_block_exec(t: &[char]) -> (r: bool)
    ensures
        r == opens_block(t@),
{
    let fence = ['`', '`', '`'];
    assert(fence@ =~= seq!['`', '`', '`']);
    if !starts_with_chars(t, &fence) {
        return false;
    }
    let rest = slice_chars(t, 3, t.len());
    assert(rest@ =~= t@.skip(3));
    let info = trim_chars(&rest);
    let toml_word = ['t', 'o', 'm', 'l'];
    let project_word = ['p', 'r', 'o', 'j', 'e', 'c', 't'];
    assert(toml_word@ =~= seq!['t', 'o', 'm', 'l']);
    assert(project_word@ =~= seq!['p', 'r', 'o', 'j', 'e', 'c', 't']);
    starts_with_chars(&info, &toml_word) && contains_chars(&info, &project_word)
}

/// Read a Markdown project manifest: check its frontmatter and return the
/// frontmatter version and the text of its fenced TOML project block.
pub fn markdown_manifest(s: &str) -> (r: Result<MarkdownManifest, ProjectError>)
    ensures
        match r {
            Ok(m) => manifest(s@) == Ok::<(u32, Seq<char>), Seq<char>>(
                (m.frontmatter_version, m.project_toml@),
            ),
            Err(e) => e matches ProjectError::MarkdownParseError(msg) && manifest(s@) == Err::<
                (u32, Seq<char>),
                Seq<char>,
            >(msg@),
        },
{
    let chars = chars_of(s);
    let ls = lines_of(&chars);
    let ghost lv = lines(s@);
    assert(lv == lines_view(ls@));
    let n = ls.len();
    if n < 3 || !is_delimiter_exec(&ls[0]) {
        proof {
            if n >= 3 {
                assert(lv[0] == ls@[0]@);
            }
        }
        return markdown_error("missing YAML frontmatter opening delimiter");
    }
    proof {
        assert(lv[0] == ls@[0]@);
    }
    // Closing delimiter.
    let mut e: usize = 1;
    while e < n && !is_delimiter_exec(&ls[e])
        invariant
            1 <= e <= n == ls.len(),
            lv == lines_view(ls@),
            delimiter_from(lv, 1) == delimiter_from(lv, e as int),
        decreases n - e,
    {
        proof {
            assert(lv[e as int] == ls@[e as int]@);
        }
        e = e + 1;
    }
    if e == n {
        return markdown_error("missing YAML frontmatter closing delimiter");
    }
    proof {
        assert(lv[e as int] == ls@[e as int]@);
        assert(delimiter_from(lv, e as int) == Some(e as int));
    }
    // Frontmatter keys.
    let mut format_value: Option<Vec<char>> = None;
    let mut version_value: Option<u32> = None;
    let mut i: usize = 1;
    while i < e
        invariant
            1 <= i <= e < n == ls.len(),
            lv == lines_view(ls@),
            lv == lines(s@),
            is_delimiter(lv[0]),
            delimiter_from(lv, 1) == Some(e as int),
            frontmatter(lv, 1, i as int) == Ok::<Frontmatter, Seq<char>>(
                (opt_view(format_value), version_value),
            ),
        decreases e - i,
    {
        proof {
            assert(lv[i as int] == ls@[i as int]@);
        }
        match frontmatter_line(format_value, version_value, &ls[i]) {
            Ok((f, v)) => {
                format_value = f;
                version_value = v;
            },
            Err(m) => {
                proof {
                    lemma_frontmatter_err_stays(lv, 1, (i + 1) as int, e as int);
                }
                return Err(ProjectError::MarkdownParseError(m));
            },
        }
        i = i + 1;
    }
    let fmt_word = chars_of("fnec-project-markdown");
    let format_ok = match &format_value {
        Some(f) => chars_eq(f, &fmt_word),
        None => false,
    };
    if !format_ok {
        return markdown_error("frontmatter format must be fnec-project-markdown");
    }
    let frontmatter_version = match version_value {
        Some(v) => v,
        None => {
            return markdown_error("frontmatter version is required");
        },
    };
    // The fenced project block.
    let mut in_block = false;
    let mut done = false;
    let mut body: Vec<char> = Vec::new();
    let mut j: usize = e + 1;
    let fence = ['`', '`', '`'];
    assert(fence@ =~= seq!['`', '`', '`']);
    while j < n
        invariant
            e + 1 <= j <= n == ls.len(),
            lv == lines_view(ls@),
            lv == lines(s@),
            is_delimiter(lv[0]),
            delimiter_from(lv, 1) == Some(e as int),
            frontmatter(lv, 1, e as int) == Ok::<Frontmatter, Seq<char>>(
                (opt_view(format_value), version_value),
            ),
            opt_view(format_value) == Some("fnec-project-markdown"@),
            version_value == Some(frontmatter_version),
            fence@ == seq!['`', '`', '`'],
            block(lv, e + 1, j as int) == (in_block, done, body@),
        decreases n - j,
    {
        proof {
            assert(lv[j as int] == ls@[j as int]@);
        }
        if !done {
            let t = trim_chars(&ls[j]);
            if !in_block {
                if opens_block_exec(&t) {
                    in_block = true;
                }
            } else if chars_eq(&t, &fence) {
                done = true;
            } else {
                let mut k: usize = 0;
                let ghost before = body@;
                while k < ls[j].len()
                    invariant
                        j < ls.len(),
                        k <= ls@[j as int].len(),
                        body@ == before + ls@[j as int]@.take(k as int),
                    decreases ls@[j as int].len() - k,
                {
                    body.push(ls[j][k]);
                    k = k + 1;
                    assert(body@ =~= before + ls@[j as int]@.take(k as int));
                }
                body.push('\n');
                assert(body@ =~= before + ls@[j as int]@ + seq!['\n']);
            }
        }
        j = j + 1;
    }
    let tb = trim_chars(&body);
    if tb.len() == 0 {
        return markdown_error("missing fenced TOML project block (```toml project)");
    }
    let project_toml = string_of(&body);
    Ok(MarkdownManifest { frontmatter_version, project_toml })
}

} // verus!

verus! {

// ---------------------------------------------------------------------------
// Run history
// ---------------------------------------------------------------------------

/// Ordered collection of run records, oldest first. The records themselves
/// (timestamps, result summaries) are the caller's; the history only keeps
/// their order.
#[derive(Debug, Clone, PartialEq)]
pub struct RunHistory<R>(pub Vec<R>);

impl<R> View for RunHistory<R> {
    type V = Seq<R>;

    open spec fn view(&self) -> Seq<R> {
        self.0@
    }
}

impl<R> Default for RunHistory<R> {
    /// An empty history.
    fn default() -> (h: RunHistory<R>)
        ensures
            h@ == Seq::<R>::empty(),
    {
        RunHistory(Vec::new())
    }
}

impl<R> RunHistory<R> {
    /// Number of recorded runs.
    pub fn run_count(&self) -> (n: usize)
        ensures
            n == self@.len(),
    {
        self.0.len()
    }

    /// Most recent run record, or `None` when empty.
    pub fn last_run(&self) -> (r: Option<&R>)
        ensures
            self@.len() == 0 ==> r is None,
            self@.len() > 0 ==> r == Some(&self@.last()),
    {
        let n = self.0.len();
        if n == 0 {
            None
        } else {
            Some(&self.0[n - 1])
        }
    }

    /// Run record at zero-based `index`, or `None` when out of range.
    pub fn run_by_index(&self, index: usize) -> (r: Option<&R>)
        ensures
            index < self@.len() ==> r == Some(&self@[index as int]),
            index >= self@.len() ==> r is None,
    {
        if index < self.0.len() {
            Some(&self.0[index])
        } else {
            None
        }
    }

    /// `true` when no runs have been recorded.
    pub fn is_empty(&self) -> (b: bool)
        ensures
            b == (self@.len() == 0),
    {
        self.0.len() == 0
    }

    /// Append a run record to the history.
    pub fn push(&mut self, record: R)
        ensures
            final(self)@ == old(self)@.push(record),
    {
        self.0.push(record);
    }
}

/// What a history gives back after a push: one more run, the pushed record
/// as the last one and at the old count's index, and every earlier record
/// still at its index.
pub proof fn law_push_then_query<R>(before: Seq<R>, record: R)
    ensures
        before.push(record).len() == before.len() + 1,
        before.push(record).last() == record,
        before.push(record)[before.len() as int] == record,
        forall|i: int| 0 <= i < before.len() ==> #[trigger] before.push(record)[i] == before[i],
{
}

// ---------------------------------------------------------------------------
// A wrapped project text comes back
// ---------------------------------------------------------------------------

/// Lines of text, each followed by a newline.
pub open spec fn joined_lines(body: Seq<Seq<char>>) -> Seq<char>
    decreases body.len(),
{
    if body.len() == 0 {
        Seq::empty()
    } else {
        joined_lines(body.drop_last()) + body.last() + seq!['\n']
    }
}

/// The lines of the Markdown form of a project text given by its lines:
/// frontmatter naming the format and version 1, then the text in a
/// ```` ```toml project ```` block.
pub open spec fn wrapped_lines(body: Seq<Seq<char>>) -> Seq<Seq<char>> {
    seq!["---"@, "format: fnec-project-markdown"@, "version: 1"@, "---"@, "```toml project"@] + body + seq![
        "```"@,
    ]
}

/// A line with no whitespace at either end is its own trim.
proof fn lemma_trim_plain(s: Seq<char>)
    requires
        s.len() > 0,
        !crate::text::is_ws(s[0]),
        !crate::text::is_ws(s.last()),
    ensures
        trim(s) == s,
{
    crate::text::lemma_lead_ws(s, 0);
    assert(s.skip(0) =~= s);
    crate::text::lemma_trail_ws(s, s.len() as int);
    assert(s.take(s.len() as int) =~= s);
}

/// No `:` among the first `i` characters.
proof fn lemma_colon_none(t: Seq<char>, i: int)
    requires
        0 <= i <= t.len(),
        forall|j: int| 0 <= j < i ==> t[j] != ':',
    ensures
        colon_at(t.take(i)) is None,
    decreases i,
{
    if i > 0 {
        lemma_colon_none(t, i - 1);
        assert(t.take(i).drop_last() =~= t.take(i - 1));
    }
}

proof fn lemma_format_line()
    ensures
        frontmatter_step((None, None), "format: fnec-project-markdown"@) == Ok::<Frontmatter, Seq<char>>(
            (Some("fnec-project-markdown"@), None),
        ),
{
    reveal_strlit("format: fnec-project-markdown");
    reveal_strlit("fnec-project-markdown");
    reveal_strlit("format");
    reveal_strlit("version");
    let t = "format: fnec-project-markdown"@;
    lemma_trim_plain(t);
    lemma_colon_none(t, 6);
    lemma_colon_prefix(t, 6);
    let k = t.take(6);
    lemma_trim_plain(k);
    assert(k =~= "format"@);
    let v = t.skip(7);
    crate::text::lemma_lead_ws(v, 1);
    crate::text::lemma_trail_ws(v.skip(1), v.skip(1).len() as int);
    assert(v.skip(1).take(v.skip(1).len() as int) =~= v.skip(1));
    assert(trim(v) =~= "fnec-project-markdown"@);
}

proof fn lemma_version_line(f: Option<Seq<char>>)
    ensures
        frontmatter_step((f, None), "version: 1"@) == Ok::<Frontmatter, Seq<char>>((f, Some(1u32))),
{
    reveal_strlit("version: 1");
    reveal_strlit("format");
    reveal_strlit("version");
    let t = "version: 1"@;
    lemma_trim_plain(t);
    lemma_colon_none(t, 7);
    lemma_colon_prefix(t, 7);
    let k = t.take(7);
    lemma_trim_plain(k);
    assert(k =~= "version"@);
    assert(k != "format"@) by {
        assert(k.len() != "format"@.len());
    }
    let v = t.skip(8);
    crate::text::lemma_lead_ws(v, 1);
    crate::text::lemma_trail_ws(v.skip(1), 1);
    let one = v.skip(1);
    assert(one.take(1) =~= one);
    assert(trim(v) =~= seq!['1']);
    crate::text::lemma_digits_prefix(seq!['1'], 1);
    assert(seq!['1'].drop_last() =~= Seq::<char>::empty());
    assert(crate::text::decimal_value(Seq::<char>::empty()) == 0);
    assert(('1' as u32) == 49u32 && ('0' as u32) == 48u32);
    assert(crate::text::digit_value('1') == 1);
    assert(crate::text::decimal_value(seq!['1']) == 1);
}

proof fn lemma_opens_project_block()
    ensures
        opens_block(trim("```toml project"@)),
{
    reveal_strlit("```toml project");
    let t = "```toml project"@;
    lemma_trim_plain(t);
    let info = t.skip(3);
    lemma_trim_plain(info);
    assert(t.take(3) =~= seq!['`', '`', '`']);
    assert(info.take(4) =~= seq!['t', 'o', 'm', 'l']);
    assert(crate::text::contains_at(info, seq!['p', 'r', 'o', 'j', 'e', 'c', 't'], 5)) by {
        assert(info.subrange(5, 12) =~= seq!['p', 'r', 'o', 'j', 'e', 'c', 't']);
    }
}

proof fn lemma_block_body(body: Seq<Seq<char>>, j: int)
    requires
        0 <= j <= body.len(),
        forall|i: int| 0 <= i < body.len() ==> trim(#[trigger] body[i]) != "```"@,
    ensures
        block(wrapped_lines(body), 4, 5 + j) == (true, false, joined_lines(body.take(j))),
    decreases j,
{
    let ls = wrapped_lines(body);
    if j == 0 {
        lemma_opens_project_block();
        assert(ls[4] == "```toml project"@);
        assert(body.take(0) =~= Seq::<Seq<char>>::empty());
        assert(block(ls, 4, 4) == (false, false, Seq::<char>::empty()));
        assert(block(ls, 4, 5) == block_step(block(ls, 4, 4), ls[4]));
        assert(joined_lines(body.take(0)) == Seq::<char>::empty());
    } else {
        lemma_block_body(body, j - 1);
        assert(ls[4 + j] == body[j - 1]);
        reveal_strlit("```");
        assert("```"@ =~= seq!['`', '`', '`']);
        assert(trim(body[j - 1]) != seq!['`', '`', '`']);
        assert(body.take(j).drop_last() =~= body.take(j - 1));
        assert(body.take(j).last() == body[j - 1]);
        assert(block(ls, 4, 5 + j) == block_step(block(ls, 4, 4 + j), ls[4 + j]));
        assert(joined_lines(body.take(j)) == joined_lines(body.take(j - 1)) + body[j - 1] + seq!['\n']);
    }
}

/// The Markdown form of a project text gives the text back: for a file
/// whose lines are the frontmatter naming the format and version 1, then a
/// ```` ```toml project ```` block holding the text's lines, the manifest
/// reads version 1 and exactly that text, each line ended by a newline.
/// (The text must not be blank, and no line of it may close the block.)
pub proof fn law_wrapped_project_text_comes_back(s: Seq<char>, body: Seq<Seq<char>>)
    requires
        lines(s) == wrapped_lines(body),
        forall|i: int| 0 <= i < body.len() ==> trim(#[trigger] body[i]) != "```"@,
        trim(joined_lines(body)).len() > 0,
    ensures
        manifest(s) == Ok::<(u32, Seq<char>), Seq<char>>((1u32, joined_lines(body))),
{
    let ls = wrapped_lines(body);
    reveal_strlit("---");
    reveal_strlit("format: fnec-project-markdown");
    reveal_strlit("version: 1");
    reveal_strlit("```");
    let d = "---"@;
    lemma_trim_plain(d);
    assert(d =~= seq!['-', '-', '-']);
    assert(is_delimiter(ls[0]));
    assert(ls[1] == "format: fnec-project-markdown"@);
    assert(ls[2] == "version: 1"@);
    lemma_trim_plain(ls[1]);
    lemma_trim_plain(ls[2]);
    assert(!is_delimiter(ls[1]));
    assert(!is_delimiter(ls[2]));
    assert(is_delimiter(ls[3]));
    assert(delimiter_from(ls, 3) == Some(3int));
    assert(delimiter_from(ls, 2) == Some(3int));
    assert(delimiter_from(ls, 1) == Some(3int));
    lemma_format_line();
    lemma_version_line(Some("fnec-project-markdown"@));
    assert(frontmatter(ls, 1, 1) == Ok::<Frontmatter, Seq<char>>((None, None)));
    assert(frontmatter(ls, 1, 2) == frontmatter_step((None, None), ls[1]));
    assert(frontmatter(ls, 1, 3) == Ok::<Frontmatter, Seq<char>>(
        (Some("fnec-project-markdown"@), Some(1u32)),
    ));
    lemma_block_body(body, body.len() as int);
    assert(body.take(body.len() as int) =~= body);
    let n = ls.len() as int;
    assert(n == 5 + body.len() + 1);
    assert(ls[n - 1] == "```"@);
    let c = "```"@;
    lemma_trim_plain(c);
    assert(c =~= seq!['`', '`', '`']);
    assert(block(ls, 4, n) == (true, true, joined_lines(body)));
}

} // verus!
