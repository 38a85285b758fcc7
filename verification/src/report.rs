//! The versioned text report: its header, its sections in their fixed
//! order, and the custom sections callers append after them. The rows of
//! each table arrive already formatted (their numbers are floating point);
//! which sections appear, in what order, with what headers and counts, is
//! decided here.

use vstd::prelude::*;
use vstd::string::StringExecFns;
use crate::text::{decimal_text, push_decimal};

verus! {

/// The formatted rows of each table of a report.
pub struct ReportTables {
    /// One row per feedpoint: `TAG SEG V_RE V_IM I_RE I_IM Z_RE Z_IM`.
    pub feedpoints: Vec<String>,
    /// One row per source card: `TYPE TAG SEG I4 V_RE V_IM`.
    pub sources: Vec<String>,
    /// One row per load card: `TYPE TAG SEG_FIRST SEG_LAST F1 F2 F3`.
    pub loads: Vec<String>,
    /// One row per segment current: `TAG SEG I_RE I_IM I_MAG I_PHASE`.
    pub currents: Vec<String>,
    /// One row per pattern point: `THETA PHI GAIN_DB GAIN_V_DB GAIN_H_DB AXIAL_RATIO`.
    pub pattern: Vec<String>,
    /// One row per receive-pattern point: `THETA PHI RESPONSE_DB`.
    pub receive_pattern: Vec<String>,
}

/// Each row, followed by a newline.
pub open spec fn row_lines(rows: Seq<Seq<char>>) -> Seq<char>
    decreases rows.len(),
{
    if rows.len() == 0 {
        Seq::empty()
    } else {
        row_lines(rows.drop_last()) + rows.last() + seq!['\n']
    }
}

/// A section: nothing when it has no rows; else a blank line, its title,
/// its point count when it states one, its column header and its rows.
pub open spec fn section_text(title: Seq<char>, count_label: Option<Seq<char>>, header: Seq<char>, rows: Seq<Seq<char>>) -> Seq<
    char,
> {
    if rows.len() == 0 {
        Seq::empty()
    } else {
        let count = match count_label {
            Some(label) => label + seq![' '] + decimal_text(rows.len()) + seq!['\n'],
            None => Seq::empty(),
        };
        seq!['\n'] + title + seq!['\n'] + count + header + seq!['\n'] + row_lines(rows)
    }
}

/// The report text (format version 1).
pub open spec fn report_text(
    freq_mhz: Seq<char>,
    solver_mode: Seq<char>,
    pulse_rhs: Seq<char>,
    feedpoints: Seq<Seq<char>>,
    sources: Seq<Seq<char>>,
    loads: Seq<Seq<char>>,
    currents: Seq<Seq<char>>,
    pattern: Seq<Seq<char>>,
    receive_pattern: Seq<Seq<char>>,
) -> Seq<char> {
    "FNEC FEEDPOINT REPORT\nFORMAT_VERSION 1\nFREQ_MHZ "@ + freq_mhz + "\nSOLVER_MODE "@ + solver_mode
        + "\nPULSE_RHS "@ + pulse_rhs + "\n\nFEEDPOINTS\nTAG SEG V_RE V_IM I_RE I_IM Z_RE Z_IM\n"@ + row_lines(
        feedpoints,
    ) + section_text("SOURCES"@, Some("N_SOURCES"@), "TYPE TAG SEG I4 V_RE V_IM"@, sources) + section_text(
        "LOADS"@,
        Some("N_LOADS"@),
        "TYPE TAG SEG_FIRST SEG_LAST F1 F2 F3"@,
        loads,
    ) + section_text("CURRENTS"@, None, "TAG SEG I_RE I_IM I_MAG I_PHASE"@, currents) + section_text(
        "RADIATION_PATTERN"@,
        Some("N_POINTS"@),
        "THETA PHI GAIN_DB GAIN_V_DB GAIN_H_DB AXIAL_RATIO"@,
        pattern,
    ) + section_text("RECEIVE_PATTERN"@, Some("N_POINTS"@), "THETA PHI RESPONSE_DB"@, receive_pattern)
}

/// Each row with a newline after it.
pub open spec fn newline_ended(rows: Seq<Seq<char>>) -> Seq<Seq<char>> {
    rows.map_values(|r: Seq<char>| r + seq!['\n'])
}

/// A table's rows are written in order, each on a line of its own, none
/// left out and nothing added: the rows, each followed by a newline, laid
/// end to end.
pub proof fn law_rows_are_written_in_order(rows: Seq<Seq<char>>)
    ensures
        row_lines(rows) == newline_ended(rows).flatten(),
    decreases rows.len(),
{
    newline_ended(rows).lemma_flatten_and_flatten_alt_are_equivalent();
    lemma_row_lines_alt(rows);
}

proof fn lemma_row_lines_alt(rows: Seq<Seq<char>>)
    ensures
        row_lines(rows) == newline_ended(rows).flatten_alt(),
    decreases rows.len(),
{
    if rows.len() > 0 {
        lemma_row_lines_alt(rows.drop_last());
        assert(newline_ended(rows).drop_last() =~= newline_ended(rows.drop_last()));
        assert(newline_ended(rows).last() == rows.last() + seq!['\n']);
        assert(row_lines(rows) =~= row_lines(rows.drop_last()) + (rows.last() + seq!['\n']));
    }
}

/// The lines a report opens with, up to the feedpoint table's column header.
pub open spec fn report_head(freq_mhz: Seq<char>, solver_mode: Seq<char>, pulse_rhs: Seq<char>) -> Seq<char> {
    "FNEC FEEDPOINT REPORT\nFORMAT_VERSION 1\nFREQ_MHZ "@ + freq_mhz + "\nSOLVER_MODE "@ + solver_mode
        + "\nPULSE_RHS "@ + pulse_rhs + "\n\nFEEDPOINTS\nTAG SEG V_RE V_IM I_RE I_IM Z_RE Z_IM\n"@
}

proof fn lemma_section_starts_a_line(title: Seq<char>, count_label: Option<Seq<char>>, header: Seq<char>, rows: Seq<Seq<char>>)
    ensures
        (section_text(title, count_label, header, rows).len() == 0) == (rows.len() == 0),
        rows.len() > 0 ==> section_text(title, count_label, header, rows)[0] == '\n',
{
}

/// Right after its column header, a report lists every feedpoint row, in
/// order, each on a line of its own; what follows them is nothing when the
/// report has no other rows, and otherwise begins a new section with a
/// blank line.
pub proof fn law_feedpoint_table_lists_every_row(
    freq_mhz: Seq<char>,
    solver_mode: Seq<char>,
    pulse_rhs: Seq<char>,
    feedpoints: Seq<Seq<char>>,
    sources: Seq<Seq<char>>,
    loads: Seq<Seq<char>>,
    currents: Seq<Seq<char>>,
    pattern: Seq<Seq<char>>,
    receive_pattern: Seq<Seq<char>>,
)
    ensures
        ({
            let r = report_text(
                freq_mhz,
                solver_mode,
                pulse_rhs,
                feedpoints,
                sources,
                loads,
                currents,
                pattern,
                receive_pattern,
            );
            let h = report_head(freq_mhz, solver_mode, pulse_rhs) + newline_ended(feedpoints).flatten();
            &&& h.len() <= r.len()
            &&& r.take(h.len() as int) == h
            &&& (r.len() == h.len()) == (sources.len() == 0 && loads.len() == 0 && currents.len() == 0
                && pattern.len() == 0 && receive_pattern.len() == 0)
            &&& r.len() > h.len() ==> r[h.len() as int] == '\n'
        }),
{
    law_rows_are_written_in_order(feedpoints);
    let s1 = section_text("SOURCES"@, Some("N_SOURCES"@), "TYPE TAG SEG I4 V_RE V_IM"@, sources);
    let s2 = section_text("LOADS"@, Some("N_LOADS"@), "TYPE TAG SEG_FIRST SEG_LAST F1 F2 F3"@, loads);
    let s3 = section_text("CURRENTS"@, None, "TAG SEG I_RE I_IM I_MAG I_PHASE"@, currents);
    let s4 = section_text(
        "RADIATION_PATTERN"@,
        Some("N_POINTS"@),
        "THETA PHI GAIN_DB GAIN_V_DB GAIN_H_DB AXIAL_RATIO"@,
        pattern,
    );
    let s5 = section_text("RECEIVE_PATTERN"@, Some("N_POINTS"@), "THETA PHI RESPONSE_DB"@, receive_pattern);
    lemma_section_starts_a_line("SOURCES"@, Some("N_SOURCES"@), "TYPE TAG SEG I4 V_RE V_IM"@, sources);
    lemma_section_starts_a_line("LOADS"@, Some("N_LOADS"@), "TYPE TAG SEG_FIRST SEG_LAST F1 F2 F3"@, loads);
    lemma_section_starts_a_line("CURRENTS"@, None, "TAG SEG I_RE I_IM I_MAG I_PHASE"@, currents);
    lemma_section_starts_a_line(
        "RADIATION_PATTERN"@,
        Some("N_POINTS"@),
        "THETA PHI GAIN_DB GAIN_V_DB GAIN_H_DB AXIAL_RATIO"@,
        pattern,
    );
    lemma_section_starts_a_line("RECEIVE_PATTERN"@, Some("N_POINTS"@), "THETA PHI RESPONSE_DB"@, receive_pattern);
    let h = report_head(freq_mhz, solver_mode, pulse_rhs) + newline_ended(feedpoints).flatten();
    let tail = s1 + s2 + s3 + s4 + s5;
    let r = report_text(freq_mhz, solver_mode, pulse_rhs, feedpoints, sources, loads, currents, pattern, receive_pattern);
    assert(r =~= h + tail);
    assert(r.take(h.len() as int) =~= h);
    if tail.len() > 0 {
        assert(r[h.len() as int] == tail[0]);
        if s1.len() > 0 {
        } else if s2.len() > 0 {
            assert(tail[0] == s2[0]);
        } else if s3.len() > 0 {
            assert(tail[0] == s3[0]);
        } else if s4.len() > 0 {
            assert(tail[0] == s4[0]);
        } else {
            assert(tail[0] == s5[0]);
        }
    }
}

/// Append each row and a newline.
fn push_rows(out: &mut String, rows: &Vec<String>)
    ensures
        final(out)@ == old(out)@ + row_lines(texts_view(rows@)),
{
    let ghost parts = texts_view(rows@);
    let ghost start = out@;
    let mut i: usize = 0;
    proof {
        assert(parts.take(0) =~= Seq::<Seq<char>>::empty());
        assert(start + row_lines(parts.take(0)) =~= start);
    }
    while i < rows.len()
        invariant
            i <= rows.len(),
            parts == texts_view(rows@),
            out@ == start + row_lines(parts.take(i as int)),
        decreases rows.len() - i,
    {
        let ghost before = out@;
        out.append(rows[i].as_str());
        out.append("\n");
        proof {
            reveal_strlit("\n");
            assert(parts.take(i + 1).drop_last() =~= parts.take(i as int));
            assert(parts.take(i + 1).last() == rows@[i as int]@);
            assert(out@ =~= start + row_lines(parts.take(i + 1)));
        }
        i = i + 1;
    }
    proof {
        assert(parts.take(rows.len() as int) =~= parts);
    }
}

/// Append a section (see [`section_text`]).
fn push_section(out: &mut String, title: &str, count_label: Option<&str>, header: &str, rows: &Vec<String>)
    requires
        rows.len() <= u64::MAX,
    ensures
        final(out)@ == old(out)@ + section_text(
            title@,
            match count_label {
                Some(l) => Some(l@),
                None => None,
            },
            header@,
            texts_view(rows@),
        ),
{
    if rows.len() == 0 {
        proof {
            assert(old(out)@ + Seq::<char>::empty() =~= old(out)@);
        }
        return;
    }
    let ghost start = out@;
    out.append("\n");
    out.append(title);
    out.append("\n");
    let ghost mid = out@;
    match count_label {
        Some(label) => {
            out.append(label);
            out.append(" ");
            push_decimal(out, rows.len() as u64);
            out.append("\n");
        },
        None => {},
    }
    out.append(header);
    out.append("\n");
    push_rows(out, rows);
    proof {
        reveal_strlit("\n");
        reveal_strlit(" ");
        assert(texts_view(rows@).len() == rows.len());
        assert(out@ =~= start + section_text(
            title@,
            match count_label {
                Some(l) => Some(l@),
                None => None,
            },
            header@,
            texts_view(rows@),
        ));
    }
}

/// Render the text report (format version 1) from its formatted rows:
/// the header lines, the feedpoint table, then each of the sources, loads,
/// currents, radiation-pattern and receive-pattern tables that has rows, in
/// that order.
pub fn render_text_report(freq_mhz: &str, solver_mode: &str, pulse_rhs: &str, tables: &ReportTables) -> (r: String)
    ensures
        r@ == report_text(
            freq_mhz@,
            solver_mode@,
            pulse_rhs@,
            texts_view(tables.feedpoints@),
            texts_view(tables.sources@),
            texts_view(tables.loads@),
            texts_view(tables.currents@),
            texts_view(tables.pattern@),
            texts_view(tables.receive_pattern@),
        ),
{
    let mut out = String::new();
    out.append("FNEC FEEDPOINT REPORT\nFORMAT_VERSION 1\nFREQ_MHZ ");
    out.append(freq_mhz);
    out.append("\nSOLVER_MODE ");
    out.append(solver_mode);
    out.append("\nPULSE_RHS ");
    out.append(pulse_rhs);
    out.append("\n\nFEEDPOINTS\nTAG SEG V_RE V_IM I_RE I_IM Z_RE Z_IM\n");
    push_rows(&mut out, &tables.feedpoints);
    push_section(&mut out, "SOURCES", Some("N_SOURCES"), "TYPE TAG SEG I4 V_RE V_IM", &tables.sources);
    push_section(&mut out, "LOADS", Some("N_LOADS"), "TYPE TAG SEG_FIRST SEG_LAST F1 F2 F3", &tables.loads);
    push_section(&mut out, "CURRENTS", None, "TAG SEG I_RE I_IM I_MAG I_PHASE", &tables.currents);
    push_section(
        &mut out,
        "RADIATION_PATTERN",
        Some("N_POINTS"),
        "THETA PHI GAIN_DB GAIN_V_DB GAIN_H_DB AXIAL_RATIO",
        &tables.pattern,
    );
    push_section(&mut out, "RECEIVE_PATTERN", Some("N_POINTS"), "THETA PHI RESPONSE_DB", &tables.receive_pattern);
    out
}

/// A section appended after the standard sections of a text report.
/// Trailing newlines are the implementor's responsibility.
pub trait ReportSection {
    /// The text this section renders to.
    spec fn rendered(&self) -> Seq<char>;

    /// Renders the custom section to a string.
    fn render(&self) -> (r: String)
        ensures
            r@ == self.rendered(),
    ;
}

/// A section of fixed text.
pub struct FixedSection(pub &'static str);

impl ReportSection for FixedSection {
    open spec fn rendered(&self) -> Seq<char> {
        self.0@
    }

    fn render(&self) -> (r: String) {
        self.0.to_owned()
    }
}

/// `base`, then each of `parts` on a new line, in order.
pub open spec fn with_sections(base: Seq<char>, parts: Seq<Seq<char>>) -> Seq<char>
    decreases parts.len(),
{
    if parts.len() == 0 {
        base
    } else {
        with_sections(base, parts.drop_last()) + seq!['\n'] + parts.last()
    }
}

pub open spec fn texts_view(v: Seq<String>) -> Seq<Seq<char>> {
    v.map_values(|s: String| s@)
}

/// Append already rendered sections to a report, each after a newline.
pub fn append_sections(base: String, rendered: &Vec<String>) -> (r: String)
    ensures
        r@ == with_sections(base@, texts_view(rendered@)),
{
    let ghost parts = texts_view(rendered@);
    let mut out = base;
    let ghost b = out@;
    let mut i: usize = 0;
    proof {
        assert(parts.take(0) =~= Seq::<Seq<char>>::empty());
    }
    while i < rendered.len()
        invariant
            i <= rendered.len(),
            parts == texts_view(rendered@),
            out@ == with_sections(b, parts.take(i as int)),
        decreases rendered.len() - i,
    {
        let ghost before = out@;
        out.append("\n");
        proof {
            reveal_strlit("\n");
        }
        out.append(rendered[i].as_str());
        proof {
            assert(parts.take(i + 1).drop_last() =~= parts.take(i as int));
            assert(parts.take(i + 1).last() == rendered@[i as int]@);
            assert(out@ =~= before + seq!['\n'] + rendered@[i as int]@);
        }
        i = i + 1;
    }
    proof {
        assert(parts.take(rendered.len() as int) =~= parts);
    }
    out
}

/// Append the custom sections, rendered in order, to a rendered text report;
/// with no sections the report is returned unchanged.
pub fn render_text_report_with_sections(base: String, extra_sections: &[&dyn ReportSection]) -> (r: String)
    ensures
        r@ == with_sections(
            base@,
            Seq::new(extra_sections@.len(), |i: int| extra_sections@[i].rendered()),
        ),
        extra_sections@.len() == 0 ==> r@ == base@,
{
    let ghost want = Seq::new(extra_sections@.len(), |i: int| extra_sections@[i].rendered());
    let mut rendered: Vec<String> = Vec::new();
    let mut i: usize = 0;
    while i < extra_sections.len()
        invariant
            i <= extra_sections.len(),
            rendered.len() == i,
            want == Seq::new(extra_sections@.len(), |i: int| extra_sections@[i].rendered()),
            forall|j: int| 0 <= j < i ==> #[trigger] rendered@[j]@ == want[j],
        decreases extra_sections.len() - i,
    {
        rendered.push(extra_sections[i].render());
        i = i + 1;
    }
    proof {
        assert(texts_view(rendered@) =~= want);
        if extra_sections@.len() == 0 {
            assert(want =~= Seq::<Seq<char>>::empty());
        }
    }
    append_sections(base, &rendered)
}

} // verus!
