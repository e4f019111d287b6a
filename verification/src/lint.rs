//! Linting a whole zone file: directives, records, and the errors on the way.
use vstd::prelude::*;
use crate::parse::{parse_line, parse_record, word_eq, word_matches};
use crate::record::{
    origin_directive, set_default_ttl, set_origin, ttl_directive, ContextView, ErrorView,
    ParseError, Record, RecordView, ZoneContext,
};
use crate::text::{chars_of, count_prefix, non_ws_pred, string_of, token_end, trim, trim_range};
use crate::zone::{check_zone, records_view, ZoneIssue};

verus! {

/// A line that failed, by its 1-based number.
#[derive(Debug)]
pub struct LineError {
    pub line: usize,
    pub error: ParseError,
}

/// What linting a zone file finds: the records that parsed, the lines that
/// did not, and the issues of the zone as a whole.
#[derive(Debug)]
pub struct ZoneReport {
    pub records: Vec<Record>,
    pub errors: Vec<LineError>,
    pub issues: Vec<ZoneIssue>,
}

/// What one trimmed line is.
pub enum LineKind {
    /// Empty, or a `;` comment.
    Skip,
    /// `$ORIGIN arg`.
    Origin(Seq<char>),
    /// `$TTL arg`.
    Ttl(Seq<char>),
    /// Anything else is a record.
    Record,
}

/// The kind of the trimmed line `l`: its first whitespace-separated word,
/// compared ignoring ASCII case, tells a directive, whose argument is the
/// rest of the line, trimmed.
pub open spec fn line_kind(l: Seq<char>) -> LineKind {
    if l.len() == 0 || l[0] == ';' {
        LineKind::Skip
    } else {
        let k = count_prefix(l, non_ws_pred()) as int;
        let keyword = l.take(k);
        let arg = trim(l.skip(k));
        if word_eq(keyword, seq!['$', 'O', 'R', 'I', 'G', 'I', 'N']) {
            LineKind::Origin(arg)
        } else if word_eq(keyword, seq!['$', 'T', 'T', 'L']) {
            LineKind::Ttl(arg)
        } else {
            LineKind::Record
        }
    }
}

/// The state after some lines: the context, the records so far, and the
/// errors so far with their 1-based line numbers.
pub struct LintState {
    pub ctx: ContextView,
    pub records: Seq<RecordView>,
    pub errors: Seq<(int, ErrorView)>,
}

/// One line, the `n`-th (1-based), read in the state `s`.
pub open spec fn lint_step(s: LintState, line: Seq<char>, n: int) -> LintState {
    let l = trim(line);
    match line_kind(l) {
        LineKind::Skip => s,
        LineKind::Origin(arg) => match origin_directive(s.ctx, arg) {
            Ok(o) => LintState { ctx: ContextView { origin: Some(o), ..s.ctx }, ..s },
            Err(e) => LintState { errors: s.errors.push((n, e)), ..s },
        },
        LineKind::Ttl(arg) => match ttl_directive(arg) {
            Ok(t) => LintState { ctx: ContextView { default_ttl: Some(t), ..s.ctx }, ..s },
            Err(e) => LintState { errors: s.errors.push((n, e)), ..s },
        },
        LineKind::Record => match parse_record(l, s.ctx) {
            Ok(r) => LintState { records: s.records.push(r), ..s },
            Err(e) => LintState { errors: s.errors.push((n, e)), ..s },
        },
    }
}

/// The state after reading `lines` in order from an empty context.
pub open spec fn lint_lines(lines: Seq<Seq<char>>) -> LintState
    decreases lines.len(),
{
    if lines.len() == 0 {
        LintState {
            ctx: ContextView { origin: None, default_ttl: None },
            records: seq![],
            errors: seq![],
        }
    } else {
        lint_step(lint_lines(lines.drop_last()), lines.last(), lines.len() as int)
    }
}

pub open spec fn line_errors_view(es: Seq<LineError>) -> Seq<(int, ErrorView)> {
    es.map_values(|e: LineError| (e.line as int, e.error@))
}

pub open spec fn lines_view(lines: Seq<String>) -> Seq<Seq<char>> {
    lines.map_values(|s: String| s@)
}

enum Kind {
    Skip,
    Origin(usize, usize),
    Ttl(usize, usize),
    Record,
}

/// The kind of the line `v[from..to]`, already trimmed.
fn classify(v: &Vec<char>, from: usize, to: usize) -> (k: Kind)
    requires
        from <= to <= v@.len(),
    ensures
        match line_kind(v@.subrange(from as int, to as int)) {
            LineKind::Skip => k is Skip,
            LineKind::Origin(arg) => k matches Kind::Origin(a, b) && a <= b <= to && arg
                == v@.subrange(a as int, b as int),
            LineKind::Ttl(arg) => k matches Kind::Ttl(a, b) && a <= b <= to && arg == v@.subrange(
                a as int,
                b as int,
            ),
            LineKind::Record => k is Record,
        },
{
    let ghost l = v@.subrange(from as int, to as int);
    if from == to || v[from] == ';' {
        return Kind::Skip;
    }
    let k = token_end(v, from, to);
    let (a, b) = trim_range(v, k, to);
    proof {
        assert(l.take(k - from) =~= v@.subrange(from as int, k as int));
        assert(l.skip(k - from) =~= v@.subrange(k as int, to as int));
    }
    if word_matches(v, from, k, &vec!['$', 'O', 'R', 'I', 'G', 'I', 'N']) {
        Kind::Origin(a, b)
    } else if word_matches(v, from, k, &vec!['$', 'T', 'T', 'L']) {
        Kind::Ttl(a, b)
    } else {
        Kind::Record
    }
}

/// Reads the lines of a zone file in order: `$ORIGIN` and `$TTL` directives
/// change the context for the lines after them, empty lines and `;`
/// comments are skipped, and every other line is a record.  Lines that fail
/// are reported by number and left out of the records; the records are
/// then checked as a zone.
pub fn lint_zone(lines: &Vec<String>) -> (report: ZoneReport)
    ensures
        records_view(report.records@) == lint_lines(lines_view(lines@)).records,
        line_errors_view(report.errors@) == lint_lines(lines_view(lines@)).errors,
        crate::zone::zone_issues(
            records_view(report.records@),
            crate::zone::issues_view(report.issues@),
        ),
{
    let ghost lv = lines_view(lines@);
    let mut ctx = ZoneContext { origin: None, default_ttl: None };
    let mut records: Vec<Record> = Vec::new();
    let mut errors: Vec<LineError> = Vec::new();
    let mut i: usize = 0;
    assert(lv.take(0) =~= Seq::<Seq<char>>::empty());
    assert(records_view(records@) =~= Seq::<RecordView>::empty());
    assert(line_errors_view(errors@) =~= Seq::<(int, ErrorView)>::empty());
    while i < lines.len()
        invariant
            i <= lines@.len(),
            lv == lines_view(lines@),
            ctx@ == lint_lines(lv.take(i as int)).ctx,
            records_view(records@) == lint_lines(lv.take(i as int)).records,
            line_errors_view(errors@) == lint_lines(lv.take(i as int)).errors,
        decreases lines.len() - i,
    {
        let ghost prev = lint_lines(lv.take(i as int));
        proof {
            let t = lv.take(i + 1);
            assert(t.drop_last() =~= lv.take(i as int));
            assert(t.last() == lines@[i as int]@);
        }
        let n = i + 1;
        let v = chars_of(lines[i].as_str());
        let (s, e) = trim_range(&v, 0, v.len());
        assert(v@.subrange(0, v@.len() as int) =~= v@);
        let ghost before_records = records@;
        let ghost before_errors = errors@;
        match classify(&v, s, e) {
            Kind::Skip => {},
            Kind::Origin(a, b) => {
                let arg = string_of(&v, a, b);
                match set_origin(&mut ctx, arg.as_str()) {
                    Ok(()) => {},
                    Err(err) => {
                        errors.push(LineError { line: n, error: err });
                        assert(line_errors_view(errors@) =~= line_errors_view(before_errors).push(
                            (n as int, errors@.last().error@),
                        ));
                    },
                }
            },
            Kind::Ttl(a, b) => {
                let arg = string_of(&v, a, b);
                match set_default_ttl(&mut ctx, arg.as_str()) {
                    Ok(()) => {},
                    Err(err) => {
                        errors.push(LineError { line: n, error: err });
                        assert(line_errors_view(errors@) =~= line_errors_view(before_errors).push(
                            (n as int, errors@.last().error@),
                        ));
                    },
                }
            },
            Kind::Record => {
                let l = string_of(&v, s, e);
                match parse_line(l.as_str(), &ctx) {
                    Ok(r) => {
                        records.push(r);
                        assert(records_view(records@) =~= records_view(before_records).push(
                            records@.last()@,
                        ));
                    },
                    Err(err) => {
                        errors.push(LineError { line: n, error: err });
                        assert(line_errors_view(errors@) =~= line_errors_view(before_errors).push(
                            (n as int, errors@.last().error@),
                        ));
                    },
                }
            },
        }
        i = i + 1;
    }
    assert(lv.take(lines.len() as int) =~= lv);
    let issues = check_zone(records.as_slice());
    ZoneReport { records, errors, issues }
}

} // verus!
