//! Laws of names, directives and whole zone files.
use vstd::prelude::*;
use crate::laws::{
    good_origin, is_gap, is_tail, is_token, lemma_numeric_token, lemma_parse_printed,
    lemma_qualified, lemma_record_line_parts, lemma_target_text, lemma_type_word,
};
use crate::lint::{line_kind, lint_lines, LineKind};
use crate::names::{strip_dot, valid_label, valid_name};
use crate::parse::{lemma_take_token, looks_numeric, parse_record, record_type, scan_fields, RecordType};
use crate::record::{origin_directive, ttl_directive, ContextView, DataView, ErrorView, RecordView};
use crate::render::{record_line, type_word};
use crate::roundtrip::{
    all_ws, lacks, lemma_decimal_text, lemma_split_cons, lemma_split_single,
    lemma_take_token_concat, lemma_trim_concat,
};
use crate::text::{decimal, lemma_parse_decimal, split, trim};

verus! {

/// A label as zone files spell it: 1 to 63 ASCII letters, digits, `-` and
/// `_`, with no `-` first or last.  Any of the others may come first: a
/// digit does, in reverse-mapping names such as `1.2.0.192.in-addr.arpa.`.
pub open spec fn grammar_label(l: Seq<char>) -> bool {
    &&& 1 <= l.len() <= 63
    &&& l[0] != '-'
    &&& l[l.len() - 1] != '-'
    &&& forall|i: int|
        0 <= i < l.len() ==> {
            let c = #[trigger] l[i];
            ||| ('0' <= c && c <= '9')
            ||| ('a' <= c && c <= 'z')
            ||| ('A' <= c && c <= 'Z')
            ||| c == '-'
            ||| c == '_'
        }
}

/// Labels joined by `.`.
pub open spec fn dotted(labels: Seq<Seq<char>>) -> Seq<char>
    decreases labels.len(),
{
    if labels.len() == 0 {
        seq![]
    } else if labels.len() == 1 {
        labels[0]
    } else {
        labels[0] + seq!['.'] + dotted(labels.drop_first())
    }
}

/// The absolute name of `labels`: joined by `.`, with a final `.`.
pub open spec fn absolute_name(labels: Seq<Seq<char>>) -> Seq<char> {
    dotted(labels) + seq!['.']
}

proof fn lemma_split_dotted(labels: Seq<Seq<char>>)
    requires
        labels.len() > 0,
        forall|i: int| 0 <= i < labels.len() ==> grammar_label(#[trigger] labels[i]),
    ensures
        split(dotted(labels), '.') == labels,
    decreases labels.len(),
{
    assert(grammar_label(labels[0]));
    assert(lacks(labels[0], '.')) by {
        assert forall|i: int| 0 <= i < labels[0].len() implies #[trigger] labels[0][i] != '.' by {
            let c = labels[0][i];
            assert(('0' <= c && c <= '9') || ('a' <= c && c <= 'z') || ('A' <= c && c <= 'Z') || c
                == '-' || c == '_');
        }
    }
    if labels.len() == 1 {
        lemma_split_single(labels[0], '.');
        assert(seq![labels[0]] =~= labels);
    } else {
        let rest = labels.drop_first();
        assert forall|i: int| 0 <= i < rest.len() implies grammar_label(#[trigger] rest[i]) by {
            assert(rest[i] == labels[i + 1]);
        }
        lemma_split_dotted(rest);
        lemma_split_cons(labels[0], dotted(rest), '.');
        assert(seq![labels[0]] + rest =~= labels);
    }
}

/// An absolute name made of zone-file labels is a valid name.
proof fn lemma_absolute_name_valid(labels: Seq<Seq<char>>)
    requires
        labels.len() > 0,
        forall|i: int| 0 <= i < labels.len() ==> grammar_label(#[trigger] labels[i]),
    ensures
        valid_name(absolute_name(labels)),
        absolute_name(labels).last() == '.',
{
    let n = absolute_name(labels);
    let d = dotted(labels);
    assert(n.last() == '.');
    assert(n != seq!['@']) by {
        if n == seq!['@'] {
            assert(n.last() == '@');
        }
    }
    assert(strip_dot(n) =~= d);
    lemma_split_dotted(labels);
    assert(grammar_label(labels[0]));
    assert(d.len() > 0) by {
        if labels.len() > 1 {
            assert(d.len() >= labels[0].len());
        }
    }
    assert forall|i: int| 0 <= i < split(d, '.').len() implies valid_label(
        #[trigger] split(d, '.')[i],
    ) by {
        let l = labels[i];
        assert(grammar_label(l));
        assert(l.last() == l[l.len() - 1]);
    }
}

/// Names made of zone-file labels are accepted where a name goes: a PTR
/// record whose owner and target are such absolute names, with any TTL,
/// prints to a line that reads back, in any context, as that record.  A
/// label that starts with a digit is no exception.
pub proof fn law_zone_file_labels_are_accepted(
    owner: Seq<Seq<char>>,
    target: Seq<Seq<char>>,
    ttl: u32,
    ctx: ContextView,
)
    requires
        owner.len() > 0,
        forall|i: int| 0 <= i < owner.len() ==> grammar_label(#[trigger] owner[i]),
        target.len() > 0,
        forall|i: int| 0 <= i < target.len() ==> grammar_label(#[trigger] target[i]),
    ensures
        parse_record(
            record_line(
                RecordView {
                    name: absolute_name(owner),
                    ttl,
                    data: DataView::Ptr(absolute_name(target)),
                },
            ),
            ctx,
        ) == Ok::<RecordView, ErrorView>(
            RecordView { name: absolute_name(owner), ttl, data: DataView::Ptr(absolute_name(target)) },
        ),
{
    let name = absolute_name(owner);
    let t = absolute_name(target);
    lemma_absolute_name_valid(owner);
    lemma_absolute_name_valid(target);
    let d = DataView::Ptr(t);
    let r = RecordView { name, ttl, data: d };
    lemma_target_text(t, ctx.origin);
    lemma_type_word(RecordType::Ptr, d);
    lemma_record_line_parts(r);
    lemma_parse_printed(name, ttl, RecordType::Ptr, type_word(d), t, d, ctx);
}

/// `$ORIGIN n` takes the name `n`, trimmed, relative to the current origin
/// `o`: a relative name becomes `n.o`, an absolute name (ending in `.`)
/// stays as it is, and `@` stands for `o` itself; without an origin, `n`
/// is taken as it is.  When the current origin is a valid absolute name,
/// so is the new one.
pub proof fn law_origin_directive_qualifies(ctx: ContextView, arg: Seq<char>)
    requires
        origin_directive(ctx, arg) is Ok,
    ensures
        ({
            let n = trim(arg);
            let o2 = origin_directive(ctx, arg)->Ok_0;
            &&& valid_name(n)
            &&& (n != seq!['@'] && n.last() != '.' && ctx.origin is Some) ==> o2 == n + seq!['.']
                + ctx.origin->0
            &&& n.last() == '.' ==> o2 == n
            &&& (n == seq!['@'] && ctx.origin is Some) ==> o2 == ctx.origin->0
            &&& ctx.origin is None ==> o2 == n
            &&& (good_origin(ctx.origin) && ctx.origin is Some) ==> good_origin(Some(o2))
        }),
{
    let n = trim(arg);
    assert(valid_name(n));
    if n == seq!['@'] {
        assert(n.last() == '@');
    }
    if good_origin(ctx.origin) && ctx.origin is Some {
        lemma_qualified(n, ctx.origin);
        let o = ctx.origin->0;
        if n != seq!['@'] && n.last() != '.' {
            let o2 = n + seq!['.'] + o;
            assert(o2.last() == o.last());
        }
    }
}

/// `$TTL` takes the decimal text of every `u32`, whitespace before it
/// allowed, as that very TTL.
pub proof fn law_ttl_directive_takes_every_u32(w: Seq<char>, n: u32)
    requires
        all_ws(w),
    ensures
        ttl_directive(w + decimal(n as nat)) == Ok::<u32, ErrorView>(n),
{
    let d = decimal(n as nat);
    lemma_decimal_text(n as nat);
    assert(!crate::text::is_ws(d[0]));
    assert(!crate::text::is_ws(d[d.len() - 1]));
    lemma_trim_concat(w, d);
    lemma_parse_decimal(n as nat, u32::MAX as nat);
}

/// `$TTL a` reads `a` as a record line reads it as its TTL field: where
/// `$TTL a` is refused, a line with the TTL field `a` is refused with the
/// same error; where it gives the TTL `x`, the line with the field `a`
/// reads as the line without it in a context whose default TTL is `x`.
pub proof fn law_ttl_directive_reads_as_ttl_field(
    name: Seq<char>,
    w1: Seq<char>,
    a: Seq<char>,
    w2: Seq<char>,
    t: Seq<char>,
    rest: Seq<char>,
    ctx: ContextView,
)
    requires
        is_token(name),
        valid_name(name),
        is_gap(w1),
        is_gap(w2),
        is_token(a),
        looks_numeric(a),
        is_token(t),
        record_type(t) is Some,
        is_tail(rest),
    ensures
        match ttl_directive(a) {
            Ok(x) => parse_record(name + w1 + a + w2 + t + rest, ctx) == parse_record(
                name + w1 + t + rest,
                ContextView { origin: ctx.origin, default_ttl: Some(x) },
            ),
            Err(e) => e == ErrorView::BadTtl(a) && parse_record(name + w1 + a + w2 + t + rest, ctx)
                == Err::<RecordView, ErrorView>(ErrorView::BadTtl(a)),
        },
{
    let e = Seq::<char>::empty();
    let l1 = w1 + t + rest;
    let l2 = w1 + a + (w2 + t + rest);
    lemma_trim_concat(e, a);
    assert(e + a =~= a);
    assert(name + w1 + t + rest =~= e + name + l1);
    assert(name + w1 + a + w2 + t + rest =~= e + name + l2);
    assert(l1[0] == w1[0] && l2[0] == w1[0]);
    lemma_take_token_concat(e, name, l1);
    lemma_take_token_concat(e, name, l2);
    lemma_ttl_scan(w1, a, w2, t, rest);
}

/// How the fields after the name are scanned with and without a TTL field.
proof fn lemma_ttl_scan(w1: Seq<char>, a: Seq<char>, w2: Seq<char>, t: Seq<char>, rest: Seq<char>)
    requires
        is_gap(w1),
        is_gap(w2),
        is_token(a),
        looks_numeric(a),
        is_token(t),
        record_type(t) is Some,
        is_tail(rest),
    ensures
        scan_fields(w1 + t + rest, None, false) == Ok::<(RecordType, Seq<char>, Option<u32>), ErrorView>(
            (record_type(t)->0, rest, None),
        ),
        scan_fields(w1 + a + (w2 + t + rest), None, false) == match crate::text::parse_unsigned(
            a,
            u32::MAX as nat,
        ) {
            Some(x) => Ok::<(RecordType, Seq<char>, Option<u32>), ErrorView>(
                (record_type(t)->0, rest, Some(x as u32)),
            ),
            None => Err(ErrorView::BadTtl(a)),
        },
{
    let rb = w2 + t + rest;
    let l2 = w1 + a + rb;
    assert(rb[0] == w2[0]);
    lemma_numeric_token(a);
    lemma_take_token_concat(w1, t, rest);
    lemma_take_token_concat(w1, a, rb);
    lemma_take_token_concat(w2, t, rest);
    lemma_take_token(l2);
    lemma_take_token(w1 + t + rest);
    lemma_take_token(rb);
    let tt = record_type(t)->0;
    match crate::text::parse_unsigned(a, u32::MAX as nat) {
        Some(x) => {
            assert(scan_fields(l2, None, false) == scan_fields(rb, Some(x as u32), false));
            assert(scan_fields(rb, Some(x as u32), false) == Ok::<
                (RecordType, Seq<char>, Option<u32>),
                ErrorView,
            >((tt, rest, Some(x as u32))));
        },
        None => {},
    }
}

/// Linting one more line after `lines`.
proof fn lemma_lint_push(lines: Seq<Seq<char>>, line: Seq<char>)
    ensures
        lint_lines(lines.push(line)) == crate::lint::lint_step(
            lint_lines(lines),
            line,
            (lines.len() + 1) as int,
        ),
{
    assert(lines.push(line).drop_last() =~= lines);
}

/// An `$ORIGIN` line, accepted or not, leaves the default TTL and the
/// records read so far as they were; a `$TTL` line leaves the origin and
/// the records as they were.
pub proof fn law_directive_lines_change_only_their_setting(lines: Seq<Seq<char>>, line: Seq<char>)
    ensures
        line_kind(trim(line)) is Origin ==> {
            &&& lint_lines(lines.push(line)).ctx.default_ttl == lint_lines(lines).ctx.default_ttl
            &&& lint_lines(lines.push(line)).records == lint_lines(lines).records
        },
        line_kind(trim(line)) is Ttl ==> {
            &&& lint_lines(lines.push(line)).ctx.origin == lint_lines(lines).ctx.origin
            &&& lint_lines(lines.push(line)).records == lint_lines(lines).records
        },
{
    lemma_lint_push(lines, line);
}

/// A default TTL set by an accepted `$TTL` line is still the default after
/// an `$ORIGIN` line that follows it, so the record lines after both that
/// leave out their TTL get it.
pub proof fn law_ttl_survives_origin(lines: Seq<Seq<char>>, ttl_line: Seq<char>, origin_line: Seq<char>)
    requires
        line_kind(trim(ttl_line)) matches LineKind::Ttl(a) && ttl_directive(a) is Ok,
        line_kind(trim(origin_line)) is Origin,
    ensures
        lint_lines(lines.push(ttl_line).push(origin_line)).ctx.default_ttl == Some(
            ttl_directive(line_kind(trim(ttl_line))->Ttl_0)->Ok_0,
        ),
{
    lemma_lint_push(lines, ttl_line);
    lemma_lint_push(lines.push(ttl_line), origin_line);
}

} // verus!
