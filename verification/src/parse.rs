//! Parsing one record line: `name [ttl] [class] type rdata`.
use vstd::prelude::*;
use crate::addr::{ipv4, ipv6, parse_ipv4, parse_ipv6};
use crate::names::{is_valid_name, qualify, qualify_name, valid_name};
use crate::record::{
    parse_target, parse_txt, target_name, txt_text, ContextView, DataView, ErrorView, ParseError,
    Record, RecordData, RecordView, ZoneContext,
};
use crate::text::{
    chars_of, count_prefix, is_ascii_digit, is_digit, lemma_count_prefix, next_token, non_ws_pred,
    parse_number, parse_unsigned, string_of, take_token, trim, trim_range, trim_start, ws_pred,
};

verus! {

/// The record types this parser knows.
#[derive(Debug, Clone, Copy, PartialEq, Eq)]
pub enum RecordType {
    A,
    Aaaa,
    Cname,
    Ns,
    Ptr,
    Mx,
    Txt,
    Soa,
    Srv,
}

/// `t` equals the upper-case ASCII word `w` ignoring ASCII case.
pub open spec fn word_eq(t: Seq<char>, w: Seq<char>) -> bool {
    &&& t.len() == w.len()
    &&& forall|i: int|
        0 <= i < t.len() ==> (#[trigger] t[i] == w[i] || ('A' <= w[i] && w[i] <= 'Z' && t[i] as u32
            == w[i] as u32 + 32))
}

/// The record type that `t` names, case-insensitively.
pub open spec fn record_type(t: Seq<char>) -> Option<RecordType> {
    if word_eq(t, seq!['A']) {
        Some(RecordType::A)
    } else if word_eq(t, seq!['A', 'A', 'A', 'A']) {
        Some(RecordType::Aaaa)
    } else if word_eq(t, seq!['C', 'N', 'A', 'M', 'E']) {
        Some(RecordType::Cname)
    } else if word_eq(t, seq!['N', 'S']) {
        Some(RecordType::Ns)
    } else if word_eq(t, seq!['P', 'T', 'R']) {
        Some(RecordType::Ptr)
    } else if word_eq(t, seq!['M', 'X']) {
        Some(RecordType::Mx)
    } else if word_eq(t, seq!['T', 'X', 'T']) {
        Some(RecordType::Txt)
    } else if word_eq(t, seq!['S', 'O', 'A']) {
        Some(RecordType::Soa)
    } else if word_eq(t, seq!['S', 'R', 'V']) {
        Some(RecordType::Srv)
    } else {
        None
    }
}

/// A token that can only be a TTL: it starts with a digit or `-`.
pub open spec fn looks_numeric(t: Seq<char>) -> bool {
    t.len() > 0 && (is_digit(t[0]) || t[0] == '-')
}

pub proof fn lemma_take_token(s: Seq<char>)
    ensures
        take_token(s) matches Some((tok, rest)) ==> tok.len() > 0 && rest.len() < s.len(),
{
    let t = trim_start(s);
    lemma_count_prefix(s, ws_pred());
    if t.len() > 0 {
        assert(t[0] == s[count_prefix(s, ws_pred()) as int]);
        lemma_count_prefix(t, non_ws_pred());
    }
}

/// The fields between the name and the record type: at most one TTL and at
/// most one `IN` class, in either order.  Gives the type, what follows it,
/// and the TTL if one was written.
pub open spec fn scan_fields(rest: Seq<char>, ttl: Option<u32>, saw_class: bool) -> Result<
    (RecordType, Seq<char>, Option<u32>),
    ErrorView,
>
    decreases rest.len(),
{
    match take_token(rest) {
        None => Err(ErrorView::MissingField("type"@)),
        Some((tok, remainder)) => {
            proof {
                lemma_take_token(rest);
            }
            if record_type(tok) is Some {
                Ok((record_type(tok)->0, remainder, ttl))
            } else if word_eq(tok, seq!['I', 'N']) {
                if saw_class {
                    Err(ErrorView::TrailingData(tok))
                } else {
                    scan_fields(remainder, ttl, true)
                }
            } else if looks_numeric(tok) {
                if ttl is Some {
                    Err(ErrorView::TrailingData(tok))
                } else {
                    match parse_unsigned(tok, u32::MAX as nat) {
                        Some(n) => scan_fields(remainder, Some(n as u32), saw_class),
                        None => Err(ErrorView::BadTtl(tok)),
                    }
                }
            } else {
                Err(ErrorView::UnsupportedClass(tok))
            }
        },
    }
}

/// Whether `v[from..to]` is the upper-case word `w`, ignoring ASCII case.
pub fn word_matches(v: &Vec<char>, from: usize, to: usize, w: &Vec<char>) -> (b: bool)
    requires
        from <= to <= v@.len(),
    ensures
        b == word_eq(v@.subrange(from as int, to as int), w@),
{
    let ghost t = v@.subrange(from as int, to as int);
    if to - from != w.len() {
        return false;
    }
    let mut i: usize = 0;
    while i < w.len()
        invariant
            from <= to <= v@.len(),
            to - from == w@.len(),
            t == v@.subrange(from as int, to as int),
            i <= w.len(),
            forall|j: int|
                0 <= j < i ==> (#[trigger] t[j] == w@[j] || ('A' <= w@[j] && w@[j] <= 'Z' && t[j] as u32
                    == w@[j] as u32 + 32)),
        decreases w.len() - i,
    {
        let c = v[from + i];
        let u = w[i];
        assert(t[i as int] == c);
        if !(c == u || ('A' <= u && u <= 'Z' && (c as u32) == (u as u32) + 32)) {
            return false;
        }
        i = i + 1;
    }
    true
}

/// The record type that `v[from..to]` names.
pub fn record_type_of(v: &Vec<char>, from: usize, to: usize) -> (r: Option<RecordType>)
    requires
        from <= to <= v@.len(),
    ensures
        r == record_type(v@.subrange(from as int, to as int)),
{
    if word_matches(v, from, to, &vec!['A']) {
        Some(RecordType::A)
    } else if word_matches(v, from, to, &vec!['A', 'A', 'A', 'A']) {
        Some(RecordType::Aaaa)
    } else if word_matches(v, from, to, &vec!['C', 'N', 'A', 'M', 'E']) {
        Some(RecordType::Cname)
    } else if word_matches(v, from, to, &vec!['N', 'S']) {
        Some(RecordType::Ns)
    } else if word_matches(v, from, to, &vec!['P', 'T', 'R']) {
        Some(RecordType::Ptr)
    } else if word_matches(v, from, to, &vec!['M', 'X']) {
        Some(RecordType::Mx)
    } else if word_matches(v, from, to, &vec!['T', 'X', 'T']) {
        Some(RecordType::Txt)
    } else if word_matches(v, from, to, &vec!['S', 'O', 'A']) {
        Some(RecordType::Soa)
    } else if word_matches(v, from, to, &vec!['S', 'R', 'V']) {
        Some(RecordType::Srv)
    } else {
        None
    }
}

/// `scan_fields` over `v[from..to]`; the part after the type is `v[r.1..to]`.
fn scan(v: &Vec<char>, from: usize, to: usize) -> (r: Result<
    (RecordType, usize, Option<u32>),
    ParseError,
>)
    requires
        from <= to <= v@.len(),
    ensures
        match scan_fields(v@.subrange(from as int, to as int), None, false) {
            Ok((t, after, ttl)) => r matches Ok((t2, b, ttl2)) && t2 == t && ttl2 == ttl && b <= to
                && after == v@.subrange(b as int, to as int),
            Err(e) => r matches Err(err) && err@ == e,
        },
{
    let mut pos = from;
    let mut ttl: Option<u32> = None;
    let mut saw_class = false;
    loop
        invariant
            from <= pos <= to <= v@.len(),
            scan_fields(v@.subrange(from as int, to as int), None, false) == scan_fields(
                v@.subrange(pos as int, to as int),
                ttl,
                saw_class,
            ),
        decreases to - pos,
    {
        let ghost rest = v@.subrange(pos as int, to as int);
        match next_token(v, pos, to) {
            None => {
                return Err(ParseError::MissingField("type"));
            },
            Some((a, b)) => {
                let ghost tok = v@.subrange(a as int, b as int);
                match record_type_of(v, a, b) {
                    Some(t) => {
                        return Ok((t, b, ttl));
                    },
                    None => {},
                }
                if word_matches(v, a, b, &vec!['I', 'N']) {
                    if saw_class {
                        return Err(ParseError::TrailingData(string_of(v, a, b)));
                    }
                    saw_class = true;
                } else if is_ascii_digit(v[a]) || v[a] == '-' {
                    assert(tok[0] == v@[a as int]);
                    if ttl.is_some() {
                        return Err(ParseError::TrailingData(string_of(v, a, b)));
                    }
                    match parse_number(v, a, b, 0xffff_ffff) {
                        Some(n) => {
                            ttl = Some(n as u32);
                        },
                        None => {
                            return Err(ParseError::BadTtl(string_of(v, a, b)));
                        },
                    }
                } else {
                    assert(tok[0] == v@[a as int]);
                    return Err(ParseError::UnsupportedClass(string_of(v, a, b)));
                }
                pos = b;
            },
        }
    }
}

/// A numeric rdata field: the next token, parsed as an unsigned number of
/// at most `max`.  `missing` names the field when there is no token; `bad`
/// builds the error for a token that is not such a number.
pub open spec fn number_field(r: Seq<char>, max: nat, missing: Seq<char>, bad: spec_fn(Seq<char>) -> ErrorView) -> Result<(nat, Seq<char>), ErrorView> {
    match take_token(r) {
        None => Err(ErrorView::MissingField(missing)),
        Some((tok, rest)) => match parse_unsigned(tok, max) {
            Some(n) => Ok((n, rest)),
            None => Err(bad(tok)),
        },
    }
}

pub open spec fn soa_bad(field: Seq<char>) -> spec_fn(Seq<char>) -> ErrorView {
    |tok: Seq<char>| ErrorView::BadSoaField(field, tok)
}

pub open spec fn srv_bad(field: Seq<char>) -> spec_fn(Seq<char>) -> ErrorView {
    |tok: Seq<char>| ErrorView::BadSrvField(field, tok)
}

pub open spec fn mx_bad() -> spec_fn(Seq<char>) -> ErrorView {
    |tok: Seq<char>| ErrorView::BadMxPreference(tok)
}

/// A name field of SOA data: the next token as a target name.
pub open spec fn name_field(r: Seq<char>, origin: Option<Seq<char>>, missing: Seq<char>) -> Result<(Seq<char>, Seq<char>), ErrorView> {
    match take_token(r) {
        None => Err(ErrorView::MissingField(missing)),
        Some((tok, rest)) => match target_name(tok, origin) {
            Ok(n) => Ok((n, rest)),
            Err(e) => Err(e),
        },
    }
}

/// MX data: `preference exchange`.
pub open spec fn mx_data(r: Seq<char>, origin: Option<Seq<char>>) -> Result<DataView, ErrorView> {
    match number_field(r, u16::MAX as nat, "mx preference"@, mx_bad()) {
        Err(e) => Err(e),
        Ok((preference, rest)) => match target_name(trim(rest), origin) {
            Err(e) => Err(e),
            Ok(exchange) => Ok(DataView::Mx { preference: preference as u16, exchange }),
        },
    }
}

/// The five numbers of SOA data and the check that nothing follows them.
pub open spec fn soa_numbers(r: Seq<char>) -> Result<(u32, u32, u32, u32, u32), ErrorView> {
    let m = u32::MAX as nat;
    match number_field(r, m, "soa serial"@, soa_bad("serial"@)) {
        Err(e) => Err(e),
        Ok((serial, r1)) => match number_field(r1, m, "soa refresh"@, soa_bad("refresh"@)) {
            Err(e) => Err(e),
            Ok((refresh, r2)) => match number_field(r2, m, "soa retry"@, soa_bad("retry"@)) {
                Err(e) => Err(e),
                Ok((retry, r3)) => match number_field(r3, m, "soa expire"@, soa_bad("expire"@)) {
                    Err(e) => Err(e),
                    Ok((expire, r4)) => match number_field(
                        r4,
                        m,
                        "soa minimum"@,
                        soa_bad("minimum"@),
                    ) {
                        Err(e) => Err(e),
                        Ok((minimum, r5)) => if trim(r5).len() > 0 {
                            Err(ErrorView::TrailingData(trim(r5)))
                        } else {
                            Ok(
                                (
                                    serial as u32,
                                    refresh as u32,
                                    retry as u32,
                                    expire as u32,
                                    minimum as u32,
                                ),
                            )
                        },
                    },
                },
            },
        },
    }
}

/// SOA data: `mname rname serial refresh retry expire minimum`.
pub open spec fn soa_data(r: Seq<char>, origin: Option<Seq<char>>) -> Result<DataView, ErrorView> {
    match name_field(r, origin, "soa mname"@) {
        Err(e) => Err(e),
        Ok((mname, r1)) => match name_field(r1, origin, "soa rname"@) {
            Err(e) => Err(e),
            Ok((rname, r2)) => match soa_numbers(r2) {
                Err(e) => Err(e),
                Ok((serial, refresh, retry, expire, minimum)) => Ok(
                    DataView::Soa { mname, rname, serial, refresh, retry, expire, minimum },
                ),
            },
        },
    }
}

/// SRV data: `priority weight port target`.
pub open spec fn srv_data(r: Seq<char>, origin: Option<Seq<char>>) -> Result<DataView, ErrorView> {
    let m = u16::MAX as nat;
    match number_field(r, m, "srv priority"@, srv_bad("priority"@)) {
        Err(e) => Err(e),
        Ok((priority, r1)) => match number_field(r1, m, "srv weight"@, srv_bad("weight"@)) {
            Err(e) => Err(e),
            Ok((weight, r2)) => match number_field(r2, m, "srv port"@, srv_bad("port"@)) {
                Err(e) => Err(e),
                Ok((port, r3)) => match target_name(trim(r3), origin) {
                    Err(e) => Err(e),
                    Ok(target) => Ok(
                        DataView::Srv {
                            priority: priority as u16,
                            weight: weight as u16,
                            port: port as u16,
                            target,
                        },
                    ),
                },
            },
        },
    }
}

/// The data of a record of type `t`, from its trimmed rdata text `r`.
pub open spec fn record_data(t: RecordType, r: Seq<char>, origin: Option<Seq<char>>) -> Result<DataView, ErrorView> {
    match t {
        RecordType::A => match ipv4(r) {
            Some(o) => Ok(DataView::A(o)),
            None => Err(ErrorView::BadAddress(r)),
        },
        RecordType::Aaaa => match ipv6(r) {
            Some(g) => Ok(DataView::Aaaa(g)),
            None => Err(ErrorView::BadAddress(r)),
        },
        RecordType::Cname => match target_name(r, origin) {
            Ok(n) => Ok(DataView::Cname(n)),
            Err(e) => Err(e),
        },
        RecordType::Ns => match target_name(r, origin) {
            Ok(n) => Ok(DataView::Ns(n)),
            Err(e) => Err(e),
        },
        RecordType::Ptr => match target_name(r, origin) {
            Ok(n) => Ok(DataView::Ptr(n)),
            Err(e) => Err(e),
        },
        RecordType::Mx => mx_data(r, origin),
        RecordType::Txt => match txt_text(r) {
            Some(x) => Ok(DataView::Txt(x)),
            None => Err(ErrorView::BadTxt(r)),
        },
        RecordType::Soa => soa_data(r, origin),
        RecordType::Srv => srv_data(r, origin),
    }
}

/// What `parse_line` makes of `line` in the context `ctx`.
///
/// The line is `name [ttl] [class] type rdata`: the TTL and the class are
/// optional and may come in either order; a missing TTL falls back to the
/// context's default TTL, and a missing class is `IN`, the only class
/// there is.  Names are qualified against the context's origin.
pub open spec fn parse_record(line: Seq<char>, ctx: ContextView) -> Result<RecordView, ErrorView> {
    match take_token(line) {
        None => Err(ErrorView::MissingField("name"@)),
        Some((name, rest)) => if !valid_name(name) {
            Err(ErrorView::BadName(name))
        } else {
            match scan_fields(rest, None, false) {
                Err(e) => Err(e),
                Ok((t, after, ttl)) => {
                    let ttl = if ttl is Some {
                        ttl
                    } else {
                        ctx.default_ttl
                    };
                    match ttl {
                        None => Err(ErrorView::MissingField("ttl"@)),
                        Some(ttl) => match record_data(t, trim(after), ctx.origin) {
                            Err(e) => Err(e),
                            Ok(data) => Ok(
                                RecordView { name: qualify(name, ctx.origin), ttl, data },
                            ),
                        },
                    }
                },
            }
        },
    }
}

/// The next token of `v[from..to]` as an unsigned number of at most `max`:
/// the number and where the rest begins, or the token's range if it is not
/// such a number, or `None` if there is no token.
fn number_at(v: &Vec<char>, from: usize, to: usize, max: u64) -> (r: Result<
    (u64, usize),
    Option<(usize, usize)>,
>)
    requires
        from <= to <= v@.len(),
        max <= u32::MAX,
    ensures
        match take_token(v@.subrange(from as int, to as int)) {
            None => r == Err::<(u64, usize), Option<(usize, usize)>>(None),
            Some((tok, rest)) => match parse_unsigned(tok, max as nat) {
                Some(n) => r matches Ok((m, b)) && m == n && b <= to && rest == v@.subrange(
                    b as int,
                    to as int,
                ),
                None => r matches Err(Some((a, b))) && a <= b <= to && tok == v@.subrange(
                    a as int,
                    b as int,
                ),
            },
        },
{
    match next_token(v, from, to) {
        None => Err(None),
        Some((a, b)) => match parse_number(v, a, b, max) {
            Some(n) => Ok((n, b)),
            None => Err(Some((a, b))),
        },
    }
}

/// The next token of `v[from..to]` as a target name, and where the rest begins.
fn name_at(v: &Vec<char>, from: usize, to: usize, ctx: &ZoneContext, missing: &'static str) -> (r: Result<
    (String, usize),
    ParseError,
>)
    requires
        from <= to <= v@.len(),
    ensures
        match name_field(v@.subrange(from as int, to as int), ctx@.origin, missing@) {
            Ok((n, rest)) => r matches Ok((s, b)) && s@ == n && b <= to && rest == v@.subrange(
                b as int,
                to as int,
            ),
            Err(e) => r matches Err(err) && err@ == e,
        },
{
    match next_token(v, from, to) {
        None => Err(ParseError::MissingField(missing)),
        Some((a, b)) => match parse_target(v, a, b, ctx) {
            Ok(n) => Ok((n, b)),
            Err(e) => Err(e),
        },
    }
}

fn parse_mx(v: &Vec<char>, from: usize, to: usize, ctx: &ZoneContext) -> (r: Result<
    RecordData,
    ParseError,
>)
    requires
        from <= to <= v@.len(),
    ensures
        match mx_data(v@.subrange(from as int, to as int), ctx@.origin) {
            Ok(d) => r matches Ok(x) && x@ == d,
            Err(e) => r matches Err(err) && err@ == e,
        },
{
    match number_at(v, from, to, 0xffff) {
        Err(None) => Err(ParseError::MissingField("mx preference")),
        Err(Some((a, b))) => Err(ParseError::BadMxPreference(string_of(v, a, b))),
        Ok((n, b)) => {
            let (s, e) = trim_range(v, b, to);
            match parse_target(v, s, e, ctx) {
                Ok(exchange) => Ok(RecordData::Mx { preference: n as u16, exchange }),
                Err(err) => Err(err),
            }
        },
    }
}

fn soa_number(v: &Vec<char>, from: usize, to: usize, missing: &'static str, field: &'static str) -> (r: Result<(u32, usize), ParseError>)
    requires
        from <= to <= v@.len(),
    ensures
        match number_field(v@.subrange(from as int, to as int), u32::MAX as nat, missing@, soa_bad(field@)) {
            Ok((n, rest)) => r matches Ok((m, b)) && m == n && b <= to && rest == v@.subrange(b as int, to as int),
            Err(e) => r matches Err(err) && err@ == e,
        },
{
    match number_at(v, from, to, 0xffff_ffff) {
        Err(None) => Err(ParseError::MissingField(missing)),
        Err(Some((a, b))) => Err(ParseError::BadSoaField(field, string_of(v, a, b))),
        Ok((n, b)) => Ok((n as u32, b)),
    }
}

fn srv_number(v: &Vec<char>, from: usize, to: usize, missing: &'static str, field: &'static str) -> (r: Result<(u16, usize), ParseError>)
    requires
        from <= to <= v@.len(),
    ensures
        match number_field(v@.subrange(from as int, to as int), u16::MAX as nat, missing@, srv_bad(field@)) {
            Ok((n, rest)) => r matches Ok((m, b)) && m == n && b <= to && rest == v@.subrange(b as int, to as int),
            Err(e) => r matches Err(err) && err@ == e,
        },
{
    match number_at(v, from, to, 0xffff) {
        Err(None) => Err(ParseError::MissingField(missing)),
        Err(Some((a, b))) => Err(ParseError::BadSrvField(field, string_of(v, a, b))),
        Ok((n, b)) => Ok((n as u16, b)),
    }
}

fn parse_soa_numbers(v: &Vec<char>, from: usize, to: usize) -> (r: Result<(u32, u32, u32, u32, u32), ParseError>)
    requires
        from <= to <= v@.len(),
    ensures
        match soa_numbers(v@.subrange(from as int, to as int)) {
            Ok(x) => r matches Ok(y) && y == x,
            Err(e) => r matches Err(err) && err@ == e,
        },
{
    let (serial, b1) = match soa_number(v, from, to, "soa serial", "serial") {
        Ok(x) => x,
        Err(e) => return Err(e),
    };
    let (refresh, b2) = match soa_number(v, b1, to, "soa refresh", "refresh") {
        Ok(x) => x,
        Err(e) => return Err(e),
    };
    let (retry, b3) = match soa_number(v, b2, to, "soa retry", "retry") {
        Ok(x) => x,
        Err(e) => return Err(e),
    };
    let (expire, b4) = match soa_number(v, b3, to, "soa expire", "expire") {
        Ok(x) => x,
        Err(e) => return Err(e),
    };
    let (minimum, b5) = match soa_number(v, b4, to, "soa minimum", "minimum") {
        Ok(x) => x,
        Err(e) => return Err(e),
    };
    let (s, e) = trim_range(v, b5, to);
    if s < e {
        return Err(ParseError::TrailingData(string_of(v, s, e)));
    }
    Ok((serial, refresh, retry, expire, minimum))
}

fn parse_soa(v: &Vec<char>, from: usize, to: usize, ctx: &ZoneContext) -> (r: Result<
    RecordData,
    ParseError,
>)
    requires
        from <= to <= v@.len(),
    ensures
        match soa_data(v@.subrange(from as int, to as int), ctx@.origin) {
            Ok(d) => r matches Ok(x) && x@ == d,
            Err(e) => r matches Err(err) && err@ == e,
        },
{
    let (mname, b1) = match name_at(v, from, to, ctx, "soa mname") {
        Ok(x) => x,
        Err(e) => return Err(e),
    };
    let (rname, b2) = match name_at(v, b1, to, ctx, "soa rname") {
        Ok(x) => x,
        Err(e) => return Err(e),
    };
    match parse_soa_numbers(v, b2, to) {
        Ok((serial, refresh, retry, expire, minimum)) => Ok(
            RecordData::Soa { mname, rname, serial, refresh, retry, expire, minimum },
        ),
        Err(e) => Err(e),
    }
}

fn parse_srv(v: &Vec<char>, from: usize, to: usize, ctx: &ZoneContext) -> (r: Result<
    RecordData,
    ParseError,
>)
    requires
        from <= to <= v@.len(),
    ensures
        match srv_data(v@.subrange(from as int, to as int), ctx@.origin) {
            Ok(d) => r matches Ok(x) && x@ == d,
            Err(e) => r matches Err(err) && err@ == e,
        },
{
    let (priority, b1) = match srv_number(v, from, to, "srv priority", "priority") {
        Ok(x) => x,
        Err(e) => return Err(e),
    };
    let (weight, b2) = match srv_number(v, b1, to, "srv weight", "weight") {
        Ok(x) => x,
        Err(e) => return Err(e),
    };
    let (port, b3) = match srv_number(v, b2, to, "srv port", "port") {
        Ok(x) => x,
        Err(e) => return Err(e),
    };
    let (s, e) = trim_range(v, b3, to);
    match parse_target(v, s, e, ctx) {
        Ok(target) => Ok(RecordData::Srv { priority, weight, port, target }),
        Err(err) => Err(err),
    }
}

fn parse_data(v: &Vec<char>, from: usize, to: usize, t: RecordType, ctx: &ZoneContext) -> (r: Result<
    RecordData,
    ParseError,
>)
    requires
        from <= to <= v@.len(),
    ensures
        match record_data(t, v@.subrange(from as int, to as int), ctx@.origin) {
            Ok(d) => r matches Ok(x) && x@ == d,
            Err(e) => r matches Err(err) && err@ == e,
        },
{
    match t {
        RecordType::A => match parse_ipv4(v, from, to) {
            Some(a) => Ok(RecordData::A(a)),
            None => Err(ParseError::BadAddress(string_of(v, from, to))),
        },
        RecordType::Aaaa => match parse_ipv6(v, from, to) {
            Some(a) => Ok(RecordData::Aaaa(a)),
            None => Err(ParseError::BadAddress(string_of(v, from, to))),
        },
        RecordType::Cname => match parse_target(v, from, to, ctx) {
            Ok(n) => Ok(RecordData::Cname(n)),
            Err(e) => Err(e),
        },
        RecordType::Ns => match parse_target(v, from, to, ctx) {
            Ok(n) => Ok(RecordData::Ns(n)),
            Err(e) => Err(e),
        },
        RecordType::Ptr => match parse_target(v, from, to, ctx) {
            Ok(n) => Ok(RecordData::Ptr(n)),
            Err(e) => Err(e),
        },
        RecordType::Mx => parse_mx(v, from, to, ctx),
        RecordType::Txt => match parse_txt(v, from, to) {
            Ok(x) => Ok(RecordData::Txt(x)),
            Err(e) => Err(e),
        },
        RecordType::Soa => parse_soa(v, from, to, ctx),
        RecordType::Srv => parse_srv(v, from, to, ctx),
    }
}

/// Parses one zone-file style record line, e.g.
/// `example.com. 3600 IN A 192.0.2.1`.
///
/// The ttl and class fields are both optional and may appear in either
/// order.  A missing ttl falls back to `ctx.default_ttl` (set by a
/// preceding `$TTL` directive); a missing class is always treated as `IN`,
/// the only class supported.
pub fn parse_line(line: &str, ctx: &ZoneContext) -> (r: Result<Record, ParseError>)
    ensures
        match parse_record(line@, ctx@) {
            Ok(rec) => r matches Ok(x) && x@ == rec,
            Err(e) => r matches Err(err) && err@ == e,
        },
{
    let v = chars_of(line);
    let n = v.len();
    assert(v@.subrange(0, n as int) =~= line@);
    let (a, b) = match next_token(&v, 0, n) {
        Some(x) => x,
        None => {
            return Err(ParseError::MissingField("name"));
        },
    };
    if !is_valid_name(&v, a, b) {
        return Err(ParseError::BadName(string_of(&v, a, b)));
    }
    let (t, after, ttl) = match scan(&v, b, n) {
        Ok(x) => x,
        Err(e) => {
            return Err(e);
        },
    };
    let ttl = match ttl {
        Some(x) => x,
        None => match ctx.default_ttl {
            Some(x) => x,
            None => {
                return Err(ParseError::MissingField("ttl"));
            },
        },
    };
    let mut name: Vec<char> = Vec::new();
    let mut i = a;
    while i < b
        invariant
            a <= i <= b <= v@.len(),
            name@ == v@.subrange(a as int, i as int),
        decreases b - i,
    {
        name.push(v[i]);
        assert(v@.subrange(a as int, i + 1) =~= v@.subrange(a as int, i as int).push(
            v@[i as int],
        ));
        i = i + 1;
    }
    let name = qualify_name(name, &ctx.origin);
    let (s, e) = trim_range(&v, after, n);
    let data = match parse_data(&v, s, e, t, ctx) {
        Ok(d) => d,
        Err(err) => {
            return Err(err);
        },
    };
    Ok(Record { name, ttl, data })
}

} // verus!
