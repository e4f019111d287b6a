//! Records, parse errors, the zone context, and the directives that change it.
use vstd::prelude::*;
use crate::names::{is_valid_name, strip_dot, opt_view, qualify, qualify_name, valid_name};
pub use crate::parse::parse_line;
pub use crate::zone::{check_zone, ZoneIssue};
use crate::text::{
    chars_of, parse_number, parse_unsigned, string_of, trim, trim_range,
};

verus! {

/// The type-specific data of a record.  Addresses are held as their
/// octets (IPv4) and 16-bit segments (IPv6), most significant first.
#[derive(Debug, Clone, PartialEq)]
pub enum RecordData {
    A([u8; 4]),
    Aaaa([u16; 8]),
    Cname(String),
    Ns(String),
    Ptr(String),
    Mx { preference: u16, exchange: String },
    Txt(String),
    Soa {
        mname: String,
        rname: String,
        serial: u32,
        refresh: u32,
        retry: u32,
        expire: u32,
        minimum: u32,
    },
    Srv { priority: u16, weight: u16, port: u16, target: String },
}

#[derive(Debug, Clone, PartialEq)]
pub struct Record {
    pub name: String,
    pub ttl: u32,
    pub data: RecordData,
}

#[derive(Debug)]
pub enum ParseError {
    MissingField(&'static str),
    BadTtl(String),
    UnsupportedClass(String),
    UnknownType(String),
    BadName(String),
    BadAddress(String),
    BadMxPreference(String),
    BadTxt(String),
    BadSoaField(&'static str, String),
    BadSrvField(&'static str, String),
    TrailingData(String),
    BadOrigin(String),
}

/// The state that `$ORIGIN` and `$TTL` directives carry forward to later
/// lines of the same zone file.
#[derive(Debug, Clone)]
pub struct ZoneContext {
    pub origin: Option<String>,
    pub default_ttl: Option<u32>,
}

/// The mathematical value of a record's data.
pub enum DataView {
    A(Seq<u8>),
    Aaaa(Seq<u16>),
    Cname(Seq<char>),
    Ns(Seq<char>),
    Ptr(Seq<char>),
    Mx { preference: u16, exchange: Seq<char> },
    Txt(Seq<char>),
    Soa {
        mname: Seq<char>,
        rname: Seq<char>,
        serial: u32,
        refresh: u32,
        retry: u32,
        expire: u32,
        minimum: u32,
    },
    Srv { priority: u16, weight: u16, port: u16, target: Seq<char> },
}

pub struct RecordView {
    pub name: Seq<char>,
    pub ttl: u32,
    pub data: DataView,
}

pub enum ErrorView {
    MissingField(Seq<char>),
    BadTtl(Seq<char>),
    UnsupportedClass(Seq<char>),
    UnknownType(Seq<char>),
    BadName(Seq<char>),
    BadAddress(Seq<char>),
    BadMxPreference(Seq<char>),
    BadTxt(Seq<char>),
    BadSoaField(Seq<char>, Seq<char>),
    BadSrvField(Seq<char>, Seq<char>),
    TrailingData(Seq<char>),
    BadOrigin(Seq<char>),
}

pub struct ContextView {
    pub origin: Option<Seq<char>>,
    pub default_ttl: Option<u32>,
}

impl View for RecordData {
    type V = DataView;

    open spec fn view(&self) -> DataView {
        match self {
            RecordData::A(a) => DataView::A(a@),
            RecordData::Aaaa(a) => DataView::Aaaa(a@),
            RecordData::Cname(t) => DataView::Cname(t@),
            RecordData::Ns(t) => DataView::Ns(t@),
            RecordData::Ptr(t) => DataView::Ptr(t@),
            RecordData::Mx { preference, exchange } => DataView::Mx {
                preference: *preference,
                exchange: exchange@,
            },
            RecordData::Txt(t) => DataView::Txt(t@),
            RecordData::Soa { mname, rname, serial, refresh, retry, expire, minimum } =>
                DataView::Soa {
                mname: mname@,
                rname: rname@,
                serial: *serial,
                refresh: *refresh,
                retry: *retry,
                expire: *expire,
                minimum: *minimum,
            },
            RecordData::Srv { priority, weight, port, target } => DataView::Srv {
                priority: *priority,
                weight: *weight,
                port: *port,
                target: target@,
            },
        }
    }
}

impl View for Record {
    type V = RecordView;

    open spec fn view(&self) -> RecordView {
        RecordView { name: self.name@, ttl: self.ttl, data: self.data@ }
    }
}

impl View for ParseError {
    type V = ErrorView;

    open spec fn view(&self) -> ErrorView {
        match self {
            ParseError::MissingField(f) => ErrorView::MissingField(f@),
            ParseError::BadTtl(s) => ErrorView::BadTtl(s@),
            ParseError::UnsupportedClass(s) => ErrorView::UnsupportedClass(s@),
            ParseError::UnknownType(s) => ErrorView::UnknownType(s@),
            ParseError::BadName(s) => ErrorView::BadName(s@),
            ParseError::BadAddress(s) => ErrorView::BadAddress(s@),
            ParseError::BadMxPreference(s) => ErrorView::BadMxPreference(s@),
            ParseError::BadTxt(s) => ErrorView::BadTxt(s@),
            ParseError::BadSoaField(f, s) => ErrorView::BadSoaField(f@, s@),
            ParseError::BadSrvField(f, s) => ErrorView::BadSrvField(f@, s@),
            ParseError::TrailingData(s) => ErrorView::TrailingData(s@),
            ParseError::BadOrigin(s) => ErrorView::BadOrigin(s@),
        }
    }
}

impl View for ZoneContext {
    type V = ContextView;

    open spec fn view(&self) -> ContextView {
        ContextView { origin: opt_view(self.origin), default_ttl: self.default_ttl }
    }
}

impl Default for ZoneContext {
    /// No origin and no default TTL.
    fn default() -> (ctx: ZoneContext)
        ensures
            ctx.origin is None,
            ctx.default_ttl is None,
    {
        ZoneContext { origin: None, default_ttl: None }
    }
}

/// The outcome of `$ORIGIN arg`: the new origin, or the error.
pub open spec fn origin_directive(ctx: ContextView, arg: Seq<char>) -> Result<Seq<char>, ErrorView> {
    let a = trim(arg);
    if valid_name(a) {
        Ok(qualify(a, ctx.origin))
    } else {
        Err(ErrorView::BadOrigin(a))
    }
}

/// The outcome of `$TTL arg`: the new default TTL, or the error.
pub open spec fn ttl_directive(arg: Seq<char>) -> Result<u32, ErrorView> {
    let a = trim(arg);
    match parse_unsigned(a, u32::MAX as nat) {
        Some(n) => Ok(n as u32),
        None => Err(ErrorView::BadTtl(a)),
    }
}

/// Handles `$ORIGIN arg`: a valid name becomes the origin, qualified
/// against the current one; anything else is refused and `ctx` is kept.
pub fn set_origin(ctx: &mut ZoneContext, arg: &str) -> (r: Result<(), ParseError>)
    ensures
        match origin_directive(old(ctx)@, arg@) {
            Ok(o) => r is Ok && final(ctx)@ == (ContextView {
                origin: Some(o),
                default_ttl: old(ctx).default_ttl,
            }),
            Err(e) => r matches Err(err) && err@ == e && *final(ctx) == *old(ctx),
        },
{
    let v = chars_of(arg);
    let (s, e) = trim_range(&v, 0, v.len());
    assert(v@.subrange(0, v@.len() as int) =~= v@);
    if s == e || !is_valid_name(&v, s, e) {
        return Err(ParseError::BadOrigin(string_of(&v, s, e)));
    }
    let mut name: Vec<char> = Vec::new();
    let mut i = s;
    while i < e
        invariant
            s <= i <= e <= v@.len(),
            name@ == v@.subrange(s as int, i as int),
        decreases e - i,
    {
        name.push(v[i]);
        assert(v@.subrange(s as int, i + 1) =~= v@.subrange(s as int, i as int).push(v@[i as int]));
        i = i + 1;
    }
    let q = qualify_name(name, &ctx.origin);
    ctx.origin = Some(q);
    Ok(())
}

/// Handles `$TTL arg`: a number that fits in `u32` becomes the default
/// TTL; anything else is refused and `ctx` is kept.
pub fn set_default_ttl(ctx: &mut ZoneContext, arg: &str) -> (r: Result<(), ParseError>)
    ensures
        match ttl_directive(arg@) {
            Ok(t) => r is Ok && final(ctx).default_ttl == Some(t) && final(ctx).origin == old(
                ctx,
            ).origin,
            Err(e) => r matches Err(err) && err@ == e && *final(ctx) == *old(ctx),
        },
{
    let v = chars_of(arg);
    let (s, e) = trim_range(&v, 0, v.len());
    assert(v@.subrange(0, v@.len() as int) =~= v@);
    match parse_number(&v, s, e, 0xffff_ffff) {
        Some(n) => {
            ctx.default_ttl = Some(n as u32);
            Ok(())
        },
        None => Err(ParseError::BadTtl(string_of(&v, s, e))),
    }
}

/// The text of a TXT string's inside with its escapes resolved: `\"`
/// stands for `"`, any other `\x` is kept as it is, and a bare `"` or a
/// `\` at the very end make the data malformed.
pub open spec fn unescape(s: Seq<char>) -> Option<Seq<char>>
    decreases s.len(),
{
    if s.len() == 0 {
        Some(seq![])
    } else if s[0] == '\\' {
        if s.len() == 1 {
            None
        } else {
            match unescape(s.skip(2)) {
                Some(r) => Some(
                    (if s[1] == '"' {
                        seq!['"']
                    } else {
                        seq!['\\', s[1]]
                    }) + r,
                ),
                None => None,
            }
        }
    } else if s[0] == '"' {
        None
    } else {
        match unescape(s.drop_first()) {
            Some(r) => Some(seq![s[0]] + r),
            None => None,
        }
    }
}

/// TXT data is a double-quoted string whose inside `unescape`s.
pub open spec fn txt_text(r: Seq<char>) -> Option<Seq<char>> {
    if r.len() < 2 || r[0] != '"' || r.last() != '"' {
        None
    } else {
        unescape(r.subrange(1, r.len() - 1))
    }
}

pub open spec fn prepend(o: Seq<char>, r: Option<Seq<char>>) -> Option<Seq<char>> {
    match r {
        Some(x) => Some(o + x),
        None => None,
    }
}

/// Parses TXT data `v[from..to]`.
pub fn parse_txt(v: &Vec<char>, from: usize, to: usize) -> (r: Result<String, ParseError>)
    requires
        from <= to <= v@.len(),
    ensures
        match txt_text(v@.subrange(from as int, to as int)) {
            Some(t) => r matches Ok(s) && s@ == t,
            None => r matches Err(e) && e@ == ErrorView::BadTxt(
                v@.subrange(from as int, to as int),
            ),
        },
{
    let ghost whole = v@.subrange(from as int, to as int);
    if to - from < 2 || v[from] != '"' || v[to - 1] != '"' {
        return Err(ParseError::BadTxt(string_of(v, from, to)));
    }
    let ghost inner = whole.subrange(1, whole.len() - 1);
    let end = to - 1;
    assert(inner =~= v@.subrange(from + 1, end as int));
    let mut out = String::new();
    let mut i = from + 1;
    assert(v@.subrange(i as int, end as int) =~= inner);
    while i < end
        invariant
            from < i <= end < to <= v@.len(),
            inner == v@.subrange(from + 1, end as int),
            whole == v@.subrange(from as int, to as int),
            txt_text(whole) == unescape(inner),
            unescape(inner) == prepend(out@, unescape(v@.subrange(i as int, end as int))),
        decreases end - i,
    {
        let ghost rest = v@.subrange(i as int, end as int);
        let c = v[i];
        assert(rest[0] == c);
        if c == '\\' {
            if i + 1 == end {
                return Err(ParseError::BadTxt(string_of(v, from, to)));
            }
            let d = v[i + 1];
            assert(rest[1] == d);
            assert(rest.skip(2) =~= v@.subrange(i + 2, end as int));
            let ghost before = out@;
            if d == '"' {
                out.push('"');
                assert(out@ =~= before + seq!['"']);
            } else {
                out.push('\\');
                out.push(d);
                assert(out@ =~= before + seq!['\\', d]);
            }
            proof {
                match unescape(v@.subrange(i + 2, end as int)) {
                    Some(x) => {
                        assert(before + ((if d == '"' {
                            seq!['"']
                        } else {
                            seq!['\\', d]
                        }) + x) =~= out@ + x);
                    },
                    None => {},
                }
            }
            i = i + 2;
        } else if c == '"' {
            return Err(ParseError::BadTxt(string_of(v, from, to)));
        } else {
            let ghost before = out@;
            out.push(c);
            assert(rest.drop_first() =~= v@.subrange(i + 1, end as int));
            proof {
                match unescape(v@.subrange(i + 1, end as int)) {
                    Some(x) => {
                        assert(before + (seq![c] + x) =~= out@ + x);
                    },
                    None => {},
                }
            }
            i = i + 1;
        }
    }
    assert(v@.subrange(i as int, end as int) =~= Seq::<char>::empty());
    assert(out@ + seq![] =~= out@);
    Ok(out)
}

/// The outcome of parsing `r` as a target name.
pub open spec fn target_name(r: Seq<char>, origin: Option<Seq<char>>) -> Result<Seq<char>, ErrorView> {
    if valid_name(r) {
        Ok(qualify(r, origin))
    } else {
        Err(ErrorView::BadName(r))
    }
}

/// Parses the target name `v[from..to]`, qualified against the origin.
pub fn parse_target(v: &Vec<char>, from: usize, to: usize, ctx: &ZoneContext) -> (r: Result<
    String,
    ParseError,
>)
    requires
        from <= to <= v@.len(),
    ensures
        match target_name(v@.subrange(from as int, to as int), ctx@.origin) {
            Ok(t) => r matches Ok(s) && s@ == t,
            Err(e) => r matches Err(err) && err@ == e,
        },
{
    if from == to || !is_valid_name(v, from, to) {
        proof {
            if from == to {
                let n = v@.subrange(from as int, to as int);
                assert(strip_dot(n).len() == 0);
                assert(n.len() != seq!['@'].len());
            }
        }
        return Err(ParseError::BadName(string_of(v, from, to)));
    }
    let mut name: Vec<char> = Vec::new();
    let mut i = from;
    while i < to
        invariant
            from <= i <= to <= v@.len(),
            name@ == v@.subrange(from as int, i as int),
        decreases to - i,
    {
        name.push(v[i]);
        assert(v@.subrange(from as int, i + 1) =~= v@.subrange(from as int, i as int).push(
            v@[i as int],
        ));
        i = i + 1;
    }
    Ok(qualify_name(name, &ctx.origin))
}

} // verus!
