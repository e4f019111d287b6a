//! Reprinting records in one consistent format, as JSON, and the messages
//! of errors and zone issues.
use vstd::prelude::*;
use crate::addr_text::{hex_char, hex_digit_char, ipv4_text, ipv6_text, push_ipv4, push_ipv6};
use crate::record::{DataView, ErrorView, ParseError, Record, RecordData, RecordView};
use crate::text::{chars_of, decimal, push_decimal};
use crate::zone::{IssueView, ZoneIssue};

verus! {

/// How one character is written inside a JSON string.
pub open spec fn escape_char(c: char) -> Seq<char> {
    if c == '"' {
        seq!['\\', '"']
    } else if c == '\\' {
        seq!['\\', '\\']
    } else if c == '\n' {
        seq!['\\', 'n']
    } else if c == '\r' {
        seq!['\\', 'r']
    } else if c == '\t' {
        seq!['\\', 't']
    } else if (c as u32) < 0x20 {
        seq!['\\', 'u', '0', '0', hex_char((c as u32 / 16) as nat), hex_char((c as u32 % 16) as nat)]
    } else {
        seq![c]
    }
}

pub open spec fn escape_text(s: Seq<char>) -> Seq<char>
    decreases s.len(),
{
    if s.len() == 0 {
        seq![]
    } else {
        escape_text(s.drop_last()) + escape_char(s.last())
    }
}

/// `s` as a JSON string literal.
pub open spec fn json_string(s: Seq<char>) -> Seq<char> {
    seq!['"'] + escape_text(s) + seq!['"']
}

/// Appends `s` as a JSON string literal.
pub fn push_json_string(out: &mut String, s: &str)
    ensures
        final(out)@ == old(out)@ + json_string(s@),
{
    let v = chars_of(s);
    out.push('"');
    let ghost start = out@;
    let mut i: usize = 0;
    assert(v@.take(0) =~= Seq::<char>::empty());
    while i < v.len()
        invariant
            i <= v@.len(),
            v@ == s@,
            out@ == start + escape_text(v@.take(i as int)),
            start == old(out)@ + seq!['"'],
        decreases v.len() - i,
    {
        let c = v[i];
        let ghost before = out@;
        if c == '"' {
            out.push('\\');
            out.push('"');
        } else if c == '\\' {
            out.push('\\');
            out.push('\\');
        } else if c == '\n' {
            out.push('\\');
            out.push('n');
        } else if c == '\r' {
            out.push('\\');
            out.push('r');
        } else if c == '\t' {
            out.push('\\');
            out.push('t');
        } else if (c as u32) < 0x20 {
            out.push('\\');
            out.push('u');
            out.push('0');
            out.push('0');
            out.push(hex_digit_char((c as u32) / 16));
            out.push(hex_digit_char((c as u32) % 16));
        } else {
            out.push(c);
        }
        assert(out@ =~= before + escape_char(c));
        assert(v@.take(i + 1).drop_last() =~= v@.take(i as int));
        assert(out@ =~= start + escape_text(v@.take(i + 1)));
        i = i + 1;
    }
    assert(v@.take(i as int) =~= s@);
    out.push('"');
    assert(final(out)@ =~= old(out)@ + json_string(s@));
}

/// `s` escaped and quoted as a JSON string literal.  The text this tool
/// produces is mostly plain ASCII, but TXT data can carry any decoded text,
/// so control characters, quotes and backslashes are escaped.
pub fn json_escape(s: &str) -> (r: String)
    ensures
        r@ == json_string(s@),
{
    let mut out = String::new();
    push_json_string(&mut out, s);
    assert(out@ =~= json_string(s@));
    out
}

/// The type of a record as written in zone files.
pub open spec fn type_word(d: DataView) -> Seq<char> {
    match d {
        DataView::A(_) => seq!['A'],
        DataView::Aaaa(_) => seq!['A', 'A', 'A', 'A'],
        DataView::Cname(_) => seq!['C', 'N', 'A', 'M', 'E'],
        DataView::Ns(_) => seq!['N', 'S'],
        DataView::Ptr(_) => seq!['P', 'T', 'R'],
        DataView::Mx { .. } => seq!['M', 'X'],
        DataView::Txt(_) => seq!['T', 'X', 'T'],
        DataView::Soa { .. } => seq!['S', 'O', 'A'],
        DataView::Srv { .. } => seq!['S', 'R', 'V'],
    }
}

fn push_type_word(out: &mut String, d: &RecordData)
    ensures
        final(out)@ == old(out)@ + type_word(d@),
{
    match d {
        RecordData::A(_) => {
            out.push('A');
        },
        RecordData::Aaaa(_) => {
            out.push('A');
            out.push('A');
            out.push('A');
            out.push('A');
        },
        RecordData::Cname(_) => {
            out.push('C');
            out.push('N');
            out.push('A');
            out.push('M');
            out.push('E');
        },
        RecordData::Ns(_) => {
            out.push('N');
            out.push('S');
        },
        RecordData::Ptr(_) => {
            out.push('P');
            out.push('T');
            out.push('R');
        },
        RecordData::Mx { .. } => {
            out.push('M');
            out.push('X');
        },
        RecordData::Txt(_) => {
            out.push('T');
            out.push('X');
            out.push('T');
        },
        RecordData::Soa { .. } => {
            out.push('S');
            out.push('O');
            out.push('A');
        },
        RecordData::Srv { .. } => {
            out.push('S');
            out.push('R');
            out.push('V');
        },
    }
    assert(final(out)@ =~= old(out)@ + type_word(d@));
}

/// The JSON object for a record's data.
pub open spec fn data_json(d: DataView) -> Seq<char> {
    match d {
        DataView::A(o) => "{\"address\":"@ + json_string(ipv4_text(o)) + "}"@,
        DataView::Aaaa(g) => "{\"address\":"@ + json_string(ipv6_text(g)) + "}"@,
        DataView::Cname(t) => "{\"target\":"@ + json_string(t) + "}"@,
        DataView::Ns(t) => "{\"target\":"@ + json_string(t) + "}"@,
        DataView::Ptr(t) => "{\"target\":"@ + json_string(t) + "}"@,
        DataView::Mx { preference, exchange } => "{\"preference\":"@ + decimal(preference as nat)
            + ",\"exchange\":"@ + json_string(exchange) + "}"@,
        DataView::Txt(t) => "{\"text\":"@ + json_string(t) + "}"@,
        DataView::Soa { mname, rname, serial, refresh, retry, expire, minimum } => "{\"mname\":"@
            + json_string(mname) + ",\"rname\":"@ + json_string(rname) + ",\"serial\":"@ + decimal(
            serial as nat,
        ) + ",\"refresh\":"@ + decimal(refresh as nat) + ",\"retry\":"@ + decimal(retry as nat)
            + ",\"expire\":"@ + decimal(expire as nat) + ",\"minimum\":"@ + decimal(
            minimum as nat,
        ) + "}"@,
        DataView::Srv { priority, weight, port, target } => "{\"priority\":"@ + decimal(
            priority as nat,
        ) + ",\"weight\":"@ + decimal(weight as nat) + ",\"port\":"@ + decimal(port as nat)
            + ",\"target\":"@ + json_string(target) + "}"@,
    }
}

/// A record as a single-line JSON object.
pub open spec fn record_json(r: RecordView) -> Seq<char> {
    "{\"name\":"@ + json_string(r.name) + ",\"ttl\":"@ + decimal(r.ttl as nat) + ",\"type\":\""@
        + type_word(r.data) + "\",\"data\":"@ + data_json(r.data) + "}"@
}

/// Appends an ASCII string literal.
fn push_str(out: &mut String, s: &str)
    ensures
        final(out)@ == old(out)@ + s@,
{
    out.append(s);
}

fn push_data_json(out: &mut String, d: &RecordData)
    ensures
        final(out)@ == old(out)@ + data_json(d@),
{
    let ghost o = old(out)@;
    match d {
        RecordData::A(a) => {
            push_str(out, "{\"address\":");
            let mut t = String::new();
            push_ipv4(&mut t, a);
            push_json_string(out, t.as_str());
            push_str(out, "}");
        },
        RecordData::Aaaa(g) => {
            push_str(out, "{\"address\":");
            let mut t = String::new();
            push_ipv6(&mut t, g);
            push_json_string(out, t.as_str());
            push_str(out, "}");
        },
        RecordData::Cname(t) | RecordData::Ns(t) | RecordData::Ptr(t) => {
            push_str(out, "{\"target\":");
            push_json_string(out, t.as_str());
            push_str(out, "}");
        },
        RecordData::Mx { preference, exchange } => {
            push_str(out, "{\"preference\":");
            push_decimal(out, *preference as u64);
            push_str(out, ",\"exchange\":");
            push_json_string(out, exchange.as_str());
            push_str(out, "}");
        },
        RecordData::Txt(t) => {
            push_str(out, "{\"text\":");
            push_json_string(out, t.as_str());
            push_str(out, "}");
        },
        RecordData::Soa { mname, rname, serial, refresh, retry, expire, minimum } => {
            push_str(out, "{\"mname\":");
            push_json_string(out, mname.as_str());
            push_str(out, ",\"rname\":");
            push_json_string(out, rname.as_str());
            push_str(out, ",\"serial\":");
            push_decimal(out, *serial as u64);
            push_str(out, ",\"refresh\":");
            push_decimal(out, *refresh as u64);
            push_str(out, ",\"retry\":");
            push_decimal(out, *retry as u64);
            push_str(out, ",\"expire\":");
            push_decimal(out, *expire as u64);
            push_str(out, ",\"minimum\":");
            push_decimal(out, *minimum as u64);
            push_str(out, "}");
        },
        RecordData::Srv { priority, weight, port, target } => {
            push_str(out, "{\"priority\":");
            push_decimal(out, *priority as u64);
            push_str(out, ",\"weight\":");
            push_decimal(out, *weight as u64);
            push_str(out, ",\"port\":");
            push_decimal(out, *port as u64);
            push_str(out, ",\"target\":");
            push_json_string(out, target.as_str());
            push_str(out, "}");
        },
    }
    assert(final(out)@ =~= o + data_json(d@));
}

impl Record {
    /// Renders one record as a single-line JSON object.
    pub fn to_json(&self) -> (s: String)
        ensures
            s@ == record_json(self@),
    {
        let mut out = String::new();
        push_str(&mut out, "{\"name\":");
        let name = json_escape(self.name.as_str());
        push_str(&mut out, name.as_str());
        push_str(&mut out, ",\"ttl\":");
        push_decimal(&mut out, self.ttl as u64);
        push_str(&mut out, ",\"type\":\"");
        push_type_word(&mut out, &self.data);
        push_str(&mut out, "\",\"data\":");
        push_data_json(&mut out, &self.data);
        push_str(&mut out, "}");
        assert(out@ =~= record_json(self@));
        out
    }
}

/// `s` left-aligned in a field of `w` characters, as `{:<w}` pads it.
pub open spec fn pad(s: Seq<char>, w: nat) -> Seq<char> {
    if s.len() < w {
        s + Seq::new((w - s.len()) as nat, |i: int| ' ')
    } else {
        s
    }
}

/// TXT text back inside double quotes, each `"` escaped as `\"`.
pub open spec fn quote_escape(t: Seq<char>) -> Seq<char>
    decreases t.len(),
{
    if t.len() == 0 {
        seq![]
    } else {
        quote_escape(t.drop_last()) + if t.last() == '"' {
            seq!['\\', '"']
        } else {
            seq![t.last()]
        }
    }
}

/// A record's data as zone-file text.
pub open spec fn rdata_text(d: DataView) -> Seq<char> {
    match d {
        DataView::A(o) => ipv4_text(o),
        DataView::Aaaa(g) => ipv6_text(g),
        DataView::Cname(t) => t,
        DataView::Ns(t) => t,
        DataView::Ptr(t) => t,
        DataView::Mx { preference, exchange } => decimal(preference as nat) + seq![' '] + exchange,
        DataView::Txt(t) => seq!['"'] + quote_escape(t) + seq!['"'],
        DataView::Soa { mname, rname, serial, refresh, retry, expire, minimum } => mname + seq![' ']
            + rname + seq![' '] + decimal(serial as nat) + seq![' '] + decimal(refresh as nat) + seq![
            ' ',
        ] + decimal(retry as nat) + seq![' '] + decimal(expire as nat) + seq![' '] + decimal(
            minimum as nat,
        ),
        DataView::Srv { priority, weight, port, target } => decimal(priority as nat) + seq![' ']
            + decimal(weight as nat) + seq![' '] + decimal(port as nat) + seq![' '] + target,
    }
}

/// A record as one zone-file line in the consistent layout: the name in 24
/// columns, the TTL in 7, the class `IN`, the type in 6, then the data.
pub open spec fn record_line(r: RecordView) -> Seq<char> {
    pad(r.name, 24) + seq![' '] + pad(decimal(r.ttl as nat), 7) + seq![' ', 'I', 'N', ' ', ' ']
        + pad(type_word(r.data), 6) + seq![' '] + rdata_text(r.data)
}

/// Appends `s` left-aligned in a field of `w` characters.
fn push_padded(out: &mut String, s: &String, w: usize)
    ensures
        final(out)@ == old(out)@ + pad(s@, w as nat),
{
    let v = chars_of(s.as_str());
    let n = v.len();
    out.append(s.as_str());
    let mut i = n;
    let ghost base = old(out)@ + s@;
    while i < w
        invariant
            n == s@.len(),
            n <= i,
            i <= w || i == n,
            out@ == base + Seq::new((i - n) as nat, |k: int| ' '),
        decreases w - i,
    {
        out.push(' ');
        assert(base + Seq::new((i + 1 - n) as nat, |k: int| ' ') =~= (base + Seq::new(
            (i - n) as nat,
            |k: int| ' ',
        )).push(' '));
        i = i + 1;
    }
    assert(final(out)@ =~= old(out)@ + pad(s@, w as nat));
}

fn push_quote_escaped(out: &mut String, t: &String)
    ensures
        final(out)@ == old(out)@ + quote_escape(t@),
{
    let v = chars_of(t.as_str());
    let mut i: usize = 0;
    assert(v@.take(0) =~= Seq::<char>::empty());
    while i < v.len()
        invariant
            i <= v@.len(),
            v@ == t@,
            out@ == old(out)@ + quote_escape(v@.take(i as int)),
        decreases v.len() - i,
    {
        let c = v[i];
        let ghost before = out@;
        if c == '"' {
            out.push('\\');
            out.push('"');
        } else {
            out.push(c);
        }
        assert(v@.take(i + 1).drop_last() =~= v@.take(i as int));
        assert(out@ =~= old(out)@ + quote_escape(v@.take(i + 1)));
        i = i + 1;
    }
    assert(v@.take(i as int) =~= t@);
}

fn push_rdata(out: &mut String, d: &RecordData)
    ensures
        final(out)@ == old(out)@ + rdata_text(d@),
{
    let ghost o = old(out)@;
    match d {
        RecordData::A(a) => push_ipv4(out, a),
        RecordData::Aaaa(g) => push_ipv6(out, g),
        RecordData::Cname(t) | RecordData::Ns(t) | RecordData::Ptr(t) => out.append(t.as_str()),
        RecordData::Mx { preference, exchange } => {
            push_decimal(out, *preference as u64);
            out.push(' ');
            out.append(exchange.as_str());
        },
        RecordData::Txt(t) => {
            out.push('"');
            push_quote_escaped(out, t);
            out.push('"');
        },
        RecordData::Soa { mname, rname, serial, refresh, retry, expire, minimum } => {
            out.append(mname.as_str());
            out.push(' ');
            out.append(rname.as_str());
            out.push(' ');
            push_decimal(out, *serial as u64);
            out.push(' ');
            push_decimal(out, *refresh as u64);
            out.push(' ');
            push_decimal(out, *retry as u64);
            out.push(' ');
            push_decimal(out, *expire as u64);
            out.push(' ');
            push_decimal(out, *minimum as u64);
        },
        RecordData::Srv { priority, weight, port, target } => {
            push_decimal(out, *priority as u64);
            out.push(' ');
            push_decimal(out, *weight as u64);
            out.push(' ');
            push_decimal(out, *port as u64);
            out.push(' ');
            out.append(target.as_str());
        },
    }
    assert(final(out)@ =~= o + rdata_text(d@));
}

impl Record {
    /// The record as one zone-file line in the consistent layout (what
    /// `Display` writes for it).
    pub fn to_string(&self) -> (s: String)
        ensures
            s@ == record_line(self@),
    {
        let mut out = String::new();
        push_padded(&mut out, &self.name, 24);
        out.push(' ');
        let mut ttl = String::new();
        push_decimal(&mut ttl, self.ttl as u64);
        assert(ttl@ =~= decimal(self.ttl as nat));
        push_padded(&mut out, &ttl, 7);
        out.push(' ');
        out.push('I');
        out.push('N');
        out.push(' ');
        out.push(' ');
        let mut t = String::new();
        push_type_word(&mut t, &self.data);
        assert(t@ =~= type_word(self.data@));
        push_padded(&mut out, &t, 6);
        out.push(' ');
        push_rdata(&mut out, &self.data);
        assert(out@ =~= record_line(self@));
        out
    }
}

/// The message of a parse error.
pub open spec fn error_message(e: ErrorView) -> Seq<char> {
    match e {
        ErrorView::MissingField(f) => "missing "@ + f + " field"@,
        ErrorView::BadTtl(s) => "invalid ttl '"@ + s + "'"@,
        ErrorView::UnsupportedClass(s) => "unsupported class '"@ + s + "' (only IN is handled)"@,
        ErrorView::UnknownType(s) => "unknown record type '"@ + s + "'"@,
        ErrorView::BadName(s) => "invalid domain name '"@ + s + "'"@,
        ErrorView::BadAddress(s) => "invalid address '"@ + s + "'"@,
        ErrorView::BadMxPreference(s) => "invalid MX preference '"@ + s + "'"@,
        ErrorView::BadTxt(s) => "invalid TXT data '"@ + s + "' (expected a quoted string)"@,
        ErrorView::BadSoaField(f, s) => "invalid SOA "@ + f + " '"@ + s + "'"@,
        ErrorView::BadSrvField(f, s) => "invalid SRV "@ + f + " '"@ + s + "'"@,
        ErrorView::TrailingData(s) => "unexpected trailing data '"@ + s + "'"@,
        ErrorView::BadOrigin(s) => "invalid $ORIGIN value '"@ + s + "'"@,
    }
}

impl ParseError {
    /// The message for this error (what `Display` writes for it).
    pub fn to_string(&self) -> (s: String)
        ensures
            s@ == error_message(self@),
    {
        let mut out = String::new();
        match self {
            ParseError::MissingField(f) => {
                push_str(&mut out, "missing ");
                push_str(&mut out, f);
                push_str(&mut out, " field");
            },
            ParseError::BadTtl(s) => {
                push_str(&mut out, "invalid ttl '");
                push_str(&mut out, s.as_str());
                push_str(&mut out, "'");
            },
            ParseError::UnsupportedClass(s) => {
                push_str(&mut out, "unsupported class '");
                push_str(&mut out, s.as_str());
                push_str(&mut out, "' (only IN is handled)");
            },
            ParseError::UnknownType(s) => {
                push_str(&mut out, "unknown record type '");
                push_str(&mut out, s.as_str());
                push_str(&mut out, "'");
            },
            ParseError::BadName(s) => {
                push_str(&mut out, "invalid domain name '");
                push_str(&mut out, s.as_str());
                push_str(&mut out, "'");
            },
            ParseError::BadAddress(s) => {
                push_str(&mut out, "invalid address '");
                push_str(&mut out, s.as_str());
                push_str(&mut out, "'");
            },
            ParseError::BadMxPreference(s) => {
                push_str(&mut out, "invalid MX preference '");
                push_str(&mut out, s.as_str());
                push_str(&mut out, "'");
            },
            ParseError::BadTxt(s) => {
                push_str(&mut out, "invalid TXT data '");
                push_str(&mut out, s.as_str());
                push_str(&mut out, "' (expected a quoted string)");
            },
            ParseError::BadSoaField(f, s) => {
                push_str(&mut out, "invalid SOA ");
                push_str(&mut out, f);
                push_str(&mut out, " '");
                push_str(&mut out, s.as_str());
                push_str(&mut out, "'");
            },
            ParseError::BadSrvField(f, s) => {
                push_str(&mut out, "invalid SRV ");
                push_str(&mut out, f);
                push_str(&mut out, " '");
                push_str(&mut out, s.as_str());
                push_str(&mut out, "'");
            },
            ParseError::TrailingData(s) => {
                push_str(&mut out, "unexpected trailing data '");
                push_str(&mut out, s.as_str());
                push_str(&mut out, "'");
            },
            ParseError::BadOrigin(s) => {
                push_str(&mut out, "invalid $ORIGIN value '");
                push_str(&mut out, s.as_str());
                push_str(&mut out, "'");
            },
        }
        assert(out@ =~= error_message(self@));
        out
    }
}

/// `names` joined by `sep`.
pub open spec fn join(names: Seq<Seq<char>>, sep: Seq<char>) -> Seq<char>
    decreases names.len(),
{
    if names.len() == 0 {
        seq![]
    } else if names.len() == 1 {
        names[0]
    } else {
        join(names.drop_last(), sep) + sep + names.last()
    }
}

/// The message of a zone issue.
pub open spec fn issue_message(i: IssueView) -> Seq<char> {
    match i {
        IssueView::NoSoa => "zone: no SOA record found"@,
        IssueView::MultipleSoa(names) => "zone: multiple SOA records ("@ + join(names, ", "@)
            + ")"@,
        IssueView::CnameConflict(n) => "zone: '"@ + n
            + "' has a CNAME alongside other records at the same name"@,
    }
}

impl ZoneIssue {
    /// The message for this issue (what `Display` writes for it).
    pub fn to_string(&self) -> (s: String)
        ensures
            s@ == issue_message(self@),
    {
        let mut out = String::new();
        match self {
            ZoneIssue::NoSoa => {
                push_str(&mut out, "zone: no SOA record found");
            },
            ZoneIssue::MultipleSoa(names) => {
                push_str(&mut out, "zone: multiple SOA records (");
                let ghost start = out@;
                let ghost nv = crate::zone::strings_view(names@);
                let mut i: usize = 0;
                assert(nv.take(0) =~= Seq::<Seq<char>>::empty());
                while i < names.len()
                    invariant
                        i <= names@.len(),
                        nv == crate::zone::strings_view(names@),
                        out@ == start + join(nv.take(i as int), ", "@),
                    decreases names.len() - i,
                {
                    if i > 0 {
                        push_str(&mut out, ", ");
                    }
                    push_str(&mut out, names[i].as_str());
                    proof {
                        let t = nv.take(i + 1);
                        assert(t.drop_last() =~= nv.take(i as int));
                        if i == 0 {
                            assert(join(nv.take(0), ", "@) =~= Seq::<char>::empty());
                        }
                    }
                    assert(out@ =~= start + join(nv.take(i + 1), ", "@));
                    i = i + 1;
                }
                assert(nv.take(i as int) =~= nv);
                push_str(&mut out, ")");
            },
            ZoneIssue::CnameConflict(n) => {
                push_str(&mut out, "zone: '");
                push_str(&mut out, n.as_str());
                push_str(&mut out, "' has a CNAME alongside other records at the same name");
            },
        }
        assert(out@ =~= issue_message(self@));
        out
    }
}

} // verus!
