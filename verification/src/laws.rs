//! Laws of the library as a whole.
use vstd::prelude::*;
use crate::addr::{hex_digit_val, hex_value, ipv4, ipv6, is_hex};
use crate::names::{labels_valid, qualify, strip_dot, valid_label, valid_name};
use crate::parse::{
    lemma_take_token,
    mx_data, name_field, number_field, parse_record, record_data, record_type, scan_fields,
    soa_data, soa_numbers, srv_data, word_eq, RecordType,
};
use crate::record::{target_name, ContextView, DataView, ErrorView, RecordView};
use crate::render::{escape_char, escape_text, json_string, pad, rdata_text, record_line, type_word};
use crate::roundtrip::{
    all_ws, lemma_decimal_text, lemma_ipv4_roundtrip, lemma_ipv6_roundtrip, lemma_name_text,
    lemma_take_token_concat, lemma_trim_concat, lemma_trim_spaces,
    lemma_split_append, lemma_txt_roundtrip, no_ws, spaces,
};
use crate::text::{split, decimal, is_ws, lemma_parse_decimal, parse_unsigned, take_token, trim};

verus! {

/// An origin that names are qualified against: none, or a valid absolute name.
pub open spec fn good_origin(origin: Option<Seq<char>>) -> bool {
    match origin {
        None => true,
        Some(o) => valid_name(o) && o.len() > 0 && o.last() == '.',
    }
}

/// Qualifying a valid name against a good origin gives a valid name that
/// qualifying leaves as it is.
pub(crate) proof fn lemma_qualified(n: Seq<char>, origin: Option<Seq<char>>)
    requires
        valid_name(n),
        good_origin(origin),
    ensures
        valid_name(qualify(n, origin)),
        qualify(qualify(n, origin), origin) == qualify(n, origin),
{
    match origin {
        None => {},
        Some(o) => {
            assert(o != seq!['@']) by {
                if o == seq!['@'] {
                    assert(o.last() == '@');
                }
            }
            if n == seq!['@'] {
            } else if n.len() > 0 && n.last() == '.' {
            } else {
                let q = n + seq!['.'] + o;
                assert(q.last() == '.');
                assert(q != seq!['@']) by {
                    if q == seq!['@'] {
                        assert(q.last() == '@');
                    }
                }
                assert(strip_dot(n) == n);
                let so = strip_dot(o);
                assert(strip_dot(q) =~= n + seq!['.'] + so);
                lemma_split_append(n, so, '.');
                let parts = split(strip_dot(q), '.');
                assert forall|i: int| 0 <= i < parts.len() implies valid_label(
                    #[trigger] parts[i],
                ) by {
                    if i < split(n, '.').len() {
                        assert(parts[i] == split(n, '.')[i]);
                    } else {
                        assert(parts[i] == split(so, '.')[i - split(n, '.').len()]);
                    }
                }
                assert(labels_valid(strip_dot(q)));
            }
        },
    }
}

proof fn lemma_number_field_text(
    w: Seq<char>,
    n: nat,
    max: nat,
    rest: Seq<char>,
    missing: Seq<char>,
    bad: spec_fn(Seq<char>) -> ErrorView,
)
    requires
        all_ws(w),
        n <= max,
        rest.len() == 0 || is_ws(rest[0]),
    ensures
        number_field(w + decimal(n) + rest, max, missing, bad) == Ok::<(nat, Seq<char>), ErrorView>(
            (n, rest),
        ),
{
    lemma_decimal_text(n);
    lemma_take_token_concat(w, decimal(n), rest);
    lemma_parse_decimal(n, max);
}

proof fn lemma_name_field_text(
    w: Seq<char>,
    name: Seq<char>,
    rest: Seq<char>,
    missing: Seq<char>,
    origin: Option<Seq<char>>,
)
    requires
        all_ws(w),
        valid_name(name),
        qualify(name, origin) == name,
        rest.len() == 0 || is_ws(rest[0]),
    ensures
        name_field(w + name + rest, origin, missing) == Ok::<(Seq<char>, Seq<char>), ErrorView>(
            (name, rest),
        ),
{
    lemma_name_text(name);
    lemma_take_token_concat(w, name, rest);
}

proof fn lemma_all_ws_space()
    ensures
        all_ws(seq![' ']),
        all_ws(Seq::<char>::empty()),
{
    assert(is_ws(seq![' '][0]));
}

/// The text of a target name: a valid name, printed as it is.
pub(crate) proof fn lemma_target_text(n: Seq<char>, origin: Option<Seq<char>>)
    requires
        valid_name(n),
        qualify(n, origin) == n,
    ensures
        target_name(n, origin) == Ok::<Seq<char>, ErrorView>(n),
        trim(n) == n,
        n.len() > 0,
        !is_ws(n[0]),
        !is_ws(n.last()),
{
    lemma_name_text(n);
    assert(!is_ws(n[n.len() - 1]));
    assert(Seq::<char>::empty() + n =~= n);
    lemma_trim_concat(Seq::<char>::empty(), n);
}

proof fn lemma_mx_roundtrip(r: Seq<char>, origin: Option<Seq<char>>)
    requires
        good_origin(origin),
        mx_data(r, origin) is Ok,
    ensures
        mx_data(rdata_text(mx_data(r, origin)->Ok_0), origin) == mx_data(r, origin),
        rdata_text(mx_data(r, origin)->Ok_0).len() > 0,
        !is_ws(rdata_text(mx_data(r, origin)->Ok_0)[0]),
        !is_ws(rdata_text(mx_data(r, origin)->Ok_0).last()),
{
    let d = mx_data(r, origin)->Ok_0;
    let (p, rest) = number_field(r, u16::MAX as nat, "mx preference"@, crate::parse::mx_bad())->Ok_0;
    let e0 = trim(rest);
    assert(valid_name(e0));
    let e = qualify(e0, origin);
    lemma_qualified(e0, origin);
    lemma_target_text(e, origin);
    lemma_decimal_text(p);
    lemma_all_ws_space();
    let text = rdata_text(d);
    assert(d == DataView::Mx { preference: p as u16, exchange: e });
    assert(text == decimal(p) + seq![' '] + e);
    assert(text =~= Seq::<char>::empty() + decimal(p) + (seq![' '] + e));
    lemma_number_field_text(
        Seq::<char>::empty(),
        p,
        u16::MAX as nat,
        seq![' '] + e,
        "mx preference"@,
        crate::parse::mx_bad(),
    );
    lemma_trim_concat(seq![' '], e);
    assert(text[0] == decimal(p)[0]);
    assert(text.last() == e.last());
}

/// The numbers of SOA data as printed after the names.
pub open spec fn soa_numbers_text(x: (u32, u32, u32, u32, u32)) -> Seq<char> {
    seq![' '] + decimal(x.0 as nat) + seq![' '] + decimal(x.1 as nat) + seq![' '] + decimal(
        x.2 as nat,
    ) + seq![' '] + decimal(x.3 as nat) + seq![' '] + decimal(x.4 as nat)
}

proof fn lemma_soa_numbers_roundtrip(r: Seq<char>)
    requires
        soa_numbers(r) is Ok,
    ensures
        soa_numbers(soa_numbers_text(soa_numbers(r)->Ok_0)) == soa_numbers(r),
{
    let x = soa_numbers(r)->Ok_0;
    let mx = u32::MAX as nat;
    let (serial, q1) = number_field(r, mx, "soa serial"@, crate::parse::soa_bad("serial"@))->Ok_0;
    let (refresh, q2) = number_field(q1, mx, "soa refresh"@, crate::parse::soa_bad("refresh"@))->Ok_0;
    let (retry, q3) = number_field(q2, mx, "soa retry"@, crate::parse::soa_bad("retry"@))->Ok_0;
    let (expire, q4) = number_field(q3, mx, "soa expire"@, crate::parse::soa_bad("expire"@))->Ok_0;
    let (minimum, q5) = number_field(q4, mx, "soa minimum"@, crate::parse::soa_bad("minimum"@))->Ok_0;
    assert(x == (serial as u32, refresh as u32, retry as u32, expire as u32, minimum as u32));
    lemma_all_ws_space();
    let sp = seq![' '];
    let e: Seq<char> = Seq::empty();
    let s5 = sp + decimal(minimum) + e;
    let s4 = sp + decimal(expire) + s5;
    let s3 = sp + decimal(retry) + s4;
    let s2 = sp + decimal(refresh) + s3;
    let s1 = sp + decimal(serial) + s2;
    assert(soa_numbers_text(x) =~= s1);
    lemma_number_field_text(sp, serial, mx, s2, "soa serial"@, crate::parse::soa_bad("serial"@));
    lemma_number_field_text(sp, refresh, mx, s3, "soa refresh"@, crate::parse::soa_bad("refresh"@));
    lemma_number_field_text(sp, retry, mx, s4, "soa retry"@, crate::parse::soa_bad("retry"@));
    lemma_number_field_text(sp, expire, mx, s5, "soa expire"@, crate::parse::soa_bad("expire"@));
    lemma_number_field_text(sp, minimum, mx, e, "soa minimum"@, crate::parse::soa_bad("minimum"@));
    lemma_trim_spaces(e);
}

pub open spec fn soa_view(m: Seq<char>, rn: Seq<char>, x: (u32, u32, u32, u32, u32)) -> DataView {
    DataView::Soa { mname: m, rname: rn, serial: x.0, refresh: x.1, retry: x.2, expire: x.3, minimum: x.4 }
}

proof fn lemma_soa_text(
    m: Seq<char>,
    rn: Seq<char>,
    x: (u32, u32, u32, u32, u32),
    origin: Option<Seq<char>>,
)
    requires
        valid_name(m),
        valid_name(rn),
        qualify(m, origin) == m,
        qualify(rn, origin) == rn,
        soa_numbers(soa_numbers_text(x)) == Ok::<(u32, u32, u32, u32, u32), ErrorView>(x),
    ensures
        soa_data(m + (seq![' '] + rn + soa_numbers_text(x)), origin) == Ok::<DataView, ErrorView>(
            soa_view(m, rn, x),
        ),
{
    lemma_all_ws_space();
    let sp = seq![' '];
    let e: Seq<char> = Seq::empty();
    let s1 = soa_numbers_text(x);
    let t1 = sp + rn + s1;
    assert(e + m + t1 =~= m + t1);
    lemma_name_field_text(e, m, t1, "soa mname"@, origin);
    lemma_name_field_text(sp, rn, s1, "soa rname"@, origin);
}

/// The parts of SOA data that parsed: the two names as written and the
/// numbers.
proof fn lemma_soa_parts(r: Seq<char>, origin: Option<Seq<char>>) -> (res: (
    Seq<char>,
    Seq<char>,
    (u32, u32, u32, u32, u32),
))
    requires
        soa_data(r, origin) is Ok,
    ensures
        valid_name(res.0),
        valid_name(res.1),
        soa_numbers(soa_numbers_text(res.2)) == Ok::<(u32, u32, u32, u32, u32), ErrorView>(res.2),
        soa_data(r, origin) == Ok::<DataView, ErrorView>(
            soa_view(qualify(res.0, origin), qualify(res.1, origin), res.2),
        ),
{
    let (m, r1) = name_field(r, origin, "soa mname"@)->Ok_0;
    let (rn, r2) = name_field(r1, origin, "soa rname"@)->Ok_0;
    let tok1 = take_token(r)->0;
    let tok2 = take_token(r1)->0;
    assert(valid_name(tok1.0) && m == qualify(tok1.0, origin));
    assert(valid_name(tok2.0) && rn == qualify(tok2.0, origin));
    let x = soa_numbers(r2)->Ok_0;
    lemma_soa_numbers_roundtrip(r2);
    (tok1.0, tok2.0, x)
}

proof fn lemma_soa_roundtrip(r: Seq<char>, origin: Option<Seq<char>>)
    requires
        good_origin(origin),
        soa_data(r, origin) is Ok,
    ensures
        soa_data(rdata_text(soa_data(r, origin)->Ok_0), origin) == soa_data(r, origin),
        rdata_text(soa_data(r, origin)->Ok_0).len() > 0,
        !is_ws(rdata_text(soa_data(r, origin)->Ok_0)[0]),
        !is_ws(rdata_text(soa_data(r, origin)->Ok_0).last()),
{
    let (m0, rn0, x) = lemma_soa_parts(r, origin);
    lemma_qualified(m0, origin);
    lemma_qualified(rn0, origin);
    let m = qualify(m0, origin);
    let rn = qualify(rn0, origin);
    let d = soa_view(m, rn, x);
    lemma_soa_text(m, rn, x, origin);
    let text = rdata_text(d);
    let s1 = soa_numbers_text(x);
    assert(text =~= m + (seq![' '] + rn + s1));
    lemma_name_text(m);
    lemma_decimal_text(x.4 as nat);
    assert(text[0] == m[0]);
    assert(text.last() == decimal(x.4 as nat).last());
    assert(crate::text::is_digit(decimal(x.4 as nat)[decimal(x.4 as nat).len() - 1]));
}

proof fn lemma_srv_roundtrip(r: Seq<char>, origin: Option<Seq<char>>)
    requires
        good_origin(origin),
        srv_data(r, origin) is Ok,
    ensures
        srv_data(rdata_text(srv_data(r, origin)->Ok_0), origin) == srv_data(r, origin),
        rdata_text(srv_data(r, origin)->Ok_0).len() > 0,
        !is_ws(rdata_text(srv_data(r, origin)->Ok_0)[0]),
        !is_ws(rdata_text(srv_data(r, origin)->Ok_0).last()),
{
    let d = srv_data(r, origin)->Ok_0;
    let mx = u16::MAX as nat;
    let (priority, q1) = number_field(r, mx, "srv priority"@, crate::parse::srv_bad("priority"@))->Ok_0;
    let (weight, q2) = number_field(q1, mx, "srv weight"@, crate::parse::srv_bad("weight"@))->Ok_0;
    let (port, q3) = number_field(q2, mx, "srv port"@, crate::parse::srv_bad("port"@))->Ok_0;
    let t0 = trim(q3);
    assert(valid_name(t0));
    let target = qualify(t0, origin);
    lemma_qualified(t0, origin);
    lemma_target_text(target, origin);
    assert(d == DataView::Srv {
        priority: priority as u16,
        weight: weight as u16,
        port: port as u16,
        target,
    });
    lemma_all_ws_space();
    let sp = seq![' '];
    let e: Seq<char> = Seq::empty();
    let s3 = sp + target;
    let s2 = sp + decimal(port) + s3;
    let s1 = sp + decimal(weight) + s2;
    let text = rdata_text(d);
    assert(text =~= e + decimal(priority) + s1);
    lemma_number_field_text(e, priority, mx, s1, "srv priority"@, crate::parse::srv_bad("priority"@));
    lemma_number_field_text(sp, weight, mx, s2, "srv weight"@, crate::parse::srv_bad("weight"@));
    lemma_number_field_text(sp, port, mx, s3, "srv port"@, crate::parse::srv_bad("port"@));
    lemma_trim_concat(sp, target);
    lemma_decimal_text(priority);
    assert(text[0] == decimal(priority)[0]);
    assert(text.last() == target.last());
}

/// The type word printed for data of type `t` names `t` again.
pub(crate) proof fn lemma_type_word(t: RecordType, d: DataView)
    requires
        match t {
            RecordType::A => d is A,
            RecordType::Aaaa => d is Aaaa,
            RecordType::Cname => d is Cname,
            RecordType::Ns => d is Ns,
            RecordType::Ptr => d is Ptr,
            RecordType::Mx => d is Mx,
            RecordType::Txt => d is Txt,
            RecordType::Soa => d is Soa,
            RecordType::Srv => d is Srv,
        },
    ensures
        record_type(type_word(d)) == Some(t),
        !word_eq(type_word(d), seq!['I', 'N']),
        type_word(d).len() > 0,
        no_ws(type_word(d)),
{
    let w = type_word(d);
    assert(word_eq(w, w));
    assert(w.len() == 1 ==> !word_eq(w, seq!['I', 'N']));
    assert(w[0] != 'I' && !(w[0] as u32 == 'I' as u32 + 32));
    assert(!word_eq(w, seq!['I', 'N'])) by {
        if w.len() == 2 {
            assert(!(w[0] == seq!['I', 'N'][0] || ('A' <= seq!['I', 'N'][0] && seq!['I', 'N'][0] <= 'Z'
                && w[0] as u32 == seq!['I', 'N'][0] as u32 + 32)));
        }
    }
    match t {
        RecordType::A => {},
        RecordType::Aaaa => {
            assert(!word_eq(w, seq!['A']));
        },
        RecordType::Cname => {},
        RecordType::Ns => {},
        RecordType::Ptr => {
            assert(!word_eq(w, seq!['A']));
        },
        RecordType::Mx => {
            assert(!word_eq(w, seq!['N', 'S'])) by {
                assert(!(w[0] == seq!['N', 'S'][0] || ('A' <= seq!['N', 'S'][0] && seq!['N', 'S'][0]
                    <= 'Z' && w[0] as u32 == seq!['N', 'S'][0] as u32 + 32)));
            }
        },
        RecordType::Txt => {
            assert(!word_eq(w, seq!['P', 'T', 'R'])) by {
                assert(!(w[0] == seq!['P', 'T', 'R'][0] || ('A' <= seq!['P', 'T', 'R'][0]
                    && seq!['P', 'T', 'R'][0] <= 'Z' && w[0] as u32 == seq!['P', 'T', 'R'][0] as u32
                    + 32)));
            }
        },
        RecordType::Soa => {
            assert(!word_eq(w, seq!['P', 'T', 'R'])) by {
                assert(!(w[0] == seq!['P', 'T', 'R'][0] || ('A' <= seq!['P', 'T', 'R'][0]
                    && seq!['P', 'T', 'R'][0] <= 'Z' && w[0] as u32 == seq!['P', 'T', 'R'][0] as u32
                    + 32)));
            }
            assert(!word_eq(w, seq!['T', 'X', 'T'])) by {
                assert(!(w[0] == seq!['T', 'X', 'T'][0] || ('A' <= seq!['T', 'X', 'T'][0]
                    && seq!['T', 'X', 'T'][0] <= 'Z' && w[0] as u32 == seq!['T', 'X', 'T'][0] as u32
                    + 32)));
            }
        },
        RecordType::Srv => {
            assert(!word_eq(w, seq!['P', 'T', 'R'])) by {
                assert(!(w[0] == seq!['P', 'T', 'R'][0] || ('A' <= seq!['P', 'T', 'R'][0]
                    && seq!['P', 'T', 'R'][0] <= 'Z' && w[0] as u32 == seq!['P', 'T', 'R'][0] as u32
                    + 32)));
            }
            assert(!word_eq(w, seq!['T', 'X', 'T'])) by {
                assert(!(w[0] == seq!['T', 'X', 'T'][0] || ('A' <= seq!['T', 'X', 'T'][0]
                    && seq!['T', 'X', 'T'][0] <= 'Z' && w[0] as u32 == seq!['T', 'X', 'T'][0] as u32
                    + 32)));
            }
            assert(!word_eq(w, seq!['S', 'O', 'A'])) by {
                assert(!(w[1] == seq!['S', 'O', 'A'][1] || ('A' <= seq!['S', 'O', 'A'][1]
                    && seq!['S', 'O', 'A'][1] <= 'Z' && w[1] as u32 == seq!['S', 'O', 'A'][1] as u32
                    + 32)));
            }
        },
    }
    assert forall|i: int| 0 <= i < w.len() implies !is_ws(#[trigger] w[i]) by {
        assert('A' <= w[i] && w[i] <= 'Z');
    }
}

/// Printed data of a parsed record reads back as the same data.
proof fn lemma_rdata_roundtrip(t: RecordType, r: Seq<char>, origin: Option<Seq<char>>)
    requires
        good_origin(origin),
        record_data(t, r, origin) is Ok,
    ensures
        record_data(t, rdata_text(record_data(t, r, origin)->Ok_0), origin) == record_data(t, r, origin),
        rdata_text(record_data(t, r, origin)->Ok_0).len() > 0,
        !is_ws(rdata_text(record_data(t, r, origin)->Ok_0)[0]),
        !is_ws(rdata_text(record_data(t, r, origin)->Ok_0).last()),
        record_type(type_word(record_data(t, r, origin)->Ok_0)) == Some(t),
        !word_eq(type_word(record_data(t, r, origin)->Ok_0), seq!['I', 'N']),
        type_word(record_data(t, r, origin)->Ok_0).len() > 0,
        no_ws(type_word(record_data(t, r, origin)->Ok_0)),
{
    let d = record_data(t, r, origin)->Ok_0;
    lemma_type_word(t, d);
    let text = rdata_text(d);
    match t {
        RecordType::A => {
            let o = ipv4(r)->0;
            lemma_ipv4_roundtrip(o);
            assert(!is_ws(text.last()));
        },
        RecordType::Aaaa => {
            let g = ipv6(r)->0;
            assert(g.len() == 8);
            lemma_ipv6_roundtrip(g);
            assert(!is_ws(text[0]));
            assert(!is_ws(text[text.len() - 1]));
        },
        RecordType::Cname | RecordType::Ns | RecordType::Ptr => {
            assert(valid_name(r));
            lemma_qualified(r, origin);
            lemma_target_text(qualify(r, origin), origin);
        },
        RecordType::Mx => {
            lemma_mx_roundtrip(r, origin);
        },
        RecordType::Txt => {
            lemma_txt_roundtrip(r);
            assert(text[0] == '"');
            assert(text.last() == '"');
        },
        RecordType::Soa => {
            lemma_soa_roundtrip(r, origin);
        },
        RecordType::Srv => {
            lemma_srv_roundtrip(r, origin);
        },
    }
}

pub open spec fn pad_len(s: Seq<char>, w: nat) -> nat {
    if s.len() < w {
        (w - s.len()) as nat
    } else {
        0
    }
}

proof fn lemma_pad(s: Seq<char>, w: nat)
    ensures
        pad(s, w) == s + spaces(pad_len(s, w)),
        all_ws(spaces(pad_len(s, w))),
{
    assert(pad(s, w) =~= s + spaces(pad_len(s, w)));
}

proof fn lemma_all_ws_concat(a: Seq<char>, b: Seq<char>)
    requires
        all_ws(a),
        all_ws(b),
    ensures
        all_ws(a + b),
{
    assert forall|i: int| 0 <= i < (a + b).len() implies is_ws(#[trigger] (a + b)[i]) by {
        if i < a.len() {
            assert((a + b)[i] == a[i]);
        } else {
            assert((a + b)[i] == b[i - a.len()]);
        }
    }
}

/// A decimal number is read as a TTL field, not as a type or a class.
proof fn lemma_decimal_field(n: nat)
    ensures
        record_type(decimal(n)) is None,
        !word_eq(decimal(n), seq!['I', 'N']),
        crate::parse::looks_numeric(decimal(n)),
{
    lemma_decimal_text(n);
    let d = decimal(n);
    assert(crate::text::is_digit(d[0]));
    assert forall|w: Seq<char>|
        w.len() > 0 && 'A' <= #[trigger] w[0] && w[0] <= 'Z' implies !word_eq(d, w) by {
        assert(!(d[0] == w[0] || ('A' <= w[0] && w[0] <= 'Z' && d[0] as u32 == w[0] as u32 + 32)));
    }
    assert(seq!['A'][0] == 'A');
    assert(seq!['A', 'A', 'A', 'A'][0] == 'A');
    assert(seq!['C', 'N', 'A', 'M', 'E'][0] == 'C');
    assert(seq!['N', 'S'][0] == 'N');
    assert(seq!['P', 'T', 'R'][0] == 'P');
    assert(seq!['M', 'X'][0] == 'M');
    assert(seq!['T', 'X', 'T'][0] == 'T');
    assert(seq!['S', 'O', 'A'][0] == 'S');
    assert(seq!['S', 'R', 'V'][0] == 'S');
    assert(seq!['I', 'N'][0] == 'I');
}

/// `IN` is read as the class.
proof fn lemma_class_field()
    ensures
        record_type(seq!['I', 'N']) is None,
        word_eq(seq!['I', 'N'], seq!['I', 'N']),
        no_ws(seq!['I', 'N']),
{
    let c = seq!['I', 'N'];
    assert(!word_eq(c, seq!['N', 'S'])) by {
        assert(!(c[0] == seq!['N', 'S'][0] || ('A' <= seq!['N', 'S'][0] && seq!['N', 'S'][0] <= 'Z'
            && c[0] as u32 == seq!['N', 'S'][0] as u32 + 32)));
    }
    assert(!word_eq(c, seq!['M', 'X'])) by {
        assert(!(c[0] == seq!['M', 'X'][0] || ('A' <= seq!['M', 'X'][0] && seq!['M', 'X'][0] <= 'Z'
            && c[0] as u32 == seq!['M', 'X'][0] as u32 + 32)));
    }
    assert forall|i: int| 0 <= i < c.len() implies !is_ws(#[trigger] c[i]) by {}
}

/// The fields of a printed line, from just after the name.
proof fn lemma_scan_printed(ttl: u32, w: Seq<char>, t: RecordType, rd: Seq<char>)
    requires
        record_type(w) == Some(t),
        w.len() > 0,
        no_ws(w),
    ensures
        ({
            let line_rest = spaces(pad_len(decimal(ttl as nat), 7)) + seq![' ', 'I', 'N', ' ', ' ']
                + pad(w, 6) + seq![' '] + rd;
            forall|p1: nat|
                #![trigger spaces(p1)]
                scan_fields(spaces(p1) + seq![' '] + decimal(ttl as nat) + line_rest, None, false)
                    == Ok::<(RecordType, Seq<char>, Option<u32>), ErrorView>(
                    (t, spaces(pad_len(w, 6)) + seq![' '] + rd, Some(ttl)),
                )
        }),
{
    let d = decimal(ttl as nat);
    let sp = seq![' '];
    lemma_all_ws_space();
    lemma_decimal_text(ttl as nat);
    lemma_decimal_field(ttl as nat);
    lemma_class_field();
    lemma_pad(d, 7);
    lemma_pad(w, 6);
    let k2 = spaces(pad_len(d, 7));
    let k3 = spaces(pad_len(w, 6));
    let u4 = k3 + sp + rd;
    let u3 = seq![' ', ' '] + w + u4;
    let u2 = k2 + sp + seq!['I', 'N'] + u3;
    let line_rest = k2 + seq![' ', 'I', 'N', ' ', ' '] + pad(w, 6) + sp + rd;
    assert(line_rest =~= u2);
    assert(all_ws(seq![' ', ' ']));
    lemma_all_ws_concat(k2, sp);
    lemma_all_ws_concat(k3, sp);
    assert(is_ws(u4[0])) by {
        if k3.len() > 0 {
            assert(u4[0] == k3[0]);
        } else {
            assert(u4[0] == ' ');
        }
    }
    assert(is_ws(u3[0]));
    assert(is_ws(u2[0])) by {
        if k2.len() > 0 {
            assert(u2[0] == k2[0]);
        } else {
            assert(u2[0] == ' ');
        }
    }
    lemma_take_token_concat(seq![' ', ' '], w, u4);
    lemma_take_token_concat(k2 + sp, seq!['I', 'N'], u3);
    lemma_parse_decimal(ttl as nat, u32::MAX as nat);
    lemma_take_token(u3);
    lemma_take_token(u2);
    assert(scan_fields(u3, Some(ttl), true) == Ok::<(RecordType, Seq<char>, Option<u32>), ErrorView>(
        (t, u4, Some(ttl)),
    ));
    assert(scan_fields(u2, Some(ttl), false) == scan_fields(u3, Some(ttl), true));
    assert forall|p1: nat|
        #![trigger spaces(p1)]
        scan_fields(spaces(p1) + seq![' '] + decimal(ttl as nat) + line_rest, None, false)
            == Ok::<(RecordType, Seq<char>, Option<u32>), ErrorView>((t, u4, Some(ttl))) by {
        let u1 = spaces(p1) + sp + d + u2;
        lemma_all_ws_concat(spaces(p1), sp);
        lemma_take_token_concat(spaces(p1) + sp, d, u2);
        lemma_take_token(u1);
        assert(spaces(p1) + seq![' '] + decimal(ttl as nat) + line_rest =~= u1);
        assert(scan_fields(u1, None, false) == scan_fields(u2, Some(ttl), false));
    }
}

/// The text of a printed line after the name.
pub open spec fn after_name(name: Seq<char>, ttl: u32, w: Seq<char>, rd: Seq<char>) -> Seq<char> {
    spaces(pad_len(name, 24)) + seq![' '] + decimal(ttl as nat) + (spaces(
        pad_len(decimal(ttl as nat), 7),
    ) + seq![' ', 'I', 'N', ' ', ' '] + pad(w, 6) + seq![' '] + rd)
}

pub(crate) proof fn lemma_record_line_parts(r: RecordView)
    ensures
        record_line(r) == r.name + after_name(r.name, r.ttl, type_word(r.data), rdata_text(r.data)),
{
    lemma_pad(r.name, 24);
    lemma_pad(decimal(r.ttl as nat), 7);
    assert(record_line(r) =~= r.name + after_name(
        r.name,
        r.ttl,
        type_word(r.data),
        rdata_text(r.data),
    ));
}

/// A printed line parses back to the record it was printed from.
pub(crate) proof fn lemma_parse_printed(
    name: Seq<char>,
    ttl: u32,
    t: RecordType,
    w: Seq<char>,
    rd: Seq<char>,
    d: DataView,
    ctx: ContextView,
)
    requires
        valid_name(name),
        qualify(name, ctx.origin) == name,
        record_data(t, rd, ctx.origin) == Ok::<DataView, ErrorView>(d),
        rd.len() > 0,
        !is_ws(rd[0]),
        !is_ws(rd.last()),
        record_type(w) == Some(t),
        w.len() > 0,
        no_ws(w),
    ensures
        parse_record(name + after_name(name, ttl, w, rd), ctx) == Ok::<RecordView, ErrorView>(
            RecordView { name, ttl, data: d },
        ),
{
    lemma_scan_printed(ttl, w, t, rd);
    lemma_name_text(name);
    lemma_all_ws_space();
    let p1 = pad_len(name, 24);
    let u1 = after_name(name, ttl, w, rd);
    assert(is_ws(u1[0])) by {
        if p1 > 0 {
            assert(u1[0] == spaces(p1)[0]);
        } else {
            assert(u1[0] == ' ');
        }
    }
    assert(Seq::<char>::empty() + name + u1 =~= name + u1);
    lemma_take_token_concat(Seq::<char>::empty(), name, u1);
    let u4 = spaces(pad_len(w, 6)) + seq![' '] + rd;
    assert(scan_fields(u1, None, false) == Ok::<(RecordType, Seq<char>, Option<u32>), ErrorView>(
        (t, u4, Some(ttl)),
    ));
    lemma_pad(w, 6);
    lemma_all_ws_concat(spaces(pad_len(w, 6)), seq![' ']);
    lemma_trim_concat(spaces(pad_len(w, 6)) + seq![' '], rd);
}

/// Reprinting a parsed record and parsing the printed line again, in the
/// same context, gives the same record back; so reprinting a reprinted
/// line changes nothing.  This holds where the context has no origin, or
/// an origin that is a valid absolute name, so that no name is qualified a
/// second time.
pub proof fn law_reprint_round_trip(line: Seq<char>, ctx: ContextView)
    requires
        good_origin(ctx.origin),
        parse_record(line, ctx) is Ok,
    ensures
        parse_record(record_line(parse_record(line, ctx)->Ok_0), ctx) == parse_record(line, ctx),
        record_line(parse_record(record_line(parse_record(line, ctx)->Ok_0), ctx)->Ok_0)
            == record_line(parse_record(line, ctx)->Ok_0),
{
    let r = parse_record(line, ctx)->Ok_0;
    let (name0, rest0) = take_token(line)->0;
    assert(valid_name(name0));
    let (t, after, ttl0) = scan_fields(rest0, None, false)->Ok_0;
    let d = record_data(t, trim(after), ctx.origin)->Ok_0;
    assert(r.name == qualify(name0, ctx.origin));
    assert(r.data == d);
    lemma_qualified(name0, ctx.origin);
    lemma_rdata_roundtrip(t, trim(after), ctx.origin);
    lemma_record_line_parts(r);
    lemma_parse_printed(r.name, r.ttl, t, type_word(d), rdata_text(d), d, ctx);
}

/// A token that starts with a digit or `-` is neither a type nor a class.
pub(crate) proof fn lemma_numeric_token(a: Seq<char>)
    requires
        crate::parse::looks_numeric(a),
    ensures
        record_type(a) is None,
        !word_eq(a, seq!['I', 'N']),
{
    assert(a[0] != 'I' && (a[0] as u32) < 'A' as u32);
    assert forall|w: Seq<char>|
        w.len() > 0 && 'A' <= #[trigger] w[0] && w[0] <= 'Z' implies !word_eq(a, w) by {
        assert(!(a[0] == w[0] || ('A' <= w[0] && w[0] <= 'Z' && a[0] as u32 == w[0] as u32 + 32)));
    }
    assert(seq!['A'][0] == 'A');
    assert(seq!['A', 'A', 'A', 'A'][0] == 'A');
    assert(seq!['C', 'N', 'A', 'M', 'E'][0] == 'C');
    assert(seq!['N', 'S'][0] == 'N');
    assert(seq!['P', 'T', 'R'][0] == 'P');
    assert(seq!['M', 'X'][0] == 'M');
    assert(seq!['T', 'X', 'T'][0] == 'T');
    assert(seq!['S', 'O', 'A'][0] == 'S');
    assert(seq!['S', 'R', 'V'][0] == 'S');
    assert(seq!['I', 'N'][0] == 'I');
}

/// A token that reads as the class `IN` is neither a type nor a TTL.
proof fn lemma_class_token(b: Seq<char>)
    requires
        word_eq(b, seq!['I', 'N']),
    ensures
        record_type(b) is None,
        !crate::parse::looks_numeric(b),
{
    let c = seq!['I', 'N'];
    assert(b[0] == c[0] || b[0] as u32 == c[0] as u32 + 32);
    assert(!word_eq(b, seq!['N', 'S'])) by {
        assert(!(b[0] == seq!['N', 'S'][0] || ('A' <= seq!['N', 'S'][0] && seq!['N', 'S'][0] <= 'Z'
            && b[0] as u32 == seq!['N', 'S'][0] as u32 + 32)));
    }
    assert(!word_eq(b, seq!['M', 'X'])) by {
        assert(!(b[0] == seq!['M', 'X'][0] || ('A' <= seq!['M', 'X'][0] && seq!['M', 'X'][0] <= 'Z'
            && b[0] as u32 == seq!['M', 'X'][0] as u32 + 32)));
    }
}

pub open spec fn is_token(t: Seq<char>) -> bool {
    t.len() > 0 && no_ws(t)
}

pub open spec fn is_gap(w: Seq<char>) -> bool {
    w.len() > 0 && all_ws(w)
}

pub open spec fn is_tail(rest: Seq<char>) -> bool {
    rest.len() == 0 || is_ws(rest[0])
}

/// The TTL and the class may come in either order: a line that writes a
/// TTL field `a` and then the class `b` reads as the line that writes `b`
/// and then `a`.
pub proof fn law_ttl_and_class_in_either_order(
    name: Seq<char>,
    w1: Seq<char>,
    a: Seq<char>,
    w2: Seq<char>,
    b: Seq<char>,
    rest: Seq<char>,
    ctx: ContextView,
)
    requires
        is_token(name),
        is_gap(w1),
        is_gap(w2),
        is_token(a),
        crate::parse::looks_numeric(a),
        is_token(b),
        word_eq(b, seq!['I', 'N']),
        is_tail(rest),
    ensures
        parse_record(name + w1 + a + w2 + b + rest, ctx) == parse_record(
            name + w1 + b + w2 + a + rest,
            ctx,
        ),
{
    let e = Seq::<char>::empty();
    let l1 = w1 + a + w2 + b + rest;
    let l2 = w1 + b + w2 + a + rest;
    assert(name + w1 + a + w2 + b + rest =~= e + name + l1);
    assert(name + w1 + b + w2 + a + rest =~= e + name + l2);
    assert(is_ws(l1[0]) && is_ws(l2[0])) by {
        assert(l1[0] == w1[0] && l2[0] == w1[0]);
    }
    lemma_take_token_concat(e, name, l1);
    lemma_take_token_concat(e, name, l2);
    lemma_numeric_token(a);
    lemma_class_token(b);
    let ra = w2 + b + rest;
    let rb = w2 + a + rest;
    assert(l1 =~= w1 + a + ra);
    assert(l2 =~= w1 + b + rb);
    assert(is_ws(ra[0]) && is_ws(rb[0])) by {
        assert(ra[0] == w2[0] && rb[0] == w2[0]);
    }
    lemma_take_token_concat(w1, a, ra);
    lemma_take_token_concat(w1, b, rb);
    lemma_take_token_concat(w2, b, rest);
    lemma_take_token_concat(w2, a, rest);
    lemma_take_token(l1);
    lemma_take_token(l2);
    lemma_take_token(ra);
    lemma_take_token(rb);
    assert(scan_fields(l2, None, false) == scan_fields(rb, None, true));
    match parse_unsigned(a, u32::MAX as nat) {
        None => {
            assert(scan_fields(l1, None, false) == Err::<(RecordType, Seq<char>, Option<u32>), ErrorView>(ErrorView::BadTtl(a)));
            assert(scan_fields(rb, None, true) == Err::<(RecordType, Seq<char>, Option<u32>), ErrorView>(ErrorView::BadTtl(a)));
        },
        Some(x) => {
            assert(scan_fields(l1, None, false) == scan_fields(ra, Some(x as u32), false));
            assert(scan_fields(ra, Some(x as u32), false) == scan_fields(rest, Some(x as u32), true));
            assert(scan_fields(rb, None, true) == scan_fields(rest, Some(x as u32), true));
        },
    }
    assert(scan_fields(l1, None, false) == scan_fields(l2, None, false));
}

/// A missing class is the class `IN`: leaving out the class before the
/// type reads as writing `IN` there.
pub proof fn law_missing_class_is_in(
    name: Seq<char>,
    w1: Seq<char>,
    b: Seq<char>,
    w2: Seq<char>,
    t: Seq<char>,
    rest: Seq<char>,
    ctx: ContextView,
)
    requires
        is_token(name),
        is_gap(w1),
        is_gap(w2),
        is_token(b),
        word_eq(b, seq!['I', 'N']),
        is_token(t),
        record_type(t) is Some,
        is_tail(rest),
    ensures
        parse_record(name + w1 + t + rest, ctx) == parse_record(name + w1 + b + w2 + t + rest, ctx),
{
    let e = Seq::<char>::empty();
    let l1 = w1 + t + rest;
    let rb = w2 + t + rest;
    let l2 = w1 + b + rb;
    assert(name + w1 + t + rest =~= e + name + l1);
    assert(name + w1 + b + w2 + t + rest =~= e + name + l2);
    assert(l1[0] == w1[0] && l2[0] == w1[0] && rb[0] == w2[0]);
    lemma_take_token_concat(e, name, l1);
    lemma_take_token_concat(e, name, l2);
    lemma_class_token(b);
    lemma_take_token_concat(w1, t, rest);
    lemma_take_token_concat(w1, b, rb);
    lemma_take_token_concat(w2, t, rest);
    lemma_take_token(l2);
    assert(scan_fields(l2, None, false) == scan_fields(rb, None, true));
    assert(scan_fields(l1, None, false) == scan_fields(l2, None, false));
}

/// A missing TTL is the context's default TTL: leaving out the TTL before
/// the type reads as writing the default there.
pub proof fn law_missing_ttl_is_default(
    name: Seq<char>,
    w1: Seq<char>,
    w2: Seq<char>,
    t: Seq<char>,
    rest: Seq<char>,
    ctx: ContextView,
)
    requires
        is_token(name),
        is_gap(w1),
        is_gap(w2),
        is_token(t),
        record_type(t) is Some,
        is_tail(rest),
        ctx.default_ttl is Some,
    ensures
        parse_record(name + w1 + t + rest, ctx) == parse_record(
            name + w1 + decimal(ctx.default_ttl->0 as nat) + w2 + t + rest,
            ctx,
        ),
{
    let x = ctx.default_ttl->0;
    let d = decimal(x as nat);
    let e = Seq::<char>::empty();
    let l1 = w1 + t + rest;
    let rb = w2 + t + rest;
    let l2 = w1 + d + rb;
    assert(name + w1 + t + rest =~= e + name + l1);
    assert(name + w1 + d + w2 + t + rest =~= e + name + l2);
    assert(l1[0] == w1[0] && l2[0] == w1[0] && rb[0] == w2[0]);
    lemma_take_token_concat(e, name, l1);
    lemma_take_token_concat(e, name, l2);
    lemma_decimal_text(x as nat);
    lemma_decimal_field(x as nat);
    lemma_parse_decimal(x as nat, u32::MAX as nat);
    lemma_take_token_concat(w1, t, rest);
    lemma_take_token_concat(w1, d, rb);
    lemma_take_token_concat(w2, t, rest);
    lemma_take_token(l2);
    let tt = record_type(t)->0;
    assert(scan_fields(l1, None, false) == Ok::<(RecordType, Seq<char>, Option<u32>), ErrorView>(
        (tt, rest, None),
    ));
    assert(scan_fields(l2, None, false) == scan_fields(rb, Some(x), false));
    assert(scan_fields(rb, Some(x), false) == Ok::<(RecordType, Seq<char>, Option<u32>), ErrorView>(
        (tt, rest, Some(x)),
    ));
}

/// The text that the body of a JSON string literal stands for (RFC 8259,
/// section 7): any character but `"`, `\` and the control characters below
/// U+0020 stands for itself; `\"`, `\\`, `\/`, `\b`, `\f`, `\n`, `\r`,
/// `\t`, and `\u` followed by four hexadecimal digits are escapes.  A `\u`
/// escape of a surrogate, which needs a pair, is not decoded here.
pub open spec fn json_unescape(e: Seq<char>) -> Option<Seq<char>>
    decreases e.len(),
{
    if e.len() == 0 {
        Some(seq![])
    } else if e[0] == '\\' {
        if e.len() < 2 {
            None
        } else {
            let x = e[1];
            let simple = if x == '"' || x == '\\' || x == '/' {
                Some(x)
            } else if x == 'b' {
                Some('\u{8}')
            } else if x == 'f' {
                Some('\u{c}')
            } else if x == 'n' {
                Some('\n')
            } else if x == 'r' {
                Some('\r')
            } else if x == 't' {
                Some('\t')
            } else {
                None
            };
            match simple {
                Some(c) => match json_unescape(e.skip(2)) {
                    Some(r) => Some(seq![c] + r),
                    None => None,
                },
                None => if x == 'u' && e.len() >= 6 && is_hex(e[2]) && is_hex(e[3]) && is_hex(e[4])
                    && is_hex(e[5]) {
                    let v = hex_value(e.subrange(2, 6));
                    if 0xd800 <= v && v <= 0xdfff {
                        None
                    } else {
                        match json_unescape(e.skip(6)) {
                            Some(r) => Some(seq![v as char] + r),
                            None => None,
                        }
                    }
                } else {
                    None
                },
            }
        }
    } else if e[0] == '"' || (e[0] as u32) < 0x20 {
        None
    } else {
        match json_unescape(e.drop_first()) {
            Some(r) => Some(seq![e[0]] + r),
            None => None,
        }
    }
}

/// The text that a JSON string literal stands for.
pub open spec fn json_decode_string(q: Seq<char>) -> Option<Seq<char>> {
    if q.len() >= 2 && q[0] == '"' && q.last() == '"' {
        json_unescape(q.subrange(1, q.len() - 1))
    } else {
        None
    }
}

pub(crate) proof fn lemma_escape_text_cons(c: char, s: Seq<char>)
    ensures
        escape_text(seq![c] + s) == escape_char(c) + escape_text(s),
    decreases s.len(),
{
    if s.len() == 0 {
        assert(seq![c] + s =~= seq![c]);
        assert(seq![c].drop_last() =~= Seq::<char>::empty());
        assert(seq![c].last() == c);
        assert(escape_text(seq![c]) == escape_text(seq![c].drop_last()) + escape_char(c));
        assert(escape_text(seq![c]) =~= escape_char(c));
        assert(escape_char(c) + escape_text(s) =~= escape_char(c));
    } else {
        lemma_escape_text_cons(c, s.drop_last());
        assert((seq![c] + s).drop_last() =~= seq![c] + s.drop_last());
        assert((seq![c] + s).last() == s.last());
        assert(escape_char(c) + escape_text(s) =~= escape_char(c) + escape_text(s.drop_last())
            + escape_char(s.last()));
    }
}

proof fn lemma_hex_value_four(a: char, b: char, c: char, d: char)
    ensures
        hex_value(seq![a, b, c, d]) == ((hex_digit_val(a) * 16 + hex_digit_val(b)) * 16
            + hex_digit_val(c)) * 16 + hex_digit_val(d),
{
    let s = seq![a, b, c, d];
    assert(s.drop_last() =~= seq![a, b, c]);
    assert(seq![a, b, c].drop_last() =~= seq![a, b]);
    assert(seq![a, b].drop_last() =~= seq![a]);
    assert(seq![a].drop_last() =~= Seq::<char>::empty());
    assert(seq![a].last() == a && seq![a, b].last() == b && seq![a, b, c].last() == c && s.last()
        == d);
    assert(hex_value(Seq::<char>::empty()) == 0);
    assert(hex_value(seq![a]) == hex_digit_val(a));
    assert(hex_value(seq![a, b]) == hex_digit_val(a) * 16 + hex_digit_val(b));
    assert(hex_value(seq![a, b, c]) == (hex_digit_val(a) * 16 + hex_digit_val(b)) * 16
        + hex_digit_val(c));
}

/// One escaped character decodes back to the character.
proof fn lemma_unescape_char(c: char, rest: Seq<char>)
    ensures
        json_unescape(escape_char(c) + rest) == match json_unescape(rest) {
            Some(r) => Some(seq![c] + r),
            None => None::<Seq<char>>,
        },
{
    let e = escape_char(c) + rest;
    if c == '"' || c == '\\' || c == '\n' || c == '\r' || c == '\t' {
        assert(e.skip(2) =~= rest);
    } else if (c as u32) < 0x20 {
        let hi = (c as u32 / 16) as nat;
        let lo = (c as u32 % 16) as nat;
        crate::roundtrip::lemma_hex_char(hi);
        crate::roundtrip::lemma_hex_char(lo);
        assert(crate::addr_text::hex_char(0) == '0');
        crate::roundtrip::lemma_hex_char(0);
        assert(e[2] == '0' && e[3] == '0');
        assert(e.subrange(2, 6) =~= seq!['0', '0', crate::addr_text::hex_char(hi), crate::addr_text::hex_char(lo)]);
        lemma_hex_value_four('0', '0', crate::addr_text::hex_char(hi), crate::addr_text::hex_char(lo));
        assert(hex_value(e.subrange(2, 6)) == c as u32);
        assert((c as u32) as char == c);
        assert(e.skip(6) =~= rest);
    } else {
        assert(e[0] == c);
        assert(e.drop_first() =~= rest);
    }
}

pub(crate) proof fn lemma_unescape_text(s: Seq<char>)
    ensures
        json_unescape(escape_text(s)) == Some(s),
    decreases s.len(),
{
    if s.len() == 0 {
    } else {
        let t = s.drop_first();
        assert(s =~= seq![s[0]] + t);
        lemma_escape_text_cons(s[0], t);
        lemma_unescape_text(t);
        lemma_unescape_char(s[0], escape_text(t));
    }
}

/// Every text written as a JSON string literal is a valid JSON string that
/// decodes back to the text: control characters, quotes and backslashes
/// are escaped.
pub proof fn law_json_string_decodes(s: Seq<char>)
    ensures
        json_decode_string(json_string(s)) == Some(s),
{
    let q = json_string(s);
    assert(q.subrange(1, q.len() - 1) =~= escape_text(s));
    lemma_unescape_text(s);
}

} // verus!
