//! Reading JSON text back, and what the JSON of a record reads as.
//!
//! The reader covers the JSON that records are written as: a non-empty
//! object whose members are strings, non-negative integers, or non-empty
//! objects of strings and non-negative integers (RFC 8259).
use vstd::prelude::*;
use crate::addr::{ipv4, ipv6};
use crate::addr_text::{hex_char, ipv4_text, ipv6_text};
use crate::laws::{json_unescape, lemma_escape_text_cons, lemma_unescape_text};
use crate::record::{DataView, RecordView};
use crate::render::{data_json, escape_char, escape_text, json_string, record_json, type_word};
use crate::roundtrip::{lemma_decimal_text, lemma_hex_char, lemma_ipv4_roundtrip, lemma_ipv6_roundtrip};
use crate::text::{
    all_digits, count_prefix, decimal, digits_value, is_digit, lemma_count_prefix_at,
};

verus! {

/// A string or a non-negative integer.
pub enum Scalar {
    Text(Seq<char>),
    Number(nat),
}

/// A scalar, or an object whose members are scalars.
pub enum Value {
    Plain(Scalar),
    Object(Seq<(Seq<char>, Scalar)>),
}

/// How many characters of `t` come before the `"` that closes a string
/// whose body starts at `t[0]`; a `\` and the character after it are an
/// escape and never close the string.
pub open spec fn body_len(t: Seq<char>) -> Option<nat>
    decreases t.len(),
{
    if t.len() == 0 {
        None
    } else if t[0] == '"' {
        Some(0)
    } else if t[0] == '\\' {
        if t.len() < 2 {
            None
        } else {
            match body_len(t.skip(2)) {
                Some(k) => Some(k + 2),
                None => None,
            }
        }
    } else {
        match body_len(t.drop_first()) {
            Some(k) => Some(k + 1),
            None => None,
        }
    }
}

/// The string literal at the start of `t`, decoded, and the text after it.
pub open spec fn read_string(t: Seq<char>) -> Option<(Seq<char>, Seq<char>)> {
    if t.len() > 0 && t[0] == '"' {
        match body_len(t.drop_first()) {
            Some(k) => match json_unescape(t.subrange(1, k + 1int)) {
                Some(s) => Some((s, t.skip(k + 2int))),
                None => None,
            },
            None => None,
        }
    } else {
        None
    }
}

pub open spec fn digit_pred() -> spec_fn(char) -> bool {
    |c: char| is_digit(c)
}

/// The non-negative integer at the start of `t`, and the text after it.
pub open spec fn read_number(t: Seq<char>) -> Option<(nat, Seq<char>)> {
    let k = count_prefix(t, digit_pred());
    if k == 0 {
        None
    } else {
        Some((digits_value(t.take(k as int)), t.skip(k as int)))
    }
}

/// The scalar at the start of `t`, and the text after it.
pub open spec fn read_scalar(t: Seq<char>) -> Option<(Scalar, Seq<char>)> {
    if t.len() > 0 && t[0] == '"' {
        match read_string(t) {
            Some((s, r)) => Some((Scalar::Text(s), r)),
            None => None,
        }
    } else {
        match read_number(t) {
            Some((n, r)) => Some((Scalar::Number(n), r)),
            None => None,
        }
    }
}

/// The members of an object of scalars, from just after its `{` up to and
/// including its `}`, and the text after it.
pub open spec fn read_scalar_members(t: Seq<char>) -> Option<(Seq<(Seq<char>, Scalar)>, Seq<char>)>
    decreases t.len(),
{
    match read_string(t) {
        None => None,
        Some((k, r1)) => if r1.len() > 0 && r1[0] == ':' {
            match read_scalar(r1.drop_first()) {
                None => None,
                Some((v, r2)) => if r2.len() > 0 && r2[0] == '}' {
                    Some((seq![(k, v)], r2.drop_first()))
                } else if r2.len() > 0 && r2[0] == ',' && r2.len() <= t.len() {
                    match read_scalar_members(r2.drop_first()) {
                        Some((ms, r3)) => Some((seq![(k, v)] + ms, r3)),
                        None => None,
                    }
                } else {
                    None
                },
            }
        } else {
            None
        },
    }
}

/// The value at the start of `t`, and the text after it.
pub open spec fn read_value(t: Seq<char>) -> Option<(Value, Seq<char>)> {
    if t.len() > 0 && t[0] == '{' {
        match read_scalar_members(t.drop_first()) {
            Some((ms, r)) => Some((Value::Object(ms), r)),
            None => None,
        }
    } else {
        match read_scalar(t) {
            Some((s, r)) => Some((Value::Plain(s), r)),
            None => None,
        }
    }
}

/// The members of an object, from just after its `{` up to and including
/// its `}`, and the text after it.
pub open spec fn read_members(t: Seq<char>) -> Option<(Seq<(Seq<char>, Value)>, Seq<char>)>
    decreases t.len(),
{
    match read_string(t) {
        None => None,
        Some((k, r1)) => if r1.len() > 0 && r1[0] == ':' {
            match read_value(r1.drop_first()) {
                None => None,
                Some((v, r2)) => if r2.len() > 0 && r2[0] == '}' {
                    Some((seq![(k, v)], r2.drop_first()))
                } else if r2.len() > 0 && r2[0] == ',' && r2.len() <= t.len() {
                    match read_members(r2.drop_first()) {
                        Some((ms, r3)) => Some((seq![(k, v)] + ms, r3)),
                        None => None,
                    }
                } else {
                    None
                },
            }
        } else {
            None
        },
    }
}

/// The members of the JSON object that `text` is, in order; `None` where
/// `text` is not such an object, or has more after it.
pub open spec fn read_json_object(text: Seq<char>) -> Option<Seq<(Seq<char>, Value)>> {
    if text.len() > 0 && text[0] == '{' {
        match read_members(text.drop_first()) {
            Some((ms, r)) => if r.len() == 0 {
                Some(ms)
            } else {
                None
            },
            None => None,
        }
    } else {
        None
    }
}

proof fn lemma_body_len_char(c: char, x: Seq<char>)
    ensures
        body_len(escape_char(c) + x) == match body_len(x) {
            Some(k) => Some(k + escape_char(c).len()),
            None => None::<nat>,
        },
{
    let e = escape_char(c) + x;
    if c == '"' || c == '\\' || c == '\n' || c == '\r' || c == '\t' {
        assert(e[0] == '\\' && e.len() >= 2);
        assert(e.skip(2) =~= x);
    } else if (c as u32) < 0x20 {
        let h = hex_char((c as u32 / 16) as nat);
        let l = hex_char((c as u32 % 16) as nat);
        lemma_hex_char((c as u32 / 16) as nat);
        lemma_hex_char((c as u32 % 16) as nat);
        let e2 = e.skip(2);
        let e3 = e2.drop_first();
        let e4 = e3.drop_first();
        let e5 = e4.drop_first();
        assert(e5.drop_first() =~= x);
        assert(e5 =~= seq![l] + x);
        assert(e4 =~= seq![h, l] + x);
        assert(e3 =~= seq!['0', h, l] + x);
        assert(e2 =~= seq!['0', '0', h, l] + x);
        assert(h != '"' && h != '\\' && l != '"' && l != '\\');
        assert(body_len(e5) == match body_len(x) {
            Some(k) => Some(k + 1),
            None => None::<nat>,
        });
        assert(body_len(e4) == match body_len(x) {
            Some(k) => Some(k + 2),
            None => None::<nat>,
        });
        assert(body_len(e3) == match body_len(x) {
            Some(k) => Some(k + 3),
            None => None::<nat>,
        });
        assert(body_len(e2) == match body_len(x) {
            Some(k) => Some(k + 4),
            None => None::<nat>,
        });
        assert(e[0] == '\\' && e.len() >= 2);
        assert(escape_char(c).len() == 6);
    } else {
        assert(e.drop_first() =~= x);
    }
}

proof fn lemma_body_len_text(s: Seq<char>, rest: Seq<char>)
    ensures
        body_len(escape_text(s) + seq!['"'] + rest) == Some(escape_text(s).len()),
    decreases s.len(),
{
    if s.len() == 0 {
        assert(escape_text(s) + seq!['"'] + rest =~= seq!['"'] + rest);
    } else {
        let t = s.drop_first();
        assert(s =~= seq![s[0]] + t);
        lemma_escape_text_cons(s[0], t);
        lemma_body_len_text(t, rest);
        lemma_body_len_char(s[0], escape_text(t) + seq!['"'] + rest);
        assert(escape_text(s) + seq!['"'] + rest =~= escape_char(s[0]) + (escape_text(t) + seq!['"']
            + rest));
    }
}

/// A string literal reads back as its text.
proof fn lemma_read_string(s: Seq<char>, rest: Seq<char>)
    ensures
        read_string(json_string(s) + rest) == Some((s, rest)),
{
    let t = json_string(s) + rest;
    let e = escape_text(s);
    assert(t.drop_first() =~= e + seq!['"'] + rest);
    lemma_body_len_text(s, rest);
    assert(t.subrange(1, e.len() + 1int) =~= e);
    lemma_unescape_text(s);
    assert(t.skip(e.len() + 2int) =~= rest);
}

/// Decimal text reads back as its number.
proof fn lemma_read_number(n: nat, rest: Seq<char>)
    requires
        rest.len() == 0 || !is_digit(rest[0]),
    ensures
        read_number(decimal(n) + rest) == Some((n, rest)),
{
    let d = decimal(n);
    let t = d + rest;
    lemma_decimal_text(n);
    assert forall|j: int| 0 <= j < d.len() implies digit_pred()(#[trigger] t[j]) by {
        assert(t[j] == d[j]);
        assert(all_digits(d));
        assert(is_digit(d[j]));
    }
    if rest.len() > 0 {
        assert(t[d.len() as int] == rest[0]);
    }
    lemma_count_prefix_at(t, digit_pred(), d.len() as int);
    assert(t.take(d.len() as int) =~= d);
    assert(t.skip(d.len() as int) =~= rest);
}

/// The JSON text of a scalar.
pub open spec fn scalar_text(v: Scalar) -> Seq<char> {
    match v {
        Scalar::Text(s) => json_string(s),
        Scalar::Number(n) => decimal(n),
    }
}

/// The JSON text of the members of an object of scalars, with the `}`
/// that closes it.
pub open spec fn scalar_members_text(ms: Seq<(Seq<char>, Scalar)>) -> Seq<char>
    decreases ms.len(),
{
    if ms.len() == 0 {
        seq!['}']
    } else {
        json_string(ms[0].0) + seq![':'] + scalar_text(ms[0].1) + if ms.len() == 1 {
            seq!['}']
        } else {
            seq![','] + scalar_members_text(ms.drop_first())
        }
    }
}

/// The JSON text of a value.
pub open spec fn value_text(v: Value) -> Seq<char> {
    match v {
        Value::Plain(s) => scalar_text(s),
        Value::Object(ms) => seq!['{'] + scalar_members_text(ms),
    }
}

/// The JSON text of the members of an object, with the `}` that closes it.
pub open spec fn members_text(ms: Seq<(Seq<char>, Value)>) -> Seq<char>
    decreases ms.len(),
{
    if ms.len() == 0 {
        seq!['}']
    } else {
        json_string(ms[0].0) + seq![':'] + value_text(ms[0].1) + if ms.len() == 1 {
            seq!['}']
        } else {
            seq![','] + members_text(ms.drop_first())
        }
    }
}

proof fn lemma_read_scalar(v: Scalar, tail: Seq<char>)
    requires
        tail.len() > 0,
        !is_digit(tail[0]),
    ensures
        read_scalar(scalar_text(v) + tail) == Some((v, tail)),
        (scalar_text(v) + tail)[0] != '{',
{
    match v {
        Scalar::Text(s) => {
            lemma_read_string(s, tail);
            assert((scalar_text(v) + tail)[0] == '"');
        },
        Scalar::Number(n) => {
            lemma_decimal_text(n);
            lemma_read_number(n, tail);
            assert((scalar_text(v) + tail)[0] == decimal(n)[0]);
        },
    }
}

proof fn lemma_read_scalar_members(ms: Seq<(Seq<char>, Scalar)>, rest: Seq<char>)
    requires
        ms.len() > 0,
    ensures
        read_scalar_members(scalar_members_text(ms) + rest) == Some((ms, rest)),
    decreases ms.len(),
{
    let (k, v) = ms[0];
    let tail = if ms.len() == 1 {
        seq!['}']
    } else {
        seq![','] + scalar_members_text(ms.drop_first())
    };
    let t = scalar_members_text(ms) + rest;
    let r1 = seq![':'] + scalar_text(v) + (tail + rest);
    assert(t =~= json_string(k) + r1);
    lemma_read_string(k, r1);
    assert(r1.drop_first() =~= scalar_text(v) + (tail + rest));
    assert((tail + rest)[0] == tail[0]);
    lemma_read_scalar(v, tail + rest);
    let r2 = tail + rest;
    if ms.len() == 1 {
        assert(r2.drop_first() =~= rest);
    } else {
        assert(r2.drop_first() =~= scalar_members_text(ms.drop_first()) + rest);
        lemma_read_scalar_members(ms.drop_first(), rest);
        assert(seq![(k, v)] + ms.drop_first() =~= ms);
    }
}

/// Every object in `ms` has members.
pub open spec fn objects_filled(ms: Seq<(Seq<char>, Value)>) -> bool {
    forall|i: int| 0 <= i < ms.len() ==> ((#[trigger] ms[i]).1 matches Value::Object(o) ==> o.len() > 0)
}

proof fn lemma_read_value(v: Value, tail: Seq<char>)
    requires
        tail.len() > 0,
        !is_digit(tail[0]),
        v matches Value::Object(o) ==> o.len() > 0,
    ensures
        read_value(value_text(v) + tail) == Some((v, tail)),
{
    match v {
        Value::Plain(s) => {
            lemma_read_scalar(s, tail);
        },
        Value::Object(o) => {
            let t = value_text(v) + tail;
            assert(t.drop_first() =~= scalar_members_text(o) + tail);
            lemma_read_scalar_members(o, tail);
        },
    }
}

proof fn lemma_read_members(ms: Seq<(Seq<char>, Value)>, rest: Seq<char>)
    requires
        ms.len() > 0,
        objects_filled(ms),
    ensures
        read_members(members_text(ms) + rest) == Some((ms, rest)),
    decreases ms.len(),
{
    let (k, v) = ms[0];
    assert(v matches Value::Object(o) ==> o.len() > 0) by {
        assert(ms[0].1 == v);
    }
    let tail = if ms.len() == 1 {
        seq!['}']
    } else {
        seq![','] + members_text(ms.drop_first())
    };
    let t = members_text(ms) + rest;
    let r1 = seq![':'] + value_text(v) + (tail + rest);
    assert(t =~= json_string(k) + r1);
    lemma_read_string(k, r1);
    assert(r1.drop_first() =~= value_text(v) + (tail + rest));
    assert((tail + rest)[0] == tail[0]);
    lemma_read_value(v, tail + rest);
    let r2 = tail + rest;
    if ms.len() == 1 {
        assert(r2.drop_first() =~= rest);
    } else {
        let ms2 = ms.drop_first();
        assert forall|i: int| 0 <= i < ms2.len() implies ((#[trigger] ms2[i]).1 matches Value::Object(
            o,
        ) ==> o.len() > 0) by {
            assert(ms2[i] == ms[i + 1]);
        }
        assert(r2.drop_first() =~= members_text(ms2) + rest);
        lemma_read_members(ms2, rest);
        assert(seq![(k, v)] + ms2 =~= ms);
    }
}

/// The JSON text of an object reads back as its members.
proof fn lemma_read_json_object(ms: Seq<(Seq<char>, Value)>)
    requires
        ms.len() > 0,
        objects_filled(ms),
    ensures
        read_json_object(seq!['{'] + members_text(ms)) == Some(ms),
{
    let t = seq!['{'] + members_text(ms);
    assert(t.drop_first() =~= members_text(ms) + Seq::<char>::empty());
    lemma_read_members(ms, Seq::<char>::empty());
}

/// Text that a JSON string literal holds as it is: no `"`, no `\\`, no
/// control character.
pub open spec fn plain(k: Seq<char>) -> bool {
    forall|i: int| 0 <= i < k.len() ==> #[trigger] k[i] != '"' && k[i] != '\\' && !((k[i] as u32) < 0x20)
}

proof fn lemma_plain_string(k: Seq<char>)
    requires
        plain(k),
    ensures
        json_string(k) == seq!['"'] + k + seq!['"'],
{
    lemma_escape_plain(k);
}

proof fn lemma_escape_plain(k: Seq<char>)
    requires
        plain(k),
    ensures
        escape_text(k) == k,
    decreases k.len(),
{
    if k.len() > 0 {
        let k0 = k.drop_last();
        assert(plain(k0)) by {
            assert forall|i: int| 0 <= i < k0.len() implies #[trigger] k0[i] != '"' && k0[i] != '\\'
                && !((k0[i] as u32) < 0x20) by {
                assert(k0[i] == k[i]);
            }
        }
        lemma_escape_plain(k0);
        let c = k.last();
        assert(c == k[k.len() - 1]);
        assert(escape_char(c) == seq![c]);
        assert(k0 + seq![c] =~= k);
    }
}

/// The fields of a record's data, each under its key.
pub open spec fn data_fields(d: DataView) -> Seq<(Seq<char>, Scalar)> {
    match d {
        DataView::A(o) => seq![("address"@, Scalar::Text(ipv4_text(o)))],
        DataView::Aaaa(g) => seq![("address"@, Scalar::Text(ipv6_text(g)))],
        DataView::Cname(t) => seq![("target"@, Scalar::Text(t))],
        DataView::Ns(t) => seq![("target"@, Scalar::Text(t))],
        DataView::Ptr(t) => seq![("target"@, Scalar::Text(t))],
        DataView::Mx { preference, exchange } => seq![
            ("preference"@, Scalar::Number(preference as nat)),
            ("exchange"@, Scalar::Text(exchange)),
        ],
        DataView::Txt(t) => seq![("text"@, Scalar::Text(t))],
        DataView::Soa { mname, rname, serial, refresh, retry, expire, minimum } => seq![
            ("mname"@, Scalar::Text(mname)),
            ("rname"@, Scalar::Text(rname)),
            ("serial"@, Scalar::Number(serial as nat)),
            ("refresh"@, Scalar::Number(refresh as nat)),
            ("retry"@, Scalar::Number(retry as nat)),
            ("expire"@, Scalar::Number(expire as nat)),
            ("minimum"@, Scalar::Number(minimum as nat)),
        ],
        DataView::Srv { priority, weight, port, target } => seq![
            ("priority"@, Scalar::Number(priority as nat)),
            ("weight"@, Scalar::Number(weight as nat)),
            ("port"@, Scalar::Number(port as nat)),
            ("target"@, Scalar::Text(target)),
        ],
    }
}

proof fn lemma_member_prefix(sep: char, k: Seq<char>, lit: Seq<char>, v: Seq<char>, t: Seq<char>)
    requires
        lit == seq![sep] + json_string(k) + seq![':'],
    ensures
        lit + v + t == seq![sep] + (json_string(k) + seq![':'] + v + t),
{
    assert(lit + v + t =~= seq![sep] + (json_string(k) + seq![':'] + v + t));
}

proof fn lemma_close_literal()
    ensures
        "}"@ == seq!['}'],
{
    reveal_strlit("}");
    assert("}"@ =~= seq!['}']);
}

proof fn lemma_srv_literals()
    ensures
        "{\"priority\":"@ == seq!['{'] + json_string("priority"@) + seq![':'],
        ",\"weight\":"@ == seq![','] + json_string("weight"@) + seq![':'],
        ",\"port\":"@ == seq![','] + json_string("port"@) + seq![':'],
        ",\"target\":"@ == seq![','] + json_string("target"@) + seq![':'],
{
    reveal_strlit("{\"priority\":");
    reveal_strlit(",\"weight\":");
    reveal_strlit(",\"port\":");
    reveal_strlit(",\"target\":");
    reveal_strlit("priority");
    reveal_strlit("weight");
    reveal_strlit("port");
    reveal_strlit("target");
    lemma_plain_string("priority"@);
    lemma_plain_string("weight"@);
    lemma_plain_string("port"@);
    lemma_plain_string("target"@);
    assert("{\"priority\":"@ =~= seq!['{'] + json_string("priority"@) + seq![':']);
    assert(",\"weight\":"@ =~= seq![','] + json_string("weight"@) + seq![':']);
    assert(",\"port\":"@ =~= seq![','] + json_string("port"@) + seq![':']);
    assert(",\"target\":"@ =~= seq![','] + json_string("target"@) + seq![':']);
}

proof fn lemma_srv_json(d: DataView)
    requires
        d is Srv,
    ensures
        data_json(d) == seq!['{'] + scalar_members_text(data_fields(d)),
{
    lemma_srv_literals();
    lemma_close_literal();
    match d {
        DataView::Srv { priority, weight, port, target } => {
            let ms = data_fields(d);
            let m2 = ms.drop_first();
            let m3 = m2.drop_first();
            let m4 = m3.drop_first();
            let e = "}"@;
            let l1 = "{\"priority\":"@;
            let l2 = ",\"weight\":"@;
            let l3 = ",\"port\":"@;
            let l4 = ",\"target\":"@;
            let a = decimal(priority as nat);
            let b = decimal(weight as nat);
            let c = decimal(port as nat);
            let t = json_string(target);
            assert(m4.len() == 1 && m4[0] == ("target"@, Scalar::Text(target)));
            assert(m3.len() == 2 && m3[0] == ("port"@, Scalar::Number(port as nat)));
            assert(m2.len() == 3 && m2[0] == ("weight"@, Scalar::Number(weight as nat)));
            assert(ms.len() == 4 && ms[0] == ("priority"@, Scalar::Number(priority as nat)));
            let s4 = l4 + t + e;
            lemma_member_prefix(',', "target"@, l4, t, e);
            assert(s4 == seq![','] + scalar_members_text(m4));
            let s3 = l3 + c + s4;
            lemma_member_prefix(',', "port"@, l3, c, s4);
            assert(s3 == seq![','] + scalar_members_text(m3));
            let s2 = l2 + b + s3;
            lemma_member_prefix(',', "weight"@, l2, b, s3);
            assert(s2 == seq![','] + scalar_members_text(m2));
            let s1 = l1 + a + s2;
            lemma_member_prefix('{', "priority"@, l1, a, s2);
            assert(s1 == seq!['{'] + scalar_members_text(ms));
            assert(data_json(d) =~= s1);
        },
        _ => {},
    }
}

proof fn lemma_one_field_literals()
    ensures
        "{\"address\":"@ == seq!['{'] + json_string("address"@) + seq![':'],
        "{\"target\":"@ == seq!['{'] + json_string("target"@) + seq![':'],
        "{\"text\":"@ == seq!['{'] + json_string("text"@) + seq![':'],
{
    reveal_strlit("{\"address\":");
    reveal_strlit("{\"target\":");
    reveal_strlit("{\"text\":");
    reveal_strlit("address");
    lemma_plain_string("address"@);
    reveal_strlit("target");
    lemma_plain_string("target"@);
    reveal_strlit("text");
    lemma_plain_string("text"@);
    assert("{\"address\":"@ =~= seq!['{'] + json_string("address"@) + seq![':']);
    assert("{\"target\":"@ =~= seq!['{'] + json_string("target"@) + seq![':']);
    assert("{\"text\":"@ =~= seq!['{'] + json_string("text"@) + seq![':']);
}

proof fn lemma_mx_literals()
    ensures
        "{\"preference\":"@ == seq!['{'] + json_string("preference"@) + seq![':'],
        ",\"exchange\":"@ == seq![','] + json_string("exchange"@) + seq![':'],
{
    reveal_strlit("{\"preference\":");
    reveal_strlit(",\"exchange\":");
    reveal_strlit("preference");
    lemma_plain_string("preference"@);
    reveal_strlit("exchange");
    lemma_plain_string("exchange"@);
    assert("{\"preference\":"@ =~= seq!['{'] + json_string("preference"@) + seq![':']);
    assert(",\"exchange\":"@ =~= seq![','] + json_string("exchange"@) + seq![':']);
}

proof fn lemma_soa_literals()
    ensures
        "{\"mname\":"@ == seq!['{'] + json_string("mname"@) + seq![':'],
        ",\"rname\":"@ == seq![','] + json_string("rname"@) + seq![':'],
        ",\"serial\":"@ == seq![','] + json_string("serial"@) + seq![':'],
        ",\"refresh\":"@ == seq![','] + json_string("refresh"@) + seq![':'],
        ",\"retry\":"@ == seq![','] + json_string("retry"@) + seq![':'],
        ",\"expire\":"@ == seq![','] + json_string("expire"@) + seq![':'],
        ",\"minimum\":"@ == seq![','] + json_string("minimum"@) + seq![':'],
{
    reveal_strlit("{\"mname\":");
    reveal_strlit(",\"rname\":");
    reveal_strlit(",\"serial\":");
    reveal_strlit(",\"refresh\":");
    reveal_strlit(",\"retry\":");
    reveal_strlit(",\"expire\":");
    reveal_strlit(",\"minimum\":");
    reveal_strlit("mname");
    lemma_plain_string("mname"@);
    reveal_strlit("rname");
    lemma_plain_string("rname"@);
    reveal_strlit("serial");
    lemma_plain_string("serial"@);
    reveal_strlit("refresh");
    lemma_plain_string("refresh"@);
    reveal_strlit("retry");
    lemma_plain_string("retry"@);
    reveal_strlit("expire");
    lemma_plain_string("expire"@);
    reveal_strlit("minimum");
    lemma_plain_string("minimum"@);
    assert("{\"mname\":"@ =~= seq!['{'] + json_string("mname"@) + seq![':']);
    assert(",\"rname\":"@ =~= seq![','] + json_string("rname"@) + seq![':']);
    assert(",\"serial\":"@ =~= seq![','] + json_string("serial"@) + seq![':']);
    assert(",\"refresh\":"@ =~= seq![','] + json_string("refresh"@) + seq![':']);
    assert(",\"retry\":"@ =~= seq![','] + json_string("retry"@) + seq![':']);
    assert(",\"expire\":"@ =~= seq![','] + json_string("expire"@) + seq![':']);
    assert(",\"minimum\":"@ =~= seq![','] + json_string("minimum"@) + seq![':']);
}

proof fn lemma_one_field_json(d: DataView)
    requires
        d is A || d is Aaaa || d is Cname || d is Ns || d is Ptr || d is Txt,
    ensures
        data_json(d) == seq!['{'] + scalar_members_text(data_fields(d)),
{
    lemma_one_field_literals();
    lemma_close_literal();
    let ms = data_fields(d);
    assert(ms.len() == 1);
    let e = "}"@;
    match d {
        DataView::A(o) => {
            let l = "{\"address\":"@;
            let v = json_string(ipv4_text(o));
            lemma_member_prefix('{', "address"@, l, v, e);
            assert(data_json(d) == l + v + e);
        },
        DataView::Aaaa(g) => {
            let l = "{\"address\":"@;
            let v = json_string(ipv6_text(g));
            lemma_member_prefix('{', "address"@, l, v, e);
            assert(data_json(d) == l + v + e);
        },
        DataView::Cname(t) => {
            let l = "{\"target\":"@;
            lemma_member_prefix('{', "target"@, l, json_string(t), e);
        },
        DataView::Ns(t) => {
            let l = "{\"target\":"@;
            lemma_member_prefix('{', "target"@, l, json_string(t), e);
        },
        DataView::Ptr(t) => {
            let l = "{\"target\":"@;
            lemma_member_prefix('{', "target"@, l, json_string(t), e);
        },
        DataView::Txt(t) => {
            let l = "{\"text\":"@;
            lemma_member_prefix('{', "text"@, l, json_string(t), e);
        },
        _ => {},
    }
}

proof fn lemma_mx_json(d: DataView)
    requires
        d is Mx,
    ensures
        data_json(d) == seq!['{'] + scalar_members_text(data_fields(d)),
{
    lemma_mx_literals();
    lemma_close_literal();
    match d {
        DataView::Mx { preference, exchange } => {
            let ms = data_fields(d);
            let m2 = ms.drop_first();
            let e = "}"@;
            let l1 = "{\"preference\":"@;
            let l2 = ",\"exchange\":"@;
            let a = decimal(preference as nat);
            let x = json_string(exchange);
            assert(m2.len() == 1 && m2[0] == ("exchange"@, Scalar::Text(exchange)));
            assert(ms.len() == 2 && ms[0] == ("preference"@, Scalar::Number(preference as nat)));
            let s2 = l2 + x + e;
            lemma_member_prefix(',', "exchange"@, l2, x, e);
            assert(s2 == seq![','] + scalar_members_text(m2));
            let s1 = l1 + a + s2;
            lemma_member_prefix('{', "preference"@, l1, a, s2);
            assert(s1 == seq!['{'] + scalar_members_text(ms));
            assert(data_json(d) =~= s1);
        },
        _ => {},
    }
}

proof fn lemma_fold(p: Seq<char>, l: Seq<char>, v: Seq<char>, t: Seq<char>)
    ensures
        p + l + v + t == p + (l + v + t),
{
    assert(p + l + v + t =~= p + (l + v + t));
}

proof fn lemma_soa_fields(d: DataView)
    requires
        d is Soa,
    ensures
        ({
            let m1 = data_fields(d);
            let m7 = m1.drop_first().drop_first().drop_first().drop_first().drop_first().drop_first();
            &&& m7.len() == 1
            &&& m7[0] == ("minimum"@, Scalar::Number(d->minimum as nat))
            &&& scalar_members_text(m7) == json_string("minimum"@) + seq![':'] + decimal(
                d->minimum as nat,
            ) + seq!['}']
        }),
        ({
            let m1 = data_fields(d);
            let m2 = m1.drop_first();
            let m3 = m2.drop_first();
            let m4 = m3.drop_first();
            let m5 = m4.drop_first();
            let m6 = m5.drop_first();
            &&& scalar_members_text(m6) == json_string("expire"@) + seq![':'] + decimal(
                d->expire as nat,
            ) + (seq![','] + scalar_members_text(m6.drop_first()))
            &&& scalar_members_text(m5) == json_string("retry"@) + seq![':'] + decimal(
                d->retry as nat,
            ) + (seq![','] + scalar_members_text(m6))
            &&& scalar_members_text(m4) == json_string("refresh"@) + seq![':'] + decimal(
                d->refresh as nat,
            ) + (seq![','] + scalar_members_text(m5))
            &&& scalar_members_text(m3) == json_string("serial"@) + seq![':'] + decimal(
                d->serial as nat,
            ) + (seq![','] + scalar_members_text(m4))
            &&& scalar_members_text(m2) == json_string("rname"@) + seq![':'] + json_string(d->rname)
                + (seq![','] + scalar_members_text(m3))
            &&& scalar_members_text(m1) == json_string("mname"@) + seq![':'] + json_string(d->mname)
                + (seq![','] + scalar_members_text(m2))
        }),
{
    let m1 = data_fields(d);
    let m2 = m1.drop_first();
    let m3 = m2.drop_first();
    let m4 = m3.drop_first();
    let m5 = m4.drop_first();
    let m6 = m5.drop_first();
    let m7 = m6.drop_first();
    assert(m7.len() == 1 && m7[0] == ("minimum"@, Scalar::Number(d->minimum as nat)));
    assert(m6.len() == 2 && m6[0] == ("expire"@, Scalar::Number(d->expire as nat)));
    assert(m5.len() == 3 && m5[0] == ("retry"@, Scalar::Number(d->retry as nat)));
    assert(m4.len() == 4 && m4[0] == ("refresh"@, Scalar::Number(d->refresh as nat)));
    assert(m3.len() == 5 && m3[0] == ("serial"@, Scalar::Number(d->serial as nat)));
    assert(m2.len() == 6 && m2[0] == ("rname"@, Scalar::Text(d->rname)));
    assert(m1.len() == 7 && m1[0] == ("mname"@, Scalar::Text(d->mname)));
}

proof fn lemma_soa_json(d: DataView)
    requires
        d is Soa,
    ensures
        data_json(d) == seq!['{'] + scalar_members_text(data_fields(d)),
{
    lemma_soa_literals();
    lemma_close_literal();
    lemma_soa_fields(d);
    let m1 = data_fields(d);
    let m2 = m1.drop_first();
    let m3 = m2.drop_first();
    let m4 = m3.drop_first();
    let m5 = m4.drop_first();
    let m6 = m5.drop_first();
    let m7 = m6.drop_first();
    let e = "}"@;
    let l1 = "{\"mname\":"@;
    let l2 = ",\"rname\":"@;
    let l3 = ",\"serial\":"@;
    let l4 = ",\"refresh\":"@;
    let l5 = ",\"retry\":"@;
    let l6 = ",\"expire\":"@;
    let l7 = ",\"minimum\":"@;
    let v1 = json_string(d->mname);
    let v2 = json_string(d->rname);
    let v3 = decimal(d->serial as nat);
    let v4 = decimal(d->refresh as nat);
    let v5 = decimal(d->retry as nat);
    let v6 = decimal(d->expire as nat);
    let v7 = decimal(d->minimum as nat);
    let s7 = l7 + v7 + e;
    lemma_member_prefix(',', "minimum"@, l7, v7, e);
    let s6 = l6 + v6 + s7;
    lemma_member_prefix(',', "expire"@, l6, v6, s7);
    let s5 = l5 + v5 + s6;
    lemma_member_prefix(',', "retry"@, l5, v5, s6);
    let s4 = l4 + v4 + s5;
    lemma_member_prefix(',', "refresh"@, l4, v4, s5);
    let s3 = l3 + v3 + s4;
    lemma_member_prefix(',', "serial"@, l3, v3, s4);
    let s2 = l2 + v2 + s3;
    lemma_member_prefix(',', "rname"@, l2, v2, s3);
    let s1 = l1 + v1 + s2;
    lemma_member_prefix('{', "mname"@, l1, v1, s2);
    assert(s1 == seq!['{'] + scalar_members_text(m1));
    let p2 = l1 + v1;
    let p4 = p2 + l2 + v2;
    let p6 = p4 + l3 + v3;
    let p8 = p6 + l4 + v4;
    let p10 = p8 + l5 + v5;
    let p12 = p10 + l6 + v6;
    assert(data_json(d) == p12 + l7 + v7 + e);
    lemma_fold(p12, l7, v7, e);
    lemma_fold(p10, l6, v6, s7);
    lemma_fold(p8, l5, v5, s6);
    lemma_fold(p6, l4, v4, s5);
    lemma_fold(p4, l3, v3, s4);
    lemma_fold(p2, l2, v2, s3);
    lemma_fold(Seq::<char>::empty(), l1, v1, s2);
    assert(Seq::<char>::empty() + l1 =~= l1);
    assert(Seq::<char>::empty() + (l1 + v1 + s2) =~= s1);
}

/// The type of a record's data, as the record's JSON names it.
pub open spec fn kind_name(d: DataView) -> Seq<char> {
    match d {
        DataView::A(_) => "A"@,
        DataView::Aaaa(_) => "AAAA"@,
        DataView::Cname(_) => "CNAME"@,
        DataView::Ns(_) => "NS"@,
        DataView::Ptr(_) => "PTR"@,
        DataView::Mx { .. } => "MX"@,
        DataView::Txt(_) => "TXT"@,
        DataView::Soa { .. } => "SOA"@,
        DataView::Srv { .. } => "SRV"@,
    }
}

/// A record as JSON members: its name, its TTL, its type, and its data as
/// an object of its fields.
pub open spec fn record_fields(r: RecordView) -> Seq<(Seq<char>, Value)> {
    seq![
        ("name"@, Value::Plain(Scalar::Text(r.name))),
        ("ttl"@, Value::Plain(Scalar::Number(r.ttl as nat))),
        ("type"@, Value::Plain(Scalar::Text(kind_name(r.data)))),
        ("data"@, Value::Object(data_fields(r.data))),
    ]
}

proof fn lemma_kind_name(d: DataView)
    ensures
        json_string(kind_name(d)) == seq!['"'] + type_word(d) + seq!['"'],
{
    reveal_strlit("A");
    reveal_strlit("AAAA");
    reveal_strlit("CNAME");
    reveal_strlit("NS");
    reveal_strlit("PTR");
    reveal_strlit("MX");
    reveal_strlit("TXT");
    reveal_strlit("SOA");
    reveal_strlit("SRV");
    let w = kind_name(d);
    assert(w =~= type_word(d));
    assert(plain(w)) by {
        assert forall|i: int| 0 <= i < w.len() implies #[trigger] w[i] != '"' && w[i] != '\\' && !((
        w[i] as u32) < 0x20) by {
            assert('A' <= w[i] && w[i] <= 'Z');
        }
    }
    lemma_plain_string(w);
}

proof fn lemma_record_literals()
    ensures
        "{\"name\":"@ == seq!['{'] + json_string("name"@) + seq![':'],
        ",\"ttl\":"@ == seq![','] + json_string("ttl"@) + seq![':'],
        ",\"type\":\""@ == seq![','] + json_string("type"@) + seq![':'] + seq!['"'],
        "\",\"data\":"@ == seq!['"'] + (seq![','] + json_string("data"@) + seq![':']),
{
    reveal_strlit("{\"name\":");
    reveal_strlit(",\"ttl\":");
    reveal_strlit(",\"type\":\"");
    reveal_strlit("\",\"data\":");
    reveal_strlit("name");
    reveal_strlit("ttl");
    reveal_strlit("type");
    reveal_strlit("data");
    lemma_plain_string("name"@);
    lemma_plain_string("ttl"@);
    lemma_plain_string("type"@);
    lemma_plain_string("data"@);
    assert("{\"name\":"@ =~= seq!['{'] + json_string("name"@) + seq![':']);
    assert(",\"ttl\":"@ =~= seq![','] + json_string("ttl"@) + seq![':']);
    assert(",\"type\":\""@ =~= seq![','] + json_string("type"@) + seq![':'] + seq!['"']);
    assert("\",\"data\":"@ =~= seq!['"'] + (seq![','] + json_string("data"@) + seq![':']));
}

proof fn lemma_data_json(d: DataView)
    ensures
        data_json(d) == seq!['{'] + scalar_members_text(data_fields(d)),
        data_fields(d).len() > 0,
{
    match d {
        DataView::Mx { .. } => lemma_mx_json(d),
        DataView::Soa { .. } => lemma_soa_json(d),
        DataView::Srv { .. } => lemma_srv_json(d),
        _ => lemma_one_field_json(d),
    }
}

proof fn lemma_record_members(r: RecordView)
    ensures
        ({
            let m1 = record_fields(r);
            let m2 = m1.drop_first();
            let m3 = m2.drop_first();
            let m4 = m3.drop_first();
            &&& m4.len() == 1
            &&& members_text(m4) == json_string("data"@) + seq![':'] + (seq!['{'] + scalar_members_text(
                data_fields(r.data),
            )) + seq!['}']
            &&& members_text(m3) == json_string("type"@) + seq![':'] + json_string(kind_name(r.data))
                + (seq![','] + members_text(m4))
            &&& members_text(m2) == json_string("ttl"@) + seq![':'] + decimal(r.ttl as nat) + (seq![
                ',',
            ] + members_text(m3))
            &&& members_text(m1) == json_string("name"@) + seq![':'] + json_string(r.name) + (seq![
                ',',
            ] + members_text(m2))
        }),
        objects_filled(record_fields(r)),
{
    let m1 = record_fields(r);
    let m2 = m1.drop_first();
    let m3 = m2.drop_first();
    let m4 = m3.drop_first();
    assert(m4.len() == 1 && m4[0] == ("data"@, Value::Object(data_fields(r.data))));
    assert(m3.len() == 2 && m3[0] == ("type"@, Value::Plain(Scalar::Text(kind_name(r.data)))));
    assert(m2.len() == 3 && m2[0] == ("ttl"@, Value::Plain(Scalar::Number(r.ttl as nat))));
    assert(m1.len() == 4 && m1[0] == ("name"@, Value::Plain(Scalar::Text(r.name))));
    lemma_data_json(r.data);
    assert forall|i: int| 0 <= i < m1.len() implies ((#[trigger] m1[i]).1 matches Value::Object(o)
        ==> o.len() > 0) by {
        if i == 3 {
            assert(m1[3].1 == Value::Object(data_fields(r.data)));
        }
    }
}

proof fn lemma_record_text(r: RecordView)
    ensures
        record_json(r) == seq!['{'] + members_text(record_fields(r)),
        objects_filled(record_fields(r)),
{
    let d = r.data;
    lemma_data_json(d);
    lemma_kind_name(d);
    lemma_record_literals();
    lemma_close_literal();
    lemma_record_members(r);
    let m1 = record_fields(r);
    let m2 = m1.drop_first();
    let m3 = m2.drop_first();
    let m4 = m3.drop_first();
    let ln = "{\"name\":"@;
    let lt = ",\"ttl\":"@;
    let ly = ",\"type\":\""@;
    let lda = "\",\"data\":"@;
    let ld = seq![','] + json_string("data"@) + seq![':'];
    let e = "}"@;
    let a = json_string(r.name);
    let b = decimal(r.ttl as nat);
    let tw = type_word(d);
    let dj = data_json(d);
    let s4 = ld + dj + e;
    lemma_member_prefix(',', "data"@, ld, dj, e);
    assert(s4 == seq![','] + members_text(m4));
    let x = lda + dj + e;
    assert(x =~= seq!['"'] + s4);
    let s3 = ly + tw + x;
    assert(s3 =~= seq![','] + (json_string("type"@) + seq![':'] + json_string(kind_name(d)) + s4));
    assert(s3 == seq![','] + members_text(m3));
    let s2 = lt + b + s3;
    lemma_member_prefix(',', "ttl"@, lt, b, s3);
    assert(s2 == seq![','] + members_text(m2));
    let s1 = ln + a + s2;
    lemma_member_prefix('{', "name"@, ln, a, s2);
    assert(s1 == seq!['{'] + members_text(m1));
    let q2 = ln + a;
    let q4 = q2 + lt + b;
    assert(record_json(r) == q4 + ly + tw + lda + dj + e);
    lemma_fold(q4 + ly + tw, lda, dj, e);
    lemma_fold(q4, ly, tw, x);
    lemma_fold(q2, lt, b, s3);
    lemma_fold(Seq::<char>::empty(), ln, a, s2);
    assert(Seq::<char>::empty() + ln =~= ln);
    assert(Seq::<char>::empty() + (ln + a + s2) =~= s1);
}

/// The JSON of a record reads back, as JSON, as the record: an object of
/// its name, its TTL, its type and its data, and the data an object of its
/// fields, each under its own key and with the record's own value (an
/// address as its text, which reads back as the address).
pub proof fn law_record_json_reads_back(r: RecordView)
    ensures
        read_json_object(record_json(r)) == Some(record_fields(r)),
        (r.data matches DataView::A(o) && o.len() == 4) ==> ipv4(ipv4_text(r.data->A_0)) == Some(
            r.data->A_0,
        ),
        (r.data matches DataView::Aaaa(g) && g.len() == 8) ==> ipv6(ipv6_text(r.data->Aaaa_0))
            == Some(r.data->Aaaa_0),
{
    lemma_record_text(r);
    lemma_read_json_object(record_fields(r));
    match r.data {
        DataView::A(o) => {
            if o.len() == 4 {
                lemma_ipv4_roundtrip(o);
            }
        },
        DataView::Aaaa(g) => {
            if g.len() == 8 {
                lemma_ipv6_roundtrip(g);
            }
        },
        _ => {},
    }
}

} // verus!
