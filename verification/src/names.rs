//! Domain names: label syntax, name validity, and qualification against an origin.
use vstd::prelude::*;
use crate::text::{find_char, lemma_split_step, split, string_of};

verus! {

pub open spec fn is_ascii_alnum(c: char) -> bool {
    ||| ('0' <= c && c <= '9')
    ||| ('a' <= c && c <= 'z')
    ||| ('A' <= c && c <= 'Z')
}

/// The label alphabet: ASCII letters and digits, `-`, and `_` (allowed for
/// "underscore records" such as `_sip._tcp`).
pub open spec fn is_label_char(c: char) -> bool {
    is_ascii_alnum(c) || c == '-' || c == '_'
}

/// A label is 1 to 63 characters of the label alphabet that neither starts
/// nor ends with `-`.
pub open spec fn valid_label(l: Seq<char>) -> bool {
    &&& 1 <= l.len() <= 63
    &&& l[0] != '-'
    &&& l.last() != '-'
    &&& forall|i: int| 0 <= i < l.len() ==> is_label_char(#[trigger] l[i])
}

/// A name is `@`, or one or more valid labels separated by `.`, with an
/// optional single trailing `.`.
pub open spec fn valid_name(n: Seq<char>) -> bool {
    n == seq!['@'] || (strip_dot(n).len() > 0 && labels_valid(strip_dot(n)))
}

/// `n` without one trailing `.`, if it has one.
pub open spec fn strip_dot(n: Seq<char>) -> Seq<char> {
    if n.len() > 0 && n.last() == '.' {
        n.drop_last()
    } else {
        n
    }
}

/// Every `.`-separated piece of `t` is a valid label.
pub open spec fn labels_valid(t: Seq<char>) -> bool {
    forall|i: int| 0 <= i < split(t, '.').len() ==> valid_label(#[trigger] split(t, '.')[i])
}

/// Fully qualifies `name`: `@` stands for the origin, a name that ends in
/// `.` is already absolute, and any other name gets `.` and the origin
/// appended.  Without an origin, the name is kept as it is.
pub open spec fn qualify(name: Seq<char>, origin: Option<Seq<char>>) -> Seq<char> {
    if name == seq!['@'] {
        match origin {
            Some(o) => o,
            None => name,
        }
    } else if name.len() > 0 && name.last() == '.' {
        name
    } else {
        match origin {
            Some(o) => name + seq!['.'] + o,
            None => name,
        }
    }
}

fn is_label_character(c: char) -> (b: bool)
    ensures
        b == is_label_char(c),
{
    ('0' <= c && c <= '9') || ('a' <= c && c <= 'z') || ('A' <= c && c <= 'Z') || c == '-' || c
        == '_'
}

/// Whether `v[from..to]` is a valid label.
pub fn is_valid_label(v: &Vec<char>, from: usize, to: usize) -> (b: bool)
    requires
        from <= to <= v@.len(),
    ensures
        b == valid_label(v@.subrange(from as int, to as int)),
{
    let ghost l = v@.subrange(from as int, to as int);
    if from == to || to - from > 63 {
        return false;
    }
    if v[from] == '-' || v[to - 1] == '-' {
        return false;
    }
    let mut i = from;
    while i < to
        invariant
            from <= i <= to <= v@.len(),
            l == v@.subrange(from as int, to as int),
            forall|j: int| 0 <= j < i - from ==> is_label_char(#[trigger] l[j]),
        decreases to - i,
    {
        if !is_label_character(v[i]) {
            assert(l[i - from] == v@[i as int]);
            return false;
        }
        i = i + 1;
    }
    true
}

/// Whether `v[from..to]` is a valid name.
pub fn is_valid_name(v: &Vec<char>, from: usize, to: usize) -> (b: bool)
    requires
        from <= to <= v@.len(),
    ensures
        b == valid_name(v@.subrange(from as int, to as int)),
{
    let ghost n = v@.subrange(from as int, to as int);
    if to - from == 1 && v[from] == '@' {
        assert(n =~= seq!['@']);
        return true;
    }
    proof {
        if n.len() == 1 {
            assert(n[0] == v@[from as int]);
            assert(n[0] != seq!['@'][0]);
        }
        assert(!(n =~= seq!['@']));
    }
    let mut end = to;
    if from < to && v[to - 1] == '.' {
        end = to - 1;
    }
    let ghost t = v@.subrange(from as int, end as int);
    assert(t =~= strip_dot(n));
    if from == end {
        return false;
    }
    let mut pos = from;
    let ghost mut done: Seq<Seq<char>> = seq![];
    loop
        invariant
            from <= pos <= end <= to <= v@.len(),
            t == v@.subrange(from as int, end as int),
            n == v@.subrange(from as int, to as int),
            n != seq!['@'],
            t.len() > 0,
            t == strip_dot(n),
            split(t, '.') == done + split(v@.subrange(pos as int, end as int), '.'),
            forall|i: int| 0 <= i < done.len() ==> valid_label(#[trigger] done[i]),
        decreases end - pos,
    {
        let k = find_char(v, pos, end, '.');
        proof {
            lemma_split_step(v@, pos as int, end as int, k as int, '.');
        }
        if !is_valid_label(v, pos, k) {
            assert(split(t, '.')[done.len() as int] == v@.subrange(pos as int, k as int));
            assert(!valid_label(split(t, '.')[done.len() as int]));
            assert(done.len() < split(t, '.').len());
            return false;
        }
        if k == end {
            proof {
                let labels = split(t, '.');
                assert(labels =~= done.push(v@.subrange(pos as int, k as int)));
                assert forall|i: int| 0 <= i < labels.len() implies valid_label(
                    #[trigger] labels[i],
                ) by {
                    if i < done.len() {
                        assert(labels[i] == done[i]);
                    }
                }
            }
            return true;
        }
        proof {
            let seg = v@.subrange(pos as int, k as int);
            assert(done + split(v@.subrange(pos as int, end as int), '.') =~= done.push(seg)
                + split(v@.subrange(k + 1, end as int), '.'));
            done = done.push(seg);
        }
        pos = k + 1;
    }
}

/// Whether `v` is the one-character name `@`.
fn is_at_sign(v: &Vec<char>) -> (b: bool)
    ensures
        b == (v@ == seq!['@']),
{
    if v.len() == 1 && v[0] == '@' {
        assert(v@ =~= seq!['@']);
        true
    } else {
        assert(v@ != seq!['@']) by {
            if v@ == seq!['@'] {
                assert(v@[0] == '@');
            }
        }
        false
    }
}

/// `qualify` of `name` against `origin`.
pub fn qualify_name(name: Vec<char>, origin: &Option<String>) -> (q: String)
    ensures
        q@ == qualify(name@, opt_view(*origin)),
{
    if is_at_sign(&name) {
        match origin {
            Some(o) => return o.clone(),
            None => return string_of(&name, 0, name.len()),
        }
    }
    let n = name.len();
    let mut out = string_of(&name, 0, n);
    assert(name@.subrange(0, n as int) =~= name@);
    if n > 0 && name[n - 1] == '.' {
        return out;
    }
    match origin {
        Some(o) => {
            out.push('.');
            out.append(o.as_str());
            out
        },
        None => out,
    }
}

/// The view of an optional string.
pub open spec fn opt_view(o: Option<String>) -> Option<Seq<char>> {
    match o {
        Some(s) => Some(s@),
        None => None,
    }
}

} // verus!
