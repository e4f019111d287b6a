//! IPv4 and IPv6 address text, in the syntax that `Ipv4Addr` and
//! `Ipv6Addr` accept from `str::parse`.
use vstd::prelude::*;
use crate::text::{
    all_digits, digit_value, digits_value, find_char, is_ascii_digit, is_digit,
    lemma_digits_value_step, lemma_split_step, split,
};

verus! {

/// An IPv4 octet: one to three ASCII digits, no leading zero unless the
/// octet is the single digit `0`, and a value of at most 255.
pub open spec fn octet(p: Seq<char>) -> Option<u8> {
    if 1 <= p.len() <= 3 && all_digits(p) && !(p.len() > 1 && p[0] == '0') && digits_value(p)
        <= 255 {
        Some(digits_value(p) as u8)
    } else {
        None
    }
}

/// Dotted-quad IPv4 text: exactly four octets separated by `.`.
pub open spec fn ipv4(s: Seq<char>) -> Option<Seq<u8>> {
    let parts = split(s, '.');
    if parts.len() == 4 && octet(parts[0]) is Some && octet(parts[1]) is Some && octet(
        parts[2],
    ) is Some && octet(parts[3]) is Some {
        Some(
            seq![
                octet(parts[0])->0,
                octet(parts[1])->0,
                octet(parts[2])->0,
                octet(parts[3])->0,
            ],
        )
    } else {
        None
    }
}

pub open spec fn is_hex(c: char) -> bool {
    ||| ('0' <= c && c <= '9')
    ||| ('a' <= c && c <= 'f')
    ||| ('A' <= c && c <= 'F')
}

pub open spec fn hex_digit_val(c: char) -> nat {
    if '0' <= c && c <= '9' {
        (c as int - '0' as int) as nat
    } else if 'a' <= c && c <= 'f' {
        (c as int - 'a' as int + 10) as nat
    } else {
        (c as int - 'A' as int + 10) as nat
    }
}

pub open spec fn hex_value(s: Seq<char>) -> nat
    decreases s.len(),
{
    if s.len() == 0 {
        0
    } else {
        hex_value(s.drop_last()) * 16 + hex_digit_val(s.last())
    }
}

/// An IPv6 group: one to four hexadecimal digits, either case.
pub open spec fn hex_group(p: Seq<char>) -> Option<u16> {
    if 1 <= p.len() <= 4 && (forall|i: int| 0 <= i < p.len() ==> is_hex(#[trigger] p[i])) {
        Some(hex_value(p) as u16)
    } else {
        None
    }
}

pub open spec fn all_hex_groups(parts: Seq<Seq<char>>) -> bool {
    forall|i: int| 0 <= i < parts.len() ==> (#[trigger] hex_group(parts[i])) is Some
}

pub open spec fn group_values(parts: Seq<Seq<char>>) -> Seq<u16> {
    parts.map_values(|p: Seq<char>| hex_group(p)->0)
}

/// The two 16-bit segments that an embedded IPv4 address stands for.
pub open spec fn v4_segments(o: Seq<u8>) -> Seq<u16> {
    seq![(o[0] * 256 + o[1]) as u16, (o[2] * 256 + o[3]) as u16]
}

/// A run of IPv6 groups separated by `:`; where `allow_v4`, the last one may
/// instead be an embedded IPv4 address.  The empty text is no groups.
pub open spec fn groups(t: Seq<char>, allow_v4: bool) -> Option<Seq<u16>> {
    let parts = split(t, ':');
    if t.len() == 0 {
        Some(seq![])
    } else if all_hex_groups(parts) {
        Some(group_values(parts))
    } else if allow_v4 && all_hex_groups(parts.drop_last()) && ipv4(parts.last()) is Some {
        Some(group_values(parts.drop_last()) + v4_segments(ipv4(parts.last())->0))
    } else {
        None
    }
}

/// Index of the first `::` in `s`, or `s.len()`.
pub open spec fn find_double_colon(s: Seq<char>) -> nat
    decreases s.len(),
{
    if s.len() < 2 {
        s.len()
    } else if s[0] == ':' && s[1] == ':' {
        0
    } else {
        1 + find_double_colon(s.drop_first())
    }
}

/// IPv6 text: eight groups (the last two may be an embedded IPv4 address),
/// or groups before and after a single `::` that stands for one or more
/// zero groups, eight in all; an embedded IPv4 address may only end the
/// part after `::`.
pub open spec fn ipv6(s: Seq<char>) -> Option<Seq<u16>> {
    let k = find_double_colon(s);
    if k < s.len() {
        match (groups(s.take(k as int), false), groups(s.skip(k as int + 2), true)) {
            (Some(h), Some(t)) => if h.len() + t.len() <= 7 {
                Some(h + Seq::new((8 - h.len() - t.len()) as nat, |i: int| 0u16) + t)
            } else {
                None
            },
            _ => None,
        }
    } else {
        match groups(s, true) {
            Some(g) => if g.len() == 8 {
                Some(g)
            } else {
                None
            },
            None => None,
        }
    }
}

pub proof fn lemma_find_double_colon(s: Seq<char>)
    ensures
        find_double_colon(s) <= s.len(),
        find_double_colon(s) < s.len() ==> find_double_colon(s) + 1 < s.len() && s[find_double_colon(
            s,
        ) as int] == ':' && s[find_double_colon(s) as int + 1] == ':',
        forall|j: int|
            0 <= j < find_double_colon(s) && j + 1 < s.len() ==> !(#[trigger] s[j] == ':' && s[j
                + 1] == ':'),
    decreases s.len(),
{
    if s.len() >= 2 && !(s[0] == ':' && s[1] == ':') {
        lemma_find_double_colon(s.drop_first());
        assert forall|j: int|
            0 <= j < find_double_colon(s) && j + 1 < s.len() implies !(#[trigger] s[j] == ':'
            && s[j + 1] == ':') by {
            if j > 0 {
                assert(s[j] == s.drop_first()[j - 1]);
                assert(s[j + 1] == s.drop_first()[j]);
            }
        }
    }
}

pub proof fn lemma_find_double_colon_at(s: Seq<char>, k: int)
    requires
        0 <= k <= s.len(),
        k < s.len() ==> k + 1 < s.len() && s[k] == ':' && s[k + 1] == ':',
        k == s.len() ==> (forall|j: int| 0 <= j && j + 1 < s.len() ==> !(#[trigger] s[j] == ':'
            && s[j + 1] == ':')),
        forall|j: int| 0 <= j < k && j + 1 < s.len() ==> !(#[trigger] s[j] == ':' && s[j + 1] == ':'),
    ensures
        find_double_colon(s) == k,
    decreases s.len(),
{
    if s.len() < 2 {
    } else if s[0] == ':' && s[1] == ':' {
        assert(k == 0);
    } else {
        let d = s.drop_first();
        assert(k >= 1);
        assert forall|j: int| 0 <= j < k - 1 && j + 1 < d.len() implies !(#[trigger] d[j] == ':'
            && d[j + 1] == ':') by {
            assert(d[j] == s[j + 1]);
            assert(d[j + 1] == s[j + 2]);
        }
        if k < s.len() {
            assert(d[k - 1] == s[k]);
            assert(d[k] == s[k + 1]);
        } else {
            assert forall|j: int| 0 <= j && j + 1 < d.len() implies !(#[trigger] d[j] == ':'
                && d[j + 1] == ':') by {
                assert(d[j] == s[j + 1]);
                assert(d[j + 1] == s[j + 2]);
            }
        }
        lemma_find_double_colon_at(d, k - 1);
    }
}

/// Parses the octet `v[from..to]`.
fn parse_octet(v: &Vec<char>, from: usize, to: usize) -> (r: Option<u8>)
    requires
        from <= to <= v@.len(),
    ensures
        r == octet(v@.subrange(from as int, to as int)),
{
    let ghost p = v@.subrange(from as int, to as int);
    if from == to || to - from > 3 {
        return None;
    }
    if to - from > 1 && v[from] == '0' {
        return None;
    }
    let mut acc: u32 = 0;
    let mut i = from;
    assert(p.take(0) =~= Seq::<char>::empty());
    while i < to
        invariant
            from <= i <= to <= v@.len(),
            to - from <= 3,
            p == v@.subrange(from as int, to as int),
            all_digits(p.take(i - from)),
            acc == digits_value(p.take(i - from)),
            i - from == 0 ==> acc == 0,
            i - from == 1 ==> acc < 10,
            i - from == 2 ==> acc < 100,
            acc < 1000,
        decreases to - i,
    {
        let c = v[i];
        assert(p[i - from] == c);
        if !is_ascii_digit(c) {
            assert(!all_digits(p));
            return None;
        }
        proof {
            lemma_digits_value_step(p, i - from);
            assert forall|j: int| 0 <= j < i + 1 - from implies is_digit(
                #[trigger] p.take(i + 1 - from)[j],
            ) by {
                if j < i - from {
                    assert(p.take(i + 1 - from)[j] == p.take(i - from)[j]);
                }
            }
        }
        acc = acc * 10 + digit_value(c);
        i = i + 1;
    }
    assert(p.take(i - from) =~= p);
    if acc > 255 {
        return None;
    }
    Some(acc as u8)
}

/// Parses IPv4 text `v[from..to]`, giving its octets.
pub fn parse_ipv4(v: &Vec<char>, from: usize, to: usize) -> (r: Option<[u8; 4]>)
    requires
        from <= to <= v@.len(),
    ensures
        match ipv4(v@.subrange(from as int, to as int)) {
            Some(o) => r matches Some(a) && a@ == o,
            None => r is None,
        },
{
    let ghost s = v@.subrange(from as int, to as int);
    let mut octets: Vec<u8> = Vec::new();
    let mut pos = from;
    let ghost mut done: Seq<Seq<char>> = seq![];
    loop
        invariant
            from <= pos <= to <= v@.len(),
            s == v@.subrange(from as int, to as int),
            octets.len() < 4,
            done.len() == octets.len(),
            split(s, '.') == done + split(v@.subrange(pos as int, to as int), '.'),
            forall|i: int| 0 <= i < done.len() ==> octet(#[trigger] done[i]) == Some(octets@[i]),
        decreases to - pos,
    {
        let k = find_char(v, pos, to, '.');
        proof {
            lemma_split_step(v@, pos as int, to as int, k as int, '.');
        }
        let last = octets.len() == 3;
        if (k == to) != last {
            proof {
                let parts = split(s, '.');
                if k == to {
                    assert(parts =~= done.push(v@.subrange(pos as int, to as int)));
                } else {
                    assert(parts.len() >= 5);
                }
            }
            return None;
        }
        let o = parse_octet(v, pos, k);
        match o {
            None => {
                assert(split(s, '.')[done.len() as int] == v@.subrange(pos as int, k as int));
                return None;
            },
            Some(b) => {
                let ghost seg = v@.subrange(pos as int, k as int);
                octets.push(b);
                if k == to {
                    proof {
                        let parts = split(s, '.');
                        assert(parts =~= done.push(seg));
                        assert(octet(parts[0]) == Some(octets@[0]));
                        assert(octet(parts[1]) == Some(octets@[1]));
                        assert(octet(parts[2]) == Some(octets@[2]));
                        assert(octet(parts[3]) == Some(octets@[3]));
                    }
                    let a = [octets[0], octets[1], octets[2], octets[3]];
                    assert(a@ =~= octets@);
                    return Some(a);
                }
                proof {
                    assert(done + split(v@.subrange(pos as int, to as int), '.') =~= done.push(seg)
                        + split(v@.subrange(k + 1, to as int), '.'));
                    done = done.push(seg);
                }
                pos = k + 1;
            },
        }
    }
}

fn hex_digit(c: char) -> (r: Option<u32>)
    ensures
        match r {
            Some(d) => is_hex(c) && d == hex_digit_val(c) && d < 16,
            None => !is_hex(c),
        },
{
    if '0' <= c && c <= '9' {
        Some((c as u32) - ('0' as u32))
    } else if 'a' <= c && c <= 'f' {
        Some((c as u32) - ('a' as u32) + 10)
    } else if 'A' <= c && c <= 'F' {
        Some((c as u32) - ('A' as u32) + 10)
    } else {
        None
    }
}

/// Parses the IPv6 group `v[from..to]`.
fn parse_hex_group(v: &Vec<char>, from: usize, to: usize) -> (r: Option<u16>)
    requires
        from <= to <= v@.len(),
    ensures
        r == hex_group(v@.subrange(from as int, to as int)),
{
    let ghost p = v@.subrange(from as int, to as int);
    if from == to || to - from > 4 {
        return None;
    }
    let mut acc: u32 = 0;
    let mut i = from;
    assert(p.take(0) =~= Seq::<char>::empty());
    while i < to
        invariant
            from <= i <= to <= v@.len(),
            to - from <= 4,
            p == v@.subrange(from as int, to as int),
            forall|j: int| 0 <= j < i - from ==> is_hex(#[trigger] p[j]),
            acc == hex_value(p.take(i - from)),
            i - from == 0 ==> acc == 0,
            i - from == 1 ==> acc < 16,
            i - from == 2 ==> acc < 256,
            i - from == 3 ==> acc < 4096,
            acc < 65536,
        decreases to - i,
    {
        let c = v[i];
        assert(p[i - from] == c);
        match hex_digit(c) {
            None => {
                return None;
            },
            Some(d) => {
                assert(p.take(i + 1 - from).drop_last() =~= p.take(i - from));
                acc = acc * 16 + d;
                i = i + 1;
            },
        }
    }
    assert(p.take(i - from) =~= p);
    Some(acc as u16)
}

/// Parses `v[from..to]` as `groups(_, allow_v4)`.
fn parse_groups(v: &Vec<char>, from: usize, to: usize, allow_v4: bool) -> (r: Option<Vec<u16>>)
    requires
        from <= to <= v@.len(),
    ensures
        match groups(v@.subrange(from as int, to as int), allow_v4) {
            Some(g) => r matches Some(x) && x@ == g,
            None => r is None,
        },
{
    let ghost t = v@.subrange(from as int, to as int);
    if from == to {
        return Some(Vec::new());
    }
    let mut out: Vec<u16> = Vec::new();
    let mut pos = from;
    let ghost mut done: Seq<Seq<char>> = seq![];
    loop
        invariant
            from <= pos <= to <= v@.len(),
            from < to,
            t == v@.subrange(from as int, to as int),
            split(t, ':') == done + split(v@.subrange(pos as int, to as int), ':'),
            all_hex_groups(done),
            out@ == group_values(done),
        decreases to - pos,
    {
        let k = find_char(v, pos, to, ':');
        let ghost seg = v@.subrange(pos as int, k as int);
        proof {
            lemma_split_step(v@, pos as int, to as int, k as int, ':');
        }
        let ghost parts = split(t, ':');
        assert(parts[done.len() as int] == seg);
        match parse_hex_group(v, pos, k) {
            Some(g) => {
                proof {
                    assert(group_values(done.push(seg)) =~= group_values(done).push(g));
                    assert(all_hex_groups(done.push(seg))) by {
                        assert forall|i: int| 0 <= i < done.len() + 1 implies (#[trigger] hex_group(
                            done.push(seg)[i],
                        )) is Some by {
                            if i < done.len() {
                                assert(done.push(seg)[i] == done[i]);
                            }
                        }
                    }
                }
                out.push(g);
                if k == to {
                    proof {
                        assert(parts =~= done.push(seg));
                    }
                    return Some(out);
                }
                proof {
                    assert(done + split(v@.subrange(pos as int, to as int), ':') =~= done.push(seg)
                        + split(v@.subrange(k + 1, to as int), ':'));
                    done = done.push(seg);
                }
                pos = k + 1;
            },
            None => {
                assert(!all_hex_groups(parts));
                if k == to && allow_v4 {
                    proof {
                        assert(parts =~= done.push(seg));
                        assert(parts.drop_last() =~= done);
                        assert(parts.last() == seg);
                    }
                    match parse_ipv4(v, pos, k) {
                        Some(a) => {
                            let hi = (a[0] as u16) * 256 + (a[1] as u16);
                            let lo = (a[2] as u16) * 256 + (a[3] as u16);
                            let ghost before = out@;
                            out.push(hi);
                            out.push(lo);
                            assert(out@ =~= before + v4_segments(a@));
                            return Some(out);
                        },
                        None => {
                            return None;
                        },
                    }
                }
                proof {
                    if k < to {
                        assert(parts.len() > done.len() + 1);
                        assert(parts.drop_last()[done.len() as int] == seg);
                        assert(!all_hex_groups(parts.drop_last()));
                    }
                }
                return None;
            },
        }
    }
}

/// Index of the first `::` in `v[from..to]`, or `to`.
fn find_double_colon_at(v: &Vec<char>, from: usize, to: usize) -> (k: usize)
    requires
        from <= to <= v@.len(),
    ensures
        from <= k <= to,
        k == from + find_double_colon(v@.subrange(from as int, to as int)),
{
    let ghost s = v@.subrange(from as int, to as int);
    let mut i = from;
    while to - i > 1
        invariant
            from <= i <= to <= v@.len(),
            s == v@.subrange(from as int, to as int),
            forall|j: int| 0 <= j < i - from && j + 1 < s.len() ==> !(#[trigger] s[j] == ':' && s[j
                + 1] == ':'),
        decreases to - i,
    {
        if v[i] == ':' && v[i + 1] == ':' {
            proof {
                assert(s[i - from] == v@[i as int]);
                assert(s[i - from + 1] == v@[i + 1]);
                lemma_find_double_colon_at(s, i - from);
            }
            return i;
        }
        assert(s[i - from] == v@[i as int]);
        assert(s[i - from + 1] == v@[i + 1]);
        i = i + 1;
    }
    proof {
        lemma_find_double_colon_at(s, s.len() as int);
    }
    to
}

/// `h`, then zeros, then `t`: eight segments in all.
fn fill_zeros(h: &Vec<u16>, t: &Vec<u16>) -> (all: Vec<u16>)
    requires
        h@.len() + t@.len() <= 7,
    ensures
        all@ == h@ + Seq::new((8 - h@.len() - t@.len()) as nat, |x: int| 0u16) + t@,
{
    let zeros: usize = 8 - h.len() - t.len();
    let mut all: Vec<u16> = Vec::new();
    let mut i: usize = 0;
    while i < h.len()
        invariant
            i <= h.len(),
            all@ == h@.take(i as int),
        decreases h.len() - i,
    {
        all.push(h[i]);
        assert(h@.take(i + 1) =~= h@.take(i as int).push(h@[i as int]));
        i = i + 1;
    }
    assert(h@.take(h.len() as int) =~= h@);
    let mut j: usize = 0;
    while j < zeros
        invariant
            j <= zeros,
            all@ == h@ + Seq::new(j as nat, |x: int| 0u16),
        decreases zeros - j,
    {
        all.push(0);
        assert(h@ + Seq::new((j + 1) as nat, |x: int| 0u16) =~= (h@ + Seq::new(
            j as nat,
            |x: int| 0u16,
        )).push(0));
        j = j + 1;
    }
    let mut m: usize = 0;
    while m < t.len()
        invariant
            m <= t.len(),
            all@ == h@ + Seq::new(zeros as nat, |x: int| 0u16) + t@.take(m as int),
        decreases t.len() - m,
    {
        all.push(t[m]);
        assert(t@.take(m + 1) =~= t@.take(m as int).push(t@[m as int]));
        assert(h@ + Seq::new(zeros as nat, |x: int| 0u16) + t@.take(m + 1) =~= (h@ + Seq::new(
            zeros as nat,
            |x: int| 0u16,
        ) + t@.take(m as int)).push(t@[m as int]));
        m = m + 1;
    }
    assert(t@.take(t.len() as int) =~= t@);
    all
}

fn segments_array(all: &Vec<u16>) -> (a: [u16; 8])
    requires
        all@.len() == 8,
    ensures
        a@ == all@,
{
    let a = [all[0], all[1], all[2], all[3], all[4], all[5], all[6], all[7]];
    assert(a@ =~= all@);
    a
}

/// Parses IPv6 text `v[from..to]`, giving its eight segments.
pub fn parse_ipv6(v: &Vec<char>, from: usize, to: usize) -> (r: Option<[u16; 8]>)
    requires
        from <= to <= v@.len(),
    ensures
        match ipv6(v@.subrange(from as int, to as int)) {
            Some(g) => r matches Some(a) && a@ == g,
            None => r is None,
        },
{
    let ghost s = v@.subrange(from as int, to as int);
    let k = find_double_colon_at(v, from, to);
    proof {
        lemma_find_double_colon(s);
    }
    if k < to {
        assert(s.take(k - from) =~= v@.subrange(from as int, k as int));
        assert(s.skip(k - from + 2) =~= v@.subrange(k + 2, to as int));
        let h = match parse_groups(v, from, k, false) {
            Some(h) => h,
            None => {
                return None;
            },
        };
        let t = match parse_groups(v, k + 2, to, true) {
            Some(t) => t,
            None => {
                return None;
            },
        };
        if h.len() > 7 || t.len() > 7 - h.len() {
            return None;
        }
        let all = fill_zeros(&h, &t);
        Some(segments_array(&all))
    } else {
        assert(s.take(k - from) =~= s);
        let all = match parse_groups(v, from, to, true) {
            Some(g) => g,
            None => {
                return None;
            },
        };
        if all.len() != 8 {
            return None;
        }
        Some(segments_array(&all))
    }
}

} // verus!
