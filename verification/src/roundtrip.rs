//! Facts about how printed text reads back: tokens, trimming, numbers,
//! names and addresses.
use vstd::prelude::*;
use crate::text::{
    all_digits, count_prefix, decimal, digits_value, is_digit, is_ws,
    lemma_count_prefix, lemma_count_prefix_at, lemma_count_suffix_at, lemma_decimal_digits,
    non_ws_pred, not_char, split, take_token, trim, trim_end, trim_start, ws_pred,
};
use crate::addr::{
    all_hex_groups, find_double_colon, group_values, groups, hex_digit_val, hex_group, hex_value,
    ipv4, ipv6, is_hex, lemma_find_double_colon_at, octet, v4_segments,
};
use crate::names::{is_label_char, labels_valid, strip_dot, valid_label, valid_name};
use crate::record::{txt_text, unescape};
use crate::render::quote_escape;
use crate::addr_text::{
    hex, hex_char, ipv4_text, ipv6_text, is_longest_zero_run, is_zero_run, join_hex, longest_zero_run,
};

verus! {

pub open spec fn all_ws(s: Seq<char>) -> bool {
    forall|i: int| 0 <= i < s.len() ==> is_ws(#[trigger] s[i])
}

pub open spec fn no_ws(s: Seq<char>) -> bool {
    forall|i: int| 0 <= i < s.len() ==> !is_ws(#[trigger] s[i])
}

pub open spec fn spaces(n: nat) -> Seq<char> {
    Seq::new(n, |i: int| ' ')
}

/// A token after some whitespace is read off whole, up to the whitespace
/// (or the end) that follows it.
pub proof fn lemma_take_token_concat(w: Seq<char>, t: Seq<char>, u: Seq<char>)
    requires
        all_ws(w),
        t.len() > 0,
        no_ws(t),
        u.len() == 0 || is_ws(u[0]),
    ensures
        take_token(w + t + u) == Some((t, u)),
{
    let s = w + t + u;
    assert forall|j: int| 0 <= j < w.len() implies ws_pred()(#[trigger] s[j]) by {
        assert(s[j] == w[j]);
    }
    assert(s[w.len() as int] == t[0]);
    lemma_count_prefix_at(s, ws_pred(), w.len() as int);
    let ts = trim_start(s);
    assert(ts =~= t + u);
    assert forall|j: int| 0 <= j < t.len() implies non_ws_pred()(#[trigger] ts[j]) by {
        assert(ts[j] == t[j]);
    }
    if u.len() > 0 {
        assert(ts[t.len() as int] == u[0]);
    }
    lemma_count_prefix_at(ts, non_ws_pred(), t.len() as int);
    assert(ts.take(t.len() as int) =~= t);
    assert(ts.skip(t.len() as int) =~= u);
}

/// Trimming whitespace before a text that neither starts nor ends with
/// whitespace gives the text.
pub proof fn lemma_trim_concat(w: Seq<char>, t: Seq<char>)
    requires
        all_ws(w),
        t.len() > 0,
        !is_ws(t[0]),
        !is_ws(t.last()),
    ensures
        trim(w + t) == t,
{
    let s = w + t;
    assert forall|j: int| 0 <= j < w.len() implies ws_pred()(#[trigger] s[j]) by {
        assert(s[j] == w[j]);
    }
    assert(s[w.len() as int] == t[0]);
    lemma_count_prefix_at(s, ws_pred(), w.len() as int);
    assert(trim_start(s) =~= t);
    lemma_count_suffix_at(t, ws_pred(), 0);
    assert(trim_end(t) =~= t);
}

pub proof fn lemma_trim_spaces(w: Seq<char>)
    requires
        all_ws(w),
    ensures
        trim(w).len() == 0,
{
    assert forall|j: int| 0 <= j < w.len() implies ws_pred()(#[trigger] w[j]) by {}
    lemma_count_prefix_at(w, ws_pred(), w.len() as int);
}

pub proof fn lemma_digits_no_ws(s: Seq<char>)
    requires
        all_digits(s),
    ensures
        no_ws(s),
{
    assert forall|i: int| 0 <= i < s.len() implies !is_ws(#[trigger] s[i]) by {
        assert(is_digit(s[i]));
    }
}

/// Facts about the decimal text of a number.
pub proof fn lemma_decimal_text(n: nat)
    ensures
        decimal(n).len() > 0,
        all_digits(decimal(n)),
        no_ws(decimal(n)),
        is_digit(decimal(n)[0]),
        digits_value(decimal(n)) == n,
        n > 0 ==> decimal(n)[0] != '0',
        n < 10 ==> decimal(n).len() == 1,
        n < 100 ==> decimal(n).len() <= 2,
        n < 1000 ==> decimal(n).len() <= 3,
    decreases n,
{
    lemma_decimal_digits(n);
    lemma_digits_no_ws(decimal(n));
    if n >= 10 {
        lemma_decimal_text(n / 10);
    }
}

pub open spec fn lacks(s: Seq<char>, c: char) -> bool {
    forall|i: int| 0 <= i < s.len() ==> #[trigger] s[i] != c
}

pub proof fn lemma_split_single(a: Seq<char>, c: char)
    requires
        lacks(a, c),
    ensures
        split(a, c) == seq![a],
{
    lemma_count_prefix_at(a, not_char(c), a.len() as int);
}

pub proof fn lemma_split_cons(a: Seq<char>, b: Seq<char>, c: char)
    requires
        lacks(a, c),
    ensures
        split(a + seq![c] + b, c) == seq![a] + split(b, c),
{
    let s = a + seq![c] + b;
    assert forall|j: int| 0 <= j < a.len() implies not_char(c)(#[trigger] s[j]) by {
        assert(s[j] == a[j]);
    }
    assert(s[a.len() as int] == c);
    lemma_count_prefix_at(s, not_char(c), a.len() as int);
    assert(s.take(a.len() as int) =~= a);
    assert(s.skip(a.len() as int + 1) =~= b);
}

pub proof fn lemma_digits_lack(s: Seq<char>, c: char)
    requires
        all_digits(s),
        !is_digit(c),
    ensures
        lacks(s, c),
{
    assert forall|i: int| 0 <= i < s.len() implies #[trigger] s[i] != c by {
        assert(is_digit(s[i]));
    }
}

pub proof fn lemma_octet_decimal(n: nat)
    requires
        n <= 255,
    ensures
        octet(decimal(n)) == Some(n as u8),
{
    lemma_decimal_text(n);
}

/// Dotted-quad text reads back as the four octets.
pub proof fn lemma_ipv4_roundtrip(o: Seq<u8>)
    requires
        o.len() == 4,
    ensures
        ipv4(ipv4_text(o)) == Some(o),
        no_ws(ipv4_text(o)),
        is_digit(ipv4_text(o)[0]),
        is_digit(ipv4_text(o).last()),
        lacks(ipv4_text(o), ':'),
        !all_hex(ipv4_text(o)),
{
    let d0 = decimal(o[0] as nat);
    let d1 = decimal(o[1] as nat);
    let d2 = decimal(o[2] as nat);
    let d3 = decimal(o[3] as nat);
    lemma_decimal_text(o[0] as nat);
    lemma_decimal_text(o[1] as nat);
    lemma_decimal_text(o[2] as nat);
    lemma_decimal_text(o[3] as nat);
    lemma_digits_lack(d0, '.');
    lemma_digits_lack(d1, '.');
    lemma_digits_lack(d2, '.');
    lemma_digits_lack(d3, '.');
    let t = ipv4_text(o);
    let r2 = d2 + seq!['.'] + d3;
    let r1 = d1 + seq!['.'] + r2;
    assert(t =~= d0 + seq!['.'] + r1);
    lemma_split_cons(d0, r1, '.');
    lemma_split_cons(d1, r2, '.');
    lemma_split_cons(d2, d3, '.');
    lemma_split_single(d3, '.');
    let parts = split(t, '.');
    assert(parts =~= seq![d0, d1, d2, d3]);
    lemma_octet_decimal(o[0] as nat);
    lemma_octet_decimal(o[1] as nat);
    lemma_octet_decimal(o[2] as nat);
    lemma_octet_decimal(o[3] as nat);
    assert(ipv4(t).unwrap() =~= o);
    lemma_digits_lack(d0, ':');
    lemma_digits_lack(d1, ':');
    lemma_digits_lack(d2, ':');
    lemma_digits_lack(d3, ':');
    assert(t[d0.len() as int] == '.');
    assert(!is_hex(t[d0.len() as int]));
    assert forall|i: int| 0 <= i < t.len() implies !is_ws(#[trigger] t[i]) && t[i] != ':' by {
        if i < d0.len() {
            assert(t[i] == d0[i]);
        } else if i == d0.len() {
        } else if i < d0.len() + 1 + d1.len() {
            assert(t[i] == d1[i - d0.len() - 1]);
        } else if i == d0.len() + 1 + d1.len() {
        } else if i < d0.len() + 2 + d1.len() + d2.len() {
            assert(t[i] == d2[i - d0.len() - 2 - d1.len()]);
        } else if i == d0.len() + 2 + d1.len() + d2.len() {
        } else {
            assert(t[i] == d3[i - d0.len() - 3 - d1.len() - d2.len()]);
        }
    }
    assert(t[0] == d0[0]);
    assert(t.last() == d3.last());
    assert(is_digit(d3[d3.len() - 1]));
}

/// `split` over a separator splits the two sides independently.
pub proof fn lemma_split_append(a: Seq<char>, b: Seq<char>, c: char)
    ensures
        split(a + seq![c] + b, c) == split(a, c) + split(b, c),
    decreases a.len(),
{
    let k = count_prefix(a, not_char(c));
    lemma_count_prefix(a, not_char(c));
    if k == a.len() {
        assert forall|i: int| 0 <= i < a.len() implies #[trigger] a[i] != c by {
            assert(not_char(c)(a[i]));
        }
        lemma_split_cons(a, b, c);
        lemma_split_single(a, c);
    } else {
        let a1 = a.take(k as int);
        let a2 = a.skip(k as int + 1);
        assert forall|i: int| 0 <= i < a1.len() implies #[trigger] a1[i] != c by {
            assert(not_char(c)(a[i]));
        }
        assert(a =~= a1 + seq![c] + a2);
        assert(a + seq![c] + b =~= a1 + seq![c] + (a2 + seq![c] + b));
        lemma_split_cons(a1, a2 + seq![c] + b, c);
        lemma_split_cons(a1, a2, c);
        lemma_split_append(a2, b, c);
        assert(seq![a1] + (split(a2, c) + split(b, c)) =~= seq![a1] + split(a2, c) + split(b, c));
    }
}

pub proof fn lemma_hex_char(d: nat)
    requires
        d < 16,
    ensures
        is_hex(hex_char(d)),
        hex_digit_val(hex_char(d)) == d,
{
    if d < 10 {
        assert(hex_char(d) as int == '0' as int + d);
    } else {
        assert(hex_char(d) as int == 'a' as int + d - 10);
    }
}

pub open spec fn all_hex(s: Seq<char>) -> bool {
    forall|i: int| 0 <= i < s.len() ==> is_hex(#[trigger] s[i])
}

/// Facts about the hexadecimal text of a segment.
pub proof fn lemma_hex_text(n: nat)
    requires
        n < 65536,
    ensures
        1 <= hex(n).len() <= 4,
        all_hex(hex(n)),
        hex_value(hex(n)) == n,
        hex_group(hex(n)) == Some(n as u16),
        n < 16 ==> hex(n).len() == 1,
        n < 256 ==> hex(n).len() <= 2,
        n < 4096 ==> hex(n).len() <= 3,
    decreases n,
{
    lemma_hex_char(n % 16);
    if n >= 16 {
        lemma_hex_text(n / 16);
        let h = hex(n);
        assert(h.drop_last() =~= hex(n / 16));
        assert forall|i: int| 0 <= i < h.len() implies is_hex(#[trigger] h[i]) by {
            if i < h.len() - 1 {
                assert(h[i] == hex(n / 16)[i]);
            }
        }
        assert((n / 16) * 16 + n % 16 == n);
        assert(h.last() == hex_char(n % 16));
        assert(hex_value(h) == hex_value(h.drop_last()) * 16 + hex_digit_val(h.last()));
        assert(hex_value(h) == n);
    } else {
        let h = hex(n);
        assert(h.drop_last() =~= Seq::<char>::empty());
        assert(h.last() == hex_char(n));
        assert(hex_value(h) == hex_value(h.drop_last()) * 16 + hex_digit_val(h.last()));
        assert(hex_value(h) == n);
    }
}

pub proof fn lemma_hex_lacks(s: Seq<char>, c: char)
    requires
        all_hex(s),
        !is_hex(c),
    ensures
        lacks(s, c),
        no_ws(s),
{
    assert forall|i: int| 0 <= i < s.len() implies #[trigger] s[i] != c by {
        assert(is_hex(s[i]));
    }
    assert forall|i: int| 0 <= i < s.len() implies !is_ws(#[trigger] s[i]) by {
        assert(is_hex(s[i]));
    }
}

pub open spec fn no_double_colon(s: Seq<char>) -> bool {
    forall|j: int| 0 <= j && j + 1 < s.len() ==> !(#[trigger] s[j] == ':' && s[j + 1] == ':')
}

/// Facts about segments written in hexadecimal, separated by `:`.
pub proof fn lemma_join_hex(g: Seq<u16>)
    requires
        g.len() > 0,
    ensures
        split(join_hex(g), ':') == g.map_values(|x: u16| hex(x as nat)),
        groups(join_hex(g), true) == Some(g),
        groups(join_hex(g), false) == Some(g),
        join_hex(g).len() > 0,
        is_hex(join_hex(g)[0]),
        is_hex(join_hex(g).last()),
        no_ws(join_hex(g)),
        lacks(join_hex(g), '.'),
        no_double_colon(join_hex(g)),
    decreases g.len(),
{
    let s = join_hex(g);
    let parts = g.map_values(|x: u16| hex(x as nat));
    lemma_hex_text(g.last() as nat);
    let h = hex(g.last() as nat);
    lemma_hex_lacks(h, ':');
    lemma_hex_lacks(h, '.');
    if g.len() == 1 {
        lemma_split_single(h, ':');
        assert(parts =~= seq![h]);
    } else {
        let d = g.drop_last();
        lemma_join_hex(d);
        let j = join_hex(d);
        assert(s == j + seq![':'] + h);
        lemma_split_append(j, h, ':');
        lemma_split_single(h, ':');
        assert(parts =~= d.map_values(|x: u16| hex(x as nat)) + seq![h]);
        assert forall|i: int| 0 <= i < s.len() implies !is_ws(#[trigger] s[i]) && s[i] != '.' by {
            if i < j.len() {
                assert(s[i] == j[i]);
            } else if i > j.len() {
                assert(s[i] == h[i - j.len() - 1]);
            }
        }
        assert forall|k: int| 0 <= k && k + 1 < s.len() implies !(#[trigger] s[k] == ':' && s[k
            + 1] == ':') by {
            if k + 1 < j.len() {
                assert(s[k] == j[k] && s[k + 1] == j[k + 1]);
            } else if k + 1 == j.len() {
                assert(s[k] == j.last());
            } else {
                assert(s[k + 1] == h[k - j.len()]);
            }
        }
        assert(s[0] == j[0]);
        assert(s.last() == h.last());
    }
    assert(s.len() > 0);
    assert forall|i: int| 0 <= i < parts.len() implies (#[trigger] hex_group(parts[i])) is Some by {
        lemma_hex_text(g[i] as nat);
    }
    assert(group_values(parts) =~= g) by {
        assert forall|i: int| 0 <= i < g.len() implies group_values(parts)[i] == g[i] by {
            lemma_hex_text(g[i] as nat);
        }
    }
    assert(is_hex(h.last()));
    assert(is_hex(h[0]));
}

proof fn lemma_longest_from(g: Seq<u16>, i: int, cur_l: int, best_s: int, best_l: int)
    requires
        g.len() == 8,
        0 <= cur_l <= i <= 8,
        is_zero_run(g, i - cur_l, cur_l),
        i - cur_l > 0 ==> g[i - cur_l - 1] != 0,
        is_longest_zero_run(g.take(i), best_s, best_l),
        best_l >= cur_l,
    ensures
        exists|s: int, l: int| is_longest_zero_run(g, s, l),
    decreases 8 - i,
{
    if i == 8 {
        assert(g.take(8) =~= g);
    } else {
        let t0 = g.take(i);
        let t1 = g.take(i + 1);
        let (nc, ns, nl) = if g[i] == 0 {
            let c = cur_l + 1;
            if c > best_l {
                (c, i + 1 - c, c)
            } else {
                (c, best_s, best_l)
            }
        } else {
            (0, best_s, best_l)
        };
        assert forall|s2: int, l2: int| #[trigger]
            is_zero_run(t1, s2, l2) implies l2 < nl || (l2 == nl && ns <= s2) by {
            if s2 + l2 <= i {
                assert(is_zero_run(t0, s2, l2)) by {
                    assert forall|k: int| s2 <= k < s2 + l2 implies #[trigger] t0[k] == 0 by {
                        assert(t1[k] == 0);
                    }
                }
            } else if l2 == 0 {
                assert(is_zero_run(t0, 0, 0));
            } else {
                assert(t1[i] == 0);
                assert(s2 >= i - cur_l) by {
                    if s2 < i - cur_l {
                        let k = i - cur_l - 1;
                        assert(t1[k] == 0);
                    }
                }
            }
        }
        assert forall|k: int| ns <= k < ns + nl implies #[trigger] t1[k] == 0 by {
            if ns + nl <= i {
                assert(t0[k] == 0);
            } else {
                assert(g[k] == 0);
            }
        }
        lemma_longest_from(g, i + 1, nc, ns, nl);
    }
}

/// Every eight segments have a leftmost longest run of zeros.
pub proof fn lemma_longest_exists(g: Seq<u16>)
    requires
        g.len() == 8,
    ensures
        is_longest_zero_run(g, longest_zero_run(g).0, longest_zero_run(g).1),
{
    assert(is_longest_zero_run(g.take(0), 0, 0));
    lemma_longest_from(g, 0, 0, 0, 0);
}

proof fn lemma_ffff()
    ensures
        hex(65535) == seq!['f', 'f', 'f', 'f'],
        hex_group(seq!['f', 'f', 'f', 'f']) == Some(0xffffu16),
{
    assert(hex_char(15) == 'f');
    assert(hex(15) =~= seq!['f']);
    assert(hex(255) =~= seq!['f', 'f']);
    assert(hex(4095) =~= seq!['f', 'f', 'f']);
    assert(hex(65535) =~= seq!['f', 'f', 'f', 'f']);
    lemma_hex_text(65535);
}

proof fn lemma_ipv6_mapped(g: Seq<u16>)
    requires
        g.len() == 8,
        g[0] == 0 && g[1] == 0 && g[2] == 0 && g[3] == 0 && g[4] == 0 && g[5] == 0xffff,
    ensures
        ipv6(ipv6_text(g)) == Some(g),
        no_ws(ipv6_text(g)),
{
    let s = ipv6_text(g);
    let o = seq![(g[6] / 256) as u8, (g[6] % 256) as u8, (g[7] / 256) as u8, (g[7] % 256) as u8];
    let v4 = ipv4_text(o);
    lemma_ipv4_roundtrip(o);
    let f = seq!['f', 'f', 'f', 'f'];
    lemma_ffff();
    assert(s == seq![':', ':', 'f', 'f', 'f', 'f', ':'] + v4);
    assert(find_double_colon(s) == 0);
    let tail = s.skip(2);
    assert(tail =~= f + seq![':'] + v4);
    assert(s.take(0) =~= Seq::<char>::empty());
    lemma_split_cons(f, v4, ':');
    lemma_split_single(v4, ':');
    let parts = split(tail, ':');
    assert(parts =~= seq![f, v4]);
    assert(hex_group(v4) is None) by {
        assert(!all_hex(v4));
    }
    assert(!all_hex_groups(parts)) by {
        assert(hex_group(parts[1]) is None);
    }
    assert(parts.drop_last() =~= seq![f]);
    assert(all_hex_groups(parts.drop_last())) by {
        assert(hex_group(parts.drop_last()[0]) is Some);
    }
    assert(group_values(parts.drop_last()) =~= seq![0xffffu16]);
    assert((g[6] / 256) * 256 + g[6] % 256 == g[6]);
    assert((g[7] / 256) * 256 + g[7] % 256 == g[7]);
    assert(v4_segments(o) =~= seq![g[6], g[7]]);
    let t = seq![0xffffu16, g[6], g[7]];
    assert(groups(tail, true) == Some(t));
    assert(Seq::<u16>::empty() + Seq::new((8 - 0 - 3) as nat, |i: int| 0u16) + t =~= g);
    assert forall|i: int| 0 <= i < s.len() implies !is_ws(#[trigger] s[i]) by {
        if i >= 7 {
            assert(s[i] == v4[i - 7]);
        }
    }
}

proof fn lemma_ipv6_compressed(g: Seq<u16>, st: int, l: int)
    requires
        g.len() == 8,
        is_longest_zero_run(g, st, l),
        l > 1,
    ensures
        ipv6(join_hex(g.take(st)) + seq![':', ':'] + join_hex(g.skip(st + l))) == Some(g),
        no_ws(join_hex(g.take(st)) + seq![':', ':'] + join_hex(g.skip(st + l))),
{
    let h = g.take(st);
    let t = g.skip(st + l);
    let a = join_hex(h);
    let b = join_hex(t);
    let s = a + seq![':', ':'] + b;
    if h.len() > 0 {
        lemma_join_hex(h);
    } else {
        assert(a =~= Seq::<char>::empty());
    }
    if t.len() > 0 {
        lemma_join_hex(t);
    } else {
        assert(b =~= Seq::<char>::empty());
    }
    assert(s[a.len() as int] == ':');
    assert(s[a.len() as int + 1] == ':');
    assert forall|j: int| 0 <= j < a.len() && j + 1 < s.len() implies !(#[trigger] s[j] == ':'
        && s[j + 1] == ':') by {
        assert(s[j] == a[j]);
        if j + 1 < a.len() {
            assert(s[j + 1] == a[j + 1]);
        }
    }
    lemma_find_double_colon_at(s, a.len() as int);
    assert(s.take(a.len() as int) =~= a);
    assert(s.skip(a.len() as int + 2) =~= b);
    assert(groups(a, false) == Some(h));
    assert(groups(b, true) == Some(t));
    assert(h + Seq::new((8 - h.len() - t.len()) as nat, |i: int| 0u16) + t =~= g) by {
        assert forall|k: int| st <= k < st + l implies g[k] == 0 by {
            assert(is_zero_run(g, st, l));
        }
    }
    assert forall|i: int| 0 <= i < s.len() implies !is_ws(#[trigger] s[i]) by {
        if i < a.len() {
            assert(s[i] == a[i]);
        } else if i >= a.len() + 2 {
            assert(s[i] == b[i - a.len() - 2]);
        }
    }
}

/// IPv6 text as `Display` writes it reads back as the same segments.
pub proof fn lemma_ipv6_roundtrip(g: Seq<u16>)
    requires
        g.len() == 8,
    ensures
        ipv6(ipv6_text(g)) == Some(g),
        no_ws(ipv6_text(g)),
        ipv6_text(g).len() > 0,
{
    let s = ipv6_text(g);
    if g[0] == 0 && g[1] == 0 && g[2] == 0 && g[3] == 0 && g[4] == 0 && g[5] == 0xffff {
        lemma_ipv6_mapped(g);
        assert(s.len() > 0);
    } else {
        lemma_longest_exists(g);
        let (st, l) = longest_zero_run(g);
        if l > 1 {
            lemma_ipv6_compressed(g, st, l);
        } else {
            assert(s == join_hex(g));
            lemma_join_hex(g);
            lemma_find_double_colon_at(s, s.len() as int);
        }
    }
}

/// The characters of text whose `.`-separated pieces are valid labels.
pub proof fn lemma_labels_chars(t: Seq<char>)
    requires
        labels_valid(t),
    ensures
        forall|i: int| 0 <= i < t.len() ==> #[trigger] t[i] == '.' || is_label_char(t[i]),
    decreases t.len(),
{
    let k = count_prefix(t, not_char('.'));
    lemma_count_prefix(t, not_char('.'));
    let parts = split(t, '.');
    assert(valid_label(parts[0]));
    if k < t.len() {
        let rest = t.skip(k as int + 1);
        assert(parts == seq![t.take(k as int)] + split(rest, '.'));
        assert forall|i: int| 0 <= i < split(rest, '.').len() implies valid_label(
            #[trigger] split(rest, '.')[i],
        ) by {
            assert(split(rest, '.')[i] == parts[i + 1]);
        }
        lemma_labels_chars(rest);
        assert forall|i: int| 0 <= i < t.len() implies #[trigger] t[i] == '.' || is_label_char(
            t[i],
        ) by {
            if i < k {
                assert(t[i] == parts[0][i]);
            } else if i > k {
                assert(t[i] == rest[i - k - 1]);
            }
        }
    } else {
        assert forall|i: int| 0 <= i < t.len() implies #[trigger] t[i] == '.' || is_label_char(
            t[i],
        ) by {
            assert(t[i] == parts[0][i]);
        }
    }
}

/// A valid name is non-empty text without whitespace.
pub proof fn lemma_name_text(n: Seq<char>)
    requires
        valid_name(n),
    ensures
        n.len() > 0,
        no_ws(n),
{
    if n == seq!['@'] {
        assert(no_ws(n)) by {
            assert forall|i: int| 0 <= i < n.len() implies !is_ws(#[trigger] n[i]) by {
                assert(n[i] == '@');
            }
        }
    } else {
        let t = strip_dot(n);
        lemma_labels_chars(t);
        assert forall|i: int| 0 <= i < n.len() implies !is_ws(#[trigger] n[i]) by {
            if i < t.len() {
                assert(n[i] == t[i]);
                assert(t[i] == '.' || is_label_char(t[i]));
            } else {
                assert(n[i] == '.');
            }
        }
    }
}

/// The piece of `quote_escape` that one character becomes.
pub open spec fn quote_piece(c: char) -> Seq<char> {
    if c == '"' {
        seq!['\\', '"']
    } else {
        seq![c]
    }
}

pub proof fn lemma_quote_escape_concat(a: Seq<char>, b: Seq<char>)
    ensures
        quote_escape(a + b) == quote_escape(a) + quote_escape(b),
    decreases b.len(),
{
    if b.len() == 0 {
        assert(a + b =~= a);
        assert(quote_escape(a) + quote_escape(b) =~= quote_escape(a));
    } else {
        lemma_quote_escape_concat(a, b.drop_last());
        assert((a + b).drop_last() =~= a + b.drop_last());
        assert((a + b).last() == b.last());
        assert(quote_escape(a) + quote_escape(b) =~= quote_escape(a) + quote_escape(b.drop_last())
            + quote_piece(b.last()));
    }
}

pub proof fn lemma_quote_escape_cons(c: char, b: Seq<char>)
    ensures
        quote_escape(seq![c] + b) == quote_piece(c) + quote_escape(b),
{
    lemma_quote_escape_concat(seq![c], b);
    assert(seq![c].drop_last() =~= Seq::<char>::empty());
    assert(seq![c].last() == c);
    assert(quote_escape(seq![c]) == quote_escape(seq![c].drop_last()) + quote_piece(c));
    assert(quote_escape(seq![c]) =~= quote_piece(c));
}

/// Text that TXT data unescapes to reads back the same after `quote_escape`.
pub proof fn lemma_unescape_quote(s: Seq<char>)
    requires
        unescape(s) is Some,
    ensures
        unescape(quote_escape(unescape(s)->0)) == unescape(s),
    decreases s.len(),
{
    if s.len() == 0 {
        assert(unescape(s)->0 =~= Seq::<char>::empty());
    } else if s[0] == '\\' {
        let rest = s.skip(2);
        lemma_unescape_quote(rest);
        let r = unescape(rest)->0;
        let q = quote_escape(r);
        if s[1] == '"' {
            lemma_quote_escape_cons('"', r);
            let e = seq!['\\', '"'] + q;
            assert(e[0] == '\\' && e[1] == '"');
            assert(e.skip(2) =~= q);
        } else {
            let x = s[1];
            lemma_quote_escape_cons('\\', seq![x] + r);
            lemma_quote_escape_cons(x, r);
            assert(seq!['\\', x] + r =~= seq!['\\'] + (seq![x] + r));
            let e = seq!['\\'] + (seq![x] + q);
            assert(e[0] == '\\' && e[1] == x);
            assert(e.skip(2) =~= q);
            assert(e =~= quote_escape(seq!['\\', x] + r));
        }
    } else {
        let rest = s.drop_first();
        lemma_unescape_quote(rest);
        let r = unescape(rest)->0;
        lemma_quote_escape_cons(s[0], r);
        let e = seq![s[0]] + quote_escape(r);
        assert(e.drop_first() =~= quote_escape(r));
    }
}

/// TXT data as printed reads back as the same text.
pub proof fn lemma_txt_roundtrip(r: Seq<char>)
    requires
        txt_text(r) is Some,
    ensures
        txt_text(seq!['"'] + quote_escape(txt_text(r)->0) + seq!['"']) == txt_text(r),
{
    let inner = r.subrange(1, r.len() - 1);
    lemma_unescape_quote(inner);
    let e = seq!['"'] + quote_escape(txt_text(r)->0) + seq!['"'];
    assert(e.subrange(1, e.len() - 1) =~= quote_escape(txt_text(r)->0));
}

} // verus!
