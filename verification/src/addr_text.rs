//! Printing addresses the way `Display` prints `Ipv4Addr` and `Ipv6Addr`.
use vstd::prelude::*;
use crate::text::{decimal, push_decimal};

verus! {

/// The lower-case hexadecimal digit for `n < 16`.
pub open spec fn hex_char(n: nat) -> char {
    if n < 10 {
        ('0' as int + n) as char
    } else {
        ('a' as int + n - 10) as char
    }
}

/// Lower-case hexadecimal representation of `n`, as `{:x}` writes it.
pub open spec fn hex(n: nat) -> Seq<char>
    decreases n,
{
    if n < 16 {
        seq![hex_char(n)]
    } else {
        hex(n / 16).push(hex_char(n % 16))
    }
}

/// Dotted-quad text of four octets.
pub open spec fn ipv4_text(o: Seq<u8>) -> Seq<char> {
    decimal(o[0] as nat) + seq!['.'] + decimal(o[1] as nat) + seq!['.'] + decimal(o[2] as nat)
        + seq!['.'] + decimal(o[3] as nat)
}

/// Segments in hexadecimal, separated by `:`.
pub open spec fn join_hex(g: Seq<u16>) -> Seq<char>
    decreases g.len(),
{
    if g.len() == 0 {
        seq![]
    } else if g.len() == 1 {
        hex(g[0] as nat)
    } else {
        join_hex(g.drop_last()) + seq![':'] + hex(g.last() as nat)
    }
}

/// `g[s..s + l]` are all zero segments.
pub open spec fn is_zero_run(g: Seq<u16>, s: int, l: int) -> bool {
    &&& 0 <= s
    &&& 0 <= l
    &&& s + l <= g.len()
    &&& forall|k: int| s <= k < s + l ==> #[trigger] g[k] == 0
}

/// `g[s..s + l]` is the longest run of zero segments, the leftmost of the
/// longest where several are equally long.
pub open spec fn is_longest_zero_run(g: Seq<u16>, s: int, l: int) -> bool {
    &&& is_zero_run(g, s, l)
    &&& forall|s2: int, l2: int| #[trigger]
        is_zero_run(g, s2, l2) ==> l2 < l || (l2 == l && s <= s2)
}

pub open spec fn longest_zero_run(g: Seq<u16>) -> (int, int) {
    choose|s: int, l: int| is_longest_zero_run(g, s, l)
}

/// The text of an IPv6 address, as `Display` writes it: an IPv4-mapped
/// address as `::ffff:` and dotted-quad, otherwise the segments in
/// lower-case hexadecimal with the longest run of two or more zero
/// segments (the leftmost of equally long ones) written `::`.
pub open spec fn ipv6_text(g: Seq<u16>) -> Seq<char> {
    if g[0] == 0 && g[1] == 0 && g[2] == 0 && g[3] == 0 && g[4] == 0 && g[5] == 0xffff {
        seq![':', ':', 'f', 'f', 'f', 'f', ':'] + ipv4_text(
            seq![
                (g[6] / 256) as u8,
                (g[6] % 256) as u8,
                (g[7] / 256) as u8,
                (g[7] % 256) as u8,
            ],
        )
    } else {
        let (s, l) = longest_zero_run(g);
        if l > 1 {
            join_hex(g.take(s)) + seq![':', ':'] + join_hex(g.skip(s + l))
        } else {
            join_hex(g)
        }
    }
}

pub proof fn lemma_longest_unique(g: Seq<u16>, s: int, l: int)
    requires
        is_longest_zero_run(g, s, l),
    ensures
        longest_zero_run(g) == (s, l),
{
    let (s2, l2) = longest_zero_run(g);
    assert(is_longest_zero_run(g, s2, l2));
    assert(is_zero_run(g, s, l));
    assert(is_zero_run(g, s2, l2));
}

pub fn hex_digit_char(d: u32) -> (c: char)
    requires
        d < 16,
    ensures
        c == hex_char(d as nat),
{
    if d < 10 {
        let c = crate::text::char_from_digit(d);
        c
    } else if d == 10 {
        'a'
    } else if d == 11 {
        'b'
    } else if d == 12 {
        'c'
    } else if d == 13 {
        'd'
    } else if d == 14 {
        'e'
    } else {
        'f'
    }
}

/// Appends `n` in lower-case hexadecimal.
pub fn push_hex(out: &mut String, n: u32)
    ensures
        final(out)@ == old(out)@ + hex(n as nat),
    decreases n,
{
    if n >= 16 {
        push_hex(out, n / 16);
    }
    out.push(hex_digit_char(n % 16));
    proof {
        if n >= 16 {
            assert(hex(n as nat) == hex((n / 16) as nat).push(hex_char((n % 16) as nat)));
        }
    }
    assert(final(out)@ =~= old(out)@ + hex(n as nat));
}

/// Appends the dotted-quad text of `o`.
pub fn push_ipv4(out: &mut String, o: &[u8; 4])
    ensures
        final(out)@ == old(out)@ + ipv4_text(o@),
{
    push_decimal(out, o[0] as u64);
    out.push('.');
    push_decimal(out, o[1] as u64);
    out.push('.');
    push_decimal(out, o[2] as u64);
    out.push('.');
    push_decimal(out, o[3] as u64);
    assert(final(out)@ =~= old(out)@ + ipv4_text(o@));
}

/// Appends `g[from..to]` in hexadecimal, separated by `:`.
fn push_join_hex(out: &mut String, g: &[u16; 8], from: usize, to: usize)
    requires
        from <= to <= 8,
    ensures
        final(out)@ == old(out)@ + join_hex(g@.subrange(from as int, to as int)),
{
    let mut i = from;
    assert(g@.subrange(from as int, from as int) =~= Seq::<u16>::empty());
    while i < to
        invariant
            from <= i <= to <= 8,
            out@ == old(out)@ + join_hex(g@.subrange(from as int, i as int)),
        decreases to - i,
    {
        let ghost before = out@;
        if i > from {
            out.push(':');
        }
        push_hex(out, g[i] as u32);
        proof {
            let p = g@.subrange(from as int, i + 1);
            assert(p.drop_last() =~= g@.subrange(from as int, i as int));
            if i == from {
                assert(join_hex(p) == hex(g@[i as int] as nat));
            }
        }
        assert(out@ =~= old(out)@ + join_hex(g@.subrange(from as int, i + 1)));
        i = i + 1;
    }
}

/// The leftmost longest run of zero segments.
fn longest_run(g: &[u16; 8]) -> (r: (usize, usize))
    ensures
        is_longest_zero_run(g@, r.0 as int, r.1 as int),
{
    let mut best_s: usize = 0;
    let mut best_l: usize = 0;
    let mut cur_l: usize = 0;
    let mut i: usize = 0;
    while i < 8
        invariant
            i <= 8,
            g@.len() == 8,
            cur_l <= i,
            is_zero_run(g@, i - cur_l, cur_l as int),
            i - cur_l > 0 ==> g@[i - cur_l - 1] != 0,
            is_longest_zero_run(g@.take(i as int), best_s as int, best_l as int),
            best_l >= cur_l,
        decreases 8 - i,
    {
        let ghost t0 = g@.take(i as int);
        let ghost t1 = g@.take(i + 1);
        if g[i] == 0 {
            cur_l = cur_l + 1;
            if cur_l > best_l {
                best_s = i + 1 - cur_l;
                best_l = cur_l;
            }
        } else {
            cur_l = 0;
        }
        proof {
            assert forall|s2: int, l2: int| #[trigger]
                is_zero_run(t1, s2, l2) implies l2 < best_l || (l2 == best_l && best_s <= s2) by {
                if s2 + l2 <= i {
                    assert(is_zero_run(t0, s2, l2)) by {
                        assert forall|k: int| s2 <= k < s2 + l2 implies #[trigger] t0[k] == 0 by {
                            assert(t1[k] == 0);
                        }
                    }
                } else if l2 == 0 {
                    assert(is_zero_run(t0, 0, 0));
                } else {
                    assert(t1[i as int] == 0);
                    assert(s2 >= i + 1 - cur_l) by {
                        if s2 < i + 1 - cur_l {
                            let k = i - cur_l;
                            assert(t1[k] == 0);
                        }
                    }
                }
            }
            assert forall|k: int| best_s <= k < best_s + best_l implies #[trigger] t1[k] == 0 by {
                if best_s + best_l <= i {
                    assert(t0[k] == 0);
                } else {
                    assert(g@[k] == 0);
                }
            }
        }
        i = i + 1;
    }
    assert(g@.take(8) =~= g@);
    (best_s, best_l)
}

/// Appends the text of the IPv6 address with segments `g`.
pub fn push_ipv6(out: &mut String, g: &[u16; 8])
    ensures
        final(out)@ == old(out)@ + ipv6_text(g@),
{
    if g[0] == 0 && g[1] == 0 && g[2] == 0 && g[3] == 0 && g[4] == 0 && g[5] == 0xffff {
        out.push(':');
        out.push(':');
        out.push('f');
        out.push('f');
        out.push('f');
        out.push('f');
        out.push(':');
        let o = [(g[6] / 256) as u8, (g[6] % 256) as u8, (g[7] / 256) as u8, (g[7] % 256) as u8];
        push_ipv4(out, &o);
        assert(o@ =~= seq![
            (g@[6] / 256) as u8,
            (g@[6] % 256) as u8,
            (g@[7] / 256) as u8,
            (g@[7] % 256) as u8,
        ]);
        assert(final(out)@ =~= old(out)@ + ipv6_text(g@));
    } else {
        let (s, l) = longest_run(g);
        proof {
            lemma_longest_unique(g@, s as int, l as int);
        }
        if l > 1 {
            push_join_hex(out, g, 0, s);
            out.push(':');
            out.push(':');
            push_join_hex(out, g, s + l, 8);
            assert(g@.subrange(0, s as int) =~= g@.take(s as int));
            assert(g@.subrange(s + l, 8) =~= g@.skip(s + l));
            assert(final(out)@ =~= old(out)@ + ipv6_text(g@));
        } else {
            push_join_hex(out, g, 0, 8);
            assert(g@.subrange(0, 8) =~= g@);
        }
    }
}

} // verus!
