//! Characters, whitespace trimming, tokens and decimal numbers over `Seq<char>`.
use vstd::prelude::*;
use vstd::string::StrSliceExecFns;

verus! {

/// The Unicode `White_Space` property, which `char::is_whitespace` follows.
pub open spec fn is_ws(c: char) -> bool {
    ||| ('\t' <= c && c <= '\r')
    ||| c == ' '
    ||| c == '\u{85}'
    ||| c == '\u{a0}'
    ||| c == '\u{1680}'
    ||| ('\u{2000}' <= c && c <= '\u{200a}')
    ||| c == '\u{2028}'
    ||| c == '\u{2029}'
    ||| c == '\u{202f}'
    ||| c == '\u{205f}'
    ||| c == '\u{3000}'
}

pub fn is_whitespace(c: char) -> (b: bool)
    ensures
        b == is_ws(c),
{
    ('\t' <= c && c <= '\r') || c == ' ' || c == '\u{85}' || c == '\u{a0}' || c == '\u{1680}'
        || ('\u{2000}' <= c && c <= '\u{200a}') || c == '\u{2028}' || c == '\u{2029}' || c
        == '\u{202f}' || c == '\u{205f}' || c == '\u{3000}'
}

/// Length of the longest prefix of `s` whose characters all satisfy `p`.
pub open spec fn count_prefix(s: Seq<char>, p: spec_fn(char) -> bool) -> nat
    decreases s.len(),
{
    if s.len() > 0 && p(s[0]) {
        1 + count_prefix(s.drop_first(), p)
    } else {
        0
    }
}

/// Length of the longest suffix of `s` whose characters all satisfy `p`.
pub open spec fn count_suffix(s: Seq<char>, p: spec_fn(char) -> bool) -> nat
    decreases s.len(),
{
    if s.len() > 0 && p(s.last()) {
        1 + count_suffix(s.drop_last(), p)
    } else {
        0
    }
}

pub open spec fn ws_pred() -> spec_fn(char) -> bool {
    |c: char| is_ws(c)
}

pub open spec fn non_ws_pred() -> spec_fn(char) -> bool {
    |c: char| !is_ws(c)
}

/// `str::trim_start`.
pub open spec fn trim_start(s: Seq<char>) -> Seq<char> {
    s.skip(count_prefix(s, ws_pred()) as int)
}

/// `str::trim_end`.
pub open spec fn trim_end(s: Seq<char>) -> Seq<char> {
    s.take(s.len() - count_suffix(s, ws_pred()))
}

/// `str::trim`.
pub open spec fn trim(s: Seq<char>) -> Seq<char> {
    trim_end(trim_start(s))
}

/// One whitespace-delimited token off the front of `s`, any run of
/// whitespace before it skipped, and the unconsumed remainder.
pub open spec fn take_token(s: Seq<char>) -> Option<(Seq<char>, Seq<char>)> {
    let t = trim_start(s);
    if t.len() == 0 {
        None
    } else {
        let n = count_prefix(t, non_ws_pred()) as int;
        Some((t.take(n), t.skip(n)))
    }
}

pub proof fn lemma_count_prefix(s: Seq<char>, p: spec_fn(char) -> bool)
    ensures
        count_prefix(s, p) <= s.len(),
        forall|j: int| 0 <= j < count_prefix(s, p) ==> p(#[trigger] s[j]),
        count_prefix(s, p) < s.len() ==> !p(s[count_prefix(s, p) as int]),
    decreases s.len(),
{
    if s.len() > 0 && p(s[0]) {
        lemma_count_prefix(s.drop_first(), p);
        assert forall|j: int| 0 <= j < count_prefix(s, p) implies p(#[trigger] s[j]) by {
            if j > 0 {
                assert(s[j] == s.drop_first()[j - 1]);
            }
        }
    }
}

/// The prefix count is the unique position where `p` first fails.
pub proof fn lemma_count_prefix_at(s: Seq<char>, p: spec_fn(char) -> bool, k: int)
    requires
        0 <= k <= s.len(),
        forall|j: int| 0 <= j < k ==> p(#[trigger] s[j]),
        k == s.len() || !p(s[k]),
    ensures
        count_prefix(s, p) == k,
    decreases s.len(),
{
    if k > 0 {
        assert(p(s[0]));
        assert forall|j: int| 0 <= j < k - 1 implies p(#[trigger] s.drop_first()[j]) by {
            assert(p(s[j + 1]));
        }
        if k < s.len() {
            assert(s.drop_first()[k - 1] == s[k]);
        }
        lemma_count_prefix_at(s.drop_first(), p, k - 1);
    }
}

pub proof fn lemma_count_suffix(s: Seq<char>, p: spec_fn(char) -> bool)
    ensures
        count_suffix(s, p) <= s.len(),
        forall|j: int| s.len() - count_suffix(s, p) <= j < s.len() ==> p(#[trigger] s[j]),
        count_suffix(s, p) < s.len() ==> !p(s[s.len() - count_suffix(s, p) - 1]),
    decreases s.len(),
{
    if s.len() > 0 && p(s.last()) {
        lemma_count_suffix(s.drop_last(), p);
        assert forall|j: int| s.len() - count_suffix(s, p) <= j < s.len() implies p(
            #[trigger] s[j],
        ) by {
            if j < s.len() - 1 {
                assert(s[j] == s.drop_last()[j]);
            }
        }
    }
}

pub proof fn lemma_count_suffix_at(s: Seq<char>, p: spec_fn(char) -> bool, k: int)
    requires
        0 <= k <= s.len(),
        forall|j: int| s.len() - k <= j < s.len() ==> p(#[trigger] s[j]),
        k == s.len() || !p(s[s.len() - k - 1]),
    ensures
        count_suffix(s, p) == k,
    decreases s.len(),
{
    if k > 0 {
        assert(p(s[s.len() - 1]));
        let d = s.drop_last();
        assert forall|j: int| d.len() - (k - 1) <= j < d.len() implies p(#[trigger] d[j]) by {
            assert(p(s[j]));
        }
        if k < s.len() {
            assert(d[d.len() - (k - 1) - 1] == s[s.len() - k - 1]);
        }
        lemma_count_suffix_at(d, p, k - 1);
    }
}

/// The characters of a string slice, in order.
pub fn chars_of(s: &str) -> (v: Vec<char>)
    ensures
        v@ == s@,
{
    let n = s.unicode_len();
    let mut v: Vec<char> = Vec::new();
    let mut i: usize = 0;
    while i < n
        invariant
            n == s@.len(),
            i <= n,
            v@ == s@.take(i as int),
        decreases n - i,
    {
        let c = s.get_char(i);
        v.push(c);
        assert(s@.take(i + 1) =~= s@.take(i as int).push(c));
        i = i + 1;
    }
    assert(s@.take(n as int) =~= s@);
    v
}

/// `String::push` (std): appending `ch` leaves the string's characters
/// followed by `ch`, as its documentation says ("Appends the given char to
/// the end of this String").
pub assume_specification[ String::push ](string: &mut String, ch: char)
    ensures
        final(string)@ == old(string)@.push(ch),
;

/// Appends `v[from..to]` to `out`.
pub fn push_range(out: &mut String, v: &Vec<char>, from: usize, to: usize)
    requires
        from <= to <= v@.len(),
    ensures
        final(out)@ == old(out)@ + v@.subrange(from as int, to as int),
{
    let mut i = from;
    while i < to
        invariant
            from <= i <= to <= v@.len(),
            out@ == old(out)@ + v@.subrange(from as int, i as int),
        decreases to - i,
    {
        out.push(v[i]);
        assert(v@.subrange(from as int, i + 1) =~= v@.subrange(from as int, i as int).push(
            v@[i as int],
        ));
        i = i + 1;
    }
}

/// A new `String` holding `v[from..to]`.
pub fn string_of(v: &Vec<char>, from: usize, to: usize) -> (s: String)
    requires
        from <= to <= v@.len(),
    ensures
        s@ == v@.subrange(from as int, to as int),
{
    let mut s = String::new();
    push_range(&mut s, v, from, to);
    assert(s@ =~= v@.subrange(from as int, to as int));
    s
}

/// Index of the first non-whitespace character of `v[from..to]`, or `to`.
pub fn skip_ws(v: &Vec<char>, from: usize, to: usize) -> (i: usize)
    requires
        from <= to <= v@.len(),
    ensures
        from <= i <= to,
        i == from + count_prefix(v@.subrange(from as int, to as int), ws_pred()),
{
    let mut i = from;
    while i < to && is_whitespace(v[i])
        invariant
            from <= i <= to <= v@.len(),
            forall|j: int| from <= j < i ==> is_ws(#[trigger] v@[j]),
        decreases to - i,
    {
        i = i + 1;
    }
    proof {
        let s = v@.subrange(from as int, to as int);
        lemma_count_prefix_at(s, ws_pred(), i - from);
    }
    i
}

/// Index just past the last non-whitespace character of `v[from..to]`, or `from`.
pub fn trim_end_at(v: &Vec<char>, from: usize, to: usize) -> (e: usize)
    requires
        from <= to <= v@.len(),
    ensures
        from <= e <= to,
        e == to - count_suffix(v@.subrange(from as int, to as int), ws_pred()),
{
    let mut e = to;
    while e > from && is_whitespace(v[e - 1])
        invariant
            from <= e <= to <= v@.len(),
            forall|j: int| e <= j < to ==> is_ws(#[trigger] v@[j]),
        decreases e - from,
    {
        e = e - 1;
    }
    proof {
        let s = v@.subrange(from as int, to as int);
        assert forall|j: int| s.len() - (to - e) <= j < s.len() implies ws_pred()(
            #[trigger] s[j],
        ) by {
            assert(s[j] == v@[from + j]);
        }
        lemma_count_suffix_at(s, ws_pred(), to - e);
    }
    e
}

/// Index just past the run of non-whitespace characters that starts at `from`.
pub fn token_end(v: &Vec<char>, from: usize, to: usize) -> (i: usize)
    requires
        from <= to <= v@.len(),
    ensures
        from <= i <= to,
        i == from + count_prefix(v@.subrange(from as int, to as int), non_ws_pred()),
{
    let mut i = from;
    while i < to && !is_whitespace(v[i])
        invariant
            from <= i <= to <= v@.len(),
            forall|j: int| from <= j < i ==> !is_ws(#[trigger] v@[j]),
        decreases to - i,
    {
        i = i + 1;
    }
    proof {
        let s = v@.subrange(from as int, to as int);
        lemma_count_prefix_at(s, non_ws_pred(), i - from);
    }
    i
}

/// `trim` of `v[from..to]` as a range.
pub fn trim_range(v: &Vec<char>, from: usize, to: usize) -> (r: (usize, usize))
    requires
        from <= to <= v@.len(),
    ensures
        from <= r.0 <= r.1 <= to,
        v@.subrange(r.0 as int, r.1 as int) == trim(v@.subrange(from as int, to as int)),
{
    let s = skip_ws(v, from, to);
    let e = trim_end_at(v, s, to);
    proof {
        let whole = v@.subrange(from as int, to as int);
        assert(trim_start(whole) =~= v@.subrange(s as int, to as int));
        assert(v@.subrange(s as int, e as int) =~= trim_end(v@.subrange(s as int, to as int)));
    }
    (s, e)
}

/// `take_token` on `v[from..to]`, as the token's range; the remainder is `v[r.1..to]`.
pub fn next_token(v: &Vec<char>, from: usize, to: usize) -> (r: Option<(usize, usize)>)
    requires
        from <= to <= v@.len(),
    ensures
        match take_token(v@.subrange(from as int, to as int)) {
            None => r is None,
            Some((tok, rest)) => r matches Some((a, b)) && from <= a < b <= to && tok
                == v@.subrange(a as int, b as int) && rest == v@.subrange(b as int, to as int),
        },
{
    let s = skip_ws(v, from, to);
    proof {
        let whole = v@.subrange(from as int, to as int);
        assert(trim_start(whole) =~= v@.subrange(s as int, to as int));
    }
    if s == to {
        return None;
    }
    let e = token_end(v, s, to);
    proof {
        let t = v@.subrange(s as int, to as int);
        lemma_count_prefix(v@.subrange(from as int, to as int), ws_pred());
        assert(t[0] == v@.subrange(from as int, to as int)[s - from]);
        lemma_count_prefix(t, non_ws_pred());
        assert(!is_ws(t[0]));
        assert(t.take(e - s) =~= v@.subrange(s as int, e as int));
        assert(t.skip(e - s) =~= v@.subrange(e as int, to as int));
    }
    Some((s, e))
}


pub open spec fn not_char(c: char) -> spec_fn(char) -> bool {
    |x: char| x != c
}

/// `str::split` on a single character: the pieces between occurrences of `c`.
pub open spec fn split(s: Seq<char>, c: char) -> Seq<Seq<char>>
    decreases s.len(),
{
    let k = count_prefix(s, not_char(c));
    if k >= s.len() {
        seq![s]
    } else {
        seq![s.take(k as int)] + split(s.skip(k as int + 1), c)
    }
}

/// Index of the first `c` in `v[from..to]`, or `to`.
pub fn find_char(v: &Vec<char>, from: usize, to: usize, c: char) -> (i: usize)
    requires
        from <= to <= v@.len(),
    ensures
        from <= i <= to,
        i == from + count_prefix(v@.subrange(from as int, to as int), not_char(c)),
        i < to ==> v@[i as int] == c,
        forall|j: int| from <= j < i ==> v@[j] != c,
{
    let mut i = from;
    while i < to && v[i] != c
        invariant
            from <= i <= to <= v@.len(),
            forall|j: int| from <= j < i ==> #[trigger] v@[j] != c,
        decreases to - i,
    {
        i = i + 1;
    }
    proof {
        let s = v@.subrange(from as int, to as int);
        assert forall|j: int| 0 <= j < i - from implies not_char(c)(#[trigger] s[j]) by {
            assert(s[j] == v@[from + j]);
        }
        lemma_count_prefix_at(s, not_char(c), i - from);
    }
    i
}

/// One step of `split` over `v[from..to]`, when the first `c` from `from` is at `k`.
pub proof fn lemma_split_step(v: Seq<char>, from: int, to: int, k: int, c: char)
    requires
        0 <= from <= k <= to <= v.len(),
        k == from + count_prefix(v.subrange(from, to), not_char(c)),
    ensures
        k == to ==> split(v.subrange(from, to), c) == seq![v.subrange(from, to)],
        k < to ==> split(v.subrange(from, to), c) == seq![v.subrange(from, k)] + split(
            v.subrange(k + 1, to),
            c,
        ),
{
    let s = v.subrange(from, to);
    if k < to {
        assert(s.take(k - from) =~= v.subrange(from, k));
        assert(s.skip(k - from + 1) =~= v.subrange(k + 1, to));
    }
}

/// An ASCII decimal digit.
pub open spec fn is_digit(c: char) -> bool {
    '0' <= c && c <= '9'
}

pub open spec fn digit_val(c: char) -> nat {
    (c as int - '0' as int) as nat
}

pub open spec fn all_digits(s: Seq<char>) -> bool {
    forall|i: int| 0 <= i < s.len() ==> is_digit(#[trigger] s[i])
}

/// The value of a string of decimal digits.
pub open spec fn digits_value(s: Seq<char>) -> nat
    decreases s.len(),
{
    if s.len() == 0 {
        0
    } else {
        digits_value(s.drop_last()) * 10 + digit_val(s.last())
    }
}

/// `str::parse` for an unsigned integer type whose largest value is `max`:
/// an optional `+`, then one or more ASCII digits, whose value is at most `max`.
pub open spec fn parse_unsigned(s: Seq<char>, max: nat) -> Option<nat> {
    let d = if s.len() > 0 && s[0] == '+' {
        s.drop_first()
    } else {
        s
    };
    if d.len() > 0 && all_digits(d) && digits_value(d) <= max {
        Some(digits_value(d))
    } else {
        None
    }
}

pub proof fn lemma_digits_value_prefix(s: Seq<char>, k: int)
    requires
        0 <= k <= s.len(),
    ensures
        digits_value(s.take(k)) <= digits_value(s),
    decreases s.len(),
{
    if k < s.len() {
        lemma_digits_value_prefix(s.drop_last(), k);
        assert(s.drop_last().take(k) =~= s.take(k));
    } else {
        assert(s.take(k) =~= s);
    }
}

pub proof fn lemma_digits_value_step(s: Seq<char>, k: int)
    requires
        0 <= k < s.len(),
    ensures
        digits_value(s.take(k + 1)) == digits_value(s.take(k)) * 10 + digit_val(s[k]),
{
    assert(s.take(k + 1).drop_last() =~= s.take(k));
}

pub fn digit_value(c: char) -> (d: u32)
    requires
        is_digit(c),
    ensures
        d == digit_val(c),
        d <= 9,
{
    (c as u32) - ('0' as u32)
}

pub fn is_ascii_digit(c: char) -> (b: bool)
    ensures
        b == is_digit(c),
{
    '0' <= c && c <= '9'
}

/// `str::parse::<uN>()` on `v[from..to]`, for the type whose largest value is `max`.
pub fn parse_number(v: &Vec<char>, from: usize, to: usize, max: u64) -> (r: Option<u64>)
    requires
        from <= to <= v@.len(),
        max <= u32::MAX,
    ensures
        match parse_unsigned(v@.subrange(from as int, to as int), max as nat) {
            Some(n) => r == Some(n as u64),
            None => r is None,
        },
{
    let ghost s = v@.subrange(from as int, to as int);
    let mut start = from;
    if from < to && v[from] == '+' {
        start = from + 1;
    }
    let ghost d = v@.subrange(start as int, to as int);
    assert(d =~= (if s.len() > 0 && s[0] == '+' {
        s.drop_first()
    } else {
        s
    }));
    if start == to {
        return None;
    }
    let mut acc: u64 = 0;
    let mut i = start;
    while i < to
        invariant
            from <= start <= i <= to <= v@.len(),
            max <= u32::MAX,
            d == v@.subrange(start as int, to as int),
            s == v@.subrange(from as int, to as int),
            d.len() > 0,
            d == (if s.len() > 0 && s[0] == '+' {
                s.drop_first()
            } else {
                s
            }),
            all_digits(d.take(i - start)),
            acc == digits_value(d.take(i - start)),
            acc <= max,
        decreases to - i,
    {
        let c = v[i];
        if !is_ascii_digit(c) {
            assert(d[i - start] == c);
            assert(!all_digits(d));
            assert(parse_unsigned(s, max as nat) is None);
            return None;
        }
        let dv = digit_value(c);
        proof {
            lemma_digits_value_step(d, i - start);
            assert(d[i - start] == c);
            assert forall|j: int| 0 <= j < i + 1 - start implies is_digit(
                #[trigger] d.take(i + 1 - start)[j],
            ) by {
                if j < i - start {
                    assert(d.take(i + 1 - start)[j] == d.take(i - start)[j]);
                }
            }
        }
        let next = acc * 10 + dv as u64;
        if next > max {
            proof {
                lemma_digits_value_prefix(d, i + 1 - start);
                assert(digits_value(d) > max);
                assert(parse_unsigned(s, max as nat) is None);
            }
            return None;
        }
        acc = next;
        i = i + 1;
    }
    assert(d.take(i - start) =~= d);
    Some(acc)
}

/// The ASCII digit for `n < 10`.
pub open spec fn digit_char(n: nat) -> char {
    ('0' as int + n) as char
}

/// Decimal representation of `n`, as `Display` for unsigned integers writes it.
pub open spec fn decimal(n: nat) -> Seq<char>
    decreases n,
{
    if n < 10 {
        seq![digit_char(n)]
    } else {
        decimal(n / 10).push(digit_char(n % 10))
    }
}

/// Appends the decimal representation of `n`.
pub fn push_decimal(out: &mut String, n: u64)
    ensures
        final(out)@ == old(out)@ + decimal(n as nat),
    decreases n,
{
    if n >= 10 {
        push_decimal(out, n / 10);
    }
    let d = (n % 10) as u32;
    let c = char_from_digit(d);
    out.push(c);
    proof {
        if n >= 10 {
            assert(decimal(n as nat) == decimal((n / 10) as nat).push(digit_char((n % 10) as nat)));
        }
    }
    assert(final(out)@ =~= old(out)@ + decimal(n as nat));
}

pub fn char_from_digit(d: u32) -> (c: char)
    requires
        d < 10,
    ensures
        c == digit_char(d as nat),
{
    if d == 0 {
        '0'
    } else if d == 1 {
        '1'
    } else if d == 2 {
        '2'
    } else if d == 3 {
        '3'
    } else if d == 4 {
        '4'
    } else if d == 5 {
        '5'
    } else if d == 6 {
        '6'
    } else if d == 7 {
        '7'
    } else if d == 8 {
        '8'
    } else {
        '9'
    }
}

pub proof fn lemma_decimal_digits(n: nat)
    ensures
        decimal(n).len() > 0,
        all_digits(decimal(n)),
        digits_value(decimal(n)) == n,
        decimal(n)[0] != '+',
        n > 0 ==> decimal(n)[0] != '0',
    decreases n,
{
    if n >= 10 {
        lemma_decimal_digits(n / 10);
        let d = decimal(n);
        assert(d.drop_last() =~= decimal(n / 10));
        assert(digit_char(n % 10) as int == '0' as int + n % 10);
        assert(digit_val(d.last()) == n % 10);
        assert((n / 10) * 10 + n % 10 == n);
        assert(all_digits(d)) by {
            assert forall|i: int| 0 <= i < d.len() implies is_digit(#[trigger] d[i]) by {
                if i < d.len() - 1 {
                    assert(d[i] == decimal(n / 10)[i]);
                }
            }
        }
        assert(d[0] == decimal(n / 10)[0]);
        assert(digits_value(d) == digits_value(d.drop_last()) * 10 + digit_val(d.last()));
    } else {
        let d = decimal(n);
        assert(digit_char(n) as int == '0' as int + n);
        assert(d.drop_last() =~= Seq::<char>::empty());
        assert(digits_value(d) == digits_value(d.drop_last()) * 10 + digit_val(d.last()));
    }
}

/// Printing a number in decimal and parsing it back gives the number.
pub proof fn lemma_parse_decimal(n: nat, max: nat)
    requires
        n <= max,
    ensures
        parse_unsigned(decimal(n), max) == Some(n),
{
    lemma_decimal_digits(n);
}

} // verus!
