//! Decimal and hexadecimal numerals, and the few string operations the
//! identifiers are built from.

use vstd::prelude::*;

verus! {

/// The digit for `d` in base 16 (lower case), which for `d < 10` is also
/// the decimal digit.
pub open spec fn digit_char(d: nat) -> char {
    if d < 10 {
        (48 + d) as char
    } else {
        (87 + d) as char
    }
}

/// The numeral of `n` in the given base, without leading zeros ("0" for 0).
pub open spec fn numeral(n: nat, base: nat) -> Seq<char>
    recommends
        base >= 2,
    decreases n,
{
    if base < 2 || n < base {
        seq![digit_char(n)]
    } else {
        proof {
            assert(n / base < n) by (nonlinear_arith)
                requires
                    base >= 2,
                    n >= base,
            ;
        }
        numeral(n / base, base).push(digit_char(n % base))
    }
}

/// Decimal numeral of `n`.
pub open spec fn dec(n: nat) -> Seq<char> {
    numeral(n, 10)
}

/// Lower-case hexadecimal numeral of `n`.
pub open spec fn hex(n: nat) -> Seq<char> {
    numeral(n, 16)
}

fn digit_str(d: u32) -> (s: &'static str)
    requires
        d < 16,
    ensures
        s@ == seq![digit_char(d as nat)],
{
    proof {
        reveal_strlit("0");
        reveal_strlit("1");
        reveal_strlit("2");
        reveal_strlit("3");
        reveal_strlit("4");
        reveal_strlit("5");
        reveal_strlit("6");
        reveal_strlit("7");
        reveal_strlit("8");
        reveal_strlit("9");
        reveal_strlit("a");
        reveal_strlit("b");
        reveal_strlit("c");
        reveal_strlit("d");
        reveal_strlit("e");
        reveal_strlit("f");
    }
    match d {
        0 => "0",
        1 => "1",
        2 => "2",
        3 => "3",
        4 => "4",
        5 => "5",
        6 => "6",
        7 => "7",
        8 => "8",
        9 => "9",
        10 => "a",
        11 => "b",
        12 => "c",
        13 => "d",
        14 => "e",
        _ => "f",
    }
}

/// Appends the numeral of `n` in base 10 or 16 to `s`.
pub fn push_numeral(s: &mut String, n: u64, base: u64)
    requires
        base == 10 || base == 16,
    ensures
        final(s)@ == old(s)@ + numeral(n as nat, base as nat),
    decreases n,
{
    if n >= base {
        push_numeral(s, n / base, base);
    }
    s.append(digit_str((n % base) as u32));
}

/// Appends the decimal numeral of `n` to `s`.
pub fn push_dec(s: &mut String, n: u64)
    ensures
        final(s)@ == old(s)@ + dec(n as nat),
{
    push_numeral(s, n, 10);
}

/// The parts joined with `sep` between each two of them.
pub open spec fn join(parts: Seq<Seq<char>>, sep: Seq<char>) -> Seq<char>
    decreases parts.len(),
{
    if parts.len() == 0 {
        Seq::empty()
    } else if parts.len() == 1 {
        parts[0]
    } else {
        join(parts.drop_last(), sep) + sep + parts.last()
    }
}

/// Joining one more part.
pub proof fn lemma_join_push(parts: Seq<Seq<char>>, sep: Seq<char>, x: Seq<char>)
    ensures
        join(parts.push(x), sep) == (if parts.len() == 0 {
            x
        } else {
            join(parts, sep) + sep + x
        }),
{
    assert(parts.push(x).drop_last() =~= parts);
}

/// Joining splits off the first part.
pub proof fn lemma_join_first(parts: Seq<Seq<char>>, sep: Seq<char>)
    requires
        parts.len() >= 2,
    ensures
        join(parts, sep) == parts[0] + sep + join(parts.drop_first(), sep),
    decreases parts.len(),
{
    if parts.len() == 2 {
        assert(parts.drop_last() =~= seq![parts[0]]);
        assert(parts.drop_first() =~= seq![parts[1]]);
        assert(join(seq![parts[0]], sep) == parts[0]);
        assert(join(seq![parts[1]], sep) == parts[1]);
        assert(join(parts, sep) == join(parts.drop_last(), sep) + sep + parts.last());
    } else {
        let p = parts.drop_last();
        lemma_join_first(p, sep);
        assert(p.drop_first() =~= parts.drop_first().drop_last());
        assert(p[0] == parts[0]);
        assert(parts.drop_first().last() == parts.last());
        let q = parts.drop_first();
        assert(q.len() >= 2);
        assert(join(q, sep) == join(q.drop_last(), sep) + sep + q.last());
        assert(join(parts, sep) == join(p, sep) + sep + parts.last());
        assert(join(parts, sep) =~= parts[0] + sep + join(q, sep));
    }
}

/// The number that a string of decimal digit characters stands for.
pub open spec fn digit_chars_value(s: Seq<char>) -> nat
    decreases s.len(),
{
    if s.len() == 0 {
        0
    } else {
        digit_chars_value(s.drop_last()) * 10 + ((s.last() as int) - 48) as nat
    }
}

/// A decimal numeral is made of digits and reads back as its number.
pub proof fn lemma_dec_value(n: nat)
    ensures
        digit_chars_value(dec(n)) == n,
        dec(n).len() > 0,
        forall|i: int| 0 <= i < dec(n).len() ==> 48 <= (#[trigger] dec(n)[i] as int) <= 57,
    decreases n,
{
    if n >= 10 {
        lemma_dec_value(n / 10);
        let d = digit_char(n % 10);
        assert((d as int) == 48 + n % 10);
        assert(dec(n) == dec(n / 10).push(d));
        assert(dec(n).last() == d);
        assert(dec(n).drop_last() =~= dec(n / 10));
        assert forall|i: int| 0 <= i < dec(n).len() implies 48 <= (#[trigger] dec(n)[i] as int) <= 57 by {
            if i < dec(n).len() - 1 {
                assert(dec(n)[i] == dec(n / 10)[i]);
            }
        }
        assert(digit_chars_value(dec(n)) == digit_chars_value(dec(n / 10)) * 10 + n % 10);
    } else {
        let d = digit_char(n);
        assert((d as int) == 48 + n);
        assert(dec(n) == seq![d]);
        assert(dec(n).drop_last() =~= Seq::<char>::empty());
        assert(digit_chars_value(Seq::<char>::empty()) == 0);
        assert(digit_chars_value(dec(n)) == digit_chars_value(dec(n).drop_last()) * 10 + ((
        dec(n).last() as int) - 48) as nat);
    }
}

/// Different numbers have different numerals.
pub proof fn lemma_dec_injective(a: nat, b: nat)
    requires
        a != b,
    ensures
        dec(a) != dec(b),
{
    lemma_dec_value(a);
    lemma_dec_value(b);
}

/// The UTF-8 encoding of a string.
pub open spec fn utf8(s: Seq<char>) -> Seq<u8> {
    vstd::utf8::encode_utf8(s)
}

/// Every character is ASCII.
pub open spec fn ascii(s: Seq<char>) -> bool {
    vstd::utf8::is_ascii_chars(s)
}

pub proof fn lemma_ascii_concat(a: Seq<char>, b: Seq<char>)
    requires
        ascii(a),
        ascii(b),
    ensures
        ascii(a + b),
{
    assert forall|i: int| 0 <= i < (a + b).len() implies '\0' <= #[trigger] (a + b)[i] <= '\u{7f}' by {
        if i < a.len() {
            assert((a + b)[i] == a[i]);
        } else {
            assert((a + b)[i] == b[i - a.len()]);
        }
    }
}

pub proof fn lemma_numeral_ascii(n: nat, base: nat)
    requires
        2 <= base <= 16,
    ensures
        ascii(numeral(n, base)),
    decreases n,
{
    if n >= base {
        assert(n / base < n) by (nonlinear_arith)
            requires
                base >= 2,
                n >= base,
        ;
        lemma_numeral_ascii(n / base, base);
        let d = digit_char(n % base);
        assert(ascii(seq![d]));
        assert(numeral(n / base, base).push(d) =~= numeral(n / base, base) + seq![d]);
        lemma_ascii_concat(numeral(n / base, base), seq![d]);
    } else {
        assert(ascii(seq![digit_char(n)]));
    }
}

pub proof fn lemma_join_ascii(parts: Seq<Seq<char>>, sep: Seq<char>)
    requires
        forall|i: int| 0 <= i < parts.len() ==> ascii(#[trigger] parts[i]),
        ascii(sep),
    ensures
        ascii(join(parts, sep)),
    decreases parts.len(),
{
    if parts.len() == 0 {
        assert(ascii(Seq::<char>::empty()));
    } else if parts.len() > 1 {
        let p = parts.drop_last();
        assert forall|i: int| 0 <= i < p.len() implies ascii(#[trigger] p[i]) by {
            assert(p[i] == parts[i]);
        }
        lemma_join_ascii(p, sep);
        lemma_ascii_concat(join(p, sep), sep);
        assert(ascii(parts[parts.len() - 1]));
        lemma_ascii_concat(join(p, sep) + sep, parts.last());
    } else {
        assert(ascii(parts[0]));
    }
}

/// What follows the first `c` in `s`, if there is one.
pub open spec fn after_first(s: Seq<char>, c: char) -> Option<Seq<char>>
    decreases s.len(),
{
    if s.len() == 0 {
        None
    } else if s[0] == c {
        Some(s.drop_first())
    } else {
        after_first(s.drop_first(), c)
    }
}

/// What follows the first `-` of an ASCII string, or the whole string where
/// it has none.
pub fn after_first_dash(id: &str) -> (r: String)
    requires
        ascii(id@),
    ensures
        r@ == (match after_first(id@, '-') {
            Some(t) => t,
            None => id@,
        }),
{
    proof {
        vstd::utf8::is_ascii_chars_encode_utf8(id@);
    }
    let n = id.unicode_len();
    let ghost s = id@;
    assert(s.skip(0) =~= s);
    let mut i: usize = 0;
    while i < n
        invariant
            n == s.len(),
            s == id@,
            ascii(s),
            i <= n,
            after_first(s, '-') == after_first(s.skip(i as int), '-'),
        decreases n - i,
    {
        let b = id.get_ascii(i);
        assert(s.skip(i as int)[0] == s[i as int]);
        if b == 45u8 {
            proof {
                assert(s[i as int] == '-') by {
                    assert(s[i as int] as u8 == 45u8);
                    assert('\0' <= s[i as int] <= '\u{7f}');
                }
                assert(s.skip(i as int).drop_first() =~= s.subrange(i + 1, n as int));
            }
            return id.substring_ascii(i + 1, n).to_owned();
        }
        proof {
            assert(s[i as int] != '-');
            assert(s.skip(i as int).drop_first() =~= s.skip(i + 1));
        }
        i = i + 1;
    }
    id.to_owned()
}

pub open spec fn is_digit(c: u8) -> bool {
    48 <= c <= 57
}

pub open spec fn all_digits(s: Seq<u8>) -> bool {
    forall|i: int| 0 <= i < s.len() ==> is_digit(#[trigger] s[i])
}

/// The number that a string of decimal digits stands for.
pub open spec fn digits_value(s: Seq<u8>) -> nat
    decreases s.len(),
{
    if s.len() == 0 {
        0
    } else {
        digits_value(s.drop_last()) * 10 + (s.last() - 48) as nat
    }
}

/// The digits of an unsigned numeral, after an optional leading `+`.
pub open spec fn unsigned_digits(s: Seq<u8>) -> Seq<u8> {
    if s.len() > 0 && s[0] == 43u8 {
        s.drop_first()
    } else {
        s
    }
}

/// An unsigned decimal numeral read the way Rust's `str::parse` reads one
/// for an unsigned type whose largest value is `max`: an optional `+`, then
/// at least one digit and nothing else, and a value that fits.
pub open spec fn parse_unsigned(s: Seq<u8>, max: nat) -> Option<nat> {
    let d = unsigned_digits(s);
    if d.len() > 0 && all_digits(d) && digits_value(d) <= max {
        Some(digits_value(d))
    } else {
        None
    }
}

/// A prefix of a digit string is worth no more than the whole.
pub proof fn lemma_digits_value_prefix(d: Seq<u8>, k: int)
    requires
        all_digits(d),
        0 <= k <= d.len(),
    ensures
        digits_value(d.take(k)) <= digits_value(d),
    decreases d.len(),
{
    if k < d.len() {
        let p = d.drop_last();
        assert(all_digits(p));
        lemma_digits_value_prefix(p, k);
        assert(p.take(k) =~= d.take(k));
    } else {
        assert(d.take(k) =~= d);
    }
}

/// Reads an unsigned decimal numeral from the bytes `start..end` of `b`.
pub fn parse_unsigned_in(b: &[u8], start: usize, end: usize, max: u64) -> (r: Option<u64>)
    requires
        start <= end <= b@.len(),
    ensures
        match parse_unsigned(b@.subrange(start as int, end as int), max as nat) {
            Some(v) => r == Some(v as u64),
            None => r is None,
        },
{
    let ghost s = b@.subrange(start as int, end as int);
    assert(s.len() > 0 ==> s[0] == b@[start as int]);
    let mut i = start;
    if start < end && b[start] == 43u8 {
        i = start + 1;
    }
    let ghost d = unsigned_digits(s);
    assert(d =~= b@.subrange(i as int, end as int));
    if i == end {
        assert(d.len() == 0);
        assert(parse_unsigned(s, max as nat) is None);
        return None;
    }
    let d_start = i;
    let mut value: u64 = 0;
    assert(d.take(0) =~= Seq::<u8>::empty());
    while i < end
        invariant
            d_start <= i <= end <= b@.len(),
            d == b@.subrange(d_start as int, end as int),
            s == b@.subrange(start as int, end as int),
            d == unsigned_digits(s),
            d.len() > 0,
            all_digits(d.take(i - d_start)),
            value == digits_value(d.take(i - d_start)),
            value <= max,
        decreases end - i,
    {
        let c = b[i];
        assert(d[i - d_start] == c);
        if c < 48u8 || c > 57u8 {
            assert(!is_digit(d[i - d_start]));
            assert(!all_digits(d));
            assert(parse_unsigned(s, max as nat) is None);
            return None;
        }
        let k = i - d_start;
        assert(d.take(k + 1).drop_last() =~= d.take(k as int));
        let next: u128 = (value as u128) * 10 + ((c - 48u8) as u128);
        assert(next == digits_value(d.take(k + 1)));
        assert(all_digits(d.take(k + 1)));
        if next > max as u128 {
            proof {
                if all_digits(d) {
                    lemma_digits_value_prefix(d, k + 1);
                }
            }
            return None;
        }
        value = next as u64;
        i = i + 1;
    }
    assert(d.take(end - d_start) =~= d);
    Some(value)
}

/// Byte-wise lexicographic order, a proper prefix coming first; on UTF-8
/// text it is the order of `str`.
pub open spec fn bytes_lt(a: Seq<u8>, b: Seq<u8>) -> bool
    decreases a.len(),
{
    if a.len() == 0 {
        b.len() > 0
    } else if b.len() == 0 {
        false
    } else if a[0] != b[0] {
        a[0] < b[0]
    } else {
        bytes_lt(a.drop_first(), b.drop_first())
    }
}

pub proof fn lemma_bytes_lt_irreflexive(a: Seq<u8>)
    ensures
        !bytes_lt(a, a),
    decreases a.len(),
{
    if a.len() > 0 {
        lemma_bytes_lt_irreflexive(a.drop_first());
    }
}

pub proof fn lemma_bytes_lt_total(a: Seq<u8>, b: Seq<u8>)
    ensures
        a != b ==> (bytes_lt(a, b) || bytes_lt(b, a)),
        !(bytes_lt(a, b) && bytes_lt(b, a)),
    decreases a.len(),
{
    if a.len() > 0 && b.len() > 0 {
        lemma_bytes_lt_total(a.drop_first(), b.drop_first());
        if a[0] == b[0] && a != b {
            assert(a =~= seq![a[0]] + a.drop_first());
            assert(b =~= seq![b[0]] + b.drop_first());
        }
    } else if a.len() == 0 && b.len() == 0 {
        assert(a =~= b);
    }
}

pub proof fn lemma_bytes_lt_transitive(a: Seq<u8>, b: Seq<u8>, c: Seq<u8>)
    requires
        bytes_lt(a, b),
        bytes_lt(b, c),
    ensures
        bytes_lt(a, c),
    decreases a.len(),
{
    if a.len() > 0 && b.len() > 0 && c.len() > 0 && a[0] == b[0] && b[0] == c[0] {
        lemma_bytes_lt_transitive(a.drop_first(), b.drop_first(), c.drop_first());
    }
}

proof fn lemma_bytes_lt_skip(a: Seq<u8>, b: Seq<u8>, i: int)
    requires
        0 <= i < a.len(),
        i < b.len(),
        a[i] == b[i],
    ensures
        bytes_lt(a.skip(i), b.skip(i)) == bytes_lt(a.skip(i + 1), b.skip(i + 1)),
{
    assert(a.skip(i).drop_first() =~= a.skip(i + 1));
    assert(b.skip(i).drop_first() =~= b.skip(i + 1));
}

/// The outcome of comparing two keys.
pub enum KeyOrder {
    Less,
    Equal,
    Greater,
}

/// Compares two strings by their UTF-8 bytes, which is the order of `str`.
pub fn compare_str(a: &str, b: &str) -> (r: KeyOrder)
    ensures
        r is Less <==> bytes_lt(utf8(a@), utf8(b@)),
        r is Equal <==> a@ == b@,
        r is Greater <==> bytes_lt(utf8(b@), utf8(a@)),
{
    broadcast use vstd::utf8::encode_utf8_decode_utf8;

    let x = a.as_bytes();
    let y = b.as_bytes();
    let ghost xs = x@;
    let ghost ys = y@;
    let mut i: usize = 0;
    assert(xs.skip(0) =~= xs);
    assert(ys.skip(0) =~= ys);
    while i < x.len() && i < y.len()
        invariant
            xs == x@,
            ys == y@,
            xs == utf8(a@),
            ys == utf8(b@),
            i <= xs.len(),
            i <= ys.len(),
            xs.take(i as int) =~= ys.take(i as int),
            bytes_lt(xs, ys) == bytes_lt(xs.skip(i as int), ys.skip(i as int)),
            bytes_lt(ys, xs) == bytes_lt(ys.skip(i as int), xs.skip(i as int)),
        decreases xs.len() - i,
    {
        if x[i] < y[i] {
            proof {
                lemma_bytes_lt_total(xs, ys);
            }
            return KeyOrder::Less;
        } else if x[i] > y[i] {
            proof {
                lemma_bytes_lt_total(xs, ys);
            }
            return KeyOrder::Greater;
        }
        proof {
            lemma_bytes_lt_skip(xs, ys, i as int);
            lemma_bytes_lt_skip(ys, xs, i as int);
            assert(xs.take(i + 1) =~= xs.take(i as int).push(xs[i as int]));
            assert(ys.take(i + 1) =~= ys.take(i as int).push(ys[i as int]));
        }
        i = i + 1;
    }
    proof {
        lemma_bytes_lt_total(xs, ys);
        if xs.len() == ys.len() {
            assert(xs =~= xs.take(i as int));
            assert(ys =~= ys.take(i as int));
            vstd::utf8::encode_utf8_decode_utf8(a@);
            vstd::utf8::encode_utf8_decode_utf8(b@);
        }
    }
    if x.len() < y.len() {
        proof {
            assert(xs.skip(i as int).len() == 0);
        }
        KeyOrder::Less
    } else if x.len() > y.len() {
        proof {
            assert(ys.skip(i as int).len() == 0);
        }
        KeyOrder::Greater
    } else {
        KeyOrder::Equal
    }
}

/// String equality.
pub fn str_eq(a: &str, b: &str) -> (r: bool)
    ensures
        r == (a@ == b@),
{
    match compare_str(a, b) {
        KeyOrder::Equal => true,
        _ => false,
    }
}

} // verus!
