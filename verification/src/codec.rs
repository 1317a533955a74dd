//! The wire format for ticks: a self-describing textual encoding with field
//! names, one object per message:
//!
//! ```text
//! {"symbol":"AAPL","price":100.500,"timestamp":"2024-01-02T03:04:05Z"}
//! ```
//!
//! The price is an unsigned decimal with an optional fraction of one to three
//! digits; it is read as a count of thousandths. The integer part may hold at
//! most sixteen digits, so every accepted price fits in a `u64` count of
//! thousandths. Anything else — other field names or order, escapes, signs,
//! exponents, stray bytes — is rejected as malformed.

use vstd::prelude::*;

use crate::types::{is_plain_char, tick_wf, StockPrice, TickView, MAX_PRICE_MILLI};

verus! {

/// A payload that does not parse as a tick record.
#[derive(Debug, Clone, Copy, PartialEq, Eq, Structural)]
pub struct DecodeError;

pub open spec fn is_digit(c: char) -> bool {
    '0' <= c && c <= '9'
}

pub open spec fn digit_val(c: char) -> int {
    c as int - '0' as int
}

pub open spec fn digit_char(d: int) -> char {
    if d == 0 {
        '0'
    } else if d == 1 {
        '1'
    } else if d == 2 {
        '2'
    } else if d == 3 {
        '3'
    } else if d == 4 {
        '4'
    } else if d == 5 {
        '5'
    } else if d == 6 {
        '6'
    } else if d == 7 {
        '7'
    } else if d == 8 {
        '8'
    } else {
        '9'
    }
}

/// The value of a digit string, most significant digit first.
pub open spec fn dec_value(s: Seq<char>) -> int
    decreases s.len(),
{
    if s.len() == 0 {
        0
    } else {
        dec_value(s.drop_last()) * 10 + digit_val(s.last())
    }
}

pub open spec fn pow10(k: nat) -> int
    decreases k,
{
    if k == 0 {
        1
    } else {
        10 * pow10((k - 1) as nat)
    }
}

/// The canonical digit string of `n`: no sign, no leading zero except for 0.
pub open spec fn dec_digits(n: nat) -> Seq<char>
    decreases n,
{
    if n < 10 {
        seq![digit_char(n as int)]
    } else {
        dec_digits(n / 10) + seq![digit_char((n % 10) as int)]
    }
}

/// First position at or after `from` whose character is not plain, or the end.
pub open spec fn scan_plain(s: Seq<char>, from: int) -> int
    decreases s.len() - from,
{
    if from < 0 || from >= s.len() {
        s.len() as int
    } else if is_plain_char(s[from]) {
        scan_plain(s, from + 1)
    } else {
        from
    }
}

/// First position at or after `from` whose character is not a digit, or the end.
pub open spec fn scan_digits(s: Seq<char>, from: int) -> int
    decreases s.len() - from,
{
    if from < 0 || from >= s.len() {
        s.len() as int
    } else if is_digit(s[from]) {
        scan_digits(s, from + 1)
    } else {
        from
    }
}

/// Thousandths contributed by a fractional digit string of one to three digits.
pub open spec fn frac_value(s: Seq<char>) -> int {
    if s.len() == 1 {
        digit_val(s[0]) * 100
    } else if s.len() == 2 {
        digit_val(s[0]) * 100 + digit_val(s[1]) * 10
    } else {
        digit_val(s[0]) * 100 + digit_val(s[1]) * 10 + digit_val(s[2])
    }
}

pub open spec fn lit_open() -> Seq<char> {
    seq!['{', '"', 's', 'y', 'm', 'b', 'o', 'l', '"', ':', '"']
}

pub open spec fn lit_price() -> Seq<char> {
    seq!['"', ',', '"', 'p', 'r', 'i', 'c', 'e', '"', ':']
}

pub open spec fn lit_ts() -> Seq<char> {
    seq![',', '"', 't', 'i', 'm', 'e', 's', 't', 'a', 'm', 'p', '"', ':', '"']
}

pub open spec fn lit_close() -> Seq<char> {
    seq!['"', '}']
}

/// Whether `pat` occurs in `s` at position `at`.
pub open spec fn match_at(s: Seq<char>, pat: Seq<char>, at: int) -> bool {
    &&& 0 <= at
    &&& at + pat.len() <= s.len()
    &&& s.subrange(at, at + pat.len() as int) == pat
}

/// The price field after the integer digits end at `d`: the thousandths
/// contributed by the fraction, if any, and the position after the number.
pub open spec fn spec_parse_frac(s: Seq<char>, d: int) -> Option<(int, int)> {
    if d < s.len() && s[d] == '.' {
        let e = scan_digits(s, d + 1);
        if e - (d + 1) < 1 || e - (d + 1) > 3 {
            None
        } else {
            Some((frac_value(s.subrange(d + 1, e)), e))
        }
    } else {
        Some((0, d))
    }
}

/// The tick a payload denotes, if it is a well-formed tick record.
pub open spec fn spec_decode(s: Seq<char>) -> Option<TickView> {
    let a = lit_open().len() as int;
    if !match_at(s, lit_open(), 0) {
        None
    } else {
        let b = scan_plain(s, a);
        if b == a {
            None
        } else if !match_at(s, lit_price(), b) {
            None
        } else {
            let c = b + lit_price().len();
            let d = scan_digits(s, c);
            if d == c || d - c > 16 {
                None
            } else {
                let ip = dec_value(s.subrange(c, d));
                match spec_parse_frac(s, d) {
                    None => None,
                    Some((fr, e)) => {
                        if !match_at(s, lit_ts(), e) {
                            None
                        } else {
                            let f = e + lit_ts().len();
                            let g = scan_plain(s, f);
                            if !match_at(s, lit_close(), g) {
                                None
                            } else if g + lit_close().len() != s.len() {
                                None
                            } else {
                                Some(
                                    TickView {
                                        symbol: s.subrange(a, b),
                                        price: (ip * 1000 + fr) as u64,
                                        timestamp: s.subrange(f, g),
                                    },
                                )
                            }
                        }
                    },
                }
            }
        }
    }
}

/// The canonical text of a price in thousandths: integer part, a dot, and
/// exactly three fractional digits.
pub open spec fn price_text(p: u64) -> Seq<char> {
    dec_digits((p / 1000) as nat) + seq!['.'] + seq![
        digit_char(((p / 100) % 10) as int),
        digit_char(((p / 10) % 10) as int),
        digit_char((p % 10) as int),
    ]
}

/// The canonical encoding of a tick.
pub open spec fn spec_encode(t: TickView) -> Seq<char> {
    lit_open() + t.symbol + lit_price() + price_text(t.price) + lit_ts() + t.timestamp
        + lit_close()
}

/// Pins `scan_plain` to the first non-plain position.
pub proof fn lemma_scan_plain_pin(s: Seq<char>, from: int, stop: int)
    requires
        0 <= from <= stop <= s.len(),
        forall|i: int| from <= i < stop ==> is_plain_char(#[trigger] s[i]),
        stop == s.len() || !is_plain_char(s[stop]),
    ensures
        scan_plain(s, from) == stop,
    decreases stop - from,
{
    if from < stop {
        lemma_scan_plain_pin(s, from + 1, stop);
    }
}

/// Pins `scan_digits` to the first non-digit position.
pub proof fn lemma_scan_digits_pin(s: Seq<char>, from: int, stop: int)
    requires
        0 <= from <= stop <= s.len(),
        forall|i: int| from <= i < stop ==> is_digit(#[trigger] s[i]),
        stop == s.len() || !is_digit(s[stop]),
    ensures
        scan_digits(s, from) == stop,
    decreases stop - from,
{
    if from < stop {
        lemma_scan_digits_pin(s, from + 1, stop);
    }
}

pub proof fn lemma_pow10_mono(j: nat, k: nat)
    requires
        j <= k,
    ensures
        0 < pow10(j) <= pow10(k),
    decreases k,
{
    if j < k {
        lemma_pow10_mono(j, (k - 1) as nat);
    } else if k > 0 {
        lemma_pow10_mono((j - 1) as nat, (k - 1) as nat);
    }
}

/// Reading back the character of a digit gives the digit.
pub proof fn lemma_digit_roundtrip(d: int)
    requires
        0 <= d < 10,
    ensures
        is_digit(digit_char(d)),
        digit_val(digit_char(d)) == d,
{
}

/// The canonical digit string is made of digits and reads back to its value.
pub proof fn lemma_dec_digits_value(n: nat)
    ensures
        dec_digits(n).len() >= 1,
        forall|i: int| 0 <= i < dec_digits(n).len() ==> is_digit(#[trigger] dec_digits(n)[i]),
        dec_value(dec_digits(n)) == n,
    decreases n,
{
    if n < 10 {
        lemma_digit_roundtrip(n as int);
        let one = seq![digit_char(n as int)];
        assert(one.drop_last() =~= Seq::<char>::empty());
        assert(dec_value(Seq::<char>::empty()) == 0);
        assert(dec_value(one) == dec_value(one.drop_last()) * 10 + digit_val(one.last()));
    } else {
        lemma_dec_digits_value(n / 10);
        lemma_digit_roundtrip((n % 10) as int);
        let pre = dec_digits(n / 10);
        let whole = pre + seq![digit_char((n % 10) as int)];
        assert(whole.drop_last() =~= pre);
        assert(whole.last() == digit_char((n % 10) as int));
        assert(dec_value(whole) == dec_value(pre) * 10 + digit_val(digit_char((n % 10) as int)));
    }
}

/// Concrete powers of ten the contracts lean on.
pub proof fn lemma_pow10_vals()
    ensures
        pow10(15) == 1_000_000_000_000_000,
        pow10(16) == 10_000_000_000_000_000,
{
    assert(pow10(0) == 1);
    assert(pow10(1) == 10);
    assert(pow10(2) == 100);
    assert(pow10(3) == 1000);
    assert(pow10(4) == 10_000);
    assert(pow10(5) == 100_000);
    assert(pow10(6) == 1_000_000);
    assert(pow10(7) == 10_000_000);
    assert(pow10(8) == 100_000_000);
    assert(pow10(9) == 1_000_000_000);
    assert(pow10(10) == 10_000_000_000);
    assert(pow10(11) == 100_000_000_000);
    assert(pow10(12) == 1_000_000_000_000);
    assert(pow10(13) == 10_000_000_000_000);
    assert(pow10(14) == 100_000_000_000_000);
    assert(pow10(15) == 1_000_000_000_000_000);
    assert(pow10(16) == 10_000_000_000_000_000);
}

/// The canonical digit string of a value under `10^k` has at most `k` digits.
pub proof fn lemma_dec_digits_len(n: nat, k: nat)
    requires
        k >= 1,
        n < pow10(k),
    ensures
        dec_digits(n).len() <= k,
    decreases n,
{
    if n >= 10 {
        lemma_pow10_mono(1, k);
        if (n / 10) < pow10((k - 1) as nat) {
            lemma_dec_digits_len(n / 10, (k - 1) as nat);
        } else {
            // n/10 >= 10^(k-1) would put n at or above 10^k
            assert(n >= (n / 10) * 10) by (nonlinear_arith);
            assert((n / 10) * 10 >= pow10((k - 1) as nat) * 10) by (nonlinear_arith)
                requires (n / 10) >= pow10((k - 1) as nat), pow10((k - 1) as nat) > 0,
            ;
            assert(false);
        }
    }
}

fn is_plain_exec(c: char) -> (b: bool)
    ensures
        b == is_plain_char(c),
{
    let v: u32 = c as u32;
    32 <= v && v <= 126 && c != '"' && c != '\\'
}

fn is_digit_exec(c: char) -> (b: bool)
    ensures
        b == is_digit(c),
{
    let v: u32 = c as u32;
    48 <= v && v <= 57
}

/// Whether `pat` occurs in `s` at position `at`.
fn match_at_exec(s: &str, pat: &str, at: usize) -> (b: bool)
    ensures
        b == match_at(s@, pat@, at as int),
{
    let n: usize = s.unicode_len();
    let m: usize = pat.unicode_len();
    if m > n || at > n - m {
        return false;
    }
    let mut i: usize = 0;
    while i < m
        invariant
            0 <= i <= m,
            at + m <= n,
            n == s@.len(),
            m == pat@.len(),
            forall|j: int| 0 <= j < i ==> s@[at + j] == pat@[j],
        decreases m - i,
    {
        let cs = s.get_char(at + i);
        let cp = pat.get_char(i);
        if cs != cp {
            assert(s@.subrange(at as int, at as int + pat@.len() as int) != pat@) by {
                assert(s@.subrange(at as int, at as int + pat@.len() as int)[i as int] != pat@[
                    i as int
                ]);
            }
            return false;
        }
        i += 1;
    }
    assert(s@.subrange(at as int, at as int + pat@.len() as int) =~= pat@);
    true
}

/// First position at or after `from` whose character is not plain, or the end.
fn scan_plain_exec(s: &str, from: usize) -> (r: usize)
    requires
        from <= s@.len(),
    ensures
        from <= r <= s@.len(),
        r == scan_plain(s@, from as int),
        forall|j: int| from <= j < r ==> is_plain_char(#[trigger] s@[j]),
{
    let n: usize = s.unicode_len();
    let mut i: usize = from;
    loop
        invariant
            from <= i <= n,
            n == s@.len(),
            forall|j: int| from <= j < i ==> is_plain_char(#[trigger] s@[j]),
        ensures
            from <= i <= n,
            i == n || !is_plain_char(s@[i as int]),
            forall|j: int| from <= j < i ==> is_plain_char(#[trigger] s@[j]),
        decreases n - i,
    {
        if i == n {
            break;
        }
        let c = s.get_char(i);
        if !is_plain_exec(c) {
            break;
        }
        i += 1;
    }
    proof {
        lemma_scan_plain_pin(s@, from as int, i as int);
    }
    i
}

/// First position at or after `from` whose character is not a digit, or the end.
fn scan_digits_exec(s: &str, from: usize) -> (r: usize)
    requires
        from <= s@.len(),
    ensures
        from <= r <= s@.len(),
        r == scan_digits(s@, from as int),
        forall|j: int| from <= j < r ==> is_digit(#[trigger] s@[j]),
{
    let n: usize = s.unicode_len();
    let mut i: usize = from;
    loop
        invariant
            from <= i <= n,
            n == s@.len(),
            forall|j: int| from <= j < i ==> is_digit(#[trigger] s@[j]),
        ensures
            from <= i <= n,
            i == n || !is_digit(s@[i as int]),
            forall|j: int| from <= j < i ==> is_digit(#[trigger] s@[j]),
        decreases n - i,
    {
        if i == n {
            break;
        }
        let c = s.get_char(i);
        if !is_digit_exec(c) {
            break;
        }
        i += 1;
    }
    proof {
        lemma_scan_digits_pin(s@, from as int, i as int);
    }
    i
}

/// The numeric value of the digit at position `i`.
fn digit_at(s: &str, i: usize) -> (d: u64)
    requires
        i < s@.len(),
        is_digit(s@[i as int]),
    ensures
        d == digit_val(s@[i as int]),
        d <= 9,
{
    let c = s.get_char(i);
    (c as u32 - 48) as u64
}

/// The value of the digit run `s[from..to]`, most significant digit first.
fn parse_digits_val(s: &str, from: usize, to: usize) -> (v: u64)
    requires
        from <= to <= s@.len(),
        to - from <= 16,
        forall|j: int| from <= j < to ==> is_digit(#[trigger] s@[j]),
    ensures
        v == dec_value(s@.subrange(from as int, to as int)),
        v < 10_000_000_000_000_000,
{
    proof {
        lemma_pow10_vals();
        assert(s@.subrange(from as int, from as int) =~= Seq::<char>::empty());
    }
    let mut i: usize = from;
    let mut acc: u64 = 0;
    while i < to
        invariant
            from <= i <= to,
            to <= s@.len(),
            to - from <= 16,
            forall|j: int| from <= j < to ==> is_digit(#[trigger] s@[j]),
            acc == dec_value(s@.subrange(from as int, i as int)),
            acc < pow10((i - from) as nat),
            pow10(15) == 1_000_000_000_000_000,
            pow10(16) == 10_000_000_000_000_000,
        decreases to - i,
    {
        let d = digit_at(s, i);
        proof {
            lemma_pow10_mono((i - from) as nat, 15);
            assert(pow10((i + 1 - from) as nat) == 10 * pow10((i - from) as nat));
            let sub1 = s@.subrange(from as int, i + 1);
            assert(sub1.drop_last() =~= s@.subrange(from as int, i as int));
            assert(sub1.last() == s@[i as int]);
        }
        acc = acc * 10 + d;
        i += 1;
    }
    proof {
        lemma_pow10_mono((to - from) as nat, 16);
    }
    acc
}

/// Thousandths contributed by the fractional digit run `s[from..to]`.
fn frac_val_exec(s: &str, from: usize, to: usize) -> (v: u64)
    requires
        from <= to <= s@.len(),
        1 <= to - from <= 3,
        forall|j: int| from <= j < to ==> is_digit(#[trigger] s@[j]),
    ensures
        v == frac_value(s@.subrange(from as int, to as int)),
        v <= 999,
{
    let k: usize = to - from;
    let d0 = digit_at(s, from);
    if k == 1 {
        d0 * 100
    } else {
        let d1 = digit_at(s, from + 1);
        if k == 2 {
            d0 * 100 + d1 * 10
        } else {
            let d2 = digit_at(s, from + 2);
            d0 * 100 + d1 * 10 + d2
        }
    }
}

/// Decodes one payload as a tick record.
///
/// Succeeds exactly on the payloads the grammar [`spec_decode`] accepts, and
/// then returns the tick the payload denotes, which is always well-formed.
pub fn decode_tick(payload: &str) -> (r: Result<StockPrice, DecodeError>)
    ensures
        match r {
            Ok(t) => spec_decode(payload@) == Some(t@) && t.wf(),
            Err(_) => spec_decode(payload@) is None,
        },
{
    proof {
        reveal_strlit("{\"symbol\":\"");
        reveal_strlit("\",\"price\":");
        reveal_strlit(",\"timestamp\":\"");
        reveal_strlit("\"}");
        assert(("{\"symbol\":\"")@ =~= lit_open());
        assert(("\",\"price\":")@ =~= lit_price());
        assert((",\"timestamp\":\"")@ =~= lit_ts());
        assert(("\"}")@ =~= lit_close());
    }
    let n: usize = payload.unicode_len();
    if !match_at_exec(payload, "{\"symbol\":\"", 0) {
        return Err(DecodeError);
    }
    let b: usize = scan_plain_exec(payload, 11);
    if b == 11 {
        return Err(DecodeError);
    }
    if !match_at_exec(payload, "\",\"price\":", b) {
        return Err(DecodeError);
    }
    let c: usize = b + 10;
    let d: usize = scan_digits_exec(payload, c);
    if d == c || d - c > 16 {
        return Err(DecodeError);
    }
    let ip: u64 = parse_digits_val(payload, c, d);
    let fr: u64;
    let e: usize;
    if d < n && payload.get_char(d) == '.' {
        let e0: usize = scan_digits_exec(payload, d + 1);
        let k: usize = e0 - (d + 1);
        if k < 1 || k > 3 {
            return Err(DecodeError);
        }
        fr = frac_val_exec(payload, d + 1, e0);
        e = e0;
    } else {
        fr = 0;
        e = d;
    }
    assert(spec_parse_frac(payload@, d as int) == Some((fr as int, e as int)));
    if !match_at_exec(payload, ",\"timestamp\":\"", e) {
        return Err(DecodeError);
    }
    let f: usize = e + 14;
    let g: usize = scan_plain_exec(payload, f);
    if !match_at_exec(payload, "\"}", g) {
        return Err(DecodeError);
    }
    if g + 2 != n {
        return Err(DecodeError);
    }
    let price: u64 = ip * 1000 + fr;
    let symbol: String = payload.substring_char(11, b).to_owned();
    let timestamp: String = payload.substring_char(f, g).to_owned();
    let tick = StockPrice { symbol, price, timestamp };
    proof {
        assert(tick@.symbol =~= payload@.subrange(11, b as int));
        assert(tick@.timestamp =~= payload@.subrange(f as int, g as int));
        lemma_pow10_vals();
        assert(price == (dec_value(payload@.subrange(c as int, d as int)) * 1000 + fr) as u64);
        let sd = spec_decode(payload@);
        assert(sd is Some);
        assert(sd->Some_0 =~= tick@);
        assert(forall|i: int|
            0 <= i < tick@.symbol.len() ==> is_plain_char(#[trigger] tick@.symbol[i]));
        assert(forall|i: int|
            0 <= i < tick@.timestamp.len() ==> is_plain_char(#[trigger] tick@.timestamp[i]));
        assert(tick_wf(tick@));
    }
    Ok(tick)
}

fn digit_str(d: u64) -> (r: &'static str)
    requires
        d < 10,
    ensures
        r@ == seq![digit_char(d as int)],
{
    proof {
        reveal_strlit("0");
        reveal_strlit("1");
        reveal_strlit("2");
        reveal_strlit("3");
        reveal_strlit("4");
        reveal_strlit("5");
        reveal_strlit("6");
        reveal_strlit("7");
        reveal_strlit("8");
        reveal_strlit("9");
    }
    if d == 0 {
        assert(("0")@ =~= seq![digit_char(0)]);
        "0"
    } else if d == 1 {
        assert(("1")@ =~= seq![digit_char(1)]);
        "1"
    } else if d == 2 {
        assert(("2")@ =~= seq![digit_char(2)]);
        "2"
    } else if d == 3 {
        assert(("3")@ =~= seq![digit_char(3)]);
        "3"
    } else if d == 4 {
        assert(("4")@ =~= seq![digit_char(4)]);
        "4"
    } else if d == 5 {
        assert(("5")@ =~= seq![digit_char(5)]);
        "5"
    } else if d == 6 {
        assert(("6")@ =~= seq![digit_char(6)]);
        "6"
    } else if d == 7 {
        assert(("7")@ =~= seq![digit_char(7)]);
        "7"
    } else if d == 8 {
        assert(("8")@ =~= seq![digit_char(8)]);
        "8"
    } else {
        assert(("9")@ =~= seq![digit_char(9)]);
        "9"
    }
}

/// Appends the canonical digit string of `n`.
fn push_digits(out: &mut String, n: u64)
    ensures
        final(out)@ == old(out)@ + dec_digits(n as nat),
    decreases n,
{
    if n < 10 {
        out.append(digit_str(n));
    } else {
        push_digits(out, n / 10);
        out.append(digit_str(n % 10));
        assert(old(out)@ + dec_digits((n / 10) as nat) + seq![digit_char((n % 10) as int)] =~= old(
            out,
        )@ + dec_digits(n as nat));
    }
}

/// Encodes a well-formed tick as its canonical wire text. Never fails.
pub fn encode_tick(t: &StockPrice) -> (r: String)
    requires
        t.wf(),
    ensures
        r@ == spec_encode(t@),
{
    proof {
        reveal_strlit("{\"symbol\":\"");
        reveal_strlit("\",\"price\":");
        reveal_strlit(",\"timestamp\":\"");
        reveal_strlit("\"}");
        reveal_strlit(".");
        assert(("{\"symbol\":\"")@ =~= lit_open());
        assert(("\",\"price\":")@ =~= lit_price());
        assert((",\"timestamp\":\"")@ =~= lit_ts());
        assert(("\"}")@ =~= lit_close());
        assert((".")@ =~= seq!['.']);
    }
    let mut out: String = String::new();
    out.append("{\"symbol\":\"");
    out.append(t.symbol.as_str());
    out.append("\",\"price\":");
    push_digits(&mut out, t.price / 1000);
    out.append(".");
    out.append(digit_str((t.price / 100) % 10));
    out.append(digit_str((t.price / 10) % 10));
    out.append(digit_str(t.price % 10));
    out.append(",\"timestamp\":\"");
    out.append(t.timestamp.as_str());
    out.append("\"}");
    proof {
        assert(out@ =~= spec_encode(t@));
    }
    out
}

/// The round-trip law: decoding the canonical encoding of any well-formed
/// tick yields exactly that tick.
pub proof fn lemma_round_trip(t: TickView)
    requires
        tick_wf(t),
    ensures
        spec_decode(spec_encode(t)) == Some(t),
{
    let s = spec_encode(t);
    let p = t.price;
    let ip = (p / 1000) as nat;
    let digs = dec_digits(ip);
    let fr3 = seq![
        digit_char(((p / 100) % 10) as int),
        digit_char(((p / 10) % 10) as int),
        digit_char((p % 10) as int),
    ];
    lemma_dec_digits_value(ip);
    lemma_pow10_vals();
    lemma_dec_digits_len(ip, 16);
    lemma_digit_roundtrip(((p / 100) % 10) as int);
    lemma_digit_roundtrip(((p / 10) % 10) as int);
    lemma_digit_roundtrip((p % 10) as int);

    let a = 11int;
    let b = a + t.symbol.len() as int;
    let c = b + 10;
    let d = c + digs.len() as int;
    let e = d + 4;
    let f = e + 14;
    let g = f + t.timestamp.len() as int;
    assert(s.len() == g + 2);

    assert(s.subrange(0, 11) =~= lit_open());
    assert(s.subrange(a, b) =~= t.symbol);
    assert(s.subrange(b, c) =~= lit_price());
    assert(s.subrange(c, d) =~= digs);
    assert(s[d] == '.');
    assert(s.subrange(d + 1, e) =~= fr3);
    assert(s.subrange(e, f) =~= lit_ts());
    assert(s.subrange(f, g) =~= t.timestamp);
    assert(s.subrange(g, g + 2) =~= lit_close());

    assert(match_at(s, lit_open(), 0));
    assert(match_at(s, lit_price(), b));
    assert(match_at(s, lit_ts(), e));
    assert(match_at(s, lit_close(), g));

    assert(!is_plain_char('"'));
    lemma_scan_plain_pin(s, a, b);
    assert(!is_digit('.'));
    lemma_scan_digits_pin(s, c, d);
    assert(!is_digit(','));
    lemma_scan_digits_pin(s, d + 1, e);
    assert(!is_plain_char('"'));
    lemma_scan_plain_pin(s, f, g);

    assert(dec_value(s.subrange(c, d)) == ip);
    assert(frac_value(s.subrange(d + 1, e)) == ((p / 100) % 10) * 100 + ((p / 10) % 10) * 10 + (p
        % 10));
    assert(spec_parse_frac(s, d) == Some(
        (((p / 100) % 10) * 100 + ((p / 10) % 10) * 10 + (p % 10), e),
    ));

    // the four-way decimal decomposition of the price
    vstd::arithmetic::div_mod::lemma_fundamental_div_mod(p as int, 10);
    vstd::arithmetic::div_mod::lemma_fundamental_div_mod(p as int / 10, 10);
    vstd::arithmetic::div_mod::lemma_fundamental_div_mod(p as int / 100, 10);
    vstd::arithmetic::div_mod::lemma_div_denominator(p as int, 10, 10);
    vstd::arithmetic::div_mod::lemma_div_denominator(p as int, 100, 10);
    assert(p as int == (p as int / 1000) * 1000 + ((p as int / 100) % 10) * 100 + ((p as int / 10)
        % 10) * 10 + (p as int % 10));

    let sd = spec_decode(s);
    assert(sd is Some);
    assert(sd->Some_0 =~= t);
}

} // verus!
