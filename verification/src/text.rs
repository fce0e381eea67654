//! Text as the monitor writes and reads it: decimal numbers, texts cut at a NUL,
//! UTF-8 and UTF-16.

use vstd::prelude::*;
use vstd::slice::slice_subrange;
use vstd::string::*;
use vstd::utf8;

verus! {

broadcast use vstd::seq_lib::group_seq_properties;

/// The decimal digit for `d`.
pub open spec fn digit(d: nat) -> char {
    (48 + d) as char
}

/// `n` in decimal, without leading zeros.
pub open spec fn decimal(n: nat) -> Seq<char>
    decreases n,
{
    if n < 10 {
        seq![digit(n)]
    } else {
        decimal(n / 10).push(digit(n % 10))
    }
}

/// `n` zeros.
pub open spec fn zeros(n: int) -> Seq<char> {
    Seq::new(if n < 0 { 0 } else { n as nat }, |i: int| '0')
}

/// `n` in decimal, filled up on the left with zeros to at least `width` digits.
pub open spec fn padded(n: nat, width: nat) -> Seq<char> {
    zeros(width - decimal(n).len()) + decimal(n)
}

/// `b` up to, and without, the first `stop`; all of `b` where there is none.
pub open spec fn until<T>(b: Seq<T>, stop: T) -> Seq<T> {
    match b.index_of_first(stop) {
        Some(i) => b.take(i),
        None => b,
    }
}

fn digit_str(d: u64) -> (s: &'static str)
    requires
        d < 10,
    ensures
        s@ == seq![digit(d as nat)],
{
    proof {
        reveal_strlit("0");
        reveal_strlit("1");
        reveal_strlit("2");
        reveal_strlit("3");
        reveal_strlit("4");
        reveal_strlit("5");
        reveal_strlit("6");
        reveal_strlit("7");
        reveal_strlit("8");
        reveal_strlit("9");
    }
    match d {
        0 => "0",
        1 => "1",
        2 => "2",
        3 => "3",
        4 => "4",
        5 => "5",
        6 => "6",
        7 => "7",
        8 => "8",
        _ => "9",
    }
}

/// `n` in decimal.
pub fn decimal_string(n: u64) -> (s: String)
    ensures
        s@ == decimal(n as nat),
    decreases n,
{
    if n < 10 {
        digit_str(n).to_owned()
    } else {
        let mut s = decimal_string(n / 10);
        s.append(digit_str(n % 10));
        s
    }
}

/// The number of characters of `decimal(n)`.
fn decimal_len(n: u64) -> (len: usize)
    ensures
        len == decimal(n as nat).len(),
        1 <= len <= 20,
        n < 10 ==> len == 1,
    decreases n,
{
    proof {
        lemma_decimal_len(n as nat, 20);
    }
    if n < 10 {
        1
    } else {
        let rest: usize = decimal_len(n / 10);
        rest + 1
    }
}

/// `n` in decimal, filled up on the left with zeros to at least `width` digits.
pub fn padded_string(n: u64, width: usize) -> (s: String)
    ensures
        s@ == padded(n as nat, width as nat),
{
    let len: usize = decimal_len(n);
    let mut s = String::new();
    let mut k: usize = len;
    while k < width
        invariant
            len == decimal(n as nat).len(),
            len <= k,
            k <= width || k == len,
            s@ == zeros(k - len),
        decreases width - k,
    {
        s.append("0");
        k = k + 1;
        proof {
            reveal_strlit("0");
            assert(s@ =~= zeros(k - len));
        }
    }
    let d = decimal_string(n);
    s.append(d.as_str());
    s
}

/// Ten to the power `k`.
pub open spec fn pow10(k: nat) -> nat
    decreases k,
{
    if k == 0 {
        1
    } else {
        10 * pow10((k - 1) as nat)
    }
}

/// A number below `10^k` has at most `k` digits, and no number has none.
proof fn lemma_decimal_len(n: nat, k: nat)
    requires
        k > 0,
    ensures
        decimal(n).len() >= 1,
        n < pow10(k) ==> decimal(n).len() <= k,
        pow10(20) > u64::MAX,
    decreases n,
{
    reveal_with_fuel(pow10, 21);
    if n >= 10 {
        lemma_decimal_len(n / 10, if k > 1 { (k - 1) as nat } else { 1 });
    }
}

/// A number of no more than `width` digits fills exactly `width` places.
pub proof fn law_padded_width(n: nat, width: nat)
    requires
        0 < width,
        n < pow10(width),
    ensures
        padded(n, width).len() == width,
{
    lemma_decimal_len(n, width);
}

proof fn lemma_digit(d: nat)
    requires
        d < 10,
    ensures
        digit(d) as u32 == 48 + d,
        '0' <= digit(d) <= '9',
{
}

/// Decimal notation holds digits only.
pub proof fn law_decimal_digits(n: nat)
    ensures
        forall|i: int| 0 <= i < decimal(n).len() ==> '0' <= #[trigger] decimal(n)[i] <= '9',
    decreases n,
{
    lemma_digit(n % 10);
    if n >= 10 {
        law_decimal_digits(n / 10);
        assert forall|i: int| 0 <= i < decimal(n).len() implies '0' <= #[trigger] decimal(n)[i]
            <= '9' by {
            if i < decimal(n).len() - 1 {
                assert(decimal(n)[i] == decimal(n / 10)[i]);
            }
        }
    }
}

/// Two numbers with one decimal notation are one number.
pub proof fn law_decimal_injective(m: nat, n: nat)
    requires
        decimal(m) == decimal(n),
    ensures
        m == n,
    decreases m,
{
    lemma_digit(m % 10);
    lemma_digit(n % 10);
    lemma_decimal_len(m / 10, 1);
    lemma_decimal_len(n / 10, 1);
    assert(decimal(m).last() == digit(m % 10));
    assert(decimal(n).last() == digit(n % 10));
    assert(m % 10 == n % 10);
    assert(m < 10 <==> decimal(m).len() == 1);
    assert(n < 10 <==> decimal(n).len() == 1);
    if m >= 10 {
        assert(decimal(m).drop_last() =~= decimal(m / 10));
    }
    if n >= 10 {
        assert(decimal(n).drop_last() =~= decimal(n / 10));
    }
    if m >= 10 && n >= 10 {
        law_decimal_injective(m / 10, n / 10);
    }
}

/// Where the part before a separator is free of it, the whole has one reading.
pub proof fn lemma_split_first(a: Seq<char>, b: Seq<char>, x: Seq<char>, y: Seq<char>, c: char)
    requires
        !a.contains(c),
        !x.contains(c),
        a + seq![c] + b == x + seq![c] + y,
    ensures
        a == x,
        b == y,
{
    let s = a + seq![c] + b;
    let t = x + seq![c] + y;
    assert(s[a.len() as int] == c);
    assert(t[x.len() as int] == c);
    if a.len() < x.len() {
        assert(x[a.len() as int] == t[a.len() as int]);
    }
    if x.len() < a.len() {
        assert(a[x.len() as int] == s[x.len() as int]);
    }
    assert(a =~= s.take(a.len() as int));
    assert(x =~= t.take(x.len() as int));
    assert(b =~= s.skip(a.len() as int + 1));
    assert(y =~= t.skip(x.len() as int + 1));
}

/// Where the part behind a separator is free of it, the whole has one reading.
pub proof fn lemma_split_last(a: Seq<char>, b: Seq<char>, x: Seq<char>, y: Seq<char>, c: char)
    requires
        !b.contains(c),
        !y.contains(c),
        a + seq![c] + b == x + seq![c] + y,
    ensures
        a == x,
        b == y,
{
    let s = a + seq![c] + b;
    let t = x + seq![c] + y;
    let (h, k) = (a + seq![c], x + seq![c]);
    assert(s.len() == t.len());
    assert(s[a.len() as int] == c);
    assert(t[x.len() as int] == c);
    if a.len() < x.len() {
        let n = x.len() as int;
        assert(h.len() == a.len() + 1);
        assert(t.len() == x.len() + 1 + y.len());
        assert(h.len() <= n < h.len() + b.len());
        assert(t[n] == (h + b)[n]);
        assert(b.contains(b[n - h.len()]));
        assert((h + b)[x.len() as int] == b[x.len() - h.len()]);
    }
    if x.len() < a.len() {
        let n = a.len() as int;
        assert(k.len() == x.len() + 1);
        assert(s.len() == a.len() + 1 + b.len());
        assert(k.len() <= n < k.len() + y.len());
        assert(s[n] == (k + y)[n]);
        assert(y.contains(y[n - k.len()]));
        assert((k + y)[a.len() as int] == y[a.len() - k.len()]);
    }
    assert(a =~= s.take(a.len() as int));
    assert(x =~= t.take(x.len() as int));
    assert(b =~= s.skip(a.len() as int + 1));
    assert(y =~= t.skip(x.len() as int + 1));
}

/// What the bytes `b` read as in UTF-8, with every malformed part replaced.
pub uninterp spec fn utf8_lossy(b: Seq<u8>) -> Seq<char>;

/// `String::from_utf8_lossy`: its text is a function of the bytes, and well-formed
/// UTF-8 is decoded as it stands. Which replacement characters a malformed part
/// turns into is left to the name.
#[verifier::external_body]
fn text_of_utf8(b: &[u8]) -> (s: String)
    ensures
        s@ == utf8_lossy(b@),
        utf8::valid_utf8(b@) ==> s@ == utf8::decode_utf8(b@),
{
    String::from_utf8_lossy(b).into_owned()
}

pub open spec fn is_high_surrogate(u: u16) -> bool {
    0xD800 <= u < 0xDC00
}

pub open spec fn is_low_surrogate(u: u16) -> bool {
    0xDC00 <= u < 0xE000
}

/// The character that a surrogate pair stands for.
pub open spec fn surrogate_pair(high: u16, low: u16) -> char {
    (0x10000 + (high - 0xD800) * 0x400 + (low - 0xDC00)) as char
}

/// What the units `u` read as in UTF-16: a surrogate without its partner reads as
/// the replacement character.
pub open spec fn utf16_lossy(u: Seq<u16>) -> Seq<char>
    decreases u.len(),
{
    if u.len() == 0 {
        Seq::empty()
    } else if !is_high_surrogate(u[0]) && !is_low_surrogate(u[0]) {
        seq![u[0] as char] + utf16_lossy(u.skip(1))
    } else if is_high_surrogate(u[0]) && u.len() >= 2 && is_low_surrogate(u[1]) {
        seq![surrogate_pair(u[0], u[1])] + utf16_lossy(u.skip(2))
    } else {
        seq!['\u{FFFD}'] + utf16_lossy(u.skip(1))
    }
}

/// `String::from_utf16_lossy`: decodes UTF-16, each unpaired surrogate becoming one
/// replacement character.
#[verifier::external_body]
fn text_of_utf16(u: &[u16]) -> (s: String)
    ensures
        s@ == utf16_lossy(u@),
{
    String::from_utf16_lossy(u)
}

/// The lower case of the text `s`.
pub uninterp spec fn lower(s: Seq<char>) -> Seq<char>;

/// The lower case of one ASCII character.
pub open spec fn ascii_lower(c: char) -> char {
    if 'A' <= c <= 'Z' {
        (c as u32 + 32) as char
    } else {
        c
    }
}

/// `s` with its ASCII letters in lower case.
pub open spec fn ascii_lowered(s: Seq<char>) -> Seq<char> {
    s.map_values(|c: char| ascii_lower(c))
}

pub open spec fn all_ascii(s: Seq<char>) -> bool {
    forall|i: int| 0 <= i < s.len() ==> #[trigger] s[i] < '\u{80}'
}

/// `str::to_lowercase`: the result is a function of the text, and an ASCII text is
/// lowered letter by letter. What becomes of other letters is left to the name.
#[verifier::external_body]
pub(crate) fn lowercase(s: &str) -> (r: String)
    ensures
        r@ == lower(s@),
        all_ascii(s@) ==> r@ == ascii_lowered(s@),
{
    s.to_lowercase()
}

/// How many bytes of `b` stand before the first NUL.
fn nul_position(b: &[u8]) -> (n: usize)
    ensures
        n <= b@.len(),
        b@.take(n as int) == until(b@, 0),
{
    let mut n: usize = 0;
    while n < b.len() && b[n] != 0
        invariant
            n <= b@.len(),
            forall|i: int| 0 <= i < n ==> b@[i] != 0,
        decreases b@.len() - n,
    {
        n = n + 1;
    }
    proof {
        lemma_until(b@, 0, n as int);
    }
    n
}

/// How many units of `b` stand before the first NUL.
fn nul_position_wide(b: &[u16]) -> (n: usize)
    ensures
        n <= b@.len(),
        b@.take(n as int) == until(b@, 0),
{
    let mut n: usize = 0;
    while n < b.len() && b[n] != 0
        invariant
            n <= b@.len(),
            forall|i: int| 0 <= i < n ==> b@[i] != 0,
        decreases b@.len() - n,
    {
        n = n + 1;
    }
    proof {
        lemma_until(b@, 0, n as int);
    }
    n
}

proof fn lemma_until<T>(b: Seq<T>, stop: T, n: int)
    requires
        0 <= n <= b.len(),
        forall|i: int| 0 <= i < n ==> b[i] != stop,
        n < b.len() ==> b[n] == stop,
    ensures
        b.take(n) == until(b, stop),
{
    b.index_of_first_ensures(stop);
    if n == b.len() {
        assert(b.take(n) =~= b);
    }
}

/// The text that the system left in the buffer `b`: its bytes up to the first NUL,
/// read as UTF-8.
pub fn buffer_text(b: &[u8]) -> (s: String)
    ensures
        s@ == utf8_lossy(until(b@, 0)),
        utf8::valid_utf8(until(b@, 0)) ==> s@ == utf8::decode_utf8(until(b@, 0)),
{
    let n: usize = nul_position(b);
    text_of_utf8(slice_subrange(b, 0, n))
}

/// The text that the system left in the wide buffer `b`: its units up to the first
/// NUL, read as UTF-16.
pub fn wide_buffer_text(b: &[u16]) -> (s: String)
    ensures
        s@ == utf16_lossy(until(b@, 0)),
{
    let n: usize = nul_position_wide(b);
    text_of_utf16(slice_subrange(b, 0, n))
}

/// One character in UTF-16.
pub open spec fn utf16_units(c: char) -> Seq<u16> {
    if (c as u32) < 0x10000 {
        seq![c as u16]
    } else {
        seq![
            (0xD800 + (c as u32 - 0x10000) / 0x400) as u16,
            (0xDC00 + (c as u32 - 0x10000) % 0x400) as u16,
        ]
    }
}

/// `s` in UTF-16.
pub open spec fn utf16(s: Seq<char>) -> Seq<u16>
    decreases s.len(),
{
    if s.len() == 0 {
        Seq::empty()
    } else {
        utf16(s.drop_last()) + utf16_units(s.last())
    }
}

/// `s` in UTF-16 with a NUL behind it, as the system takes wide text.
pub fn wide_nul(s: &str) -> (w: Vec<u16>)
    ensures
        w@ == utf16(s@).push(0),
{
    let mut w: Vec<u16> = Vec::new();
    let len: usize = s.unicode_len();
    let mut i: usize = 0;
    while i < len
        invariant
            len == s@.len(),
            i <= len,
            w@ == utf16(s@.take(i as int)),
        decreases len - i,
    {
        let c = s.get_char(i);
        let v: u32 = c as u32;
        let ghost before = w@;
        if v < 0x10000 {
            w.push(v as u16);
        } else {
            w.push((0xD800 + (v - 0x10000) / 0x400) as u16);
            w.push((0xDC00 + (v - 0x10000) % 0x400) as u16);
        }
        i = i + 1;
        proof {
            assert(s@.take(i as int).drop_last() =~= s@.take(i - 1));
            assert(w@ =~= before + utf16_units(c));
        }
    }
    proof {
        assert(s@.take(len as int) =~= s@);
    }
    w.push(0);
    w
}

/// The number that the digits `s` write.
pub open spec fn number(s: Seq<char>) -> nat
    decreases s.len(),
{
    if s.len() == 0 {
        0
    } else {
        (10 * number(s.drop_last()) + (s.last() as u32 - '0' as u32)) as nat
    }
}

/// Decimal notation reads back as the number, and begins with a zero only for zero.
pub proof fn law_decimal_reads_back(n: nat)
    ensures
        number(decimal(n)) == n,
        decimal(n).len() > 0,
        decimal(n)[0] == '0' <==> n == 0,
        n < 10 ==> decimal(n).len() == 1,
    decreases n,
{
    lemma_digit(n % 10);
    if n >= 10 {
        law_decimal_reads_back(n / 10);
        assert(decimal(n).drop_last() =~= decimal(n / 10));
        assert(decimal(n)[0] == decimal(n / 10)[0]);
    } else {
        assert(decimal(n).drop_last() =~= Seq::<char>::empty());
        assert(number(Seq::<char>::empty()) == 0);
    }
}

proof fn lemma_leading_zeros(k: nat, s: Seq<char>)
    ensures
        number(zeros(k as int) + s) == number(s),
    decreases k + s.len(),
{
    let t = zeros(k as int) + s;
    if s.len() > 0 {
        assert(t.drop_last() =~= zeros(k as int) + s.drop_last());
        lemma_leading_zeros(k, s.drop_last());
    } else if k > 0 {
        assert(t.drop_last() =~= zeros(k - 1) + s);
        lemma_leading_zeros((k - 1) as nat, s);
    } else {
        assert(t =~= s);
    }
}

/// Padded notation holds digits only, reads back as the number, and is as wide as
/// asked, or as the number needs.
pub proof fn law_padded_reads_back(n: nat, width: nat)
    ensures
        number(padded(n, width)) == n,
        forall|i: int| 0 <= i < padded(n, width).len() ==> '0' <= #[trigger] padded(n, width)[i]
            <= '9',
        padded(n, width).len() == if width > decimal(n).len() {
            width
        } else {
            decimal(n).len()
        },
{
    let d = decimal(n);
    law_decimal_reads_back(n);
    law_decimal_digits(n);
    let k: nat = if width > d.len() { (width - d.len()) as nat } else { 0 };
    assert(padded(n, width) =~= zeros(k as int) + d);
    lemma_leading_zeros(k, d);
    assert forall|i: int| 0 <= i < padded(n, width).len() implies '0' <= #[trigger] padded(
        n,
        width,
    )[i] <= '9' by {
        if i >= k {
            assert(padded(n, width)[i] == d[i - k]);
        }
    }
}

/// What stands before the first stop is a part from the beginning that is free of
/// stops, and all there is unless a stop follows.
pub proof fn law_until<T>(b: Seq<T>, stop: T)
    ensures
        until(b, stop).len() <= b.len(),
        forall|i: int| 0 <= i < until(b, stop).len() ==> #[trigger] until(b, stop)[i] == b[i],
        !until(b, stop).contains(stop),
        until(b, stop).len() < b.len() ==> b[until(b, stop).len() as int] == stop,
{
    b.index_of_first_ensures(stop);
}

proof fn lemma_utf16_front(c: char, s: Seq<char>)
    ensures
        utf16(seq![c] + s) == utf16_units(c) + utf16(s),
    decreases s.len(),
{
    let t = seq![c] + s;
    if s.len() == 0 {
        assert(t.drop_last() =~= Seq::<char>::empty());
        assert(utf16(t.drop_last()) =~= Seq::<u16>::empty());
        assert(utf16(t) =~= utf16_units(c) + utf16(s));
    } else {
        assert(t.drop_last() =~= seq![c] + s.drop_last());
        lemma_utf16_front(c, s.drop_last());
        assert(utf16(t) =~= utf16_units(c) + utf16(s));
    }
}

proof fn lemma_units(c: char, t: Seq<u16>)
    ensures
        utf16_lossy(utf16_units(c) + t) == seq![c] + utf16_lossy(t),
        c != '\0' ==> !utf16_units(c).contains(0),
{
    let u = utf16_units(c) + t;
    let v = c as u32;
    if v < 0x10000 {
        assert(u.skip(1) =~= t);
        assert(u[0] == v);
        assert(u[0] as char == c);
    } else {
        assert(u.skip(2) =~= t);
        let high = (0xD800 + (v - 0x10000) / 0x400) as u16;
        let low = (0xDC00 + (v - 0x10000) % 0x400) as u16;
        assert(u[0] == high && u[1] == low);
        assert(high == 0xD800 + (v - 0x10000) / 0x400);
        assert(low == 0xDC00 + (v - 0x10000) % 0x400);
        assert(surrogate_pair(high, low) == c);
    }
}

/// A text written in UTF-16 reads back as that text.
pub proof fn law_utf16_round_trip(s: Seq<char>)
    ensures
        utf16_lossy(utf16(s)) == s,
    decreases s.len(),
{
    if s.len() > 0 {
        let t = s.skip(1);
        assert(s =~= seq![s[0]] + t);
        lemma_utf16_front(s[0], t);
        law_utf16_round_trip(t);
        lemma_units(s[0], utf16(t));
    }
}

/// A text without NULs holds none in UTF-16.
pub proof fn law_utf16_without_nul(s: Seq<char>)
    requires
        !s.contains('\0'),
    ensures
        !utf16(s).contains(0),
    decreases s.len(),
{
    if s.len() > 0 {
        let c = s.last();
        assert(s[s.len() - 1] == c);
        assert(!s.drop_last().contains('\0')) by {
            if s.drop_last().contains('\0') {
                let i = choose|i: int| 0 <= i < s.len() - 1 && s.drop_last()[i] == '\0';
                assert(s[i] == '\0');
            }
        }
        law_utf16_without_nul(s.drop_last());
        lemma_units(c, Seq::empty());
    }
}

} // verus!
