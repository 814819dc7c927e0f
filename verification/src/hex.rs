//! Hexadecimal and decimal renderings.

use crate::text;
use crate::text::{append_text, chars_of, chars_trim_end, chars_trim_start, cut, text_of};
use vstd::prelude::*;

verus! {

/// The lower-case hexadecimal digit of a nibble.
pub open spec fn hex_char(n: int) -> char {
    if n < 10 {
        (48 + n) as char
    } else {
        (87 + n) as char
    }
}

/// The lower-case hexadecimal rendering of a byte sequence, two digits a byte.
pub open spec fn hex_of(b: Seq<u8>) -> Seq<char> {
    Seq::new(
        2 * b.len(),
        |i: int|
            if i % 2 == 0 {
                hex_char(b[i / 2] as int / 16)
            } else {
                hex_char(b[i / 2] as int % 16)
            },
    )
}

/// The number that a hexadecimal digit, of either case, stands for.
pub open spec fn digit_value(c: char) -> Option<int> {
    let n = c as int;
    if 48 <= n <= 57 {
        Some(n - 48)
    } else if 97 <= n <= 102 {
        Some(n - 87)
    } else if 65 <= n <= 70 {
        Some(n - 55)
    } else {
        None
    }
}

/// The byte that two characters stand for; a plus sign may stand before a single digit.
pub open spec fn pair_value(a: char, b: char) -> Option<int> {
    match digit_value(b) {
        Some(lo) => if a == '+' {
            Some(lo)
        } else {
            match digit_value(a) {
                Some(hi) => Some(16 * hi + lo),
                None => None,
            }
        },
        None => None,
    }
}

/// Every pair of characters of `s` stands for a byte.
pub open spec fn all_pairs(s: Seq<char>) -> bool {
    forall|k: int| 0 <= 2 * k < s.len() ==> pair_value(#[trigger] s[2 * k], s[2 * k + 1]) is Some
}

/// The bytes that a text of `2 * n` hexadecimal characters stands for.
pub open spec fn bytes_of_hex(s: Seq<char>, n: nat) -> Option<Seq<u8>> {
    if s.len() == 2 * n && all_pairs(s) {
        Some(Seq::new(n, |k: int| pair_value(s[2 * k], s[2 * k + 1])->0 as u8))
    } else {
        None
    }
}

/// Every character of `s` is a hexadecimal digit.
pub open spec fn all_hex_digits(s: Seq<char>) -> bool {
    forall|i: int| 0 <= i < s.len() ==> digit_value(#[trigger] s[i]) is Some
}

/// A digit reads back as the nibble it was made from.
pub proof fn lemma_digit_of_hex_char(n: int)
    requires
        0 <= n < 16,
    ensures
        digit_value(hex_char(n)) == Some(n),
        hex_char(n) != '+',
        hex_char(n) != ':',
{
}

/// Two byte sequences with one rendering are one byte sequence.
pub proof fn lemma_hex_injective(a: Seq<u8>, b: Seq<u8>)
    requires
        hex_of(a) == hex_of(b),
    ensures
        a == b,
{
    assert(hex_of(a).len() == 2 * a.len());
    assert(hex_of(b).len() == 2 * b.len());
    assert forall|k: int| 0 <= k < a.len() implies a[k] == b[k] by {
        assert((2 * k) / 2 == k && (2 * k + 1) / 2 == k);
        assert(hex_of(a)[2 * k] == hex_char(a[k] as int / 16));
        assert(hex_of(a)[2 * k + 1] == hex_char(a[k] as int % 16));
        assert(hex_of(b)[2 * k] == hex_char(b[k] as int / 16));
        assert(hex_of(b)[2 * k + 1] == hex_char(b[k] as int % 16));
        lemma_digit_of_hex_char(a[k] as int / 16);
        lemma_digit_of_hex_char(b[k] as int / 16);
        lemma_digit_of_hex_char(a[k] as int % 16);
        lemma_digit_of_hex_char(b[k] as int % 16);
    }
    assert(a =~= b);
}

/// A rendering reads back as the bytes it was made from.
pub proof fn lemma_hex_reads_back(b: Seq<u8>)
    ensures
        bytes_of_hex(hex_of(b), b.len()) == Some(b),
        all_hex_digits(hex_of(b)),
{
    let s = hex_of(b);
    assert forall|i: int| 0 <= i < s.len() implies digit_value(#[trigger] s[i]) is Some by {
        lemma_digit_of_hex_char(b[i / 2] as int / 16);
        lemma_digit_of_hex_char(b[i / 2] as int % 16);
    }
    assert forall|k: int| 0 <= 2 * k < s.len() implies pair_value(
        #[trigger] s[2 * k],
        s[2 * k + 1],
    ) == Some(b[k] as int) by {
        assert((2 * k) / 2 == k && (2 * k + 1) / 2 == k);
        lemma_digit_of_hex_char(b[k] as int / 16);
        lemma_digit_of_hex_char(b[k] as int % 16);
    }
    assert(bytes_of_hex(s, b.len())->0 =~= b);
}

/// No colon occurs in a rendering.
pub proof fn lemma_hex_has_no_colon(b: Seq<u8>)
    ensures
        !hex_of(b).contains(':'),
{
    assert forall|i: int| 0 <= i < hex_of(b).len() implies hex_of(b)[i] != ':' by {
        lemma_digit_of_hex_char(b[i / 2] as int / 16);
        lemma_digit_of_hex_char(b[i / 2] as int % 16);
    }
}

/// The digit of a nibble.
pub fn hex_digit(n: u8) -> (c: char)
    requires
        n < 16,
    ensures
        c == hex_char(n as int),
{
    if n < 10 {
        (48 + n) as char
    } else {
        (87 + n) as char
    }
}

/// The rendering of a byte slice.
pub fn hex_text(b: &[u8]) -> (r: String)
    ensures
        r@ == hex_of(b@),
{
    let mut out = String::new();
    let mut i: usize = 0;
    while i < b.len()
        invariant
            i <= b.len(),
            out@ == hex_of(b@.take(i as int)),
        decreases b.len() - i,
    {
        out.push(hex_digit(b[i] / 16));
        out.push(hex_digit(b[i] % 16));
        assert(out@ =~= hex_of(b@.take(i + 1)));
        i = i + 1;
    }
    assert(b@.take(b@.len() as int) =~= b@);
    out
}

/// The rendering of a 16-byte id.
pub fn hex16(b: &[u8; 16]) -> (r: String)
    ensures
        r@ == hex_of(b@),
{
    hex_text(b.as_slice())
}

/// The rendering of a 32-byte hash.
pub fn hex32(b: &[u8; 32]) -> (r: String)
    ensures
        r@ == hex_of(b@),
{
    hex_text(b.as_slice())
}

/// The code point of a character.
pub fn code_of(c: char) -> (n: u32)
    ensures
        n == c as int,
{
    c as u32
}

/// The nibble that a digit stands for.
pub fn nibble_of(c: char) -> (r: Option<u8>)
    ensures
        match r {
            Some(n) => n < 16 && digit_value(c) == Some(n as int),
            None => digit_value(c) is None,
        },
{
    let n: u32 = c as u32;
    if 48 <= n && n <= 57 {
        Some((n - 48) as u8)
    } else if 97 <= n && n <= 102 {
        Some((n - 87) as u8)
    } else if 65 <= n && n <= 70 {
        Some((n - 55) as u8)
    } else {
        None
    }
}

/// The byte that two characters stand for.
pub fn byte_of_pair(a: char, b: char) -> (r: Option<u8>)
    ensures
        match r {
            Some(n) => pair_value(a, b) == Some(n as int),
            None => pair_value(a, b) is None,
        },
{
    match nibble_of(b) {
        Some(lo) => if a == '+' {
            Some(lo)
        } else {
            match nibble_of(a) {
                Some(hi) => Some(16 * hi + lo),
                None => None,
            }
        },
        None => None,
    }
}

/// Reads `2 * n` hexadecimal characters.
pub fn parse_hex_bytes(cs: &Vec<char>, n: usize) -> (r: Option<Vec<u8>>)
    requires
        n < 1000,
    ensures
        match r {
            Some(v) => bytes_of_hex(cs@, n as nat) == Some(v@),
            None => bytes_of_hex(cs@, n as nat) is None,
        },
{
    if cs.len() != 2 * n {
        return None;
    }
    let mut out: Vec<u8> = Vec::new();
    let mut k: usize = 0;
    while k < n
        invariant
            n < 1000,
            k <= n,
            cs.len() == 2 * n,
            out.len() == k,
            forall|j: int|
                0 <= j < k ==> pair_value(#[trigger] cs@[2 * j], cs@[2 * j + 1]) == Some(
                    out@[j] as int,
                ),
        decreases n - k,
    {
        match byte_of_pair(cs[2 * k], cs[2 * k + 1]) {
            Some(v) => {
                out.push(v);
            },
            None => {
                assert(pair_value(cs@[2 * (k as int)], cs@[2 * (k as int) + 1]) is None);
                return None;
            },
        }
        k = k + 1;
    }
    assert(bytes_of_hex(cs@, n as nat)->0 =~= out@);
    Some(out)
}

/// The first 16 bytes of `v` as an array.
pub fn array16(v: &Vec<u8>) -> (r: [u8; 16])
    requires
        v.len() == 16,
    ensures
        r@ == v@,
{
    let mut out: [u8; 16] = [0u8; 16];
    let mut i: usize = 0;
    while i < 16
        invariant
            v.len() == 16,
            i <= 16,
            forall|k: int| 0 <= k < i ==> out@[k] == v@[k],
        decreases 16 - i,
    {
        out[i] = v[i];
        i = i + 1;
    }
    assert(out@ =~= v@);
    out
}

/// The first 32 bytes of `v` as an array.
pub fn array32(v: &Vec<u8>) -> (r: [u8; 32])
    requires
        v.len() == 32,
    ensures
        r@ == v@,
{
    let mut out: [u8; 32] = [0u8; 32];
    let mut i: usize = 0;
    while i < 32
        invariant
            v.len() == 32,
            i <= 32,
            forall|k: int| 0 <= k < i ==> out@[k] == v@[k],
        decreases 32 - i,
    {
        out[i] = v[i];
        i = i + 1;
    }
    assert(out@ =~= v@);
    out
}

/// Reads a 16-byte id.
pub fn parse_hex16(s: &str) -> (r: Option<[u8; 16]>)
    ensures
        match r {
            Some(a) => bytes_of_hex(s@, 16) == Some(a@),
            None => bytes_of_hex(s@, 16) is None,
        },
{
    match parse_hex_bytes(&chars_of(s), 16) {
        Some(v) => Some(array16(&v)),
        None => None,
    }
}

/// Reads a 32-byte hash.
pub fn parse_hex32(s: &str) -> (r: Option<[u8; 32]>)
    ensures
        match r {
            Some(a) => bytes_of_hex(s@, 32) == Some(a@),
            None => bytes_of_hex(s@, 32) is None,
        },
{
    match parse_hex_bytes(&chars_of(s), 32) {
        Some(v) => Some(array32(&v)),
        None => None,
    }
}

/// Whether every character is a hexadecimal digit.
pub fn chars_all_hex(cs: &Vec<char>) -> (r: bool)
    ensures
        r == all_hex_digits(cs@),
{
    let mut i: usize = 0;
    while i < cs.len()
        invariant
            i <= cs.len(),
            forall|k: int| 0 <= k < i ==> digit_value(#[trigger] cs@[k]) is Some,
        decreases cs.len() - i,
    {
        if nibble_of(cs[i]).is_none() {
            assert(digit_value(cs@[i as int]) is None);
            return false;
        }
        i = i + 1;
    }
    true
}

/// The id that a text of 32 hexadecimal digits, with white space allowed round it, stands for.
pub open spec fn strict_id(s: Seq<char>) -> Option<Seq<u8>> {
    if text::trimmed(s).len() == 32 && all_hex_digits(text::trimmed(s)) {
        bytes_of_hex(text::trimmed(s), 16)
    } else {
        None
    }
}

/// Reads an id of 32 hexadecimal digits, with white space allowed round it.
pub fn parse_strict_id(s: &str) -> (r: Option<[u8; 16]>)
    ensures
        match r {
            Some(a) => strict_id(s@) == Some(a@),
            None => strict_id(s@) is None,
        },
{
    let t = chars_trim_end(&chars_trim_start(&chars_of(s)));
    if t.len() != 32 || !chars_all_hex(&t) {
        return None;
    }
    match parse_hex_bytes(&t, 16) {
        Some(v) => Some(array16(&v)),
        None => None,
    }
}

/// The decimal digits of `n`, most significant first.
pub open spec fn decimal(n: nat) -> Seq<char>
    decreases n,
{
    if n < 10 {
        seq![hex_char(n as int)]
    } else {
        decimal(n / 10).push(hex_char((n % 10) as int))
    }
}

/// `s` with zeros in front up to the width `w`.
pub open spec fn zero_padded(s: Seq<char>, w: nat) -> Seq<char> {
    if s.len() >= w {
        s
    } else {
        Seq::new((w - s.len()) as nat, |i: int| '0') + s
    }
}

/// The decimal digits of `n`.
pub fn decimal_chars(n: u64) -> (r: Vec<char>)
    ensures
        r@ == decimal(n as nat),
    decreases n,
{
    if n < 10 {
        let mut out: Vec<char> = Vec::new();
        out.push(hex_digit(n as u8));
        assert(out@ =~= decimal(n as nat));
        out
    } else {
        let mut out = decimal_chars(n / 10);
        out.push(hex_digit((n % 10) as u8));
        out
    }
}

/// The decimal rendering of `n`.
pub fn decimal_text(n: u64) -> (r: String)
    ensures
        r@ == decimal(n as nat),
{
    text_of(&decimal_chars(n))
}

/// The decimal rendering of `n` with zeros in front up to the width `w`.
pub fn padded_decimal(n: u64, w: usize) -> (r: String)
    ensures
        r@ == zero_padded(decimal(n as nat), w as nat),
{
    let d = decimal_chars(n);
    let mut out = String::new();
    if d.len() < w {
        let zeros: usize = w - d.len();
        let mut i: usize = 0;
        while i < zeros
            invariant
                i <= zeros,
                out@ == Seq::new(i as nat, |k: int| '0'),
            decreases zeros - i,
        {
            out.push('0');
            assert(out@ =~= Seq::new((i + 1) as nat, |k: int| '0'));
            i = i + 1;
        }
    }
    append_text(&mut out, text_of(&d).as_str());
    assert(out@ =~= zero_padded(decimal(n as nat), w as nat));
    out
}

/// The number that a run of decimal digits stands for.
pub open spec fn decimal_value(s: Seq<char>) -> nat
    decreases s.len(),
{
    if s.len() == 0 {
        0
    } else {
        10 * decimal_value(s.drop_last()) + (s.last() as int - 48) as nat
    }
}

/// Every character of `s` is a decimal digit.
pub open spec fn all_decimal(s: Seq<char>) -> bool {
    forall|i: int| 0 <= i < s.len() ==> 48 <= #[trigger] s[i] as int <= 57
}

/// The digits that remain once a leading plus sign is taken off.
pub open spec fn unsigned_digits(s: Seq<char>) -> Seq<char> {
    if s.len() > 1 && s[0] == '+' {
        s.drop_first()
    } else {
        s
    }
}

/// The unsigned 64-bit number that `s` stands for in decimal.
pub open spec fn decimal_u64(s: Seq<char>) -> Option<u64> {
    let d = unsigned_digits(s);
    if d.len() > 0 && all_decimal(d) && decimal_value(d) <= u64::MAX {
        Some(decimal_value(d) as u64)
    } else {
        None
    }
}

/// Leading digits stand for no more than the whole run.
proof fn lemma_decimal_prefix(s: Seq<char>, k: int)
    requires
        0 <= k <= s.len(),
        all_decimal(s),
    ensures
        decimal_value(s.take(k)) <= decimal_value(s),
    decreases s.len() - k,
{
    if k < s.len() {
        assert(s.take(k + 1).drop_last() =~= s.take(k));
        lemma_decimal_prefix(s, k + 1);
    } else {
        assert(s.take(k) =~= s);
    }
}

/// Reads an unsigned 64-bit number in decimal.
pub fn parse_decimal_u64(cs: &Vec<char>) -> (r: Option<u64>)
    ensures
        r == decimal_u64(cs@),
{
    let start: usize = if cs.len() > 1 && cs[0] == '+' {
        1
    } else {
        0
    };
    let d = cut(cs, start, cs.len());
    assert(d@ =~= unsigned_digits(cs@));
    if d.len() == 0 {
        return None;
    }
    let mut i: usize = 0;
    while i < d.len()
        invariant
            i <= d.len(),
            d@ == unsigned_digits(cs@),
            forall|k: int| 0 <= k < i ==> 48 <= #[trigger] d@[k] as int <= 57,
        decreases d.len() - i,
    {
        let n: u32 = code_of(d[i]);
        if n < 48 || n > 57 {
            assert(!all_decimal(d@)) by {
                assert(!(48 <= d@[i as int] as int <= 57));
            }
            return None;
        }
        i = i + 1;
    }
    let mut v: u64 = 0;
    let mut j: usize = 0;
    while j < d.len()
        invariant
            j <= d.len(),
            all_decimal(d@),
            d@ == unsigned_digits(cs@),
            d.len() > 0,
            v == decimal_value(d@.take(j as int)),
        decreases d.len() - j,
    {
        let digit: u64 = (code_of(d[j]) - 48) as u64;
        proof {
            assert(d@.take(j + 1).drop_last() =~= d@.take(j as int));
            lemma_decimal_prefix(d@, j + 1);
        }
        if v > (u64::MAX - digit) / 10 {
            return None;
        }
        v = v * 10 + digit;
        j = j + 1;
    }
    assert(d@.take(d@.len() as int) =~= d@);
    Some(v)
}

/// A decimal rendering reads back as the number it was made from.
pub proof fn lemma_decimal_reads_back(n: nat)
    ensures
        all_decimal(decimal(n)),
        decimal(n).len() > 0,
        decimal(n)[0] != '+',
        decimal_value(decimal(n)) == n,
    decreases n,
{
    if n < 10 {
        assert(decimal(n).drop_last() =~= Seq::<char>::empty());
        assert(decimal(n).last() == hex_char(n as int));
        assert(decimal_value(decimal(n).drop_last()) == 0);
    } else {
        lemma_decimal_reads_back(n / 10);
        assert(decimal(n).drop_last() =~= decimal(n / 10));
        assert(decimal(n).last() == hex_char((n % 10) as int));
        assert(decimal(n)[0] == decimal(n / 10)[0]);
    }
}

/// Zeros in front change neither the number nor the digits' kind.
pub proof fn lemma_padded_value(s: Seq<char>, w: nat)
    requires
        all_decimal(s),
    ensures
        all_decimal(zero_padded(s, w)),
        decimal_value(zero_padded(s, w)) == decimal_value(s),
    decreases w, s.len(),
{
    if s.len() < w {
        if s.len() == 0 {
            lemma_zeros(w);
            assert(zero_padded(s, w) =~= Seq::new(w, |i: int| '0'));
        } else {
            let p = zero_padded(s, w);
            lemma_padded_value(s.drop_last(), (w - 1) as nat);
            assert(p.drop_last() =~= zero_padded(s.drop_last(), (w - 1) as nat));
            assert(p.last() == s.last());
        }
    }
}

/// A run of zeros stands for zero.
proof fn lemma_zeros(w: nat)
    ensures
        decimal_value(Seq::new(w, |i: int| '0')) == 0,
    decreases w,
{
    if w > 0 {
        lemma_zeros((w - 1) as nat);
        assert(Seq::new(w, |i: int| '0').drop_last() =~= Seq::new((w - 1) as nat, |i: int| '0'));
    }
}

/// Two numbers with one padded rendering are one number.
pub proof fn lemma_padded_injective(a: nat, b: nat, w: nat)
    requires
        zero_padded(decimal(a), w) == zero_padded(decimal(b), w),
    ensures
        a == b,
{
    lemma_decimal_reads_back(a);
    lemma_decimal_reads_back(b);
    lemma_padded_value(decimal(a), w);
    lemma_padded_value(decimal(b), w);
}

/// A padded decimal rendering is read as the number it was made from.
pub proof fn lemma_padded_reads_back(n: u64, w: nat)
    ensures
        decimal_u64(zero_padded(decimal(n as nat), w)) == Some(n),
{
    let d = decimal(n as nat);
    let s = zero_padded(d, w);
    lemma_decimal_reads_back(n as nat);
    lemma_padded_value(d, w);
    if d.len() < w {
        assert(s[0] == '0');
    }
    assert(unsigned_digits(s) == s);
}

/// Ten times itself, `k` times.
pub open spec fn ten_to(k: nat) -> nat
    decreases k,
{
    if k == 0 {
        1
    } else {
        10 * ten_to((k - 1) as nat)
    }
}

/// A small number has few digits.
proof fn lemma_few_digits(n: nat, k: nat)
    requires
        k > 0,
        n < ten_to(k),
    ensures
        decimal(n).len() <= k,
    decreases k,
{
    if n >= 10 {
        if k == 1 {
            reveal_with_fuel(ten_to, 2);
        } else {
            lemma_few_digits(n / 10, (k - 1) as nat);
        }
    }
}

/// A number, padded to twenty places, has twenty digits.
pub proof fn lemma_padded_to_twenty(n: u64)
    ensures
        zero_padded(decimal(n as nat), 20).len() == 20,
        !zero_padded(decimal(n as nat), 20).contains(':'),
{
    reveal_with_fuel(ten_to, 21);
    lemma_few_digits(n as nat, 20);
    lemma_padded_reads_back(n, 20);
    let s = zero_padded(decimal(n as nat), 20);
    let d = unsigned_digits(s);
    assert forall|i: int| 0 <= i < s.len() implies s[i] != ':' by {
        if s == d {
            assert(48 <= s[i] as int <= 57);
        } else if i > 0 {
            assert(d[i - 1] == s[i]);
            assert(48 <= d[i - 1] as int <= 57);
        }
    }
}

} // verus!
