//! Decimal and hexadecimal notation, and the hash that names query variants.
use crate::text;
use vstd::prelude::*;

verus! {

/// The character of a decimal digit.
pub open spec fn digit(d: int) -> char {
    (48 + d) as char
}

/// Whether `c` is an ASCII digit.
pub open spec fn is_digit(c: char) -> bool {
    '0' <= c && c <= '9'
}

/// The decimal notation of `n`.
pub open spec fn decimal(n: nat) -> Seq<char>
    decreases n,
{
    if n < 10 {
        seq![digit(n as int)]
    } else {
        decimal(n / 10).push(digit((n % 10) as int))
    }
}

/// A number in decimal notation is made of digits.
pub proof fn lemma_decimal_is_digits(n: nat)
    ensures
        decimal(n).len() > 0,
        all_digits(decimal(n)),
    decreases n,
{
    if n >= 10 {
        lemma_decimal_is_digits(n / 10);
        let front = decimal(n / 10);
        assert forall|i: int| 0 <= i < decimal(n).len() implies is_digit(
            #[trigger] decimal(n)[i],
        ) by {
            if i < front.len() {
                assert(is_digit(front[i]));
            }
        }
    }
}

/// Different numbers differ in decimal notation.
pub proof fn lemma_decimal_is_injective(m: nat, n: nat)
    requires
        decimal(m) == decimal(n),
    ensures
        m == n,
    decreases m,
{
    if m >= 10 {
        lemma_decimal_is_digits(m / 10);
    }
    if n >= 10 {
        lemma_decimal_is_digits(n / 10);
    }
    assert(decimal(m).last() == digit((m % 10) as int));
    assert(decimal(n).last() == digit((n % 10) as int));
    if m >= 10 {
        assert(decimal(m).drop_last() == decimal(m / 10));
        assert(decimal(n).drop_last() == decimal(n / 10));
        lemma_decimal_is_injective(m / 10, n / 10);
    }
}

/// Whether every character is an ASCII digit.
pub open spec fn all_digits(s: Seq<char>) -> bool {
    forall|i: int| 0 <= i < s.len() ==> is_digit(#[trigger] s[i])
}

/// The number that a sequence of digits denotes.
pub open spec fn value(s: Seq<char>) -> nat
    decreases s.len(),
{
    if s.len() == 0 {
        0
    } else {
        value(s.drop_last()) * 10 + (s.last() as nat - 48) as nat
    }
}

/// The digits of a number with an optional plus sign.
pub open spec fn unsigned_digits(s: Seq<char>) -> Seq<char> {
    if s.len() > 0 && s[0] == '+' {
        s.skip(1)
    } else {
        s
    }
}

/// The number that `s` denotes, if it is at least one digit, perhaps behind a plus sign, and the
/// number is at most `max`.
pub open spec fn parsed_unsigned(s: Seq<char>, max: int) -> Option<int> {
    let d = unsigned_digits(s);
    if d.len() > 0 && all_digits(d) && value(d) <= max {
        Some(value(d) as int)
    } else {
        None
    }
}

/// The hexadecimal notation of `n` with `width` digits.
pub open spec fn hex_digits(n: nat, width: nat) -> Seq<char>
    decreases width,
{
    if width == 0 {
        Seq::empty()
    } else {
        hex_digits(n / 16, (width - 1) as nat).push(hex_digit((n % 16) as int))
    }
}

/// The character of a hexadecimal digit.
pub open spec fn hex_digit(d: int) -> char {
    if d < 10 {
        (48 + d) as char
    } else {
        (87 + d) as char
    }
}

/// The 64-bit FNV-1a hash.
pub open spec fn fnv1a(bytes: Seq<u8>) -> u64
    decreases bytes.len(),
{
    if bytes.len() == 0 {
        0xcbf29ce484222325u64
    } else {
        (fnv1a(bytes.drop_last()) ^ (bytes.last() as u64)).wrapping_mul(0x100000001b3u64)
    }
}

/// The hash of the UTF-8 bytes of a text, in sixteen hexadecimal digits.
pub open spec fn text_hash(s: Seq<char>) -> Seq<char> {
    hex_digits(fnv1a(vstd::utf8::encode_utf8(s)) as nat, 16)
}

/// A prefix of a number's digits denotes no more than the whole.
proof fn lemma_value_prefix(s: Seq<char>, k: int)
    requires
        0 <= k <= s.len(),
        all_digits(s),
    ensures
        value(s.take(k)) <= value(s),
    decreases s.len() - k,
{
    if k == s.len() {
        assert(s.take(k) == s);
    } else {
        lemma_value_prefix(s, k + 1);
        assert(s.take(k + 1).drop_last() == s.take(k));
    }
}

/// The decimal notation of `n`.
pub fn decimal_chars(n: u64) -> (r: Vec<char>)
    ensures
        r@ == decimal(n as nat),
    decreases n,
{
    let last: u8 = (n % 10) as u8;
    let c: char = (48 + last) as char;
    if n < 10 {
        let mut r: Vec<char> = Vec::new();
        r.push(c);
        r
    } else {
        let mut r = decimal_chars(n / 10);
        r.push(c);
        r
    }
}

/// The decimal notation of `n`.
pub fn decimal_string(n: u64) -> (r: String)
    ensures
        r@ == decimal(n as nat),
{
    text::string_of(&decimal_chars(n))
}

/// Reads a number of at most `max`, as `str::parse` does for the unsigned types.
pub fn parse_unsigned(s: &[char], max: u64) -> (r: Option<u64>)
    ensures
        match r {
            Some(n) => parsed_unsigned(s@, max as int) == Some(n as int),
            None => parsed_unsigned(s@, max as int) is None,
        },
{
    let start: usize = if s.len() > 0 && s[0] == '+' {
        1
    } else {
        0
    };
    let ghost d = unsigned_digits(s@);
    proof {
        assert(d == s@.skip(start as int));
    }
    if start == s.len() {
        return None;
    }
    let mut n: u64 = 0;
    let mut i: usize = start;
    while i < s.len()
        invariant
            start <= i <= s@.len(),
            d == s@.skip(start as int),
            all_digits(d.take(i - start)),
            n == value(d.take(i - start)),
            n <= max,
            d == unsigned_digits(s@),
        decreases s@.len() - i,
    {
        let c = s[i];
        assert(d[i - start] == c);
        if !('0' <= c && c <= '9') {
            assert(!is_digit(d[i - start]));
            return None;
        }
        let v: u64 = (c as u8 - 48) as u64;
        proof {
            let next = d.take(i - start + 1);
            assert(next.drop_last() == d.take(i - start));
            assert(next.last() == c);
            assert(value(next) == n * 10 + v);
            if all_digits(d) {
                lemma_value_prefix(d, i - start + 1);
            }
        }
        let scaled: u64 = match n.checked_mul(10) {
            Some(x) => x,
            None => {
                return None;
            },
        };
        n = match scaled.checked_add(v) {
            Some(x) => x,
            None => {
                return None;
            },
        };
        if n > max {
            return None;
        }
        proof {
            assert forall|j: int| 0 <= j < i - start + 1 implies is_digit(#[trigger] d.take(i - start + 1)[j]) by {
                if j < i - start {
                    assert(d.take(i - start)[j] == d[j]);
                }
            }
        }
        i += 1;
    }
    proof {
        assert(d.take(d.len() as int) == d);
    }
    Some(n)
}

/// The hexadecimal notation of `n` with `width` digits.
fn hex_chars(n: u64, width: usize) -> (r: Vec<char>)
    ensures
        r@ == hex_digits(n as nat, width as nat),
    decreases width,
{
    if width == 0 {
        return Vec::new();
    }
    let mut r = hex_chars(n / 16, width - 1);
    let d: u8 = (n % 16) as u8;
    r.push(if d < 10 { (48 + d) as char } else { (87 + d) as char });
    r
}

/// The 64-bit FNV-1a hash.
pub fn fnv1a64(bytes: &[u8]) -> (hash: u64)
    ensures
        hash == fnv1a(bytes@),
{
    let mut hash: u64 = 0xcbf29ce484222325;
    let mut i: usize = 0;
    while i < bytes.len()
        invariant
            i <= bytes@.len(),
            hash == fnv1a(bytes@.take(i as int)),
        decreases bytes@.len() - i,
    {
        hash = (hash ^ (bytes[i] as u64)).wrapping_mul(0x100000001b3);
        i += 1;
        proof {
            assert(bytes@.take(i as int).drop_last() == bytes@.take(i - 1));
        }
    }
    proof {
        assert(bytes@.take(bytes@.len() as int) == bytes@);
    }
    hash
}

/// The hash of a string's bytes, in sixteen hexadecimal digits.
pub fn hash_chars(s: &str) -> (r: Vec<char>)
    ensures
        r@ == text_hash(s@),
{
    hex_chars(fnv1a64(s.as_bytes()), 16)
}

/// A count as far as it fits in a machine word.
pub open spec fn capped(n: nat) -> nat {
    if n <= usize::MAX {
        n
    } else {
        usize::MAX as nat
    }
}

/// Adds to a count, as far as it fits.
pub fn add_capped(a: usize, b: usize) -> (r: usize)
    ensures
        r == capped((a + b) as nat),
{
    if b <= usize::MAX - a {
        a + b
    } else {
        usize::MAX
    }
}

/// What a number is written as.
proof fn lemma_written(n: nat)
    ensures
        decimal(n).len() > 0,
        all_digits(decimal(n)),
        value(decimal(n)) == n,
        decimal(n)[0] != '+',
    decreases n,
{
    if n < 10 {
        let s = decimal(n);
        assert(s.drop_last() == Seq::<char>::empty());
        assert(value(Seq::<char>::empty()) == 0);
        assert(s.last() == digit(n as int));
        assert(s.last() as nat == 48 + n);
    } else {
        lemma_written(n / 10);
        let s = decimal(n);
        let front = decimal(n / 10);
        let d = digit((n % 10) as int);
        assert(s.drop_last() == front);
        assert(s.last() == d);
        assert(d as nat == 48 + n % 10);
        assert forall|i: int| 0 <= i < s.len() implies is_digit(#[trigger] s[i]) by {
            if i < front.len() {
                assert(s[i] == front[i]);
            }
        }
        assert(s[0] == front[0]);
    }
}

/// A number is read as it was written, also behind a plus sign, where it is within the limit; beyond
/// it, it is none.
pub proof fn law_written_numbers_are_read(n: nat, max: int)
    ensures
        parsed_unsigned(decimal(n), max) == if n <= max {
            Some(n as int)
        } else {
            None
        },
        parsed_unsigned(seq!['+'] + decimal(n), max) == if n <= max {
            Some(n as int)
        } else {
            None
        },
{
    lemma_written(n);
    assert((seq!['+'] + decimal(n)).skip(1) == decimal(n));
}

/// A text with another character than digits, but for a plus sign in front, is no number; nor is an
/// empty text, nor a sign alone.
pub proof fn law_other_texts_are_no_numbers(s: Seq<char>, at: int, max: int)
    requires
        0 <= at < s.len(),
        !('0' <= s[at] <= '9'),
        at == 0 ==> s[at] != '+',
    ensures
        parsed_unsigned(s, max) is None,
        parsed_unsigned(Seq::empty(), max) is None,
        parsed_unsigned(seq!['+'], max) is None,
{
    let d = unsigned_digits(s);
    if s[0] == '+' {
        assert(d[at - 1] == s[at]);
    } else {
        assert(d[at] == s[at]);
    }
    assert(seq!['+'].skip(1).len() == 0);
}

/// The hash starts from the offset of 64-bit FNV-1a; each byte is mixed in before the product with the
/// prime.
pub proof fn law_hashes_are_fnv1a(bytes: Seq<u8>, byte: u8)
    ensures
        fnv1a(Seq::empty()) == 0xcbf29ce484222325u64,
        fnv1a(bytes.push(byte)) == (fnv1a(bytes) ^ (byte as u64)).wrapping_mul(0x100000001b3u64),
{
    assert(bytes.push(byte).drop_last() == bytes);
}

} // verus!
