//! Text as sequences of characters: searching, trimming, splitting and case folding.
use vstd::prelude::*;

verus! {

/// Whether `c` has the Unicode `White_Space` property.
pub open spec fn is_white(c: char) -> bool {
    ||| '\u{9}' <= c && c <= '\u{d}'
    ||| c == ' '
    ||| c == '\u{85}'
    ||| c == '\u{a0}'
    ||| c == '\u{1680}'
    ||| '\u{2000}' <= c && c <= '\u{200a}'
    ||| c == '\u{2028}'
    ||| c == '\u{2029}'
    ||| c == '\u{202f}'
    ||| c == '\u{205f}'
    ||| c == '\u{3000}'
}

/// Whether `c` is in the Unicode general category `Cc`.
pub open spec fn is_control(c: char) -> bool {
    c <= '\u{1f}' || ('\u{7f}' <= c && c <= '\u{9f}')
}

/// `char::is_whitespace` tests for the Unicode `White_Space` property.
pub assume_specification[ char::is_whitespace ](c: char) -> (white: bool)
    ensures
        white == is_white(c),
;

/// `char::is_control` tests for the Unicode general category `Cc`.
pub assume_specification[ char::is_control ](c: char) -> (control: bool)
    ensures
        control == is_control(c),
;

/// `String::push` appends one character.
pub assume_specification[ String::push ](buffer: &mut String, c: char)
    ensures
        final(buffer)@ == old(buffer)@.push(c),
;

/// What `String::from_utf8_lossy` makes of bytes.
pub uninterp spec fn utf8_lossy(bytes: Seq<u8>) -> Seq<char>;

/// `String::from_utf8_lossy`. The result is named; bytes that are valid UTF-8 are the encoding of
/// the result.
#[verifier::external_body]
pub(crate) fn decode_lossy(bytes: &[u8]) -> (r: String)
    ensures
        r@ == utf8_lossy(bytes@),
        vstd::utf8::valid_utf8(bytes@) ==> vstd::utf8::encode_utf8(r@) == bytes@,
{
    String::from_utf8_lossy(bytes).into_owned()
}

/// An ASCII capital becomes the small letter; every other character stays.
pub open spec fn lower_char(c: char) -> char {
    if 'A' <= c && c <= 'Z' {
        (c as u32 + 32) as char
    } else {
        c
    }
}

/// The text with every ASCII capital made small.
pub open spec fn lower(s: Seq<char>) -> Seq<char> {
    Seq::new(s.len(), |i: int| lower_char(s[i]))
}

/// The characters of a string.
pub fn chars_of(s: &str) -> (chars: Vec<char>)
    ensures
        chars@ == s@,
{
    let mut chars: Vec<char> = Vec::new();
    for c in it: s.chars()
        invariant
            chars@ == it.seq().take(it.index() as int),
            it.seq() == s@,
    {
        chars.push(c);
    }
    proof {
        assert(s@.take(s@.len() as int) == s@);
    }
    chars
}

/// The string of a sequence of characters.
pub fn string_of(chars: &[char]) -> (s: String)
    ensures
        s@ == chars@,
{
    let mut s = String::new();
    let mut i: usize = 0;
    while i < chars.len()
        invariant
            i <= chars@.len(),
            s@ == chars@.take(i as int),
        decreases chars@.len() - i,
    {
        s.push(chars[i]);
        i += 1;
        proof {
            assert(chars@.take(i as int) == chars@.take(i - 1).push(chars@[i - 1]));
        }
    }
    proof {
        assert(chars@.take(chars@.len() as int) == chars@);
    }
    s
}

/// Makes an ASCII capital small.
pub fn to_lower_char(c: char) -> (r: char)
    ensures
        r == lower_char(c),
{
    if 'A' <= c && c <= 'Z' {
        let code: u8 = c as u8;
        (code + 32) as char
    } else {
        c
    }
}

/// Whether `p` stands in `s` at position `i`.
pub open spec fn at(s: Seq<char>, p: Seq<char>, i: int) -> bool {
    0 <= i && i + p.len() <= s.len() && s.subrange(i, i + p.len()) == p
}

/// The first position at or after `from` where `p` stands in `s`.
pub open spec fn find(s: Seq<char>, p: Seq<char>, from: int) -> Option<int>
    decreases s.len() + 1 - from,
{
    if from < 0 || from + p.len() > s.len() {
        None
    } else if at(s, p, from) {
        Some(from)
    } else {
        find(s, p, from + 1)
    }
}

/// The last position at or before `upto` where `p` stands in `s`.
pub open spec fn rfind(s: Seq<char>, p: Seq<char>, upto: int) -> Option<int>
    decreases upto + 1,
{
    if upto < 0 {
        None
    } else if at(s, p, upto) {
        Some(upto)
    } else {
        rfind(s, p, upto - 1)
    }
}

/// The first position at or after `from` that holds `c`.
pub open spec fn index_of(s: Seq<char>, c: char, from: int) -> Option<int>
    decreases s.len() - from,
{
    if from < 0 || from >= s.len() {
        None
    } else if s[from] == c {
        Some(from)
    } else {
        index_of(s, c, from + 1)
    }
}

/// The last position at or before `upto` that holds `c`.
pub open spec fn rindex_of(s: Seq<char>, c: char, upto: int) -> Option<int>
    decreases upto + 1,
{
    if upto < 0 || upto >= s.len() {
        None
    } else if s[upto] == c {
        Some(upto)
    } else {
        rindex_of(s, c, upto - 1)
    }
}

/// Whether `p` stands somewhere in `s`.
pub open spec fn contains(s: Seq<char>, p: Seq<char>) -> bool {
    find(s, p, 0) is Some
}

/// Whether `s` starts with `p`.
pub open spec fn starts_with(s: Seq<char>, p: Seq<char>) -> bool {
    at(s, p, 0)
}

/// Whether `s` ends with `p`.
pub open spec fn ends_with(s: Seq<char>, p: Seq<char>) -> bool {
    at(s, p, s.len() - p.len())
}

/// Equality up to the case of ASCII letters.
pub open spec fn same_ignoring_case(a: Seq<char>, b: Seq<char>) -> bool {
    lower(a) == lower(b)
}

/// The text without the leading characters that satisfy `p`.
pub open spec fn trim_start_by(s: Seq<char>, p: spec_fn(char) -> bool) -> Seq<char>
    decreases s.len(),
{
    if s.len() > 0 && p(s[0]) {
        trim_start_by(s.drop_first(), p)
    } else {
        s
    }
}

/// The text without the trailing characters that satisfy `p`.
pub open spec fn trim_end_by(s: Seq<char>, p: spec_fn(char) -> bool) -> Seq<char>
    decreases s.len(),
{
    if s.len() > 0 && p(s.last()) {
        trim_end_by(s.drop_last(), p)
    } else {
        s
    }
}

/// The test for white space.
pub open spec fn white() -> spec_fn(char) -> bool {
    |c: char| is_white(c)
}

/// The text without white space at its ends.
pub open spec fn trim(s: Seq<char>) -> Seq<char> {
    trim_end_by(trim_start_by(s, white()), white())
}

/// The test for the character `x`.
pub open spec fn is_char(x: char) -> spec_fn(char) -> bool {
    |c: char| c == x
}

/// The text without the character `x` at its end.
pub open spec fn trim_end_char(s: Seq<char>, x: char) -> Seq<char> {
    trim_end_by(s, is_char(x))
}

/// The text without the character `x` at its start.
pub open spec fn trim_start_char(s: Seq<char>, x: char) -> Seq<char> {
    trim_start_by(s, is_char(x))
}

/// The pieces of `s` between the occurrences of `c`.
pub open spec fn split(s: Seq<char>, c: char) -> Seq<Seq<char>>
    decreases s.len(),
{
    match index_of(s, c, 0) {
        Some(i) => if 0 <= i < s.len() {
            seq![s.take(i)] + split(s.skip(i + 1), c)
        } else {
            seq![s]
        },
        None => seq![s],
    }
}

/// The pieces with `sep` between them.
pub open spec fn join(parts: Seq<Seq<char>>, sep: Seq<char>) -> Seq<char>
    decreases parts.len(),
{
    if parts.len() == 0 {
        Seq::empty()
    } else if parts.len() == 1 {
        parts[0]
    } else {
        join(parts.drop_last(), sep) + sep + parts.last()
    }
}

/// The text with every `from` replaced by `to`.
pub open spec fn replace_char(s: Seq<char>, from: char, to: char) -> Seq<char> {
    Seq::new(s.len(), |i: int| if s[i] == from { to } else { s[i] })
}

/// The views of a sequence of strings.
pub open spec fn views(v: Seq<String>) -> Seq<Seq<char>> {
    Seq::new(v.len(), |i: int| v[i]@)
}

/// Where `index_of` succeeds it gives the position of the character, and there is none before it.
pub proof fn lemma_index_of(s: Seq<char>, c: char, from: int)
    requires
        0 <= from,
    ensures
        index_of(s, c, from) matches Some(i) ==> from <= i < s.len() && s[i] == c,
        index_of(s, c, from) matches Some(i) ==> forall|j: int| from <= j < i ==> s[j] != c,
        index_of(s, c, from) is None ==> forall|j: int| from <= j < s.len() ==> s[j] != c,
    decreases s.len() - from,
{
    if from >= s.len() || s[from] == c {
    } else {
        lemma_index_of(s, c, from + 1);
    }
}

/// Where `rindex_of` succeeds it gives the position of the character, and there is none after it.
pub proof fn lemma_rindex_of(s: Seq<char>, c: char, upto: int)
    requires
        upto < s.len(),
    ensures
        rindex_of(s, c, upto) matches Some(i) ==> 0 <= i <= upto && s[i] == c,
        rindex_of(s, c, upto) matches Some(i) ==> forall|j: int| i < j <= upto ==> s[j] != c,
        rindex_of(s, c, upto) is None ==> forall|j: int| 0 <= j <= upto ==> s[j] != c,
    decreases upto + 1,
{
    if upto < 0 || s[upto] == c {
    } else {
        lemma_rindex_of(s, c, upto - 1);
    }
}

/// Whether two texts are equal.
pub fn equal(a: &[char], b: &[char]) -> (r: bool)
    ensures
        r == (a@ == b@),
{
    if a.len() != b.len() {
        return false;
    }
    let mut i: usize = 0;
    while i < a.len()
        invariant
            i <= a@.len(),
            a@.len() == b@.len(),
            forall|j: int| 0 <= j < i ==> a@[j] == b@[j],
        decreases a@.len() - i,
    {
        if a[i] != b[i] {
            assert(a@[i as int] != b@[i as int]);
            return false;
        }
        i += 1;
    }
    assert(a@ == b@);
    true
}

/// Whether `p` stands in `s` at position `i`.
pub fn is_at(s: &[char], p: &[char], i: usize) -> (r: bool)
    ensures
        r == at(s@, p@, i as int),
{
    if i > s.len() || p.len() > s.len() - i {
        return false;
    }
    let mut j: usize = 0;
    while j < p.len()
        invariant
            j <= p@.len(),
            i + p@.len() <= s@.len(),
            s@.len() <= usize::MAX,
            forall|k: int| 0 <= k < j ==> s@[i + k] == p@[k],
        decreases p@.len() - j,
    {
        if s[i + j] != p[j] {
            proof {
                assert(s@.subrange(i as int, i + p@.len())[j as int] != p@[j as int]);
            }
            return false;
        }
        j += 1;
    }
    proof {
        assert(s@.subrange(i as int, i + p@.len()) == p@);
    }
    true
}

/// The first position at or after `from` where `p` stands in `s`.
pub fn find_from(s: &[char], p: &[char], from: usize) -> (r: Option<usize>)
    ensures
        match r {
            Some(i) => find(s@, p@, from as int) == Some(i as int),
            None => find(s@, p@, from as int) is None,
        },
        r matches Some(i) ==> from <= i && i + p@.len() <= s@.len() && at(s@, p@, i as int),
{
    let mut i: usize = from;
    while i <= s.len() && p.len() <= s.len() - i
        invariant
            from <= i,
            i <= s@.len() + 1 || i == from,
            find(s@, p@, from as int) == find(s@, p@, i as int),
        decreases s@.len() + 1 - i,
    {
        if is_at(s, p, i) {
            return Some(i);
        }
        if i == s.len() {
            proof {
                assert(find(s@, p@, i + 1) is None);
            }
            return None;
        }
        i += 1;
    }
    None
}

/// The last position at or before `upto` where `p` stands in `s`.
pub fn rfind_upto(s: &[char], p: &[char], upto: usize) -> (r: Option<usize>)
    ensures
        match r {
            Some(i) => rfind(s@, p@, upto as int) == Some(i as int),
            None => rfind(s@, p@, upto as int) is None,
        },
        r matches Some(i) ==> i <= upto && i + p@.len() <= s@.len() && at(s@, p@, i as int),
{
    let mut i: usize = upto;
    loop
        invariant
            i <= upto,
            rfind(s@, p@, upto as int) == rfind(s@, p@, i as int),
        decreases i,
    {
        if is_at(s, p, i) {
            return Some(i);
        }
        if i == 0 {
            proof {
                assert(rfind(s@, p@, -1) is None);
            }
            return None;
        }
        i -= 1;
    }
}

/// The first position at or after `from` that holds `c`.
pub fn index_from(s: &[char], c: char, from: usize) -> (r: Option<usize>)
    ensures
        match r {
            Some(i) => index_of(s@, c, from as int) == Some(i as int),
            None => index_of(s@, c, from as int) is None,
        },
        r matches Some(i) ==> from <= i < s@.len() && s@[i as int] == c,
{
    let mut i: usize = from;
    while i < s.len()
        invariant
            from <= i,
            index_of(s@, c, from as int) == index_of(s@, c, i as int),
        decreases s@.len() - i,
    {
        if s[i] == c {
            return Some(i);
        }
        i += 1;
    }
    None
}

/// The last position of `c`.
pub fn last_index(s: &[char], c: char) -> (r: Option<usize>)
    ensures
        match r {
            Some(i) => rindex_of(s@, c, s@.len() - 1) == Some(i as int),
            None => rindex_of(s@, c, s@.len() - 1) is None,
        },
        r matches Some(i) ==> i < s@.len() && s@[i as int] == c,
{
    let mut i: usize = s.len();
    while i > 0
        invariant
            i <= s@.len(),
            rindex_of(s@, c, s@.len() - 1) == rindex_of(s@, c, i - 1),
        decreases i,
    {
        i -= 1;
        if s[i] == c {
            return Some(i);
        }
    }
    None
}

/// The characters from `from` up to `to`.
pub fn part(s: &[char], from: usize, to: usize) -> (r: Vec<char>)
    requires
        from <= to <= s@.len(),
    ensures
        r@ == s@.subrange(from as int, to as int),
{
    let mut r: Vec<char> = Vec::new();
    let mut i: usize = from;
    while i < to
        invariant
            from <= i <= to <= s@.len(),
            r@ == s@.subrange(from as int, i as int),
        decreases to - i,
    {
        r.push(s[i]);
        i += 1;
        proof {
            assert(s@.subrange(from as int, i as int) == s@.subrange(from as int, i - 1).push(s@[i - 1]));
        }
    }
    r
}

/// The text with every ASCII capital made small.
pub fn lower_chars(s: &[char]) -> (r: Vec<char>)
    ensures
        r@ == lower(s@),
{
    let mut r: Vec<char> = Vec::new();
    let mut i: usize = 0;
    while i < s.len()
        invariant
            i <= s@.len(),
            r@ == lower(s@).take(i as int),
        decreases s@.len() - i,
    {
        r.push(to_lower_char(s[i]));
        i += 1;
        proof {
            assert(lower(s@).take(i as int) == lower(s@).take(i - 1).push(lower_char(s@[i - 1])));
        }
    }
    proof {
        assert(lower(s@).take(s@.len() as int) == lower(s@));
    }
    r
}

/// Appends the characters of `more`.
pub fn push_chars(text: &mut Vec<char>, more: &[char])
    ensures
        final(text)@ == old(text)@ + more@,
{
    let mut i: usize = 0;
    while i < more.len()
        invariant
            i <= more@.len(),
            text@ == old(text)@ + more@.take(i as int),
        decreases more@.len() - i,
    {
        text.push(more[i]);
        i += 1;
        proof {
            assert(more@.take(i as int) == more@.take(i - 1).push(more@[i - 1]));
        }
    }
    proof {
        assert(more@.take(more@.len() as int) == more@);
    }
}

/// Appends the characters of a string.
pub fn push_text(text: &mut Vec<char>, more: &str)
    ensures
        final(text)@ == old(text)@ + more@,
{
    let chars = chars_of(more);
    push_chars(text, &chars);
}

/// Whether two strings are equal.
pub fn same(a: &str, b: &str) -> (r: bool)
    ensures
        r == (a@ == b@),
{
    equal(&chars_of(a), &chars_of(b))
}

/// Whether a text is the given string.
pub fn is(a: &[char], b: &str) -> (r: bool)
    ensures
        r == (a@ == b@),
{
    let mut n: usize = 0;
    for c in it: b.chars()
        invariant
            n == it.index(),
            n <= a@.len(),
            it.seq() == b@,
            forall|j: int| 0 <= j < n ==> a@[j] == b@[j],
    {
        if n >= a.len() || a[n] != c {
            proof {
                if a@ == b@ {
                    assert(a@[n as int] == b@[n as int]);
                }
            }
            return false;
        }
        n += 1;
    }
    proof {
        if n == a@.len() {
            assert(a@ == b@);
        }
    }
    n == a.len()
}

/// The string with every ASCII capital made small.
pub fn lowered(s: &str) -> (r: String)
    ensures
        r@ == lower(s@),
{
    string_of(&lower_chars(&chars_of(s)))
}

/// Whether two strings are equal up to the case of ASCII letters.
pub fn equal_ignoring_case(a: &str, b: &str) -> (r: bool)
    ensures
        r == same_ignoring_case(a@, b@),
{
    equal(&lower_chars(&chars_of(a)), &lower_chars(&chars_of(b)))
}

/// Whether `s` starts with `p`.
pub fn has_prefix(s: &str, p: &str) -> (r: bool)
    ensures
        r == starts_with(s@, p@),
{
    is_at(&chars_of(s), &chars_of(p), 0)
}

/// Whether `s` ends with `p`.
pub fn has_suffix(s: &str, p: &str) -> (r: bool)
    ensures
        r == ends_with(s@, p@),
{
    let a = chars_of(s);
    let b = chars_of(p);
    if b.len() > a.len() {
        return false;
    }
    is_at(&a, &b, a.len() - b.len())
}

/// Whether `p` stands somewhere in `s`.
pub fn has(s: &str, p: &str) -> (r: bool)
    ensures
        r == contains(s@, p@),
{
    find_from(&chars_of(s), &chars_of(p), 0).is_some()
}

/// The string of the characters from `from` up to `to`.
pub fn cut_string(s: &[char], from: usize, to: usize) -> (r: String)
    requires
        from <= to <= s@.len(),
    ensures
        r@ == s@.subrange(from as int, to as int),
{
    string_of(&part(s, from, to))
}

/// Two strings, one after the other.
pub fn concat(a: &str, b: &str) -> (r: String)
    ensures
        r@ == a@ + b@,
{
    let mut chars = chars_of(a);
    push_text(&mut chars, b);
    string_of(&chars)
}

/// Trimming at the start keeps a suffix.
pub proof fn lemma_trim_start_by(s: Seq<char>, p: spec_fn(char) -> bool, k: int)
    requires
        0 <= k <= s.len(),
        forall|i: int| 0 <= i < k ==> p(#[trigger] s[i]),
        k == s.len() || !p(s[k]),
    ensures
        trim_start_by(s, p) == s.skip(k),
    decreases k,
{
    if k > 0 {
        assert(p(s[0]));
        assert(s.drop_first().skip(k - 1) == s.skip(k));
        assert forall|i: int| 0 <= i < k - 1 implies p(#[trigger] s.drop_first()[i]) by {
            assert(p(s[i + 1]));
        }
        lemma_trim_start_by(s.drop_first(), p, k - 1);
    } else {
        assert(s.skip(0) == s);
    }
}

/// Trimming at the end keeps a prefix.
pub proof fn lemma_trim_end_by(s: Seq<char>, p: spec_fn(char) -> bool, k: int)
    requires
        0 <= k <= s.len(),
        forall|i: int| k <= i < s.len() ==> p(#[trigger] s[i]),
        k == 0 || !p(s[k - 1]),
    ensures
        trim_end_by(s, p) == s.take(k),
    decreases s.len() - k,
{
    if k < s.len() {
        assert(p(s[s.len() - 1]));
        assert(s.drop_last().take(k) == s.take(k));
        lemma_trim_end_by(s.drop_last(), p, k);
    } else {
        assert(s.take(k) == s);
    }
}

/// The text without white space at its ends.
pub fn trim_chars(s: &[char]) -> (r: Vec<char>)
    ensures
        r@ == trim(s@),
{
    let mut i: usize = 0;
    while i < s.len() && s[i].is_whitespace()
        invariant
            i <= s@.len(),
            forall|k: int| 0 <= k < i ==> is_white(#[trigger] s@[k]),
        decreases s@.len() - i,
    {
        i += 1;
    }
    let mut j: usize = s.len();
    while j > i && s[j - 1].is_whitespace()
        invariant
            i <= j <= s@.len(),
            forall|k: int| j <= k < s@.len() ==> is_white(#[trigger] s@[k]),
        decreases j,
    {
        j -= 1;
    }
    proof {
        let p = white();
        lemma_trim_start_by(s@, p, i as int);
        let t = s@.skip(i as int);
        assert forall|k: int| j - i <= k < t.len() implies p(#[trigger] t[k]) by {
            assert(is_white(s@[k + i]));
        }
        lemma_trim_end_by(t, p, j - i);
        assert(t.take(j - i) == s@.subrange(i as int, j as int));
    }
    part(s, i, j)
}

/// The string without white space at its ends.
pub fn trimmed(s: &str) -> (r: String)
    ensures
        r@ == trim(s@),
{
    string_of(&trim_chars(&chars_of(s)))
}

/// The text without the character `x` at its end.
pub fn trim_end_chars(s: &[char], x: char) -> (r: Vec<char>)
    ensures
        r@ == trim_end_char(s@, x),
{
    let mut j: usize = s.len();
    while j > 0 && s[j - 1] == x
        invariant
            j <= s@.len(),
            forall|k: int| j <= k < s@.len() ==> #[trigger] s@[k] == x,
        decreases j,
    {
        j -= 1;
    }
    proof {
        let p = is_char(x);
        assert forall|k: int| j <= k < s@.len() implies p(#[trigger] s@[k]) by {}
        lemma_trim_end_by(s@, p, j as int);
    }
    part(s, 0, j)
}

/// The text without the character `x` at its start.
pub fn trim_start_chars(s: &[char], x: char) -> (r: Vec<char>)
    ensures
        r@ == trim_start_char(s@, x),
{
    let mut i: usize = 0;
    while i < s.len() && s[i] == x
        invariant
            i <= s@.len(),
            forall|k: int| 0 <= k < i ==> #[trigger] s@[k] == x,
        decreases s@.len() - i,
    {
        i += 1;
    }
    proof {
        let p = is_char(x);
        assert forall|k: int| 0 <= k < i implies p(#[trigger] s@[k]) by {}
        lemma_trim_start_by(s@, p, i as int);
        assert(s@.skip(i as int) == s@.subrange(i as int, s@.len() as int));
    }
    part(s, i, s.len())
}


/// The leading word of `s` ends at its first white space.
pub open spec fn word_end(s: Seq<char>, from: int) -> int
    decreases s.len() - from,
{
    if from < 0 || from >= s.len() || is_white(s[from]) {
        from
    } else {
        word_end(s, from + 1)
    }
}

/// The words of `s` from position `from` on: the longest pieces without white space.
pub open spec fn words(s: Seq<char>, from: int) -> Seq<Seq<char>>
    decreases s.len() - from,
{
    if from < 0 || from >= s.len() {
        Seq::empty()
    } else if is_white(s[from]) {
        words(s, from + 1)
    } else if from < word_end(s, from) <= s.len() {
        seq![s.subrange(from, word_end(s, from))] + words(s, word_end(s, from))
    } else {
        Seq::empty()
    }
}

/// A word ends after it starts, within the text.
pub proof fn lemma_word_end(s: Seq<char>, from: int)
    requires
        0 <= from <= s.len(),
    ensures
        from <= word_end(s, from) <= s.len(),
        from < s.len() && !is_white(s[from]) ==> from < word_end(s, from),
        forall|j: int| from <= j < word_end(s, from) ==> !is_white(#[trigger] s[j]),
    decreases s.len() - from,
{
    if from < s.len() && !is_white(s[from]) {
        lemma_word_end(s, from + 1);
    }
}

/// The words of a text.
pub fn split_words(s: &[char]) -> (r: Vec<String>)
    ensures
        views(r@) == words(s@, 0),
{
    let mut r: Vec<String> = Vec::new();
    let mut i: usize = 0;
    while i < s.len()
        invariant
            i <= s@.len(),
            views(r@) + words(s@, i as int) == words(s@, 0),
        decreases s@.len() - i,
    {
        if s[i].is_whitespace() {
            i += 1;
        } else {
            let start: usize = i;
            proof {
                lemma_word_end(s@, i as int);
            }
            while i < s.len() && !s[i].is_whitespace()
                invariant
                    start <= i <= s@.len(),
                    word_end(s@, start as int) == word_end(s@, i as int),
                decreases s@.len() - i,
            {
                i += 1;
            }
            let word = cut_string(s, start, i);
            let ghost before = views(r@);
            r.push(word);
            proof {
                assert(views(r@) == before.push(word@));
                let rest = words(s@, i as int);
                assert(words(s@, start as int) == seq![word@] + rest);
                assert(before + (seq![word@] + rest) == before.push(word@) + rest);
            }
        }
    }
    r
}

/// The pieces of a text between the occurrences of `c`.
pub fn split_at_char(s: &[char], c: char) -> (r: Vec<String>)
    ensures
        views(r@) == split(s@, c),
        r@.len() >= 1,
{
    let mut r: Vec<String> = Vec::new();
    let mut start: usize = 0;
    let n: usize = s.len();
    proof {
        assert(s@.skip(0) == s@);
    }
    loop
        invariant
            start <= s@.len(),
            n == s@.len(),
            views(r@) + split(s@.skip(start as int), c) == split(s@, c),
        decreases s@.len() - start,
    {
        let ghost rest = s@.skip(start as int);
        proof {
            lemma_index_of(s@, c, start as int);
            lemma_index_of_skip(s@, c, start as int);
        }
        match index_from(s, c, start) {
            Some(i) => {
                let piece = cut_string(s, start, i);
                let ghost before = views(r@);
                r.push(piece);
                proof {
                    let k = i - start;
                    assert(rest.take(k) == piece@);
                    assert(rest.skip(k + 1) == s@.skip(i + 1));
                    assert(views(r@) == before.push(piece@));
                    let tail = split(s@.skip(i + 1), c);
                    assert(before + (seq![piece@] + tail) == before.push(piece@) + tail);
                }
                start = i + 1;
            },
            None => {
                let piece = cut_string(s, start, n);
                let ghost before = views(r@);
                r.push(piece);
                proof {
                    assert(rest == piece@);
                    assert(views(r@) == before.push(piece@));
                    assert(before + seq![piece@] == before.push(piece@));
                }
                return r;
            },
        }
    }
}

/// Searching from a position is searching in what follows it.
pub proof fn lemma_index_of_skip(s: Seq<char>, c: char, from: int)
    requires
        0 <= from <= s.len(),
    ensures
        match index_of(s, c, from) {
            Some(i) => index_of(s.skip(from), c, 0) == Some(i - from),
            None => index_of(s.skip(from), c, 0) is None,
        },
{
    let t = s.skip(from);
    lemma_index_of(s, c, from);
    lemma_index_of(t, c, 0);
    match index_of(s, c, from) {
        Some(i) => {
            assert(t[i - from] == c);
            match index_of(t, c, 0) {
                Some(j) => {
                    assert(s[from + j] == c);
                    if j < i - from {
                        assert(s[from + j] != c);
                    }
                },
                None => {},
            }
        },
        None => {
            match index_of(t, c, 0) {
                Some(j) => {
                    assert(s[from + j] == c);
                },
                None => {},
            }
        },
    }
}

/// The strings with `sep` between them.
pub fn join_strings(parts: &Vec<String>, sep: &str) -> (r: String)
    ensures
        r@ == join(views(parts@), sep@),
{
    let mut text: Vec<char> = Vec::new();
    let mut i: usize = 0;
    while i < parts.len()
        invariant
            i <= parts@.len(),
            text@ == join(views(parts@).take(i as int), sep@),
        decreases parts@.len() - i,
    {
        if i > 0 {
            push_text(&mut text, sep);
        }
        push_text(&mut text, parts[i].as_str());
        i += 1;
        proof {
            let all = views(parts@);
            assert(all.take(i as int).drop_last() == all.take(i - 1));
            assert(all.take(i as int).last() == parts@[i - 1]@);
            if i == 1 {
                assert(text@ == parts@[0]@);
            }
        }
    }
    proof {
        assert(views(parts@).take(parts@.len() as int) == views(parts@));
    }
    string_of(&text)
}

/// The text with every `from` replaced by `to`.
pub fn replace_chars(s: &[char], from: char, to: char) -> (r: Vec<char>)
    ensures
        r@ == replace_char(s@, from, to),
{
    let mut r: Vec<char> = Vec::new();
    let mut i: usize = 0;
    while i < s.len()
        invariant
            i <= s@.len(),
            r@ == replace_char(s@, from, to).take(i as int),
        decreases s@.len() - i,
    {
        let c = s[i];
        r.push(if c == from { to } else { c });
        i += 1;
        proof {
            let whole = replace_char(s@, from, to);
            assert(whole.take(i as int) == whole.take(i - 1).push(whole[i - 1]));
        }
    }
    proof {
        let whole = replace_char(s@, from, to);
        assert(whole.take(s@.len() as int) == whole);
    }
    r
}

/// A copy of a list of strings.
pub fn clone_strings(v: &Vec<String>) -> (r: Vec<String>)
    ensures
        views(r@) == views(v@),
{
    let mut r: Vec<String> = Vec::new();
    let mut i: usize = 0;
    while i < v.len()
        invariant
            i <= v@.len(),
            views(r@) == views(v@).take(i as int),
        decreases v@.len() - i,
    {
        let ghost before = views(r@);
        r.push(v[i].clone());
        i += 1;
        proof {
            assert(views(r@) == before.push(v@[i - 1]@));
            assert(views(v@).take(i as int) == views(v@).take(i - 1).push(v@[i - 1]@));
        }
    }
    proof {
        assert(views(v@).take(v@.len() as int) == views(v@));
    }
    r
}

/// What follows the last dot of a name.
pub open spec fn after_last_dot(name: Seq<char>) -> Option<Seq<char>> {
    match rindex_of(name, '.', name.len() - 1) {
        Some(i) => Some(name.skip(i + 1)),
        None => None,
    }
}

/// What follows the last dot of a name, in lower case.
pub fn lower_extension(name: &str) -> (r: Option<Vec<char>>)
    ensures
        match r {
            Some(e) => after_last_dot(name@) matches Some(x) && e@ == lower(x),
            None => after_last_dot(name@) is None,
        },
{
    let chars = chars_of(name);
    let n: usize = chars.len();
    match last_index(&chars, '.') {
        Some(i) => {
            let e = part(&chars, i + 1, n);
            proof {
                assert(e@ == name@.skip(i + 1));
            }
            Some(lower_chars(&e))
        },
        None => None,
    }
}

/// Whether a text holds white space.
pub open spec fn has_white(s: Seq<char>) -> bool {
    exists|i: int| 0 <= i < s.len() && is_white(#[trigger] s[i])
}

/// Whether a text holds white space.
pub fn contains_whitespace(s: &[char]) -> (r: bool)
    ensures
        r == has_white(s@),
{
    let mut i: usize = 0;
    while i < s.len()
        invariant
            i <= s@.len(),
            forall|j: int| 0 <= j < i ==> !is_white(#[trigger] s@[j]),
        decreases s@.len() - i,
    {
        if s[i].is_whitespace() {
            assert(is_white(s@[i as int]));
            return true;
        }
        i += 1;
    }
    false
}

/// A text without a character is one piece.
pub proof fn lemma_split_plain(s: Seq<char>, c: char)
    requires
        !s.contains(c),
    ensures
        split(s, c) == seq![s],
{
    lemma_index_of(s, c, 0);
    match index_of(s, c, 0) {
        Some(i) => {
            assert(s.contains(s[i]));
        },
        None => {},
    }
}

/// One more piece behind a character is one more piece.
proof fn lemma_split_push(a: Seq<char>, b: Seq<char>, c: char)
    requires
        !b.contains(c),
    ensures
        split(a + seq![c] + b, c) == split(a, c).push(b),
    decreases a.len(),
{
    let whole = a + seq![c] + b;
    lemma_index_of(a, c, 0);
    lemma_index_of(whole, c, 0);
    assert(whole[a.len() as int] == c);
    let j = index_of(whole, c, 0).unwrap();
    match index_of(a, c, 0) {
        Some(i) => {
            assert(whole[i] == a[i]);
            if j < i {
                assert(whole[j] == a[j]);
            }
            assert(j == i);
            assert(whole.take(i) == a.take(i));
            assert(whole.skip(i + 1) == a.skip(i + 1) + seq![c] + b);
            lemma_split_push(a.skip(i + 1), b, c);
            assert((seq![a.take(i)] + split(a.skip(i + 1), c)).push(b) == seq![a.take(i)]
                + split(a.skip(i + 1), c).push(b));
        },
        None => {
            if j < a.len() {
                assert(whole[j] == a[j]);
            }
            assert(j == a.len());
            assert(whole.take(j) == a);
            assert(whole.skip(j + 1) == b);
            lemma_split_plain(b, c);
            assert(seq![a] + seq![b] == seq![a].push(b));
        },
    }
}

/// Pieces that are joined with a character that none of them holds are split into the same pieces.
pub proof fn lemma_split_join(parts: Seq<Seq<char>>, c: char)
    requires
        parts.len() > 0,
        forall|i: int| 0 <= i < parts.len() ==> !(#[trigger] parts[i]).contains(c),
    ensures
        split(join(parts, seq![c]), c) == parts,
    decreases parts.len(),
{
    if parts.len() == 1 {
        lemma_split_plain(parts[0], c);
        assert(seq![parts[0]] == parts);
    } else {
        let front = parts.drop_last();
        assert forall|i: int| 0 <= i < front.len() implies !(#[trigger] front[i]).contains(c) by {
            assert(!parts[i].contains(c));
        }
        lemma_split_join(front, c);
        assert(!parts[parts.len() - 1].contains(c));
        lemma_split_push(join(front, seq![c]), parts.last(), c);
        assert(front.push(parts.last()) == parts);
    }
}

/// Joined pieces start with the first of them.
pub proof fn lemma_join_first(parts: Seq<Seq<char>>, sep: Seq<char>)
    requires
        parts.len() > 0,
        parts[0].len() > 0,
    ensures
        join(parts, sep).len() > 0,
        join(parts, sep)[0] == parts[0][0],
    decreases parts.len(),
{
    if parts.len() > 1 {
        assert(parts.drop_last()[0] == parts[0]);
        lemma_join_first(parts.drop_last(), sep);
    }
}

/// Words do not depend on what stands before the place from which they are counted.
proof fn lemma_words_skip(s: Seq<char>, k: int, from: int)
    requires
        0 <= k,
        0 <= from,
        k + from <= s.len(),
    ensures
        word_end(s, k + from) == k + word_end(s.skip(k), from),
        words(s, k + from) == words(s.skip(k), from),
    decreases s.len() - k - from,
{
    let t = s.skip(k);
    if k + from < s.len() {
        assert(t[from] == s[k + from]);
        lemma_words_skip(s, k, from + 1);
        if !is_white(s[k + from]) {
            let e = word_end(t, from);
            lemma_word_end(t, from);
            lemma_words_skip(s, k, e);
            assert(s.subrange(k + from, k + e) == t.subrange(from, e));
        }
    }
}

/// Texts with something between them, the first of them apart.
pub proof fn lemma_join_front(parts: Seq<Seq<char>>, sep: Seq<char>)
    requires
        parts.len() >= 2,
    ensures
        join(parts, sep) == parts[0] + sep + join(parts.drop_first(), sep),
    decreases parts.len(),
{
    let rest = parts.drop_first();
    if parts.len() == 2 {
        assert(parts.drop_last() == seq![parts[0]]);
        assert(rest == seq![parts[1]]);
        assert(join(parts.drop_last(), sep) == parts[0]);
        assert(join(parts, sep) == parts[0] + sep + parts[1]);
    } else {
        lemma_join_front(parts.drop_last(), sep);
        assert(parts.drop_last().drop_first() == rest.drop_last());
        assert(join(parts, sep) == parts[0] + sep + join(rest, sep));
    }
}

/// Words with a space between them are read as they were written.
pub proof fn law_written_words_are_read(parts: Seq<Seq<char>>)
    requires
        forall|i: int|
            0 <= i < parts.len() ==> (#[trigger] parts[i]).len() > 0 && forall|j: int|
                0 <= j < parts[i].len() ==> !is_white(#[trigger] parts[i][j]),
    ensures
        words(join(parts, " "@), 0) == parts,
    decreases parts.len(),
{
    reveal_strlit(" ");
    if parts.len() > 0 {
        let s = join(parts, " "@);
        let rest = parts.drop_first();
        let first = parts[0];
        let n = first.len() as int;
        if parts.len() == 1 {
            assert(s == first);
        } else {
            lemma_join_front(parts, " "@);
            assert(s[n] == ' ');
        }
        assert forall|j: int| 0 <= j < n implies !is_white(#[trigger] s[j]) by {
            assert(s[j] == first[j]);
        }
        lemma_word_end(s, 0);
        assert(word_end(s, 0) == n) by {
            if word_end(s, 0) > n {
                assert(is_white(s[n]));
            } else if word_end(s, 0) < n {
                lemma_word_stops(s, 0);
            }
        }
        assert(s.subrange(0, n) == first);
        assert(words(s, 0) == seq![first] + words(s, n));
        if parts.len() == 1 {
            assert(words(s, n) == Seq::<Seq<char>>::empty());
        } else {
            assert(words(s, n) == words(s, n + 1));
            lemma_words_skip(s, n + 1, 0);
            assert(s.skip(n + 1) == join(rest, " "@));
            assert forall|i: int| 0 <= i < rest.len() implies (#[trigger] rest[i]).len() > 0
                && forall|j: int| 0 <= j < rest[i].len() ==> !is_white(#[trigger] rest[i][j]) by {
                assert(rest[i] == parts[i + 1]);
            }
            law_written_words_are_read(rest);
        }
        assert(seq![first] + rest == parts);
    }
}

/// A word ends at white space or at the end of the text.
proof fn lemma_word_stops(s: Seq<char>, from: int)
    requires
        0 <= from <= s.len(),
    ensures
        word_end(s, from) < s.len() ==> is_white(s[word_end(s, from)]),
    decreases s.len() - from,
{
    if from < s.len() && !is_white(s[from]) {
        lemma_word_stops(s, from + 1);
    }
}

/// Only the capital letters of ASCII become small; a text in lower case stays as it is.
pub proof fn law_lower_case_changes_capitals_only(s: Seq<char>, i: int)
    requires
        0 <= i < s.len(),
    ensures
        lower(s).len() == s.len(),
        'A' <= s[i] <= 'Z' ==> lower(s)[i] as int == s[i] as int + 32,
        !('A' <= s[i] <= 'Z') ==> lower(s)[i] == s[i],
        lower(lower(s)) == lower(s),
{
    assert forall|k: int| 0 <= k < s.len() implies #[trigger] lower(lower(s))[k] == lower(s)[k] by {}
    assert(lower(lower(s)) == lower(s));
}

/// White space at both ends is taken away, and nothing else.
pub proof fn law_trimming_takes_white_space_away(before: Seq<char>, inner: Seq<char>, after: Seq<char>)
    requires
        forall|i: int| 0 <= i < before.len() ==> is_white(#[trigger] before[i]),
        forall|i: int| 0 <= i < after.len() ==> is_white(#[trigger] after[i]),
        inner.len() > 0 ==> !is_white(inner[0]) && !is_white(inner.last()),
    ensures
        trim(before + inner + after) == inner,
{
    let s = before + inner + after;
    let b = before.len() as int;
    if inner.len() == 0 {
        assert forall|i: int| 0 <= i < s.len() implies (white())(#[trigger] s[i]) by {
            if i < b {
                assert(s[i] == before[i]);
            } else {
                assert(s[i] == after[i - b]);
            }
        }
        lemma_trim_start_by(s, white(), s.len() as int);
        assert(s.skip(s.len() as int) == inner);
    } else {
        assert forall|i: int| 0 <= i < b implies (white())(#[trigger] s[i]) by {
            assert(s[i] == before[i]);
        }
        assert(s[b] == inner[0]);
        lemma_trim_start_by(s, white(), b);
        let t = s.skip(b);
        assert(t == inner + after);
        let n = inner.len() as int;
        assert forall|i: int| n <= i < t.len() implies (white())(#[trigger] t[i]) by {
            assert(t[i] == after[i - n]);
        }
        assert(t[n - 1] == inner.last());
        lemma_trim_end_by(t, white(), n);
        assert(t.take(n) == inner);
    }
}

/// The pieces of a text between the occurrences of a character are those that were joined with it.
pub proof fn law_joined_pieces_are_split_again(parts: Seq<Seq<char>>, c: char)
    requires
        parts.len() > 0,
        forall|i: int| 0 <= i < parts.len() ==> !(#[trigger] parts[i]).contains(c),
    ensures
        split(join(parts, seq![c]), c) == parts,
{
    lemma_split_join(parts, c);
}

/// A text holds another exactly where it stands somewhere in it.
pub proof fn law_texts_hold_what_stands_in_them(s: Seq<char>, p: Seq<char>)
    ensures
        contains(s, p) <==> exists|i: int|
            0 <= i && i + p.len() <= s.len() && #[trigger] s.subrange(i, i + p.len()) == p,
{
    lemma_find_is_exact(s, p, 0);
    if contains(s, p) {
        let i = find(s, p, 0)->Some_0;
        assert(s.subrange(i, i + p.len()) == p);
    } else if exists|i: int|
        0 <= i && i + p.len() <= s.len() && #[trigger] s.subrange(i, i + p.len()) == p {
        let i = choose|i: int|
            0 <= i && i + p.len() <= s.len() && #[trigger] s.subrange(i, i + p.len()) == p;
        assert(at(s, p, i));
    }
}

/// A search finds a text where it stands, and only there.
proof fn lemma_find_is_exact(s: Seq<char>, p: Seq<char>, from: int)
    requires
        0 <= from,
    ensures
        find(s, p, from) matches Some(i) ==> from <= i && at(s, p, i),
        find(s, p, from) is None ==> forall|i: int| from <= i ==> !#[trigger] at(s, p, i),
    decreases s.len() + 1 - from,
{
    if from + p.len() <= s.len() && !at(s, p, from) {
        lemma_find_is_exact(s, p, from + 1);
    }
}

/// White space is what Unicode says it is, and so are control characters.
pub proof fn law_white_space_and_control_characters(c: char)
    ensures
        is_white(c) <==> ('\u{9}' <= c <= '\u{d}') || c == ' ' || c == '\u{85}' || c == '\u{a0}' || c
            == '\u{1680}' || ('\u{2000}' <= c <= '\u{200a}') || c == '\u{2028}' || c == '\u{2029}'
            || c == '\u{202f}' || c == '\u{205f}' || c == '\u{3000}',
        is_control(c) <==> c <= '\u{1f}' || ('\u{7f}' <= c <= '\u{9f}'),
{
}

} // verus!
