//! Finding and replacing the URLs that stand in style, script and attribute texts.
use crate::text;
use vstd::prelude::*;

verus! {

/// A piece of a text: where it starts, and where it ends.
pub type Span = (usize, usize);

/// The pieces as mathematical pairs.
pub open spec fn span_views(spans: Seq<Span>) -> Seq<(int, int)> {
    Seq::new(spans.len(), |i: int| (spans[i].0 as int, spans[i].1 as int))
}

/// Whether pieces lie in a text of length `n`, one behind the other.
pub open spec fn in_order(spans: Seq<(int, int)>, n: int) -> bool {
    &&& forall|i: int| 0 <= i < spans.len() ==> 0 <= (#[trigger] spans[i]).0 <= spans[i].1 <= n
    &&& forall|i: int, j: int|
        0 <= i < j < spans.len() ==> (#[trigger] spans[i]).1 <= (#[trigger] spans[j]).0
}

/// What takes the place of a piece: the replacement, or the piece itself.
pub open spec fn put(s: Seq<char>, span: (int, int), replacement: Option<Seq<char>>) -> Seq<char> {
    match replacement {
        Some(r) => r,
        None => s.subrange(span.0, span.1),
    }
}

/// The text with replacements in the place of pieces.
pub open spec fn splice(
    s: Seq<char>,
    spans: Seq<(int, int)>,
    replacements: Seq<Option<Seq<char>>>,
) -> Seq<char>
    decreases spans.len(),
{
    if spans.len() == 0 {
        s
    } else {
        let last = spans.last();
        splice(s.take(last.0), spans.drop_last(), replacements.drop_last()) + put(
            s,
            last,
            replacements.last(),
        ) + s.skip(last.1)
    }
}

/// The views of optional strings.
pub open spec fn option_views(v: Seq<Option<String>>) -> Seq<Option<Seq<char>>> {
    Seq::new(
        v.len(),
        |i: int|
            match v[i] {
                Some(s) => Some(s@),
                None => None,
            },
    )
}

/// The spliced text up to the start of a later piece.
proof fn lemma_splice_prefix(
    s: Seq<char>,
    spans: Seq<(int, int)>,
    replacements: Seq<Option<Seq<char>>>,
    a: int,
    b: int,
)
    requires
        spans.len() == replacements.len(),
        in_order(spans, a),
        0 <= a <= b <= s.len(),
    ensures
        splice(s.take(b), spans, replacements) == splice(s.take(a), spans, replacements)
            + s.subrange(a, b),
    decreases spans.len(),
{
    if spans.len() == 0 {
        assert(s.take(b) == s.take(a) + s.subrange(a, b));
    } else {
        let last = spans.last();
        let x = s.take(a);
        let y = s.take(b);
        assert(spans[spans.len() - 1] == last);
        assert(x.take(last.0) == y.take(last.0));
        assert(put(x, last, replacements.last()) == put(y, last, replacements.last())) by {
            assert(x.subrange(last.0, last.1) == y.subrange(last.0, last.1));
        }
        assert(y.skip(last.1) == x.skip(last.1) + s.subrange(a, b));
        let front = splice(x.take(last.0), spans.drop_last(), replacements.drop_last());
        let middle = put(x, last, replacements.last());
        assert(front + middle + (x.skip(last.1) + s.subrange(a, b)) == front + middle + x.skip(
            last.1,
        ) + s.subrange(a, b));
    }
}

/// Puts replacements in the place of pieces.
pub fn splice_text(s: &[char], spans: &Vec<Span>, replacements: &Vec<Option<String>>) -> (r: Vec<
    char,
>)
    requires
        spans@.len() == replacements@.len(),
        in_order(span_views(spans@), s@.len() as int),
    ensures
        r@ == splice(s@, span_views(spans@), option_views(replacements@)),
{
    let ghost all = span_views(spans@);
    let ghost reps = option_views(replacements@);
    let mut out: Vec<char> = Vec::new();
    let mut cursor: usize = 0;
    let mut i: usize = 0;
    proof {
        assert(s@.take(0) == Seq::<char>::empty());
        assert(out@ == splice(s@.take(0), all.take(0), reps.take(0)));
    }
    while i < spans.len()
        invariant
            i <= spans@.len(),
            all == span_views(spans@),
            reps == option_views(replacements@),
            spans@.len() == replacements@.len(),
            in_order(all, s@.len() as int),
            cursor == (if i == 0 {
                0
            } else {
                all[i - 1].1
            }),
            out@ == splice(s@.take(cursor as int), all.take(i as int), reps.take(i as int)),
        decreases spans@.len() - i,
    {
        let (a, b): (usize, usize) = spans[i];
        proof {
            assert(all[i as int] == (a as int, b as int));
            if i > 0 {
                assert(all[i - 1].1 <= all[i as int].0);
            }
            let before = all.take(i as int);
            assert forall|k: int| 0 <= k < before.len() implies 0 <= (#[trigger] before[k]).0
                <= before[k].1 <= cursor by {
                assert(before[k] == all[k]);
                if k < i - 1 {
                    assert(all[k].1 <= all[i - 1].0);
                }
            }
            assert forall|k: int, m: int| 0 <= k < m < before.len() implies (
            #[trigger] before[k]).1 <= (#[trigger] before[m]).0 by {
                assert(before[k] == all[k] && before[m] == all[m]);
            }
            lemma_splice_prefix(s@, before, reps.take(i as int), cursor as int, a as int);
            lemma_splice_step(s@, all, reps, i as int);
        }
        let ghost start = out@;
        text::push_chars(&mut out, &text::part(s, cursor, a));
        match &replacements[i] {
            Some(r) => text::push_text(&mut out, r.as_str()),
            None => text::push_chars(&mut out, &text::part(s, a, b)),
        }
        proof {
            assert(reps[i as int] == option_views(replacements@)[i as int]);
            assert(out@ == start + s@.subrange(cursor as int, a as int) + put(
                s@,
                all[i as int],
                reps[i as int],
            ));
        }
        cursor = b;
        i += 1;
    }
    proof {
        let n = s@.len() as int;
        assert(all.take(all.len() as int) == all);
        assert(reps.take(reps.len() as int) == reps);
        assert forall|k: int| 0 <= k < all.len() implies 0 <= (#[trigger] all[k]).0 <= all[k].1
            <= cursor by {
            if k < i - 1 {
                assert(all[k].1 <= all[i - 1].0);
            }
        }
        lemma_splice_prefix(s@, all, reps, cursor as int, n);
        assert(s@.take(n) == s@);
    }
    text::push_chars(&mut out, &text::part(s, cursor, s.len()));
    out
}

/// Splicing one piece more.
proof fn lemma_splice_step(
    s: Seq<char>,
    spans: Seq<(int, int)>,
    replacements: Seq<Option<Seq<char>>>,
    i: int,
)
    requires
        spans.len() == replacements.len(),
        in_order(spans, s.len() as int),
        0 <= i < spans.len(),
    ensures
        splice(s.take(spans[i].1), spans.take(i + 1), replacements.take(i + 1)) == splice(
            s.take(spans[i].0),
            spans.take(i),
            replacements.take(i),
        ) + put(s, spans[i], replacements[i]),
{
    let upto = spans.take(i + 1);
    let t = s.take(spans[i].1);
    assert(upto.last() == spans[i]);
    assert(upto.drop_last() == spans.take(i));
    assert(replacements.take(i + 1).last() == replacements[i]);
    assert(replacements.take(i + 1).drop_last() == replacements.take(i));
    assert(t.take(spans[i].0) == s.take(spans[i].0));
    assert(t.subrange(spans[i].0, spans[i].1) == s.subrange(spans[i].0, spans[i].1));
    assert(t.skip(spans[i].1) == Seq::<char>::empty());
    let front = splice(s.take(spans[i].0), spans.take(i), replacements.take(i));
    assert(front + put(s, spans[i], replacements[i]) + Seq::<char>::empty() == front + put(
        s,
        spans[i],
        replacements[i],
    ));
}

/// The texts of the pieces.
pub open spec fn pieces(s: Seq<char>, spans: Seq<(int, int)>) -> Seq<Seq<char>> {
    Seq::new(spans.len(), |i: int| s.subrange(spans[i].0, spans[i].1))
}

/// What stands in the parentheses of `url(` functions from `from` on; `folded` is the text in which
/// `url(` is looked for.
pub open spec fn url_spans(s: Seq<char>, folded: Seq<char>, from: int) -> Seq<(int, int)>
    decreases s.len() - from,
{
    match text::find(folded, "url("@, from) {
        Some(i) => match text::index_of(s, ')', i + "url("@.len()) {
            Some(e) => if from <= e < s.len() {
                seq![(i + "url("@.len(), e)] + url_spans(s, folded, e + 1)
            } else {
                Seq::empty()
            },
            None => Seq::empty(),
        },
        None => Seq::empty(),
    }
}

/// Finds what stands in the parentheses of `url(` functions.
pub fn find_url_spans(s: &[char], folded: &[char]) -> (r: Vec<Span>)
    requires
        folded@.len() == s@.len(),
    ensures
        span_views(r@) == url_spans(s@, folded@, 0),
        in_order(span_views(r@), s@.len() as int),
{
    let marker = text::chars_of("url(");
    let size: usize = s.len();
    let mut r: Vec<Span> = Vec::new();
    let mut from: usize = 0;
    proof {
        assert(span_views(r@) + url_spans(s@, folded@, 0) == url_spans(s@, folded@, 0));
    }
    loop
        invariant
            from <= s@.len(),
            size == s@.len(),
            folded@.len() == s@.len(),
            marker@ == "url("@,
            in_order(span_views(r@), from as int),
            span_views(r@) + url_spans(s@, folded@, from as int) == url_spans(s@, folded@, 0),
        decreases s@.len() - from,
    {
        let ghost before = span_views(r@);
        let i: usize = match text::find_from(folded, &marker, from) {
            Some(i) => i,
            None => {
                proof {
                    assert(before + Seq::<(int, int)>::empty() == before);
                }
                return r;
            },
        };
        let start: usize = i + marker.len();
        let e: usize = match text::index_from(s, ')', start) {
            Some(e) => e,
            None => {
                proof {
                    assert(before + Seq::<(int, int)>::empty() == before);
                }
                return r;
            },
        };
        r.push((start, e));
        proof {
            let rest = url_spans(s@, folded@, e + 1);
            assert(span_views(r@) == before.push((start as int, e as int)));
            assert(before + (seq![(start as int, e as int)] + rest) == before.push(
                (start as int, e as int),
            ) + rest);
            let now = span_views(r@);
            assert forall|k: int| 0 <= k < now.len() implies 0 <= (#[trigger] now[k]).0 <= now[k].1
                <= e + 1 by {
                if k < before.len() {
                    assert(now[k] == before[k]);
                }
            }
            assert forall|k: int, m: int| 0 <= k < m < now.len() implies (#[trigger] now[k]).1 <= (
            #[trigger] now[m]).0 by {
                assert(now[k] == before[k]);
                if m < before.len() {
                    assert(now[m] == before[m]);
                }
            }
        }
        from = e + 1;
    }
}

/// Whether a character opens and closes a script string.
pub open spec fn is_quote(c: char) -> bool {
    c == '\'' || c == '"'
}

/// The first quote from `from` on.
pub open spec fn next_quote(s: Seq<char>, from: int) -> Option<int>
    decreases s.len() - from,
{
    if from < 0 || from >= s.len() {
        None
    } else if is_quote(s[from]) {
        Some(from)
    } else {
        next_quote(s, from + 1)
    }
}

/// Where a script string ends: at the first `quote` from `from` on that no backslash escapes.
pub open spec fn string_end(s: Seq<char>, quote: char, from: int, escaped: bool) -> Option<int>
    decreases s.len() - from,
{
    if from < 0 || from >= s.len() {
        None
    } else if escaped {
        string_end(s, quote, from + 1, false)
    } else if s[from] == '\\' {
        string_end(s, quote, from + 1, true)
    } else if s[from] == quote {
        Some(from)
    } else {
        string_end(s, quote, from + 1, false)
    }
}

/// What stands between the quotes of script strings, from `from` on; a string that does not end
/// ends the search.
pub open spec fn string_spans(s: Seq<char>, from: int) -> Seq<(int, int)>
    decreases s.len() - from,
{
    match next_quote(s, from) {
        Some(i) => match string_end(s, s[i], i + 1, false) {
            Some(e) => if from <= e < s.len() {
                seq![(i + 1, e)] + string_spans(s, e + 1)
            } else {
                Seq::empty()
            },
            None => Seq::empty(),
        },
        None => Seq::empty(),
    }
}

/// Where a script string ends.
pub fn find_javascript_string_end(s: &[char], quote: char, start: usize) -> (r: Option<usize>)
    ensures
        match r {
            Some(e) => string_end(s@, quote, start as int, false) == Some(e as int) && start <= e
                < s@.len(),
            None => string_end(s@, quote, start as int, false) is None,
        },
{
    let mut i: usize = start;
    let mut escaped = false;
    while i < s.len()
        invariant
            start <= i,
            string_end(s@, quote, start as int, false) == string_end(s@, quote, i as int, escaped),
        decreases s@.len() - i,
    {
        if escaped {
            escaped = false;
        } else if s[i] == '\\' {
            escaped = true;
        } else if s[i] == quote {
            return Some(i);
        }
        i += 1;
    }
    None
}

/// Finds what stands between the quotes of script strings.
pub fn find_string_spans(s: &[char]) -> (r: Vec<Span>)
    ensures
        span_views(r@) == string_spans(s@, 0),
        in_order(span_views(r@), s@.len() as int),
        forall|i: int|
            0 <= i < r@.len() ==> (#[trigger] r@[i]).1 - r@[i].0 < s@.len(),
{
    let mut r: Vec<Span> = Vec::new();
    let mut from: usize = 0;
    let mut i: usize = 0;
    proof {
        assert(span_views(r@) + string_spans(s@, 0) == string_spans(s@, 0));
    }
    while i < s.len()
        invariant
            from <= i <= s@.len(),
            next_quote(s@, from as int) == next_quote(s@, i as int),
            in_order(span_views(r@), from as int),
            span_views(r@) + string_spans(s@, from as int) == string_spans(s@, 0),
            forall|i: int|
                0 <= i < r@.len() ==> (#[trigger] r@[i]).1 - r@[i].0 < s@.len(),
        decreases s@.len() - i,
    {
        let ghost before = span_views(r@);
        let quote = s[i];
        if quote != '\'' && quote != '"' {
            i += 1;
        } else {
            match find_javascript_string_end(s, quote, i + 1) {
                Some(e) => {
                    r.push((i + 1, e));
                    proof {
                        let rest = string_spans(s@, e + 1);
                        let item = (i + 1, e as int);
                        assert(span_views(r@) == before.push(item));
                        assert(before + (seq![item] + rest) == before.push(item) + rest);
                        let now = span_views(r@);
                        assert forall|k: int| 0 <= k < now.len() implies 0 <= (
                        #[trigger] now[k]).0 <= now[k].1 <= e + 1 by {
                            if k < before.len() {
                                assert(now[k] == before[k]);
                            }
                        }
                        assert forall|k: int, m: int| 0 <= k < m < now.len() implies (
                        #[trigger] now[k]).1 <= (#[trigger] now[m]).0 by {
                            assert(now[k] == before[k]);
                            if m < before.len() {
                                assert(now[m] == before[m]);
                            }
                        }
                    }
                    i = e + 1;
                    from = e + 1;
                },
                None => {
                    proof {
                        assert(before + Seq::<(int, int)>::empty() == before);
                    }
                    return r;
                },
            }
        }
    }
    proof {
        assert(span_views(r@) + Seq::<(int, int)>::empty() == span_views(r@));
    }
    r
}

/// Whether a reference leads nowhere that a saved site could hold.
pub open spec fn is_skipped(s: Seq<char>) -> bool {
    ||| text::starts_with(s, "#"@)
    ||| text::starts_with(s, "//"@)
    ||| text::starts_with(s, "mailto:"@)
    ||| text::starts_with(s, "tel:"@)
    ||| text::starts_with(s, "javascript:"@)
    ||| text::starts_with(s, "data:"@)
    ||| text::starts_with(s, "blob:"@)
}

/// Whether a reference leads nowhere that a saved site could hold.
pub fn should_skip_reference(s: &str) -> (r: bool)
    ensures
        r == is_skipped(s@),
{
    text::has_prefix(s, "#") || text::has_prefix(s, "//") || text::has_prefix(s, "mailto:")
        || text::has_prefix(s, "tel:") || text::has_prefix(s, "javascript:") || text::has_prefix(
        s,
        "data:",
    ) || text::has_prefix(s, "blob:")
}

/// The text before the first character that `stop` marks.
pub open spec fn before_char(s: Seq<char>, stop: char) -> Seq<char> {
    match text::index_of(s, stop, 0) {
        Some(i) => s.take(i),
        None => s,
    }
}

/// A reference without its query and its fragment.
pub open spec fn bare_path(s: Seq<char>) -> Seq<char> {
    before_char(before_char(s, '#'), '?')
}

/// The text before the first `stop`.
pub fn cut_before(s: &[char], stop: char) -> (r: Vec<char>)
    ensures
        r@ == before_char(s@, stop),
{
    match text::index_from(s, stop, 0) {
        Some(i) => {
            proof {
                assert(s@.subrange(0, i as int) == s@.take(i as int));
            }
            text::part(s, 0, i)
        },
        None => {
            proof {
                assert(s@.subrange(0, s@.len() as int) == s@);
            }
            text::part(s, 0, s.len())
        },
    }
}

/// A reference without its query and its fragment.
pub fn strip_query_and_fragment(s: &[char]) -> (r: Vec<char>)
    ensures
        r@ == bare_path(s@),
{
    cut_before(&cut_before(s, '#'), '?')
}

/// The value of a hexadecimal digit.
pub open spec fn hex_value(b: u8) -> Option<u8> {
    if 48 <= b <= 57 {
        Some((b - 48) as u8)
    } else if 97 <= b <= 102 {
        Some((b - 87) as u8)
    } else if 65 <= b <= 70 {
        Some((b - 55) as u8)
    } else {
        None
    }
}

/// The bytes with every percent sign and two hexadecimal digits replaced by the byte they stand
/// for, from `from` on.
pub open spec fn unescaped(bytes: Seq<u8>, from: int) -> Seq<u8>
    decreases bytes.len() - from,
{
    if from < 0 || from >= bytes.len() {
        Seq::empty()
    } else if bytes[from] == 37u8 && from + 2 < bytes.len() && hex_value(bytes[from + 1]) is Some
        && hex_value(bytes[from + 2]) is Some {
        seq![
            (hex_value(bytes[from + 1])->Some_0 * 16 + hex_value(bytes[from + 2])->Some_0) as u8,
        ] + unescaped(bytes, from + 3)
    } else {
        seq![bytes[from]] + unescaped(bytes, from + 1)
    }
}

/// A percent-encoded text, decoded.
pub open spec fn percent_decoded(s: Seq<char>) -> Seq<char> {
    text::utf8_lossy(unescaped(vstd::utf8::encode_utf8(s), 0))
}

/// The value of a hexadecimal digit.
fn hex_digit_value(b: u8) -> (r: Option<u8>)
    ensures
        r == hex_value(b),
        r matches Some(v) ==> v < 16,
{
    if 48 <= b && b <= 57 {
        Some(b - 48)
    } else if 97 <= b && b <= 102 {
        Some(b - 87)
    } else if 65 <= b && b <= 70 {
        Some(b - 55)
    } else {
        None
    }
}

/// The bytes that percent-encoded bytes stand for.
pub fn percent_decode_bytes(bytes: &[u8]) -> (r: Vec<u8>)
    ensures
        r@ == unescaped(bytes@, 0),
{
    let mut out: Vec<u8> = Vec::new();
    let mut i: usize = 0;
    let n: usize = bytes.len();
    proof {
        assert(out@ + unescaped(bytes@, 0) == unescaped(bytes@, 0));
    }
    while i < n
        invariant
            i <= bytes@.len(),
            n == bytes@.len(),
            out@ + unescaped(bytes@, i as int) == unescaped(bytes@, 0),
        decreases n - i,
    {
        let ghost before = out@;
        let ghost here = i as int;
        let mut decoded: Option<u8> = None;
        if bytes[i] == 37 && n - i > 2 {
            if let Some(high) = hex_digit_value(bytes[i + 1]) {
                if let Some(low) = hex_digit_value(bytes[i + 2]) {
                    decoded = Some(high * 16 + low);
                }
            }
        }
        match decoded {
            Some(b) => {
                out.push(b);
                i += 3;
                proof {
                    let rest = unescaped(bytes@, i as int);
                    assert(before + (seq![b] + rest) == before.push(b) + rest);
                }
            },
            None => {
                out.push(bytes[i]);
                i += 1;
                proof {
                    let rest = unescaped(bytes@, i as int);
                    assert(before + (seq![bytes@[here]] + rest) == before.push(bytes@[here]) + rest);
                }
            },
        }
    }
    proof {
        assert(out@ + unescaped(bytes@, i as int) == out@);
    }
    out
}

/// Decodes a percent-encoded text.
pub fn percent_decode(s: &str) -> (r: String)
    ensures
        r@ == percent_decoded(s@),
{
    let bytes = percent_decode_bytes(s.as_bytes());
    text::decode_lossy(bytes.as_slice())
}

/// Bytes without a percent sign stand for themselves.
proof fn lemma_unescaped_plain(bytes: Seq<u8>, from: int)
    requires
        0 <= from <= bytes.len(),
        forall|i: int| 0 <= i < bytes.len() ==> #[trigger] bytes[i] != 37u8,
    ensures
        unescaped(bytes, from) == bytes.skip(from),
    decreases bytes.len() - from,
{
    if from < bytes.len() {
        lemma_unescaped_plain(bytes, from + 1);
        assert(bytes.skip(from) == seq![bytes[from]] + bytes.skip(from + 1));
    } else {
        assert(bytes.skip(from) == Seq::<u8>::empty());
    }
}

/// A text without percent signs loses nothing when it is decoded: no byte of it changes.
pub proof fn law_plain_text_needs_no_decoding(s: Seq<char>)
    requires
        forall|i: int|
            0 <= i < vstd::utf8::encode_utf8(s).len() ==> #[trigger] vstd::utf8::encode_utf8(s)[i]
                != 37u8,
    ensures
        unescaped(vstd::utf8::encode_utf8(s), 0) == vstd::utf8::encode_utf8(s),
{
    let bytes = vstd::utf8::encode_utf8(s);
    lemma_unescaped_plain(bytes, 0);
    assert(bytes.skip(0) == bytes);
}

/// The references in a `srcset` value: the first word of each candidate.
pub open spec fn srcset_of(candidates: Seq<Seq<char>>) -> Seq<Seq<char>>
    decreases candidates.len(),
{
    if candidates.len() == 0 {
        Seq::empty()
    } else {
        let rest = srcset_of(candidates.drop_last());
        let words = text::words(candidates.last(), 0);
        if words.len() > 0 {
            rest.push(words[0])
        } else {
            rest
        }
    }
}

/// The references in a `srcset` value.
pub fn parse_srcset_references(value: &str) -> (r: Vec<String>)
    ensures
        text::views(r@) == srcset_of(text::split(value@, ',')),
{
    let candidates = text::split_at_char(&text::chars_of(value), ',');
    let ghost all = text::views(candidates@);
    let mut r: Vec<String> = Vec::new();
    let mut i: usize = 0;
    proof {
        assert(text::views(r@) == srcset_of(all.take(0)));
    }
    while i < candidates.len()
        invariant
            i <= candidates@.len(),
            all == text::views(candidates@),
            text::views(r@) == srcset_of(all.take(i as int)),
        decreases candidates@.len() - i,
    {
        let ghost before = text::views(r@);
        proof {
            assert(all.take(i + 1).drop_last() == all.take(i as int));
            assert(all.take(i + 1).last() == candidates@[i as int]@);
        }
        let words = text::split_words(&text::chars_of(candidates[i].as_str()));
        proof {
            assert(text::views(words@).len() == words@.len());
        }
        if words.len() > 0 {
            r.push(words[0].clone());
            proof {
                assert(text::views(r@) == before.push(words@[0]@));
                assert(text::views(words@)[0] == words@[0]@);
            }
        }
        i += 1;
    }
    proof {
        assert(all.take(all.len() as int) == all);
    }
    r
}

/// The first position from `from` on that holds no white space.
pub open spec fn skip_white(s: Seq<char>, from: int) -> int
    decreases s.len() - from,
{
    if from < 0 || from >= s.len() || !text::is_white(s[from]) {
        from
    } else {
        skip_white(s, from + 1)
    }
}

/// The first position from `from` on that holds a semicolon or white space, or the end.
pub open spec fn value_end(s: Seq<char>, from: int) -> int
    decreases s.len() - from,
{
    if from < 0 || from >= s.len() || s[from] == ';' || text::is_white(s[from]) {
        from
    } else {
        value_end(s, from + 1)
    }
}

/// Where the target of a refresh stands in its `content` value: behind `url=`, in quotes or up to a
/// semicolon or white space.
pub open spec fn refresh_span(s: Seq<char>) -> Option<(int, int)> {
    match text::find(text::lower(s), "url="@, 0) {
        Some(i) => {
            let start = skip_white(s, i + "url="@.len());
            if start < s.len() && is_quote(s[start]) {
                match text::index_of(s, s[start], start + 1) {
                    Some(e) => Some((start + 1, e)),
                    None => None,
                }
            } else {
                let e = value_end(s, start);
                if e > start {
                    Some((start, e))
                } else {
                    None
                }
            }
        },
        None => None,
    }
}

/// Where the target of a refresh stands in its `content` value.
pub fn find_refresh_span(s: &[char]) -> (r: Option<Span>)
    ensures
        match r {
            Some((a, b)) => refresh_span(s@) == Some((a as int, b as int)) && a <= b <= s@.len(),
            None => refresh_span(s@) is None,
        },
{
    let marker = text::chars_of("url=");
    let lower = text::lower_chars(s);
    let size: usize = lower.len();
    let i: usize = match text::find_from(&lower, &marker, 0) {
        Some(i) => i,
        None => {
            return None;
        },
    };
    let begin: usize = i + marker.len();
    let mut start: usize = begin;
    while start < s.len() && s[start].is_whitespace()
        invariant
            begin <= start <= s@.len(),
            skip_white(s@, begin as int) == skip_white(s@, start as int),
        decreases s@.len() - start,
    {
        start += 1;
    }
    if start < s.len() && (s[start] == '\'' || s[start] == '"') {
        match text::index_from(s, s[start], start + 1) {
            Some(e) => Some((start + 1, e)),
            None => None,
        }
    } else {
        let mut e: usize = start;
        while e < s.len() && s[e] != ';' && !s[e].is_whitespace()
            invariant
                start <= e <= s@.len(),
                value_end(s@, start as int) == value_end(s@, e as int),
            decreases s@.len() - e,
        {
            e += 1;
        }
        if e > start {
            Some((start, e))
        } else {
            None
        }
    }
}

/// The text from `from` on, with replacements in the place of pieces.
pub open spec fn spliced_from(
    s: Seq<char>,
    spans: Seq<(int, int)>,
    replacements: Seq<Option<Seq<char>>>,
    from: int,
) -> Seq<char>
    decreases spans.len(),
{
    if spans.len() == 0 {
        s.skip(from)
    } else {
        s.subrange(from, spans[0].0) + put(s, spans[0], replacements[0]) + spliced_from(
            s,
            spans.drop_first(),
            replacements.drop_first(),
            spans[0].1,
        )
    }
}

/// Whether pieces that are in order start at `from` or behind it.
pub open spec fn behind(spans: Seq<(int, int)>, from: int, n: int) -> bool {
    in_order(spans, n) && forall|i: int| 0 <= i < spans.len() ==> from <= (#[trigger] spans[i]).0
}

/// A spliced text ends with its last piece and what follows it.
proof fn lemma_spliced_last(
    s: Seq<char>,
    spans: Seq<(int, int)>,
    replacements: Seq<Option<Seq<char>>>,
    from: int,
)
    requires
        0 <= from,
        spans.len() > 0,
        spans.len() == replacements.len(),
        behind(spans, from, s.len() as int),
    ensures
        spliced_from(s, spans, replacements, from) == spliced_from(
            s.take(spans.last().0),
            spans.drop_last(),
            replacements.drop_last(),
            from,
        ) + put(s, spans.last(), replacements.last()) + s.skip(spans.last().1),
    decreases spans.len(),
{
    let first = spans[0];
    let last = spans[spans.len() - 1];
    let front = s.take(last.0);
    assert(last.0 <= s.len());
    if spans.len() == 1 {
        assert(spans.drop_first() == Seq::<(int, int)>::empty());
        assert(spans.drop_last() == Seq::<(int, int)>::empty());
        assert(front.skip(from) == s.subrange(from, last.0));
        assert(spliced_from(s, spans.drop_first(), replacements.drop_first(), first.1) == s.skip(
            first.1,
        ));
    } else {
        let rest = spans.drop_first();
        let reps = replacements.drop_first();
        assert(first.1 <= last.0);
        assert forall|i: int| 0 <= i < rest.len() implies first.1 <= (#[trigger] rest[i]).0
            && rest[i] == spans[i + 1] by {
            assert(spans[0].1 <= spans[i + 1].0);
        }
        lemma_spliced_last(s, rest, reps, first.1);
        assert(rest.last() == last);
        assert(reps.last() == replacements.last());
        assert(spans.drop_last().drop_first() == rest.drop_last());
        assert(replacements.drop_last().drop_first() == reps.drop_last());
        assert(spans.drop_last()[0] == first);
        assert(replacements.drop_last()[0] == replacements[0]);
        assert(front.subrange(from, first.0) == s.subrange(from, first.0));
        assert(front.subrange(first.0, first.1) == s.subrange(first.0, first.1));
        let a = s.subrange(from, first.0) + put(s, first, replacements[0]);
        let b = spliced_from(front, rest.drop_last(), reps.drop_last(), first.1);
        let c = put(s, last, replacements.last());
        let d = s.skip(last.1);
        assert(spliced_from(front, spans.drop_last(), replacements.drop_last(), from) == a + b);
        assert(a + (b + c + d) == (a + b) + c + d);
    }
}

/// Splicing from the end and splicing from the start give the same text.
proof fn lemma_spliced(
    s: Seq<char>,
    spans: Seq<(int, int)>,
    replacements: Seq<Option<Seq<char>>>,
)
    requires
        spans.len() == replacements.len(),
        in_order(spans, s.len() as int),
    ensures
        splice(s, spans, replacements) == spliced_from(s, spans, replacements, 0),
    decreases spans.len(),
{
    if spans.len() == 0 {
        assert(s.skip(0) == s);
    } else {
        let last = spans[spans.len() - 1];
        let front = spans.drop_last();
        assert forall|i: int| 0 <= i < front.len() implies 0 <= (#[trigger] front[i]).0
            <= front[i].1 <= last.0 by {
            assert(front[i] == spans[i]);
            assert(spans[i].1 <= spans[spans.len() - 1].0);
        }
        lemma_spliced(s.take(last.0), front, replacements.drop_last());
        lemma_spliced_last(s, spans, replacements, 0);
    }
}

/// What stands before the first piece can be taken off.
proof fn lemma_spliced_step(
    s: Seq<char>,
    spans: Seq<(int, int)>,
    replacements: Seq<Option<Seq<char>>>,
    from: int,
)
    requires
        0 <= from < s.len(),
        spans.len() == replacements.len(),
        behind(spans, from + 1, s.len() as int),
    ensures
        spliced_from(s, spans, replacements, from) == seq![s[from]] + spliced_from(
            s,
            spans,
            replacements,
            from + 1,
        ),
{
    if spans.len() == 0 {
        assert(s.skip(from) == seq![s[from]] + s.skip(from + 1));
    } else {
        let first = spans[0];
        assert(from + 1 <= first.0 <= s.len());
        assert(s.subrange(from, first.0) == seq![s[from]] + s.subrange(from + 1, first.0));
        let rest = spliced_from(s, spans.drop_first(), replacements.drop_first(), first.1);
        let a = s.subrange(from + 1, first.0);
        let b = put(s, first, replacements[0]);
        assert((seq![s[from]] + a) + b + rest == seq![s[from]] + (a + b + rest));
    }
}

/// A piece in front of others that lie behind it.
proof fn lemma_behind(first: (int, int), rest: Seq<(int, int)>, from: int, n: int)
    requires
        0 <= from <= first.0 <= first.1 <= n,
        behind(rest, first.1, n),
    ensures
        behind(seq![first] + rest, from, n),
{
    let all = seq![first] + rest;
    assert forall|i: int| 0 <= i < all.len() implies 0 <= (#[trigger] all[i]).0 <= all[i].1 <= n
        && from <= all[i].0 by {
        if i > 0 {
            assert(all[i] == rest[i - 1]);
        }
    }
    assert forall|i: int, j: int| 0 <= i < j < all.len() implies (#[trigger] all[i]).1 <= (
    #[trigger] all[j]).0 by {
        assert(all[j] == rest[j - 1]);
        if i > 0 {
            assert(all[i] == rest[i - 1]);
        }
    }
}

/// Where the marker is found, it stands at `from` or behind it.
proof fn lemma_found(s: Seq<char>, p: Seq<char>, from: int)
    requires
        0 <= from,
    ensures
        text::find(s, p, from) matches Some(i) ==> from <= i && i + p.len() <= s.len(),
    decreases s.len() + 1 - from,
{
    if from + p.len() <= s.len() && !text::at(s, p, from) {
        lemma_found(s, p, from + 1);
    }
}

/// A search finds the same in texts that agree as far as it looks.
proof fn lemma_same_find(a: Seq<char>, b: Seq<char>, p: Seq<char>, i: int, j: int)
    requires
        0 <= i <= a.len(),
        0 <= j <= b.len(),
        match text::find(a, p, i) {
            Some(k) => k + p.len() - i <= b.len() - j && forall|x: int|
                0 <= x < k + p.len() - i ==> #[trigger] a[i + x] == b[j + x],
            None => a.skip(i) == b.skip(j),
        },
    ensures
        match text::find(a, p, i) {
            Some(k) => text::find(b, p, j) == Some(j + k - i),
            None => text::find(b, p, j) is None,
        },
    decreases a.len() + 1 - i,
{
    lemma_found(a, p, i);
    lemma_found(a, p, i + 1);
    match text::find(a, p, i) {
        Some(k) => {
            if k == i {
                assert(a.subrange(i, i + p.len()) == b.subrange(j, j + p.len())) by {
                    assert forall|x: int| 0 <= x < p.len() implies #[trigger] a.subrange(
                        i,
                        i + p.len(),
                    )[x] == b.subrange(j, j + p.len())[x] by {
                        assert(a[i + x] == b[j + x]);
                    }
                }
            } else {
                assert forall|x: int| 0 <= x < p.len() implies #[trigger] a.subrange(
                    i,
                    i + p.len(),
                )[x] == b.subrange(j, j + p.len())[x] by {
                    assert(a[i + x] == b[j + x]);
                }
                assert(a.subrange(i, i + p.len()) == b.subrange(j, j + p.len()));
                assert forall|x: int| 0 <= x < k + p.len() - (i + 1) implies #[trigger] a[i + 1 + x]
                    == b[j + 1 + x] by {
                    assert(a[i + (x + 1)] == b[j + (x + 1)]);
                }
                lemma_same_find(a, b, p, i + 1, j + 1);
            }
        },
        None => {
            assert(a.skip(i).len() == b.skip(j).len());
            if i + p.len() <= a.len() {
                assert(a.subrange(i, i + p.len()) == a.skip(i).take(p.len() as int));
                assert(b.subrange(j, j + p.len()) == b.skip(j).take(p.len() as int));
                if i < a.len() {
                    assert(a.skip(i + 1) == a.skip(i).skip(1));
                    assert(b.skip(j + 1) == b.skip(j).skip(1));
                    lemma_same_find(a, b, p, i + 1, j + 1);
                }
            }
        },
    }
}

/// The pieces in `url(` functions are in order, each behind its marker.
pub proof fn lemma_url_spans(s: Seq<char>, folded: Seq<char>, from: int)
    requires
        0 <= from,
        folded.len() == s.len(),
    ensures
        behind(url_spans(s, folded, from), from, s.len() as int),
    decreases s.len() - from,
{
    lemma_found(folded, "url("@, from);
    match text::find(folded, "url("@, from) {
        Some(i) => {
            let start = i + "url("@.len();
            text::lemma_index_of(s, ')', start);
            match text::index_of(s, ')', start) {
                Some(e) => {
                    lemma_url_spans(s, folded, e + 1);
                    let rest = url_spans(s, folded, e + 1);
                    assert(behind(rest, e, s.len() as int));
                    lemma_behind((start, e), rest, from, s.len() as int);
                },
                None => {},
            }
        },
        None => {},
    }
}

/// The texts that stand in the place of pieces.
pub open spec fn placed(
    s: Seq<char>,
    spans: Seq<(int, int)>,
    replacements: Seq<Option<Seq<char>>>,
) -> Seq<Seq<char>> {
    Seq::new(spans.len(), |i: int| put(s, spans[i], replacements[i]))
}

/// The `url(` functions of a text whose rest is a spliced text hold what was put there.
#[verifier::spinoff_prover]
#[verifier::rlimit(50)]
proof fn lemma_placed_urls(
    s: Seq<char>,
    replacements: Seq<Option<Seq<char>>>,
    i: int,
    t: Seq<char>,
    j: int,
)
    requires
        0 <= i <= s.len(),
        0 <= j <= t.len(),
        replacements.len() == url_spans(s, text::lower(s), i).len(),
        forall|k: int|
            0 <= k < replacements.len() ==> ((#[trigger] replacements[k]) matches Some(r)
                ==> !r.contains(')')),
        t.skip(j) == spliced_from(s, url_spans(s, text::lower(s), i), replacements, i),
    ensures
        pieces(t, url_spans(t, text::lower(t), j)) == placed(
            s,
            url_spans(s, text::lower(s), i),
            replacements,
        ),
    decreases s.len() - i,
{
    let m = "url("@;
    let a = text::lower(s);
    let b = text::lower(t);
    let spans = url_spans(s, a, i);
    lemma_found(a, m, i);
    lemma_url_spans(s, a, i);
    if spans.len() == 0 {
        assert(t.skip(j) == s.skip(i));
        assert(t.len() - j == s.len() - i);
        assert forall|x: int| 0 <= x < s.len() - i implies #[trigger] s[i + x] == t[j + x] by {
            assert(s.skip(i)[x] == t.skip(j)[x]);
        }
        assert(a.skip(i) == b.skip(j)) by {
            assert forall|x: int| 0 <= x < s.len() - i implies a.skip(i)[x] == b.skip(j)[x] by {
                assert(s[i + x] == t[j + x]);
            }
        }
        assert forall|x: int| 0 <= x < s.len() - i implies #[trigger] a[i + x] == b[j + x] by {
            assert(a.skip(i)[x] == b.skip(j)[x]);
        }
        lemma_same_find(a, b, m, i, j);
        match text::find(a, m, i) {
            Some(k) => {
                let start = k + m.len();
                let there = j + start - i;
                text::lemma_index_of(s, ')', start);
                text::lemma_index_of(t, ')', there);
                match text::index_of(t, ')', there) {
                    Some(e) => {
                        assert(s[i + (e - j)] == t[j + (e - j)]);
                        assert(s[e - j + i] == ')');
                    },
                    None => {},
                }
            },
            None => {},
        }
        assert(url_spans(t, b, j).len() == 0);
    } else {
        let k = text::find(a, m, i)->Some_0;
        let start = k + m.len();
        text::lemma_index_of(s, ')', start);
        let e = text::index_of(s, ')', start)->Some_0;
        let rest = url_spans(s, a, e + 1);
        let r = put(s, (start, e), replacements[0]);
        let reps = replacements.drop_first();
        assert(spans == seq![(start, e)] + rest);
        assert(spans[0] == (start, e));
        assert(spans.drop_first() == rest);
        lemma_url_spans(s, a, e + 1);
        lemma_spliced_step(s, rest, reps, e);
        let tail = spliced_from(s, rest, reps, e + 1);
        let head = s.subrange(i, start);
        assert(t.skip(j) == head + r + (seq![s[e]] + tail));
        let there = j + head.len();
        let end = there + r.len();
        assert(t.len() == j + head.len() + r.len() + 1 + tail.len());
        assert forall|x: int| 0 <= x < start - i implies #[trigger] a[i + x] == b[j + x] by {
            assert(t.skip(j)[x] == head[x]);
        }
        lemma_same_find(a, b, m, i, j);
        assert forall|x: int| 0 <= x < r.len() implies #[trigger] r[x] != ')' by {
            assert(replacements[0] is Some ==> r.contains(r[x]));
        }
        assert(t[end] == ')') by {
            assert(t.skip(j)[end - j] == s[e]);
        }
        assert forall|x: int| there <= x < end implies t[x] != ')' by {
            assert(t.skip(j)[x - j] == r[x - there]);
        }
        text::lemma_index_of(t, ')', there);
        assert(text::index_of(t, ')', there) == Some(end));
        assert(t.skip(end + 1) == tail) by {
            assert forall|x: int| 0 <= x < tail.len() implies t.skip(end + 1)[x] == tail[x] by {
                assert(t.skip(j)[head.len() + r.len() + 1 + x] == tail[x]);
            }
        }
        assert forall|k: int| 0 <= k < reps.len() implies ((#[trigger] reps[k]) matches Some(r)
            ==> !r.contains(')')) by {
            assert(reps[k] == replacements[k + 1]);
        }
        lemma_placed_urls(s, reps, e + 1, t, end + 1);
        let after = url_spans(t, b, end + 1);
        assert(url_spans(t, b, j) == seq![(there, end)] + after);
        assert(t.subrange(there, end) == r) by {
            assert forall|x: int| 0 <= x < r.len() implies t.subrange(there, end)[x] == r[x] by {
                assert(t.skip(j)[head.len() + x] == r[x]);
            }
        }
        let now = pieces(t, url_spans(t, b, j));
        let want = placed(s, spans, replacements);
        assert(pieces(t, after).len() == placed(s, rest, reps).len());
        assert forall|x: int| 0 <= x < now.len() implies now[x] == want[x] by {
            if x > 0 {
                assert(pieces(t, after)[x - 1] == placed(s, rest, reps)[x - 1]);
            }
        }
        assert(now == want);
    }
}

/// The `url(` functions of a spliced text hold what was put in them, unless a parenthesis was.
pub proof fn lemma_spliced_urls(s: Seq<char>, replacements: Seq<Option<Seq<char>>>)
    requires
        replacements.len() == url_spans(s, text::lower(s), 0).len(),
        forall|k: int|
            0 <= k < replacements.len() ==> ((#[trigger] replacements[k]) matches Some(r)
                ==> !r.contains(')')),
    ensures
        ({
            let spans = url_spans(s, text::lower(s), 0);
            let t = splice(s, spans, replacements);
            pieces(t, url_spans(t, text::lower(t), 0)) == placed(s, spans, replacements)
        }),
{
    let spans = url_spans(s, text::lower(s), 0);
    let t = splice(s, spans, replacements);
    lemma_url_spans(s, text::lower(s), 0);
    lemma_spliced(s, spans, replacements);
    assert(t.skip(0) == t);
    lemma_placed_urls(s, replacements, 0, t, 0);
}

/// Where a quote is found, it stands at `from` or behind it, and there is none before it.
proof fn lemma_next_quote(s: Seq<char>, from: int)
    requires
        0 <= from,
    ensures
        next_quote(s, from) matches Some(i) ==> from <= i < s.len() && is_quote(s[i]) && forall|
            x: int,
        |
            from <= x < i ==> !is_quote(#[trigger] s[x]),
        next_quote(s, from) is None ==> forall|x: int|
            from <= x < s.len() ==> !is_quote(#[trigger] s[x]),
    decreases s.len() - from,
{
    if from < s.len() && !is_quote(s[from]) {
        lemma_next_quote(s, from + 1);
    }
}

/// A string ends at its quote.
proof fn lemma_string_end(s: Seq<char>, quote: char, from: int, escaped: bool)
    requires
        0 <= from,
    ensures
        string_end(s, quote, from, escaped) matches Some(e) ==> from <= e < s.len() && s[e] == quote,
    decreases s.len() - from,
{
    if from < s.len() {
        lemma_string_end(s, quote, from + 1, false);
        lemma_string_end(s, quote, from + 1, true);
    }
}

/// A string ends at the same place in texts that agree up to its quote.
proof fn lemma_same_string_end(
    a: Seq<char>,
    b: Seq<char>,
    quote: char,
    i: int,
    j: int,
    escaped: bool,
)
    requires
        0 <= i <= a.len(),
        0 <= j <= b.len(),
        match string_end(a, quote, i, escaped) {
            Some(e) => e - i < b.len() - j && forall|x: int|
                0 <= x <= e - i ==> #[trigger] a[i + x] == b[j + x],
            None => a.len() - i == b.len() - j && forall|x: int|
                0 <= x < a.len() - i ==> #[trigger] a[i + x] == b[j + x],
        },
    ensures
        match string_end(a, quote, i, escaped) {
            Some(e) => string_end(b, quote, j, escaped) == Some(j + e - i),
            None => string_end(b, quote, j, escaped) is None,
        },
    decreases a.len() - i,
{
    lemma_string_end(a, quote, i, escaped);
    lemma_string_end(a, quote, i + 1, false);
    lemma_string_end(a, quote, i + 1, true);
    if i < a.len() {
        assert(a[i + 0] == b[j + 0]) by {
            assert(string_end(a, quote, i, escaped) is Some ==> 0 <= string_end(
                a,
                quote,
                i,
                escaped,
            )->Some_0 - i);
        }
        let next = !escaped && a[i] == '\\';
        if escaped || next || a[i] != quote {
            assert(string_end(a, quote, i, escaped) == string_end(a, quote, i + 1, next));
            assert forall|x: int|
                0 <= x && (match string_end(a, quote, i + 1, next) {
                    Some(e) => x <= e - (i + 1),
                    None => x < a.len() - (i + 1),
                }) implies #[trigger] a[i + 1 + x] == b[j + 1 + x] by {
                assert(a[i + (x + 1)] == b[j + (x + 1)]);
            }
            lemma_same_string_end(a, b, quote, i + 1, j + 1, next);
        }
    }
}

/// A string without quotes and backslashes ends where it should.
proof fn lemma_plain_string_end(s: Seq<char>, quote: char, from: int, end: int)
    requires
        0 <= from <= end < s.len(),
        s[end] == quote,
        quote != '\\',
        forall|x: int| from <= x < end ==> #[trigger] s[x] != quote && s[x] != '\\',
    ensures
        string_end(s, quote, from, false) == Some(end),
    decreases end - from,
{
    if from < end {
        assert(s[from] != quote && s[from] != '\\');
        lemma_plain_string_end(s, quote, from + 1, end);
    }
}

/// The script strings of a text are in order, each behind its quote.
pub proof fn lemma_string_spans(s: Seq<char>, from: int)
    requires
        0 <= from,
    ensures
        behind(string_spans(s, from), from, s.len() as int),
    decreases s.len() - from,
{
    lemma_next_quote(s, from);
    match next_quote(s, from) {
        Some(i) => {
            lemma_string_end(s, s[i], i + 1, false);
            match string_end(s, s[i], i + 1, false) {
                Some(e) => {
                    lemma_string_spans(s, e + 1);
                    let rest = string_spans(s, e + 1);
                    assert(behind(rest, e, s.len() as int));
                    lemma_behind((i + 1, e), rest, from, s.len() as int);
                },
                None => {},
            }
        },
        None => {},
    }
}

/// Whether a text can stand in quotes as it is.
pub open spec fn is_quotable(r: Seq<char>) -> bool {
    forall|i: int| 0 <= i < r.len() ==> !is_quote(#[trigger] r[i]) && r[i] != '\\'
}

/// The script strings of a text whose rest is a spliced text hold what was put there.
#[verifier::spinoff_prover]
#[verifier::rlimit(50)]
proof fn lemma_placed_strings(
    s: Seq<char>,
    replacements: Seq<Option<Seq<char>>>,
    i: int,
    t: Seq<char>,
    j: int,
)
    requires
        0 <= i <= s.len(),
        0 <= j <= t.len(),
        replacements.len() == string_spans(s, i).len(),
        forall|k: int|
            0 <= k < replacements.len() ==> ((#[trigger] replacements[k]) matches Some(r)
                ==> is_quotable(r)),
        t.skip(j) == spliced_from(s, string_spans(s, i), replacements, i),
    ensures
        pieces(t, string_spans(t, j)) == placed(s, string_spans(s, i), replacements),
    decreases s.len() - i,
{
    let spans = string_spans(s, i);
    lemma_next_quote(s, i);
    lemma_next_quote(t, j);
    lemma_string_spans(s, i);
    if spans.len() == 0 {
        assert(t.skip(j) == s.skip(i));
        assert(t.len() - j == s.len() - i);
        assert forall|x: int| 0 <= x < s.len() - i implies #[trigger] s[i + x] == t[j + x] by {
            assert(s.skip(i)[x] == t.skip(j)[x]);
        }
        match next_quote(s, i) {
            Some(k) => {
                let there = j + k - i;
                assert(s[i + (k - i)] == t[j + (k - i)]);
                assert(next_quote(t, j) == Some(there)) by {
                    let found = next_quote(t, j)->Some_0;
                    assert(is_quote(t[there]));
                    assert(s[i + (found - j)] == t[j + (found - j)]);
                    assert(s[found - j + i] == t[found]);
                }
                assert forall|x: int| 0 <= x < s.len() - (k + 1) implies #[trigger] s[k + 1 + x]
                    == t[there + 1 + x] by {
                    assert(s[i + (k + 1 + x - i)] == t[j + (k + 1 + x - i)]);
                }
                lemma_string_end(s, s[k], k + 1, false);
                lemma_same_string_end(s, t, s[k], k + 1, there + 1, false);
            },
            None => {
                match next_quote(t, j) {
                    Some(found) => {
                        assert(s[i + (found - j)] == t[j + (found - j)]);
                        assert(is_quote(s[found - j + i]));
                    },
                    None => {},
                }
            },
        }
        assert(string_spans(t, j).len() == 0);
    } else {
        let k = next_quote(s, i)->Some_0;
        let quote = s[k];
        let start = k + 1;
        lemma_string_end(s, quote, start, false);
        let e = string_end(s, quote, start, false)->Some_0;
        let rest = string_spans(s, e + 1);
        let r = put(s, (start, e), replacements[0]);
        let reps = replacements.drop_first();
        assert(spans == seq![(start, e)] + rest);
        assert(spans[0] == (start, e));
        assert(spans.drop_first() == rest);
        lemma_string_spans(s, e + 1);
        lemma_spliced_step(s, rest, reps, e);
        let tail = spliced_from(s, rest, reps, e + 1);
        let head = s.subrange(i, start);
        assert(t.skip(j) == head + r + (seq![s[e]] + tail));
        let there = j + head.len();
        let end = there + r.len();
        assert(t.len() == j + head.len() + r.len() + 1 + tail.len());
        assert forall|x: int| 0 <= x < start - i implies #[trigger] s[i + x] == t[j + x] by {
            assert(t.skip(j)[x] == head[x]);
        }
        assert(next_quote(t, j) == Some(there - 1)) by {
            assert(s[i + (k - i)] == t[j + (k - i)]);
            assert(is_quote(t[there - 1]));
            let found = next_quote(t, j)->Some_0;
            if found < there - 1 {
                assert(s[i + (found - j)] == t[j + (found - j)]);
                assert(!is_quote(s[found - j + i]));
            }
        }
        assert(t[there - 1] == quote) by {
            assert(s[i + (k - i)] == t[j + (k - i)]);
        }
        assert(t[end] == quote) by {
            assert(t.skip(j)[end - j] == s[e]);
        }
        assert forall|x: int| 0 <= x < r.len() implies #[trigger] t[there + x] == r[x] by {
            assert(t.skip(j)[head.len() + x] == r[x]);
        }
        match replacements[0] {
            Some(text) => {
                assert forall|x: int| there <= x < end implies #[trigger] t[x] != quote && t[x]
                    != '\\' by {
                    assert(t[there + (x - there)] == r[x - there]);
                }
                lemma_plain_string_end(t, quote, there, end);
            },
            None => {
                assert forall|x: int| 0 <= x <= e - start implies #[trigger] s[start + x] == t[there
                    + x] by {
                    if x < e - start {
                        assert(t[there + x] == r[x]);
                    }
                }
                lemma_same_string_end(s, t, quote, start, there, false);
            },
        }
        assert(string_end(t, quote, there, false) == Some(end));
        assert(t.skip(end + 1) == tail) by {
            assert forall|x: int| 0 <= x < tail.len() implies t.skip(end + 1)[x] == tail[x] by {
                assert(t.skip(j)[head.len() + r.len() + 1 + x] == tail[x]);
            }
        }
        assert forall|k: int| 0 <= k < reps.len() implies ((#[trigger] reps[k]) matches Some(r)
            ==> is_quotable(r)) by {
            assert(reps[k] == replacements[k + 1]);
        }
        lemma_placed_strings(s, reps, e + 1, t, end + 1);
        let after = string_spans(t, end + 1);
        assert(string_spans(t, j) == seq![(there, end)] + after);
        assert(t.subrange(there, end) == r) by {
            assert forall|x: int| 0 <= x < r.len() implies t.subrange(there, end)[x] == r[x] by {
                assert(t[there + x] == r[x]);
            }
        }
        let now = pieces(t, string_spans(t, j));
        let want = placed(s, spans, replacements);
        assert(pieces(t, after).len() == placed(s, rest, reps).len());
        assert forall|x: int| 0 <= x < now.len() implies now[x] == want[x] by {
            if x > 0 {
                assert(pieces(t, after)[x - 1] == placed(s, rest, reps)[x - 1]);
            }
        }
        assert(now == want);
    }
}

/// The script strings of a spliced text hold what was put in them, unless a quote or a backslash was.
pub proof fn lemma_spliced_strings(s: Seq<char>, replacements: Seq<Option<Seq<char>>>)
    requires
        replacements.len() == string_spans(s, 0).len(),
        forall|k: int|
            0 <= k < replacements.len() ==> ((#[trigger] replacements[k]) matches Some(r)
                ==> is_quotable(r)),
    ensures
        ({
            let spans = string_spans(s, 0);
            let t = splice(s, spans, replacements);
            pieces(t, string_spans(t, 0)) == placed(s, spans, replacements)
        }),
{
    let spans = string_spans(s, 0);
    let t = splice(s, spans, replacements);
    lemma_string_spans(s, 0);
    lemma_spliced(s, spans, replacements);
    assert(t.skip(0) == t);
    lemma_placed_strings(s, replacements, 0, t, 0);
}

/// What stands before the first of a character.
pub proof fn lemma_before_char(a: Seq<char>, stop: char, b: Seq<char>)
    requires
        !a.contains(stop),
    ensures
        before_char(a + seq![stop] + b, stop) == a,
        text::index_of(a + seq![stop] + b, stop, 0) == Some(a.len() as int),
        before_char(a, stop) == a,
        text::index_of(a, stop, 0) is None,
{
    let s = a + seq![stop] + b;
    let n = a.len() as int;
    text::lemma_index_of(s, stop, 0);
    assert(s[n] == stop);
    let i = text::index_of(s, stop, 0)->Some_0;
    if i < n {
        assert(a[i] == s[i]);
        assert(a.contains(a[i]));
    }
    assert(i == n);
    assert(s.take(n) == a);
    text::lemma_index_of(a, stop, 0);
    match text::index_of(a, stop, 0) {
        Some(j) => {
            assert(a.contains(a[j]));
        },
        None => {},
    }
}

/// What is decoded from a place on depends only on the bytes behind it.
proof fn lemma_unescaped_skip(bytes: Seq<u8>, k: int, from: int)
    requires
        0 <= k,
        0 <= from,
        k + from <= bytes.len(),
    ensures
        unescaped(bytes, k + from) == unescaped(bytes.skip(k), from),
    decreases bytes.len() - k - from,
{
    if k + from < bytes.len() {
        let rest = bytes.skip(k);
        assert(rest[from] == bytes[k + from]);
        if from + 1 < rest.len() {
            assert(rest[from + 1] == bytes[k + from + 1]);
        }
        if from + 2 < rest.len() {
            assert(rest[from + 2] == bytes[k + from + 2]);
            lemma_unescaped_skip(bytes, k, from + 3);
        }
        lemma_unescaped_skip(bytes, k, from + 1);
    }
}

/// Whether a byte is a hexadecimal digit of a value, in either case.
pub open spec fn is_hex_digit_of(b: u8, value: int) -> bool {
    ||| 0 <= value < 10 && b == '0' as int + value
    ||| 10 <= value < 16 && b == 'a' as int + value - 10
    ||| 10 <= value < 16 && b == 'A' as int + value - 10
}

/// A percent sign and two hexadecimal digits stand for the byte of that number. What stands before it
/// without a percent sign stays, and what follows is decoded in turn.
pub proof fn law_percent_signs_stand_for_bytes(
    before: Seq<u8>,
    high: u8,
    low: u8,
    after: Seq<u8>,
    tens: int,
    units: int,
)
    requires
        forall|i: int| 0 <= i < before.len() ==> #[trigger] before[i] != '%' as u8,
        is_hex_digit_of(high, tens),
        is_hex_digit_of(low, units),
    ensures
        unescaped(before + seq!['%' as u8, high, low] + after, 0) == before + seq![
            (16 * tens + units) as u8,
        ] + unescaped(after, 0),
    decreases before.len(),
{
    let bytes = before + seq!['%' as u8, high, low] + after;
    if before.len() == 0 {
        assert(bytes[0] == 37u8 && bytes[1] == high && bytes[2] == low);
        assert(bytes.skip(3) == after);
        lemma_unescaped_skip(bytes, 3, 0);
        assert(before == Seq::<u8>::empty());
        assert(unescaped(bytes, 0) == seq![(16 * tens + units) as u8] + unescaped(after, 0));
    } else {
        let rest = before.skip(1);
        assert(bytes[0] == before[0]);
        assert(bytes.skip(1) == rest + seq!['%' as u8, high, low] + after);
        assert forall|i: int| 0 <= i < rest.len() implies #[trigger] rest[i] != '%' as u8 by {
            assert(rest[i] == before[i + 1]);
        }
        law_percent_signs_stand_for_bytes(rest, high, low, after, tens, units);
        lemma_unescaped_skip(bytes, 1, 0);
        assert(unescaped(bytes, 0) == seq![before[0]] + unescaped(bytes.skip(1), 0));
        assert(seq![before[0]] + rest == before);
        assert(unescaped(bytes, 0) == before + seq![(16 * tens + units) as u8] + unescaped(after, 0));
    }
}

/// A percent sign without two hexadecimal digits behind it stays as it is.
pub proof fn law_other_percent_signs_stay(after: Seq<u8>)
    requires
        after.len() < 2 || !(exists|v: int| is_hex_digit_of(after[0], v)) || !(exists|v: int|
            is_hex_digit_of(after[1], v)),
    ensures
        unescaped(seq!['%' as u8] + after, 0) == seq!['%' as u8] + unescaped(after, 0),
{
    let bytes = seq!['%' as u8] + after;
    assert(bytes.skip(1) == after);
    lemma_unescaped_skip(bytes, 1, 0);
    if after.len() >= 2 {
        assert(bytes[1] == after[0] && bytes[2] == after[1]);
        if hex_value(after[0]) is Some {
            assert(is_hex_digit_of(after[0], hex_value(after[0])->Some_0 as int));
        }
        if hex_value(after[1]) is Some {
            assert(is_hex_digit_of(after[1], hex_value(after[1])->Some_0 as int));
        }
    }
}

/// Script strings behind a place do not depend on what stands before it.
proof fn lemma_string_spans_skip(s: Seq<char>, k: int, from: int)
    requires
        0 <= k,
        0 <= from,
        k + from <= s.len(),
    ensures
        string_spans(s, k + from).len() == string_spans(s.skip(k), from).len(),
        forall|i: int|
            0 <= i < string_spans(s, k + from).len() ==> #[trigger] string_spans(s, k + from)[i] == (
                string_spans(s.skip(k), from)[i].0 + k,
                string_spans(s.skip(k), from)[i].1 + k,
            ),
    decreases s.len() - k - from,
{
    let t = s.skip(k);
    lemma_next_quote_skip(s, k, from);
    lemma_next_quote(t, from);
    match next_quote(t, from) {
        Some(i) => {
            lemma_string_end_skip(s, k, t[i], i + 1, false);
            lemma_string_end(t, t[i], i + 1, false);
            match string_end(t, t[i], i + 1, false) {
                Some(e) => {
                    lemma_string_spans_skip(s, k, e + 1);
                },
                None => {},
            }
        },
        None => {},
    }
}

/// The next quote behind a place does not depend on what stands before it.
proof fn lemma_next_quote_skip(s: Seq<char>, k: int, from: int)
    requires
        0 <= k,
        0 <= from,
        k + from <= s.len(),
    ensures
        next_quote(s, k + from) == match next_quote(s.skip(k), from) {
            Some(i) => Some(i + k),
            None => None,
        },
    decreases s.len() - k - from,
{
    if k + from < s.len() {
        assert(s.skip(k)[from] == s[k + from]);
        lemma_next_quote_skip(s, k, from + 1);
    }
}

/// The end of a string does not depend on what stands before it.
proof fn lemma_string_end_skip(s: Seq<char>, k: int, quote: char, from: int, escaped: bool)
    requires
        0 <= k,
        0 <= from,
        k + from <= s.len(),
    ensures
        string_end(s, quote, k + from, escaped) == match string_end(
            s.skip(k),
            quote,
            from,
            escaped,
        ) {
            Some(i) => Some(i + k),
            None => None,
        },
    decreases s.len() - k - from,
{
    if k + from < s.len() {
        assert(s.skip(k)[from] == s[k + from]);
        lemma_string_end_skip(s, k, quote, from + 1, false);
        lemma_string_end_skip(s, k, quote, from + 1, true);
    }
}

/// The strings of a script are what stands in single or double quotes, one behind the other.
pub proof fn law_script_strings_stand_in_quotes(
    before: Seq<char>,
    quote: char,
    value: Seq<char>,
    after: Seq<char>,
)
    requires
        quote == '\'' || quote == '"',
        !before.contains('\''),
        !before.contains('"'),
        !value.contains(quote),
        !value.contains('\\'),
    ensures
        pieces(
            before + seq![quote] + value + seq![quote] + after,
            string_spans(before + seq![quote] + value + seq![quote] + after, 0),
        ) == seq![value] + pieces(after, string_spans(after, 0)),
{
    let s = before + seq![quote] + value + seq![quote] + after;
    let b = before.len() as int;
    let e = b + 1 + value.len();
    assert(s[b] == quote && s[e] == quote);
    lemma_next_quote(s, 0);
    match next_quote(s, 0) {
        Some(i) => {
            if i < b {
                assert(before[i] == s[i]);
                assert(before.contains(before[i]));
            }
            assert(i == b);
        },
        None => {
            assert(!is_quote(s[b]));
        },
    }
    assert forall|x: int| b + 1 <= x < e implies #[trigger] s[x] != quote && s[x] != '\\' by {
        assert(s[x] == value[x - b - 1]);
        assert(value.contains(value[x - b - 1]));
    }
    lemma_plain_string_end(s, quote, b + 1, e);
    let rest = string_spans(after, 0);
    assert(s.skip(e + 1) == after);
    lemma_string_spans_skip(s, e + 1, 0);
    lemma_string_spans(after, 0);
    let spans = string_spans(s, 0);
    let behind_it = string_spans(s, e + 1);
    assert(spans == seq![(b + 1, e)] + behind_it);
    let all = pieces(s, spans);
    let want = seq![value] + pieces(after, rest);
    assert(all.len() == want.len());
    assert forall|i: int| 0 <= i < all.len() implies all[i] == want[i] by {
        if i == 0 {
            assert(s.subrange(b + 1, e) == value);
        } else {
            assert(spans[i] == behind_it[i - 1]);
            let span = rest[i - 1];
            assert(behind_it[i - 1] == (span.0 + e + 1, span.1 + e + 1));
            assert(s.subrange(span.0 + e + 1, span.1 + e + 1) == after.subrange(span.0, span.1));
        }
    }
    assert(all == want);
}

/// The first URL of a style attribute is what stands in the parentheses of its first `url(`, in
/// whatever case that is written.
pub proof fn law_style_urls_stand_in_parentheses(
    before: Seq<char>,
    mark: Seq<char>,
    value: Seq<char>,
    after: Seq<char>,
)
    requires
        text::lower(mark) == "url("@,
        !value.contains(')'),
        forall|j: int|
            0 <= j < before.len() ==> !#[trigger] text::at(
                text::lower(before + mark + value + seq![')'] + after),
                "url("@,
                j,
            ),
    ensures
        ({
            let s = before + mark + value + seq![')'] + after;
            let found = pieces(s, url_spans(s, text::lower(s), 0));
            found.len() > 0 && found[0] == value
        }),
{
    let s = before + mark + value + seq![')'] + after;
    let l = text::lower(s);
    reveal_strlit("url(");
    assert("url("@.len() == 4);
    assert(mark.len() == 4) by {
        assert(text::lower(mark).len() == mark.len());
    }
    let b = before.len() as int;
    assert(l.subrange(b, b + 4) == "url("@) by {
        assert forall|i: int| 0 <= i < 4 implies l[b + i] == #[trigger] "url("@[i] by {
            assert(s[b + i] == mark[i]);
            assert(text::lower(mark)[i] == "url("@[i]);
        }
    }
    lemma_first_at(l, "url("@, 0, b);
    let start = b + 4;
    let e = start + value.len();
    assert(s[e] == ')');
    text::lemma_index_of(s, ')', start);
    let i = text::index_of(s, ')', start)->Some_0;
    if i < e {
        assert(s[i] == value[i - start]);
        assert(value.contains(value[i - start]));
    }
    assert(i == e);
    assert(s.subrange(start, e) == value);
    let spans = url_spans(s, l, 0);
    assert(spans == seq![(start, e)] + url_spans(s, l, e + 1));
    assert(spans[0] == (start, e));
}

/// A text is found where it stands first.
pub proof fn lemma_first_at(s: Seq<char>, p: Seq<char>, from: int, n: int)
    requires
        0 <= from <= n,
        text::at(s, p, n),
        forall|j: int| from <= j < n ==> !#[trigger] text::at(s, p, j),
    ensures
        text::find(s, p, from) == Some(n),
    decreases n - from,
{
    if from < n {
        assert(!text::at(s, p, from));
        lemma_first_at(s, p, from + 1, n);
    }
}

/// A refresh leads to what stands behind its first `url=`, in whatever case that is written: in quotes
/// up to the same quote, and otherwise up to a semicolon or white space.
pub proof fn law_refreshes_lead_behind_url(
    before: Seq<char>,
    mark: Seq<char>,
    blank: Seq<char>,
    quote: Option<char>,
    value: Seq<char>,
    after: Seq<char>,
    s: Seq<char>,
)
    requires
        s == before + mark + blank + (match quote {
            Some(q) => seq![q] + value + seq![q],
            None => value,
        }) + after,
        text::lower(mark) == "url="@,
        forall|i: int| 0 <= i < blank.len() ==> text::is_white(#[trigger] blank[i]),
        value.len() > 0,
        match quote {
            Some(q) => (q == '\'' || q == '"') && !value.contains(q),
            None => value[0] != '\'' && value[0] != '"' && (forall|i: int|
                0 <= i < value.len() ==> !text::is_white(#[trigger] value[i]) && value[i] != ';')
                && (after.len() > 0 ==> after[0] == ';' || text::is_white(after[0])),
        },
        forall|j: int|
            0 <= j < before.len() ==> !#[trigger] text::at(text::lower(s), "url="@, j),
    ensures
        refresh_span(s) matches Some(span) && s.subrange(span.0, span.1) == value,
{
    let target = match quote {
        Some(q) => seq![q] + value + seq![q],
        None => value,
    };
    let l = text::lower(s);
    reveal_strlit("url=");
    assert("url="@.len() == 4);
    assert(mark.len() == 4) by {
        assert(text::lower(mark).len() == mark.len());
    }
    let b = before.len() as int;
    assert(l.subrange(b, b + 4) == "url="@) by {
        assert forall|i: int| 0 <= i < 4 implies l[b + i] == #[trigger] "url="@[i] by {
            assert(s[b + i] == mark[i]);
            assert(text::lower(mark)[i] == "url="@[i]);
        }
    }
    lemma_first_at(l, "url="@, 0, b);
    let start = b + 4 + blank.len();
    assert(s[start] == target[0]);
    assert forall|i: int| b + 4 <= i < start implies text::is_white(#[trigger] s[i]) by {
        assert(s[i] == blank[i - b - 4]);
    }
    assert(!text::is_white(s[start]));
    lemma_skip_white(s, b + 4, start);
    match quote {
        Some(q) => {
            let e = start + 1 + value.len();
            assert(s[e] == q);
            text::lemma_index_of(s, q, start + 1);
            let i = text::index_of(s, q, start + 1)->Some_0;
            if i < e {
                assert(s[i] == value[i - start - 1]);
                assert(value.contains(value[i - start - 1]));
            }
            assert(i == e);
            assert(s.subrange(start + 1, e) == value);
        },
        None => {
            let e = start + value.len();
            assert forall|i: int| start <= i < e implies !text::is_white(#[trigger] s[i]) && s[i]
                != ';' by {
                assert(s[i] == value[i - start]);
            }
            if e < s.len() {
                assert(s[e] == after[0]);
            }
            lemma_value_end(s, start, e);
            assert(s.subrange(start, e) == value);
        },
    }
}

/// White space is skipped up to the first other character.
pub proof fn lemma_skip_white(s: Seq<char>, from: int, n: int)
    requires
        0 <= from <= n < s.len(),
        forall|i: int| from <= i < n ==> text::is_white(#[trigger] s[i]),
        !text::is_white(s[n]),
    ensures
        skip_white(s, from) == n,
    decreases n - from,
{
    if from < n {
        assert(text::is_white(s[from]));
        lemma_skip_white(s, from + 1, n);
    }
}

/// A value ends before the first semicolon or white space.
proof fn lemma_value_end(s: Seq<char>, from: int, n: int)
    requires
        0 <= from <= n <= s.len(),
        forall|i: int| from <= i < n ==> !text::is_white(#[trigger] s[i]) && s[i] != ';',
        n < s.len() ==> text::is_white(s[n]) || s[n] == ';',
    ensures
        value_end(s, from) == n,
    decreases n - from,
{
    if from < n {
        assert(!text::is_white(s[from]) && s[from] != ';');
        lemma_value_end(s, from + 1, n);
    }
}

/// The references of a `srcset` are the first words of its candidates, in order; a candidate without a
/// word has none.
pub proof fn law_srcset_references_are_first_words(
    candidates: Seq<Seq<char>>,
    words: Seq<Seq<char>>,
    blank: Seq<char>,
)
    requires
        words.len() > 0,
        forall|i: int|
            0 <= i < words.len() ==> (#[trigger] words[i]).len() > 0 && forall|j: int|
                0 <= j < words[i].len() ==> !text::is_white(#[trigger] words[i][j]),
        text::words(blank, 0).len() == 0,
    ensures
        srcset_of(Seq::empty()) == Seq::<Seq<char>>::empty(),
        srcset_of(candidates.push(text::join(words, " "@))) == srcset_of(candidates).push(words[0]),
        srcset_of(candidates.push(blank)) == srcset_of(candidates),
{
    text::law_written_words_are_read(words);
    assert(candidates.push(text::join(words, " "@)).drop_last() == candidates);
    assert(candidates.push(blank).drop_last() == candidates);
}

/// A text in which no piece is replaced stays as it is.
pub proof fn law_splicing_nothing_changes_nothing(
    s: Seq<char>,
    spans: Seq<(int, int)>,
    replacements: Seq<Option<Seq<char>>>,
)
    requires
        in_order(spans, s.len() as int),
        replacements.len() == spans.len(),
        forall|i: int| 0 <= i < replacements.len() ==> (#[trigger] replacements[i]) is None,
    ensures
        splice(s, spans, replacements) == s,
    decreases spans.len(),
{
    if spans.len() > 0 {
        let last = spans[spans.len() - 1];
        let front = spans.drop_last();
        let t = s.take(last.0);
        assert(in_order(front, t.len() as int)) by {
            assert forall|i: int| 0 <= i < front.len() implies 0 <= (#[trigger] front[i]).0
                <= front[i].1 <= t.len() by {
                assert(front[i] == spans[i]);
                assert(spans[i].1 <= spans[spans.len() - 1].0);
            }
            assert forall|i: int, j: int| 0 <= i < j < front.len() implies (#[trigger] front[i]).1
                <= (#[trigger] front[j]).0 by {
                assert(front[i] == spans[i] && front[j] == spans[j]);
            }
        }
        let rest = replacements.drop_last();
        assert forall|i: int| 0 <= i < rest.len() implies (#[trigger] rest[i]) is None by {
            assert(rest[i] == replacements[i]);
        }
        law_splicing_nothing_changes_nothing(t, front, rest);
        assert(replacements[replacements.len() - 1] is None);
        assert(s.take(last.0) + s.subrange(last.0, last.1) + s.skip(last.1) == s);
    }
}

/// References to a place in the page, to another host without a scheme, to mail, telephones, scripts
/// and data are skipped, by how they start; no other is.
pub proof fn law_skipped_references(s: Seq<char>)
    ensures
        is_skipped(s) <==> text::starts_with(s, "#"@) || text::starts_with(s, "//"@)
            || text::starts_with(s, "mailto:"@) || text::starts_with(s, "tel:"@)
            || text::starts_with(s, "javascript:"@) || text::starts_with(s, "data:"@)
            || text::starts_with(s, "blob:"@),
{
}

} // verus!
