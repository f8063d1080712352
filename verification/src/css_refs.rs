//! References in style sheets, found by `cssparser`'s tokens.
use crate::numbers;
use crate::scan;
use crate::text;
use cssparser::{CssStringWriter, ParseError, Parser, ParserInput, ToCss, Token};
use vstd::prelude::*;
use vstd::string::*;
use vstd::utf8::{encode_scalar, encode_utf8, is_char_boundary};

verus! {

/// What a token of a style sheet is.
#[derive(Debug, Clone, Copy, PartialEq, Eq, Structural)]
pub enum CssKind {
    /// A word behind an at sign.
    AtKeyword,
    /// A URL without quotes, with its `url(` and parenthesis.
    Url,
    /// A string in quotes.
    Quoted,
    /// The name of a function and its opening parenthesis.
    Function,
    /// An opening bracket.
    Block,
    /// Anything else.
    Other,
}

/// One token: its kind, the decoded word, URL, string or function name in it, and the bytes where
/// it starts and ends.
#[verifier::ext_equal]
pub struct CssToken {
    pub kind: CssKind,
    pub value: Seq<char>,
    pub start: nat,
    pub end: nat,
}

/// The token that was read from byte `at` on.
pub open spec fn token_view(token: Option<(CssKind, String, usize, usize)>, at: nat) -> Option<
    CssToken,
> {
    match token {
        Some((kind, value, start, end)) => Some(
            CssToken { kind, value: value@, start: at + start as nat, end: at + end as nat },
        ),
        None => None,
    }
}

/// Whether a token opens a block.
pub open spec fn opens_block(kind: CssKind) -> bool {
    kind == CssKind::Function || kind == CssKind::Block
}

/// The token that `cssparser` reads from byte `at` of a style sheet on, behind white space and
/// comments.
pub uninterp spec fn css_token(input: Seq<char>, at: nat) -> Option<CssToken>;

/// Where `cssparser` finds the end of the block that the token from byte `at` on opens.
pub uninterp spec fn css_block_end(input: Seq<char>, at: nat) -> nat;

/// The escape of an ASCII character by its number, in hexadecimal digits.
pub open spec fn hex_escaped(c: char) -> Seq<char> {
    let n = c as u32 as int;
    if n > 15 {
        seq!['\\', numbers::hex_digit(n / 16), numbers::hex_digit(n % 16), ' ']
    } else {
        seq!['\\', numbers::hex_digit(n), ' ']
    }
}

/// A character inside double quotes: quotes, backslashes and control characters are escaped.
pub open spec fn string_char(c: char) -> Seq<char> {
    if c == '"' || c == '\\' {
        seq!['\\', c]
    } else if c == '\0' {
        seq!['\u{fffd}']
    } else if c <= '\u{1f}' || c == '\u{7f}' {
        hex_escaped(c)
    } else {
        seq![c]
    }
}

/// A text as it stands inside double quotes.
pub open spec fn css_string_escaped(value: Seq<char>) -> Seq<char>
    decreases value.len(),
{
    if value.len() == 0 {
        Seq::empty()
    } else {
        css_string_escaped(value.drop_last()) + string_char(value.last())
    }
}

/// A character of a URL without quotes: white space, control characters, parentheses, quotes and
/// backslashes are escaped.
pub open spec fn url_char(c: char) -> Seq<char> {
    if c <= ' ' || c == '\u{7f}' {
        hex_escaped(c)
    } else if c == '(' || c == ')' || c == '"' || c == '\'' || c == '\\' {
        seq!['\\', c]
    } else {
        seq![c]
    }
}

/// A URL as it stands without quotes in a `url` function.
pub open spec fn css_url_escaped(value: Seq<char>) -> Seq<char>
    decreases value.len(),
{
    if value.len() == 0 {
        Seq::empty()
    } else {
        css_url_escaped(value.drop_last()) + url_char(value.last())
    }
}

/// A `url` function with a URL without quotes.
pub open spec fn css_unquoted_url(value: Seq<char>) -> Seq<char> {
    "url("@ + css_url_escaped(value) + ")"@
}

/// `cssparser::Parser::skip_whitespace`, which skips comments too, and `next` on the style sheet
/// from byte `at` on; the bytes of the result count from there. The result is named. A token is not
/// empty and ends between two characters.
#[verifier::external_body]
pub(crate) fn token_at(input: &str, at: usize) -> (r: Option<(CssKind, String, usize, usize)>)
    requires
        is_char_boundary(input.spec_bytes(), at as int),
    ensures
        token_view(r, at as nat) == css_token(input@, at as nat),
        r matches Some(token) ==> token.2 < token.3 && at + token.3 <= input.spec_bytes().len()
            && is_char_boundary(input.spec_bytes(), at + token.3),
{
    let mut source = ParserInput::new(&input[at..]);
    let mut parser = Parser::new(&mut source);
    parser.skip_whitespace();
    let start = parser.position().byte_index();
    let (kind, value) = match parser.next().ok()?.clone() {
        Token::AtKeyword(name) => (CssKind::AtKeyword, name),
        Token::UnquotedUrl(url) => (CssKind::Url, url),
        Token::QuotedString(string) => (CssKind::Quoted, string),
        Token::Function(name) => (CssKind::Function, name),
        Token::CurlyBracketBlock | Token::SquareBracketBlock | Token::ParenthesisBlock => (CssKind::Block, "".into()),
        _ => (CssKind::Other, "".into()),
    };
    Some((kind, value.to_string(), start, parser.position().byte_index()))
}

/// `cssparser::Parser::parse_nested_block` behind the token from byte `at` on, with nothing parsed
/// inside; gives the position behind the block, counted from `at`. The result is named. The block
/// ends at or behind its opening token, between two characters.
#[verifier::external_body]
pub(crate) fn block_end_at(input: &str, at: usize) -> (r: usize)
    requires
        is_char_boundary(input.spec_bytes(), at as int),
        css_token(input@, at as nat) matches Some(token) && opens_block(token.kind),
    ensures
        at + r == css_block_end(input@, at as nat),
        css_token(input@, at as nat)->Some_0.end <= at + r <= input.spec_bytes().len(),
        is_char_boundary(input.spec_bytes(), at + r),
{
    let mut source = ParserInput::new(&input[at..]);
    let mut parser = Parser::new(&mut source);
    let _ = parser.next();
    let _ = parser.parse_nested_block(|_| Ok::<_, ParseError<'_, ()>>(()));
    parser.position().byte_index()
}

/// `cssparser::CssStringWriter`: double quotes and backslashes get a backslash, control characters
/// their number, and the null character is replaced.
#[verifier::external_body]
fn escape_css_string(value: &str) -> (r: String)
    ensures
        r@ == css_string_escaped(value@),
{
    let mut escaped = String::new();
    let _ = std::fmt::Write::write_str(&mut CssStringWriter::new(&mut escaped), value);
    escaped
}

/// `cssparser::ToCss` for `cssparser::Token::UnquotedUrl`: the URL in a `url` function, with a
/// backslash before parentheses, quotes and backslashes, and with the number of white space and
/// control characters.
#[verifier::external_body]
fn write_unquoted_url(value: &str) -> (r: String)
    ensures
        r@ == css_unquoted_url(value@),
{
    Token::UnquotedUrl(value.into()).to_css_string()
}

/// A decoded URL and the token that holds it.
#[derive(Debug)]
pub struct CssReference {
    pub value: String,
    /// Where the token starts, in bytes.
    pub start: usize,
    /// Where the token ends, in bytes.
    pub end: usize,
    /// The quote of a string token.
    pub quote: Option<char>,
}

/// The mathematical form of a reference.
#[verifier::ext_equal]
pub struct CssReferenceView {
    pub value: Seq<char>,
    pub start: nat,
    pub end: nat,
    pub quote: Option<char>,
}

impl View for CssReference {
    type V = CssReferenceView;

    open spec fn view(&self) -> CssReferenceView {
        CssReferenceView {
            value: self.value@,
            start: self.start as nat,
            end: self.end as nat,
            quote: self.quote,
        }
    }
}

/// The views of a list of references.
pub open spec fn css_reference_views(refs: Seq<CssReference>) -> Seq<CssReferenceView> {
    Seq::new(refs.len(), |i: int| refs[i]@)
}

/// The text with a backslash before each single quote.
pub open spec fn single_quotes_escaped(s: Seq<char>) -> Seq<char>
    decreases s.len(),
{
    if s.len() == 0 {
        s
    } else if s.last() == '\'' {
        single_quotes_escaped(s.drop_last()).push('\\').push('\'')
    } else {
        single_quotes_escaped(s.drop_last()).push(s.last())
    }
}

impl CssReferenceView {
    /// What is written in the place of the token to refer to `value`.
    pub open spec fn replacement(self, value: Seq<char>) -> Seq<char> {
        match self.quote {
            Some(quote) => {
                let escaped = css_string_escaped(value);
                let inner = if quote == '\'' {
                    single_quotes_escaped(escaped)
                } else {
                    escaped
                };
                seq![quote] + inner + seq![quote]
            },
            None => css_unquoted_url(value),
        }
    }

    /// What is written in the place of the token to refer to nothing.
    pub open spec fn emptied(self) -> Seq<char> {
        if self.quote is Some {
            "\"\""@
        } else {
            "url(\"\")"@
        }
    }
}

impl CssReference {
    /// What is written in the place of the token to refer to `value`, in the quotes that it had.
    pub fn replacement(&self, value: &str) -> (r: String)
        ensures
            r@ == self@.replacement(value@),
    {
        match self.quote {
            Some(quote) => {
                let escaped = text::chars_of(escape_css_string(value).as_str());
                let mut out: Vec<char> = Vec::new();
                out.push(quote);
                let ghost inner = if quote == '\'' {
                    single_quotes_escaped(escaped@)
                } else {
                    escaped@
                };
                if quote == '\'' {
                    let mut i: usize = 0;
                    while i < escaped.len()
                        invariant
                            i <= escaped@.len(),
                            out@ == seq![quote] + single_quotes_escaped(escaped@.take(i as int)),
                        decreases escaped@.len() - i,
                    {
                        proof {
                            let upto = escaped@.take(i + 1);
                            assert(upto.drop_last() == escaped@.take(i as int));
                            assert(upto.last() == escaped@[i as int]);
                        }
                        let c = escaped[i];
                        if c == '\'' {
                            out.push('\\');
                        }
                        out.push(c);
                        i += 1;
                    }
                    proof {
                        assert(escaped@.take(escaped@.len() as int) == escaped@);
                    }
                } else {
                    text::push_chars(&mut out, &escaped);
                }
                assert(out@ == seq![quote] + inner);
                out.push(quote);
                assert(out@ == seq![quote] + inner + seq![quote]);
                text::string_of(&out)
            },
            None => write_unquoted_url(value),
        }
    }

    /// What is written in the place of the token to refer to nothing.
    pub fn emptied(&self) -> (r: String)
        ensures
            r@ == self@.emptied(),
    {
        match self.quote {
            Some(_) => "\"\"".to_owned(),
            None => "url(\"\")".to_owned(),
        }
    }
}

/// Whether the token at hand is a reference.
pub open spec fn refers(token: CssToken, in_url: bool, after_import: bool) -> bool {
    token.kind == CssKind::Url || (token.kind == CssKind::Quoted && (in_url || after_import))
}

/// The reference of a token.
pub open spec fn reference_of(input: Seq<char>, token: CssToken) -> CssReferenceView {
    CssReferenceView {
        value: token.value,
        start: token.start,
        end: token.end,
        quote: if token.kind == CssKind::Quoted {
            Some(encode_utf8(input)[token.start as int] as char)
        } else {
            None
        },
    }
}

/// The references between byte `at` and byte `stop`: URLs, the strings of `url` functions, and the
/// string of an import rule. `in_url` tells that the range lies in a `url` function, `after_import`
/// that the word before was the keyword of an import rule.
pub open spec fn references_in(
    input: Seq<char>,
    at: nat,
    stop: nat,
    in_url: bool,
    after_import: bool,
) -> Seq<CssReferenceView>
    decreases stop - at,
{
    match css_token(input, at) {
        Some(token) => if at < stop && at < token.end <= stop {
            if token.kind == CssKind::AtKeyword && text::same_ignoring_case(
                token.value,
                "import"@,
            ) {
                references_in(input, token.end, stop, in_url, true)
            } else if opens_block(token.kind) {
                let end = css_block_end(input, at);
                if token.end <= end <= stop {
                    let is_url = token.kind == CssKind::Function && text::same_ignoring_case(
                        token.value,
                        "url"@,
                    );
                    references_in(input, token.end, end, is_url, false) + references_in(
                        input,
                        end,
                        stop,
                        in_url,
                        false,
                    )
                } else {
                    Seq::empty()
                }
            } else if refers(token, in_url, after_import) {
                seq![reference_of(input, token)] + references_in(
                    input,
                    token.end,
                    stop,
                    in_url,
                    false,
                )
            } else {
                references_in(input, token.end, stop, in_url, false)
            }
        } else {
            Seq::empty()
        },
        None => Seq::empty(),
    }
}

/// The references of a style sheet.
pub open spec fn css_references(input: Seq<char>) -> Seq<CssReferenceView> {
    references_in(input, 0, encode_utf8(input).len(), false, false)
}

/// Whether references lie between two bytes, one behind the other.
pub open spec fn in_places(refs: Seq<CssReferenceView>, from: nat, to: nat) -> bool {
    &&& forall|i: int|
        0 <= i < refs.len() ==> from <= (#[trigger] refs[i]).start <= refs[i].end <= to
    &&& forall|i: int, j: int|
        0 <= i < j < refs.len() ==> (#[trigger] refs[i]).end <= (#[trigger] refs[j]).start
}

/// References between two bytes and others behind them.
proof fn lemma_in_places(
    a: Seq<CssReferenceView>,
    b: Seq<CssReferenceView>,
    from: nat,
    middle: nat,
    to: nat,
)
    requires
        in_places(a, from, middle),
        in_places(b, middle, to),
        from <= middle <= to,
    ensures
        in_places(a + b, from, to),
{
    let all = a + b;
    assert forall|i: int| 0 <= i < all.len() implies from <= (#[trigger] all[i]).start
        <= all[i].end <= to by {
        if i < a.len() {
            assert(all[i] == a[i]);
        } else {
            assert(all[i] == b[i - a.len()]);
        }
    }
    assert forall|i: int, j: int| 0 <= i < j < all.len() implies (#[trigger] all[i]).end <= (
    #[trigger] all[j]).start by {
        if i < a.len() {
            assert(all[i] == a[i]);
        } else {
            assert(all[i] == b[i - a.len()]);
        }
        if j < a.len() {
            assert(all[j] == a[j]);
        } else {
            assert(all[j] == b[j - a.len()]);
        }
    }
}

/// Appends the references between two places.
fn collect(input: &str, start: usize, stop: usize, in_url: bool, refs: &mut Vec<CssReference>)
    requires
        is_char_boundary(input.spec_bytes(), start as int),
        start <= stop <= input.spec_bytes().len(),
        in_places(css_reference_views(old(refs)@), 0, start as nat),
    ensures
        in_places(css_reference_views(final(refs)@), 0, stop as nat),
        css_reference_views(final(refs)@) == css_reference_views(old(refs)@) + references_in(
            input@,
            start as nat,
            stop as nat,
            in_url,
            false,
        ),
    decreases stop - start,
{
    let ghost before = css_reference_views(refs@);
    let ghost whole = references_in(input@, start as nat, stop as nat, in_url, false);
    let mut at: usize = start;
    let mut after_import = false;
    let size: usize = input.as_bytes().len();
    loop
        invariant
            size == input.spec_bytes().len(),
            start <= at <= stop <= input.spec_bytes().len(),
            is_char_boundary(input.spec_bytes(), at as int),
            in_places(css_reference_views(refs@), 0, at as nat),
            before + whole == css_reference_views(refs@) + references_in(
                input@,
                at as nat,
                stop as nat,
                in_url,
                after_import,
            ),
        ensures
            css_reference_views(refs@) == before + whole,
            in_places(css_reference_views(refs@), 0, stop as nat),
        decreases stop - at,
    {
        let ghost so_far = css_reference_views(refs@);
        let (kind, value, from, to) = match token_at(input, at) {
            Some(token) => token,
            None => {
                proof {
                    assert(so_far + Seq::<CssReferenceView>::empty() == so_far);
                }
                break;
            },
        };
        let ghost token = css_token(input@, at as nat)->Some_0;
        let token_start: usize = at + from;
        let token_end: usize = at + to;
        if at >= stop || token_end > stop {
            proof {
                assert(so_far + Seq::<CssReferenceView>::empty() == so_far);
            }
            break;
        }
        let is_function = kind == CssKind::Function;
        if kind == CssKind::AtKeyword && text::equal_ignoring_case(
            value.as_str(),
            "import",
        ) {
            after_import = true;
            at = token_end;
        } else if is_function || kind == CssKind::Block {
            let end: usize = at + block_end_at(input, at);
            if end > stop {
                proof {
                    assert(so_far + Seq::<CssReferenceView>::empty() == so_far);
                }
                break;
            }
            let is_url = is_function && text::equal_ignoring_case(value.as_str(), "url");
            collect(input, token_end, end, is_url, refs);
            proof {
                let inner = references_in(input@, token_end as nat, end as nat, is_url, false);
                let outer = references_in(input@, end as nat, stop as nat, in_url, false);
                assert(so_far + (inner + outer) == (so_far + inner) + outer);
            }
            after_import = false;
            at = end;
        } else {
            let quoted = kind == CssKind::Quoted;
            if kind == CssKind::Url || (quoted && (in_url || after_import)) {
                let quote: Option<char> = if quoted {
                    Some(input.as_bytes()[token_start] as char)
                } else {
                    None
                };
                let found = CssReference { value, start: token_start, end: token_end, quote };
                refs.push(found);
                proof {
                    let rest = references_in(input@, token_end as nat, stop as nat, in_url, false);
                    assert(css_reference_views(refs@) == so_far.push(found@));
                    assert(found@ == reference_of(input@, token));
                    lemma_in_places(so_far, seq![found@], 0, at as nat, token_end as nat);
                    assert(so_far + seq![found@] == so_far.push(found@));
                    assert(so_far + (seq![found@] + rest) == so_far.push(found@) + rest);
                }
            }
            after_import = false;
            at = token_end;
        }
    }
}

/// Finds URLs, strings in `url` functions and the strings of import rules, in nested rules too.
pub fn references(input: &str) -> (r: Vec<CssReference>)
    ensures
        css_reference_views(r@) == css_references(input@),
        in_places(css_reference_views(r@), 0, encode_utf8(input@).len()),
{
    let mut refs: Vec<CssReference> = Vec::new();
    let ghost before = css_reference_views(refs@);
    let n: usize = input.as_bytes().len();
    proof {
        vstd::utf8::encode_utf8_valid_utf8(input@);
        vstd::utf8::is_char_boundary_start_end_of_seq(input.spec_bytes());
    }
    collect(input, 0, n, false, &mut refs);
    proof {
        assert(before + css_references(input@) == css_references(input@));
    }
    refs
}

/// The decoded values of references.
pub open spec fn css_values(refs: Seq<CssReferenceView>) -> Seq<Seq<char>> {
    Seq::new(refs.len(), |i: int| refs[i].value)
}

/// The decoded URLs of a style sheet.
pub fn reference_values(input: &str) -> (r: Vec<String>)
    ensures
        text::views(r@) == css_values(css_references(input@)),
{
    let refs = references(input);
    let ghost all = css_values(css_reference_views(refs@));
    let mut r: Vec<String> = Vec::new();
    let mut i: usize = 0;
    while i < refs.len()
        invariant
            i <= refs@.len(),
            all == css_values(css_reference_views(refs@)),
            text::views(r@) == all.take(i as int),
        decreases refs@.len() - i,
    {
        let ghost before = text::views(r@);
        r.push(refs[i].value.clone());
        i += 1;
        proof {
            assert(text::views(r@) == before.push(refs@[i - 1].value@));
            assert(all.take(i as int) == all.take(i - 1).push(all[i - 1]));
        }
    }
    proof {
        assert(all.take(refs@.len() as int) == all);
    }
    r
}

/// How many bytes a character takes.
pub open spec fn char_width(c: char) -> nat {
    encode_scalar(c as u32).len()
}

/// How many bytes a character takes.
fn width_of(c: char) -> (r: u128)
    ensures
        r == char_width(c),
        1 <= r <= 4,
{
    let n: u32 = c as u32;
    if n <= 0x7f {
        1
    } else if n <= 0x7ff {
        2
    } else if n <= 0xffff {
        3
    } else {
        4
    }
}

/// The first character from the `k`-th one on, which starts at byte `at`, that starts at byte `b` or
/// behind it.
pub open spec fn place_from(s: Seq<char>, b: nat, k: int, at: nat) -> int
    decreases s.len() - k,
{
    if k < 0 || k >= s.len() || at >= b {
        k
    } else {
        place_from(s, b, k + 1, at + char_width(s[k]))
    }
}

/// The character that starts at a byte.
pub open spec fn place_of(s: Seq<char>, b: nat) -> int {
    place_from(s, b, 0, 0)
}

/// Where the tokens of references start and end, in characters.
pub open spec fn token_spans(s: Seq<char>, refs: Seq<CssReferenceView>) -> Seq<(int, int)> {
    Seq::new(refs.len(), |i: int| (place_of(s, refs[i].start), place_of(s, refs[i].end)))
}

/// Goes on to the character that starts at a byte.
fn advance(s: &[char], k: usize, at: u128, b: usize) -> (r: (usize, u128))
    requires
        k <= s@.len(),
        at <= usize::MAX + 4,
    ensures
        k <= r.0 <= s@.len(),
        r.1 <= usize::MAX + 4,
        r.0 == place_from(s@, b as nat, k as int, at as nat),
        forall|x: nat|
            b <= x ==> #[trigger] place_from(s@, x, k as int, at as nat) == place_from(
                s@,
                x,
                r.0 as int,
                r.1 as nat,
            ),
{
    let mut place: usize = k;
    let mut byte: u128 = at;
    while place < s.len() && byte < b as u128
        invariant
            k <= place <= s@.len(),
            byte <= usize::MAX + 4,
            place_from(s@, b as nat, k as int, at as nat) == place_from(
                s@,
                b as nat,
                place as int,
                byte as nat,
            ),
            forall|x: nat|
                b <= x ==> #[trigger] place_from(s@, x, k as int, at as nat) == place_from(
                    s@,
                    x,
                    place as int,
                    byte as nat,
                ),
        decreases s@.len() - place,
    {
        let ghost before = (place as int, byte as nat);
        byte = byte + width_of(s[place]);
        place += 1;
        proof {
            assert forall|x: nat| b <= x implies #[trigger] place_from(s@, x, k as int, at as nat)
                == place_from(s@, x, place as int, byte as nat) by {
                assert(place_from(s@, x, before.0, before.1) == place_from(
                    s@,
                    x,
                    place as int,
                    byte as nat,
                ));
            }
        }
    }
    (place, byte)
}

/// Where the tokens of references start and end, in characters.
fn find_token_spans(s: &[char], refs: &Vec<CssReference>) -> (r: Vec<scan::Span>)
    requires
        exists|n: nat| in_places(css_reference_views(refs@), 0, n),
    ensures
        scan::span_views(r@) == token_spans(s@, css_reference_views(refs@)),
        scan::in_order(scan::span_views(r@), s@.len() as int),
{
    let ghost all = css_reference_views(refs@);
    let ghost whole = token_spans(s@, all);
    let mut r: Vec<scan::Span> = Vec::new();
    let mut place: usize = 0;
    let mut byte: u128 = 0;
    let ghost mut passed: nat = 0;
    let mut i: usize = 0;
    proof {
        assert(scan::span_views(r@) == whole.take(0));
    }
    while i < refs.len()
        invariant
            i <= refs@.len(),
            all == css_reference_views(refs@),
            whole == token_spans(s@, all),
            exists|n: nat| in_places(all, 0, n),
            scan::span_views(r@) == whole.take(i as int),
            scan::in_order(scan::span_views(r@), place as int),
            place <= s@.len(),
            byte <= usize::MAX + 4,
            i < all.len() ==> passed <= all[i as int].start,
            forall|x: nat|
                passed <= x ==> #[trigger] place_from(s@, x, 0, 0) == place_from(
                    s@,
                    x,
                    place as int,
                    byte as nat,
                ),
        decreases refs@.len() - i,
    {
        let ghost before = scan::span_views(r@);
        let start: usize = refs[i].start;
        let end: usize = refs[i].end;
        proof {
            assert(all[i as int].start == start && all[i as int].end == end);
            if i + 1 < all.len() {
                assert(all[i as int].end <= all[i + 1].start);
            }
        }
        let (from, from_byte) = advance(s, place, byte, start);
        proof {
            assert(place_from(s@, start as nat, 0, 0) == from);
        }
        let (to, to_byte) = advance(s, from, from_byte, end);
        proof {
            assert(place_from(s@, end as nat, 0, 0) == place_from(
                s@,
                end as nat,
                place as int,
                byte as nat,
            ));
            assert(place_from(s@, end as nat, 0, 0) == to);
            assert forall|x: nat| end <= x implies #[trigger] place_from(s@, x, 0, 0) == place_from(
                s@,
                x,
                to as int,
                to_byte as nat,
            ) by {
                assert(place_from(s@, x, 0, 0) == place_from(s@, x, place as int, byte as nat));
                assert(place_from(s@, x, place as int, byte as nat) == place_from(
                    s@,
                    x,
                    from as int,
                    from_byte as nat,
                ));
            }
            passed = end as nat;
        }
        r.push((from, to));
        i += 1;
        place = to;
        byte = to_byte;
        proof {
            let now = scan::span_views(r@);
            assert(now == before.push((from as int, to as int)));
            assert(whole[i - 1] == (from as int, to as int));
            assert(whole.take(i as int) == whole.take(i - 1).push(whole[i - 1]));
            assert forall|k: int| 0 <= k < now.len() implies 0 <= (#[trigger] now[k]).0 <= now[k].1
                <= place by {
                if k < before.len() {
                    assert(now[k] == before[k]);
                }
            }
            assert forall|k: int, m: int| 0 <= k < m < now.len() implies (#[trigger] now[k]).1 <= (
            #[trigger] now[m]).0 by {
                assert(now[k] == before[k]);
                if m < before.len() {
                    assert(now[m] == before[m]);
                }
            }
        }
    }
    proof {
        assert(whole.take(whole.len() as int) == whole);
    }
    r
}

/// A style sheet with replacements in the place of the tokens of its references.
pub open spec fn with_tokens(s: Seq<char>, replacements: Seq<Option<Seq<char>>>) -> Seq<char> {
    scan::splice(s, token_spans(s, css_references(s)), replacements)
}

/// Puts replacements in the place of the tokens of references.
pub fn replace_tokens(
    input: &str,
    refs: &Vec<CssReference>,
    replacements: &Vec<Option<String>>,
) -> (r: String)
    requires
        css_reference_views(refs@) == css_references(input@),
        in_places(css_reference_views(refs@), 0, encode_utf8(input@).len()),
        replacements@.len() == refs@.len(),
    ensures
        r@ == with_tokens(input@, scan::option_views(replacements@)),
{
    let s = text::chars_of(input);
    let spans = find_token_spans(&s, refs);
    proof {
        assert(scan::span_views(spans@).len() == spans@.len());
    }
    text::string_of(&scan::splice_text(&s, &spans, replacements))
}

/// A reference is written as it is where nothing in it needs an escape: in the quotes of its token, or
/// in a `url` function without quotes.
pub proof fn law_plain_references_are_written_as_they_are(
    reference: CssReferenceView,
    value: Seq<char>,
)
    requires
        forall|i: int|
            0 <= i < value.len() ==> {
                let c = #[trigger] value[i];
                &&& c > ' ' && c != '\u{7f}'
                &&& c != '"' && c != '\'' && c != '\\' && c != '(' && c != ')'
            },
    ensures
        reference.quote matches Some(quote) ==> reference.replacement(value) == seq![quote] + value
            + seq![quote],
        reference.quote is None ==> reference.replacement(value) == "url("@ + value + ")"@,
{
    lemma_plain_escapes(value);
}

/// Plain characters need no escape.
proof fn lemma_plain_escapes(value: Seq<char>)
    requires
        forall|i: int|
            0 <= i < value.len() ==> {
                let c = #[trigger] value[i];
                &&& c > ' ' && c != '\u{7f}'
                &&& c != '"' && c != '\'' && c != '\\' && c != '(' && c != ')'
            },
    ensures
        css_string_escaped(value) == value,
        css_url_escaped(value) == value,
        single_quotes_escaped(value) == value,
    decreases value.len(),
{
    if value.len() > 0 {
        let front = value.drop_last();
        assert forall|i: int| 0 <= i < front.len() implies {
            let c = #[trigger] front[i];
            &&& c > ' ' && c != '\u{7f}'
            &&& c != '"' && c != '\'' && c != '\\' && c != '(' && c != ')'
        } by {
            assert(front[i] == value[i]);
        }
        lemma_plain_escapes(front);
        let c = value[value.len() - 1];
        assert(front + seq![c] == value);
        assert(front.push(c) == value);
    } else {
        assert(value == Seq::<char>::empty());
    }
}

/// What needs an escape gets one: in double quotes a quote and a backslash, in single quotes also a
/// single quote, without quotes also white space, parentheses and single quotes.
pub proof fn law_quotes_and_parentheses_are_escaped(value: Seq<char>, c: char)
    ensures
        css_string_escaped(value.push(c)) == css_string_escaped(value) + if c == '"' || c == '\\' {
            seq!['\\', c]
        } else if c == '\u{0}' {
            seq!['\u{fffd}']
        } else if c <= '\u{1f}' || c == '\u{7f}' {
            hex_escaped(c)
        } else {
            seq![c]
        },
        css_url_escaped(value.push(c)) == css_url_escaped(value) + if c <= ' ' || c == '\u{7f}' {
            hex_escaped(c)
        } else if c == '(' || c == ')' || c == '"' || c == '\'' || c == '\\' {
            seq!['\\', c]
        } else {
            seq![c]
        },
        single_quotes_escaped(value.push(c)) == single_quotes_escaped(value) + if c == '\'' {
            seq!['\\', '\'']
        } else {
            seq![c]
        },
{
    assert(value.push(c).drop_last() == value);
    let s = single_quotes_escaped(value);
    assert(s.push('\\').push('\'') == s + seq!['\\', '\'']);
    assert(s.push(c) == s + seq![c]);
}

/// A reference in single quotes, double quotes or none is written back in the same way.
pub proof fn law_tokens_keep_their_quotes(reference: CssReferenceView, value: Seq<char>)
    ensures
        reference.quote == Some('"') ==> reference.replacement(value) == seq!['"']
            + css_string_escaped(value) + seq!['"'],
        reference.quote == Some('\'') ==> reference.replacement(value) == seq!['\'']
            + single_quotes_escaped(css_string_escaped(value)) + seq!['\''],
        reference.quote is None ==> reference.replacement(value) == "url("@ + css_url_escaped(value)
            + ")"@,
        reference.emptied() == if reference.quote is Some {
            "\"\""@
        } else {
            "url(\"\")"@
        },
{
}

/// Whether a token stands at the start of a range of a style sheet.
pub open spec fn starts_with_token(input: Seq<char>, at: nat, stop: nat, token: CssToken) -> bool {
    css_token(input, at) == Some(token) && at < stop && at < token.end && token.end <= stop
}

/// A URL without quotes is a reference wherever it stands; a string in quotes is one in a `url`
/// function and behind the keyword of an import rule, and nowhere else. The tokens behind it are read
/// in turn.
pub proof fn law_urls_and_imports_are_references(
    input: Seq<char>,
    at: nat,
    stop: nat,
    in_url: bool,
    after_import: bool,
    token: CssToken,
)
    requires
        starts_with_token(input, at, stop, token),
        token.kind == CssKind::Url || token.kind == CssKind::Quoted,
    ensures
        ({
            let all = references_in(input, at, stop, in_url, after_import);
            let rest = references_in(input, token.end, stop, in_url, false);
            if token.kind == CssKind::Url || in_url || after_import {
                &&& all.len() == rest.len() + 1
                &&& all[0].value == token.value
                &&& all[0].start == token.start
                &&& all[0].end == token.end
                &&& all[0].quote is Some <==> token.kind == CssKind::Quoted
                &&& all.drop_first() == rest
            } else {
                all == rest
            }
        }),
{
    let all = references_in(input, at, stop, in_url, after_import);
    let rest = references_in(input, token.end, stop, in_url, false);
    if token.kind == CssKind::Url || in_url || after_import {
        assert(all == seq![reference_of(input, token)] + rest);
        assert(all.drop_first() == rest);
    }
}

/// The keyword of an import rule and the name of the `url` function count in whatever case; inside any
/// other function or block strings are no references, and behind a block reading goes on.
pub proof fn law_keywords_and_blocks_of_style_sheets(
    input: Seq<char>,
    at: nat,
    stop: nat,
    in_url: bool,
    after_import: bool,
    token: CssToken,
)
    requires
        starts_with_token(input, at, stop, token),
    ensures
        token.kind == CssKind::AtKeyword ==> references_in(input, at, stop, in_url, after_import)
            == references_in(input, token.end, stop, in_url, text::lower(token.value) == "import"@),
        token.kind == CssKind::Other ==> references_in(input, at, stop, in_url, after_import)
            == references_in(input, token.end, stop, in_url, false),
        (token.kind == CssKind::Function || token.kind == CssKind::Block) && token.end
            <= css_block_end(input, at) <= stop ==> references_in(
            input,
            at,
            stop,
            in_url,
            after_import,
        ) == references_in(
            input,
            token.end,
            css_block_end(input, at),
            token.kind == CssKind::Function && text::lower(token.value) == "url"@,
            false,
        ) + references_in(input, css_block_end(input, at), stop, in_url, false),
{
    reveal_strlit("import");
    reveal_strlit("url");
    assert(text::lower("import"@) == "import"@);
    assert(text::lower("url"@) == "url"@);
}

/// A byte at which a character starts is counted back to that character.
pub proof fn law_bytes_are_counted_back_to_characters(s: Seq<char>, k: int)
    requires
        0 <= k <= s.len(),
    ensures
        place_of(s, encode_utf8(s.take(k)).len()) == k,
{
    assert(s.take(k) == s.subrange(0, k));
    lemma_place(s, 0, k, 0);
}

/// Counting characters up to a byte.
proof fn lemma_place(s: Seq<char>, j: int, k: int, at: nat)
    requires
        0 <= j <= k <= s.len(),
    ensures
        place_from(s, at + encode_utf8(s.subrange(j, k)).len(), j, at) == k,
    decreases k - j,
{
    let part = s.subrange(j, k);
    if j < k {
        assert(part[0] == s[j]);
        assert(part.drop_first() == s.subrange(j + 1, k));
        assert(encode_utf8(part) == encode_scalar(s[j] as u32) + encode_utf8(part.drop_first()));
        assert(char_width(s[j]) > 0);
        lemma_place(s, j + 1, k, at + char_width(s[j]));
    } else {
        assert(encode_utf8(part).len() == 0);
    }
}

/// In place of each token of a reference stands its replacement, where it has one; the rest of the style
/// sheet stays.
pub proof fn law_tokens_are_replaced_in_place(
    before: Seq<char>,
    token: Seq<char>,
    after: Seq<char>,
    s: Seq<char>,
    reference: CssReferenceView,
    replacement: Seq<char>,
)
    requires
        s == before + token + after,
        css_references(s) == seq![reference],
        reference.start == encode_utf8(before).len(),
        reference.end == encode_utf8(before + token).len(),
    ensures
        with_tokens(s, seq![Some(replacement)]) == before + replacement + after,
        with_tokens(s, seq![None::<Seq<char>>]) == s,
{
    let b = before.len() as int;
    let e = b + token.len();
    assert(s.take(b) == before);
    assert(s.take(e) == before + token);
    law_bytes_are_counted_back_to_characters(s, b);
    law_bytes_are_counted_back_to_characters(s, e);
    let spans = token_spans(s, seq![reference]);
    assert(spans == seq![(b, e)]);
    let some = seq![Some(replacement)];
    let none = seq![None::<Seq<char>>];
    assert(spans.last() == (b, e));
    assert(spans.drop_last() == Seq::<(int, int)>::empty());
    assert(some.last() == Some(replacement));
    assert(none.last() is None);
    assert(s.skip(e) == after);
    assert(s.subrange(b, e) == token);
    let empty = Seq::<(int, int)>::empty();
    assert(scan::splice(before, empty, some.drop_last()) == before);
    assert(scan::splice(before, empty, none.drop_last()) == before);
}

/// A control character or a space is written by its number in hexadecimal digits, with a space behind
/// them.
pub proof fn law_control_characters_are_written_by_number(c: char)
    requires
        c <= ' ' || c == '\u{7f}',
    ensures
        c == '\t' ==> hex_escaped(c) == seq!['\\', '9', ' '],
        c == '\n' ==> hex_escaped(c) == seq!['\\', 'a', ' '],
        c == '\r' ==> hex_escaped(c) == seq!['\\', 'd', ' '],
        c == ' ' ==> hex_escaped(c) == seq!['\\', '2', '0', ' '],
        c == '\u{7f}' ==> hex_escaped(c) == seq!['\\', '7', 'f', ' '],
        hex_escaped(c)[0] == '\\',
        hex_escaped(c).last() == ' ',
        c as int <= 15 ==> hex_escaped(c).len() == 3,
        c as int > 15 ==> hex_escaped(c).len() == 4,
{
}

} // verus!
