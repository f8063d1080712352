//! Captures that are not worth keeping: redirects, error pages and login walls.
use crate::html;
use crate::text;
use vstd::prelude::*;

verus! {

/// How many visible characters stand outside tags, from `from` on.
pub open spec fn visible_from(s: Seq<char>, from: int, in_tag: bool) -> nat
    decreases s.len() - from,
{
    if from < 0 || from >= s.len() {
        0
    } else if s[from] == '<' {
        visible_from(s, from + 1, true)
    } else if s[from] == '>' {
        visible_from(s, from + 1, false)
    } else if !in_tag && !text::is_white(s[from]) {
        1 + visible_from(s, from + 1, in_tag)
    } else {
        visible_from(s, from + 1, in_tag)
    }
}

/// How many visible characters stand outside the tags of a page.
pub open spec fn visible_length(s: Seq<char>) -> nat {
    visible_from(s, 0, false)
}

/// Whether a page names another one that the browser is to show.
pub open spec fn redirect_marker(s: Seq<char>) -> bool {
    let l = text::lower(s);
    ||| text::contains(l, "http-equiv"@) && text::contains(l, "refresh"@) && text::contains(
        l,
        "url="@,
    )
    ||| text::contains(l, "window.location"@)
    ||| text::contains(l, "document.location"@)
    ||| text::contains(l, "location.href"@)
    ||| text::contains(l, "location.replace"@)
}

/// Whether a page only redirects.
pub open spec fn soft_redirect(s: Seq<char>) -> bool {
    redirect_marker(s) && visible_length(s) <= 256
}

/// Whether a text in lower case says that a forum may not be read.
pub open spec fn denies_access(l: Seq<char>) -> bool {
    ||| text::contains(l, "you are not authorised to read this forum"@)
    ||| text::contains(l, "you are not authorized to read this forum"@)
    ||| text::contains(l, "only users granted special access can read topics in this forum"@)
    ||| text::contains(l, "the forum you selected does not exist"@)
}

/// Whether a page only says that a forum may not be read, or asks for a login.
pub open spec fn access_placeholder(s: Seq<char>) -> bool {
    let l = text::lower(s);
    ||| visible_length(s) <= 768 && denies_access(l)
    ||| (text::contains(l, "requires you to be registered and logged in to view this forum"@)
        || text::contains(l, "must be registered and logged in to view this forum"@))
        && text::contains(l, "<form"@) && (text::contains(l, "name=\"login\""@)
        || text::contains(l, "id=\"login\""@))
}

/// The text of a list of text chunks.
pub open spec fn chunk_text(texts: Seq<(usize, Seq<char>)>) -> Seq<char>
    decreases texts.len(),
{
    if texts.len() == 0 {
        Seq::empty()
    } else {
        chunk_text(texts.drop_last()) + texts.last().1
    }
}

/// A message with its entities decoded, one space between its words, in lower case.
pub open spec fn plain_message(s: Seq<char>) -> Seq<char> {
    text::lower(text::join(text::words(html::entities_decoded(s), 0), " "@))
}

/// Whether a message of a forum says that something does not exist or may not be read.
pub open spec fn forum_error(m: Seq<char>) -> bool {
    ||| text::contains(m, "the topic or post you requested does not exist"@)
    ||| text::contains(m, "the requested topic does not exist"@)
    ||| text::contains(m, "sorry, but that user does not exist"@)
    ||| text::contains(m, "the requested user does not exist"@)
    ||| text::contains(m, "the forum you selected does not exist"@)
    ||| text::contains(m, "the requested forum does not exist"@)
    ||| text::contains(m, "you are not authorised to read this forum"@)
    ||| text::contains(m, "you are not authorized to read this forum"@)
    ||| text::contains(m, "only users granted special access can read topics in this forum"@)
}

/// Whether a page holds posts or quotations.
pub open spec fn has_discussion(s: Seq<char>) -> bool {
    html::html_matches(s, ".postbody, .post, blockquote, .quote"@)
}

/// Whether the message containers of a forum page hold an error.
pub open spec fn has_forum_error(s: Seq<char>) -> bool {
    html::html_texts(s, "td[align=center] > span.gen, #message .content, .error"@) matches Some(
        texts,
    ) && forum_error(plain_message(chunk_text(texts)))
}

/// Whether a capture is not worth keeping.
pub open spec fn unusable(s: Seq<char>) -> bool {
    !has_discussion(s) && (has_forum_error(s) || soft_redirect(s) || access_placeholder(s))
}

/// How many visible characters stand outside the tags of a page.
pub fn visible_text_len(input: &str) -> (r: usize)
    ensures
        r == visible_length(input@),
{
    let s = text::chars_of(input);
    let mut in_tag = false;
    let mut count: usize = 0;
    let mut i: usize = 0;
    while i < s.len()
        invariant
            i <= s@.len(),
            s@ == input@,
            count <= i,
            count + visible_from(s@, i as int, in_tag) == visible_length(s@),
        decreases s@.len() - i,
    {
        let c = s[i];
        if c == '<' {
            in_tag = true;
        } else if c == '>' {
            in_tag = false;
        } else if !in_tag && !c.is_whitespace() {
            count += 1;
        }
        i += 1;
    }
    count
}

/// Whether a page names another one that the browser is to show.
fn has_soft_redirect_marker(input: &str) -> (r: bool)
    ensures
        r == redirect_marker(input@),
{
    let lower = text::lowered(input);
    let l = lower.as_str();
    (text::has(l, "http-equiv") && text::has(l, "refresh") && text::has(l, "url=")) || text::has(
        l,
        "window.location",
    ) || text::has(l, "document.location") || text::has(l, "location.href") || text::has(
        l,
        "location.replace",
    )
}

/// Whether a document only redirects, unlike one that is shown for a while first.
pub fn is_soft_redirect_html(input: &str) -> (r: bool)
    ensures
        r == soft_redirect(input@),
{
    has_soft_redirect_marker(input) && visible_text_len(input) <= 256
}

/// Whether a page only says that a forum may not be read, or asks for a login.
pub fn is_access_denied_placeholder_html(input: &str) -> (r: bool)
    ensures
        r == access_placeholder(input@),
{
    let lower = text::lowered(input);
    let l = lower.as_str();
    let denied = text::has(l, "you are not authorised to read this forum")
        || text::has(l, "you are not authorized to read this forum")
        || text::has(l, "only users granted special access can read topics in this forum")
        || text::has(l, "the forum you selected does not exist");
    let login_wall = text::has(
        l,
        "requires you to be registered and logged in to view this forum",
    ) || text::has(l, "must be registered and logged in to view this forum");
    (visible_text_len(input) <= 768 && denied) || (login_wall && text::has(l, "<form") && (
    text::has(l, "name=\"login\"") || text::has(l, "id=\"login\"")))
}

/// The text of a list of text chunks.
pub fn concat_chunks(texts: &Vec<(usize, String)>) -> (r: String)
    ensures
        r@ == chunk_text(html::text_list(texts@)),
{
    let ghost all = html::text_list(texts@);
    let mut out: Vec<char> = Vec::new();
    let mut i: usize = 0;
    proof {
        assert(out@ == chunk_text(all.take(0)));
    }
    while i < texts.len()
        invariant
            i <= texts@.len(),
            all == html::text_list(texts@),
            out@ == chunk_text(all.take(i as int)),
        decreases texts@.len() - i,
    {
        proof {
            assert(all.take(i + 1).drop_last() == all.take(i as int));
            assert(all.take(i + 1).last() == (texts@[i as int].0, texts@[i as int].1@));
        }
        text::push_text(&mut out, texts[i].1.as_str());
        i += 1;
    }
    proof {
        assert(all.take(all.len() as int) == all);
    }
    text::string_of(&out)
}

/// Whether a message of a forum says that something does not exist or may not be read.
pub fn is_forum_error(message: &str) -> (r: bool)
    ensures
        r == forum_error(message@),
{
    text::has(message, "the topic or post you requested does not exist")
        || text::has(message, "the requested topic does not exist")
        || text::has(message, "sorry, but that user does not exist")
        || text::has(message, "the requested user does not exist")
        || text::has(message, "the forum you selected does not exist")
        || text::has(message, "the requested forum does not exist")
        || text::has(message, "you are not authorised to read this forum")
        || text::has(message, "you are not authorized to read this forum")
        || text::has(message, "only users granted special access can read topics in this forum")
}

/// Whether a page holds posts or quotations, and whether its message containers hold an error.
pub fn forum_page_signals(input: &str) -> (r: (bool, bool))
    ensures
        r == (has_discussion(input@), has_forum_error(input@)),
{
    let discussion = html::has_match(input, ".postbody, .post, blockquote, .quote");
    let error = match html::read_texts(
        input,
        "td[align=center] > span.gen, #message .content, .error",
    ) {
        Some(texts) => {
            let decoded = html::decode_entities(concat_chunks(&texts).as_str());
            let words = text::split_words(&text::chars_of(decoded.as_str()));
            let message = text::lowered(text::join_strings(&words, " ").as_str());
            is_forum_error(message.as_str())
        },
        None => false,
    };
    (discussion, error)
}

/// Whether a page is not worth keeping, by what was seen of its forum containers.
pub fn is_unusable_page(input: &str, discussion: bool, forum_error_seen: bool) -> (r: bool)
    ensures
        r == (!discussion && (forum_error_seen || soft_redirect(input@) || access_placeholder(
            input@,
        ))),
{
    !discussion && (forum_error_seen || is_soft_redirect_html(input)
        || is_access_denied_placeholder_html(input))
}

/// Detects redirects and error pages, but keeps pages that only quote an error.
pub fn is_unusable_html_capture(input: &str) -> (r: bool)
    ensures
        r == unusable(input@),
{
    let (discussion, error) = forum_page_signals(input);
    is_unusable_page(input, discussion, error)
}

/// A page that holds a discussion is kept, whatever the discussion quotes.
pub proof fn law_discussions_are_kept(s: Seq<char>)
    requires
        has_discussion(s),
    ensures
        !unusable(s),
{
}

/// A page without a discussion that shows at most 256 characters and names another page for the
/// browser is of no use, however the page is named: by a refresh in its head or by a script.
pub proof fn law_pages_that_only_redirect_are_unusable(s: Seq<char>)
    requires
        !html::html_matches(s, ".postbody, .post, blockquote, .quote"@),
        visible_length(s) <= 256,
        ({
            let l = text::lower(s);
            ||| text::contains(l, "http-equiv"@) && text::contains(l, "refresh"@) && text::contains(
                l,
                "url="@,
            )
            ||| text::contains(l, "window.location"@)
            ||| text::contains(l, "document.location"@)
            ||| text::contains(l, "location.href"@)
            ||| text::contains(l, "location.replace"@)
        }),
    ensures
        unusable(s),
{
}

/// A page without a discussion is of no use where it asks for a login, or where it shows at most 768
/// characters and says that a forum may not be read or does not exist.
pub proof fn law_pages_behind_a_login_are_unusable(s: Seq<char>)
    requires
        !html::html_matches(s, ".postbody, .post, blockquote, .quote"@),
        ({
            let l = text::lower(s);
            ||| visible_length(s) <= 768 && (text::contains(
                l,
                "you are not authorised to read this forum"@,
            ) || text::contains(l, "you are not authorized to read this forum"@) || text::contains(
                l,
                "only users granted special access can read topics in this forum"@,
            ) || text::contains(l, "the forum you selected does not exist"@))
            ||| (text::contains(
                l,
                "requires you to be registered and logged in to view this forum"@,
            ) || text::contains(l, "must be registered and logged in to view this forum"@))
                && text::contains(l, "<form"@) && (text::contains(l, "name=\"login\""@)
                || text::contains(l, "id=\"login\""@))
        }),
    ensures
        unusable(s),
{
}

/// A page that shows more than 768 characters, has no form and holds no error in the places where
/// forums show theirs is kept, and so is one without any of the marks.
pub proof fn law_pages_with_content_are_kept(s: Seq<char>)
    requires
        !(html::html_texts(
            s,
            "td[align=center] > span.gen, #message .content, .error"@,
        ) matches Some(texts)),
        ({
            let l = text::lower(s);
            &&& visible_length(s) > 256 || !((text::contains(l, "http-equiv"@) && text::contains(
                l,
                "refresh"@,
            ) && text::contains(l, "url="@)) || text::contains(l, "window.location"@)
                || text::contains(l, "document.location"@) || text::contains(l, "location.href"@)
                || text::contains(l, "location.replace"@))
            &&& visible_length(s) > 768 || !(text::contains(
                l,
                "you are not authorised to read this forum"@,
            ) || text::contains(l, "you are not authorized to read this forum"@) || text::contains(
                l,
                "only users granted special access can read topics in this forum"@,
            ) || text::contains(l, "the forum you selected does not exist"@))
            &&& !text::contains(l, "<form"@) || !(text::contains(
                l,
                "requires you to be registered and logged in to view this forum"@,
            ) || text::contains(l, "must be registered and logged in to view this forum"@))
        }),
    ensures
        !unusable(s),
{
}

/// A page without a discussion is of no use where the places in which forums show their errors say
/// that something does not exist or may not be read, however the words are spaced and written. With
/// any other message there, these places do not make it so.
pub proof fn law_error_messages_of_forums_are_unusable(
    s: Seq<char>,
    texts: Seq<(usize, Seq<char>)>,
    message: Seq<char>,
)
    requires
        !html::html_matches(s, ".postbody, .post, blockquote, .quote"@),
        html::html_texts(s, "td[align=center] > span.gen, #message .content, .error"@) == Some(texts),
        message == text::lower(
            text::join(text::words(html::entities_decoded(chunk_text(texts)), 0), " "@),
        ),
    ensures
        ({
            let error = {
                ||| text::contains(message, "the topic or post you requested does not exist"@)
                ||| text::contains(message, "the requested topic does not exist"@)
                ||| text::contains(message, "sorry, but that user does not exist"@)
                ||| text::contains(message, "the requested user does not exist"@)
                ||| text::contains(message, "the forum you selected does not exist"@)
                ||| text::contains(message, "the requested forum does not exist"@)
                ||| text::contains(message, "you are not authorised to read this forum"@)
                ||| text::contains(message, "you are not authorized to read this forum"@)
                ||| text::contains(
                    message,
                    "only users granted special access can read topics in this forum"@,
                )
            };
            &&& error ==> unusable(s)
            &&& !error && visible_length(s) > 768 && !text::contains(text::lower(s), "<form"@)
                ==> !unusable(s)
        }),
{
}

/// Tags are not visible, and neither is white space; each other character is.
pub proof fn law_visible_characters_stand_outside_tags(tag: Seq<char>, c: char, s: Seq<char>)
    requires
        !tag.contains('<'),
        !tag.contains('>'),
        c != '<',
        c != '>',
    ensures
        visible_length(seq!['<'] + tag + seq!['>'] + s) == visible_length(s),
        visible_length(seq![c] + s) == if text::is_white(c) {
            visible_length(s)
        } else {
            visible_length(s) + 1
        },
        visible_length(Seq::empty()) == 0,
{
    let whole = seq!['<'] + tag + seq!['>'] + s;
    let end = tag.len() as int + 1;
    assert(whole[0] == '<' && whole[end] == '>');
    assert forall|i: int| 1 <= i < end implies #[trigger] whole[i] != '<' && whole[i] != '>' by {
        assert(whole[i] == tag[i - 1]);
        assert(tag.contains(tag[i - 1]));
    }
    lemma_inside_tag(whole, 1, end);
    let n = tag.len() + 2;
    assert(whole.skip(n as int) == s);
    lemma_visible_skip(whole, n as int, 0, false);
    let t = seq![c] + s;
    assert(t.skip(1) == s);
    lemma_visible_skip(t, 1, 0, false);
}

/// Inside a tag nothing is visible.
proof fn lemma_inside_tag(s: Seq<char>, from: int, end: int)
    requires
        0 <= from <= end < s.len(),
        s[end] == '>',
        forall|i: int| from <= i < end ==> #[trigger] s[i] != '<' && s[i] != '>',
    ensures
        visible_from(s, from, true) == visible_from(s, end + 1, false),
    decreases end - from,
{
    if from < end {
        lemma_inside_tag(s, from + 1, end);
    }
}

/// What is visible from a place on depends only on what follows it.
proof fn lemma_visible_skip(s: Seq<char>, k: int, from: int, in_tag: bool)
    requires
        0 <= k,
        0 <= from,
        k + from <= s.len(),
    ensures
        visible_from(s, k + from, in_tag) == visible_from(s.skip(k), from, in_tag),
    decreases s.len() - k - from,
{
    if k + from < s.len() {
        assert(s.skip(k)[from] == s[k + from]);
        lemma_visible_skip(s, k, from + 1, true);
        lemma_visible_skip(s, k, from + 1, false);
    }
}

/// Posts and quotations make a page worth keeping, whatever else it says.
pub proof fn law_posts_and_quotations_are_kept(s: Seq<char>)
    requires
        html::html_matches(s, ".postbody, .post, blockquote, .quote"@),
    ensures
        !unusable(s),
{
}

/// The chunks of a text are read one behind the other.
pub proof fn law_chunks_are_read_in_order(
    before: Seq<(usize, Seq<char>)>,
    chunk: (usize, Seq<char>),
)
    ensures
        chunk_text(before.push(chunk)) == chunk_text(before) + chunk.1,
        chunk_text(Seq::empty()) == Seq::<char>::empty(),
{
    assert(before.push(chunk).drop_last() == before);
}

} // verus!
