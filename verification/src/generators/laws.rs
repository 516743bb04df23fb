//! What holds of the generator on whole classes of input.

use vstd::prelude::*;
use crate::generators::html::{
    block_end, block_html, closes_on_line, document_html, ends_paragraph, heading_close,
    heading_open, image_end, image_html, image_src_start, image_title_start, is_word_char,
    link_end, link_href_start, link_html, list_end, list_text, marker_count, markers_end,
    no_break_between, paragraph_end, paragraph_text, render, run_end, run_text, word_end,
    word_text,
};
use crate::parsers::markdown::lexer::{after, char_at, is_digit, kind_at, literal_at};
use crate::parsers::markdown::token::TokenType;

verus! {

/// Whether `c` is a character that the dialect gives a meaning of its own
/// wherever it stands: a bracket, a parenthesis, `!`, `#` or a line break.
pub open spec fn is_markup(c: char) -> bool {
    c == '#' || c == '[' || c == ']' || c == '(' || c == ')' || c == '!' || c == '\n'
}

/// Whether `text` is plain: not empty, free of markup characters, and not
/// beginning with a digit.
pub open spec fn is_plain(text: Seq<char>) -> bool {
    &&& text.len() > 0
    &&& !is_digit(text[0])
    &&& forall|i: int| 0 <= i < text.len() ==> !is_markup(#[trigger] text[i])
}

/// A character at the start of a line that is neither markup nor a digit
/// is a text token of its own.
proof fn lemma_first_text_token(text: Seq<char>, i: int)
    requires
        0 <= i < text.len(),
        i > 0 ==> text[i - 1] == '\n',
        !is_markup(text[i]),
        !is_digit(text[i]),
    ensures
        kind_at(text, i) == TokenType::Letter,
        literal_at(text, i) == seq![text[i]],
        after(text, i) == i + 1,
{
}

/// The inside of a paragraph that runs over characters free of markup, from
/// `p` up to `end`, begins with those characters as they stand and goes on
/// as it does from `end`.
proof fn lemma_paragraph_run(text: Seq<char>, p: int, end: int)
    requires
        0 < p <= end <= text.len(),
        text[p - 1] != '\n',
        forall|i: int| p <= i < end ==> !is_markup(#[trigger] text[i]),
    ensures
        paragraph_text(text, p) == text.subrange(p, end) + paragraph_text(text, end),
        paragraph_end(text, p) == paragraph_end(text, end),
    decreases end - p,
{
    if p < end {
        assert(!is_markup(text[p]));
        assert(kind_at(text, p) == TokenType::Letter);
        assert(literal_at(text, p) == seq![text[p]]);
        assert(after(text, p) == p + 1);
        lemma_paragraph_run(text, p + 1, end);
        assert(seq![text[p]] + (text.subrange(p + 1, end) + paragraph_text(text, end))
            =~= text.subrange(p, end) + paragraph_text(text, end));
    } else {
        assert(text.subrange(p, end) + paragraph_text(text, end) =~= paragraph_text(text, end));
    }
}

/// A paragraph whose inside is free of markup from `p` to the end of the
/// text holds those characters as they stand.
proof fn lemma_paragraph_to_end(text: Seq<char>, p: int)
    requires
        0 < p <= text.len(),
        text[p - 1] != '\n',
        forall|i: int| p <= i < text.len() ==> !is_markup(#[trigger] text[i]),
    ensures
        paragraph_text(text, p) == text.subrange(p, text.len() as int),
        paragraph_end(text, p) == text.len(),
{
    let len = text.len() as int;
    lemma_paragraph_run(text, p, len);
    assert(paragraph_text(text, len) == Seq::<char>::empty());
    assert(text.subrange(p, len) + Seq::<char>::empty() =~= text.subrange(p, len));
}

/// Plain text comes out as one paragraph that holds the text as it stands.
pub proof fn lemma_plain_text_is_one_paragraph(text: Seq<char>)
    requires
        is_plain(text),
    ensures
        render(text) == Some("<p>"@ + text + "</p>"@),
{
    let len = text.len() as int;
    assert(!is_markup(text[0]));
    lemma_first_text_token(text, 0);
    assert forall|i: int| 1 <= i < len implies !is_markup(#[trigger] text[i]) by {}
    lemma_paragraph_to_end(text, 1);
    let block = "<p>"@ + seq![text[0]] + text.subrange(1, len) + "</p>"@;
    assert(block_html(text, 0) == Some(block));
    assert(block_end(text, 0) == len);
    assert(document_html(text, len) == Some(Seq::<char>::empty()));
    assert(block + Seq::<char>::empty() =~= "<p>"@ + text + "</p>"@);
}

/// Two plain texts with a blank line between them.
pub open spec fn two_paragraphs(first: Seq<char>, second: Seq<char>) -> Seq<char> {
    first + seq!['\n', '\n'] + second
}

/// Two paragraphs with a blank line between them stay two: each plain text
/// comes out as a paragraph of its own, in order.
pub proof fn lemma_blank_line_separates_paragraphs(first: Seq<char>, second: Seq<char>)
    requires
        is_plain(first),
        is_plain(second),
    ensures
        render(two_paragraphs(first, second)) == Some(
            "<p>"@ + first + "</p>"@ + "<p>"@ + second + "</p>"@,
        ),
{
    let text = two_paragraphs(first, second);
    let n = first.len() as int;
    let len = text.len() as int;
    assert(len == n + 2 + second.len());
    assert forall|i: int| 0 <= i < n implies !is_markup(#[trigger] text[i]) by {
        assert(text[i] == first[i]);
        assert(!is_markup(first[i]));
    }
    assert forall|i: int| n + 2 <= i < len implies !is_markup(#[trigger] text[i]) by {
        assert(text[i] == second[i - n - 2]);
        assert(!is_markup(second[i - n - 2]));
    }
    assert(text[0] == first[0]);
    assert(text[n] == '\n' && text[n + 1] == '\n');
    assert(text[n + 2] == second[0]);

    // The first paragraph ends at the blank line.
    lemma_first_text_token(text, 0);
    assert(kind_at(text, n) == TokenType::LineBreak && after(text, n) == n + 1);
    assert(kind_at(text, n + 1) == TokenType::LineBreak && after(text, n + 1) == n + 2);
    assert(ends_paragraph(text, n));
    lemma_paragraph_run(text, 1, n);
    assert(paragraph_text(text, n) == Seq::<char>::empty());
    assert(text.subrange(1, n) + Seq::<char>::empty() =~= text.subrange(1, n));
    let block1 = "<p>"@ + seq![text[0]] + text.subrange(1, n) + "</p>"@;
    assert(block_html(text, 0) == Some(block1));
    assert(block_end(text, 0) == n + 1);
    assert(block1 =~= "<p>"@ + first + "</p>"@);

    // The second line break of the blank line gives nothing.
    assert(block_html(text, n + 1) == Some(Seq::<char>::empty()));
    assert(block_end(text, n + 1) == n + 2);

    // The second paragraph runs to the end.
    lemma_first_text_token(text, n + 2);
    lemma_paragraph_to_end(text, n + 3);
    let block2 = "<p>"@ + seq![text[n + 2]] + text.subrange(n + 3, len) + "</p>"@;
    assert(block_html(text, n + 2) == Some(block2));
    assert(block_end(text, n + 2) == len);
    assert(block2 =~= "<p>"@ + second + "</p>"@);

    assert(document_html(text, len) == Some(Seq::<char>::empty()));
    assert(document_html(text, n + 2) == Some(block2 + Seq::<char>::empty()));
    assert(document_html(text, n + 1) == Some(
        Seq::<char>::empty() + (block2 + Seq::<char>::empty()),
    ));
    assert(document_html(text, 0) == Some(
        block1 + (Seq::<char>::empty() + (block2 + Seq::<char>::empty())),
    ));
    assert(block1 + (Seq::<char>::empty() + (block2 + Seq::<char>::empty())) =~= "<p>"@ + first
        + "</p>"@ + "<p>"@ + second + "</p>"@);
}

/// Whether `text` begins with exactly `n` times `#`.
pub open spec fn has_leading_markers(text: Seq<char>, n: int) -> bool {
    &&& 1 <= n <= text.len()
    &&& forall|i: int| 0 <= i < n ==> #[trigger] text[i] == '#'
    &&& n < text.len() ==> text[n] != '#'
}

/// Where the title of a heading begins whose `n` markers open the text:
/// behind the markers, and behind one space where a space follows them.
pub open spec fn title_start(text: Seq<char>, n: int) -> int {
    if char_at(text, n) == Some(' ') {
        n + 1
    } else {
        n
    }
}

/// The markers that open a text, from index `i` on, are counted one by
/// one and end where the title begins.
proof fn lemma_leading_markers(text: Seq<char>, n: int, i: int)
    requires
        has_leading_markers(text, n),
        0 <= i < n,
    ensures
        marker_count(text, i) == n - i,
        markers_end(text, i) == title_start(text, n),
    decreases n - i,
{
    let start = title_start(text, n);
    assert(text[i] == '#');
    if i > 0 {
        assert(text[i - 1] == '#');
    }
    assert(kind_at(text, i) == TokenType::Heading);
    if i + 1 < n {
        assert(text[i + 1] == '#');
        assert(after(text, i) == i + 1);
        lemma_leading_markers(text, n, i + 1);
    } else {
        assert(after(text, i) == start);
        assert(kind_at(text, start) != TokenType::Heading);
        assert(marker_count(text, start) == 0 && markers_end(text, start) == start);
    }
}

/// The level of a heading is the number of `#` that open its line: a text
/// that begins with exactly `n` times `#` begins with a heading of level
/// `n`, whose body is the rest of the line from behind the markers and one
/// space on.
pub proof fn lemma_heading_level_is_marker_count(text: Seq<char>, n: int)
    requires
        has_leading_markers(text, n),
    ensures
        block_html(text, 0) == Some(
            heading_open(n as nat) + run_text(
                text,
                title_start(text, n),
                TokenType::LineBreak,
            ) + heading_close(n as nat),
        ),
        block_end(text, 0) == run_end(text, title_start(text, n), TokenType::LineBreak),
{
    let q = after(text, 0);
    lemma_leading_markers(text, n, 0);
    assert(kind_at(text, 0) == TokenType::Heading);
    if n == 1 {
        assert(q == title_start(text, n));
        assert(kind_at(text, q) != TokenType::Heading);
        assert(marker_count(text, q) == 0 && markers_end(text, q) == q);
    } else {
        assert(text[1] == '#');
        assert(q == 1);
        lemma_leading_markers(text, n, 1);
    }
    assert(1 + marker_count(text, q) == n);
    assert(markers_end(text, q) == title_start(text, n));
}

/// Whether `text` is a heading line of level `n`: `n` times `#`, a space,
/// and a title without `#` or line break.
pub open spec fn is_heading_line(text: Seq<char>, n: int) -> bool {
    &&& 1 <= n < text.len()
    &&& forall|i: int| 0 <= i < n ==> #[trigger] text[i] == '#'
    &&& text[n] == ' '
    &&& forall|i: int| n < i < text.len() ==> #[trigger] text[i] != '#' && text[i] != '\n'
}

/// The title of a heading line runs to the end of the text and is taken as
/// it stands.
proof fn lemma_heading_title(text: Seq<char>, n: int, p: int)
    requires
        is_heading_line(text, n),
        n < p <= text.len(),
    ensures
        run_text(text, p, TokenType::LineBreak) == text.subrange(p, text.len() as int),
        run_end(text, p, TokenType::LineBreak) == text.len(),
    decreases text.len() - p,
{
    if p < text.len() {
        assert(text[p] != '#' && text[p] != '\n');
        if p - 1 > n {
            assert(text[p - 1] != '\n');
        }
        assert(kind_at(text, p) != TokenType::EOF && kind_at(text, p) != TokenType::LineBreak);
        assert(kind_at(text, p) != TokenType::Heading && kind_at(text, p)
            != TokenType::OrderedItem);
        assert(literal_at(text, p) == seq![text[p]]);
        assert(after(text, p) == p + 1);
        lemma_heading_title(text, n, p + 1);
        assert(seq![text[p]] + text.subrange(p + 1, text.len() as int) =~= text.subrange(
            p,
            text.len() as int,
        ));
    } else {
        assert(text.subrange(p, text.len() as int) =~= Seq::<char>::empty());
    }
}

/// The HTML of a heading of level `n` with the given title.
pub open spec fn heading_element(n: int, title: Seq<char>) -> Seq<char> {
    heading_open(n as nat) + title + heading_close(n as nat)
}

/// The title of a heading line of level `n`: what stands behind the markers
/// and the space.
pub open spec fn heading_title(text: Seq<char>, n: int) -> Seq<char> {
    text.subrange(n + 1, text.len() as int)
}

/// The block that a heading line of level `n` opens is a heading of level
/// `n` that holds the title as it stands, and it ends with the text.
pub proof fn lemma_heading_line_block(text: Seq<char>, n: int)
    requires
        is_heading_line(text, n),
    ensures
        has_leading_markers(text, n),
        block_html(text, 0) == Some(heading_element(n, heading_title(text, n))),
        block_end(text, 0) == text.len(),
{
    if n + 1 < text.len() {
        assert(text[n + 1] != '#');
    }
    assert(has_leading_markers(text, n));
    lemma_heading_level_is_marker_count(text, n);
    lemma_heading_title(text, n, n + 1);
}

/// A heading line of level `n` comes out as a heading of level `n` that
/// holds the title as it stands.
pub proof fn lemma_heading_line(text: Seq<char>, n: int)
    requires
        is_heading_line(text, n),
    ensures
        render(text) == Some(heading_element(n, heading_title(text, n))),
{
    lemma_heading_line_block(text, n);
    let html = heading_element(n, heading_title(text, n));
    assert(kind_at(text, 0) == TokenType::Heading);
    assert(document_html(text, text.len() as int) == Some(Seq::<char>::empty()));
    assert(html + Seq::<char>::empty() =~= html);
}

/// Whether no character of `s` is markup.
pub open spec fn free_of_markup(s: Seq<char>) -> bool {
    forall|i: int| 0 <= i < s.len() ==> !is_markup(#[trigger] s[i])
}

/// A run over characters free of markup, from `p` up to `end`, is those
/// characters as they stand, where the token at `end` is of the kind that
/// closes the run or the text ends there.
proof fn lemma_run_over_text(text: Seq<char>, p: int, end: int, stop: TokenType)
    requires
        0 < p <= end <= text.len(),
        text[p - 1] != '\n',
        forall|i: int| p <= i < end ==> !is_markup(#[trigger] text[i]),
        stop != TokenType::Letter,
        kind_at(text, end) == stop || kind_at(text, end) == TokenType::EOF,
    ensures
        run_text(text, p, stop) == text.subrange(p, end),
        run_end(text, p, stop) == after(text, end),
    decreases end - p,
{
    if p < end {
        assert(!is_markup(text[p]));
        assert(kind_at(text, p) == TokenType::Letter);
        assert(literal_at(text, p) == seq![text[p]]);
        assert(after(text, p) == p + 1);
        lemma_run_over_text(text, p + 1, end, stop);
        assert(seq![text[p]] + text.subrange(p + 1, end) =~= text.subrange(p, end));
    } else {
        assert(text.subrange(p, end) =~= Seq::<char>::empty());
    }
}

/// The text of a link with the given title and address.
pub open spec fn link_source(title: Seq<char>, href: Seq<char>) -> Seq<char> {
    seq!['['] + title + seq![']', '('] + href + seq![')']
}

/// The HTML of a link with the given title and address.
pub open spec fn link_element(title: Seq<char>, href: Seq<char>) -> Seq<char> {
    "<a href=\""@ + href + "\">"@ + title + "</a>"@
}

/// A link that stands alone comes out as an anchor with its address and
/// its title as they stand, where both are free of markup.
pub proof fn lemma_link_alone(title: Seq<char>, href: Seq<char>)
    requires
        free_of_markup(title),
        free_of_markup(href),
    ensures
        render(link_source(title, href)) == Some(link_element(title, href)),
{
    let text = link_source(title, href);
    let t = title.len() as int;
    let len = text.len() as int;
    assert(len == t + href.len() + 4);
    assert(text[0] == '[' && text[t + 1] == ']' && text[t + 2] == '(' && text[len - 1] == ')');
    assert forall|i: int| 1 <= i < t + 1 implies !is_markup(#[trigger] text[i]) by {
        assert(text[i] == title[i - 1]);
    }
    assert forall|i: int| t + 3 <= i < len - 1 implies !is_markup(#[trigger] text[i]) by {
        assert(text[i] == href[i - t - 3]);
    }
    lemma_link_at(text, 1, t + 1, len - 1);
    assert(text.subrange(1, t + 1) =~= title);
    assert(text.subrange(t + 3, len - 1) =~= href);
    assert(block_html(text, 0) == Some(link_element(title, href)));
    assert(block_end(text, 0) == len);
    assert(document_html(text, len) == Some(Seq::<char>::empty()));
    assert(link_element(title, href) + Seq::<char>::empty() =~= link_element(title, href));
}

/// A link inside a text: the title runs from `p` up to the `]` at `close`,
/// the address from behind the `(` up to the `)` at `end`, both free of
/// markup.
proof fn lemma_link_at(text: Seq<char>, p: int, close: int, end: int)
    requires
        0 < p <= close,
        close + 1 < end < text.len(),
        text[p - 1] == '[',
        text[close] == ']',
        text[close + 1] == '(',
        text[end] == ')',
        forall|i: int| p <= i < close ==> !is_markup(#[trigger] text[i]),
        forall|i: int| close + 2 <= i < end ==> !is_markup(#[trigger] text[i]),
    ensures
        link_html(text, p) == link_element(
            text.subrange(p, close),
            text.subrange(close + 2, end),
        ),
        link_end(text, p) == end + 1,
{
    assert(no_break_between(text, p, close)) by {
        assert forall|k: int| p <= k < close implies #[trigger] text[k] != '\n' by {
            assert(!is_markup(text[k]));
        }
    }
    assert(closes_on_line(text, p));
    lemma_run_over_text(text, p, close, TokenType::LBracket);
    assert(after(text, close) == close + 1);
    assert(after(text, close + 1) == close + 2);
    assert(link_href_start(text, p) == close + 2);
    lemma_run_over_text(text, close + 2, end, TokenType::LParen);
    assert(after(text, end) == end + 1);
}

/// The text of an image with the given alternative text, source and
/// title.
pub open spec fn image_source(alt: Seq<char>, src: Seq<char>, title: Seq<char>) -> Seq<char> {
    seq!['!', '['] + alt + seq![']', '('] + src + seq![' '] + title + seq![')']
}

/// The HTML of an image with the given alternative text, source and
/// title.
pub open spec fn image_element(alt: Seq<char>, src: Seq<char>, title: Seq<char>) -> Seq<char> {
    "<img src=\""@ + src + "\" alt=\""@ + alt + "\" title=\""@ + title + "\">"@
}

/// Whether no character of `s` is a space.
pub open spec fn free_of_spaces(s: Seq<char>) -> bool {
    forall|i: int| 0 <= i < s.len() ==> #[trigger] s[i] != ' '
}

/// The source of an image, free of markup and spaces, runs from `p` up to
/// the space at `end`.
proof fn lemma_word_over_text(text: Seq<char>, p: int, end: int)
    requires
        0 < p <= end < text.len(),
        text[p - 1] != '\n',
        forall|i: int| p <= i < end ==> !is_markup(#[trigger] text[i]) && text[i] != ' ',
        text[end] == ' ',
    ensures
        word_text(text, p) == text.subrange(p, end),
        word_end(text, p) == end,
    decreases end - p,
{
    if p < end {
        assert(!is_markup(text[p]) && text[p] != ' ');
        assert(kind_at(text, p) == TokenType::Letter);
        assert(is_word_char(text, p));
        assert(literal_at(text, p) == seq![text[p]]);
        assert(after(text, p) == p + 1);
        lemma_word_over_text(text, p + 1, end);
        assert(seq![text[p]] + text.subrange(p + 1, end) =~= text.subrange(p, end));
    } else {
        assert(!is_word_char(text, p));
        assert(text.subrange(p, end) =~= Seq::<char>::empty());
    }
}

/// An image inside a text: the `!` ends at `p`, where the `[` stands; the
/// alternative text runs up to the `]` at `close`, the source from behind the
/// `(` up to the space at `space`, the title from behind it up to the `)` at
/// `end`.
proof fn lemma_image_at(text: Seq<char>, p: int, close: int, space: int, end: int)
    requires
        0 < p < close,
        close + 1 < space < end < text.len(),
        text[p - 1] == '!',
        text[p] == '[',
        text[close] == ']',
        text[close + 1] == '(',
        text[space] == ' ',
        text[end] == ')',
        forall|i: int| p + 1 <= i < close ==> !is_markup(#[trigger] text[i]),
        forall|i: int| close + 2 <= i < space ==> !is_markup(#[trigger] text[i]) && text[i] != ' ',
        forall|i: int| space + 1 <= i < end ==> !is_markup(#[trigger] text[i]),
    ensures
        image_html(text, p) == image_element(
            text.subrange(p + 1, close),
            text.subrange(close + 2, space),
            text.subrange(space + 1, end),
        ),
        image_end(text, p) == end + 1,
{
    assert(no_break_between(text, p + 1, close)) by {
        assert forall|k: int| p + 1 <= k < close implies #[trigger] text[k] != '\n' by {
            assert(!is_markup(text[k]));
        }
    }
    assert(closes_on_line(text, p + 1));
    assert(after(text, p) == p + 1);
    lemma_run_over_text(text, p + 1, close, TokenType::LBracket);
    assert(after(text, close) == close + 1);
    assert(after(text, close + 1) == close + 2);
    assert(image_src_start(text, p) == close + 2);
    lemma_word_over_text(text, close + 2, space);
    assert(kind_at(text, space) == TokenType::Letter);
    assert(after(text, space) == space + 1);
    assert(image_title_start(text, p) == space + 1);
    lemma_run_over_text(text, space + 1, end, TokenType::LParen);
    assert(after(text, end) == end + 1);
}

/// An image that stands alone comes out with its source, its alternative
/// text and its title as they stand, where all three are free of markup and
/// the source holds no space.
pub proof fn lemma_image_alone(alt: Seq<char>, src: Seq<char>, title: Seq<char>)
    requires
        free_of_markup(alt),
        free_of_markup(src),
        free_of_spaces(src),
        free_of_markup(title),
    ensures
        render(image_source(alt, src, title)) == Some(image_element(alt, src, title)),
{
    let text = image_source(alt, src, title);
    let a = alt.len() as int;
    let s = src.len() as int;
    let len = text.len() as int;
    assert(len == a + s + title.len() + 6);
    let close = a + 2;
    let space = a + 4 + s;
    assert(text[0] == '!' && text[1] == '[' && text[close] == ']' && text[close + 1] == '('
        && text[space] == ' ' && text[len - 1] == ')');
    assert forall|i: int| 2 <= i < close implies !is_markup(#[trigger] text[i]) by {
        assert(text[i] == alt[i - 2]);
    }
    assert forall|i: int| close + 2 <= i < space implies !is_markup(#[trigger] text[i])
        && text[i] != ' ' by {
        assert(text[i] == src[i - close - 2]);
    }
    assert forall|i: int| space + 1 <= i < len - 1 implies !is_markup(#[trigger] text[i]) by {
        assert(text[i] == title[i - space - 1]);
    }
    lemma_image_at(text, 1, close, space, len - 1);
    assert(text.subrange(2, close) =~= alt);
    assert(text.subrange(close + 2, space) =~= src);
    assert(text.subrange(space + 1, len - 1) =~= title);
    assert(block_html(text, 0) == Some(image_element(alt, src, title)));
    assert(block_end(text, 0) == len);
    assert(document_html(text, len) == Some(Seq::<char>::empty()));
    assert(image_element(alt, src, title) + Seq::<char>::empty() =~= image_element(
        alt,
        src,
        title,
    ));
}

/// The inside of a paragraph at a `[` or `!`: what the link or image gives,
/// then the inside of the paragraph from where that ends.
proof fn lemma_paragraph_inline(text: Seq<char>, at: int, end: int, inline: Seq<char>)
    requires
        0 < at < text.len(),
        (text[at] == '[' && link_html(text, at + 1) == inline && link_end(text, at + 1) == end)
            || (text[at] == '!' && image_html(text, at + 1) == inline && image_end(text, at + 1)
            == end),
    ensures
        paragraph_text(text, at) == inline + paragraph_text(text, end),
        paragraph_end(text, at) == paragraph_end(text, end),
{
    assert(after(text, at) == at + 1);
    assert(!ends_paragraph(text, at));
    if text[at] == '[' {
        assert(kind_at(text, at) == TokenType::RBracket);
    } else {
        assert(kind_at(text, at) == TokenType::Bang);
    }
}

/// A paragraph of text free of markup around one link or image: the text
/// up to `at`, where the `[` or `!` stands, then what the link or image
/// gives, then the text from `end` on.
proof fn lemma_paragraph_around(text: Seq<char>, at: int, end: int, inline: Seq<char>)
    requires
        0 < at < end <= text.len(),
        !is_digit(text[0]),
        forall|i: int| 0 <= i < at ==> !is_markup(#[trigger] text[i]),
        text[end - 1] != '\n',
        forall|i: int| end <= i < text.len() ==> !is_markup(#[trigger] text[i]),
        (text[at] == '[' && link_html(text, at + 1) == inline && link_end(text, at + 1) == end)
            || (text[at] == '!' && image_html(text, at + 1) == inline && image_end(text, at + 1)
            == end),
    ensures
        render(text) == Some(
            "<p>"@ + text.subrange(0, at) + inline + text.subrange(end, text.len() as int)
                + "</p>"@,
        ),
{
    let len = text.len() as int;
    assert(!is_markup(text[0]));
    lemma_first_text_token(text, 0);
    assert(!is_markup(text[at - 1]));
    lemma_paragraph_run(text, 1, at);
    lemma_paragraph_inline(text, at, end, inline);
    lemma_paragraph_to_end(text, end);
    let inside = text.subrange(1, at) + (inline + text.subrange(end, len));
    assert(paragraph_text(text, 1) == inside);
    assert(paragraph_end(text, 1) == len);
    let html = "<p>"@ + text.subrange(0, at) + inline + text.subrange(end, len) + "</p>"@;
    assert("<p>"@ + seq![text[0]] + inside + "</p>"@ =~= html);
    lemma_paragraph_block(text, inside);
    assert(document_html(text, len) == Some(Seq::<char>::empty()));
    assert(html + Seq::<char>::empty() =~= html);
}

/// A text that begins with a text token begins with a paragraph.
proof fn lemma_paragraph_block(text: Seq<char>, inside: Seq<char>)
    requires
        kind_at(text, 0) == TokenType::Letter,
        after(text, 0) == 1,
        paragraph_text(text, 1) == inside,
    ensures
        block_html(text, 0) == Some("<p>"@ + literal_at(text, 0) + inside + "</p>"@),
        block_end(text, 0) == paragraph_end(text, 1),
{
}

/// A link inside a paragraph comes out as an anchor between the text
/// before it and the text behind it, where the text before is plain and the
/// text behind, the title and the address are free of markup.
pub proof fn lemma_link_in_paragraph(
    before: Seq<char>,
    title: Seq<char>,
    href: Seq<char>,
    behind: Seq<char>,
)
    requires
        is_plain(before),
        free_of_markup(title),
        free_of_markup(href),
        free_of_markup(behind),
    ensures
        render(before + link_source(title, href) + behind) == Some(
            "<p>"@ + before + link_element(title, href) + behind + "</p>"@,
        ),
{
    let text = before + link_source(title, href) + behind;
    let b = before.len() as int;
    let len = text.len() as int;
    let close = b + 1 + title.len();
    let end = close + 2 + href.len();
    assert(len == end + 1 + behind.len());
    assert forall|i: int| 0 <= i < b implies !is_markup(#[trigger] text[i]) by {
        assert(text[i] == before[i]);
        assert(!is_markup(before[i]));
    }
    assert(text[0] == before[0]);
    assert(text[b] == '[' && text[close] == ']' && text[close + 1] == '(' && text[end] == ')');
    assert forall|i: int| b + 1 <= i < close implies !is_markup(#[trigger] text[i]) by {
        assert(text[i] == title[i - b - 1]);
    }
    assert forall|i: int| close + 2 <= i < end implies !is_markup(#[trigger] text[i]) by {
        assert(text[i] == href[i - close - 2]);
    }
    assert forall|i: int| end + 1 <= i < len implies !is_markup(#[trigger] text[i]) by {
        assert(text[i] == behind[i - end - 1]);
    }
    lemma_link_at(text, b + 1, close, end);
    assert(text.subrange(0, b) =~= before);
    assert(text.subrange(b + 1, close) =~= title);
    assert(text.subrange(close + 2, end) =~= href);
    assert(text.subrange(end + 1, len) =~= behind);
    lemma_paragraph_around(text, b, end + 1, link_element(title, href));
}

/// The characters of an image and of the text around it, index by index.
proof fn lemma_image_layout(
    before: Seq<char>,
    alt: Seq<char>,
    src: Seq<char>,
    title: Seq<char>,
    behind: Seq<char>,
)
    ensures
        ({
            let text = before + image_source(alt, src, title) + behind;
            let b = before.len() as int;
            let close = b + 2 + alt.len();
            let space = close + 2 + src.len();
            let end = space + 1 + title.len();
            &&& text.len() == end + 1 + behind.len()
            &&& text[b] == '!' && text[b + 1] == '[' && text[close] == ']' && text[close + 1]
                == '(' && text[space] == ' ' && text[end] == ')'
            &&& text.subrange(0, b) == before
            &&& text.subrange(b + 2, close) == alt
            &&& text.subrange(close + 2, space) == src
            &&& text.subrange(space + 1, end) == title
            &&& text.subrange(end + 1, text.len() as int) == behind
        }),
{
    let text = before + image_source(alt, src, title) + behind;
    let b = before.len() as int;
    let close = b + 2 + alt.len();
    let space = close + 2 + src.len();
    let end = space + 1 + title.len();
    let image = image_source(alt, src, title);
    assert(image.len() == end + 1 - b);
    assert(image[0] == '!' && image[1] == '[' && image[close - b] == ']' && image[close + 1 - b]
        == '(' && image[space - b] == ' ' && image[end - b] == ')');
    assert(image.subrange(2, close - b) =~= alt);
    assert(image.subrange(close + 2 - b, space - b) =~= src);
    assert(image.subrange(space + 1 - b, end - b) =~= title);
    assert(text.subrange(b, end + 1) =~= image);
    assert(text.subrange(0, b) =~= before);
    assert(text.subrange(end + 1, text.len() as int) =~= behind);
    assert(text.subrange(b + 2, close) =~= text.subrange(b, end + 1).subrange(2, close - b));
    assert(text.subrange(close + 2, space) =~= text.subrange(b, end + 1).subrange(
        close + 2 - b,
        space - b,
    ));
    assert(text.subrange(space + 1, end) =~= text.subrange(b, end + 1).subrange(
        space + 1 - b,
        end - b,
    ));
    assert(text[b] == image[0] && text[b + 1] == image[1] && text[close] == image[close - b]
        && text[close + 1] == image[close + 1 - b] && text[space] == image[space - b]
        && text[end] == image[end - b]);
}

/// A part of a text that is free of markup, seen in the text.
proof fn lemma_free_in_text(text: Seq<char>, from: int, to: int)
    requires
        0 <= from <= to <= text.len(),
        free_of_markup(text.subrange(from, to)),
    ensures
        forall|i: int| from <= i < to ==> !is_markup(#[trigger] text[i]),
{
    assert forall|i: int| from <= i < to implies !is_markup(#[trigger] text[i]) by {
        assert(text[i] == text.subrange(from, to)[i - from]);
    }
}

/// An image inside a paragraph comes out between the text before it and
/// the text behind it, where the text before is plain, the text behind and
/// the image's parts are free of markup, and the source holds no space.
pub proof fn lemma_image_in_paragraph(
    before: Seq<char>,
    alt: Seq<char>,
    src: Seq<char>,
    title: Seq<char>,
    behind: Seq<char>,
)
    requires
        is_plain(before),
        free_of_markup(alt),
        free_of_markup(src),
        free_of_spaces(src),
        free_of_markup(title),
        free_of_markup(behind),
    ensures
        render(before + image_source(alt, src, title) + behind) == Some(
            "<p>"@ + before + image_element(alt, src, title) + behind + "</p>"@,
        ),
{
    let text = before + image_source(alt, src, title) + behind;
    let b = before.len() as int;
    let len = text.len() as int;
    let close = b + 2 + alt.len();
    let space = close + 2 + src.len();
    let end = space + 1 + title.len();
    lemma_image_layout(before, alt, src, title, behind);
    lemma_free_in_text(text, 0, b);
    lemma_free_in_text(text, b + 2, close);
    lemma_free_in_text(text, close + 2, space);
    lemma_free_in_text(text, space + 1, end);
    lemma_free_in_text(text, end + 1, len);
    assert forall|i: int| close + 2 <= i < space implies !is_markup(#[trigger] text[i])
        && text[i] != ' ' by {
        assert(text[i] == text.subrange(close + 2, space)[i - close - 2]);
    }
    assert(text[0] == text.subrange(0, b)[0]);
    lemma_image_at(text, b + 1, close, space, end);
    lemma_paragraph_around(text, b, end + 1, image_element(alt, src, title));
}

/// The marker of a list item with digit `d`: the digit, a dot and a
/// space.
pub open spec fn list_marker(d: char) -> Seq<char> {
    seq![d, '.', ' ']
}

/// The text of a list: each item, given by its digit and its text, on a
/// line of its own.
pub open spec fn list_source(items: Seq<(char, Seq<char>)>) -> Seq<char>
    decreases items.len(),
{
    if items.len() == 0 {
        Seq::empty()
    } else if items.len() == 1 {
        list_marker(items[0].0) + items[0].1
    } else {
        list_marker(items[0].0) + items[0].1 + seq!['\n'] + list_source(items.drop_first())
    }
}

/// The texts of the items, one after another, with the end of one item and
/// the start of the next between them.
pub open spec fn list_items_html(items: Seq<(char, Seq<char>)>) -> Seq<char>
    decreases items.len(),
{
    if items.len() == 0 {
        Seq::empty()
    } else if items.len() == 1 {
        items[0].1
    } else {
        items[0].1 + "</li><li>"@ + list_items_html(items.drop_first())
    }
}

/// There is an item, each item's marker holds a digit, and each item's text
/// is free of markup.
pub open spec fn are_list_items(items: Seq<(char, Seq<char>)>) -> bool {
    &&& items.len() > 0
    &&& forall|i: int|
        0 <= i < items.len() ==> is_digit((#[trigger] items[i]).0) && free_of_markup(items[i].1)
}

/// The text of a list begins with the marker of its first item.
proof fn lemma_list_source_starts(items: Seq<(char, Seq<char>)>)
    requires
        items.len() > 0,
    ensures
        list_source(items).len() >= 3 + items[0].1.len(),
        list_source(items).subrange(0, 3) == list_marker(items[0].0),
        list_source(items).subrange(3, 3 + items[0].1.len() as int) == items[0].1,
{
    let m = list_marker(items[0].0);
    let t = items[0].1;
    let n = t.len() as int;
    if items.len() == 1 {
        assert((m + t).subrange(0, 3) =~= m);
        assert((m + t).subrange(3, 3 + n) =~= t);
    } else {
        let rest = list_source(items.drop_first());
        assert((m + t + seq!['\n'] + rest).subrange(0, 3) =~= m);
        assert((m + t + seq!['\n'] + rest).subrange(3, 3 + n) =~= t);
    }
}

/// The inside of a list that runs over characters free of markup, from `p`
/// up to `end`, begins with those characters as they stand and goes on as it
/// does from `end`.
proof fn lemma_list_run(text: Seq<char>, p: int, end: int)
    requires
        0 < p <= end <= text.len(),
        text[p - 1] != '\n',
        forall|i: int| p <= i < end ==> !is_markup(#[trigger] text[i]),
    ensures
        list_text(text, p) == text.subrange(p, end) + list_text(text, end),
        list_end(text, p) == list_end(text, end),
    decreases end - p,
{
    if p < end {
        assert(!is_markup(text[p]));
        assert(kind_at(text, p) == TokenType::Letter);
        assert(literal_at(text, p) == seq![text[p]]);
        assert(after(text, p) == p + 1);
        lemma_list_run(text, p + 1, end);
        assert(seq![text[p]] + (text.subrange(p + 1, end) + list_text(text, end))
            =~= text.subrange(p, end) + list_text(text, end));
    } else {
        assert(text.subrange(p, end) + list_text(text, end) =~= list_text(text, end));
    }
}

/// The inside of a list whose first item's text begins at `p`, where the
/// text from the item's marker on is the list's text and at most one line
/// break behind it.
proof fn lemma_list_items_at(
    text: Seq<char>,
    p: int,
    items: Seq<(char, Seq<char>)>,
    trail: Seq<char>,
)
    requires
        are_list_items(items),
        3 <= p <= text.len(),
        text.subrange(p - 3, text.len() as int) == list_source(items) + trail,
        trail == Seq::<char>::empty() || trail == seq!['\n'],
    ensures
        list_text(text, p) == list_items_html(items),
        list_end(text, p) == text.len(),
    decreases items.len(),
{
    let len = text.len() as int;
    let src = list_source(items) + trail;
    let t = items[0].1;
    let n = t.len() as int;
    let e = p + n;
    lemma_list_source_starts(items);
    assert(text.subrange(p - 3, len).len() == len - (p - 3));
    assert(src.len() == list_source(items).len() + trail.len());
    assert(trail.len() == if trail == Seq::<char>::empty() {
        0nat
    } else {
        1nat
    });
    assert forall|k: int| 0 <= k < src.len() implies text[p - 3 + k] == #[trigger] src[k] by {
        assert(text.subrange(p - 3, len)[k] == text[p - 3 + k]);
    }
    assert(src[2] == list_source(items).subrange(0, 3)[2]);
    assert(text[p - 1] == ' ');
    assert forall|i: int| p <= i < e implies !is_markup(#[trigger] text[i]) by {
        assert(text[i] == src[i - p + 3]);
        assert(src[i - p + 3] == list_source(items).subrange(3, 3 + n)[i - p]);
        assert(!is_markup(t[i - p]));
    }
    lemma_list_run(text, p, e);
    assert(text.subrange(p, e) =~= t) by {
        assert forall|i: int| 0 <= i < n implies text.subrange(p, e)[i] == t[i] by {
            assert(text[p + i] == src[i + 3]);
            assert(src[i + 3] == list_source(items).subrange(3, 3 + n)[i]);
        }
    }
    if items.len() == 1 {
        assert(list_source(items) =~= list_marker(items[0].0) + t);
        assert(list_source(items).len() == 3 + n);
        if trail == Seq::<char>::empty() {
            assert(e == len);
            assert(list_text(text, e) == Seq::<char>::empty());
            assert(list_end(text, e) == len);
        } else {
            assert(e + 1 == len);
            assert(text[e] == src[3 + n]);
            assert(text[e] == '\n');
            assert(kind_at(text, e) == TokenType::LineBreak && after(text, e) == e + 1);
            assert(kind_at(text, e + 1) == TokenType::EOF);
            assert(list_text(text, e) == Seq::<char>::empty());
            assert(list_end(text, e) == len);
        }
        assert(t + Seq::<char>::empty() =~= t);
    } else {
        let rest = items.drop_first();
        assert(are_list_items(rest)) by {
            assert forall|i: int| 0 <= i < rest.len() implies is_digit((#[trigger] rest[i]).0)
                && free_of_markup(rest[i].1) by {
                assert(rest[i] == items[i + 1]);
            }
        }
        lemma_list_source_starts(rest);
        let rest_src = list_source(rest);
        assert(list_source(items) == list_marker(items[0].0) + t + seq!['\n'] + rest_src);
        assert(text[e] == src[3 + n]);
        assert(text[e] == '\n');
        assert(text[e + 1] == src[4 + n]);
        assert(src[4 + n] == rest_src.subrange(0, 3)[0]);
        assert(text[e + 1] == rest[0].0);
        assert(is_digit(rest[0].0));
        assert(e + 4 <= len);
        assert(kind_at(text, e) == TokenType::LineBreak && after(text, e) == e + 1);
        assert(kind_at(text, e + 1) == TokenType::OrderedItem);
        assert(after(text, e + 1) == e + 4);
        assert(text.subrange(e + 1, len) =~= rest_src + trail) by {
            assert forall|k: int| 0 <= k < len - e - 1 implies text.subrange(e + 1, len)[k] == (
            rest_src + trail)[k] by {
                assert(text[e + 1 + k] == src[n + 4 + k]);
            }
        }
        lemma_list_items_at(text, e + 4, rest, trail);
        assert(list_text(text, e) == "</li><li>"@ + list_text(text, e + 4));
        assert(list_end(text, e) == list_end(text, e + 4));
        assert(t + ("</li><li>"@ + list_items_html(rest)) =~= t + "</li><li>"@
            + list_items_html(rest));
    }
}

/// A list comes out as one ordered list with the items' texts as they
/// stand, whatever digits their markers hold, with or without a line break
/// behind the last item.
pub proof fn lemma_list_of_items(items: Seq<(char, Seq<char>)>, trailing_break: bool)
    requires
        are_list_items(items),
    ensures
        render(
            list_source(items) + if trailing_break {
                seq!['\n']
            } else {
                Seq::<char>::empty()
            },
        ) == Some("<ol><li>"@ + list_items_html(items) + "</li></ol>"@),
{
    let trail = if trailing_break {
        seq!['\n']
    } else {
        Seq::<char>::empty()
    };
    let text = list_source(items) + trail;
    let len = text.len() as int;
    lemma_list_source_starts(items);
    assert(text.subrange(0, len) =~= text);
    assert(text[0] == list_source(items).subrange(0, 3)[0]);
    assert(is_digit(items[0].0));
    assert(kind_at(text, 0) == TokenType::OrderedItem);
    assert(after(text, 0) == 3);
    lemma_list_items_at(text, 3, items, trail);
    let html = "<ol><li>"@ + list_items_html(items) + "</li></ol>"@;
    assert(block_html(text, 0) == Some(html));
    assert(block_end(text, 0) == len);
    assert(document_html(text, len) == Some(Seq::<char>::empty()));
    assert(html + Seq::<char>::empty() =~= html);
}

} // verus!
