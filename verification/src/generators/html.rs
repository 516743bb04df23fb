//! The HTML generator: one pass over the token stream, one HTML fragment
//! per block, concatenated in order.
//!
//! What the generator writes is stated by the spec functions of this file,
//! each over the input text and an index into it. An index is where a token
//! begins; `after` gives where the next one does.

use vstd::prelude::*;
use crate::generators::joins::{is_simple, joined_by_blank_line, lemma_blank_line_joins_documents};
use crate::generators::laws::{
    has_leading_markers, heading_element, heading_title, is_heading_line, is_plain,
    lemma_blank_line_separates_paragraphs, lemma_heading_level_is_marker_count,
    lemma_heading_line, lemma_heading_line_block, lemma_plain_text_is_one_paragraph,
    title_start, two_paragraphs,
};
use crate::parsers::markdown::lexer::{after, kind_at, lemma_after_bounds, literal_at, Lexer};
use crate::parsers::markdown::token::{Token, TokenType};
use crate::text::{decimal, decimal_string};

verus! {

/// The literals of the tokens from index `p` up to the first token of kind
/// `stop` (or the end of input), that token left out.
pub open spec fn run_text(text: Seq<char>, p: int, stop: TokenType) -> Seq<char>
    decreases text.len() - p,
{
    let kind = kind_at(text, p);
    if kind == TokenType::EOF || kind == stop {
        Seq::empty()
    } else {
        literal_at(text, p) + run_text(text, after(text, p), stop)
    }
}

/// Where the cursor stands once the run that begins at `p` and its closing
/// token of kind `stop` have been taken.
pub open spec fn run_end(text: Seq<char>, p: int, stop: TokenType) -> int
    decreases text.len() - p,
{
    let kind = kind_at(text, p);
    if kind == TokenType::EOF || kind == stop {
        after(text, p)
    } else {
        run_end(text, after(text, p), stop)
    }
}

/// How many heading markers follow one another from index `p` on.
pub open spec fn marker_count(text: Seq<char>, p: int) -> nat
    decreases text.len() - p,
{
    if kind_at(text, p) == TokenType::Heading {
        1 + marker_count(text, after(text, p))
    } else {
        0
    }
}

/// The index of the first token from `p` on that is no heading marker.
pub open spec fn markers_end(text: Seq<char>, p: int) -> int
    decreases text.len() - p,
{
    if kind_at(text, p) == TokenType::Heading {
        markers_end(text, after(text, p))
    } else {
        p
    }
}

/// The opening tag of a heading of the given level.
pub open spec fn heading_open(level: nat) -> Seq<char> {
    "<h"@ + decimal(level) + ">"@
}

/// The closing tag of a heading of the given level.
pub open spec fn heading_close(level: nat) -> Seq<char> {
    "</h"@ + decimal(level) + ">"@
}

/// The heading whose first marker ends at `p`: its level is the number of
/// markers, its body the rest of the line.
pub open spec fn heading_html(text: Seq<char>, p: int) -> Seq<char> {
    let level = 1 + marker_count(text, p);
    heading_open(level) + run_text(text, markers_end(text, p), TokenType::LineBreak)
        + heading_close(level)
}

/// Where the cursor stands after the heading whose first marker ends at
/// `p`: past the line break that closes it.
pub open spec fn heading_end(text: Seq<char>, p: int) -> int {
    run_end(text, markers_end(text, p), TokenType::LineBreak)
}

/// Whether a `]` directly followed by `(` stands at or after index `start`
/// with no line break between `start` and that `]`.
pub open spec fn closes_on_line(text: Seq<char>, start: int) -> bool {
    exists|j: int|
        start <= j && j + 1 < text.len() && #[trigger] text[j] == ']' && text[j + 1] == '('
            && no_break_between(text, start, j)
}

/// No line break stands at the indices from `from` up to `to`, `to` left
/// out.
pub open spec fn no_break_between(text: Seq<char>, from: int, to: int) -> bool {
    forall|k: int| from <= k < to ==> #[trigger] text[k] != '\n'
}

/// Where the address of a link whose title begins at `p` begins: past the
/// title, the `]` that closes it and one token more, the `(`.
pub open spec fn link_href_start(text: Seq<char>, p: int) -> int {
    after(text, run_end(text, p, TokenType::LBracket))
}

/// What comes out for a `[` that ends at `p`. Where the line goes on to
/// close the bracket and open a parenthesis, this is a link: the title runs
/// up to the first `]`, the address from behind the next token up to the
/// first `)`. Elsewhere nothing comes out, and the `[` is dropped.
pub open spec fn link_html(text: Seq<char>, p: int) -> Seq<char> {
    if closes_on_line(text, p) {
        "<a href=\""@ + run_text(text, link_href_start(text, p), TokenType::LParen) + "\">"@
            + run_text(text, p, TokenType::LBracket) + "</a>"@
    } else {
        Seq::empty()
    }
}

/// Where the cursor stands after what `link_html` describes: past the `)`
/// of a link, or still at `p`.
pub open spec fn link_end(text: Seq<char>, p: int) -> int {
    if closes_on_line(text, p) {
        run_end(text, link_href_start(text, p), TokenType::LParen)
    } else {
        p
    }
}

/// Whether the token at `p` is text other than a space.
pub open spec fn is_word_char(text: Seq<char>, p: int) -> bool {
    kind_at(text, p) == TokenType::Letter && text[p] != ' '
}

/// The text tokens from `p` up to the first space or other token.
pub open spec fn word_text(text: Seq<char>, p: int) -> Seq<char>
    decreases text.len() - p,
{
    if is_word_char(text, p) {
        literal_at(text, p) + word_text(text, after(text, p))
    } else {
        Seq::empty()
    }
}

/// The index of the first token from `p` on that is a space or no text.
pub open spec fn word_end(text: Seq<char>, p: int) -> int
    decreases text.len() - p,
{
    if is_word_char(text, p) {
        word_end(text, after(text, p))
    } else {
        p
    }
}

/// Where the source of an image begins when the `!` ends at `p`: past one
/// token (the `[`), the alternative text, the `]` and one token more.
pub open spec fn image_src_start(text: Seq<char>, p: int) -> int {
    after(text, run_end(text, after(text, p), TokenType::LBracket))
}

/// Where the title of an image begins when the `!` ends at `p`: past the
/// source and the token that ends it, the space.
pub open spec fn image_title_start(text: Seq<char>, p: int) -> int {
    after(text, word_end(text, image_src_start(text, p)))
}

/// Whether the line goes on from `p`, where a `!` ends, to an image: the
/// token at `p` (the `[`) is no line break, and behind it the line closes
/// the bracket and opens a parenthesis.
pub open spec fn image_ahead(text: Seq<char>, p: int) -> bool {
    kind_at(text, p) != TokenType::LineBreak && closes_on_line(text, p + 1)
}

/// What comes out for a `!` that ends at `p`. Where the line goes on to an
/// image, the alternative text runs from behind the token at `p` up to the
/// first `]`, the source from behind the token after that up to a space, the
/// title from behind the space up to the first `)`. Elsewhere a literal `!`
/// comes out.
pub open spec fn image_html(text: Seq<char>, p: int) -> Seq<char> {
    if image_ahead(text, p) {
        "<img src=\""@ + word_text(text, image_src_start(text, p)) + "\" alt=\""@ + run_text(
            text,
            after(text, p),
            TokenType::LBracket,
        ) + "\" title=\""@ + run_text(text, image_title_start(text, p), TokenType::LParen)
            + "\">"@
    } else {
        "!"@
    }
}

/// Where the cursor stands after what `image_html` describes: past the `)`
/// of an image, or still at `p`.
pub open spec fn image_end(text: Seq<char>, p: int) -> int {
    if image_ahead(text, p) {
        run_end(text, image_title_start(text, p), TokenType::LParen)
    } else {
        p
    }
}

/// Whether the token at `p` closes a paragraph: a line break followed by
/// another line break, the end of input or a list marker.
pub open spec fn ends_paragraph(text: Seq<char>, p: int) -> bool {
    let next = kind_at(text, after(text, p));
    kind_at(text, p) == TokenType::LineBreak && (next == TokenType::LineBreak || next
        == TokenType::EOF || next == TokenType::OrderedItem)
}

/// The inside of a paragraph from the token at `p` on: links and images are
/// expanded, every other token gives its literal, up to the token that
/// closes the paragraph or the end of input.
pub open spec fn paragraph_text(text: Seq<char>, p: int) -> Seq<char>
    decreases text.len() - p,
{
    let kind = kind_at(text, p);
    if kind == TokenType::EOF || ends_paragraph(text, p) {
        Seq::empty()
    } else if kind == TokenType::RBracket {
        proof {
            lemma_link_end_bounds(text, after(text, p));
        }
        link_html(text, after(text, p)) + paragraph_text(text, link_end(text, after(text, p)))
    } else if kind == TokenType::Bang {
        proof {
            lemma_image_end_bounds(text, after(text, p));
        }
        image_html(text, after(text, p)) + paragraph_text(text, image_end(text, after(text, p)))
    } else {
        literal_at(text, p) + paragraph_text(text, after(text, p))
    }
}

/// Where the cursor stands after the paragraph whose inside begins at `p`:
/// past the line break that closes it.
pub open spec fn paragraph_end(text: Seq<char>, p: int) -> int
    decreases text.len() - p,
{
    let kind = kind_at(text, p);
    if kind == TokenType::EOF || ends_paragraph(text, p) {
        after(text, p)
    } else if kind == TokenType::RBracket {
        proof {
            lemma_link_end_bounds(text, after(text, p));
        }
        paragraph_end(text, link_end(text, after(text, p)))
    } else if kind == TokenType::Bang {
        proof {
            lemma_image_end_bounds(text, after(text, p));
        }
        paragraph_end(text, image_end(text, after(text, p)))
    } else {
        paragraph_end(text, after(text, p))
    }
}

/// Whether the token at `p` closes a list: a line break followed by another
/// line break or the end of input.
pub open spec fn ends_list(text: Seq<char>, p: int) -> bool {
    let next = kind_at(text, after(text, p));
    kind_at(text, p) == TokenType::LineBreak && (next == TokenType::LineBreak || next
        == TokenType::EOF)
}

/// The inside of a list from the token at `p` on. A line break that does
/// not close the list opens the next item, and the token behind it (the
/// list marker) is passed over; every other token gives its literal.
pub open spec fn list_text(text: Seq<char>, p: int) -> Seq<char>
    decreases text.len() - p,
{
    let kind = kind_at(text, p);
    if kind == TokenType::EOF || ends_list(text, p) {
        Seq::empty()
    } else if kind == TokenType::LineBreak {
        "</li><li>"@ + list_text(text, after(text, after(text, p)))
    } else {
        literal_at(text, p) + list_text(text, after(text, p))
    }
}

/// Where the cursor stands after the list whose inside begins at `p`.
pub open spec fn list_end(text: Seq<char>, p: int) -> int
    decreases text.len() - p,
{
    let kind = kind_at(text, p);
    if kind == TokenType::EOF || ends_list(text, p) {
        after(text, p)
    } else if kind == TokenType::LineBreak {
        list_end(text, after(text, after(text, p)))
    } else {
        list_end(text, after(text, p))
    }
}

/// The HTML of the block that the token at `p` opens, or `None` where that
/// token can open no block: a `]`, a `(` or a `)`.
pub open spec fn block_html(text: Seq<char>, p: int) -> Option<Seq<char>> {
    let q = after(text, p);
    match kind_at(text, p) {
        TokenType::Heading => Some(heading_html(text, q)),
        TokenType::Letter => Some("<p>"@ + literal_at(text, p) + paragraph_text(text, q) + "</p>"@),
        TokenType::OrderedItem => Some("<ol><li>"@ + list_text(text, q) + "</li></ol>"@),
        TokenType::RBracket => Some(link_html(text, q)),
        TokenType::Bang => Some(image_html(text, q)),
        TokenType::LineBreak | TokenType::EOF => Some(Seq::empty()),
        _ => None,
    }
}

/// Where the cursor stands after the block that the token at `p` opens.
pub open spec fn block_end(text: Seq<char>, p: int) -> int {
    let q = after(text, p);
    match kind_at(text, p) {
        TokenType::Heading => heading_end(text, q),
        TokenType::Letter => paragraph_end(text, q),
        TokenType::OrderedItem => list_end(text, q),
        TokenType::RBracket => link_end(text, q),
        TokenType::Bang => image_end(text, q),
        _ => q,
    }
}

/// The HTML of the text from index `p` on: the blocks one after another, or
/// `None` where a token that can open no block stands where a block is to
/// begin.
pub open spec fn document_html(text: Seq<char>, p: int) -> Option<Seq<char>>
    decreases text.len() - p,
{
    if kind_at(text, p) == TokenType::EOF {
        Some(Seq::empty())
    } else {
        proof {
            lemma_block_end_bounds(text, p);
        }
        match block_html(text, p) {
            None => None,
            Some(block) => match document_html(text, block_end(text, p)) {
                None => None,
                Some(rest) => Some(block + rest),
            },
        }
    }
}

/// Where the generator stops when it sets out at index `p`: at the end of
/// input, or behind the first token that stands where a block is to begin
/// and can open none.
pub open spec fn document_end(text: Seq<char>, p: int) -> int
    decreases text.len() - p,
{
    if kind_at(text, p) == TokenType::EOF {
        p
    } else {
        proof {
            lemma_block_end_bounds(text, p);
        }
        match block_html(text, p) {
            None => after(text, p),
            Some(_) => document_end(text, block_end(text, p)),
        }
    }
}

/// The HTML of a whole text.
pub open spec fn render(text: Seq<char>) -> Option<Seq<char>> {
    document_html(text, 0)
}

/// A run ends at or behind the index where it begins, and inside the text.
pub proof fn lemma_run_end_bounds(text: Seq<char>, p: int, stop: TokenType)
    ensures
        p <= run_end(text, p, stop),
        0 <= p <= text.len() ==> run_end(text, p, stop) <= text.len(),
    decreases text.len() - p,
{
    lemma_after_bounds(text, p);
    let kind = kind_at(text, p);
    if !(kind == TokenType::EOF || kind == stop) {
        lemma_run_end_bounds(text, after(text, p), stop);
    }
}

/// Heading markers end at or behind the index where they begin, and inside
/// the text.
pub proof fn lemma_markers_end_bounds(text: Seq<char>, p: int)
    ensures
        p <= markers_end(text, p),
        0 <= p <= text.len() ==> markers_end(text, p) <= text.len(),
    decreases text.len() - p,
{
    lemma_after_bounds(text, p);
    if kind_at(text, p) == TokenType::Heading {
        lemma_markers_end_bounds(text, after(text, p));
    }
}

/// A word ends at or behind the index where it begins, and inside the
/// text.
pub proof fn lemma_word_end_bounds(text: Seq<char>, p: int)
    ensures
        p <= word_end(text, p),
        0 <= p <= text.len() ==> word_end(text, p) <= text.len(),
    decreases text.len() - p,
{
    lemma_after_bounds(text, p);
    if is_word_char(text, p) {
        lemma_word_end_bounds(text, after(text, p));
    }
}

/// What a `[` gives ends at or behind the index where it begins, and
/// inside the text.
pub proof fn lemma_link_end_bounds(text: Seq<char>, p: int)
    ensures
        p <= link_end(text, p),
        0 <= p <= text.len() ==> link_end(text, p) <= text.len(),
{
    lemma_run_end_bounds(text, p, TokenType::LBracket);
    let q = run_end(text, p, TokenType::LBracket);
    lemma_after_bounds(text, q);
    lemma_run_end_bounds(text, after(text, q), TokenType::LParen);
}

/// What a `!` gives ends at or behind the index where it begins, and
/// inside the text.
pub proof fn lemma_image_end_bounds(text: Seq<char>, p: int)
    ensures
        p <= image_end(text, p),
        0 <= p <= text.len() ==> image_end(text, p) <= text.len(),
{
    lemma_after_bounds(text, p);
    lemma_run_end_bounds(text, after(text, p), TokenType::LBracket);
    let q = run_end(text, after(text, p), TokenType::LBracket);
    lemma_after_bounds(text, q);
    lemma_word_end_bounds(text, after(text, q));
    let r = word_end(text, after(text, q));
    lemma_after_bounds(text, r);
    lemma_run_end_bounds(text, after(text, r), TokenType::LParen);
}

/// A paragraph ends at or behind the index where its inside begins, and
/// inside the text.
pub proof fn lemma_paragraph_end_bounds(text: Seq<char>, p: int)
    ensures
        p <= paragraph_end(text, p),
        0 <= p <= text.len() ==> paragraph_end(text, p) <= text.len(),
    decreases text.len() - p,
{
    lemma_after_bounds(text, p);
    let kind = kind_at(text, p);
    let q = after(text, p);
    if kind == TokenType::EOF || ends_paragraph(text, p) {
    } else if kind == TokenType::RBracket {
        lemma_link_end_bounds(text, q);
        lemma_paragraph_end_bounds(text, link_end(text, q));
    } else if kind == TokenType::Bang {
        lemma_image_end_bounds(text, q);
        lemma_paragraph_end_bounds(text, image_end(text, q));
    } else {
        lemma_paragraph_end_bounds(text, q);
    }
}

/// A list ends at or behind the index where its inside begins, and inside
/// the text.
pub proof fn lemma_list_end_bounds(text: Seq<char>, p: int)
    ensures
        p <= list_end(text, p),
        0 <= p <= text.len() ==> list_end(text, p) <= text.len(),
    decreases text.len() - p,
{
    lemma_after_bounds(text, p);
    let kind = kind_at(text, p);
    let q = after(text, p);
    if kind == TokenType::EOF || ends_list(text, p) {
    } else if kind == TokenType::LineBreak {
        lemma_after_bounds(text, q);
        lemma_list_end_bounds(text, after(text, q));
    } else {
        lemma_list_end_bounds(text, q);
    }
}

/// A block that begins inside the text takes at least its first token and
/// ends inside the text.
pub proof fn lemma_block_end_bounds(text: Seq<char>, p: int)
    ensures
        after(text, p) <= block_end(text, p),
        0 <= p <= text.len() ==> block_end(text, p) <= text.len(),
{
    lemma_after_bounds(text, p);
    let q = after(text, p);
    lemma_markers_end_bounds(text, q);
    lemma_run_end_bounds(text, markers_end(text, q), TokenType::LineBreak);
    lemma_paragraph_end_bounds(text, q);
    lemma_list_end_bounds(text, q);
    lemma_link_end_bounds(text, q);
    lemma_image_end_bounds(text, q);
}

/// What `get_html` reports when a `]`, a `(` or a `)` stands where a block
/// is to begin.
pub open spec fn stray_token_message() -> Seq<char> {
    "ERROR: Unexpected token at the start of a block"@
}

/// Whether `res` is a success that holds `html`.
pub open spec fn is_ok_with(res: Result<String, String>, html: Seq<char>) -> bool {
    res matches Ok(s) && s@ == html
}

/// The generator: it owns the lexer that it reads from.
pub struct HtmlGenerator {
    lexer: Lexer,
}

impl HtmlGenerator {
    /// The text that the generator reads.
    pub closed spec fn text(&self) -> Seq<char> {
        self.lexer.text()
    }

    /// The index of the first character that the generator has not read.
    pub closed spec fn cursor(&self) -> int {
        self.lexer.cursor()
    }

    /// The generator's lexer is well formed.
    pub closed spec fn wf(&self) -> bool {
        self.lexer.wf() && 0 <= self.lexer.cursor() <= self.lexer.text().len() <= usize::MAX
    }

    /// A generator that reads from `lexer`, from its cursor on.
    pub fn new(lexer: Lexer) -> (generator: HtmlGenerator)
        requires
            lexer.wf(),
        ensures
            generator.wf(),
            generator.text() == lexer.text(),
            generator.cursor() == lexer.cursor(),
    {
        proof {
            lexer.lemma_cursor_in_text();
        }
        HtmlGenerator { lexer }
    }

    /// Generates the HTML of the text from the cursor on, block by block.
    /// Fails where a token that can open no block stands where a block is
    /// to begin.
    ///
    /// From the start of a text: plain text comes out as one paragraph; a
    /// heading line comes out as a heading whose level is the number of its
    /// markers; two plain texts with a blank line between them come out as
    /// two paragraphs; and two documents of headings, paragraphs and lists
    /// with a blank line between them come out as the HTML of the first
    /// followed by the HTML of the second.
    pub fn get_html(&mut self) -> (res: Result<String, String>)
        requires
            old(self).wf(),
        ensures
            final(self).wf(),
            final(self).text() == old(self).text(),
            final(self).cursor() == document_end(old(self).text(), old(self).cursor()),
            match document_html(old(self).text(), old(self).cursor()) {
                Some(html) => res matches Ok(s) && s@ == html,
                None => res matches Err(e) && e@ == stray_token_message(),
            },
            old(self).cursor() == 0 && is_plain(old(self).text()) ==> is_ok_with(
                res,
                "<p>"@ + old(self).text() + "</p>"@,
            ),
            forall|n: int|
                old(self).cursor() == 0 && #[trigger] is_heading_line(old(self).text(), n)
                    ==> is_ok_with(res, heading_element(n, heading_title(old(self).text(), n))),
            forall|first: Seq<char>, second: Seq<char>|
                old(self).cursor() == 0 && old(self).text() == #[trigger] two_paragraphs(
                    first,
                    second,
                ) && is_plain(first) && is_plain(second) ==> is_ok_with(
                    res,
                    "<p>"@ + first + "</p>"@ + "<p>"@ + second + "</p>"@,
                ),
            forall|first: Seq<char>, second: Seq<char>|
                old(self).cursor() == 0 && old(self).text() == #[trigger] joined_by_blank_line(
                    first,
                    second,
                ) && is_simple(first) && is_simple(second) ==> is_ok_with(
                    res,
                    render(first)->0 + render(second)->0,
                ),
    {
        proof {
            let text = old(self).text();
            if old(self).cursor() == 0 {
                assert forall|first: Seq<char>, second: Seq<char>|
                    text == #[trigger] joined_by_blank_line(first, second) && is_simple(first)
                        && is_simple(second) implies render(text) == Some(
                    render(first)->0 + render(second)->0,
                ) by {
                    lemma_blank_line_joins_documents(first, second);
                }
                if is_plain(text) {
                    lemma_plain_text_is_one_paragraph(text);
                }
                assert forall|n: int| #[trigger] is_heading_line(text, n) implies render(text)
                    == Some(heading_element(n, heading_title(text, n))) by {
                    lemma_heading_line(text, n);
                }
                assert forall|first: Seq<char>, second: Seq<char>|
                    text == #[trigger] two_paragraphs(first, second) && is_plain(first)
                        && is_plain(second) implies render(text) == Some(
                    "<p>"@ + first + "</p>"@ + "<p>"@ + second + "</p>"@,
                ) by {
                    lemma_blank_line_separates_paragraphs(first, second);
                }
            }
        }
        let ghost text = self.text();
        let ghost start = self.cursor();
        let mut out = String::new();
        let ghost mut p = self.cursor();
        let mut i = self.lexer.next_token();
        proof {
            lemma_after_bounds(text, p);
        }
        while i.token_type != TokenType::EOF
            invariant
                self.wf(),
                self.text() == text,
                text == old(self).text(),
                start == old(self).cursor(),
                0 <= p <= text.len(),
                self.cursor() == after(text, p),
                i.token_type == kind_at(text, p),
                i.literal@ == literal_at(text, p),
                document_end(text, start) == document_end(text, p),
                document_html(text, start) == match document_html(text, p) {
                    Some(rest) => Some(out@ + rest),
                    None => None,
                },
                start == 0 && is_plain(text) ==> render(text) == Some("<p>"@ + text + "</p>"@),
                forall|n: int|
                    start == 0 && #[trigger] is_heading_line(text, n) ==> render(text) == Some(
                        heading_element(n, heading_title(text, n)),
                    ),
                forall|first: Seq<char>, second: Seq<char>|
                    start == 0 && text == #[trigger] two_paragraphs(first, second) && is_plain(
                        first,
                    ) && is_plain(second) ==> render(text) == Some(
                        "<p>"@ + first + "</p>"@ + "<p>"@ + second + "</p>"@,
                    ),
                forall|first: Seq<char>, second: Seq<char>|
                    start == 0 && text == #[trigger] joined_by_blank_line(first, second)
                        && is_simple(first) && is_simple(second) ==> render(text) == Some(
                        render(first)->0 + render(second)->0,
                    ),
            decreases text.len() - p,
        {
            proof {
                lemma_block_end_bounds(text, p);
            }
            let token_html = match self.get_html_for_token(i, Ghost(p)) {
                Ok(html) => html,
                Err(e) => {
                    return Err(e);
                },
            };
            let ghost before = out@;
            out.append(token_html.as_str());
            proof {
                let q = block_end(text, p);
                match document_html(text, q) {
                    Some(rest) => {
                        assert(before + (token_html@ + rest) =~= out@ + rest);
                    },
                    None => {},
                }
                p = q;
                lemma_after_bounds(text, p);
            }
            i = self.lexer.next_token();
        }
        assert(out@ + Seq::<char>::empty() =~= out@);
        Ok(out)
    }

    /// Generates the HTML of the block opened by `token`, which begins at
    /// index `p` and has just been taken.
    ///
    /// For the markers that open a text, the level of the heading is their
    /// number.
    fn get_html_for_token(&mut self, token: Token, Ghost(p): Ghost<int>) -> (res: Result<
        String,
        String,
    >)
        requires
            old(self).wf(),
            0 <= p < old(self).text().len(),
            old(self).cursor() == after(old(self).text(), p),
            token.token_type == kind_at(old(self).text(), p),
            token.literal@ == literal_at(old(self).text(), p),
        ensures
            final(self).wf(),
            final(self).text() == old(self).text(),
            match block_html(old(self).text(), p) {
                Some(html) => res matches Ok(s) && s@ == html && final(self).cursor() == block_end(
                    old(self).text(),
                    p,
                ),
                None => res matches Err(e) && e@ == stray_token_message() && final(self).cursor()
                    == old(self).cursor(),
            },
            forall|n: int|
                p == 0 && #[trigger] has_leading_markers(old(self).text(), n) ==> is_ok_with(
                    res,
                    heading_element(
                        n,
                        run_text(
                            old(self).text(),
                            title_start(old(self).text(), n),
                            TokenType::LineBreak,
                        ),
                    ),
                ),
            forall|n: int|
                p == 0 && #[trigger] is_heading_line(old(self).text(), n) ==> is_ok_with(
                    res,
                    heading_element(n, heading_title(old(self).text(), n)),
                ) && final(self).cursor() == old(self).text().len(),
    {
        let ghost text = self.text();
        let ghost q = self.cursor();
        proof {
            lemma_after_bounds(text, p);
            if p == 0 {
                assert forall|n: int| #[trigger] has_leading_markers(text, n) implies block_html(
                    text,
                    0,
                ) == Some(
                    heading_element(n, run_text(text, title_start(text, n), TokenType::LineBreak)),
                ) by {
                    lemma_heading_level_is_marker_count(text, n);
                }
                assert forall|n: int| #[trigger] is_heading_line(text, n) implies block_html(
                    text,
                    0,
                ) == Some(heading_element(n, heading_title(text, n))) && block_end(text, 0)
                    == text.len() by {
                    lemma_heading_line_block(text, n);
                }
            }
        }
        match token.token_type {
            TokenType::Heading => {
                let mut heading_level: usize = 1;
                let ghost mut cur = q;
                while self.lexer.peek_nth_token(0).token_type == TokenType::Heading
                    invariant
                        self.wf(),
                        self.text() == text,
                        self.cursor() == cur,
                        1 <= q <= cur <= text.len() <= usize::MAX,
                        heading_level - 1 <= cur - q,
                        heading_level + marker_count(text, cur) == 1 + marker_count(text, q),
                        markers_end(text, cur) == markers_end(text, q),
                    decreases text.len() - cur,
                {
                    proof {
                        lemma_after_bounds(text, cur);
                    }
                    let _ = self.lexer.next_token();
                    heading_level += 1;
                    proof {
                        cur = after(text, cur);
                    }
                }
                let level = decimal_string(heading_level);
                let mut out = "<h".to_owned();
                out.append(level.as_str());
                out.append(">");
                let body = self.read_run(TokenType::LineBreak);
                out.append(body.as_str());
                out.append("</h");
                out.append(level.as_str());
                out.append(">");
                assert(out@ =~= heading_html(text, q));
                Ok(out)
            },
            TokenType::Letter => {
                let mut out = "<p>".to_owned();
                out.append(token.literal.as_str());
                let ghost head = out@;
                let ghost mut cur = q;
                let mut next_token = self.lexer.next_token();
                while next_token.token_type != TokenType::EOF
                    invariant
                        self.wf(),
                        self.text() == text,
                        0 <= cur <= text.len(),
                        self.cursor() == after(text, cur),
                        next_token.token_type == kind_at(text, cur),
                        next_token.literal@ == literal_at(text, cur),
                        paragraph_end(text, cur) == paragraph_end(text, q),
                        head + paragraph_text(text, q) == out@ + paragraph_text(text, cur),
                    ensures
                        self.wf(),
                        self.text() == text,
                        self.cursor() == paragraph_end(text, q),
                        out@ == head + paragraph_text(text, q),
                    decreases text.len() - cur,
                {
                    proof {
                        lemma_after_bounds(text, cur);
                    }
                    let peek_token = self.lexer.peek_nth_token(0);
                    if next_token.token_type == TokenType::LineBreak && (peek_token.token_type
                        == TokenType::LineBreak || peek_token.token_type == TokenType::EOF
                        || peek_token.token_type == TokenType::OrderedItem) {
                        assert(out@ + Seq::<char>::empty() =~= out@);
                        break;
                    }
                    let ghost before = out@;
                    let ghost next_cur;
                    if next_token.token_type == TokenType::RBracket {
                        let link = self.generate_link_html();
                        out.append(link.as_str());
                        proof {
                            next_cur = link_end(text, after(text, cur));
                            lemma_link_end_bounds(text, after(text, cur));
                        }
                    } else if next_token.token_type == TokenType::Bang {
                        let image = self.generate_image_html();
                        out.append(image.as_str());
                        proof {
                            next_cur = image_end(text, after(text, cur));
                            lemma_image_end_bounds(text, after(text, cur));
                        }
                    } else {
                        out.append(next_token.literal.as_str());
                        proof {
                            next_cur = after(text, cur);
                        }
                    }
                    proof {
                        assert(before + paragraph_text(text, cur) =~= out@ + paragraph_text(
                            text,
                            next_cur,
                        ));
                        cur = next_cur;
                        lemma_after_bounds(text, cur);
                    }
                    next_token = self.lexer.next_token();
                }
                proof {
                    assert(out@ + Seq::<char>::empty() =~= out@);
                }
                out.append("</p>");
                assert(out@ =~= "<p>"@ + literal_at(text, p) + paragraph_text(text, q) + "</p>"@);
                Ok(out)
            },
            TokenType::OrderedItem => {
                let mut out = "<ol><li>".to_owned();
                let ghost head = out@;
                let ghost mut cur = q;
                let mut i = self.lexer.next_token();
                proof {
                    lemma_after_bounds(text, cur);
                }
                while i.token_type != TokenType::EOF && !(i.token_type == TokenType::LineBreak && (
                self.lexer.peek_nth_token(0).token_type == TokenType::LineBreak
                    || self.lexer.peek_nth_token(0).token_type == TokenType::EOF))
                    invariant
                        self.wf(),
                        self.text() == text,
                        0 <= cur <= text.len(),
                        self.cursor() == after(text, cur),
                        i.token_type == kind_at(text, cur),
                        i.literal@ == literal_at(text, cur),
                        list_end(text, cur) == list_end(text, q),
                        head + list_text(text, q) == out@ + list_text(text, cur),
                    decreases text.len() - cur,
                {
                    let ghost before = out@;
                    if i.token_type == TokenType::LineBreak {
                        out.append("</li><li>");
                        proof {
                            lemma_after_bounds(text, after(text, cur));
                        }
                        let _ = self.lexer.next_token();
                        proof {
                            assert(before + list_text(text, cur) =~= out@ + list_text(
                                text,
                                after(text, after(text, cur)),
                            ));
                            cur = after(text, after(text, cur));
                        }
                    } else {
                        out.append(i.literal.as_str());
                        proof {
                            assert(before + list_text(text, cur) =~= out@ + list_text(
                                text,
                                after(text, cur),
                            ));
                            cur = after(text, cur);
                        }
                    }
                    proof {
                        lemma_after_bounds(text, cur);
                    }
                    i = self.lexer.next_token();
                }
                proof {
                    assert(out@ + Seq::<char>::empty() =~= out@);
                }
                out.append("</li></ol>");
                assert(out@ =~= "<ol><li>"@ + list_text(text, q) + "</li></ol>"@);
                Ok(out)
            },
            TokenType::RBracket => Ok(self.generate_link_html()),
            TokenType::Bang => Ok(self.generate_image_html()),
            TokenType::LineBreak => Ok(String::new()),
            TokenType::EOF => Ok(String::new()),
            _ => Err("ERROR: Unexpected token at the start of a block".to_owned()),
        }
    }

    /// Takes tokens up to and with the first of kind `stop`, or up to the
    /// end of input, and gives the literals of those before it.
    fn read_run(&mut self, stop: TokenType) -> (run: String)
        requires
            old(self).wf(),
        ensures
            final(self).wf(),
            final(self).text() == old(self).text(),
            final(self).cursor() == run_end(old(self).text(), old(self).cursor(), stop),
            run@ == run_text(old(self).text(), old(self).cursor(), stop),
    {
        let ghost text = self.text();
        let ghost start = self.cursor();
        let ghost mut cur = start;
        let mut run = String::new();
        let mut token = self.lexer.next_token();
        proof {
            lemma_after_bounds(text, cur);
        }
        while token.token_type != TokenType::EOF && token.token_type != stop
            invariant
                self.wf(),
                self.text() == text,
                0 <= cur <= text.len(),
                self.cursor() == after(text, cur),
                token.token_type == kind_at(text, cur),
                token.literal@ == literal_at(text, cur),
                run_end(text, cur, stop) == run_end(text, start, stop),
                run_text(text, start, stop) == run@ + run_text(text, cur, stop),
            decreases text.len() - cur,
        {
            let ghost before = run@;
            run.append(token.literal.as_str());
            proof {
                assert(before + run_text(text, cur, stop) =~= run@ + run_text(
                    text,
                    after(text, cur),
                    stop,
                ));
                cur = after(text, cur);
                lemma_after_bounds(text, cur);
            }
            token = self.lexer.next_token();
        }
        assert(run@ + Seq::<char>::empty() =~= run@);
        run
    }

    /// Takes text tokens up to the first space or other token, that token
    /// too, and gives the literals of those before it.
    fn read_word(&mut self) -> (word: String)
        requires
            old(self).wf(),
        ensures
            final(self).wf(),
            final(self).text() == old(self).text(),
            final(self).cursor() == after(
                old(self).text(),
                word_end(old(self).text(), old(self).cursor()),
            ),
            word@ == word_text(old(self).text(), old(self).cursor()),
    {
        let ghost text = self.text();
        let ghost start = self.cursor();
        let ghost mut cur = start;
        let mut word = String::new();
        let mut token = self.lexer.next_token();
        proof {
            lemma_after_bounds(text, cur);
        }
        while token.token_type == TokenType::Letter && !Self::is_space(&token.literal)
            invariant
                self.wf(),
                self.text() == text,
                0 <= cur <= text.len(),
                self.cursor() == after(text, cur),
                token.token_type == kind_at(text, cur),
                token.literal@ == literal_at(text, cur),
                word_end(text, cur) == word_end(text, start),
                word_text(text, start) == word@ + word_text(text, cur),
            decreases text.len() - cur,
        {
            let ghost before = word@;
            word.append(token.literal.as_str());
            proof {
                assert(before + word_text(text, cur) =~= word@ + word_text(text, after(text, cur)));
                cur = after(text, cur);
                lemma_after_bounds(text, cur);
            }
            token = self.lexer.next_token();
        }
        proof {
            if kind_at(text, cur) == TokenType::Letter {
                assert(seq![text[cur]][0] == text[cur]);
            }
            assert(!is_word_char(text, cur));
            assert(word@ + Seq::<char>::empty() =~= word@);
        }
        word
    }

    /// Whether `literal` is a single space.
    fn is_space(literal: &String) -> (b: bool)
        ensures
            b == (literal@ == seq![' ']),
    {
        let s = literal.as_str();
        let b = s.unicode_len() == 1 && s.get_char(0) == ' ';
        proof {
            if b {
                assert(literal@ =~= seq![' ']);
            } else if literal@.len() == 1 {
                assert(seq![' '][0] == ' ');
            }
        }
        b
    }

    /// Looks ahead, from `skip` characters behind the cursor on, for a `]`
    /// directly followed by `(` on the same line. The cursor stays.
    fn closes_ahead(&self, skip: usize) -> (found: bool)
        requires
            self.wf(),
            skip <= 1,
        ensures
            found == closes_on_line(self.text(), self.cursor() + skip),
    {
        let ghost text = self.text();
        let ghost base = self.cursor();
        let mut found = false;
        let mut i: usize = skip;
        let mut peek_token = self.lexer.peek_nth_token(i);
        loop
            invariant_except_break
                self.wf(),
                self.text() == text,
                self.cursor() == base,
                0 <= base <= text.len() <= usize::MAX,
                skip <= i,
                base + i <= text.len() + 1,
                peek_token.token_type == kind_at(text, base + i),
                no_break_between(text, base + skip, base + i),
                forall|j: int|
                    base + skip <= j < base + i && j + 1 < text.len() ==> !(#[trigger] text[j]
                        == ']' && text[j + 1] == '('),
            ensures
                self.wf(),
                self.text() == text,
                self.cursor() == base,
                found == closes_on_line(text, base + skip),
            decreases text.len() + 1 - (base + i),
        {
            if peek_token.token_type == TokenType::EOF {
                found = false;
                break;
            }
            if peek_token.token_type == TokenType::LineBreak {
                found = false;
                assert(text[base + i] == '\n');
                break;
            }
            if peek_token.token_type == TokenType::LBracket && self.lexer.peek_nth_token(
                i + 1,
            ).token_type == TokenType::RParen {
                found = true;
                assert(text[base + i] == ']' && text[base + i + 1] == '(');
                break;
            }
            i += 1;
            peek_token = self.lexer.peek_nth_token(i);
        }
        found
    }

    /// Generates a link where the line ahead confirms one, and nothing
    /// elsewhere. The `[` has just been taken.
    fn generate_link_html(&mut self) -> (html: String)
        requires
            old(self).wf(),
        ensures
            final(self).wf(),
            final(self).text() == old(self).text(),
            final(self).cursor() == link_end(old(self).text(), old(self).cursor()),
            html@ == link_html(old(self).text(), old(self).cursor()),
    {
        let mut res = String::new();
        if self.closes_ahead(0) {
            let title = self.read_run(TokenType::LBracket);
            let _ = self.lexer.next_token();
            let href = self.read_run(TokenType::LParen);
            res.append("<a href=\"");
            res.append(href.as_str());
            res.append("\">");
            res.append(title.as_str());
            res.append("</a>");
            assert(res@ =~= link_html(old(self).text(), old(self).cursor()));
        }
        res
    }

    /// Generates an image where the line ahead confirms one, and a literal
    /// `!` elsewhere. The `!` has just been taken.
    fn generate_image_html(&mut self) -> (html: String)
        requires
            old(self).wf(),
        ensures
            final(self).wf(),
            final(self).text() == old(self).text(),
            final(self).cursor() == image_end(old(self).text(), old(self).cursor()),
            html@ == image_html(old(self).text(), old(self).cursor()),
    {
        if self.lexer.peek_nth_token(0).token_type != TokenType::LineBreak && self.closes_ahead(1) {
            let _ = self.lexer.next_token();
            let alt_text = self.read_run(TokenType::LBracket);
            let _ = self.lexer.next_token();
            let href = self.read_word();
            let title = self.read_run(TokenType::LParen);
            let mut res = "<img src=\"".to_owned();
            res.append(href.as_str());
            res.append("\" alt=\"");
            res.append(alt_text.as_str());
            res.append("\" title=\"");
            res.append(title.as_str());
            res.append("\">");
            assert(res@ =~= image_html(old(self).text(), old(self).cursor()));
            res
        } else {
            "!".to_owned()
        }
    }
}

} // verus!
