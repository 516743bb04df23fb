//! Documents joined by a blank line: the HTML of the whole is the HTML of
//! the first followed by the HTML of the second.
//!
//! This is what lets the contents of several files be gathered into one
//! text before it is rendered.

use vstd::prelude::*;
use crate::generators::html::{
    block_end, block_html, document_html, ends_list, ends_paragraph, list_end, list_text,
    marker_count, markers_end, paragraph_end, paragraph_text, render, run_end, run_text,
};
use crate::parsers::markdown::lexer::{after, char_at, is_digit, kind_at, literal_at};
use crate::parsers::markdown::token::TokenType;

verus! {

/// Whether `c` opens or closes a link or an image.
pub open spec fn is_inline_markup(c: char) -> bool {
    c == '[' || c == ']' || c == '(' || c == ')' || c == '!'
}

/// Whether `s` is a document of headings, paragraphs and lists alone: it
/// holds no character of a link or an image, and each digit at the start of
/// a line has the two characters behind it that its list marker takes.
pub open spec fn is_simple(s: Seq<char>) -> bool {
    &&& forall|i: int| 0 <= i < s.len() ==> !is_inline_markup(#[trigger] s[i])
    &&& forall|i: int|
        0 <= i < s.len() && is_digit(#[trigger] s[i]) && (i == 0 || s[i - 1] == '\n') ==> i + 2
            < s.len()
}

/// `first`, a blank line, and `second`.
pub open spec fn joined_by_blank_line(first: Seq<char>, second: Seq<char>) -> Seq<char> {
    first + seq!['\n', '\n'] + second
}

/// Whether `s` stands in `t` from index `d` on, at the start of a line,
/// and either ends `t` or has a blank line behind it.
spec fn embedded(s: Seq<char>, t: Seq<char>, d: int) -> bool {
    &&& 0 <= d
    &&& d + s.len() <= t.len()
    &&& forall|i: int| 0 <= i < s.len() ==> t[d + i] == #[trigger] s[i]
    &&& d == 0 || t[d - 1] == '\n'
    &&& d + s.len() == t.len() || (d + s.len() + 1 < t.len() && t[d + s.len()] == '\n' && t[d
        + s.len() + 1] == '\n')
}

/// Whether a part of `t` that ends at `et` matches a part of `s` that ends
/// at `es`: at the same place, or `s` ends where the part of `s` does and
/// the part of `t` has taken the line break behind it.
spec fn ends_agree(s: Seq<char>, t: Seq<char>, d: int, es: int, et: int) -> bool {
    et == d + es || (es == s.len() && d + s.len() < t.len() && et == d + s.len() + 1)
}

/// What is rendered behind `s` in `t`: nothing where `s` ends `t`, and
/// elsewhere what follows the blank line.
spec fn rest_html(s: Seq<char>, t: Seq<char>, d: int) -> Option<Seq<char>> {
    if d + s.len() == t.len() {
        Some(Seq::empty())
    } else {
        document_html(t, d + s.len() + 2)
    }
}

/// `html` followed by `rest`, where there is a `rest`.
spec fn followed_by(html: Seq<char>, rest: Option<Seq<char>>) -> Option<Seq<char>> {
    match rest {
        Some(rest) => Some(html + rest),
        None => None,
    }
}

/// The characters of `s` and the one before each are the same in `t`, up
/// to the start of a line.
proof fn lemma_chars_agree(s: Seq<char>, t: Seq<char>, d: int, p: int)
    requires
        embedded(s, t, d),
        0 <= p < s.len(),
    ensures
        char_at(t, d + p) == char_at(s, p),
        p > 0 ==> char_at(t, d + p - 1) == char_at(s, p - 1),
        p == 0 ==> char_at(s, p - 1) is None && (char_at(t, d + p - 1) is None || char_at(
            t,
            d + p - 1,
        ) == Some('\n')),
        p + 1 < s.len() ==> char_at(t, d + p + 1) == char_at(s, p + 1),
        p + 1 == s.len() ==> char_at(s, p + 1) is None && (char_at(t, d + p + 1) is None
            || char_at(t, d + p + 1) == Some('\n')),
{
    assert(t[d + p] == s[p]);
    if p > 0 {
        assert(t[d + (p - 1)] == s[p - 1]);
    }
    if p + 1 < s.len() {
        assert(t[d + (p + 1)] == s[p + 1]);
    }
}

/// A token of `s` is the same token in `t`.
proof fn lemma_token_agrees(s: Seq<char>, t: Seq<char>, d: int, p: int)
    requires
        is_simple(s),
        embedded(s, t, d),
        0 <= p < s.len(),
    ensures
        kind_at(t, d + p) == kind_at(s, p),
        literal_at(t, d + p) == literal_at(s, p),
        after(t, d + p) == d + after(s, p),
        p < after(s, p) <= s.len(),
        kind_at(s, p) == TokenType::Heading || kind_at(s, p) == TokenType::Letter || kind_at(s, p)
            == TokenType::LineBreak || kind_at(s, p) == TokenType::OrderedItem,
{
    lemma_chars_agree(s, t, d, p);
    assert(!is_inline_markup(s[p]));
    if is_digit(s[p]) && (p == 0 || s[p - 1] == '\n') {
        assert(p + 2 < s.len());
    }
}

/// Behind `s`, `t` ends or holds two line breaks.
proof fn lemma_behind(s: Seq<char>, t: Seq<char>, d: int)
    requires
        embedded(s, t, d),
    ensures
        kind_at(s, s.len() as int) == TokenType::EOF,
        after(s, s.len() as int) == s.len(),
        d + s.len() == t.len() ==> kind_at(t, d + s.len()) == TokenType::EOF && after(
            t,
            d + s.len(),
        ) == d + s.len(),
        d + s.len() < t.len() ==> kind_at(t, d + s.len()) == TokenType::LineBreak && after(
            t,
            d + s.len(),
        ) == d + s.len() + 1 && kind_at(t, d + s.len() + 1) == TokenType::LineBreak && after(
            t,
            d + s.len() + 1,
        ) == d + s.len() + 2,
{
}

/// The rest of a line of `s` is the same in `t`.
proof fn lemma_run_agrees(s: Seq<char>, t: Seq<char>, d: int, p: int)
    requires
        is_simple(s),
        embedded(s, t, d),
        0 <= p <= s.len(),
    ensures
        run_text(t, d + p, TokenType::LineBreak) == run_text(s, p, TokenType::LineBreak),
        ends_agree(
            s,
            t,
            d,
            run_end(s, p, TokenType::LineBreak),
            run_end(t, d + p, TokenType::LineBreak),
        ),
        p <= run_end(s, p, TokenType::LineBreak) <= s.len(),
    decreases s.len() - p,
{
    lemma_behind(s, t, d);
    if p < s.len() {
        lemma_token_agrees(s, t, d, p);
        if kind_at(s, p) != TokenType::LineBreak {
            lemma_run_agrees(s, t, d, after(s, p));
        }
    }
}

/// The heading markers of `s` are the same in `t`.
proof fn lemma_markers_agree(s: Seq<char>, t: Seq<char>, d: int, p: int)
    requires
        is_simple(s),
        embedded(s, t, d),
        0 <= p <= s.len(),
    ensures
        marker_count(t, d + p) == marker_count(s, p),
        markers_end(t, d + p) == d + markers_end(s, p),
        p <= markers_end(s, p) <= s.len(),
    decreases s.len() - p,
{
    lemma_behind(s, t, d);
    if p < s.len() {
        lemma_token_agrees(s, t, d, p);
        if kind_at(s, p) == TokenType::Heading {
            lemma_markers_agree(s, t, d, after(s, p));
        }
    }
}

/// A line break of `s` closes a paragraph or a list in `t` exactly where
/// it does in `s`.
proof fn lemma_closing_agrees(s: Seq<char>, t: Seq<char>, d: int, p: int)
    requires
        is_simple(s),
        embedded(s, t, d),
        0 <= p < s.len(),
    ensures
        ends_paragraph(t, d + p) == ends_paragraph(s, p),
        ends_list(t, d + p) == ends_list(s, p),
{
    lemma_behind(s, t, d);
    lemma_token_agrees(s, t, d, p);
    if after(s, p) < s.len() {
        lemma_token_agrees(s, t, d, after(s, p));
    }
}

/// The inside of a paragraph of `s` is the same in `t`.
proof fn lemma_paragraph_agrees(s: Seq<char>, t: Seq<char>, d: int, p: int)
    requires
        is_simple(s),
        embedded(s, t, d),
        0 <= p <= s.len(),
    ensures
        paragraph_text(t, d + p) == paragraph_text(s, p),
        ends_agree(s, t, d, paragraph_end(s, p), paragraph_end(t, d + p)),
        p <= paragraph_end(s, p) <= s.len(),
    decreases s.len() - p,
{
    lemma_behind(s, t, d);
    if p < s.len() {
        lemma_token_agrees(s, t, d, p);
        lemma_closing_agrees(s, t, d, p);
        if !ends_paragraph(s, p) {
            lemma_paragraph_agrees(s, t, d, after(s, p));
        }
    }
}

/// The inside of a list of `s` is the same in `t`.
proof fn lemma_list_agrees(s: Seq<char>, t: Seq<char>, d: int, p: int)
    requires
        is_simple(s),
        embedded(s, t, d),
        0 <= p <= s.len(),
    ensures
        list_text(t, d + p) == list_text(s, p),
        ends_agree(s, t, d, list_end(s, p), list_end(t, d + p)),
        p <= list_end(s, p) <= s.len(),
    decreases s.len() - p,
{
    lemma_behind(s, t, d);
    if p < s.len() {
        lemma_token_agrees(s, t, d, p);
        lemma_closing_agrees(s, t, d, p);
        if !ends_list(s, p) {
            if kind_at(s, p) == TokenType::LineBreak {
                let q = after(s, p);
                assert(q < s.len());
                lemma_token_agrees(s, t, d, q);
                lemma_list_agrees(s, t, d, after(s, q));
            } else {
                lemma_list_agrees(s, t, d, after(s, p));
            }
        }
    }
}

/// A block of `s` is the same in `t`.
proof fn lemma_block_agrees(s: Seq<char>, t: Seq<char>, d: int, p: int)
    requires
        is_simple(s),
        embedded(s, t, d),
        0 <= p < s.len(),
    ensures
        block_html(s, p) is Some,
        block_html(t, d + p) == block_html(s, p),
        ends_agree(s, t, d, block_end(s, p), block_end(t, d + p)),
        p < block_end(s, p) <= s.len(),
{
    lemma_token_agrees(s, t, d, p);
    let q = after(s, p);
    match kind_at(s, p) {
        TokenType::Heading => {
            lemma_markers_agree(s, t, d, q);
            lemma_run_agrees(s, t, d, markers_end(s, q));
        },
        TokenType::Letter => {
            lemma_paragraph_agrees(s, t, d, q);
        },
        TokenType::OrderedItem => {
            lemma_list_agrees(s, t, d, q);
        },
        _ => {},
    }
}

/// From the end of `s` on, and from behind the first line break of the
/// blank line, `t` renders as what is behind `s`.
proof fn lemma_rest(s: Seq<char>, t: Seq<char>, d: int, et: int)
    requires
        embedded(s, t, d),
        ends_agree(s, t, d, s.len() as int, et),
    ensures
        document_html(t, et) == rest_html(s, t, d),
{
    lemma_behind(s, t, d);
    let e = d + s.len();
    if e < t.len() {
        let rest = document_html(t, e + 2);
        assert(block_html(t, e + 1) == Some(Seq::<char>::empty()));
        assert(block_end(t, e + 1) == e + 2);
        assert(block_html(t, e) == Some(Seq::<char>::empty()));
        assert(block_end(t, e) == e + 1);
        match rest {
            Some(r) => {
                assert(Seq::<char>::empty() + r =~= r);
                assert(document_html(t, e + 1) == rest);
                assert(document_html(t, e) == rest);
            },
            None => {
                assert(document_html(t, e + 1) == rest);
                assert(document_html(t, e) == rest);
            },
        }
    }
}

/// From any index of `s` on, `t` renders as `s` does, followed by what is
/// behind `s`.
proof fn lemma_document_agrees(s: Seq<char>, t: Seq<char>, d: int, p: int)
    requires
        is_simple(s),
        embedded(s, t, d),
        0 <= p <= s.len(),
    ensures
        document_html(s, p) is Some,
        document_html(t, d + p) == followed_by(document_html(s, p)->0, rest_html(s, t, d)),
    decreases s.len() - p,
{
    lemma_behind(s, t, d);
    let rest = rest_html(s, t, d);
    if p == s.len() {
        lemma_rest(s, t, d, d + p);
        match rest {
            Some(r) => {
                assert(Seq::<char>::empty() + r =~= r);
            },
            None => {},
        }
    } else {
        lemma_token_agrees(s, t, d, p);
        lemma_block_agrees(s, t, d, p);
        let block = block_html(s, p)->0;
        let es = block_end(s, p);
        let et = block_end(t, d + p);
        lemma_document_agrees(s, t, d, es);
        let tail = document_html(s, es)->0;
        assert(document_html(s, p) == Some(block + tail));
        if et == d + es {
            match rest {
                Some(r) => {
                    assert(block + (tail + r) =~= (block + tail) + r);
                },
                None => {},
            }
        } else {
            lemma_rest(s, t, d, et);
            assert(tail =~= Seq::<char>::empty());
            match rest {
                Some(r) => {
                    assert(block + r =~= (block + tail) + r);
                },
                None => {},
            }
        }
    }
}

/// Two documents joined by a blank line render as the HTML of the first
/// followed by the HTML of the second: nothing is lost, doubled or merged
/// across the join. This holds of documents of headings, paragraphs and
/// lists.
pub proof fn lemma_blank_line_joins_documents(first: Seq<char>, second: Seq<char>)
    requires
        is_simple(first),
        is_simple(second),
    ensures
        render(first) is Some,
        render(second) is Some,
        render(joined_by_blank_line(first, second)) == Some(
            render(first)->0 + render(second)->0,
        ),
{
    let t = joined_by_blank_line(first, second);
    let n = first.len() as int;
    let d = n + 2;
    assert(embedded(second, t, d)) by {
        assert forall|i: int| 0 <= i < second.len() implies t[d + i] == #[trigger] second[i] by {}
        assert(t[d - 1] == '\n');
    }
    assert(embedded(first, t, 0)) by {
        assert forall|i: int| 0 <= i < first.len() implies t[0 + i] == #[trigger] first[i] by {}
        assert(t[n] == '\n');
        assert(t[n + 1] == '\n');
    }
    lemma_document_agrees(second, t, d, 0);
    lemma_document_agrees(first, t, 0, 0);
    let ha = render(first)->0;
    let hb = render(second)->0;
    assert(rest_html(second, t, d) == Some(Seq::<char>::empty()));
    assert(hb + Seq::<char>::empty() =~= hb);
    assert(document_html(t, d) == Some(hb));
    assert(rest_html(first, t, 0) == Some(hb));
}

} // verus!
