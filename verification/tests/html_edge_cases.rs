use afskylia::generators::HtmlGenerator;
use afskylia::parsers::markdown::{Lexer, TokenType};

fn html(input: &str) -> Result<String, String> {
    let lexer = Lexer::new(input).expect("ERROR: Couldn't create lexer");
    let mut html_generator = HtmlGenerator::new(lexer);
    html_generator.get_html()
}

fn ok(expected: &str) -> Result<String, String> {
    Ok(expected.to_string())
}

fn stray() -> Result<String, String> {
    Err("ERROR: Unexpected token at the start of a block".to_string())
}

#[test]
fn plain_text_is_one_paragraph() {
    assert_eq!(html("x"), ok("<p>x</p>"));
    assert_eq!(html(" "), ok("<p> </p>"));
    assert_eq!(html("price: 5 apples."), ok("<p>price: 5 apples.</p>"));
    assert_eq!(html("é ü"), ok("<p>é ü</p>"));
}

#[test]
fn heading_level_is_the_number_of_markers() {
    assert_eq!(html("# He"), ok("<h1>He</h1>"));
    assert_eq!(html("## He"), ok("<h2>He</h2>"));
    assert_eq!(html("### He"), ok("<h3>He</h3>"));
    assert_eq!(html("#### He"), ok("<h4>He</h4>"));
    assert_eq!(html("##### He"), ok("<h5>He</h5>"));
    assert_eq!(html("###### He"), ok("<h6>He</h6>"));
}

#[test]
fn heading_level_has_no_cap() {
    assert_eq!(html("####### Seven"), ok("<h7>Seven</h7>"));
    assert_eq!(html("########## Ten"), ok("<h10>Ten</h10>"));
    let markers = "#".repeat(123);
    assert_eq!(html(&format!("{markers} x")), ok("<h123>x</h123>"));
}

#[test]
fn heading_marker_takes_one_space_and_nothing_else() {
    assert_eq!(html("#He"), ok("<h1>He</h1>"));
    assert_eq!(html("#  He"), ok("<h1> He</h1>"));
    assert_eq!(html("#\nx"), ok("<h1></h1><p>x</p>"));
    assert_eq!(html("#"), ok("<h1></h1>"));
    assert_eq!(html("# "), ok("<h1></h1>"));
}

#[test]
fn hash_inside_a_heading() {
    assert_eq!(html("# a#b"), ok("<h1>a#b</h1>"));
    assert_eq!(html("# a## b"), ok("<h1>a#b</h1>"));
    assert_eq!(html("# #a"), ok("<h1>#a</h1>"));
}

#[test]
fn heading_body_keeps_markup_characters() {
    assert_eq!(html("# a [b](c) !d"), ok("<h1>a [b](c) !d</h1>"));
}

#[test]
fn paragraph_joins_lines_without_a_blank_line() {
    assert_eq!(html("a\nb"), ok("<p>ab</p>"));
    assert_eq!(html("a\n# b"), ok("<p>ab</p>"));
}

#[test]
fn blank_lines_between_and_before_blocks() {
    assert_eq!(html("a\n\n\n\nb"), ok("<p>a</p><p>b</p>"));
    assert_eq!(html("\n\na"), ok("<p>a</p>"));
    assert_eq!(html("\n"), ok(""));
    assert_eq!(html("a\n"), ok("<p>a</p>"));
}

#[test]
fn paragraph_ends_before_a_list() {
    assert_eq!(
        html("a\n1. x\n2. y\n\nz"),
        ok("<p>a</p><ol><li>x</li><li>y</li></ol><p>z</p>")
    );
}

#[test]
fn list_numbers_are_not_kept() {
    assert_eq!(html("7. A\n3. B"), ok("<ol><li>A</li><li>B</li></ol>"));
}

#[test]
fn list_marker_is_one_digit_and_two_more_characters() {
    assert_eq!(html("10. x"), ok("<ol><li> x</li></ol>"));
    assert_eq!(html("5 apples"), ok("<ol><li>pples</li></ol>"));
    assert_eq!(html("1"), ok("<ol><li></li></ol>"));
    assert_eq!(html("1."), ok("<ol><li></li></ol>"));
    assert_eq!(html("1. "), ok("<ol><li></li></ol>"));
}

#[test]
fn digit_inside_a_line_is_text() {
    assert_eq!(html("a 5"), ok("<p>a 5</p>"));
    assert_eq!(html("a\n5"), ok("<p>a</p><ol><li></li></ol>"));
}

#[test]
fn list_line_break_opens_an_item_and_passes_over_one_token() {
    assert_eq!(html("1. A\nfoo"), ok("<ol><li>A</li><li>oo</li></ol>"));
}

#[test]
fn blank_line_ends_a_list() {
    assert_eq!(html("1. A\n\n2. B"), ok("<ol><li>A</li></ol><ol><li>B</li></ol>"));
}

#[test]
fn list_items_do_not_expand_links() {
    assert_eq!(html("1. [a](b)"), ok("<ol><li>[a](b)</li></ol>"));
}

#[test]
fn bracket_that_opens_no_link_is_dropped() {
    assert_eq!(html("a [b c"), ok("<p>a b c</p>"));
    assert_eq!(html("[b c"), ok("<p>b c</p>"));
    assert_eq!(html("a [b]\n(c)"), ok("<p>a b](c)</p>"));
}

#[test]
fn bang_that_opens_no_image_stays() {
    assert_eq!(html("a ! b"), ok("<p>a ! b</p>"));
    assert_eq!(html("!"), ok("!"));
    assert_eq!(html("!x"), ok("!<p>x</p>"));
}

#[test]
fn link_title_ends_at_first_bracket_and_href_at_first_paren() {
    assert_eq!(html("a [b]c](d) e"), ok("<p>a <a href=\"](d\">b</a> e</p>"));
    assert_eq!(html("x [a](b))"), ok("<p>x <a href=\"b\">a</a>)</p>"));
    assert_eq!(html("[a](b c)\nnext"), ok("<a href=\"b c\">a</a><p>next</p>"));
}

#[test]
fn link_lookahead_starts_behind_the_bracket() {
    assert_eq!(html("[](x)"), ok("<a href=\"x\"></a>"));
    assert_eq!(html("a [\nq](r)"), ok("<p>a q](r)</p>"));
    assert_eq!(html("[\n1](b)c"), ok("<ol><li>b)c</li></ol>"));
}

#[test]
fn image_lookahead_stops_at_a_line_break() {
    assert_eq!(html("!\n[a](b c)"), ok("!<a href=\"b c\">a</a>"));
    assert_eq!(html("x !\n[a](b c)"), ok("<p>x !<a href=\"b c\">a</a></p>"));
    assert_eq!(html("![a\n](b c)"), ok("!<p>a](b c)</p>"));
}

#[test]
fn image_lookahead_passes_over_the_token_after_the_bang() {
    assert_eq!(html("!](b c)"), stray());
    assert_eq!(html("a !](b c)"), ok("<p>a !](b c)</p>"));
    assert_eq!(html("!x[a](b c)"), ok("<img src=\"b\" alt=\"[a\" title=\"c\">"));
    assert_eq!(html("![](b c)"), ok("<img src=\"b\" alt=\"\" title=\"c\">"));
}

#[test]
fn link_and_image_without_closing_paren_run_to_the_end() {
    assert_eq!(html("a [x](y"), ok("<p>a <a href=\"y\">x</a></p>"));
    assert_eq!(html("![a](b c"), ok("<img src=\"b\" alt=\"a\" title=\"c\">"));
}

#[test]
fn image_parts() {
    assert_eq!(html("![a](b)"), ok("<img src=\"b\" alt=\"a\" title=\"\">"));
    assert_eq!(
        html("![a](b c d) e"),
        ok("<img src=\"b\" alt=\"a\" title=\"c d\"><p> e</p>")
    );
    assert_eq!(html("!a](b c)"), ok("<img src=\"b\" alt=\"\" title=\"c\">"));
}

#[test]
fn closing_tokens_open_no_block() {
    assert_eq!(html(")"), stray());
    assert_eq!(html("]"), stray());
    assert_eq!(html("("), stray());
    assert_eq!(html("a\n\n)"), stray());
    assert_eq!(html("a)"), ok("<p>a)</p>"));
    assert_eq!(html("x ]("), ok("<p>x ](</p>"));
}

#[test]
fn generator_starts_at_the_lexers_cursor() {
    let mut lexer = Lexer::new("# He\n\nBody").unwrap();
    assert_eq!(lexer.next_token().token_type, TokenType::Heading);
    let mut html_generator = HtmlGenerator::new(lexer);
    assert_eq!(html_generator.get_html(), ok("<p>He</p><p>Body</p>"));
    assert_eq!(html_generator.get_html(), ok(""));
}

#[test]
fn blank_line_joins_documents() {
    let documents = [
        "# He",
        "plain text",
        "1. A\n2. B",
        "1. A\n2. B\n",
        "# T\n\nBody",
        "a\nb\n",
        "x\n#",
        "12 ",
        "# a\n1. b\nc",
        "\n",
        "## x ##",
        "Lorem\n1. A\nfoo\n\n# End",
    ];
    for first in documents {
        for second in documents {
            let joined = format!("{first}\n\n{second}");
            let expected = html(first).unwrap() + &html(second).unwrap();
            assert_eq!(html(&joined), Ok(expected), "{first:?} and {second:?}");
        }
    }
}

#[test]
fn list_marker_cut_short_takes_the_blank_line() {
    assert_eq!(html("x\n5"), ok("<p>x</p><ol><li></li></ol>"));
    assert_eq!(html("b"), ok("<p>b</p>"));
    assert_eq!(html("x\n5\n\nb"), ok("<p>x</p><ol><li>b</li></ol>"));
}
