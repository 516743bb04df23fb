use afskylia::generators::HtmlGenerator;
use afskylia::parsers::markdown::Lexer;

#[test]
fn get_image_in_paragraph() {
    let input = "a ![a](b c) b";
    let expected = "<p>a <img src=\"b\" alt=\"a\" title=\"c\"> b</p>";

    let lexer = Lexer::new(input).expect("ERROR: Couldn't create lexer");

    let mut html_generator = HtmlGenerator::new(lexer);
    let result = html_generator.get_html().expect("ERROR: Couldn't get html");
    assert_eq!(result, expected);
}

#[test]
fn get_image() {
    let input = "![a](b c)";

    let expected = "<img src=\"b\" alt=\"a\" title=\"c\">";

    let lexer = Lexer::new(input).expect("ERROR: Couldn't create lexer");

    let mut html_generator = HtmlGenerator::new(lexer);
    let result = html_generator.get_html().expect("ERROR: Couldn't get html");
    assert_eq!(result, expected);
}

#[test]
fn get_link_in_paragraph() {
    let input = "A [a](b) b";

    let expected = "<p>A <a href=\"b\">a</a> b</p>";

    let lexer = Lexer::new(input).expect("ERROR: Couldn't create lexer");

    let mut html_generator = HtmlGenerator::new(lexer);
    let result = html_generator.get_html().expect("ERROR: Couldn't get html");
    assert_eq!(result, expected);
}

#[test]
fn get_link() {
    let input = "[a](b)";

    let expected = "<a href=\"b\">a</a>";

    let lexer = Lexer::new(input).expect("ERROR: Couldn't create lexer");

    let mut html_generator = HtmlGenerator::new(lexer);
    let result = html_generator.get_html().expect("ERROR: Couldn't get html");
    assert_eq!(result, expected);
}

#[test]
fn get_heading_with_paragraph_and_ordered_list() {
    let input = "# He\n\
                 Lorem ipsum\n\
                 1. A\n\
                 2. B";
    let expected = "<h1>He</h1><p>Lorem ipsum</p><ol><li>A</li><li>B</li></ol>";

    let lexer = Lexer::new(input).unwrap();
    let mut html_generator = HtmlGenerator::new(lexer);

    let result = html_generator.get_html().unwrap();
    assert_eq!(result, expected);
}

#[test]
fn get_ordered_list_eof_2() {
    let input = "1. A\n\
                 2. B";
    let expected = "<ol><li>A</li><li>B</li></ol>";

    let lexer = Lexer::new(input).unwrap();
    let mut html_generator = HtmlGenerator::new(lexer);

    let result = html_generator.get_html().unwrap();
    assert_eq!(result, expected);
}
#[test]
fn get_ordered_list_eof() {
    let input = "1. A\n\
                 2. B\n\
                 ";
    let expected = "<ol><li>A</li><li>B</li></ol>";

    let lexer = Lexer::new(input).unwrap();
    let mut html_generator = HtmlGenerator::new(lexer);

    let result = html_generator.get_html().unwrap();
    assert_eq!(result, expected);
}

#[test]
fn get_ordered_list() {
    let input = "1. A\n\
                 2. B\
                 ";
    let expected = "<ol><li>A</li><li>B</li></ol>";

    let lexer = Lexer::new(input).unwrap();
    let mut html_generator = HtmlGenerator::new(lexer);

    let result = html_generator.get_html().unwrap();
    assert_eq!(result, expected);
}

#[test]
fn get_paragraph_with_number_and_hash() {
    let input = "Lorem ipsum 1#";
    let expected = "<p>Lorem ipsum 1#</p>";

    let lexer = Lexer::new(input).unwrap();
    let mut html_generator = HtmlGenerator::new(lexer);

    let result = html_generator.get_html().unwrap();
    assert_eq!(result, expected);
}

#[test]
fn get_heading_with_paragraph() {
    let input = "# Heading\n\
                 Lorem ipsum\n\
                 \n\
                 Lorem ipsum";
    let expected = "<h1>Heading</h1><p>Lorem ipsum</p><p>Lorem ipsum</p>";

    let lexer = Lexer::new(input).unwrap();
    let mut html_generator = HtmlGenerator::new(lexer);

    let result = html_generator.get_html().unwrap();
    assert_eq!(result, expected);
}

#[test]
fn get_two_paragraphs() {
    let input = "Lorem ipsum\n\n\
                 Lorem ipsum";
    let expected = "<p>Lorem ipsum</p><p>Lorem ipsum</p>";

    let lexer = Lexer::new(input).unwrap();
    let mut html_generator = HtmlGenerator::new(lexer);

    let result = html_generator.get_html().unwrap();
    assert_eq!(result, expected);
}
#[test]
fn get_one_paragraph() {
    let input = "Lorem ipsum";
    let expected = "<p>Lorem ipsum</p>";

    let lexer = Lexer::new(input).unwrap();
    let mut html_generator = HtmlGenerator::new(lexer);

    let result = html_generator.get_html().unwrap();
    assert_eq!(result, expected);
}

#[test]
fn get_html_heading_2() {
    let input = "## He";
    let expected = "<h2>He</h2>";

    let lexer = Lexer::new(input).unwrap();
    let mut html_generator = HtmlGenerator::new(lexer);

    let result = html_generator.get_html().unwrap();
    assert_eq!(result, expected);
}

#[test]
fn get_html_heading() {
    let input = "# He";
    let expected = "<h1>He</h1>";

    let lexer = Lexer::new(input).unwrap();
    let mut html_generator = HtmlGenerator::new(lexer);

    let result = html_generator.get_html().unwrap();
    assert_eq!(result, expected);
}


#[test]
fn new_html_generator() {
    let lexer = Lexer::new(" ").unwrap();
    let _html_generator = HtmlGenerator::new(lexer);
}
