use afskylia::commands::{
    build_menu_html, build_page, build_pages, merge_base_with_layout, page_markdown, FileMap, Site,
};

fn map_of(entries: &[(&str, &str)]) -> FileMap<String> {
    let mut map: FileMap<String> = FileMap::new();
    for (key, value) in entries {
        map.insert(key.to_string(), value.to_string());
    }
    map
}

#[test]
fn test_build_menu() {
    let menu_items: Vec<String> = vec!["index.html", "second-page.html", "posts.html"].iter().map(|x| x.to_string()).collect();
    let expected = "<ul><li><a href=\"/index.html\">index</a></li><li><a href=\"/second-page.html\">second-page</a></li><li><a href=\"/posts.html\">posts</a></li></ul>";

    let result = build_menu_html(menu_items);
    assert_eq!(result, expected);
}

#[test]
fn menu_of_no_pages() {
    assert_eq!(build_menu_html(Vec::new()), "<ul></ul>");
}

#[test]
fn menu_label_strips_only_the_ending() {
    let result = build_menu_html(vec!["a.html.html".to_string(), "notes".to_string()]);
    assert_eq!(
        result,
        "<ul><li><a href=\"/a.html.html\">a.html</a></li><li><a href=\"/notes\">notes</a></li></ul>"
    );
}

#[test]
fn merge_base_replaces_every_layout_placeholder() {
    let base = Some("<body>{layout}|{layout}</body>".to_string());
    let merged = merge_base_with_layout(&base, &"<main/>".to_string());
    assert_eq!(merged, "<body><main/>|<main/></body>");
}

#[test]
fn merge_without_base_keeps_layout() {
    let merged = merge_base_with_layout(&None, &"<main>{layout}</main>".to_string());
    assert_eq!(merged, "<main>{layout}</main>");
}

#[test]
fn markdown_direct_match() {
    let content = map_of(&[("posts/a.md", "A"), ("posts.md", "direct"), ("posts/b.md", "B")]);
    assert_eq!(page_markdown(&content, "posts.html"), "direct");
}

#[test]
fn markdown_aggregation_fallback() {
    let content = map_of(&[
        ("index.md", "I"),
        ("posts/a.md", "# A"),
        ("postscript.md", "no"),
        ("posts/b.md", "# B"),
    ]);
    assert_eq!(page_markdown(&content, "posts.html"), "# A\n\n# B");
}

#[test]
fn markdown_aggregation_of_one_and_of_none() {
    let content = map_of(&[("posts/a.md", "only")]);
    assert_eq!(page_markdown(&content, "posts.html"), "only");
    assert_eq!(page_markdown(&content, "other.html"), "");
}

#[test]
fn page_end_to_end() {
    let page = build_page(&None, "", "<main>{content}</main>", "# T\n\nBody");
    assert_eq!(page, Ok("<main><h1>T</h1><p>Body</p></main>".to_string()));
}

#[test]
fn page_with_base_and_menu() {
    let base = Some("<html>{menu}<body>{layout}</body></html>".to_string());
    let page = build_page(&base, "<ul></ul>", "<main>{content}</main>", "Hi");
    assert_eq!(
        page,
        Ok("<html><ul></ul><body><main><p>Hi</p></main></body></html>".to_string())
    );
}

#[test]
fn page_errors() {
    assert_eq!(
        build_page(&None, "", "{content}", ""),
        Err("Input is required".to_string())
    );
    assert_eq!(
        build_page(&None, "", "{content}", ")"),
        Err("ERROR: Unexpected token at the start of a block".to_string())
    );
    assert_eq!(
        build_page(&None, "", "", "text"),
        Err("layout is empty".to_string())
    );
    assert_eq!(
        build_page(&None, "", "", ""),
        Err("Input is required".to_string())
    );
}

#[test]
fn site_with_base_direct_and_aggregated_pages() {
    let layouts = map_of(&[
        ("index.html", "<i>{content}</i>"),
        ("_base.html", "{menu}[{layout}]"),
        ("posts.html", "<p>{content}</p>"),
    ]);
    let content = map_of(&[
        ("index.md", "# T\n\nBody"),
        ("posts/a.md", "# A"),
        ("posts/b.md", "# B"),
    ]);
    let menu = "<ul><li><a href=\"/index.html\">index</a></li><li><a href=\"/posts.html\">posts</a></li></ul>";

    let pages = build_pages(layouts, &content).unwrap();

    assert_eq!(pages.len(), 2);
    assert_eq!(pages[0].0, "index.html");
    assert_eq!(pages[0].1, format!("{menu}[<i><h1>T</h1><p>Body</p></i>]"));
    assert_eq!(pages[1].0, "posts.html");
    assert_eq!(pages[1].1, format!("{menu}[<p><h1>A</h1><h1>B</h1></p>]"));
}

#[test]
fn site_without_base() {
    let layouts = map_of(&[("index.html", "<i>{content}</i>{menu}")]);
    let content = map_of(&[("index.md", "Body")]);

    let pages = build_pages(layouts, &content).unwrap();

    assert_eq!(
        pages,
        vec![(
            "index.html".to_string(),
            "<i><p>Body</p></i><ul><li><a href=\"/index.html\">index</a></li></ul>".to_string()
        )]
    );
}

#[test]
fn site_fails_on_first_bad_page() {
    let layouts = map_of(&[("a.html", "{content}"), ("b.html", ""), ("c.html", "{content}")]);
    let content = map_of(&[("a.md", "fine"), ("b.md", "fine")]);

    assert_eq!(build_pages(layouts, &content), Err("layout is empty".to_string()));

    let layouts = map_of(&[("a.html", "{content}"), ("c.html", "{content}")]);
    assert_eq!(build_pages(layouts, &content), Err("Input is required".to_string()));
}

#[test]
fn file_map_last_insert_wins_and_keeps_place() {
    let mut map = map_of(&[("a", "1"), ("b", "2")]);
    map.insert("a".to_string(), "3".to_string());
    assert_eq!(map.len(), 2);
    assert_eq!(map.keys(), vec!["a".to_string(), "b".to_string()]);
    assert_eq!(map.get("a"), Some(&"3".to_string()));
    assert_eq!(map.get("c"), None);
    assert_eq!(map.remove("a"), Some("3".to_string()));
    assert_eq!(map.remove("a"), None);
    assert_eq!(map.keys(), vec!["b".to_string()]);
    assert_eq!(map.key_at(0), "b");
    assert_eq!(map.value_at(0), "2");
}

#[test]
fn site_directories() {
    assert_eq!(
        afskylia::commands::get_site_dirs(),
        vec!["content".to_string(), "layouts".to_string(), "resources".to_string()]
    );
}

static INDEX_CONTENT: &str = "\
    # Index\n\
    \n\
    Some content\n\
    ";
static POST_1_CONTENT: &str = "\
    # Post 1\n\
    \n\
    Post content\n\
    ";
static POST_2_CONTENT: &str = "\
    # Post 2\n\
    \n\
    Post content\n\
    ";
static BASE: &str = r#"
    <!DOCTYPE html>
    <html lang="en">
    <head>
    <meta charset="utf-8">
    <title>404 - Not Found</title>
    </head>
    <body>
    {menu}
    {layout}
    </body>
    </html>
    "#;
static INDEX_LAYOUT: &str = r#"
    {content}
    "#;

#[test]
fn test_build_internal() {
    let layouts = map_of(&[("_base.html", BASE), ("index.html", INDEX_LAYOUT)]);
    let content = map_of(&[("index.md", INDEX_CONTENT)]);

    let pages = build_pages(layouts, &content).expect("ERROR: Couldn't build pages");

    assert_eq!(pages.len(), 1);
    assert_eq!(pages[0].0, "index.html");
    let index_file_str = &pages[0].1;
    assert_eq!(index_file_str.contains("<h1"), true, "Does not contain h1");
    assert_eq!(index_file_str.contains("<html"), true, "Does not contain html-tag");
    assert_eq!(index_file_str.contains("<head>"), true, "Does not contain head-tag");
    assert_eq!(index_file_str.contains("<body"), true, "Does not contain body-tag");
    assert_eq!(
        index_file_str.contains("<h1>Index</h1><p>Some content</p>"),
        true,
        "Does not contain the content"
    );
    assert_eq!(
        index_file_str.contains("<ul><li><a href=\"/index.html\">index</a></li></ul>"),
        true,
        "Does not contain the menu"
    );
    assert_eq!(index_file_str.contains("{"), false, "Contains a placeholder");
}

#[test]
fn aggregated_posts_page() {
    let layouts = map_of(&[
        ("_base.html", BASE),
        ("index.html", INDEX_LAYOUT),
        ("posts.html", INDEX_LAYOUT),
    ]);
    let content = map_of(&[
        ("index.md", INDEX_CONTENT),
        ("posts/post-1.md", POST_1_CONTENT),
        ("posts/post-2.md", POST_2_CONTENT),
    ]);

    let pages = build_pages(layouts, &content).expect("ERROR: Couldn't build pages");

    assert_eq!(pages.len(), 2);
    assert_eq!(pages[1].0, "posts.html");
    assert_eq!(
        pages[1].1.contains(
            "<h1>Post 1</h1><p>Post content</p><h1>Post 2</h1><p>Post content</p>"
        ),
        true,
        "Does not contain both posts"
    );
}

#[test]
fn fallback_renders_both_files() {
    let content = map_of(&[("posts/a.md", POST_1_CONTENT), ("posts/b.md", POST_2_CONTENT)]);
    let markdown = page_markdown(&content, "posts.html");
    assert_eq!(markdown, format!("{POST_1_CONTENT}\n\n{POST_2_CONTENT}"));

    let both = build_page(&None, "", "{content}", &markdown).unwrap();
    let first = build_page(&None, "", "{content}", POST_1_CONTENT).unwrap();
    let second = build_page(&None, "", "{content}", POST_2_CONTENT).unwrap();
    assert_eq!(both, first + &second);
}

#[test]
fn site_builds_page_by_page() {
    let layouts = map_of(&[("a.html", "{menu}{content}"), ("_base.html", "[{layout}]"), ("b.html", "")]);
    let content = map_of(&[("a.md", "fine"), ("b.md", "fine")]);
    let menu = "<ul><li><a href=\"/a.html\">a</a></li><li><a href=\"/b.html\">b</a></li></ul>";

    let site = Site::new(layouts);

    assert_eq!(site.len(), 2);
    assert_eq!(
        site.page_at(&content, 0),
        Ok(("a.html".to_string(), format!("[{menu}<p>fine</p>]")))
    );
    assert_eq!(site.page_at(&content, 1), Err("layout is empty".to_string()));
}
