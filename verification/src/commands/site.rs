//! Page assembly: which content feeds which layout, the navigation menu,
//! and the merge of content, layout, base template and menu into a page.
//!
//! Reading the layout and content files and writing the pages is left to
//! the caller; everything here works on the files' texts.

use vstd::prelude::*;
use crate::commands::file_map::{key_index, keys_of, lemma_key_index, lookup, FileMap};
use crate::generators::html::{render, stray_token_message, HtmlGenerator};
use crate::generators::joins::{is_simple, joined_by_blank_line, lemma_blank_line_joins_documents};
use crate::generators::merge_page::{merged, MergePage};
use crate::parsers::markdown::lexer::Lexer;
use crate::text::{has_prefix, replace, replaced, starts_with, strip_suffix, without_suffix};

verus! {

/// The placeholder of the base template that a page's layout takes the
/// place of.
pub open spec fn layout_placeholder() -> Seq<char> {
    "{layout}"@
}

/// The placeholder that the navigation menu takes the place of.
pub open spec fn menu_placeholder() -> Seq<char> {
    "{menu}"@
}

/// The path of the base template among the layouts.
pub open spec fn base_key() -> Seq<char> {
    "_base.html"@
}

/// The name of the page whose layout has path `key`: the path without its
/// `.html` ending.
pub open spec fn page_name(key: Seq<char>) -> Seq<char> {
    without_suffix(key, ".html"@)
}

/// The menu item that links to the page with layout path `page`.
pub open spec fn menu_item(page: Seq<char>) -> Seq<char> {
    "<li><a href=\"/"@ + page + "\">"@ + page_name(page) + "</a></li>"@
}

/// The menu items for `pages`, in order.
pub open spec fn menu_items(pages: Seq<Seq<char>>) -> Seq<char>
    decreases pages.len(),
{
    if pages.len() == 0 {
        Seq::empty()
    } else {
        menu_items(pages.drop_last()) + menu_item(pages.last())
    }
}

/// The navigation menu for `pages`: one item for each, in order, in a
/// list.
pub open spec fn menu_html(pages: Seq<Seq<char>>) -> Seq<char> {
    "<ul>"@ + menu_items(pages) + "</ul>"@
}

/// The strings of `v`, each taken as its characters.
pub open spec fn strings_view(v: Seq<String>) -> Seq<Seq<char>> {
    Seq::new(v.len(), |i: int| v[i]@)
}

/// Builds the navigation menu for the layout paths `pages`.
pub fn build_menu_html(pages: Vec<String>) -> (menu: String)
    ensures
        menu@ == menu_html(strings_view(pages@)),
{
    let ghost names = strings_view(pages@);
    let mut menu_html = "<ul>".to_owned();
    let mut i: usize = 0;
    while i < pages.len()
        invariant
            i <= pages.len(),
            names == strings_view(pages@),
            menu_html@ == "<ul>"@ + menu_items(names.take(i as int)),
        decreases pages.len() - i,
    {
        let page = pages[i].as_str();
        let page_name = strip_suffix(page, ".html");
        let ghost before = menu_html@;
        menu_html.append("<li><a href=\"/");
        menu_html.append(page);
        menu_html.append("\">");
        menu_html.append(page_name.as_str());
        menu_html.append("</a></li>");
        proof {
            assert(names.take(i + 1).drop_last() =~= names.take(i as int));
            assert(names.take(i + 1).last() == pages@[i as int]@);
            assert(menu_html@ =~= before + menu_item(pages@[i as int]@));
            assert(menu_html@ =~= "<ul>"@ + menu_items(names.take(i + 1)));
        }
        i = i + 1;
    }
    proof {
        assert(names.take(i as int) =~= names);
    }
    menu_html.append("</ul>");
    menu_html
}

/// The layout of a page inside the base template, where there is one: the
/// base template with every `{layout}` replaced by `layout`. Without a base
/// template, `layout` itself.
pub open spec fn merged_layout(base: Option<Seq<char>>, layout: Seq<char>) -> Seq<char> {
    match base {
        Some(base) => replaced(base, layout_placeholder(), layout),
        None => layout,
    }
}

/// The characters of an optional string.
pub open spec fn option_view(s: Option<String>) -> Option<Seq<char>> {
    match s {
        Some(s) => Some(s@),
        None => None,
    }
}

/// Puts `content_layout` into the base template, where there is one.
pub fn merge_base_with_layout(base_tpl: &Option<String>, content_layout: &String) -> (layout:
    String)
    ensures
        layout@ == merged_layout(option_view(*base_tpl), content_layout@),
{
    match base_tpl {
        Some(base) => replace(base.as_str(), "{layout}", content_layout.as_str()),
        None => content_layout.clone(),
    }
}

/// Whether one of `entries` has a path that begins with `prefix`.
pub open spec fn any_under(entries: Seq<(Seq<char>, Seq<char>)>, prefix: Seq<char>) -> bool {
    exists|i: int| 0 <= i < entries.len() && has_prefix((#[trigger] entries[i]).0, prefix)
}

/// The contents of the entries whose path begins with `prefix`, in order,
/// with a blank line between one and the next.
pub open spec fn gathered(entries: Seq<(Seq<char>, Seq<char>)>, prefix: Seq<char>) -> Seq<char>
    decreases entries.len(),
{
    if entries.len() == 0 {
        Seq::empty()
    } else if !has_prefix(entries.last().0, prefix) {
        gathered(entries.drop_last(), prefix)
    } else if any_under(entries.drop_last(), prefix) {
        gathered(entries.drop_last(), prefix) + "\n\n"@ + entries.last().1
    } else {
        entries.last().1
    }
}

/// Where no path begins with `prefix`, nothing is gathered.
pub proof fn lemma_gathered_none(entries: Seq<(Seq<char>, Seq<char>)>, prefix: Seq<char>)
    requires
        !any_under(entries, prefix),
    ensures
        gathered(entries, prefix) == Seq::<char>::empty(),
    decreases entries.len(),
{
    if entries.len() > 0 {
        assert(!has_prefix(entries[entries.len() - 1].0, prefix));
        assert forall|i: int| 0 <= i < entries.drop_last().len() implies !has_prefix(
            (#[trigger] entries.drop_last()[i]).0,
            prefix,
        ) by {
            assert(entries.drop_last()[i] == entries[i]);
        }
        lemma_gathered_none(entries.drop_last(), prefix);
    }
}

/// The markdown of the page called `name`: the contents of `name.md` where
/// `content` holds that path, and elsewhere what is gathered from the
/// entries under `name/`.
pub open spec fn markdown_for(content: Seq<(Seq<char>, Seq<char>)>, name: Seq<char>) -> Seq<
    char,
> {
    match lookup(content, name + ".md"@) {
        Some(text) => text,
        None => gathered(content, name + "/"@),
    }
}

/// A path under `name/` is not the path `name.md`.
pub proof fn lemma_path_under_is_no_direct_match(path: Seq<char>, name: Seq<char>)
    requires
        has_prefix(path, name + "/"@),
    ensures
        path != name + ".md"@,
{
    reveal_strlit("/");
    reveal_strlit(".md");
    let n = name.len() as int;
    assert(path.subrange(0, n + 1)[n] == (name + "/"@)[n]);
    assert((name + ".md"@)[n] == '.');
}

/// The fallback for a page without a file of its own: where `content`
/// holds two files and both lie under `name/`, the page's markdown is the
/// first file's text, a blank line, and the second file's text.
pub proof fn lemma_fallback_gathers_both(
    name: Seq<char>,
    first: (Seq<char>, Seq<char>),
    second: (Seq<char>, Seq<char>),
)
    requires
        has_prefix(first.0, name + "/"@),
        has_prefix(second.0, name + "/"@),
    ensures
        markdown_for(seq![first, second], name) == joined_by_blank_line(first.1, second.1),
{
    reveal_strlit("\n\n");
    let content = seq![first, second];
    let prefix = name + "/"@;
    lemma_path_under_is_no_direct_match(first.0, name);
    lemma_path_under_is_no_direct_match(second.0, name);
    assert(content.drop_last() =~= seq![first]);
    assert(seq![first].drop_last() =~= Seq::<(Seq<char>, Seq<char>)>::empty());
    lemma_key_index(content, name + ".md"@);
    assert(content[0] == first && content[1] == second);
    assert(key_index(content, name + ".md"@) is None);
    assert(has_prefix(seq![first][0].0, prefix));
    assert(any_under(seq![first], prefix));
    assert(!any_under(Seq::<(Seq<char>, Seq<char>)>::empty(), prefix));
    assert(gathered(seq![first], prefix) == first.1);
    assert(gathered(content, prefix) == first.1 + "\n\n"@ + second.1);
    assert("\n\n"@ =~= seq!['\n', '\n']);
}

/// The fallback renders both files: where `content` holds two files under
/// `name/`, each a document of headings, paragraphs and lists, the HTML of
/// the page's markdown is the HTML of the first file followed by the HTML of
/// the second.
pub proof fn lemma_fallback_renders_both(
    name: Seq<char>,
    first: (Seq<char>, Seq<char>),
    second: (Seq<char>, Seq<char>),
)
    requires
        has_prefix(first.0, name + "/"@),
        has_prefix(second.0, name + "/"@),
        is_simple(first.1),
        is_simple(second.1),
    ensures
        render(first.1) is Some,
        render(second.1) is Some,
        render(markdown_for(seq![first, second], name)) == Some(
            render(first.1)->0 + render(second.1)->0,
        ),
{
    lemma_fallback_gathers_both(name, first, second);
    lemma_blank_line_joins_documents(first.1, second.1);
}

/// Finds the markdown for the layout with path `layout_key`.
pub fn page_markdown(content: &FileMap<String>, layout_key: &str) -> (markdown: String)
    ensures
        markdown@ == markdown_for(content@, page_name(layout_key@)),
{
    let file_name = strip_suffix(layout_key, ".html");
    let mut content_key = file_name.clone();
    content_key.append(".md");
    match content.get(content_key.as_str()) {
        Some(text) => text.clone(),
        None => {
            let mut prefix = file_name.clone();
            prefix.append("/");
            let mut markdown = String::new();
            let mut found = false;
            let mut i: usize = 0;
            while i < content.len()
                invariant
                    i <= content@.len(),
                    found == any_under(content@.take(i as int), prefix@),
                    markdown@ == gathered(content@.take(i as int), prefix@),
                decreases content@.len() - i,
            {
                proof {
                    assert(content@.take(i + 1).drop_last() =~= content@.take(i as int));
                    assert(content@.take(i + 1).last() == content@[i as int]);
                }
                if starts_with(content.key_at(i).as_str(), prefix.as_str()) {
                    let ghost before = markdown@;
                    if found {
                        markdown.append("\n\n");
                    }
                    markdown.append(content.value_at(i).as_str());
                    proof {
                        assert(has_prefix(content@.take(i + 1)[i as int].0, prefix@));
                        if found {
                            assert(markdown@ == before + "\n\n"@ + content@[i as int].1);
                        } else {
                            assert(before =~= Seq::<char>::empty()) by {
                                lemma_gathered_none(content@.take(i as int), prefix@);
                            }
                            assert(markdown@ =~= content@[i as int].1);
                        }
                    }
                    found = true;
                } else {
                    proof {
                        if any_under(content@.take(i + 1), prefix@) {
                            let j = choose|j: int|
                                0 <= j < i + 1 && has_prefix(
                                    (#[trigger] content@.take(i + 1)[j]).0,
                                    prefix@,
                                );
                            assert(has_prefix(content@.take(i as int)[j].0, prefix@));
                        } else if any_under(content@.take(i as int), prefix@) {
                            let j = choose|j: int|
                                0 <= j < i && has_prefix(
                                    (#[trigger] content@.take(i as int)[j]).0,
                                    prefix@,
                                );
                            assert(has_prefix(content@.take(i + 1)[j].0, prefix@));
                        }
                    }
                }
                i = i + 1;
            }
            proof {
                assert(content@.take(i as int) =~= content@);
            }
            markdown
        },
    }
}

/// The page made of a layout and its markdown, or why there is none. The
/// markdown's HTML takes the place of `{content}` in the layout, the result
/// that of `{layout}` in the base template, where there is one, and the menu
/// that of `{menu}`. Empty markdown is refused, then markdown in which a
/// `]`, a `(` or a `)` stands where a block is to begin, then an empty
/// layout.
pub open spec fn page_text(
    base: Option<Seq<char>>,
    menu: Seq<char>,
    layout: Seq<char>,
    markdown: Seq<char>,
) -> Result<Seq<char>, Seq<char>> {
    if markdown.len() == 0 {
        Err("Input is required"@)
    } else {
        match render(markdown) {
            None => Err(stray_token_message()),
            Some(html) => if layout.len() == 0 {
                Err("layout is empty"@)
            } else {
                Ok(
                    replaced(
                        merged_layout(base, merged(layout, html)),
                        menu_placeholder(),
                        menu,
                    ),
                )
            },
        }
    }
}

/// The characters of a result of strings.
pub open spec fn result_view(r: Result<String, String>) -> Result<Seq<char>, Seq<char>> {
    match r {
        Ok(s) => Ok(s@),
        Err(e) => Err(e@),
    }
}

/// Builds one page from its layout and its markdown.
pub fn build_page(base_tpl: &Option<String>, menu_html: &str, layout: &str, markdown: &str) -> (res:
    Result<String, String>)
    ensures
        result_view(res) == page_text(option_view(*base_tpl), menu_html@, layout@, markdown@),
{
    let lexer = match Lexer::new(markdown) {
        Ok(lexer) => lexer,
        Err(e) => {
            return Err(e);
        },
    };
    let mut html_generator = HtmlGenerator::new(lexer);
    let html_content = match html_generator.get_html() {
        Ok(html) => html,
        Err(e) => {
            return Err(e);
        },
    };
    let page = match MergePage::parse(layout, html_content.as_str()) {
        Ok(page) => page,
        Err(e) => {
            return Err(e);
        },
    };
    let body = page.to_string();
    let merged = merge_base_with_layout(base_tpl, &body);
    Ok(replace(merged.as_str(), "{menu}", menu_html))
}

/// `entries` without the entry for path `key`.
pub open spec fn without_key(entries: Seq<(Seq<char>, Seq<char>)>, key: Seq<char>) -> Seq<
    (Seq<char>, Seq<char>),
> {
    match key_index(entries, key) {
        Some(i) => entries.remove(i),
        None => entries,
    }
}

/// The page for the layout entry `entry` of a site, or why there is none.
pub open spec fn site_page(
    base: Option<Seq<char>>,
    menu: Seq<char>,
    content: Seq<(Seq<char>, Seq<char>)>,
    entry: (Seq<char>, Seq<char>),
) -> Result<Seq<char>, Seq<char>> {
    page_text(base, menu, entry.1, markdown_for(content, page_name(entry.0)))
}

/// A site ready to be built page by page: the base template, where there
/// is one, the menu, and the layouts that give a page each.
pub struct Site {
    base: Option<String>,
    menu: String,
    layouts: FileMap<String>,
}

impl Site {
    /// The base template, if any.
    pub closed spec fn base(&self) -> Option<Seq<char>> {
        option_view(self.base)
    }

    /// The navigation menu.
    pub closed spec fn menu(&self) -> Seq<char> {
        self.menu@
    }

    /// The layouts that give a page each, with their paths, in order.
    pub closed spec fn layouts(&self) -> Seq<(Seq<char>, Seq<char>)> {
        self.layouts@
    }

    /// Sets up a site from its layout files. The layout `_base.html`, where
    /// there is one, is the base template and gives no page of its own; the
    /// menu lists the other layouts in order.
    pub fn new(layouts: FileMap<String>) -> (site: Site)
        requires
            layouts.wf(),
        ensures
            site.base() == lookup(layouts@, base_key()),
            site.layouts() == without_key(layouts@, base_key()),
            site.menu() == menu_html(keys_of(site.layouts())),
    {
        let mut rest = layouts;
        let base = rest.remove("_base.html");
        let keys = rest.keys();
        proof {
            assert(strings_view(keys@) =~= keys_of(rest@));
        }
        let menu = build_menu_html(keys);
        Site { base, menu, layouts: rest }
    }

    /// The number of pages of the site.
    pub fn len(&self) -> (n: usize)
        ensures
            n == self.layouts().len(),
    {
        self.layouts.len()
    }

    /// Builds the page of the layout at index `i`, and gives it with the
    /// layout's path.
    pub fn page_at(&self, content: &FileMap<String>, i: usize) -> (res: Result<
        (String, String),
        String,
    >)
        requires
            i < self.layouts().len(),
        ensures
            match res {
                Ok(page) => page.0@ == self.layouts()[i as int].0 && site_page(
                    self.base(),
                    self.menu(),
                    content@,
                    self.layouts()[i as int],
                ) == Ok::<Seq<char>, Seq<char>>(page.1@),
                Err(e) => site_page(
                    self.base(),
                    self.menu(),
                    content@,
                    self.layouts()[i as int],
                ) == Err::<Seq<char>, Seq<char>>(e@),
            },
    {
        let key = self.layouts.key_at(i);
        let markdown_content = page_markdown(content, key.as_str());
        match build_page(
            &self.base,
            self.menu.as_str(),
            self.layouts.value_at(i).as_str(),
            markdown_content.as_str(),
        ) {
            Ok(page) => Ok((key.clone(), page)),
            Err(e) => Err(e),
        }
    }
}

/// Builds every page of a site. `layouts` holds the layout files and
/// `content` the markdown files, each by its relative path. The layout
/// `_base.html`, where there is one, is the base template and gives no page
/// of its own; the menu lists the other layouts in order. The pages come
/// out in the order of their layouts, each with its layout's path. The
/// first page that cannot be built ends the build with its error.
pub fn build_pages(layouts: FileMap<String>, content: &FileMap<String>) -> (res: Result<
    Vec<(String, String)>,
    String,
>)
    requires
        layouts.wf(),
    ensures
        ({
            let base = lookup(layouts@, base_key());
            let entries = without_key(layouts@, base_key());
            let menu = menu_html(keys_of(entries));
            match res {
                Ok(pages) => {
                    &&& pages@.len() == entries.len()
                    &&& forall|i: int|
                        0 <= i < entries.len() ==> (#[trigger] pages@[i]).0@ == entries[i].0
                            && site_page(base, menu, content@, entries[i]) == Ok::<
                            Seq<char>,
                            Seq<char>,
                        >(pages@[i].1@)
                },
                Err(e) => exists|i: int|
                    {
                        &&& 0 <= i < entries.len()
                        &&& #[trigger] site_page(base, menu, content@, entries[i]) == Err::<
                            Seq<char>,
                            Seq<char>,
                        >(e@)
                        &&& forall|j: int|
                            0 <= j < i ==> (#[trigger] site_page(
                                base,
                                menu,
                                content@,
                                entries[j],
                            )) is Ok
                    },
            }
        }),
{
    let ghost base = lookup(layouts@, base_key());
    let ghost entries = without_key(layouts@, base_key());
    let site = Site::new(layouts);
    let mut pages: Vec<(String, String)> = Vec::new();
    let mut i: usize = 0;
    while i < site.len()
        invariant
            i <= entries.len(),
            pages@.len() == i,
            site.layouts() == entries,
            site.base() == base,
            site.menu() == menu_html(keys_of(entries)),
            base == lookup(layouts@, base_key()),
            entries == without_key(layouts@, base_key()),
            forall|j: int|
                0 <= j < i ==> (#[trigger] pages@[j]).0@ == entries[j].0 && site_page(
                    base,
                    site.menu(),
                    content@,
                    entries[j],
                ) == Ok::<Seq<char>, Seq<char>>(pages@[j].1@),
        decreases entries.len() - i,
    {
        let page = match site.page_at(content, i) {
            Ok(page) => page,
            Err(e) => {
                proof {
                    assert(site_page(base, site.menu(), content@, entries[i as int]) == Err::<
                        Seq<char>,
                        Seq<char>,
                    >(e@));
                    assert forall|j: int| 0 <= j < i implies (#[trigger] site_page(
                        base,
                        site.menu(),
                        content@,
                        entries[j],
                    )) is Ok by {
                        assert(pages@[j].0@ == entries[j].0);
                    }
                }
                return Err(e);
            },
        };
        pages.push(page);
        i = i + 1;
    }
    Ok(pages)
}

} // verus!
