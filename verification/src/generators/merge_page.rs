//! Merging generated HTML into a layout template.

use vstd::prelude::*;
use crate::text::{
    lemma_replaced_first_occurrence, lemma_replaced_without_occurrence, occurs_at, replace,
    replaced,
};

verus! {

/// The placeholder of a layout that the content takes the place of.
pub open spec fn content_placeholder() -> Seq<char> {
    "{content}"@
}

/// The text of the page made of `layout` and `content`: `layout` with every
/// `{content}` replaced by `content`.
pub open spec fn merged(layout: Seq<char>, content: Seq<char>) -> Seq<char> {
    replaced(layout, content_placeholder(), content)
}

/// A layout without a placeholder is a page as it stands.
pub proof fn lemma_merge_without_placeholder(layout: Seq<char>, content: Seq<char>)
    requires
        forall|j: int| 0 <= j < layout.len() ==> !occurs_at(layout, j, content_placeholder()),
    ensures
        merged(layout, content) == layout,
{
    lemma_replaced_without_occurrence(layout, content_placeholder(), content);
}

/// Each placeholder gives way to the content, verbatim, and what stands
/// around it stays: where the first placeholder of a layout stands behind
/// `head`, the page is `head`, then the content, then the rest of the layout
/// merged in the same way.
pub proof fn lemma_merge_replaces_each_placeholder(
    head: Seq<char>,
    tail: Seq<char>,
    content: Seq<char>,
)
    requires
        forall|j: int|
            0 <= j < head.len() ==> !occurs_at(
                head + content_placeholder() + tail,
                j,
                content_placeholder(),
            ),
    ensures
        merged(head + content_placeholder() + tail, content) == head + content + merged(
            tail,
            content,
        ),
{
    reveal_strlit("{content}");
    lemma_replaced_first_occurrence(head, content_placeholder(), tail, content);
}

/// A finished page: a layout with the content spliced in.
#[derive(Debug)]
pub struct MergePage(String);

impl MergePage {
    /// The text of the page.
    pub closed spec fn page(&self) -> Seq<char> {
        self.0@
    }

    /// Replaces every `{content}` of `layout` by `content`, verbatim. An
    /// empty layout is refused.
    pub fn parse(layout: &str, content: &str) -> (res: Result<MergePage, String>)
        ensures
            layout@.len() == 0 <==> res is Err,
            res matches Err(e) ==> e@ == "layout is empty"@,
            res matches Ok(page) ==> page.page() == merged(layout@, content@),
    {
        if layout.is_empty() {
            return Err("layout is empty".to_owned());
        }
        let res = replace(layout, "{content}", content);
        Ok(MergePage(res))
    }

    /// The text of the page.
    pub fn get_page(&self) -> (page: &str)
        ensures
            page@ == self.page(),
    {
        self.0.as_str()
    }

    /// The text of the page, as a string of its own.
    pub fn to_string(&self) -> (page: String)
        ensures
            page@ == self.page(),
    {
        self.0.clone()
    }
}

} // verus!
