pub mod html;
pub mod joins;
pub mod laws;
pub mod merge_page;

pub use html::HtmlGenerator;
pub use merge_page::MergePage;
