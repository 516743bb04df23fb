pub mod file_map;
pub mod new;
pub mod site;

pub use file_map::FileMap;
pub use new::get_site_dirs;
pub use site::{
    build_menu_html, build_page, build_pages, merge_base_with_layout, page_markdown, Site,
};
