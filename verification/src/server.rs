pub mod server;

pub use server::{
    build_response, get_content_for_path, get_not_found_content, get_request_path,
    get_request_path_string,
};
