//! The rules of the local file server: which path a request line asks for,
//! which file answers it, and the bytes of the response.
//!
//! Listening and writing to the connection are left to the caller.

use vstd::prelude::*;
use vstd::string::StringSliceAdditionalSpecFns;
use crate::commands::file_map::{lookup, FileMap};
use crate::text::{
    decimal, decimal_string, ends_with, first_at, from_chars, has_suffix, to_chars,
};

verus! {

/// The page sent where the site has no page of its own for a missing file.
pub const NOT_FOUND: &'static str = "\n\
<!DOCTYPE html>\n\
<html lang=\"en\">\n  \
  <head>\n    \
    <meta charset=\"utf-8\">\n    \
    <title>404 - Not Found</title>\n  \
  </head>\n  \
  <body>\n    \
    <h1>404 - Not Found!</h1>\n    \
    <p>Sorry, I don't know what you're asking for.</p>\n  \
  </body>\n\
</html>";

/// The path that a request line asks for: what stands between its first
/// space and its second, or the end of the line where there is no second.
/// A line without a space asks for the empty path.
pub open spec fn request_path(line: Seq<char>) -> Seq<char> {
    let first = first_at(line, ' ', 0);
    if first >= line.len() {
        Seq::empty()
    } else {
        line.subrange(first + 1, first_at(line, ' ', first + 1))
    }
}

/// Reads the path out of a request line.
pub fn get_request_path(request_line: &str) -> (path: String)
    ensures
        path@ == request_path(request_line@),
{
    let line = to_chars(request_line);
    let mut found = false;
    let mut char_vec: Vec<char> = Vec::new();
    let ghost mut first: int = 0;
    let mut i: usize = 0;
    while i < line.len()
        invariant_except_break
            i <= line.len(),
            !found ==> first_at(line@, ' ', 0) == first_at(line@, ' ', i as int) && char_vec@.len()
                == 0,
            found ==> 0 <= first < i && first == first_at(line@, ' ', 0) && first_at(
                line@, ' ',
                first + 1,
            ) == first_at(line@, ' ', i as int) && char_vec@ == line@.subrange(first + 1, i as int),
        ensures
            char_vec@ == request_path(line@),
        decreases line.len() - i,
    {
        let c = line[i];
        if c == ' ' {
            if found {
                break;
            }
            found = true;
            proof {
                first = i as int;
            }
            i = i + 1;
            proof {
                assert(char_vec@ =~= line@.subrange(first + 1, i as int));
            }
            continue;
        }
        if found {
            char_vec.push(c);
            proof {
                assert(char_vec@ =~= line@.subrange(first + 1, i + 1));
            }
        }
        i = i + 1;
    }
    proof {
        assert(char_vec@ =~= request_path(line@));
    }
    get_request_path_string(char_vec)
}

/// The string made of the characters of `char_vec`.
pub fn get_request_path_string(char_vec: Vec<char>) -> (path: String)
    ensures
        path@ == char_vec@,
{
    from_chars(&char_vec)
}

/// The contents that the site holds for `path`, if any.
pub fn get_content_for_path(path: String, content_map: &FileMap<Vec<u8>>) -> (content: Option<
    Vec<u8>,
>)
    ensures
        match content {
            Some(bytes) => lookup(content_map@, path@) == Some(bytes@),
            None => lookup(content_map@, path@) is None,
        },
{
    match content_map.get(path.as_str()) {
        Some(bytes) => Some(copy_bytes(bytes)),
        None => None,
    }
}

/// What is sent for a missing file: the site's own page under the path
/// `404`, and the built-in page where the site has none.
pub open spec fn not_found_content(content: Seq<(Seq<char>, Seq<u8>)>) -> Seq<u8> {
    match lookup(content, "404"@) {
        Some(bytes) => bytes,
        None => NOT_FOUND.spec_bytes(),
    }
}

/// The page to send for a missing file.
pub fn get_not_found_content(content_map: &FileMap<Vec<u8>>) -> (content: Vec<u8>)
    ensures
        content@ == not_found_content(content_map@),
{
    match content_map.get("404") {
        Some(bytes) => copy_bytes(bytes),
        None => NOT_FOUND.as_bytes_vec(),
    }
}

fn copy_bytes(bytes: &Vec<u8>) -> (copy: Vec<u8>)
    ensures
        copy@ == bytes@,
{
    let mut copy: Vec<u8> = Vec::new();
    let mut i: usize = 0;
    while i < bytes.len()
        invariant
            i <= bytes.len(),
            copy@ == bytes@.subrange(0, i as int),
        decreases bytes.len() - i,
    {
        copy.push(bytes[i]);
        i = i + 1;
    }
    assert(bytes@.subrange(0, i as int) =~= bytes@);
    copy
}

/// The path of the file that answers a request for `path`: the site's
/// index for the root.
pub open spec fn served_path(path: Seq<char>) -> Seq<char> {
    if path == "/"@ {
        "/index.html"@
    } else {
        path
    }
}

/// The content type of the file with path `path`, by its ending.
pub open spec fn content_type(path: Seq<char>) -> Seq<char> {
    if has_suffix(path, ".png"@) {
        "image/png"@
    } else if has_suffix(path, ".css"@) {
        "text/css"@
    } else if has_suffix(path, ".jpg"@) || has_suffix(path, ".jpeg"@) {
        "image/jpeg"@
    } else if has_suffix(path, ".js"@) {
        "text/javascript"@
    } else {
        "text/html"@
    }
}

/// The head of a response: the status line, the length of the body and
/// its content type, each on a line of its own, and an empty line.
pub open spec fn response_head(
    status_line: Seq<char>,
    content_length: nat,
    content_type: Seq<char>,
) -> Seq<char> {
    status_line + "\r\ncontent-length: "@ + decimal(content_length) + "\r\ncontent-type: "@
        + content_type + "\r\n\r\n"@
}

/// The response to a request line: the head as UTF-8, then the body. The
/// body is the file that the site holds for the served path, with status
/// 200, or the page for a missing file, with status 404.
pub open spec fn response(line: Seq<char>, content: Seq<(Seq<char>, Seq<u8>)>) -> Seq<u8> {
    let path = served_path(request_path(line));
    match lookup(content, path) {
        Some(body) => vstd::utf8::encode_utf8(
            response_head("HTTP/1.1 200 OK"@, body.len(), content_type(path)),
        ) + body,
        None => vstd::utf8::encode_utf8(
            response_head(
                "HTTP/1.1 404 NOT FOUND"@,
                not_found_content(content).len(),
                content_type(path),
            ),
        ) + not_found_content(content),
    }
}

/// Builds the bytes of the response to `request_line`.
pub fn build_response(request_line: &str, content_map: &FileMap<Vec<u8>>) -> (bytes: Vec<u8>)
    ensures
        bytes@ == response(request_line@, content_map@),
{
    let mut path = get_request_path(request_line);
    if path.as_str().unicode_len() == 1 && path.as_str().get_char(0) == '/' {
        proof {
            reveal_strlit("/");
            assert(path@ =~= "/"@);
        }
        path = "/index.html".to_owned();
    } else {
        proof {
            reveal_strlit("/");
        }
    }
    let (status_line, content) = match get_content_for_path(path.clone(), content_map) {
        None => ("HTTP/1.1 404 NOT FOUND", get_not_found_content(content_map)),
        Some(t) => ("HTTP/1.1 200 OK", t),
    };
    let content_length = content.len();
    let p = path.as_str();
    let content_type = if ends_with(p, ".png") {
        "image/png"
    } else if ends_with(p, ".css") {
        "text/css"
    } else if ends_with(p, ".jpg") || ends_with(p, ".jpeg") {
        "image/jpeg"
    } else if ends_with(p, ".js") {
        "text/javascript"
    } else {
        "text/html"
    };
    let mut head = status_line.to_owned();
    head.append("\r\ncontent-length: ");
    head.append(decimal_string(content_length).as_str());
    head.append("\r\ncontent-type: ");
    head.append(content_type);
    head.append("\r\n\r\n");
    let mut respvec = head.as_str().as_bytes_vec();
    let ghost head_bytes = respvec@;
    let mut i: usize = 0;
    while i < content.len()
        invariant
            i <= content.len(),
            respvec@ == head_bytes + content@.subrange(0, i as int),
        decreases content.len() - i,
    {
        respvec.push(content[i]);
        i = i + 1;
    }
    assert(content@.subrange(0, i as int) =~= content@);
    respvec
}

} // verus!
