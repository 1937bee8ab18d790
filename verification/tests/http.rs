use rs_face::http::{
    extract_filename, find_header_end, http_body, parse_content_length, parse_status, parse_url, HttpError,
    UrlError,
};

#[test]
fn url_with_port_and_path() {
    let (h, p, path) = parse_url("http://example.com:8080/a/b.mp4?x=1").unwrap();
    assert_eq!(h, "example.com");
    assert_eq!(p, 8080);
    assert_eq!(path, "/a/b.mp4?x=1");
}

#[test]
fn url_defaults() {
    let (h, p, path) = parse_url("http://host").unwrap();
    assert_eq!((h.as_str(), p, path.as_str()), ("host", 80, "/"));
    let (_, p, _) = parse_url("http://host:99999/").unwrap();
    assert_eq!(p, 80);
}

#[test]
fn url_errors() {
    assert_eq!(parse_url("https://host/x"), Err(UrlError::HttpsUnsupported));
    assert_eq!(parse_url("ftp://host/x"), Err(UrlError::UnsupportedScheme));
}

#[test]
fn download_file_names() {
    assert_eq!(extract_filename("http://h/videos/clip.mp4"), "clip.mp4");
    assert_eq!(extract_filename("http://h/videos/clip.mp4?token=1&b=2"), "clip.mp4");
    assert_eq!(extract_filename("http://h/a/b&c?d"), "b");
    assert_eq!(extract_filename("http://h/dir///"), "dir");
    assert_eq!(extract_filename("nohost"), "download");
}

#[test]
fn header_end_found() {
    assert_eq!(find_header_end(b"HTTP/1.1 200 OK\r\n\r\nbody"), Some(15));
    assert_eq!(find_header_end(b"abc"), None);
    assert_eq!(find_header_end(b"a\r\n\r\n"), None);
}

#[test]
fn status_line() {
    assert_eq!(parse_status(b"HTTP/1.1 206 Partial"), 206);
    assert_eq!(parse_status(b"HTTP/1.1 abc"), 0);
    assert_eq!(parse_status(b"HTTP/1.1"), 0);
    assert_eq!(parse_status(b"X 404\r\nY: 5"), 404);
}

#[test]
fn content_length_any_case() {
    assert_eq!(parse_content_length(b"HTTP/1.1 200 OK\r\nCONTENT-Length:  42 \r\n"), Some(42));
    assert_eq!(parse_content_length(b"HTTP/1.1 200 OK\r\nContent-Length: x\r\nContent-Length: 3"), None);
    assert_eq!(parse_content_length(b"HTTP/1.1 200 OK"), None);
}

#[test]
fn body_of_responses() {
    let r = b"HTTP/1.1 200 OK\r\nContent-Length: 3\r\n\r\nabcdef";
    assert_eq!(http_body(r).unwrap(), b"abc".to_vec());
    let r = b"HTTP/1.1 200 OK\r\n\r\nabcdef";
    assert_eq!(http_body(r).unwrap(), b"abcdef".to_vec());
    let r = b"HTTP/1.1 404 Not Found\r\n\r\nx";
    assert_eq!(http_body(r), Err(HttpError::Status(404)));
    assert_eq!(http_body(b"HTTP/1.1 200 OK\r\n"), Err(HttpError::Incomplete));
}
