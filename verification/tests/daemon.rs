use instagrep::daemon::{
    decode_request, decode_response_head, encode_response, index_dir, index_path, request_rest, socket_path, Request,
};
use instagrep::matcher::{ColorWhen, SearchMode, SearchOptions};

fn options() -> SearchOptions {
    SearchOptions { mode: SearchMode::Count, before: 2, after: 300, color: ColorWhen::Always }
}

#[test]
fn a_request_has_a_fixed_form() {
    let request = Request::new("aé", true, &options());
    let expected = vec![3, 0, 0, 0, b'a', 0xc3, 0xa9, 1, 1, 2, 0, 0, 0, 44, 1, 0, 0, 1];
    assert_eq!(request.encode(), expected);
}

#[test]
fn a_request_is_read_back() {
    for mode in [SearchMode::Normal, SearchMode::Count, SearchMode::FilesWithMatches] {
        let opts = SearchOptions { mode, ..options() };
        let request = Request::new("a|b", false, &opts);
        let read = decode_request(&request.encode()).unwrap();
        assert_eq!(read.pattern, "a|b");
        assert!(!read.ignore_case);
        assert_eq!(read.to_opts(), opts);
    }
}

#[test]
fn colour_that_is_not_always_on_is_off() {
    let opts = SearchOptions { color: ColorWhen::Auto, ..SearchOptions::default() };
    let read = decode_request(&Request::new("x", false, &opts).encode()).unwrap();
    assert_eq!(read.to_opts(), SearchOptions { color: ColorWhen::Never, ..opts });
}

#[test]
fn a_cut_off_request_is_refused() {
    let data = Request::new("pattern", false, &options()).encode();
    for n in 0..data.len() {
        assert!(decode_request(&data[..n]).is_none(), "{n} bytes");
    }
}

#[test]
fn a_pattern_that_is_not_text_is_replaced() {
    let mut data = Request::new("abc", false, &options()).encode();
    data[5] = 0xff;
    assert_eq!(decode_request(&data).unwrap().pattern, "a\u{fffd}c");
}

#[test]
fn the_rest_of_a_request_is_announced() {
    let data = Request::new("pattern", false, &options()).encode();
    assert_eq!(request_rest(&data[..4]), Some(data.len() as u64 - 4));
    assert_eq!(request_rest(&data[..3]), None);
}

#[test]
fn a_response_has_a_fixed_form() {
    assert_eq!(encode_response(1, b"ab"), vec![1, 0, 0, 0, 2, 0, 0, 0, b'a', b'b']);
    assert_eq!(encode_response(-1, b"")[..4], [0xff; 4]);
}

#[test]
fn a_response_is_read_back() {
    for exit in [0, 1, -1, i32::MIN, i32::MAX] {
        let data = encode_response(exit, b"output");
        assert_eq!(decode_response_head(&data), Some((exit, 6)));
        assert_eq!(&data[8..], b"output");
    }
    assert_eq!(decode_response_head(&[0; 7]), None);
}

#[test]
fn state_is_kept_under_the_root() {
    assert_eq!(index_dir(b"/r"), b"/r/.instantgrep".to_vec());
    assert_eq!(index_path(b"/r"), b"/r/.instantgrep/index.bin".to_vec());
    assert_eq!(socket_path(b"/r/"), b"/r/.instantgrep/daemon.sock".to_vec());
}
