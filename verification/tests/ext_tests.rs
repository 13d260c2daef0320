use rssget::ext::{file_name, get_ext};

#[test]
fn ext_with_query_and_dot() {
    assert_eq!(get_ext("http://x/y/file.mp4?token=1"), "mp4");
}

#[test]
fn ext_without_query() {
    assert_eq!(get_ext("http://x/y/file.mp4"), "mp4");
}

#[test]
fn ext_no_dot() {
    assert_eq!(get_ext("http://x/y/file"), "");
}

#[test]
fn ext_query_no_dot() {
    assert_eq!(get_ext("http://x/y/file?a=b"), "");
}

#[test]
fn ext_empty_url() {
    assert_eq!(get_ext(""), "");
}

#[test]
fn ext_dot_inside_query_ignored() {
    assert_eq!(get_ext("http://x/y/file?a=b.c"), "");
}

#[test]
fn file_name_joins_title_and_ext() {
    assert_eq!(file_name("Episode 1", "http://x/y/file.mp4?token=1"), "Episode 1.mp4");
}

#[test]
fn file_name_with_empty_ext_keeps_trailing_dot() {
    assert_eq!(file_name("Episode 2", "http://x/y/file"), "Episode 2.");
}
