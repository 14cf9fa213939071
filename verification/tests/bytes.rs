use kvlog::bytes::bytes_equal;
use kvlog::codec::Entry;
use kvlog::command::Request;

#[test]
fn bytes_equal_compares_length_and_content() {
    assert!(bytes_equal(b"", b""));
    assert!(bytes_equal(b"abc", b"abc"));
    assert!(!bytes_equal(b"abc", b"abd"));
    assert!(!bytes_equal(b"abc", b"xbc"));
    assert!(!bytes_equal(b"abc", b"ab"));
    assert!(!bytes_equal(b"ab", b"abc"));
    assert!(!bytes_equal(b"", b"a"));
    assert!(bytes_equal(&[0, 255, 0], &[0, 255, 0]));
}

#[test]
fn entry_clone_is_the_same_entry() {
    let entry = Entry { key: b"key".to_vec(), value: vec![0, 1, 2, 255] };
    assert_eq!(entry.clone(), entry);
}

#[test]
fn request_clone_is_the_same_request() {
    let put = Request::Put(Entry { key: b"k".to_vec(), value: b"v".to_vec() });
    assert_eq!(put.clone(), put);
    let get = Request::Get(b"k".to_vec());
    assert_eq!(get.clone(), get);
    assert_eq!(Request::Invalid.clone(), Request::Invalid);
    assert_eq!(Request::Quit.clone(), Request::Quit);
}
