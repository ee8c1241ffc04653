use dockerops::fingerprint::{calculate_md5, to_hex};

#[test]
fn empty_document_has_the_md5_of_nothing() {
    assert_eq!(calculate_md5(""), "d41d8cd98f00b204e9800998ecf8427e");
}

#[test]
fn alphabet_fingerprint() {
    assert_eq!(
        calculate_md5("abcdefghijklmnopqrstuvwxyz"),
        "c3fcd3d76192e4007dfb496cca67e13b"
    );
}

#[test]
fn hex_is_lower_case_and_zero_padded() {
    assert_eq!(to_hex(&[0x00, 0x0f, 0xa0, 0xff]), "000fa0ff");
    assert_eq!(to_hex(&[]), "");
}

#[test]
fn fingerprint_is_stable_across_calls() {
    let document = "services:\n  web:\n    image: nginx\n";
    assert_eq!(calculate_md5(document), calculate_md5(document));
}

#[test]
fn fingerprint_is_thirty_two_hex_digits() {
    for document in ["", "a", "services: {}\n", "\u{e9}\u{4e16}\u{1f600}"] {
        let hash = calculate_md5(document);
        assert_eq!(hash.len(), 32);
        assert!(hash.chars().all(|c| c.is_ascii_digit() || ('a'..='f').contains(&c)));
    }
}

#[test]
fn any_byte_of_difference_changes_the_fingerprint() {
    let document = "services:\n  web:\n    image: nginx\n";
    assert_ne!(calculate_md5(document), calculate_md5("services:\n  web:\n    image: nginx \n"));
    assert_ne!(calculate_md5(document), calculate_md5("services:\n  web:\n     image: nginx\n"));
    assert_ne!(calculate_md5("a"), calculate_md5("A"));
    assert_ne!(calculate_md5(""), calculate_md5("\n"));
}

#[test]
fn fingerprint_is_taken_over_the_utf8_bytes() {
    assert_eq!(calculate_md5("\u{e9}"), to_hex(&md5::compute([0xc3u8, 0xa9u8]).0));
    assert_eq!(calculate_md5("hello world"), "5eb63bbbe01eeed093cb22bb8f5acdc3");
}
