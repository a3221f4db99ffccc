use beam_patcher::checksum::{checksum_matches, to_lower_hex, verify_checksum};
use beam_patcher::patch_list::parse_patch_list;

#[test]
fn patch_list_lines() {
    let text = b"# comment line\n\npatch1.thor 0a1b2c\n  patch2.rgz  \r\nfoo.beam x y\n   # indented comment\nlast.gpf";
    let list = parse_patch_list(text);
    assert_eq!(list.len(), 4);
    assert_eq!(list[0].filename, b"patch1.thor".to_vec());
    assert_eq!(list[0].checksum, Some(b"0a1b2c".to_vec()));
    assert_eq!(list[1].filename, b"patch2.rgz".to_vec());
    assert_eq!(list[1].checksum, None);
    assert_eq!(list[2].filename, b"foo.beam".to_vec());
    assert_eq!(list[2].checksum, Some(b"x".to_vec()));
    assert_eq!(list[3].filename, b"last.gpf".to_vec());
    assert_eq!(list[3].checksum, None);
}

#[test]
fn patch_list_empty_and_blank() {
    assert!(parse_patch_list(b"").is_empty());
    assert!(parse_patch_list(b"\n\n \t \n#x y\n").is_empty());
}

#[test]
fn patch_list_tabs_separate_words() {
    let list = parse_patch_list(b"a.thor\tdeadbeef\n");
    assert_eq!(list.len(), 1);
    assert_eq!(list[0].checksum, Some(b"deadbeef".to_vec()));
}

#[test]
fn checksum_of_abc() {
    let good = b"ba7816bf8f01cfea414140de5dae2223b00361a396177a9cb410ff61f20015ad";
    assert!(verify_checksum(b"abc", good, true));
    assert!(!verify_checksum(b"abd", good, true));
    assert!(verify_checksum(b"abd", good, false));
    let upper = b"BA7816BF8F01CFEA414140DE5DAE2223B00361A396177A9CB410FF61F20015AD";
    assert!(!verify_checksum(b"abc", upper, true));
}

#[test]
fn lower_hex_of_digest_bytes() {
    assert_eq!(to_lower_hex(&[0x00, 0x0f, 0xa0, 0xff]), b"000fa0ff".to_vec());
    assert!(checksum_matches(&[0xde, 0xad], b"dead"));
    assert!(!checksum_matches(&[0xde, 0xad], b"DEAD"));
}
