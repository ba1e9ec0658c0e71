use libc_strftime::encoding::{EncodedSpec, EncodingError};

fn encoded(spec: &str) -> Vec<u8> {
    match EncodedSpec::new(spec) {
        Ok(e) => e.as_bytes().to_vec(),
        Err(e) => panic!("unexpected NUL at {}", e.position),
    }
}

fn refused(spec: &str) -> EncodingError {
    match EncodedSpec::new(spec) {
        Ok(_) => panic!("a specifier with a NUL was accepted"),
        Err(e) => e,
    }
}

#[test]
fn directive_is_followed_by_one_nul() {
    assert_eq!(encoded("%c"), vec![b'%', b'c', 0]);
}

#[test]
fn empty_specifier_is_a_lone_nul() {
    assert_eq!(encoded(""), vec![0]);
}

#[test]
fn literal_text_and_directives_pass_through_unchanged() {
    let spec = "On est: %A %d %B %Y, %H:%M:%S (%Z)";
    let mut expected = spec.as_bytes().to_vec();
    expected.push(0);
    assert_eq!(encoded(spec), expected);
}

#[test]
fn non_ascii_specifier_is_encoded_as_utf8() {
    assert_eq!(encoded("aoû"), vec![0x61, 0x6f, 0xc3, 0xbb, 0]);
    assert_eq!(encoded("€"), vec![0xe2, 0x82, 0xac, 0]);
    assert_eq!(encoded("𝄞"), vec![0xf0, 0x9d, 0x84, 0x9e, 0]);
}

#[test]
fn length_leaves_the_terminator_out() {
    let e = EncodedSpec::new("%Y-%m-%d").unwrap_or_else(|_| panic!("refused"));
    assert_eq!(e.len(), 8);
    assert_eq!(e.as_bytes().len(), 9);
    let empty = EncodedSpec::new("").unwrap_or_else(|_| panic!("refused"));
    assert_eq!(empty.len(), 0);
}

#[test]
fn encoded_bytes_hold_no_nul_but_the_last() {
    let bytes = encoded("%H:%M û %S");
    let (last, body) = bytes.split_last().unwrap();
    assert_eq!(*last, 0);
    assert!(body.iter().all(|b| *b != 0));
}

#[test]
fn embedded_nul_is_refused() {
    assert_eq!(refused("%Y\0%m"), EncodingError { position: 2 });
}

#[test]
fn leading_and_trailing_nul_are_refused() {
    assert_eq!(refused("\0"), EncodingError { position: 0 });
    assert_eq!(refused("\0%c"), EncodingError { position: 0 });
    assert_eq!(refused("%c\0"), EncodingError { position: 2 });
}

#[test]
fn first_of_several_nuls_is_reported() {
    assert_eq!(refused("ab\0cd\0ef\0"), EncodingError { position: 2 });
}

#[test]
fn nul_position_counts_bytes_not_characters() {
    assert_eq!(refused("û\0"), EncodingError { position: 2 });
    assert_eq!(refused("€𝄞\0x"), EncodingError { position: 7 });
}

#[test]
fn refusal_is_told_apart_from_an_empty_specifier() {
    assert!(EncodedSpec::new("").is_ok());
    assert!(EncodedSpec::new("\0").is_err());
}
