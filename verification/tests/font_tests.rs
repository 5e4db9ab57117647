#[test]
fn from_json_builds_a_sorted_glyph_table() {
    let f = captcha::fonts::Default::from_json(r#"{"b":"Yg==","a":"aGVsbG8="}"#).expect("parse failed");
    assert_eq!(f.chars(), vec!['a', 'b']);
    assert_eq!(f.png_as_base64('a').map(|s| s.as_str()), Some("aGVsbG8="));
    assert_eq!(f.png_as_base64('z'), None);
}

#[test]
fn from_json_rejects_malformed_text() {
    assert!(captcha::fonts::Default::from_json("not json").is_err());
    assert!(captcha::fonts::Default::from_json(r#"{"ab":"Yg=="}"#).is_err());
}

#[test]
fn png_decodes_the_glyph_data() {
    let f = captcha::fonts::Default::from_json(r#"{"a":"aGVsbG8=","b":"%%%"}"#).expect("parse failed");
    assert_eq!(f.png('a'), Some(b"hello".to_vec()));
    // Present but not valid base64.
    assert_eq!(f.png('b'), None);
    // Absent.
    assert_eq!(f.png('c'), None);
}
