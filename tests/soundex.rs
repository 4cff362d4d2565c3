use text::soundex::Soundex;

#[test]
fn classic_collision() {
    assert_eq!(Soundex::new("Robert").as_bytes(), b"R163");
    assert_eq!(Soundex::new("Rupert").as_bytes(), b"R163");
    assert_eq!(Soundex::new("Robert"), Soundex::new("Rupert"));
}

#[test]
fn no_letters_give_no_code() {
    assert_eq!(Soundex::new("").code(), None);
    assert_eq!(Soundex::new("123").code(), None);
    assert_eq!(Soundex::new("123").as_bytes(), b"");
}

#[test]
fn first_letter_upper_cased() {
    assert_eq!(Soundex::new("robert").code(), Some(*b"R163"));
    assert_eq!(Soundex::new("  42 ashcraft").as_bytes(), b"A261");
}

#[test]
fn padded_with_zeros() {
    assert_eq!(Soundex::new("Lee").as_bytes(), b"L000");
    assert_eq!(Soundex::new("a").as_bytes(), b"A000");
}

#[test]
fn first_letter_class_suppresses_duplicate() {
    assert_eq!(Soundex::new("Pfister").as_bytes(), b"P236");
}

#[test]
fn h_and_w_do_not_separate_duplicates() {
    assert_eq!(Soundex::new("Ashcraft").as_bytes(), b"A261");
}

#[test]
fn vowels_do_not_separate_duplicates() {
    assert_eq!(Soundex::new("Tymczak").as_bytes(), b"T520");
}

#[test]
fn stops_after_three_digits() {
    assert_eq!(Soundex::new("Washington").as_bytes(), b"W252");
}

#[test]
fn text_form() {
    assert_eq!(Soundex::new("Rupert").to_string(), "R163");
    assert_eq!(Soundex::new("!!").to_string(), "");
    let code = Soundex::new("Robert");
    let bytes: &[u8] = code.as_ref();
    assert_eq!(bytes, b"R163");
}
