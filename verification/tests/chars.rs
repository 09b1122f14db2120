use logo::chars::{chars_of, digit, white_space};

#[test]
fn white_space_is_unicode_white_space() {
    for u in 0u32..=0x10ffff {
        if let Some(c) = char::from_u32(u) {
            assert_eq!(white_space(c), c.is_whitespace(), "{:x}", u);
        }
    }
}

#[test]
fn digits_are_ascii_digits() {
    for u in 0u32..0x800 {
        if let Some(c) = char::from_u32(u) {
            assert_eq!(digit(c), c.is_ascii_digit(), "{:x}", u);
        }
    }
}

#[test]
fn chars_of_keeps_every_character() {
    let s = "à l'é\u{1F600}\n";
    assert_eq!(chars_of(s), s.chars().collect::<Vec<char>>());
}
