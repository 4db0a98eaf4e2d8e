use similar_images::accepted::{is_image_file, matches_ignoring_case};

#[test]
fn accepted_extensions_are_taken() {
    for extension in ["jpg", "jpeg", "png", "webp"] {
        assert!(is_image_file(Some(extension)), "{extension}");
    }
}

#[test]
fn case_of_the_extension_does_not_matter() {
    for extension in ["JPG", "Jpeg", "pNg", "WEBP", "jPeG", "WebP"] {
        assert!(is_image_file(Some(extension)), "{extension}");
    }
}

#[test]
fn other_extensions_are_not_taken() {
    for extension in ["gif", "bmp", "", "jp", "jpgg", "pngx", "web", "jpe", "txt", "j pg", "png "] {
        assert!(!is_image_file(Some(extension)), "{extension:?}");
    }
}

#[test]
fn file_without_extension_is_not_taken() {
    assert!(!is_image_file(None));
}

#[test]
fn letters_outside_ascii_are_not_folded() {
    // Full-width letters, and the characters 32 below the letters of "png".
    assert!(!is_image_file(Some("\u{ff4a}\u{ff50}\u{ff47}")));
    assert!(!is_image_file(Some("\u{ff2a}\u{ff30}\u{ff27}")));
    assert!(is_image_file(Some("PNG")));
    assert!(!is_image_file(Some("pn\u{e7}")));
}

#[test]
fn comparison_folds_upper_case_only() {
    assert!(matches_ignoring_case("AbC", "abc"));
    assert!(matches_ignoring_case("", ""));
    assert!(!matches_ignoring_case("abc", "ABC"));
    assert!(!matches_ignoring_case("abc", "abcd"));
    assert!(!matches_ignoring_case("abcd", "abc"));
    // '!' is 32 below 'A', '@' is 32 below '`': neither is a letter.
    assert!(!matches_ignoring_case("!", "A"));
    assert!(!matches_ignoring_case("@", "`"));
    assert!(!matches_ignoring_case("[", "{"));
}
