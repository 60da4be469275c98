use simple_db::naming::{collection_name, name_char};

#[test]
fn safe_names() {
    assert_eq!(collection_name("test"), "test");
    assert_eq!(collection_name("a1"), "a1");
    assert_eq!(collection_name("test!@£$123"), "test123");
    assert_eq!(collection_name("str"), "str");
    assert_eq!(collection_name("alloc::string::String"), "allocstringString");
    assert_eq!(collection_name("Vec<(u8, my_crate::Item)>"), "Vecu8my_crateItem");
}

#[test]
fn name_without_a_fit_character_is_empty() {
    assert_eq!(collection_name(""), "");
    assert_eq!(collection_name("!@£^@!$£ /\\.."), "");
}

#[test]
fn letters_digits_and_underscore_are_kept() {
    let all = "abcdefghijklmnopqrstuvwxyzABCDEFGHIJKLMNOPQRSTUVWXYZ0123456789_";
    assert_eq!(collection_name(all), all);
    assert!(all.chars().all(name_char));
}

#[test]
fn neighbours_of_the_kept_ranges_are_dropped() {
    for c in ['`', '{', '@', '[', '/', ':', '-', ' ', '.', 'é', 'ß', 'Ω', '٣', '\u{0}', '\u{10ffff}'] {
        assert!(!name_char(c));
    }
    assert_eq!(collection_name("`a{z@A[Z/0:9-_é"), "azAZ09_");
}
