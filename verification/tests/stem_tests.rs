use std::path::Path;
use stem_reconcile::stem::{file_stem, stem_key};

fn std_stem(name: &str) -> Option<&str> {
    Path::new(name).file_stem().and_then(|stem| stem.to_str())
}

#[test]
fn stem_drops_the_last_extension() {
    assert_eq!(file_stem("photo.png"), Some("photo"));
    assert_eq!(file_stem("archive.tar.gz"), Some("archive.tar"));
    assert_eq!(file_stem("a.b"), Some("a"));
}

#[test]
fn name_without_extension_is_its_own_stem() {
    assert_eq!(file_stem("README"), Some("README"));
    assert_eq!(file_stem("x"), Some("x"));
}

#[test]
fn leading_dot_alone_starts_no_extension() {
    assert_eq!(file_stem(".bashrc"), Some(".bashrc"));
    assert_eq!(file_stem(".config.toml"), Some(".config"));
}

#[test]
fn trailing_dot_is_an_empty_extension() {
    assert_eq!(file_stem("name."), Some("name"));
    assert_eq!(file_stem("a.."), Some("a."));
}

#[test]
fn names_of_dots() {
    assert_eq!(file_stem("..."), Some(".."));
    assert_eq!(file_stem("..a"), Some("."));
}

#[test]
fn names_that_are_no_file_names_have_no_stem() {
    assert_eq!(file_stem(""), None);
    assert_eq!(file_stem("."), None);
    assert_eq!(file_stem(".."), None);
}

#[test]
fn stem_counts_characters_not_bytes() {
    assert_eq!(file_stem("caf\u{e9}.png"), Some("caf\u{e9}"));
    assert_eq!(file_stem("\u{65e5}\u{672c}.\u{8a9e}"), Some("\u{65e5}\u{672c}"));
    assert_eq!(file_stem("\u{1f600}.\u{1f600}.txt"), Some("\u{1f600}.\u{1f600}"));
}

#[test]
fn stem_agrees_with_the_standard_library_on_single_names() {
    let names = [
        "", ".", "..", "...", "a", "a.", ".a", "..a", "a.b", "a.b.c", ".a.b", "a..b", "a b.png",
        "IMG_0001.JPG", "caf\u{e9}.png", "\u{1f600}.txt", "no_extension", ".hidden", "x.tar.gz",
        " .png", "-.-", "a.b.", "....png",
    ];
    for name in names {
        assert_eq!(file_stem(name), std_stem(name), "name {:?}", name);
    }
}

#[test]
fn key_is_the_stem_in_lowercase() {
    assert_eq!(stem_key("FOO.png"), Some("foo".to_string()));
    assert_eq!(stem_key("Cat.AVIF"), Some("cat".to_string()));
    assert_eq!(stem_key("already.lower"), Some("already".to_string()));
    assert_eq!(stem_key("MiXeD.Case.Ext"), Some("mixed.case".to_string()));
}

#[test]
fn key_lowercases_beyond_ascii() {
    assert_eq!(stem_key("\u{c9}T\u{c9}.png"), Some("\u{e9}t\u{e9}".to_string()));
    assert_eq!(stem_key("\u{3a3}.png"), Some("\u{3c3}".to_string()));
}

#[test]
fn key_is_missing_where_the_stem_is() {
    assert_eq!(stem_key(""), None);
    assert_eq!(stem_key("."), None);
    assert_eq!(stem_key(".."), None);
}

#[test]
fn matching_is_case_insensitive() {
    assert_eq!(stem_key("Foo.src"), stem_key("foo.dst"));
    assert_eq!(stem_key("Foo.src"), Some("foo".to_string()));
    assert_ne!(stem_key("Foo.src"), stem_key("fool.dst"));
}
