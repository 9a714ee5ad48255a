use thumbnailed::thumbnailer::{
    dir_join, extension_of, file_name_of, first_free_name, nth_name, path_has_extension,
    u128_to_string, FileExtension,
};

fn s(x: &str) -> String {
    String::from(x)
}

#[test]
fn file_name_is_last_path_component() {
    assert_eq!(file_name_of(&s("/photos/cats/cat.jpg")), s("cat.jpg"));
    assert_eq!(file_name_of(&s("C:\\photos\\dog.png")), s("dog.png"));
    assert_eq!(file_name_of(&s("plain.gif")), s("plain.gif"));
    // Trailing separators are ignored, as the platform ignores them.
    assert_eq!(file_name_of(&s("/photos/cats/")), s("cats"));
}

#[test]
fn file_name_falls_back_to_placeholder() {
    assert_eq!(file_name_of(&s("")), s("no_name"));
    assert_eq!(file_name_of(&s("/")), s("no_name"));
    assert_eq!(file_name_of(&s(".")), s("no_name"));
    assert_eq!(file_name_of(&s("/photos/..")), s("no_name"));
}

#[test]
fn nth_name_appends_probe_suffixes() {
    assert_eq!(nth_name(&s("cat.jpg"), 0), s("cat.jpg.png"));
    assert_eq!(nth_name(&s("cat.jpg"), 1), s("cat.jpg_1.png"));
    assert_eq!(nth_name(&s("cat.jpg"), 12), s("cat.jpg_12.png"));
}

#[test]
fn dir_join_inserts_separator() {
    assert_eq!(dir_join(&s("/tmp/thumbs"), &s("cat.jpg.png")), s("/tmp/thumbs/cat.jpg.png"));
}

#[test]
fn first_free_name_takes_plain_name_when_free() {
    let existing: Vec<String> = vec![];
    assert_eq!(first_free_name(&s("cat.jpg"), &existing), s("cat.jpg.png"));
}

#[test]
fn first_free_name_never_reuses_an_existing_name() {
    // A second run over the same target keeps the first run's outputs.
    let existing = vec![s("cat.jpg.png")];
    assert_eq!(first_free_name(&s("cat.jpg"), &existing), s("cat.jpg_1.png"));
    let existing2 = vec![s("cat.jpg.png"), s("cat.jpg_1.png")];
    assert_eq!(first_free_name(&s("cat.jpg"), &existing2), s("cat.jpg_2.png"));
}

#[test]
fn first_free_name_fills_the_first_gap() {
    let existing = vec![s("cat.jpg.png"), s("cat.jpg_2.png")];
    assert_eq!(first_free_name(&s("cat.jpg"), &existing), s("cat.jpg_1.png"));
}

#[test]
fn extension_is_after_last_dot_of_file_name() {
    assert_eq!(extension_of(&s("/a/b.JPG")), Some(s("JPG")));
    assert_eq!(extension_of(&s("/a/b.tar.gz")), Some(s("gz")));
    assert_eq!(extension_of(&s("/a/trailing.")), Some(s("")));
    assert_eq!(extension_of(&s("/a/b.d/")), Some(s("d")));
}

#[test]
fn hidden_or_plain_names_have_no_extension() {
    assert_eq!(extension_of(&s("/a/.hidden")), None);
    assert_eq!(extension_of(&s("/a/noext")), None);
    assert_eq!(extension_of(&s("/a.b/noext")), None);
    assert_eq!(extension_of(&s("/a/..")), None);
}

#[test]
fn extension_match_ignores_ascii_case() {
    let exts = ["jpg", "png"];
    assert!(path_has_extension(&s("/x/photo.JPG"), &exts));
    assert!(path_has_extension(&s("/x/photo.Png"), &exts));
    assert!(!path_has_extension(&s("/x/photo.gif"), &exts));
    assert!(!path_has_extension(&s("/x/noext"), &exts));
    assert!(s("/x/photo.jPg").has_extension(&exts));
}

#[test]
fn decimal_rendering_is_exact() {
    assert_eq!(u128_to_string(0), s("0"));
    assert_eq!(u128_to_string(9), s("9"));
    assert_eq!(u128_to_string(10), s("10"));
    assert_eq!(u128_to_string(1234567890), s("1234567890"));
}

#[test]
fn first_free_name_skips_names_taken_by_other_bases() {
    let existing = vec![s("a.png"), s("a_1.png")];
    assert_eq!(first_free_name(&s("a"), &existing), s("a_2.png"));
}
