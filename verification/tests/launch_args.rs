use mdfiles::launch_args::{filter_markdown_args, has_markdown_suffix, is_markdown_path};

fn strings(items: &[&str]) -> Vec<String> {
    items.iter().map(|s| s.to_string()).collect()
}

#[test]
fn accepts_both_extensions() {
    assert!(is_markdown_path("/tmp/notes.md"));
    assert!(is_markdown_path("/tmp/notes.markdown"));
}

#[test]
fn extension_is_compared_without_regard_to_case() {
    assert!(is_markdown_path("/tmp/a.MD"));
    assert!(is_markdown_path("/tmp/a.Md"));
    assert!(is_markdown_path("/tmp/a.mD"));
    assert!(is_markdown_path("C:\\Docs\\README.MARKDOWN"));
    assert!(is_markdown_path("/tmp/a.MarkDown"));
}

#[test]
fn rejects_other_names() {
    assert!(!is_markdown_path("/tmp/b.txt"));
    assert!(!is_markdown_path("/tmp/b.mdx"));
    assert!(!is_markdown_path("/tmp/b.md "));
    assert!(!is_markdown_path("/tmp/b.md.bak"));
    assert!(!is_markdown_path("/tmp/bmd"));
    assert!(!is_markdown_path("/tmp/b.markdow"));
    assert!(!is_markdown_path("md"));
    assert!(!is_markdown_path(""));
    assert!(!is_markdown_path("--verbose"));
}

#[test]
fn bare_extension_is_a_markdown_name() {
    assert!(is_markdown_path(".md"));
    assert!(is_markdown_path(".markdown"));
    assert!(is_markdown_path(".MD"));
}

#[test]
fn names_outside_ascii_are_measured_in_characters() {
    assert!(is_markdown_path("/home/zoë/résumé.MD"));
    assert!(is_markdown_path("/tmp/заметки.markdown"));
    assert!(!is_markdown_path("/tmp/заметки.мд"));
    assert!(!is_markdown_path("é"));
}

#[test]
fn lowercase_follows_the_unicode_mapping() {
    // U+212A, the Kelvin sign, has the lowercase form `k`.
    assert!(is_markdown_path("/tmp/a.mar\u{212A}down"));
    assert!(!has_markdown_suffix("/tmp/a.mar\u{212A}down"));
}

#[test]
fn suffix_test_expects_a_lowercase_name() {
    assert!(has_markdown_suffix("/tmp/a.md"));
    assert!(has_markdown_suffix("/tmp/a.markdown"));
    assert!(has_markdown_suffix(".md"));
    assert!(!has_markdown_suffix("/tmp/a.MD"));
    assert!(!has_markdown_suffix("/tmp/a.MARKDOWN"));
    assert!(!has_markdown_suffix("md"));
    assert!(!has_markdown_suffix(""));
    assert!(!has_markdown_suffix("a.txt"));
}

#[test]
fn filter_keeps_markdown_arguments_as_given() {
    let args = strings(&["/tmp/a.MD", "/tmp/b.txt", "/tmp/c.markdown"]);
    assert_eq!(filter_markdown_args(&args), strings(&["/tmp/a.MD", "/tmp/c.markdown"]));
}

#[test]
fn filter_keeps_the_order_of_the_arguments() {
    let args = strings(&[
        "z.md",
        "--flag",
        "a.markdown",
        "m.MD",
        "notes.txt",
        "a.markdown",
        "B.Markdown",
    ]);
    assert_eq!(
        filter_markdown_args(&args),
        strings(&["z.md", "a.markdown", "m.MD", "a.markdown", "B.Markdown"])
    );
}

#[test]
fn filter_of_no_arguments_is_empty() {
    let args: Vec<String> = Vec::new();
    assert_eq!(filter_markdown_args(&args), Vec::<String>::new());
}

#[test]
fn filter_may_keep_nothing_or_everything() {
    let none = strings(&["a.txt", "b.rs", "c"]);
    assert_eq!(filter_markdown_args(&none), Vec::<String>::new());
    let all = strings(&["a.md", "b.MARKDOWN"]);
    assert_eq!(filter_markdown_args(&all), all);
}

#[test]
fn filter_does_not_look_at_the_disk() {
    let args = strings(&["/does/not/exist.md"]);
    assert_eq!(filter_markdown_args(&args), args);
}

#[test]
fn filter_leaves_quotes_in_place() {
    let args = strings(&["\"/tmp/a.md\"", "/tmp/b.md"]);
    assert_eq!(filter_markdown_args(&args), strings(&["/tmp/b.md"]));
}
