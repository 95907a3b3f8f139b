use sonido_sigiloso::articles::{article_content_html, article_link_entries, is_safe_markdown_name,
    markdown_files, sort_names};
use sonido_sigiloso::models::ArticleError;

#[test]
fn guard_rejects_parent_directory_segment() {
    assert!(!is_safe_markdown_name("../secret.md"));
}

#[test]
fn guard_rejects_wrong_extension() {
    assert!(!is_safe_markdown_name("notes.txt"));
}

#[test]
fn guard_rejects_separators() {
    assert!(!is_safe_markdown_name("dir/real.md"));
    assert!(!is_safe_markdown_name("dir\\real.md"));
}

#[test]
fn guard_accepts_plain_markdown_name() {
    assert!(is_safe_markdown_name("real.md"));
    assert!(is_safe_markdown_name("notas-2024.md"));
}

#[test]
fn rejected_name_gets_bad_request_before_storage() {
    let r = article_content_html("../secret.md", "never read");
    assert!(matches!(r, Err(ArticleError::BadRequest)));
    let r2 = article_content_html("notes.txt", "never read");
    assert!(matches!(r2, Err(ArticleError::BadRequest)));
}

#[test]
fn served_content_escapes_html_specials() {
    let body = article_content_html("real.md", "a<b & c>d").unwrap();
    assert_eq!(body, "a&lt;b &amp; c&gt;d");
}

#[test]
fn plain_content_passes_through() {
    let body = article_content_html("real.md", "plain text").unwrap();
    assert_eq!(body, "plain text");
}

#[test]
fn listing_filters_markdown_and_sorts() {
    let names = vec![
        "zeta.md".to_string(),
        "readme.txt".to_string(),
        "alpha.md".to_string(),
        ".gitignore".to_string(),
        "beta.md".to_string(),
    ];
    let files = markdown_files(names);
    assert_eq!(files, vec!["zeta.md", "alpha.md", "beta.md"]);
    let sorted = sort_names(&files);
    assert_eq!(sorted, vec!["alpha.md", "beta.md", "zeta.md"]);
}

#[test]
fn link_entries_encode_targets() {
    let files = vec!["con espacio.md".to_string(), "plain.md".to_string()];
    let entries = article_link_entries(&files);
    assert_eq!(entries.len(), 2);
    assert_eq!(entries[0].0, "con%20espacio.md");
    assert_eq!(entries[0].1, "con espacio.md");
    assert_eq!(entries[1].0, "plain.md");
    assert_eq!(entries[1].1, "plain.md");
}
