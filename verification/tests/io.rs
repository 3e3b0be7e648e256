use std::path::PathBuf;

use smep::io::{name_or_untitled, path_from_file_url, Document, PreviewFormat};

#[test]
fn display_name_falls_back_to_untitled() {
    assert_eq!(Document::display_name(None, false), "Untitled");
    assert_eq!(
        Document::display_name(Some("/tmp/notes/todo.md"), false),
        "todo.md"
    );
}

#[test]
fn an_empty_document_is_untitled_markdown() {
    let document = Document::empty();
    assert!(document.path.is_none());
    assert!(document.text.is_empty());
    assert_eq!(document.format, PreviewFormat::Markdown);
}

#[test]
fn html_files_open_in_the_html_preview() {
    assert_eq!(PreviewFormat::for_extension(Some("html")), PreviewFormat::Html);
    assert_eq!(PreviewFormat::for_extension(Some("HTM")), PreviewFormat::Html);
    assert_eq!(PreviewFormat::for_extension(Some("md")), PreviewFormat::Markdown);
    assert_eq!(PreviewFormat::for_extension(Some("xhtml")), PreviewFormat::Markdown);
    assert_eq!(PreviewFormat::for_extension(None), PreviewFormat::Markdown);
    assert_eq!(PreviewFormat::for_path("/a/page.Html", false), PreviewFormat::Html);
    assert_eq!(PreviewFormat::for_path("/a/notes.md", false), PreviewFormat::Markdown);
    assert_eq!(PreviewFormat::for_path("/a/README", false), PreviewFormat::Markdown);
}

#[test]
fn a_name_is_kept_and_none_is_untitled() {
    assert_eq!(name_or_untitled(Some("a.md".to_string())), "a.md");
    assert_eq!(name_or_untitled(None), "Untitled");
}

#[test]
fn file_urls_become_paths() {
    assert_eq!(
        path_from_file_url("file:///Users/k/notes/a%20b.md", false).as_deref(),
        Some("/Users/k/notes/a b.md")
    );
    assert_eq!(
        path_from_file_url("file://localhost/tmp/%E4%B8%AD%E6%96%87.md", false).as_deref(),
        Some("/tmp/中文.md")
    );
    assert_eq!(path_from_file_url("https://example.com/a.md", false), None);
    assert_eq!(path_from_file_url("file://host/a.md", false), None);
    assert_eq!(path_from_file_url("file:///a%2", false), None);
    assert_eq!(path_from_file_url("file:///a%zz", false), None);
    assert_eq!(
        path_from_file_url("file:///C:/docs/a.md", true).as_deref(),
        Some("C:/docs/a.md")
    );
    assert_eq!(
        path_from_file_url("file:///C:/docs/a.md", false).as_deref(),
        Some("/C:/docs/a.md")
    );
}

#[test]
fn a_url_that_decodes_to_invalid_text_names_no_path() {
    assert_eq!(path_from_file_url("file:///%FF.md", false), None);
    assert_eq!(path_from_file_url("file://", false), None);
    assert_eq!(path_from_file_url("file:///%2F", false).as_deref(), Some("//"));
}

#[test]
fn a_path_that_names_no_file_is_untitled() {
    for path in ["/", "", ".", "a/..", "./", "//"] {
        assert_eq!(Document::display_name(Some(path), false), "Untitled", "{path:?}");
    }
    assert_eq!(Document::display_name(Some("a/b/"), false), "b");
    assert_eq!(Document::display_name(Some("a/."), false), "a");
    assert_eq!(Document::display_name(Some("notes/标题.md"), false), "标题.md");
    assert_eq!(Document::display_name(Some("a\\b.md"), false), "a\\b.md");
}

#[test]
fn windows_paths_split_on_both_slashes_after_their_prefix() {
    assert_eq!(Document::display_name(Some("C:\\docs\\a.md"), true), "a.md");
    assert_eq!(Document::display_name(Some("C:/docs/a.md"), true), "a.md");
    assert_eq!(Document::display_name(Some("C:foo.md"), true), "foo.md");
    assert_eq!(Document::display_name(Some("C:"), true), "Untitled");
    assert_eq!(Document::display_name(Some("\\\\server\\share"), true), "Untitled");
    assert_eq!(Document::display_name(Some("\\\\server\\share\\x.md"), true), "x.md");
    assert_eq!(PreviewFormat::for_path("C:\\web\\index.HTM", true), PreviewFormat::Html);
}

#[test]
fn an_extension_follows_the_last_dot_of_the_file_name() {
    assert_eq!(PreviewFormat::for_path("/home/u/.html", false), PreviewFormat::Markdown);
    assert_eq!(PreviewFormat::for_path("/srv/site.html/", false), PreviewFormat::Html);
    assert_eq!(PreviewFormat::for_path("/a/page.md.html", false), PreviewFormat::Html);
    assert_eq!(PreviewFormat::for_path("/a/page.html.md", false), PreviewFormat::Markdown);
    assert_eq!(PreviewFormat::for_path("/a/page.", false), PreviewFormat::Markdown);
    assert_eq!(PreviewFormat::for_path("/a/x.html/..", false), PreviewFormat::Markdown);
}

#[test]
fn verbatim_windows_paths_split_only_at_backslashes() {
    assert_eq!(Document::display_name(Some("\\\\?\\UNC\\server\\share"), true), "Untitled");
    assert_eq!(Document::display_name(Some("\\\\?\\UNC\\server\\share\\a.md"), true), "a.md");
    assert_eq!(Document::display_name(Some("\\\\?\\C:\\docs\\a.md"), true), "a.md");
    assert_eq!(Document::display_name(Some("\\\\?\\C:"), true), "Untitled");
    assert_eq!(Document::display_name(Some("\\\\?\\C:\\a/b.md"), true), "a/b.md");
    assert_eq!(Document::display_name(Some("\\\\?\\C:\\a\\."), true), "Untitled");
    assert_eq!(Document::display_name(Some("\\\\?\\pipe"), true), "Untitled");
    assert_eq!(Document::display_name(Some("C:\\a\\."), true), "a");
    assert_eq!(PreviewFormat::for_path("\\\\?\\C:\\web/page.html", true), PreviewFormat::Html);
    assert_eq!(PreviewFormat::for_path("\\\\?\\C:\\page.html\\.", true), PreviewFormat::Markdown);
}

#[test]
fn bytes_become_a_document_only_when_they_are_utf8() {
    let doc = Document::from_bytes(PathBuf::from("/a/crlf.md"), "/a/crlf.md", false, b"a\r\nb\r\n".to_vec())
        .unwrap();
    assert_eq!(doc.text, "a\r\nb\r\n");
    assert_eq!(doc.path, Some(PathBuf::from("/a/crlf.md")));
    assert_eq!(doc.format, PreviewFormat::Markdown);
    let html = Document::from_bytes(PathBuf::from("/a/p.html"), "/a/p.html", false, b"<p>".to_vec()).unwrap();
    assert_eq!(html.format, PreviewFormat::Html);
    assert!(Document::from_bytes(PathBuf::from("/a/bad.md"), "/a/bad.md", false, vec![0x66, 0xff, 0x6f]).is_none());
    assert!(Document::from_bytes(PathBuf::from("/a/bad.md"), "/a/bad.md", false, vec![0xed, 0xa0, 0x80]).is_none());
}
