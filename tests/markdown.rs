use pdf_viewer::clean_markdown_text;

#[test]
fn markdown_marks_are_removed() {
    assert_eq!(clean_markdown_text("# Title\n**bold** and *it* `code`\n"), "Title\nbold and it code");
}

#[test]
fn crlf_lines_and_outer_space_are_trimmed() {
    assert_eq!(clean_markdown_text("## A  \r\n  B\r\n"), "A\nB");
    assert_eq!(clean_markdown_text("  \n  x  \n\n"), "x");
    assert_eq!(clean_markdown_text(""), "");
    assert_eq!(clean_markdown_text("a\n\nb"), "a\n\nb");
    assert_eq!(clean_markdown_text("### **"), "");
}
