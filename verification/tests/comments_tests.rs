use typeforge::comments::strip_comments;

#[test]
fn comment_lines_keep_their_breaks_and_blank_lines_go() {
    let source = "a /* x\ny */ b\n\n  c  \n";
    // The comment spans bytes 2..11; its line break stays.
    let stripped = strip_comments(source, &vec![(2, 11)]);
    assert_eq!(stripped, "a\n b\n  c");
}

#[test]
fn text_without_comments_only_loses_blank_lines_and_trailing_spaces() {
    assert_eq!(strip_comments("x  \n\n\ty\r\n", &vec![]), "x\n\ty");
    assert_eq!(strip_comments("", &vec![]), "");
}

#[test]
fn multibyte_text_before_a_comment_is_kept() {
    let source = "é = 1; // note";
    let start = source.find("//").unwrap();
    assert_eq!(strip_comments(source, &vec![(start, source.len())]), "é = 1;");
}
