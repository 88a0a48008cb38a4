use cfgreader::stream::CharStream;
use cfgreader::stream::StringCharStream;

#[test]
fn char_stream_test() {
    let s = &"line1\nline2\nline3\nabc".to_string();
    let mut s = StringCharStream::new(s);

    assert_eq!(s.get_line(), Some("line1\n".to_string()));
    assert_eq!(s.get_line(), Some("line2\n".to_string()));
    assert_eq!(s.get_line(), Some("line3\n".to_string()));
    assert_eq!(s.get_char(), Some('a'));
    assert_eq!(s.get_char(), Some('b'));
    assert_eq!(s.get_char(), Some('c'));
    assert_eq!(s.get_char(), None);
    assert_eq!(s.get_line(), None);
}

#[test]
fn get_line_two_lines_then_exhaustion() {
    let text = "a\nb\n".to_string();
    let mut s = StringCharStream::new(&text);
    assert_eq!(s.get_line(), Some("a\n".to_string()));
    assert_eq!(s.get_line(), Some("b\n".to_string()));
    assert_eq!(s.get_line(), None);
    assert_eq!(s.get_line(), None);
}

#[test]
fn get_line_without_trailing_newline() {
    let text = "abc".to_string();
    let mut s = StringCharStream::new(&text);
    assert_eq!(s.get_line(), Some("abc".to_string()));
    assert_eq!(s.get_line(), None);
}

#[test]
fn get_line_lone_newline_is_a_line() {
    let text = "\n".to_string();
    let mut s = StringCharStream::new(&text);
    assert_eq!(s.get_line(), Some("\n".to_string()));
    assert_eq!(s.get_line(), None);
}

#[test]
fn get_char_walks_the_text() {
    let text = "hi".to_string();
    let mut s = StringCharStream::new(&text);
    assert_eq!(s.get_char(), Some('h'));
    assert_eq!(s.get_char(), Some('i'));
    assert_eq!(s.get_char(), None);
    assert_eq!(s.get_char(), None);
}
