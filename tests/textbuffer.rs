use semrep::editing::textbuffer::TextBuffer;
use semrep::error::ErrorKind;

#[test]
fn buffer_add() {
    let mut tb = TextBuffer::new();
    tb.add("hello");
    tb.add(" world!");
    assert_eq!("hello world!", tb.read());
    assert_eq!("hello world!", tb.consume());
}

#[test]
fn buffer_replace() {
    let mut tb = TextBuffer::new();
    tb.add("hello world!");
    tb.replace(1, 3, "ooooo").unwrap();
    assert_eq!("hoooooo world!", tb.read());
    tb.replace(0, 1, "b").unwrap();
    assert_eq!("boooooo world!", tb.read());
    tb.replace(13, 1, "?").unwrap();
    assert_eq!("boooooo world?", tb.read());
}

#[test]
fn buffer_replace_at_end_succeeds() {
    let mut tb = TextBuffer::new();
    tb.add("abc");
    assert!(tb.replace(1, 2, "XY").is_ok());
    assert_eq!("aXY", tb.read());
    assert!(tb.replace(3, 0, "!").is_ok());
    assert_eq!("aXY!", tb.read());
}

#[test]
fn buffer_replace_past_end_fails() {
    let mut tb = TextBuffer::new();
    tb.add("abc");
    assert_eq!(tb.replace(2, 2, "z"), Err(ErrorKind::BufferBounds));
    assert_eq!(tb.get(4, 0), Err(ErrorKind::BufferBounds));
    assert_eq!("abc", tb.read());
}

#[test]
fn buffer_get_reads_range() {
    let mut tb = TextBuffer::new();
    tb.add("héllo");
    assert_eq!(tb.get(1, 3).unwrap(), "éll");
    assert_eq!(tb.len(), 5);
}
