use jordan_calculus::position::{contains, contains_fuzzy, lines_of, Pos, Span};
use jordan_calculus::server::{header_line, HeaderLine, Message, Reply, Server};

fn span(line: usize, a: usize, b: usize) -> Span {
    Span { start: Pos { line, character: a }, end: Pos { line, character: b } }
}

#[test]
fn definition_reads_the_opened_text() {
    let mut s = Server::new();
    let uri = "file:///x.jc".to_string();
    assert!(matches!(s.handle(Message::Definition { uri: uri.clone(), pos: Pos { line: 0, character: 7 } }), Reply::Null));
    assert!(matches!(s.handle(Message::DidOpen { uri: Some(uri.clone()), text: Some("Jアッ「Jイッア」".to_string()) }), Reply::Silent));
    match s.handle(Message::Definition { uri: uri.clone(), pos: Pos { line: 0, character: 7 } }) {
        Reply::Location { uri: u, span: sp } => {
            assert_eq!(u, uri);
            assert_eq!(sp, span(0, 1, 2));
        }
        _ => panic!("expected a location"),
    }
    assert!(matches!(s.handle(Message::DidChange { uri: Some(uri.clone()), text: Some("Jイッ「Jアッア」".to_string()) }), Reply::Silent));
    match s.handle(Message::Definition { uri: uri.clone(), pos: Pos { line: 0, character: 7 } }) {
        Reply::Location { span: sp, .. } => assert_eq!(sp, span(0, 5, 6)),
        _ => panic!("expected a location"),
    }
    assert_eq!(s.get(&uri).unwrap(), "Jイッ「Jアッア」");
}

#[test]
fn incomplete_document_messages_change_nothing() {
    let mut s = Server::new();
    s.handle(Message::DidOpen { uri: Some("a".to_string()), text: None });
    s.handle(Message::DidChange { uri: None, text: Some("ア".to_string()) });
    assert!(s.get(&"a".to_string()).is_none());
}

#[test]
fn replies_to_other_messages() {
    let mut s = Server::new();
    assert!(matches!(s.handle(Message::Initialize), Reply::Capabilities));
    assert!(matches!(s.handle(Message::Shutdown), Reply::Null));
    assert!(matches!(s.handle(Message::Other { has_id: true }), Reply::Null));
    assert!(matches!(s.handle(Message::Other { has_id: false }), Reply::Silent));
    assert!(matches!(s.handle(Message::Exit), Reply::Stop));
}

#[test]
fn header_lines() {
    assert!(matches!(header_line("Content-Length: 42\r\n"), HeaderLine::ContentLength(Some(42))));
    assert!(matches!(header_line("Content-Length:\t 7 \n"), HeaderLine::ContentLength(Some(7))));
    assert!(matches!(header_line("Content-Length: +7\r\n"), HeaderLine::ContentLength(Some(7))));
    assert!(matches!(header_line("Content-Length: -7\r\n"), HeaderLine::ContentLength(None)));
    assert!(matches!(header_line("Content-Length: +\r\n"), HeaderLine::ContentLength(None)));
    assert!(matches!(header_line("Content-Length: \r\n"), HeaderLine::ContentLength(None)));
    assert!(matches!(header_line("Content-Length: 4x\r\n"), HeaderLine::ContentLength(None)));
    assert!(matches!(header_line("Content-Length: 99999999999999999999999\r\n"), HeaderLine::ContentLength(None)));
    assert!(matches!(header_line("Content-Type: utf-8\r\n"), HeaderLine::Other));
    assert!(matches!(header_line("\r\n"), HeaderLine::End));
    assert!(matches!(header_line("\n"), HeaderLine::End));
}

#[test]
fn content_length_round_trip() {
    for n in [0usize, 9, 10, 1234, usize::MAX] {
        let line = format!("Content-Length: {}\r\n", n);
        assert!(matches!(header_line(&line), HeaderLine::ContentLength(Some(m)) if m == n));
    }
}

#[test]
fn containment() {
    let s = span(2, 4, 6);
    assert!(contains(s, Pos { line: 2, character: 4 }));
    assert!(!contains(s, Pos { line: 2, character: 6 }));
    assert!(contains_fuzzy(s, Pos { line: 2, character: 6 }));
    assert!(contains_fuzzy(s, Pos { line: 2, character: 3 }));
    assert!(!contains_fuzzy(s, Pos { line: 2, character: 2 }));
    assert!(!contains_fuzzy(s, Pos { line: 2, character: 7 }));
    assert!(!contains_fuzzy(s, Pos { line: 1, character: 5 }));
    let multi = Span { start: Pos { line: 1, character: 5 }, end: Pos { line: 3, character: 0 } };
    assert!(contains(multi, Pos { line: 2, character: 100 }));
}

#[test]
fn lines_split_like_str_lines() {
    let chars: Vec<char> = "ab\r\ncd\n\nef\r".chars().collect();
    assert_eq!(lines_of(&chars), vec![(0, 2), (4, 6), (7, 7), (8, 11)]);
    let chars: Vec<char> = "x\n".chars().collect();
    assert_eq!(lines_of(&chars), vec![(0, 1)]);
    assert_eq!(lines_of(&Vec::new()), vec![]);
}
