use termion::event::{Event, Key, MouseButton, MouseEvent};
use termion_async_input::chunks::decode_chunks;

#[test]
fn chunked_run_matches_single_chunk() {
    let input = b"\x1b[Aa\x1b[3~\x1b[<0;10;20M\xc3\xa9\x1bOP\x1b[1;5D".to_vec();
    let whole = decode_chunks(&vec![input.clone()]);
    let split = decode_chunks(&vec![
        b"\x1b[".to_vec(),
        Vec::new(),
        b"A".to_vec(),
        b"a\x1b[3".to_vec(),
        b"~\x1b[<0;1".to_vec(),
        b"0;20M\xc3".to_vec(),
        b"\xa9\x1bO".to_vec(),
        b"P\x1b[1;".to_vec(),
        b"5D".to_vec(),
    ]);
    assert_eq!(whole, split);
    let events: Vec<Event> = whole.iter().map(|(e, _)| e.clone()).collect();
    assert_eq!(
        events,
        vec![
            Event::Key(Key::Up),
            Event::Key(Key::Char('a')),
            Event::Key(Key::Delete),
            Event::Mouse(MouseEvent::Press(MouseButton::Left, 10, 20)),
            Event::Key(Key::Char('\u{e9}')),
            Event::Key(Key::F(1)),
            Event::Key(Key::CtrlLeft),
        ]
    );
    let joined: Vec<u8> = whole.iter().flat_map(|(_, raw)| raw.clone()).collect();
    assert_eq!(joined, input);
}

#[test]
fn split_after_lone_escape_gives_escape_key() {
    let split = decode_chunks(&vec![b"\x1b".to_vec(), b"[A".to_vec()]);
    let events: Vec<Event> = split.iter().map(|(e, _)| e.clone()).collect();
    assert_eq!(events[0], Event::Key(Key::Esc));
    let whole = decode_chunks(&vec![b"\x1b[A".to_vec()]);
    assert_eq!(whole, vec![(Event::Key(Key::Up), b"\x1b[A".to_vec())]);
}

#[test]
fn chunked_run_drops_truncated_tail() {
    let items = decode_chunks(&vec![b"q\x1b".to_vec(), b"[".to_vec()]);
    assert_eq!(
        items,
        vec![
            (Event::Key(Key::Char('q')), b"q".to_vec()),
            (Event::Key(Key::Esc), b"\x1b".to_vec()),
            (Event::Key(Key::Char('[')), b"[".to_vec()),
        ]
    );
    let tail = decode_chunks(&vec![b"q".to_vec(), b"\x1b[".to_vec()]);
    assert_eq!(tail, vec![(Event::Key(Key::Char('q')), b"q".to_vec())]);
}

#[test]
fn no_chunks_no_events() {
    assert_eq!(decode_chunks(&Vec::new()), vec![]);
    assert_eq!(decode_chunks(&vec![Vec::new(), Vec::new()]), vec![]);
}

#[test]
fn escape_pair_at_chunk_end_is_no_lone_escape() {
    let split = decode_chunks(&vec![b"\x1b\x1b".to_vec(), b"a".to_vec()]);
    let whole = decode_chunks(&vec![b"\x1b\x1ba".to_vec()]);
    assert_eq!(split, whole);
    assert_eq!(whole[0], (Event::Key(Key::Alt('\x1b')), b"\x1b\x1b".to_vec()));
}
