use bytes::BytesMut;
use termion::event::{Event, Key, MouseButton, MouseEvent};
use termion_async_input::decoder::{decide, settle, EventsAndRawDecoder, Step};

/// Feeds `chunks` one after another, draining the buffer after each, then
/// ends the input; returns every event with its bytes.
fn run(chunks: &[&[u8]]) -> Vec<(Event, Vec<u8>)> {
    let mut decoder = EventsAndRawDecoder;
    let mut buf = BytesMut::new();
    let mut out = Vec::new();
    for chunk in chunks {
        buf.extend_from_slice(chunk);
        while let Some(item) = decoder.decode(&mut buf) {
            out.push(item);
        }
    }
    while let Some(item) = decoder.decode_eof(&mut buf) {
        out.push(item);
    }
    assert!(buf.is_empty());
    out
}

fn events(items: &[(Event, Vec<u8>)]) -> Vec<Event> {
    items.iter().map(|(e, _)| e.clone()).collect()
}

#[test]
fn empty_buffer_waits() {
    let mut buf = BytesMut::new();
    assert_eq!(EventsAndRawDecoder.decode(&mut buf), None);
    assert_eq!(decide(&[]), Step::Wait);
}

#[test]
fn lone_escape_is_escape_key() {
    let mut buf = BytesMut::from(&[0x1Bu8][..]);
    let got = EventsAndRawDecoder.decode(&mut buf);
    assert_eq!(got, Some((Event::Key(Key::Esc), vec![0x1B])));
    assert!(buf.is_empty());
    assert_eq!(run(&[b"\x1b"]), vec![(Event::Key(Key::Esc), vec![0x1B])]);
}

#[test]
fn rejected_byte_then_key() {
    // a parser that rejects 0xFF outright, having read nothing after it
    assert_eq!(settle(2, (None, 0, false)), Step::Reject(1));
    let mut buf = BytesMut::from(&[0x41u8][..]);
    let got = EventsAndRawDecoder.decode(&mut buf);
    assert_eq!(got, Some((Event::Key(Key::Char('A')), vec![0x41])));
}

#[test]
fn rejected_sequence_is_unsupported_and_decoding_goes_on() {
    let items = run(&[b"\x1bOxy"]);
    assert_eq!(
        items,
        vec![
            (Event::Unsupported(vec![0x1B, b'O', b'x']), vec![0x1B, b'O', b'x']),
            (Event::Key(Key::Char('y')), vec![b'y']),
        ]
    );
}

#[test]
fn truncated_sequence_is_dropped_at_end() {
    let mut buf = BytesMut::from(&b"\x1b["[..]);
    assert_eq!(EventsAndRawDecoder.decode(&mut buf), None);
    assert_eq!(buf.len(), 2);
    assert_eq!(EventsAndRawDecoder.decode_eof(&mut buf), None);
    assert!(buf.is_empty());
    assert_eq!(run(&[b"\x1b[1;5"]), vec![]);
}

#[test]
fn arrow_key_takes_three_bytes() {
    let mut buf = BytesMut::from(&b"\x1b[Ab"[..]);
    let got = EventsAndRawDecoder.decode(&mut buf);
    assert_eq!(got, Some((Event::Key(Key::Up), b"\x1b[A".to_vec())));
    assert_eq!(&buf[..], b"b");
}

#[test]
fn numbered_and_mouse_sequences() {
    let items = run(&[b"\x1b[3~\x1b[<0;10;20M\x1b[M !\"\x1b[1;5D"]);
    assert_eq!(
        events(&items),
        vec![
            Event::Key(Key::Delete),
            Event::Mouse(MouseEvent::Press(MouseButton::Left, 10, 20)),
            Event::Mouse(MouseEvent::Press(MouseButton::Left, 1, 2)),
            Event::Key(Key::CtrlLeft),
        ]
    );
}

#[test]
fn malformed_parameters_are_unsupported() {
    let items = run(&[b"\x1b[1;;5~a"]);
    assert_eq!(
        items,
        vec![
            (Event::Unsupported(b"\x1b[1;;5~".to_vec()), b"\x1b[1;;5~".to_vec()),
            (Event::Key(Key::Char('a')), b"a".to_vec()),
        ]
    );
    let mouse = run(&[b"\x1b[M\x85!!"]);
    assert_eq!(mouse, vec![(Event::Unsupported(b"\x1b[M\x85!!".to_vec()), b"\x1b[M\x85!!".to_vec())]);
    let short = run(&[b"\x1b[<0;1M"]);
    assert_eq!(events(&short), vec![Event::Unsupported(b"\x1b[<0;1M".to_vec())]);
}

#[test]
fn split_utf8_character_waits() {
    let mut buf = BytesMut::from(&[0xC3u8][..]);
    assert_eq!(EventsAndRawDecoder.decode(&mut buf), None);
    buf.extend_from_slice(&[0xA9]);
    let got = EventsAndRawDecoder.decode(&mut buf);
    assert_eq!(got, Some((Event::Key(Key::Char('\u{e9}')), vec![0xC3, 0xA9])));
}

#[test]
fn chunk_boundaries_do_not_change_events() {
    let input: &[u8] = b"\x1b[Aa\x1b[3~\x1b[<0;10;20M\xc3\xa9\x1bOP\x1b[1;5D";
    let whole = run(&[input]);
    let split = run(&[
        b"\x1b[", b"A", b"a\x1b[3", b"~\x1b[<0;1", b"0;20M\xc3", b"\xa9\x1bO", b"P\x1b[1;", b"5D",
    ]);
    assert_eq!(whole, split);
    assert_eq!(whole.len(), 7);
    let mut bytewise: Vec<&[u8]> = Vec::new();
    for i in 0..input.len() {
        // a lone escape byte is taken as the key itself, so escapes travel with the next byte
        if input[i] == 0x1B {
            continue;
        }
        if i > 0 && input[i - 1] == 0x1B {
            bytewise.push(&input[i - 1..i + 1]);
        } else {
            bytewise.push(&input[i..i + 1]);
        }
    }
    assert_eq!(run(&bytewise), whole);
}

#[test]
fn bytes_are_conserved() {
    let input: &[u8] = b"x\x1b[B\x1bOxz\x1b[5~\x1b[";
    let items = run(&[input]);
    let joined: Vec<u8> = items.iter().flat_map(|(_, raw)| raw.clone()).collect();
    assert_eq!(&joined[..], &input[..input.len() - 2]);
}

#[test]
fn settle_covers_each_verdict() {
    assert_eq!(settle(3, (Some(Event::Key(Key::Up)), 2, false)), Step::Emit(Event::Key(Key::Up), 3));
    assert_eq!(settle(4, (Some(Event::Key(Key::Up)), 2, false)), Step::Emit(Event::Key(Key::Up), 3));
    assert_eq!(settle(4, (None, 1, false)), Step::Reject(2));
    assert_eq!(settle(4, (None, 3, false)), Step::Reject(4));
    assert_eq!(settle(4, (None, 3, true)), Step::Wait);
    assert_eq!(settle(1, (None, 0, false)), Step::Wait);
    assert_eq!(settle(1, (Some(Event::Key(Key::Char('a'))), 0, false)), Step::Emit(Event::Key(Key::Char('a')), 1));
    assert_eq!(settle(0, (None, 0, false)), Step::Wait);
}

#[test]
fn failure_on_last_byte_is_unsupported_at_once() {
    let mut buf = BytesMut::from(&b"\x1bOx"[..]);
    let got = EventsAndRawDecoder.decode(&mut buf);
    assert_eq!(got, Some((Event::Unsupported(b"\x1bOx".to_vec()), b"\x1bOx".to_vec())));
    assert!(buf.is_empty());
    let csi = run(&[b"\x1b[X"]);
    assert_eq!(csi, vec![(Event::Unsupported(b"\x1b[X".to_vec()), b"\x1b[X".to_vec())]);
    let bad_utf8 = run(&[&[0xFF, 0x41, 0x42, 0x43]]);
    assert_eq!(bad_utf8, vec![(Event::Unsupported(vec![0xFF, 0x41, 0x42, 0x43]), vec![0xFF, 0x41, 0x42, 0x43])]);
}

#[test]
fn fields_read_as_integers() {
    let items = run(&[b"\x1b[001~\x1b[0+2~\x1b[<0;10;20;zM\x1b[1;+5D\x1b[256~"]);
    assert_eq!(
        events(&items),
        vec![
            Event::Key(Key::Home),
            Event::Unsupported(b"\x1b[0+2~".to_vec()),
            Event::Mouse(MouseEvent::Press(MouseButton::Left, 10, 20)),
            Event::Key(Key::CtrlLeft),
            Event::Unsupported(b"\x1b[256~".to_vec()),
        ]
    );
}

#[test]
fn decide_on_bare_csi_waits() {
    assert_eq!(decide(b"\x1b["), Step::Wait);
    assert_eq!(decide(b"\x1b[<1;2"), Step::Wait);
    assert_eq!(decide(b"\x1b[M a"), Step::Wait);
    assert_eq!(decide(b"\x1bOQ"), Step::Emit(Event::Key(Key::F(2)), 3));
}
