use typr::terminal::{paint, AltScreen, Decoder, Input};

#[test]
fn ascii_arrives_one_character_at_a_time() {
    let mut decoder = Decoder::default();

    assert_eq!(decoder.push(b'a'), Some('a'));
    assert_eq!(decoder.push(b'b'), Some('b'));
}

#[test]
fn a_multi_byte_character_is_reassembled_from_its_pieces() {
    let mut decoder = Decoder::default();
    let bytes = "é".as_bytes();

    assert_eq!(bytes.len(), 2);
    assert_eq!(decoder.push(bytes[0]), None);
    assert_eq!(decoder.push(bytes[1]), Some('é'));
}

#[test]
fn a_four_byte_character_is_reassembled_too() {
    let mut decoder = Decoder::default();
    let bytes = "🦀".as_bytes();

    assert_eq!(bytes.len(), 4);
    assert_eq!(decoder.push(bytes[0]), None);
    assert_eq!(decoder.push(bytes[1]), None);
    assert_eq!(decoder.push(bytes[2]), None);
    assert_eq!(decoder.push(bytes[3]), Some('🦀'));
}

#[test]
fn invalid_bytes_are_dropped_rather_than_guessed_at() {
    let mut decoder = Decoder::default();

    assert_eq!(decoder.push(0xFF), None);
    // The decoder recovers: the next good byte still reads as itself.
    assert_eq!(decoder.push(b'a'), Some('a'));
}

#[test]
fn a_truncated_sequence_does_not_swallow_the_stream() {
    let mut decoder = Decoder::default();

    // The lead byte of a four-byte character, then nonsense.
    decoder.push(0xF0);
    decoder.push(0x9F);
    decoder.push(0x9F);
    decoder.push(0x9F);

    assert_eq!(decoder.push(b'x'), Some('x'));
}

#[test]
fn escape_and_control_bytes_pass_straight_through() {
    let mut decoder = Decoder::default();

    assert_eq!(decoder.push(0x1b), Some('\x1b'));
    assert_eq!(decoder.push(0x7f), Some('\x7f'));
    assert_eq!(decoder.push(b'\t'), Some('\t'));
}

#[test]
fn every_character_decodes_back_to_itself() {
    for character in ['a', 'é', 'ß', '€', '한', '𝄞', '\u{10FFFF}', '\u{D7FF}', '\u{E000}'] {
        let mut decoder = Decoder::new();
        let mut buffer = [0u8; 4];
        let bytes = character.encode_utf8(&mut buffer).as_bytes();

        for byte in &bytes[..bytes.len() - 1] {
            assert_eq!(decoder.push(*byte), None);
        }

        assert_eq!(decoder.push(bytes[bytes.len() - 1]), Some(character));
    }
}

#[test]
fn an_encoded_surrogate_is_refused() {
    let mut decoder = Decoder::new();

    // ED A0 80 would be U+D800, which is not a character.
    assert_eq!(decoder.push(0xED), None);
    assert_eq!(decoder.push(0xA0), None);
    assert_eq!(decoder.push(0x80), None);
    assert_eq!(decoder.push(b'z'), Some('z'));
}

#[test]
fn an_overlong_form_is_refused() {
    let mut decoder = Decoder::new();

    // C0 AF would be an overlong '/'.
    assert_eq!(decoder.push(0xC0), None);
    assert_eq!(decoder.push(0xAF), None);
    assert_eq!(decoder.push(b'/'), Some('/'));
}

#[test]
fn a_lone_continuation_byte_is_dropped() {
    let mut decoder = Decoder::new();

    assert_eq!(decoder.push(0x80), None);
    assert_eq!(decoder.push(b'q'), Some('q'));
}

#[test]
fn an_interrupted_character_drops_the_interrupting_byte_too() {
    let mut decoder = Decoder::new();

    assert_eq!(decoder.push(0xC3), None);
    assert_eq!(decoder.push(b'a'), None);
    assert_eq!(decoder.push(b'b'), Some('b'));
}

#[test]
fn a_frame_is_wrapped_in_synchronized_output() {
    assert_eq!(
        paint("hi", None),
        "\x1b[?2026h\x1b[H\x1b[2Jhi\x1b[?25l\x1b[?2026l"
    );
    assert_eq!(
        paint("hi", Some((3, 12))),
        "\x1b[?2026h\x1b[H\x1b[2Jhi\x1b[3;12H\x1b[?25h\x1b[?2026l"
    );
}

#[test]
fn the_alternate_screen_is_entered_and_left() {
    let (screen, enter) = AltScreen::enter();

    assert_eq!(enter, "\x1b[?1049h\x1b[?25l\x1b[2J\x1b[5 q");
    assert_eq!(screen.leave_sequence(), "\x1b[?25h\x1b[0 q\x1b[?1049l\x1b[0m");
}

#[test]
fn inputs_compare_by_value() {
    assert_eq!(Input::Key('a'), Input::Key('a'));
    assert_ne!(Input::Key('a'), Input::Closed);
}
