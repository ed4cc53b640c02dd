//! What goes to and comes from the terminal, as data.
//!
//! Keystrokes arrive one byte at a time, so a multi-byte character shows up in
//! pieces: [`Decoder`] reassembles them. Frames leave as one string wrapped in
//! synchronized-output markers, so terminals that support them present it in
//! one piece instead of tearing mid-repaint. Reading and writing the terminal
//! itself is the caller's business.
use vstd::prelude::*;

use crate::render::{cursor_to, move_to};
use crate::text::{char_from_u32, is_scalar, push_str};

verus! {

/// The escape character that starts every control sequence.
pub const ESC: &'static str = "\x1b";

/// A bar cursor sits in the gap at the left edge of the cell, so the letter
/// you are about to type stays readable. A block cursor covers it.
pub const CARET_BAR: &'static str = "\x1b[5 q";
pub const CARET_DEFAULT: &'static str = "\x1b[0 q";

/// Something arriving from the keyboard.
#[derive(Clone, Copy, Debug, PartialEq, Eq, Structural)]
pub enum Input {
    Key(char),
    /// Standard input ended; there will be nothing more.
    Closed,
}

// ---------------------------------------------------------------------------
// UTF-8, as the Unicode standard's table of well-formed byte sequences gives it.

/// How many bytes a character whose encoding starts with `lead` takes, or 0
/// when no well-formed sequence starts with it.
pub open spec fn encoded_length(lead: u8) -> int {
    if lead <= 0x7F {
        1
    } else if 0xC2 <= lead <= 0xDF {
        2
    } else if 0xE0 <= lead <= 0xEF {
        3
    } else if 0xF0 <= lead <= 0xF4 {
        4
    } else {
        0
    }
}

pub open spec fn is_continuation(byte: u8) -> bool {
    0x80 <= byte <= 0xBF
}

/// The second byte of a sequence: a continuation byte, narrowed after the
/// leads whose full range would allow overlong forms, surrogates or values
/// past U+10FFFF.
pub open spec fn second_byte_fits(lead: u8, byte: u8) -> bool {
    if lead == 0xE0 {
        0xA0 <= byte <= 0xBF
    } else if lead == 0xED {
        0x80 <= byte <= 0x9F
    } else if lead == 0xF0 {
        0x90 <= byte <= 0xBF
    } else if lead == 0xF4 {
        0x80 <= byte <= 0x8F
    } else {
        is_continuation(byte)
    }
}

/// Whether `bytes` is the start, or the whole, of the well-formed encoding of
/// one character.
pub open spec fn well_formed_start(bytes: Seq<u8>) -> bool {
    &&& 1 <= bytes.len() <= encoded_length(bytes[0])
    &&& bytes.len() >= 2 ==> second_byte_fits(bytes[0], bytes[1])
    &&& forall|i: int| 2 <= i < bytes.len() ==> is_continuation(#[trigger] bytes[i])
}

/// Whether `bytes` is the whole well-formed encoding of one character.
pub open spec fn complete(bytes: Seq<u8>) -> bool {
    well_formed_start(bytes) && bytes.len() == encoded_length(bytes[0])
}

/// The code point a complete sequence encodes: six bits from each
/// continuation byte, the rest from the lead.
pub open spec fn code_point(bytes: Seq<u8>) -> int {
    if bytes.len() == 1 {
        bytes[0] as int
    } else if bytes.len() == 2 {
        (bytes[0] - 0xC0) * 64 + (bytes[1] - 0x80)
    } else if bytes.len() == 3 {
        (bytes[0] - 0xE0) * 4096 + (bytes[1] - 0x80) * 64 + (bytes[2] - 0x80)
    } else {
        (bytes[0] - 0xF0) * 262144 + (bytes[1] - 0x80) * 4096 + (bytes[2] - 0x80) * 64 + (bytes[3]
            - 0x80)
    }
}

/// Every complete sequence encodes a scalar value: the table leaves out
/// surrogates and everything past U+10FFFF.
pub proof fn lemma_complete_is_scalar(bytes: Seq<u8>)
    requires
        complete(bytes),
    ensures
        is_scalar(code_point(bytes)),
{
    if bytes.len() == 4 {
        assert(is_continuation(bytes[2]));
        assert(is_continuation(bytes[3]));
    } else if bytes.len() == 3 {
        assert(is_continuation(bytes[2]));
    }
}

/// The bytes of one character, pushed one at a time into a decoder that
/// holds nothing, are held back until the last of them arrives: every proper
/// prefix of a complete sequence is a well-formed start that is not yet
/// complete. With [`Decoder::push`], the character comes out at the last byte
/// and nowhere before.
pub proof fn lemma_prefixes_are_held_back(bytes: Seq<u8>, k: int)
    requires
        complete(bytes),
        1 <= k < bytes.len(),
    ensures
        well_formed_start(bytes.take(k)),
        !complete(bytes.take(k)),
{
    let p = bytes.take(k);
    assert(p[0] == bytes[0]);
    if k >= 2 {
        assert(p[1] == bytes[1]);
    }
    assert forall|i: int| 2 <= i < p.len() implies is_continuation(#[trigger] p[i]) by {
        assert(p[i] == bytes[i]);
    }
}

proof fn lemma_width_1(v: u32)
    by (bit_vector)
    requires
        v <= 0x7F,
    ensures
        (vstd::utf8::leading_byte_width_1(v) as u32) == v,
        vstd::utf8::leading_byte_width_1(v) <= 0x7F,
{
}

proof fn lemma_width_2(v: u32)
    by (bit_vector)
    requires
        0x80 <= v <= 0x7FF,
    ensures
        ({
            let b1 = vstd::utf8::leading_byte_width_2(v);
            let b2 = vstd::utf8::last_continuation_byte(v);
            &&& 0xC2 <= b1 <= 0xDF
            &&& 0x80 <= b2 <= 0xBF
            &&& (b1 as u32 - 0xC0) * 64 + (b2 as u32 - 0x80) == v
        }),
{
}

proof fn lemma_width_3(v: u32)
    by (bit_vector)
    requires
        0x800 <= v <= 0xFFFF,
        !(0xD800 <= v <= 0xDFFF),
    ensures
        ({
            let b1 = vstd::utf8::leading_byte_width_3(v);
            let b2 = vstd::utf8::second_last_continuation_byte(v);
            let b3 = vstd::utf8::last_continuation_byte(v);
            &&& 0xE0 <= b1 <= 0xEF
            &&& 0x80 <= b2 <= 0xBF
            &&& (b1 == 0xE0 ==> 0xA0 <= b2)
            &&& (b1 == 0xED ==> b2 <= 0x9F)
            &&& 0x80 <= b3 <= 0xBF
            &&& (b1 as u32 - 0xE0) * 4096 + (b2 as u32 - 0x80) * 64 + (b3 as u32 - 0x80) == v
        }),
{
}

proof fn lemma_width_4(v: u32)
    by (bit_vector)
    requires
        0x10000 <= v <= 0x10FFFF,
    ensures
        ({
            let b1 = vstd::utf8::leading_byte_width_4(v);
            let b2 = vstd::utf8::third_last_continuation_byte(v);
            let b3 = vstd::utf8::second_last_continuation_byte(v);
            let b4 = vstd::utf8::last_continuation_byte(v);
            &&& 0xF0 <= b1 <= 0xF4
            &&& 0x80 <= b2 <= 0xBF
            &&& (b1 == 0xF0 ==> 0x90 <= b2)
            &&& (b1 == 0xF4 ==> b2 <= 0x8F)
            &&& 0x80 <= b3 <= 0xBF
            &&& 0x80 <= b4 <= 0xBF
            &&& (b1 as u32 - 0xF0) * 262144 + (b2 as u32 - 0x80) * 4096 + (b3 as u32 - 0x80) * 64 + (
            b4 as u32 - 0x80) == v
        }),
{
}

/// The UTF-8 encoding of every character is a complete sequence of the table
/// above, and encodes that character: pushed a byte at a time into a decoder
/// that holds nothing, it comes back out as the character at its last byte,
/// and not before (see [`lemma_prefixes_are_held_back`]).
pub proof fn lemma_every_char_encodes_completely(c: char)
    ensures
        complete(vstd::utf8::encode_scalar(c as u32)),
        code_point(vstd::utf8::encode_scalar(c as u32)) == c as u32,
{
    let v = c as u32;
    vstd::utf8::char_is_scalar(c);
    let bytes = vstd::utf8::encode_scalar(v);
    if vstd::utf8::has_width_1_encoding(v) {
        lemma_width_1(v);
    } else if vstd::utf8::has_width_2_encoding(v) {
        lemma_width_2(v);
    } else if vstd::utf8::has_width_3_encoding(v) {
        lemma_width_3(v);
        assert(is_continuation(bytes[2]));
    } else {
        lemma_width_4(v);
        assert(is_continuation(bytes[2]));
        assert(is_continuation(bytes[3]));
    }
}

/// The code point of a character that came out, if one did.
pub open spec fn code_of(r: Option<char>) -> Option<int> {
    match r {
        Some(c) => Some(c as u32 as int),
        None => None,
    }
}

/// What one byte does to the bytes held back: the code point it completes,
/// if any, and what is held back after it.
pub open spec fn push_step(pending: Seq<u8>, byte: u8) -> (Option<int>, Seq<u8>) {
    let bytes = pending.push(byte);
    if complete(bytes) {
        (Some(code_point(bytes)), Seq::empty())
    } else if well_formed_start(bytes) {
        (None, bytes)
    } else {
        (None, Seq::empty())
    }
}

/// Bytes pushed one at a time after `pending`: what came out at each byte,
/// and what is held back at the end.
pub open spec fn feed(pending: Seq<u8>, bytes: Seq<u8>) -> (Seq<Option<int>>, Seq<u8>)
    decreases bytes.len(),
{
    if bytes.len() == 0 {
        (Seq::empty(), pending)
    } else {
        let (out, rest) = feed(pending, bytes.drop_last());
        let (last, after) = push_step(rest, bytes.last());
        (out.push(last), after)
    }
}

proof fn lemma_feed_prefix(bytes: Seq<u8>, k: int)
    requires
        complete(bytes),
        0 <= k < bytes.len(),
    ensures
        feed(Seq::empty(), bytes.take(k)).1 == bytes.take(k),
        feed(Seq::empty(), bytes.take(k)).0 == Seq::new(k as nat, |i: int| None::<int>),
    decreases k,
{
    if k == 0 {
        assert(bytes.take(0) =~= Seq::<u8>::empty());
        assert(Seq::new(0, |i: int| None::<int>) =~= Seq::<Option<int>>::empty());
    } else {
        lemma_feed_prefix(bytes, k - 1);
        let t = bytes.take(k);
        assert(t.drop_last() =~= bytes.take(k - 1));
        assert(bytes.take(k - 1).push(t.last()) =~= t);
        lemma_prefixes_are_held_back(bytes, k);
        assert(Seq::new((k - 1) as nat, |i: int| None::<int>).push(None) =~= Seq::new(k as nat, |i: int| None::<int>));
    }
}

/// The UTF-8 bytes of any character, pushed one at a time into a decoder
/// that holds nothing, give nothing until the last byte, which gives the
/// character, and leave nothing held back.
pub proof fn lemma_a_character_comes_back(c: char)
    ensures
        ({
            let bytes = vstd::utf8::encode_scalar(c as u32);
            let (out, rest) = feed(Seq::empty(), bytes);
            &&& out.len() == bytes.len()
            &&& forall|i: int| 0 <= i < out.len() - 1 ==> out[i] is None
            &&& out[out.len() - 1] == Some(c as u32 as int)
            &&& rest == Seq::<u8>::empty()
        }),
{
    let bytes = vstd::utf8::encode_scalar(c as u32);
    lemma_every_char_encodes_completely(c);
    let n = bytes.len() as int;
    lemma_feed_prefix(bytes, n - 1);
    assert(bytes.drop_last() =~= bytes.take(n - 1));
    assert(bytes.take(n - 1).push(bytes.last()) =~= bytes);
}

/// A byte that cannot start or continue a character is dropped together
/// with whatever was held back, so the next character starts afresh.
pub proof fn lemma_a_stray_byte_clears(pending: Seq<u8>)
    ensures
        push_step(pending, 0xFF) == (None::<int>, Seq::<u8>::empty()),
{
    let bytes = pending.push(0xFF);
    if pending.len() == 1 {
        assert(bytes[1] == 0xFF);
    } else if pending.len() >= 2 {
        assert(bytes[bytes.len() - 1] == 0xFF);
        assert(!is_continuation(bytes[bytes.len() - 1]));
    }
}

/// Reassembles UTF-8 characters from a stream of single bytes.
///
/// Anything that is not valid UTF-8 is dropped rather than guessed at.
#[derive(Debug)]
pub struct Decoder {
    pending: Vec<u8>,
}

impl Decoder {
    /// The bytes of a character still waiting for the rest of it.
    pub closed spec fn pending(&self) -> Seq<u8> {
        self.pending@
    }

    /// What is held back is always the unfinished start of one character.
    pub open spec fn wf(&self) -> bool {
        self.pending().len() == 0 || (well_formed_start(self.pending()) && !complete(
            self.pending(),
        ))
    }

    /// A decoder with nothing held back.
    pub fn new() -> (d: Decoder)
        ensures
            d.pending() == Seq::<u8>::empty(),
            d.wf(),
    {
        Decoder { pending: Vec::new() }
    }

    /// Takes the next byte. A character comes out once its last byte is in;
    /// a byte that cannot continue what is held back is dropped together with
    /// it.
    pub fn push(&mut self, byte: u8) -> (r: Option<char>)
        requires
            old(self).wf(),
        ensures
            final(self).wf(),
            ({
                let bytes = old(self).pending().push(byte);
                if complete(bytes) {
                    &&& r matches Some(c) && c as u32 == code_point(bytes)
                    &&& final(self).pending() == Seq::<u8>::empty()
                } else if well_formed_start(bytes) {
                    &&& r is None
                    &&& final(self).pending() == bytes
                } else {
                    &&& r is None
                    &&& final(self).pending() == Seq::<u8>::empty()
                }
            }),
            push_step(old(self).pending(), byte) == (code_of(r), final(self).pending()),
    {
        let ghost before = self.pending@;
        self.pending.push(byte);
        let ghost bytes = self.pending@;
        assert(bytes == before.push(byte));
        let count = self.pending.len();
        let lead = self.pending[0];
        let need: usize = if lead <= 0x7F {
            1
        } else if 0xC2 <= lead && lead <= 0xDF {
            2
        } else if 0xE0 <= lead && lead <= 0xEF {
            3
        } else if 0xF0 <= lead && lead <= 0xF4 {
            4
        } else {
            0
        };
        let fits = if count == 1 {
            need != 0
        } else if count == 2 {
            let second = self.pending[1];
            if lead == 0xE0 {
                0xA0 <= second && second <= 0xBF
            } else if lead == 0xED {
                0x80 <= second && second <= 0x9F
            } else if lead == 0xF0 {
                0x90 <= second && second <= 0xBF
            } else if lead == 0xF4 {
                0x80 <= second && second <= 0x8F
            } else {
                0x80 <= second && second <= 0xBF
            }
        } else {
            0x80 <= byte && byte <= 0xBF
        };
        proof {
            if before.len() > 0 {
                assert(before[0] == bytes[0]);
                assert(before.len() < encoded_length(before[0]));
                if before.len() >= 2 {
                    assert(bytes[1] == before[1]);
                }
                assert forall|i: int| 2 <= i < before.len() implies is_continuation(
                    #[trigger] bytes[i],
                ) by {
                    assert(bytes[i] == before[i]);
                }
            }
            assert(bytes[count - 1] == byte);
            assert(fits == well_formed_start(bytes));
        }
        if !fits {
            self.pending = Vec::new();
            return None;
        }
        if count < need {
            return None;
        }
        let value: u32 = if count == 1 {
            lead as u32
        } else if count == 2 {
            (lead as u32 - 0xC0) * 64 + (self.pending[1] as u32 - 0x80)
        } else if count == 3 {
            (lead as u32 - 0xE0) * 4096 + (self.pending[1] as u32 - 0x80) * 64 + (
            self.pending[2] as u32 - 0x80)
        } else {
            assert(is_continuation(bytes[2]));
            (lead as u32 - 0xF0) * 262144 + (self.pending[1] as u32 - 0x80) * 4096 + (
            self.pending[2] as u32 - 0x80) * 64 + (self.pending[3] as u32 - 0x80)
        };
        proof {
            assert(complete(bytes));
            assert(value as int == code_point(bytes));
            lemma_complete_is_scalar(bytes);
        }
        self.pending = Vec::new();
        match char_from_u32(value) {
            Some(c) => Some(c),
            None => None,
        }
    }
}

impl Default for Decoder {
    fn default() -> (d: Decoder)
        ensures
            d.pending() == Seq::<u8>::empty(),
    {
        Decoder::new()
    }
}

// ---------------------------------------------------------------------------
// Output.

/// The sequence that switches to the alternate screen buffer, hides the
/// cursor, clears the screen and sets a bar caret.
pub open spec fn enter_spec() -> Seq<char> {
    ESC@ + "[?1049h"@ + ESC@ + "[?25l"@ + ESC@ + "[2J"@ + CARET_BAR@
}

/// The sequence that shows the cursor again, restores the caret shape, leaves
/// the alternate screen and resets colours.
pub open spec fn leave_spec() -> Seq<char> {
    ESC@ + "[?25h"@ + CARET_DEFAULT@ + ESC@ + "[?1049l"@ + ESC@ + "[0m"@
}

/// The alternate screen buffer. Whoever holds one writes
/// [`AltScreen::leave_sequence`] when done with it.
#[derive(Debug)]
pub struct AltScreen;

impl AltScreen {
    /// Switches to the alternate screen buffer and hides the cursor: the
    /// screen, and the text to write to the terminal to get there.
    pub fn enter() -> (r: (AltScreen, String))
        ensures
            r.1@ == enter_spec(),
    {
        let mut out = String::new();
        push_str(&mut out, ESC);
        push_str(&mut out, "[?1049h");
        push_str(&mut out, ESC);
        push_str(&mut out, "[?25l");
        push_str(&mut out, ESC);
        push_str(&mut out, "[2J");
        push_str(&mut out, CARET_BAR);
        (AltScreen, out)
    }

    /// The text that leaves the alternate screen again.
    pub fn leave_sequence(&self) -> (s: String)
        ensures
            s@ == leave_spec(),
    {
        let mut out = String::new();
        push_str(&mut out, ESC);
        push_str(&mut out, "[?25h");
        push_str(&mut out, CARET_DEFAULT);
        push_str(&mut out, ESC);
        push_str(&mut out, "[?1049l");
        push_str(&mut out, ESC);
        push_str(&mut out, "[0m");
        out
    }
}

/// A frame wrapped for painting: synchronized output on, cursor home, screen
/// cleared, the frame, then the caret placed and shown (or the cursor hidden
/// when there is no caret), and synchronized output off.
pub open spec fn paint_spec(frame: Seq<char>, caret: Option<(usize, usize)>) -> Seq<char> {
    ESC@ + "[?2026h"@ + ESC@ + "[H"@ + ESC@ + "[2J"@ + frame + match caret {
        Some((row, column)) => cursor_to(row as nat, column as nat) + ESC@ + "[?25h"@,
        None => ESC@ + "[?25l"@,
    } + ESC@ + "[?2026l"@
}

/// The text that paints a frame, with the caret at a 1-indexed `(row,
/// column)` or hidden.
pub fn paint(frame: &str, caret: Option<(usize, usize)>) -> (s: String)
    ensures
        s@ == paint_spec(frame@, caret),
{
    let mut out = String::new();
    push_str(&mut out, ESC);
    push_str(&mut out, "[?2026h");
    push_str(&mut out, ESC);
    push_str(&mut out, "[H");
    push_str(&mut out, ESC);
    push_str(&mut out, "[2J");
    push_str(&mut out, frame);
    match caret {
        Some((row, column)) => {
            let to = move_to(row, column);
            push_str(&mut out, to.as_str());
            push_str(&mut out, ESC);
            push_str(&mut out, "[?25h");
        },
        None => {
            push_str(&mut out, ESC);
            push_str(&mut out, "[?25l");
        },
    }
    push_str(&mut out, ESC);
    push_str(&mut out, "[?2026l");
    proof {
        assert(out@ =~= paint_spec(frame@, caret));
    }
    out
}

} // verus!
