//! The wire format: one datagram is one message, written as compact text.
//!
//! A heartbeat is the quoted word `"Heartbeat"`. A position is
//! `{"Positional":[x,y,z]}` with the three coordinates in decimal. There is
//! no white space, no length prefix and no version field, and every message
//! has exactly one encoding: [`decode`] accepts that encoding and nothing
//! else.

use crate::decimal::{
    i32_of_text, int_text, is_number_byte, lemma_i32_of_text, lemma_i32_text_len,
    lemma_int_text_shape, lemma_run_end, lemma_run_end_bounds, parse_i32, push_i32, run_end,
    scan_number,
};
use crate::message::{IVec3, Message};
use vstd::prelude::*;

verus! {

/// ASCII `,`.
pub const COMMA: u8 = 0x2c;

/// The longest encoding of any message, in bytes: a position whose three
/// coordinates each take a sign and ten digits.
pub const MAX_ENCODED_LEN: usize = 52;

/// The text of a heartbeat: `"Heartbeat"`, quotes included.
pub open spec fn heartbeat_text() -> Seq<u8> {
    seq![
        0x22u8,  // "
        0x48, 0x65, 0x61, 0x72, 0x74,  // Heart
        0x62, 0x65, 0x61, 0x74,  // beat
        0x22,  // "
    ]
}

/// What a position starts with: `{"Positional":[`.
pub open spec fn positional_open() -> Seq<u8> {
    seq![
        0x7bu8, 0x22,  // {"
        0x50, 0x6f, 0x73, 0x69, 0x74,  // Posit
        0x69, 0x6f, 0x6e, 0x61, 0x6c,  // ional
        0x22, 0x3a, 0x5b,  // ":[
    ]
}

/// What a position ends with: `]}`.
pub open spec fn positional_close() -> Seq<u8> {
    seq![0x5du8, 0x7d]
}

/// The text of a position.
pub open spec fn positional_text(p: IVec3) -> Seq<u8> {
    positional_open() + int_text(p.x as int) + seq![COMMA] + int_text(p.y as int) + seq![COMMA]
        + int_text(p.z as int) + positional_close()
}

/// The bytes that stand for `message` on the wire.
pub open spec fn encode_spec(message: Message) -> Seq<u8> {
    match message {
        Message::Heartbeat => heartbeat_text(),
        Message::Positional(p) => positional_text(p),
    }
}

/// Whether `bytes` is the encoding of some message.
pub open spec fn is_encoding(bytes: Seq<u8>) -> bool {
    exists|m: Message| bytes == encode_spec(m)
}

/// The message that `bytes` encodes, if there is one.
pub open spec fn decode_spec(bytes: Seq<u8>) -> Option<Message> {
    if is_encoding(bytes) {
        Some(choose|m: Message| bytes == encode_spec(m))
    } else {
        None
    }
}

/// Where the parts of a position's text lie.
proof fn lemma_positional_layout(p: IVec3)
    ensures
        ({
            let t = positional_text(p);
            let x_end: int = 15int + int_text(p.x as int).len();
            let y_end: int = x_end + 1 + int_text(p.y as int).len();
            let z_end: int = y_end + 1 + int_text(p.z as int).len();
            &&& t.len() == z_end + 2
            &&& t.subrange(0, 15) == positional_open()
            &&& t.subrange(15, x_end) == int_text(p.x as int)
            &&& t[x_end] == COMMA
            &&& t.subrange(x_end + 1, y_end) == int_text(p.y as int)
            &&& t[y_end] == COMMA
            &&& t.subrange(y_end + 1, z_end) == int_text(p.z as int)
            &&& t.subrange(z_end, z_end + 2) == positional_close()
        }),
{
    let t = positional_text(p);
    let tx = int_text(p.x as int);
    let ty = int_text(p.y as int);
    let tz = int_text(p.z as int);
    let x_end: int = 15int + tx.len();
    let y_end: int = x_end + 1 + ty.len();
    let z_end: int = y_end + 1 + tz.len();
    assert(positional_open().len() == 15);
    assert(t.subrange(0, 15) =~= positional_open());
    assert(t.subrange(15, x_end) =~= tx);
    assert(t.subrange(x_end + 1, y_end) =~= ty);
    assert(t.subrange(y_end + 1, z_end) =~= tz);
    assert(t.subrange(z_end, z_end + 2) =~= positional_close());
}

/// What reading `bytes` as a position gives, step by step: the opening,
/// three runs of number bytes with a comma behind the first two, and the
/// closing behind the third, each run the text of a 32-bit integer.
spec fn parse_positional(bytes: Seq<u8>) -> Option<IVec3> {
    let x_end = run_end(bytes, 15);
    let y_end = run_end(bytes, x_end + 1);
    let z_end = run_end(bytes, y_end + 1);
    let x = i32_of_text(bytes.subrange(15, x_end));
    let y = i32_of_text(bytes.subrange(x_end + 1, y_end));
    let z = i32_of_text(bytes.subrange(y_end + 1, z_end));
    if bytes.len() >= 15 && bytes.subrange(0, 15) == positional_open() && x_end < bytes.len()
        && bytes[x_end] == COMMA && y_end < bytes.len() && bytes[y_end] == COMMA && z_end + 2
        == bytes.len() && bytes.subrange(z_end, z_end + 2) == positional_close() && x is Some
        && y is Some && z is Some {
        Some(IVec3 { x: x->0, y: y->0, z: z->0 })
    } else {
        None
    }
}

/// The run of number bytes at `start` is the number's text, if that text
/// stands there with a byte behind it that no number holds.
proof fn lemma_token_end(b: Seq<u8>, start: int, text: Seq<u8>)
    requires
        0 <= start,
        start + text.len() < b.len(),
        b.subrange(start, start + text.len()) == text,
        forall|i: int| 0 <= i < text.len() ==> is_number_byte(#[trigger] text[i]),
        !is_number_byte(b[start + text.len()]),
    ensures
        run_end(b, start) == start + text.len(),
{
    let end = start + text.len();
    assert forall|k: int| start <= k < end implies is_number_byte(#[trigger] b[k]) by {
        assert(b[k] == text[k - start]);
    }
    lemma_run_end(b, start, end);
}

/// Reading the text of a position gives the position.
proof fn lemma_parse_complete(p: IVec3)
    ensures
        parse_positional(positional_text(p)) == Some(p),
{
    let b = positional_text(p);
    lemma_positional_layout(p);
    lemma_int_text_shape(p.x as int);
    lemma_int_text_shape(p.y as int);
    lemma_int_text_shape(p.z as int);
    lemma_i32_of_text(p.x);
    lemma_i32_of_text(p.y);
    lemma_i32_of_text(p.z);
    let x_end: int = 15int + int_text(p.x as int).len();
    let y_end: int = x_end + 1 + int_text(p.y as int).len();
    let z_end: int = y_end + 1 + int_text(p.z as int).len();
    lemma_token_end(b, 15, int_text(p.x as int));
    lemma_token_end(b, x_end + 1, int_text(p.y as int));
    assert(b[z_end] == positional_close()[0]) by {
        assert(b.subrange(z_end, z_end + 2)[0] == b[z_end]);
    }
    lemma_token_end(b, y_end + 1, int_text(p.z as int));
}

/// Bytes that read as a position are that position's text.
proof fn lemma_parse_sound(bytes: Seq<u8>)
    requires
        parse_positional(bytes) is Some,
    ensures
        bytes == positional_text(parse_positional(bytes)->0),
{
    let p = parse_positional(bytes)->0;
    let x_end = run_end(bytes, 15);
    let y_end = run_end(bytes, x_end + 1);
    let z_end = run_end(bytes, y_end + 1);
    lemma_run_end_bounds(bytes, 15);
    lemma_run_end_bounds(bytes, x_end + 1);
    lemma_run_end_bounds(bytes, y_end + 1);
    let tx = bytes.subrange(15, x_end);
    let ty = bytes.subrange(x_end + 1, y_end);
    let tz = bytes.subrange(y_end + 1, z_end);
    assert(tx == int_text(p.x as int));
    assert(ty == int_text(p.y as int));
    assert(tz == int_text(p.z as int));
    assert(bytes =~= bytes.subrange(0, 15) + tx + seq![COMMA] + ty + seq![COMMA] + tz
        + bytes.subrange(z_end, z_end + 2));
}

/// What reading `bytes` as a message gives, step by step.
spec fn parse_message(bytes: Seq<u8>) -> Option<Message> {
    if bytes == heartbeat_text() {
        Some(Message::Heartbeat)
    } else {
        match parse_positional(bytes) {
            Some(p) => Some(Message::Positional(p)),
            None => None,
        }
    }
}

/// Reading step by step finds exactly the message that the bytes encode.
proof fn lemma_parse_is_decode(bytes: Seq<u8>)
    ensures
        parse_message(bytes) == decode_spec(bytes),
{
    match parse_message(bytes) {
        Some(Message::Heartbeat) => {
            lemma_round_trip(Message::Heartbeat);
        },
        Some(Message::Positional(p)) => {
            lemma_parse_sound(bytes);
            lemma_round_trip(Message::Positional(p));
        },
        None => {
            assert forall|m: Message| bytes != encode_spec(m) by {
                if let Message::Positional(p) = m {
                    lemma_parse_complete(p);
                }
            }
        },
    }
}

/// No two messages share an encoding.
pub proof fn lemma_encode_injective(a: Message, b: Message)
    requires
        encode_spec(a) == encode_spec(b),
    ensures
        a == b,
{
    match (a, b) {
        (Message::Heartbeat, Message::Heartbeat) => {},
        (Message::Heartbeat, Message::Positional(q)) => {
            assert(heartbeat_text()[0] == 0x22);
            assert(positional_text(q)[0] == positional_open()[0]);
        },
        (Message::Positional(p), Message::Heartbeat) => {
            assert(heartbeat_text()[0] == 0x22);
            assert(positional_text(p)[0] == positional_open()[0]);
        },
        (Message::Positional(p), Message::Positional(q)) => {
            lemma_parse_complete(p);
            lemma_parse_complete(q);
        },
    }
}

/// Decoding what was encoded gives the message back.
pub proof fn lemma_round_trip(message: Message)
    ensures
        decode_spec(encode_spec(message)) == Some(message),
{
    let bytes = encode_spec(message);
    assert(is_encoding(bytes));
    let m = choose|m: Message| bytes == encode_spec(m);
    lemma_encode_injective(message, m);
}

/// Bytes decode to a message exactly if they are that message's encoding;
/// all other bytes decode to nothing.
pub proof fn lemma_decode_exact(bytes: Seq<u8>, message: Message)
    ensures
        decode_spec(bytes) == Some(message) <==> bytes == encode_spec(message),
        decode_spec(bytes) is None <==> !is_encoding(bytes),
{
    if bytes == encode_spec(message) {
        lemma_round_trip(message);
    }
}

/// An encoding is never empty and never longer than [`MAX_ENCODED_LEN`].
pub proof fn lemma_encoded_len(message: Message)
    ensures
        11 <= encode_spec(message).len() <= MAX_ENCODED_LEN,
{
    match message {
        Message::Heartbeat => {},
        Message::Positional(p) => {
            lemma_positional_layout(p);
            lemma_i32_text_len(p.x);
            lemma_i32_text_len(p.y);
            lemma_i32_text_len(p.z);
        },
    }
}

/// Bytes that are longer than any encoding decode to nothing: what a
/// receive buffer had to cut off is never mistaken for a message.
pub proof fn lemma_too_long_to_decode(bytes: Seq<u8>)
    requires
        bytes.len() > MAX_ENCODED_LEN,
    ensures
        decode_spec(bytes) is None,
{
    assert forall|m: Message| bytes != encode_spec(m) by {
        lemma_encoded_len(m);
    }
}

fn heartbeat_bytes() -> (a: [u8; 11])
    ensures
        a@ == heartbeat_text(),
{
    let a: [u8; 11] = [
        0x22,  // "
        0x48, 0x65, 0x61, 0x72, 0x74,  // Heart
        0x62, 0x65, 0x61, 0x74,  // beat
        0x22,  // "
    ];
    assert(a@ =~= heartbeat_text());
    a
}

fn positional_open_bytes() -> (a: [u8; 15])
    ensures
        a@ == positional_open(),
{
    let a: [u8; 15] = [
        0x7b, 0x22,  // {"
        0x50, 0x6f, 0x73, 0x69, 0x74,  // Posit
        0x69, 0x6f, 0x6e, 0x61, 0x6c,  // ional
        0x22, 0x3a, 0x5b,  // ":[
    ];
    assert(a@ =~= positional_open());
    a
}

fn positional_close_bytes() -> (a: [u8; 2])
    ensures
        a@ == positional_close(),
{
    let a: [u8; 2] = [0x5d, 0x7d];
    assert(a@ =~= positional_close());
    a
}

/// Appends `bytes` to `out`.
fn push_all(out: &mut Vec<u8>, bytes: &[u8])
    ensures
        final(out)@ == old(out)@ + bytes@,
{
    let mut i: usize = 0;
    while i < bytes.len()
        invariant
            i <= bytes.len(),
            out@ == old(out)@ + bytes@.subrange(0, i as int),
        decreases bytes.len() - i,
    {
        out.push(bytes[i]);
        i += 1;
        assert(out@ =~= old(out)@ + bytes@.subrange(0, i as int));
    }
    assert(bytes@.subrange(0, i as int) =~= bytes@);
}

/// Whether `pattern` stands in `bytes` at `at`.
fn matches_at(bytes: &[u8], at: usize, pattern: &[u8]) -> (found: bool)
    requires
        at <= bytes.len(),
    ensures
        found <==> at + pattern.len() <= bytes.len() && bytes@.subrange(
            at as int,
            at + pattern.len(),
        ) == pattern@,
{
    if pattern.len() > bytes.len() - at {
        return false;
    }
    let mut i: usize = 0;
    while i < pattern.len()
        invariant
            i <= pattern.len(),
            at + pattern.len() <= bytes.len(),
            forall|k: int| 0 <= k < i ==> bytes@[at + k] == pattern@[k],
        decreases pattern.len() - i,
    {
        if bytes[at + i] != pattern[i] {
            assert(bytes@.subrange(at as int, at + pattern.len())[i as int] != pattern@[i as int]);
            return false;
        }
        i += 1;
    }
    assert(bytes@.subrange(at as int, at + pattern.len()) =~= pattern@);
    true
}

/// Writes `message` as the bytes of one datagram.
///
/// This cannot fail, and what it writes is never empty and always fits the
/// receive buffer.
pub fn encode(message: &Message) -> (bytes: Vec<u8>)
    ensures
        bytes@ == encode_spec(*message),
        11 <= bytes.len() <= MAX_ENCODED_LEN,
{
    proof {
        lemma_encoded_len(*message);
    }
    let mut bytes: Vec<u8> = Vec::new();
    match message {
        Message::Heartbeat => {
            let word = heartbeat_bytes();
            push_all(&mut bytes, word.as_slice());
            assert(bytes@ =~= heartbeat_text());
        },
        Message::Positional(p) => {
            let open = positional_open_bytes();
            let close = positional_close_bytes();
            push_all(&mut bytes, open.as_slice());
            push_i32(&mut bytes, p.x);
            bytes.push(COMMA);
            push_i32(&mut bytes, p.y);
            bytes.push(COMMA);
            push_i32(&mut bytes, p.z);
            push_all(&mut bytes, close.as_slice());
            assert(bytes@ =~= positional_text(*p));
        },
    }
    bytes
}

/// Reads the bytes of one datagram as a message.
///
/// Any bytes may be handed in. The result is the message whose encoding
/// they are, and `None` if they are no message's encoding: malformed,
/// truncated or unknown input is turned down, never guessed at.
pub fn decode(bytes: &[u8]) -> (message: Option<Message>)
    ensures
        message == decode_spec(bytes@),
{
    proof {
        lemma_parse_is_decode(bytes@);
    }
    let word = heartbeat_bytes();
    if bytes.len() == 11 && matches_at(bytes, 0, word.as_slice()) {
        assert(bytes@.subrange(0, 11) =~= bytes@);
        return Some(Message::Heartbeat);
    }
    assert(bytes@ != heartbeat_text()) by {
        if bytes.len() == 11 {
            assert(bytes@.subrange(0, 11) =~= bytes@);
        }
    }
    match decode_positional(bytes) {
        Some(p) => Some(Message::Positional(p)),
        None => None,
    }
}

/// Reads `bytes` as the text of a position.
fn decode_positional(bytes: &[u8]) -> (position: Option<IVec3>)
    ensures
        position == parse_positional(bytes@),
{
    let open = positional_open_bytes();
    let close = positional_close_bytes();
    if !matches_at(bytes, 0, open.as_slice()) {
        return None;
    }
    let x_end: usize = scan_number(bytes, 15);
    if x_end >= bytes.len() || bytes[x_end] != COMMA {
        return None;
    }
    let y_end: usize = scan_number(bytes, x_end + 1);
    if y_end >= bytes.len() || bytes[y_end] != COMMA {
        return None;
    }
    let z_end: usize = scan_number(bytes, y_end + 1);
    if bytes.len() - z_end != 2 || !matches_at(bytes, z_end, close.as_slice()) {
        return None;
    }
    let x = parse_i32(&bytes[15..x_end]);
    let y = parse_i32(&bytes[x_end + 1..y_end]);
    let z = parse_i32(&bytes[y_end + 1..z_end]);
    match (x, y, z) {
        (Some(x), Some(y), Some(z)) => Some(IVec3 { x, y, z }),
        _ => None,
    }
}

} // verus!
