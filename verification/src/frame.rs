//! The framed protocol: single frames, and the packets that are made of them.
//!
//! A frame is a letter, the length of its data in four bytes, most significant first, and the
//! data. Every packet begins with the meta frames F (name), O (offset) and L (line number).

use crate::outside::{buffer_bytes, buffer_extend, buffer_with_capacity, buffered};
use bytes::BytesMut;
use vstd::prelude::*;
use vstd::utf8::encode_utf8;

verus! {

/// The letter of a frame that names the source.
pub const LETTER_F: u8 = 0x46;

/// The letter of a frame that gives the offset.
pub const LETTER_O: u8 = 0x4f;

/// The letter of a frame that gives the line number.
pub const LETTER_L: u8 = 0x4c;

/// The letter of a frame that carries data.
pub const LETTER_D: u8 = 0x44;

/// The letter of a frame that carries an error message.
pub const LETTER_E: u8 = 0x45;

// ---------------------------------------------------------------- numbers as bytes

/// The last `width` bytes of a number, most significant first.
pub open spec fn big_endian(n: nat, width: nat) -> Seq<u8>
    decreases width,
{
    if width == 0 {
        Seq::empty()
    } else {
        big_endian(n / 256, (width - 1) as nat).push((n % 256) as u8)
    }
}

/// The number that bytes stand for, most significant first.
pub open spec fn big_endian_value(bytes: Seq<u8>) -> nat
    decreases bytes.len(),
{
    if bytes.len() == 0 {
        0
    } else {
        big_endian_value(bytes.drop_last()) * 256 + bytes.last() as nat
    }
}

/// The number of values that `width` bytes can hold.
pub open spec fn byte_range(width: nat) -> nat
    decreases width,
{
    if width == 0 {
        1
    } else {
        256 * byte_range((width - 1) as nat)
    }
}

proof fn lemma_big_endian_len(n: nat, width: nat)
    ensures
        big_endian(n, width).len() == width,
    decreases width,
{
    if width > 0 {
        lemma_big_endian_len(n / 256, (width - 1) as nat);
    }
}

/// A number that fits is read back from its bytes.
pub proof fn law_big_endian_round_trip(n: nat, width: nat)
    requires
        n < byte_range(width),
    ensures
        big_endian(n, width).len() == width,
        big_endian_value(big_endian(n, width)) == n,
    decreases width,
{
    lemma_big_endian_len(n, width);
    if width > 0 {
        law_big_endian_round_trip(n / 256, (width - 1) as nat);
        assert(big_endian(n, width).drop_last() =~= big_endian(n / 256, (width - 1) as nat));
    }
}

/// The four bytes of a number, most significant first.
pub fn u32_bytes(n: u32) -> (r: [u8; 4])
    ensures
        r@ == big_endian(n as nat, 4),
{
    let r: [u8; 4] = [
        (n / 0x100_0000) as u8,
        (n / 0x1_0000 % 0x100) as u8,
        (n / 0x100 % 0x100) as u8,
        (n % 0x100) as u8,
    ];
    proof {
        reveal_with_fuel(big_endian, 5);
        assert(r@ =~= big_endian(n as nat, 4));
    }
    r
}

/// Only the last four bytes of a length stand in a frame, so reducing the length first
/// changes nothing.
proof fn lemma_length_bytes(n: nat)
    ensures
        big_endian(n % 0x1_0000_0000, 4) == big_endian(n, 4),
{
    reveal_with_fuel(big_endian, 5);
    let m = n % 0x1_0000_0000;
    assert(m % 256 == n % 256);
    assert(m / 256 % 256 == n / 256 % 256);
    assert(m / 256 / 256 % 256 == n / 256 / 256 % 256);
    assert(m / 256 / 256 / 256 % 256 == n / 256 / 256 / 256 % 256);
    assert(big_endian(m, 4) =~= big_endian(n, 4));
}

/// Eight bytes are the four of the upper half and the four of the lower half.
proof fn lemma_halves(n: nat)
    ensures
        big_endian(n, 8) == big_endian(n / 0x1_0000_0000, 4) + big_endian(n % 0x1_0000_0000, 4),
{
    lemma_length_bytes(n);
    let a = n / 256;
    let b = a / 256;
    let c = b / 256;
    let d = c / 256;
    assert(d == n / 0x1_0000_0000);
    assert(big_endian(n, 8) == big_endian(d, 4).push((c % 256) as u8).push((b % 256) as u8).push(
        (a % 256) as u8,
    ).push((n % 256) as u8)) by {
        reveal_with_fuel(big_endian, 5);
    }
    assert(big_endian(n, 4) == Seq::<u8>::empty().push((c % 256) as u8).push((b % 256) as u8).push(
        (a % 256) as u8,
    ).push((n % 256) as u8)) by {
        reveal_with_fuel(big_endian, 5);
    }
    assert(big_endian(n, 8) =~= big_endian(d, 4) + big_endian(n, 4));
}

/// The eight bytes of a number, most significant first.
pub fn u64_bytes(n: u64) -> (r: [u8; 8])
    ensures
        r@ == big_endian(n as nat, 8),
{
    let hi = u32_bytes((n / 0x1_0000_0000) as u32);
    let lo = u32_bytes((n % 0x1_0000_0000) as u32);
    let r: [u8; 8] = [hi[0], hi[1], hi[2], hi[3], lo[0], lo[1], lo[2], lo[3]];
    proof {
        lemma_halves(n as nat);
        assert(r@ =~= hi@ + lo@);
    }
    r
}

/// A length as it stands in a frame: its last four bytes.
pub fn length_field(n: usize) -> (r: u32)
    ensures
        r == n as nat % 0x1_0000_0000,
        big_endian(r as nat, 4) == big_endian(n as nat, 4),
{
    proof {
        lemma_length_bytes(n as nat);
    }
    (n as u64 % 0x1_0000_0000) as u32
}

// ---------------------------------------------------------------- frames

/// A frame: its letter, the length of its data, the data.
pub open spec fn frame(letter: u8, data: Seq<u8>) -> Seq<u8> {
    seq![letter] + big_endian(data.len(), 4) + data
}

/// Whether a frame with the given text as its data fits into memory.
pub open spec fn frameable(text: Seq<char>) -> bool {
    encode_utf8(text).len() + 5 <= isize::MAX
}

/// Whether a frame with the given text as its data fits into memory.
pub fn fits_frame(text: &str) -> (r: bool)
    ensures
        r == frameable(text@),
{
    text.as_bytes().len() <= isize::MAX as usize - 5
}

/// The header of a frame: its letter and the length of its data.
pub fn frame_hdr_bytes(letter: u8, len: u32) -> (r: [u8; 5])
    ensures
        r@ == seq![letter] + big_endian(len as nat, 4),
{
    let n = u32_bytes(len);
    let r: [u8; 5] = [letter, n[0], n[1], n[2], n[3]];
    assert(r@ =~= seq![letter] + n@);
    r
}

fn text_frame(letter: u8, text: &str) -> (r: BytesMut)
    requires
        frameable(text@),
    ensures
        buffered(r) == frame(letter, encode_utf8(text@)),
{
    let data = text.as_bytes();
    let mut buf = buffer_with_capacity(5 + data.len());
    buffer_extend(&mut buf, &frame_hdr_bytes(letter, length_field(data.len())));
    buffer_extend(&mut buf, data);
    assert(buffered(buf) =~= frame(letter, data@));
    buf
}

fn number_frame(letter: u8, n: u64) -> (r: BytesMut)
    ensures
        buffered(r) == frame(letter, big_endian(n as nat, 8)),
{
    let mut buf = buffer_with_capacity(5 + 8);
    let bytes = u64_bytes(n);
    buffer_extend(&mut buf, &frame_hdr_bytes(letter, 8));
    buffer_extend(&mut buf, &bytes);
    assert(buffered(buf) =~= frame(letter, bytes@));
    buf
}

/// The frame that names the source.
pub fn frame_f_bytes(filename: &str) -> (r: BytesMut)
    requires
        frameable(filename@),
    ensures
        buffered(r) == frame(LETTER_F, encode_utf8(filename@)),
{
    text_frame(LETTER_F, filename)
}

/// The frame that gives the offset.
pub fn frame_o_bytes(offset: u64) -> (r: BytesMut)
    ensures
        buffered(r) == frame(LETTER_O, big_endian(offset as nat, 8)),
{
    number_frame(LETTER_O, offset)
}

/// The frame that gives the line number.
pub fn frame_l_bytes(line_no: u64) -> (r: BytesMut)
    ensures
        buffered(r) == frame(LETTER_L, big_endian(line_no as nat, 8)),
{
    number_frame(LETTER_L, line_no)
}

/// The frame that carries an error message.
pub fn frame_e_bytes(msg: &str) -> (r: BytesMut)
    requires
        frameable(msg@),
    ensures
        buffered(r) == frame(LETTER_E, encode_utf8(msg@)),
{
    text_frame(LETTER_E, msg)
}

/// The data frame of length zero that ends a stream.
pub fn frame_eof_bytes() -> (r: [u8; 5])
    ensures
        r@ == frame(LETTER_D, Seq::empty()),
{
    let r = frame_hdr_bytes(LETTER_D, 0);
    assert(r@ =~= frame(LETTER_D, Seq::empty()));
    r
}

// ---------------------------------------------------------------- packets

/// The meta frames: name, offset, line number.
pub open spec fn meta(filename: Seq<char>, offset: u64, line_no: u64) -> Seq<u8> {
    frame(LETTER_F, encode_utf8(filename)) + frame(LETTER_O, big_endian(offset as nat, 8)) + frame(
        LETTER_L,
        big_endian(line_no as nat, 8),
    )
}

/// A data packet: the meta frames and a frame with the data.
pub open spec fn data_packet(filename: Seq<char>, offset: u64, line_no: u64, csv: Seq<u8>) -> Seq<
    u8,
> {
    meta(filename, offset, line_no) + frame(LETTER_D, csv)
}

/// An error packet: the meta frames and a frame with the message.
pub open spec fn error_packet(
    filename: Seq<char>,
    offset: u64,
    line_no: u64,
    msg: Seq<char>,
) -> Seq<u8> {
    meta(filename, offset, line_no) + frame(LETTER_E, encode_utf8(msg))
}

/// The packet that ends a stream: the meta frames and a data frame of length zero.
pub open spec fn eof_packet(filename: Seq<char>, offset: u64, line_no: u64) -> Seq<u8> {
    meta(filename, offset, line_no) + frame(LETTER_D, Seq::empty())
}

/// Appends bytes to an output.
pub fn put(out: &mut Vec<u8>, bytes: &[u8])
    ensures
        final(out)@ == old(out)@ + bytes@,
{
    out.extend_from_slice(bytes);
    assert(out@ =~= old(out)@ + bytes@);
}

/// Appends the meta frames.
pub fn write_meta(out: &mut Vec<u8>, filename: &str, offset: u64, line_no: u64)
    requires
        frameable(filename@),
    ensures
        final(out)@ == old(out)@ + meta(filename@, offset, line_no),
{
    put(out, buffer_bytes(&frame_f_bytes(filename)));
    put(out, buffer_bytes(&frame_o_bytes(offset)));
    put(out, buffer_bytes(&frame_l_bytes(line_no)));
    assert(out@ =~= old(out)@ + meta(filename@, offset, line_no));
}

/// Appends a data frame without meta frames.
pub fn write_data_frame(out: &mut Vec<u8>, csv: &[u8])
    ensures
        final(out)@ == old(out)@ + frame(LETTER_D, csv@),
{
    put(out, &frame_hdr_bytes(LETTER_D, length_field(csv.len())));
    put(out, csv);
    assert(out@ =~= old(out)@ + frame(LETTER_D, csv@));
}

/// Appends a data packet.
pub fn write_data_packet(out: &mut Vec<u8>, filename: &str, offset: u64, line_no: u64, csv: &[u8])
    requires
        frameable(filename@),
    ensures
        final(out)@ == old(out)@ + data_packet(filename@, offset, line_no, csv@),
{
    write_meta(out, filename, offset, line_no);
    write_data_frame(out, csv);
    assert(out@ =~= old(out)@ + data_packet(filename@, offset, line_no, csv@));
}

/// Appends an error packet.
pub fn write_error_packet(
    out: &mut Vec<u8>,
    filename: &str,
    offset: u64,
    line_no: u64,
    err_msg: &str,
)
    requires
        frameable(filename@),
        frameable(err_msg@),
    ensures
        final(out)@ == old(out)@ + error_packet(filename@, offset, line_no, err_msg@),
{
    write_meta(out, filename, offset, line_no);
    put(out, buffer_bytes(&frame_e_bytes(err_msg)));
    assert(out@ =~= old(out)@ + error_packet(filename@, offset, line_no, err_msg@));
}

/// Appends the packet that ends a stream.
pub fn write_eof_packet(out: &mut Vec<u8>, filename: &str, offset: u64, line_no: u64)
    requires
        frameable(filename@),
    ensures
        final(out)@ == old(out)@ + eof_packet(filename@, offset, line_no),
{
    write_meta(out, filename, offset, line_no);
    put(out, &frame_eof_bytes());
    assert(out@ =~= old(out)@ + eof_packet(filename@, offset, line_no));
}

// ---------------------------------------------------------------- reading frames

/// A frame as a reader sees it.
pub struct FrameView {
    pub letter: u8,
    pub data: Seq<u8>,
}

/// The number of data bytes that the frame at the front of `bytes` announces.
pub open spec fn announced(bytes: Seq<u8>) -> nat {
    big_endian_value(bytes.subrange(1, 5))
}

/// The frames that `bytes` consist of, or `None` where they are not a sequence of whole frames.
pub open spec fn frames_of(bytes: Seq<u8>) -> Option<Seq<FrameView>>
    decreases bytes.len(),
{
    if bytes.len() == 0 {
        Some(Seq::empty())
    } else if bytes.len() < 5 || bytes.len() < 5 + announced(bytes) {
        None
    } else {
        let end = 5 + announced(bytes) as int;
        match frames_of(bytes.skip(end)) {
            Some(rest) => Some(
                seq![FrameView { letter: bytes[0], data: bytes.subrange(5, end) }] + rest,
            ),
            None => None,
        }
    }
}

/// Whether data is short enough for its length to be stated in a frame.
pub open spec fn sendable(data: Seq<u8>) -> bool {
    data.len() < 0x1_0000_0000
}

/// A frame in front of other frames is read back as it was written, and so are the others.
pub proof fn law_frame_round_trip(
    letter: u8,
    data: Seq<u8>,
    rest: Seq<u8>,
    rest_frames: Seq<FrameView>,
)
    requires
        sendable(data),
        frames_of(rest) == Some(rest_frames),
    ensures
        frames_of(frame(letter, data) + rest) == Some(
            seq![FrameView { letter, data }] + rest_frames,
        ),
{
    let bytes = frame(letter, data) + rest;
    reveal_with_fuel(byte_range, 5);
    law_big_endian_round_trip(data.len(), 4);
    assert(bytes.subrange(1, 5) =~= big_endian(data.len(), 4));
    assert(bytes[0] == letter);
    assert(bytes.subrange(5, 5 + data.len() as int) =~= data);
    assert(bytes.skip(5 + data.len() as int) =~= rest);
}

/// The meta frames as a reader sees them.
pub open spec fn meta_frames(filename: Seq<char>, offset: u64, line_no: u64) -> Seq<FrameView> {
    seq![
        FrameView { letter: LETTER_F, data: encode_utf8(filename) },
        FrameView { letter: LETTER_O, data: big_endian(offset as nat, 8) },
        FrameView { letter: LETTER_L, data: big_endian(line_no as nat, 8) },
    ]
}

/// A packet in front of other frames is read back as its three meta frames, then its own
/// frame; the offset and the line number can be read from them.
pub proof fn law_packet_round_trip(
    filename: Seq<char>,
    offset: u64,
    line_no: u64,
    letter: u8,
    data: Seq<u8>,
    rest: Seq<u8>,
    rest_frames: Seq<FrameView>,
)
    requires
        sendable(encode_utf8(filename)),
        sendable(data),
        frames_of(rest) == Some(rest_frames),
    ensures
        frames_of(meta(filename, offset, line_no) + frame(letter, data) + rest) == Some(
            meta_frames(filename, offset, line_no) + seq![FrameView { letter, data }] + rest_frames,
        ),
        big_endian_value(meta_frames(filename, offset, line_no)[1].data) == offset,
        big_endian_value(meta_frames(filename, offset, line_no)[2].data) == line_no,
{
    reveal_with_fuel(byte_range, 9);
    law_big_endian_round_trip(offset as nat, 8);
    law_big_endian_round_trip(line_no as nat, 8);
    let name = encode_utf8(filename);
    let o = big_endian(offset as nat, 8);
    let l = big_endian(line_no as nat, 8);
    law_frame_round_trip(letter, data, rest, rest_frames);
    let r3 = frame(letter, data) + rest;
    let f3 = seq![FrameView { letter, data }] + rest_frames;
    law_frame_round_trip(LETTER_L, l, r3, f3);
    let r2 = frame(LETTER_L, l) + r3;
    let f2 = seq![FrameView { letter: LETTER_L, data: l }] + f3;
    law_frame_round_trip(LETTER_O, o, r2, f2);
    let r1 = frame(LETTER_O, o) + r2;
    let f1 = seq![FrameView { letter: LETTER_O, data: o }] + f2;
    law_frame_round_trip(LETTER_F, name, r1, f1);
    assert(frame(LETTER_F, name) + r1 =~= meta(filename, offset, line_no) + frame(letter, data)
        + rest);
    assert(seq![FrameView { letter: LETTER_F, data: name }] + f1 =~= meta_frames(
        filename,
        offset,
        line_no,
    ) + seq![FrameView { letter, data }] + rest_frames);
}

/// The bytes of a data packet, one after the other: each frame is its letter, the length of its
/// data and the data, and the lengths and numbers can be read from their bytes. Without data it
/// is the packet that ends a stream. This holds of all names and data whose length can be
/// stated in a frame.
pub proof fn law_data_packet_bytes(
    filename: Seq<char>,
    offset: u64,
    line_no: u64,
    csv: Seq<u8>,
)
    requires
        sendable(encode_utf8(filename)),
        sendable(csv),
    ensures
        data_packet(filename, offset, line_no, csv) == seq![LETTER_F] + big_endian(
            encode_utf8(filename).len(),
            4,
        ) + encode_utf8(filename) + seq![LETTER_O] + big_endian(8, 4) + big_endian(
            offset as nat,
            8,
        ) + seq![LETTER_L] + big_endian(8, 4) + big_endian(line_no as nat, 8) + seq![LETTER_D]
            + big_endian(csv.len(), 4) + csv,
        big_endian_value(big_endian(encode_utf8(filename).len(), 4)) == encode_utf8(filename).len(),
        big_endian_value(big_endian(csv.len(), 4)) == csv.len(),
        big_endian_value(big_endian(8, 4)) == 8,
        big_endian_value(big_endian(offset as nat, 8)) == offset,
        big_endian_value(big_endian(line_no as nat, 8)) == line_no,
        csv.len() == 0 ==> data_packet(filename, offset, line_no, csv) == eof_packet(
            filename,
            offset,
            line_no,
        ),
{
    reveal_with_fuel(byte_range, 9);
    law_big_endian_round_trip(encode_utf8(filename).len(), 4);
    law_big_endian_round_trip(csv.len(), 4);
    law_big_endian_round_trip(8, 4);
    law_big_endian_round_trip(offset as nat, 8);
    law_big_endian_round_trip(line_no as nat, 8);
    let n = encode_utf8(filename);
    let o = big_endian(offset as nat, 8);
    let l = big_endian(line_no as nat, 8);
    assert(o.len() == 8 && l.len() == 8);
    assert(data_packet(filename, offset, line_no, csv) =~= seq![LETTER_F] + big_endian(n.len(), 4)
        + n + seq![LETTER_O] + big_endian(8, 4) + o + seq![LETTER_L] + big_endian(8, 4) + l
        + seq![LETTER_D] + big_endian(csv.len(), 4) + csv);
    if csv.len() == 0 {
        assert(csv =~= Seq::empty());
    }
}

/// What a frame can hold: its length has to be stated in four bytes, and to be kept in memory.
pub proof fn law_what_frames_hold(data: Seq<u8>, text: Seq<char>)
    ensures
        sendable(data) <==> data.len() <= 0xffff_ffff,
        frameable(text) <==> encode_utf8(text).len() + 5 <= isize::MAX,
{
}

/// The bytes of a number: each one counts 256 times as much as the next.
pub proof fn law_bytes_of_numbers(n: nat)
    ensures
        big_endian(n, 4) == seq![
            (n / 0x100_0000 % 0x100) as u8,
            (n / 0x1_0000 % 0x100) as u8,
            (n / 0x100 % 0x100) as u8,
            (n % 0x100) as u8,
        ],
        big_endian(n, 8) == big_endian(n / 0x1_0000_0000, 4) + big_endian(n, 4),
{
    lemma_halves(n);
    lemma_length_bytes(n);
    let a = n / 256;
    let b = a / 256;
    let c = b / 256;
    assert(b == n / 0x1_0000);
    assert(c == n / 0x100_0000);
    assert(big_endian(n, 4) == Seq::<u8>::empty().push((c % 256) as u8).push((b % 256) as u8).push(
        (a % 256) as u8,
    ).push((n % 256) as u8)) by {
        reveal_with_fuel(big_endian, 5);
    }
    assert(big_endian(n, 4) =~= seq![
        (n / 0x100_0000 % 0x100) as u8,
        (n / 0x1_0000 % 0x100) as u8,
        (n / 0x100 % 0x100) as u8,
        (n % 0x100) as u8,
    ]);
}

/// The bytes of the three kinds of packets: the meta frames, which bear the letters F, O and L,
/// and then a frame with the letter D and the data, with the letter E and the message, or with
/// the letter D and nothing.
pub proof fn law_bytes_of_packets(
    filename: Seq<char>,
    offset: u64,
    line_no: u64,
    csv: Seq<u8>,
    msg: Seq<char>,
)
    ensures
        ({
            let front = seq![0x46u8] + big_endian(encode_utf8(filename).len(), 4) + encode_utf8(
                filename,
            ) + seq![0x4fu8] + big_endian(8, 4) + big_endian(offset as nat, 8) + seq![0x4cu8]
                + big_endian(8, 4) + big_endian(line_no as nat, 8);
            &&& data_packet(filename, offset, line_no, csv) == front + (seq![0x44u8] + big_endian(
                csv.len(),
                4,
            ) + csv)
            &&& error_packet(filename, offset, line_no, msg) == front + (seq![0x45u8] + big_endian(
                encode_utf8(msg).len(),
                4,
            ) + encode_utf8(msg))
            &&& eof_packet(filename, offset, line_no) == front + seq![0x44u8, 0u8, 0u8, 0u8, 0u8]
        }),
{
    let o = big_endian(offset as nat, 8);
    let l = big_endian(line_no as nat, 8);
    lemma_big_endian_len(offset as nat, 8);
    lemma_big_endian_len(line_no as nat, 8);
    let n = encode_utf8(filename);
    let front = seq![0x46u8] + big_endian(n.len(), 4) + n + seq![0x4fu8] + big_endian(8, 4) + o
        + seq![0x4cu8] + big_endian(8, 4) + l;
    assert(meta(filename, offset, line_no) =~= front);
    law_bytes_of_numbers(0);
    assert(frame(LETTER_D, Seq::empty()) =~= seq![0x44u8, 0u8, 0u8, 0u8, 0u8]);
}

} // verus!
