use gpfdist_rs::frame::{
    frame_e_bytes, frame_eof_bytes, frame_f_bytes, frame_hdr_bytes, frame_l_bytes, frame_o_bytes,
    length_field, u32_bytes, u64_bytes, write_data_packet, write_eof_packet, write_error_packet,
    write_meta,
};
use gpfdist_rs::stream::{cut_lines, LineLimit, StreamState};

/// Letter, length and data of each frame.
fn read_frames(data: &[u8]) -> Vec<(char, u32, Vec<u8>)> {
    let mut frames = Vec::new();
    let mut i = 0;
    while i + 5 <= data.len() {
        let length = u32::from_be_bytes([data[i + 1], data[i + 2], data[i + 3], data[i + 4]]);
        let end = i + 5 + length as usize;
        frames.push((data[i] as char, length, data[i + 5..end].to_vec()));
        i = end;
    }
    assert_eq!(i, data.len());
    frames
}

fn letters(data: &[u8]) -> String {
    read_frames(data).iter().map(|f| f.0).collect()
}

fn number(data: &[u8]) -> u64 {
    let mut n: u64 = 0;
    for b in data {
        n = n * 256 + *b as u64;
    }
    n
}

fn parse_frames(data: &[u8]) -> Vec<(char, u32)> {
    let mut frames = Vec::new();
    let mut i = 0;
    while i + 5 <= data.len() {
        let frame_type = data[i] as char;
        let length = u32::from_be_bytes([data[i + 1], data[i + 2], data[i + 3], data[i + 4]]);
        frames.push((frame_type, length));
        i += 5 + length as usize;
    }
    frames
}

#[test]
fn test_frame_sequence_parsing() {
    // F/O/L/D/F/O/L/EOF
    let mut data = Vec::new();
    data.push(b'F');
    data.extend_from_slice(&4u32.to_be_bytes());
    data.extend_from_slice(b"test");
    data.push(b'O');
    data.extend_from_slice(&8u32.to_be_bytes());
    data.extend_from_slice(&0u64.to_be_bytes());
    data.push(b'L');
    data.extend_from_slice(&8u32.to_be_bytes());
    data.extend_from_slice(&1u64.to_be_bytes());
    data.push(b'D');
    data.extend_from_slice(&5u32.to_be_bytes());
    data.extend_from_slice(b"hello");
    data.push(b'F');
    data.extend_from_slice(&4u32.to_be_bytes());
    data.extend_from_slice(b"test");
    data.push(b'O');
    data.extend_from_slice(&8u32.to_be_bytes());
    data.extend_from_slice(&5u64.to_be_bytes());
    data.push(b'L');
    data.extend_from_slice(&8u32.to_be_bytes());
    data.extend_from_slice(&2u64.to_be_bytes());
    data.push(b'D');
    data.extend_from_slice(&0u32.to_be_bytes());

    let frames = parse_frames(&data);
    assert_eq!(frames.len(), 8);
    assert_eq!(frames[0], ('F', 4));
    assert_eq!(frames[1], ('O', 8));
    assert_eq!(frames[2], ('L', 8));
    assert_eq!(frames[3], ('D', 5));
    assert_eq!(frames[4], ('F', 4));
    assert_eq!(frames[5], ('O', 8));
    assert_eq!(frames[6], ('L', 8));
    assert_eq!(frames[7], ('D', 0)); // EOF

    // The library writes the same bytes.
    let mut out = Vec::new();
    let mut stream = StreamState::new();
    stream.send_data(&mut out, false, "test", b"hello");
    stream.send_eof(&mut out, "test");
    assert_eq!(out, data);
}

#[test]
fn test_error_frame_sequence() {
    // F/O/L/E/F/O/L/EOF
    let mut data = Vec::new();
    data.push(b'F');
    data.extend_from_slice(&4u32.to_be_bytes());
    data.extend_from_slice(b"test");
    data.push(b'O');
    data.extend_from_slice(&8u32.to_be_bytes());
    data.extend_from_slice(&0u64.to_be_bytes());
    data.push(b'L');
    data.extend_from_slice(&8u32.to_be_bytes());
    data.extend_from_slice(&1u64.to_be_bytes());
    let error_msg = b"ERROR: test error";
    data.push(b'E');
    data.extend_from_slice(&(error_msg.len() as u32).to_be_bytes());
    data.extend_from_slice(error_msg);
    data.push(b'F');
    data.extend_from_slice(&4u32.to_be_bytes());
    data.extend_from_slice(b"test");
    data.push(b'O');
    data.extend_from_slice(&8u32.to_be_bytes());
    data.extend_from_slice(&0u64.to_be_bytes());
    data.push(b'L');
    data.extend_from_slice(&8u32.to_be_bytes());
    data.extend_from_slice(&1u64.to_be_bytes());
    data.push(b'D');
    data.extend_from_slice(&0u32.to_be_bytes());

    let frames = parse_frames(&data);
    assert_eq!(frames.len(), 8);
    assert_eq!(frames[0], ('F', 4));
    assert_eq!(frames[1], ('O', 8));
    assert_eq!(frames[2], ('L', 8));
    assert_eq!(frames[3], ('E', error_msg.len() as u32));
    assert_eq!(frames[4], ('F', 4));
    assert_eq!(frames[5], ('O', 8));
    assert_eq!(frames[6], ('L', 8));
    assert_eq!(frames[7], ('D', 0)); // EOF

    let mut out = Vec::new();
    StreamState::new().send_error(&mut out, false, "test", "ERROR: test error");
    assert_eq!(out, data);
}

#[test]
fn numbers_are_big_endian() {
    assert_eq!(u32_bytes(0x01020304), [1, 2, 3, 4]);
    assert_eq!(u32_bytes(u32::MAX), [255; 4]);
    assert_eq!(u64_bytes(0x0102030405060708), [1, 2, 3, 4, 5, 6, 7, 8]);
    assert_eq!(u64_bytes(u64::MAX), [255; 8]);
    assert_eq!(length_field(7), 7);
    assert_eq!(length_field(0x1_0000_0007), 7);
}

#[test]
fn single_frames() {
    assert_eq!(frame_hdr_bytes(b'D', 258), [b'D', 0, 0, 1, 2]);
    assert_eq!(&frame_f_bytes("a.csv")[..], b"F\x00\x00\x00\x05a.csv");
    assert_eq!(&frame_f_bytes("\u{e9}")[..], b"F\x00\x00\x00\x02\xc3\xa9");
    assert_eq!(&frame_o_bytes(258)[..], b"O\x00\x00\x00\x08\x00\x00\x00\x00\x00\x00\x01\x02");
    assert_eq!(&frame_l_bytes(3)[..], b"L\x00\x00\x00\x08\x00\x00\x00\x00\x00\x00\x00\x03");
    assert_eq!(&frame_e_bytes("no")[..], b"E\x00\x00\x00\x02no");
    assert_eq!(frame_eof_bytes(), *b"D\x00\x00\x00\x00");
}

#[test]
fn packets_begin_with_meta_frames() {
    let mut out = Vec::new();
    write_meta(&mut out, "t", 5, 6);
    assert_eq!(letters(&out), "FOL");
    let mut out = Vec::new();
    write_data_packet(&mut out, "t", 5, 6, b"x\n");
    write_error_packet(&mut out, "t", 7, 7, "bad");
    write_eof_packet(&mut out, "t", 7, 7);
    assert_eq!(letters(&out), "FOLDFOLEFOLD");
    let frames = read_frames(&out);
    assert_eq!(number(&frames[1].2), 5);
    assert_eq!(number(&frames[2].2), 6);
    assert_eq!(frames[3].2, b"x\n");
    assert_eq!(frames[7].2, b"bad");
    assert_eq!(frames[11].2, b"");
}

#[test]
fn offsets_and_lines_add_up() {
    let mut out = Vec::new();
    let mut stream = StreamState::new();
    stream.send_data(&mut out, false, "f", b"line1\nline2\n");
    assert_eq!((stream.offset, stream.line_no), (12, 3));
    stream.send_data(&mut out, false, "f", b"line3");
    assert_eq!((stream.offset, stream.line_no), (17, 3));
    assert!(!stream.last_chunk_ended_with_newline);
    stream.send_eof(&mut out, "f");
    let frames = read_frames(&out);
    assert_eq!(letters(&out), "FOLDFOLDFOLD");
    let positions: Vec<(u64, u64)> =
        (0..3).map(|p| (number(&frames[4 * p + 1].2), number(&frames[4 * p + 2].2))).collect();
    assert_eq!(positions, vec![(0, 1), (12, 3), (17, 4)]);
    let data: Vec<u8> =
        frames.iter().filter(|f| f.0 == 'D').flat_map(|f| f.2.clone()).collect();
    assert_eq!(data, b"line1\nline2\nline3");
}

#[test]
fn a_complete_last_line_is_counted_once() {
    let mut out = Vec::new();
    let mut stream = StreamState::new();
    stream.send_data(&mut out, false, "f", b"a\nb\n");
    stream.send_eof(&mut out, "f");
    let frames = read_frames(&out);
    assert_eq!(number(&frames[6].2), 3);
    let mut empty = Vec::new();
    StreamState::new().send_eof(&mut empty, "f");
    let frames = read_frames(&empty);
    assert_eq!((number(&frames[1].2), number(&frames[2].2)), (0, 1));
}

#[test]
fn compact_streams_have_meta_frames_at_both_ends() {
    let mut out = Vec::new();
    let mut stream = StreamState::new();
    stream.send_data(&mut out, true, "f", b"a\n");
    stream.send_data(&mut out, true, "f", b"b\n");
    stream.send_data(&mut out, true, "f", b"c\n");
    let mut failed = out.clone();
    stream.send_eof(&mut out, "f");
    assert_eq!(letters(&out), "FOLDDDFOLD");
    stream.send_error(&mut failed, true, "f", "bad");
    assert_eq!(letters(&failed), "FOLDDDEFOLD");
    let mut first = Vec::new();
    StreamState::new().send_error(&mut first, true, "f", "bad");
    assert_eq!(letters(&first), "FOLEFOLD");
}

#[test]
fn an_error_keeps_the_position() {
    let mut out = Vec::new();
    let mut stream = StreamState::new();
    stream.send_data(&mut out, false, "f", b"a\nb");
    stream.send_error(&mut out, false, "f", "bad");
    let frames = read_frames(&out);
    assert_eq!(letters(&out), "FOLDFOLEFOLD");
    assert_eq!((number(&frames[5].2), number(&frames[6].2)), (3, 2));
    assert_eq!((number(&frames[9].2), number(&frames[10].2)), (3, 2));
}

#[test]
fn counters_know_their_room() {
    let mut stream = StreamState::new();
    assert!(stream.has_room(1000));
    stream.offset = u64::MAX - 5;
    assert!(stream.has_room(3));
    assert!(!stream.has_room(4));
}

#[test]
fn lines_are_cut() {
    assert_eq!(cut_lines(b"a\nb\nc\n", 2), b"a\nb\n");
    assert_eq!(cut_lines(b"a\nb", 2), b"a\nb");
    assert_eq!(cut_lines(b"a\nb", 0), b"");
    assert_eq!(cut_lines(b"", 2), b"");
}

fn serve(limit: Option<usize>, chunks: &[&[u8]]) -> Vec<u8> {
    let mut limit = LineLimit { remaining: limit };
    let mut sent = Vec::new();
    for chunk in chunks {
        let (kept, stop) = limit.cut(chunk);
        sent.extend_from_slice(kept);
        if stop {
            break;
        }
    }
    sent
}

#[test]
fn a_limit_does_not_depend_on_the_chunks() {
    let expected = b"one\ntwo\nthree\n".to_vec();
    assert_eq!(serve(Some(3), &[b"one\ntwo\nthree\nfour\n"]), expected);
    assert_eq!(serve(Some(3), &[b"on", b"e\ntwo", b"\n", b"three\nfour\n", b"five\n"]), expected);
    assert_eq!(serve(Some(3), &[b"one\ntwo\nthree\n", b"four\n"]), expected);
    assert_eq!(serve(Some(9), &[b"one\ntwo\nthree\n"]), expected);
    assert_eq!(serve(None, &[b"one\n", b"two\nthree\n"]), expected);
}

#[test]
fn a_limit_of_zero_sends_the_first_chunk() {
    assert_eq!(serve(Some(0), &[b"one\ntwo\n", b"three\n"]), b"one\ntwo\n");
}
