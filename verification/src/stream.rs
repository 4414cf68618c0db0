//! The framed stream of one response: where it stands, and what each event adds to it.
//!
//! The offset counts the data bytes sent so far and nothing else. The line number is one more
//! than the number of line feeds sent so far; a last line without a line feed is counted when
//! the stream ends.

use crate::frame::{
    big_endian, big_endian_value, byte_range, data_packet, eof_packet, error_packet, frame,
    frame_e_bytes, frameable, frames_of, law_big_endian_round_trip, law_frame_round_trip,
    law_packet_round_trip, meta_frames, put, sendable, write_data_frame, write_data_packet,
    write_eof_packet, write_error_packet, FrameView, LETTER_D, LETTER_E,
};
use crate::outside::{buffer_bytes, count_bytes, count_of};
use vstd::prelude::*;
use vstd::slice::slice_subrange;
use vstd::utf8::encode_utf8;

verus! {

/// The byte that ends a line.
pub const NEWLINE: u8 = 10;

// ---------------------------------------------------------------- counting line feeds

/// Counting goes piece by piece.
pub proof fn lemma_count_concat(a: Seq<u8>, b: Seq<u8>, x: u8)
    ensures
        count_of(a + b, x) == count_of(a, x) + count_of(b, x),
    decreases b.len(),
{
    if b.len() == 0 {
        assert(a + b =~= a);
    } else {
        lemma_count_concat(a, b.drop_last(), x);
        assert((a + b).drop_last() =~= a + b.drop_last());
        assert((a + b).last() == b.last());
    }
}

/// Nothing occurs more often than there are bytes; a byte other than the one counted is one less.
pub proof fn lemma_count_bound(s: Seq<u8>, x: u8)
    ensures
        count_of(s, x) <= s.len(),
        s.len() > 0 && s.last() != x ==> count_of(s, x) < s.len(),
    decreases s.len(),
{
    if s.len() > 0 {
        lemma_count_bound(s.drop_last(), x);
    }
}

// ---------------------------------------------------------------- state

/// Where a stream stands.
#[derive(Clone, Copy)]
pub struct StreamState {
    /// The number of data bytes sent.
    pub offset: u64,
    /// The number of the line that comes next, counted from one.
    pub line_no: u64,
    /// Whether the last chunk ended with a line feed (true before the first one).
    pub last_chunk_ended_with_newline: bool,
    /// Whether a packet has been sent.
    pub started: bool,
}

impl StreamState {
    /// A stream before its first chunk.
    pub open spec fn at_start() -> Self {
        StreamState {
            offset: 0,
            line_no: 1,
            last_chunk_ended_with_newline: true,
            started: false,
        }
    }

    /// What holds of every stream: the counters are in step and have not run out.
    pub open spec fn wf(self) -> bool {
        &&& 1 <= self.line_no <= self.offset + 1
        &&& self.offset <= u64::MAX - 2
    }

    /// Whether the counters have room for a chunk.
    pub open spec fn room_for(self, csv: Seq<u8>) -> bool {
        self.offset + csv.len() <= u64::MAX - 2
    }

    /// The stream after a chunk.
    pub open spec fn after(self, csv: Seq<u8>) -> Self {
        StreamState {
            offset: (self.offset + csv.len()) as u64,
            line_no: (self.line_no + count_of(csv, NEWLINE)) as u64,
            last_chunk_ended_with_newline: csv.len() > 0 && csv.last() == NEWLINE,
            started: true,
        }
    }

    /// The line number at the end: a last line without a line feed counts.
    pub open spec fn final_line(self) -> u64 {
        if !self.last_chunk_ended_with_newline && self.offset > 0 {
            (self.line_no + 1) as u64
        } else {
            self.line_no
        }
    }

    /// What a chunk adds to the response. In compact mode only the first packet of a stream
    /// has meta frames.
    pub open spec fn data_bytes(self, compact: bool, filename: Seq<char>, csv: Seq<u8>) -> Seq<u8> {
        if compact && self.started {
            frame(LETTER_D, csv)
        } else {
            data_packet(filename, self.offset, self.line_no, csv)
        }
    }

    /// What the end of the data adds to the response.
    pub open spec fn eof_bytes(self, filename: Seq<char>) -> Seq<u8> {
        eof_packet(filename, self.offset, self.final_line())
    }

    /// What a failure adds to the response: the message, then the end of the stream. Both give
    /// the position that the stream has reached.
    pub open spec fn error_bytes(self, compact: bool, filename: Seq<char>, msg: Seq<char>) -> Seq<
        u8,
    > {
        (if compact && self.started {
            frame(LETTER_E, encode_utf8(msg))
        } else {
            error_packet(filename, self.offset, self.line_no, msg)
        }) + eof_packet(filename, self.offset, self.line_no)
    }

    /// A stream before its first chunk.
    pub fn new() -> (r: Self)
        ensures
            r == Self::at_start(),
            r.wf(),
    {
        StreamState { offset: 0, line_no: 1, last_chunk_ended_with_newline: true, started: false }
    }

    /// Whether the counters have room for a chunk of the given length.
    pub fn has_room(&self, len: usize) -> (r: bool)
        requires
            self.wf(),
        ensures
            r == (self.offset + len <= u64::MAX - 2),
    {
        len as u64 <= u64::MAX - 2 - self.offset
    }

    /// Appends a chunk of data and moves on.
    pub fn send_data(&mut self, out: &mut Vec<u8>, compact: bool, filename: &str, csv: &[u8])
        requires
            old(self).wf(),
            old(self).room_for(csv@),
            frameable(filename@),
        ensures
            final(self).wf(),
            *final(self) == old(self).after(csv@),
            final(out)@ == old(out)@ + old(self).data_bytes(compact, filename@, csv@),
    {
        if compact && self.started {
            write_data_frame(out, csv);
        } else {
            write_data_packet(out, filename, self.offset, self.line_no, csv);
        }
        proof {
            lemma_count_bound(csv@, NEWLINE);
        }
        let newline_count: usize = count_bytes(csv, NEWLINE);
        self.offset = self.offset + csv.len() as u64;
        self.line_no = self.line_no + newline_count as u64;
        self.last_chunk_ended_with_newline = csv.len() > 0 && csv[csv.len() - 1] == NEWLINE;
        self.started = true;
    }

    /// Appends the end of the stream.
    pub fn send_eof(&self, out: &mut Vec<u8>, filename: &str)
        requires
            self.wf(),
            frameable(filename@),
        ensures
            final(out)@ == old(out)@ + self.eof_bytes(filename@),
    {
        let line_no: u64 = if !self.last_chunk_ended_with_newline && self.offset > 0 {
            self.line_no + 1
        } else {
            self.line_no
        };
        write_eof_packet(out, filename, self.offset, line_no);
    }

    /// Appends an error and the end of the stream.
    pub fn send_error(&self, out: &mut Vec<u8>, compact: bool, filename: &str, err_msg: &str)
        requires
            self.wf(),
            frameable(filename@),
            frameable(err_msg@),
        ensures
            final(out)@ == old(out)@ + self.error_bytes(compact, filename@, err_msg@),
    {
        if compact && self.started {
            put(out, buffer_bytes(&frame_e_bytes(err_msg)));
        } else {
            write_error_packet(out, filename, self.offset, self.line_no, err_msg);
        }
        write_eof_packet(out, filename, self.offset, self.line_no);
        assert(out@ =~= old(out)@ + self.error_bytes(compact, filename@, err_msg@));
    }
}

// ---------------------------------------------------------------- the first lines

/// The first `n` lines of some bytes, each with its line feed; all of them where there are
/// fewer line feeds.
pub open spec fn first_lines(s: Seq<u8>, n: nat) -> Seq<u8>
    decreases s.len(),
{
    if n == 0 || s.len() == 0 {
        Seq::empty()
    } else {
        seq![s[0]] + first_lines(
            s.skip(1),
            if s[0] == NEWLINE {
                (n - 1) as nat
            } else {
                n
            },
        )
    }
}

/// Lines taken from two pieces are those of the first piece, then as many as are still
/// missing of the second.
proof fn lemma_first_lines_concat(a: Seq<u8>, b: Seq<u8>, n: nat)
    ensures
        count_of(a, NEWLINE) >= n ==> first_lines(a + b, n) == first_lines(a, n),
        count_of(a, NEWLINE) < n ==> first_lines(a, n) == a && first_lines(a + b, n) == a
            + first_lines(b, (n - count_of(a, NEWLINE)) as nat),
    decreases a.len(),
{
    if a.len() == 0 {
        assert(a + b =~= b);
        assert(a + first_lines(b, n) =~= first_lines(b, n));
    } else if n > 0 {
        let t = a.skip(1);
        let m = if a[0] == NEWLINE {
            (n - 1) as nat
        } else {
            n
        };
        lemma_first_lines_concat(t, b, m);
        assert((a + b).skip(1) =~= t + b);
        assert(a =~= seq![a[0]] + t);
        lemma_count_concat(seq![a[0]], t, NEWLINE);
        lemma_count_one(a[0]);
        if count_of(a, NEWLINE) < n {
            assert(first_lines(a + b, n) =~= a + first_lines(
                b,
                (n - count_of(a, NEWLINE)) as nat,
            ));
        }
    }
}

proof fn lemma_count_one(b: u8)
    ensures
        count_of(seq![b], NEWLINE) == if b == NEWLINE {
            1nat
        } else {
            0nat
        },
{
    assert(seq![b].drop_last() =~= Seq::empty());
    assert(count_of(seq![b].drop_last(), NEWLINE) == 0);
}

/// Cuts bytes off after a number of lines.
pub fn cut_lines<'a>(chunk: &'a [u8], n: usize) -> (r: &'a [u8])
    ensures
        r@ == first_lines(chunk@, n as nat),
{
    let mut pos: usize = 0;
    let mut found: usize = 0;
    assert(chunk@.take(0) + first_lines(chunk@.skip(0), n as nat) =~= first_lines(
        chunk@,
        n as nat,
    )) by {
        assert(chunk@.skip(0) =~= chunk@);
    }
    while pos < chunk.len() && found < n
        invariant
            pos <= chunk@.len(),
            found <= n,
            chunk@.take(pos as int) + first_lines(chunk@.skip(pos as int), (n - found) as nat)
                == first_lines(chunk@, n as nat),
        decreases chunk@.len() - pos,
    {
        let ghost here = chunk@.skip(pos as int);
        let ghost left = (n - found) as nat;
        if chunk[pos] == NEWLINE {
            found += 1;
        }
        proof {
            assert(here.skip(1) =~= chunk@.skip(pos + 1));
            assert(chunk@.take(pos as int) + (seq![here[0]] + first_lines(
                chunk@.skip(pos + 1),
                (n - found) as nat,
            )) =~= chunk@.take(pos + 1) + first_lines(chunk@.skip(pos + 1), (n - found) as nat));
        }
        pos += 1;
    }
    let r = slice_subrange(chunk, 0, pos);
    assert(r@ =~= chunk@.take(pos as int) + first_lines(
        chunk@.skip(pos as int),
        (n - found) as nat,
    ));
    r
}

/// How many more lines a response is to have (`None`: no limit).
#[derive(Clone, Copy)]
pub struct LineLimit {
    pub remaining: Option<usize>,
}

impl LineLimit {
    /// What is sent of a chunk. Where the limit was zero to begin with, the chunk is sent whole.
    pub open spec fn kept(self, chunk: Seq<u8>) -> Seq<u8> {
        match self.remaining {
            Some(n) => if n == 0 {
                chunk
            } else {
                first_lines(chunk, n as nat)
            },
            None => chunk,
        }
    }

    /// Whether the response ends with a chunk.
    pub open spec fn reached_by(self, chunk: Seq<u8>) -> bool {
        match self.remaining {
            Some(n) => count_of(chunk, NEWLINE) >= n,
            None => false,
        }
    }

    /// The limit that is left after a chunk that does not reach it.
    pub open spec fn past(self, chunk: Seq<u8>) -> Self {
        match self.remaining {
            Some(n) => LineLimit { remaining: Some((n - count_of(chunk, NEWLINE)) as usize) },
            None => self,
        }
    }

    /// What is to be sent of a chunk, and whether the response ends with it.
    pub fn cut<'a>(&mut self, chunk: &'a [u8]) -> (r: (&'a [u8], bool))
        ensures
            r.0@ == old(self).kept(chunk@),
            r.0@.len() <= chunk@.len(),
            r.1 == old(self).reached_by(chunk@),
            *final(self) == if r.1 {
                *old(self)
            } else {
                old(self).past(chunk@)
            },
    {
        match self.remaining {
            None => (chunk, false),
            Some(needed) => {
                let newlines_in_chunk: usize = count_bytes(chunk, NEWLINE);
                if newlines_in_chunk >= needed {
                    if needed == 0 {
                        (chunk, true)
                    } else {
                        let kept = cut_lines(chunk, needed);
                        proof {
                            lemma_first_lines_len(chunk@, needed as nat);
                        }
                        (kept, true)
                    }
                } else {
                    proof {
                        lemma_first_lines_concat(chunk@, Seq::empty(), needed as nat);
                    }
                    self.remaining = Some(needed - newlines_in_chunk);
                    (chunk, false)
                }
            },
        }
    }
}

/// Taking lines makes nothing longer.
pub proof fn lemma_first_lines_len(s: Seq<u8>, n: nat)
    ensures
        first_lines(s, n).len() <= s.len(),
    decreases s.len(),
{
    if n > 0 && s.len() > 0 {
        lemma_first_lines_len(
            s.skip(1),
            if s[0] == NEWLINE {
                (n - 1) as nat
            } else {
                n
            },
        );
    }
}

/// The chunks that are sent of those that are read, each cut as the limit asks.
pub open spec fn served(limit: LineLimit, chunks: Seq<Seq<u8>>) -> Seq<Seq<u8>>
    decreases chunks.len(),
{
    if chunks.len() == 0 {
        Seq::empty()
    } else if limit.reached_by(chunks[0]) {
        seq![limit.kept(chunks[0])]
    } else {
        seq![limit.kept(chunks[0])] + served(limit.past(chunks[0]), chunks.skip(1))
    }
}

/// However the data is cut into chunks, a limit of `n` lines, one or more, sends exactly the
/// first `n` lines of the data; without a limit all of it is sent.
pub proof fn law_served_lines(limit: LineLimit, chunks: Seq<Seq<u8>>)
    requires
        limit.remaining != Some(0usize),
    ensures
        served(limit, chunks).flatten() == match limit.remaining {
            Some(n) => first_lines(chunks.flatten(), n as nat),
            None => chunks.flatten(),
        },
    decreases chunks.len(),
{
    if chunks.len() > 0 {
        let c = chunks[0];
        let rest = chunks.drop_first();
        assert(chunks.skip(1) =~= rest);
        let kept = limit.kept(c);
        match limit.remaining {
            Some(n) => {
                lemma_first_lines_concat(c, rest.flatten(), n as nat);
                lemma_first_lines_concat(c, Seq::empty(), n as nat);
            },
            None => {},
        }
        if limit.reached_by(c) {
            seq![kept].lemma_flatten_one_element();
        } else {
            law_served_lines(limit.past(c), rest);
            let more = served(limit.past(c), rest);
            assert((seq![kept] + more).drop_first() =~= more);
            assert((seq![kept] + more).first() == kept);
        }
    }
}

// ---------------------------------------------------------------- whole responses

/// Where a stream stands after some chunks.
pub open spec fn reached(chunks: Seq<Seq<u8>>) -> StreamState
    decreases chunks.len(),
{
    if chunks.len() == 0 {
        StreamState::at_start()
    } else {
        reached(chunks.drop_last()).after(chunks.last())
    }
}

/// What some chunks add to a response, one after the other.
pub open spec fn body(compact: bool, filename: Seq<char>, chunks: Seq<Seq<u8>>) -> Seq<u8>
    decreases chunks.len(),
{
    if chunks.len() == 0 {
        Seq::empty()
    } else {
        body(compact, filename, chunks.drop_last()) + reached(chunks.drop_last()).data_bytes(
            compact,
            filename,
            chunks.last(),
        )
    }
}

/// The meta frames of a packet that follows the given data.
pub open spec fn meta_after(filename: Seq<char>, done: Seq<u8>) -> Seq<FrameView> {
    meta_frames(filename, done.len() as u64, (1 + count_of(done, NEWLINE)) as u64)
}

/// What a reader of the response sees of some chunks: for each one the meta frames, which give
/// the number of bytes and of line feeds before it, and a frame with the chunk. In compact
/// mode only the first chunk has meta frames.
pub open spec fn body_frames(compact: bool, filename: Seq<char>, chunks: Seq<Seq<u8>>) -> Seq<
    FrameView,
>
    decreases chunks.len(),
{
    if chunks.len() == 0 {
        Seq::empty()
    } else {
        let before = chunks.drop_last();
        body_frames(compact, filename, before) + (if compact && before.len() > 0 {
            Seq::empty()
        } else {
            meta_after(filename, before.flatten())
        }) + seq![FrameView { letter: LETTER_D, data: chunks.last() }]
    }
}

/// Whether every chunk is short enough for a frame and the counters have room for all of them.
pub open spec fn streamable(chunks: Seq<Seq<u8>>) -> bool {
    &&& forall|i: int| 0 <= i < chunks.len() ==> sendable(#[trigger] chunks[i])
    &&& chunks.flatten().len() <= u64::MAX - 2
}

/// Every state that a stream can reach is well formed: its offset is the number of bytes sent,
/// and its line number is one more than the number of line feeds sent.
pub proof fn law_stream_position(chunks: Seq<Seq<u8>>)
    requires
        chunks.flatten().len() <= u64::MAX - 2,
    ensures
        reached(chunks).wf(),
        reached(chunks).offset == chunks.flatten().len(),
        reached(chunks).line_no == 1 + count_of(chunks.flatten(), NEWLINE),
        reached(chunks).started == (chunks.len() > 0),
        reached(chunks).last_chunk_ended_with_newline == (chunks.len() == 0 || (chunks.last().len()
            > 0 && chunks.last().last() == NEWLINE)),
    decreases chunks.len(),
{
    if chunks.len() > 0 {
        let before = chunks.drop_last();
        lemma_flatten_last(chunks);
        law_stream_position(before);
        lemma_count_concat(before.flatten(), chunks.last(), NEWLINE);
        lemma_count_bound(chunks.flatten(), NEWLINE);
    }
}

proof fn lemma_flatten_last(chunks: Seq<Seq<u8>>)
    requires
        chunks.len() > 0,
    ensures
        chunks.flatten() == chunks.drop_last().flatten() + chunks.last(),
{
    chunks.drop_last().lemma_flatten_push(chunks.last());
    assert(chunks.drop_last().push(chunks.last()) =~= chunks);
}

/// The frames of the packet of one chunk, as a reader sees them.
spec fn chunk_frames(compact: bool, filename: Seq<char>, before: Seq<Seq<u8>>, c: Seq<u8>) -> Seq<
    FrameView,
> {
    (if compact && before.len() > 0 {
        Seq::empty()
    } else {
        meta_after(filename, before.flatten())
    }) + seq![FrameView { letter: LETTER_D, data: c }]
}

/// The packet of one chunk is read back in front of whatever follows.
proof fn lemma_chunk_frames(
    compact: bool,
    filename: Seq<char>,
    before: Seq<Seq<u8>>,
    c: Seq<u8>,
    rest: Seq<u8>,
    rest_frames: Seq<FrameView>,
)
    requires
        sendable(encode_utf8(filename)),
        sendable(c),
        before.flatten().len() <= u64::MAX - 2,
        frames_of(rest) == Some(rest_frames),
    ensures
        frames_of(reached(before).data_bytes(compact, filename, c) + rest) == Some(
            chunk_frames(compact, filename, before, c) + rest_frames,
        ),
{
    let st = reached(before);
    law_stream_position(before);
    if compact && before.len() > 0 {
        law_frame_round_trip(LETTER_D, c, rest, rest_frames);
        assert(chunk_frames(compact, filename, before, c) =~= seq![
            FrameView { letter: LETTER_D, data: c },
        ]);
    } else {
        law_packet_round_trip(filename, st.offset, st.line_no, LETTER_D, c, rest, rest_frames);
    }
}

proof fn lemma_assoc<A>(a: Seq<A>, b: Seq<A>, c: Seq<A>)
    ensures
        (a + b) + c == a + (b + c),
{
    assert((a + b) + c =~= a + (b + c));
}

proof fn lemma_body_frames(
    compact: bool,
    filename: Seq<char>,
    chunks: Seq<Seq<u8>>,
    rest: Seq<u8>,
    rest_frames: Seq<FrameView>,
)
    requires
        sendable(encode_utf8(filename)),
        streamable(chunks),
        frames_of(rest) == Some(rest_frames),
    ensures
        frames_of(body(compact, filename, chunks) + rest) == Some(
            body_frames(compact, filename, chunks) + rest_frames,
        ),
    decreases chunks.len(),
{
    if chunks.len() == 0 {
        assert(body(compact, filename, chunks) + rest =~= rest);
        assert(body_frames(compact, filename, chunks) + rest_frames =~= rest_frames);
    } else {
        let before = chunks.drop_last();
        let c = chunks.last();
        lemma_flatten_last(chunks);
        assert(sendable(chunks[chunks.len() - 1]));
        assert forall|i: int| 0 <= i < before.len() implies sendable(#[trigger] before[i]) by {
            assert(before[i] == chunks[i]);
        }
        let packet = reached(before).data_bytes(compact, filename, c);
        let frames = chunk_frames(compact, filename, before, c);
        lemma_chunk_frames(compact, filename, before, c, rest, rest_frames);
        lemma_body_frames(compact, filename, before, packet + rest, frames + rest_frames);
        lemma_assoc(body(compact, filename, before), packet, rest);
        lemma_assoc(
            body_frames(compact, filename, before),
            if compact && before.len() > 0 {
                Seq::empty()
            } else {
                meta_after(filename, before.flatten())
            },
            seq![FrameView { letter: LETTER_D, data: c }],
        );
        lemma_assoc(body_frames(compact, filename, before), frames, rest_frames);
    }
}

/// The frames that end a stream, as a reader sees them.
pub open spec fn eof_frames(filename: Seq<char>, offset: u64, line_no: u64) -> Seq<FrameView> {
    meta_frames(filename, offset, line_no) + seq![
        FrameView { letter: LETTER_D, data: Seq::empty() },
    ]
}

proof fn lemma_eof_frames(filename: Seq<char>, offset: u64, line_no: u64)
    requires
        sendable(encode_utf8(filename)),
    ensures
        frames_of(eof_packet(filename, offset, line_no)) == Some(
            eof_frames(filename, offset, line_no),
        ),
{
    assert(frames_of(Seq::<u8>::empty()) == Some(Seq::<FrameView>::empty()));
    law_packet_round_trip(
        filename,
        offset,
        line_no,
        LETTER_D,
        Seq::empty(),
        Seq::empty(),
        Seq::empty(),
    );
    let eof = eof_packet(filename, offset, line_no);
    assert(eof + Seq::<u8>::empty() =~= eof);
    let frames = eof_frames(filename, offset, line_no);
    assert(frames + Seq::<FrameView>::empty() =~= frames);
}

/// The frames that report an error and end a stream, as a reader sees them.
pub open spec fn error_frames(
    with_meta: bool,
    filename: Seq<char>,
    offset: u64,
    line_no: u64,
    msg: Seq<char>,
) -> Seq<FrameView> {
    (if with_meta {
        meta_frames(filename, offset, line_no)
    } else {
        Seq::empty()
    }) + seq![FrameView { letter: LETTER_E, data: encode_utf8(msg) }] + eof_frames(
        filename,
        offset,
        line_no,
    )
}

proof fn lemma_error_frames(st: StreamState, compact: bool, filename: Seq<char>, msg: Seq<char>)
    requires
        sendable(encode_utf8(filename)),
        sendable(encode_utf8(msg)),
    ensures
        frames_of(st.error_bytes(compact, filename, msg)) == Some(
            error_frames(!(compact && st.started), filename, st.offset, st.line_no, msg),
        ),
{
    let eof = eof_packet(filename, st.offset, st.line_no);
    let after = eof_frames(filename, st.offset, st.line_no);
    let e = seq![FrameView { letter: LETTER_E, data: encode_utf8(msg) }];
    lemma_eof_frames(filename, st.offset, st.line_no);
    if compact && st.started {
        law_frame_round_trip(LETTER_E, encode_utf8(msg), eof, after);
        assert(error_frames(false, filename, st.offset, st.line_no, msg) =~= e + after);
    } else {
        law_packet_round_trip(
            filename,
            st.offset,
            st.line_no,
            LETTER_E,
            encode_utf8(msg),
            eof,
            after,
        );
    }
}

/// The number of lines of some data; a last line without a line feed counts.
pub open spec fn line_count(data: Seq<u8>) -> nat {
    if data.len() > 0 && data.last() != NEWLINE {
        count_of(data, NEWLINE) + 1
    } else {
        count_of(data, NEWLINE)
    }
}

/// A whole response is read back as the frames of its chunks, then the meta frames of the
/// totals and a data frame of length zero. Where no chunk is empty, the last line number is
/// one more than the number of lines.
pub proof fn law_stream_reads_back(compact: bool, filename: Seq<char>, chunks: Seq<Seq<u8>>)
    requires
        sendable(encode_utf8(filename)),
        streamable(chunks),
    ensures
        frames_of(
            body(compact, filename, chunks) + reached(chunks).eof_bytes(filename),
        ) == Some(
            body_frames(compact, filename, chunks) + eof_frames(
                filename,
                chunks.flatten().len() as u64,
                reached(chunks).final_line(),
            ),
        ),
        (forall|i: int| 0 <= i < chunks.len() ==> (#[trigger] chunks[i]).len() > 0)
            ==> reached(chunks).final_line() == 1 + line_count(chunks.flatten()),
{
    let st = reached(chunks);
    law_stream_position(chunks);
    lemma_count_bound(chunks.flatten(), NEWLINE);
    lemma_eof_frames(filename, st.offset, st.final_line());
    lemma_body_frames(
        compact,
        filename,
        chunks,
        st.eof_bytes(filename),
        eof_frames(filename, st.offset, st.final_line()),
    );
    if chunks.len() > 0 {
        lemma_flatten_last(chunks);
        if forall|i: int| 0 <= i < chunks.len() ==> (#[trigger] chunks[i]).len() > 0 {
            assert(chunks[chunks.len() - 1].len() > 0);
            assert(chunks.flatten().last() == chunks.last().last());
        }
    }
}

/// A response that fails after some chunks is read back as the frames of those chunks, an
/// error frame with the message, and the end of the stream. The position that goes with the
/// error, and with the end, is that of the data sent before it.
pub proof fn law_failed_stream_reads_back(
    compact: bool,
    filename: Seq<char>,
    chunks: Seq<Seq<u8>>,
    msg: Seq<char>,
)
    requires
        sendable(encode_utf8(filename)),
        sendable(encode_utf8(msg)),
        streamable(chunks),
    ensures
        frames_of(
            body(compact, filename, chunks) + reached(chunks).error_bytes(compact, filename, msg),
        ) == Some(
            body_frames(compact, filename, chunks) + error_frames(
                !(compact && chunks.len() > 0),
                filename,
                chunks.flatten().len() as u64,
                (1 + count_of(chunks.flatten(), NEWLINE)) as u64,
                msg,
            ),
        ),
{
    let st = reached(chunks);
    law_stream_position(chunks);
    lemma_error_frames(st, compact, filename, msg);
    lemma_body_frames(
        compact,
        filename,
        chunks,
        st.error_bytes(compact, filename, msg),
        error_frames(!(compact && st.started), filename, st.offset, st.line_no, msg),
    );
}

/// The data that the data frames among some frames carry, put together.
pub open spec fn payload(frames: Seq<FrameView>) -> Seq<u8>
    decreases frames.len(),
{
    if frames.len() == 0 {
        Seq::empty()
    } else {
        payload(frames.drop_last()) + if frames.last().letter == LETTER_D {
            frames.last().data
        } else {
            Seq::empty()
        }
    }
}

/// The data frames of a response carry the data, all of it and in order.
pub proof fn law_payload_is_the_data(compact: bool, filename: Seq<char>, chunks: Seq<Seq<u8>>)
    ensures
        payload(body_frames(compact, filename, chunks)) == chunks.flatten(),
    decreases chunks.len(),
{
    if chunks.len() == 0 {
    } else {
        let before = chunks.drop_last();
        law_payload_is_the_data(compact, filename, before);
        lemma_flatten_last(chunks);
        let head = body_frames(compact, filename, before);
        let metas: Seq<FrameView> = if compact && before.len() > 0 {
            Seq::empty()
        } else {
            meta_after(filename, before.flatten())
        };
        let d = FrameView { letter: LETTER_D, data: chunks.last() };
        let all = body_frames(compact, filename, chunks);
        assert(all.drop_last() =~= head + metas);
        assert(all.last() == d);
        if metas.len() == 0 {
            assert(head + metas =~= head);
        } else {
            let m2 = metas.drop_last();
            let m1 = m2.drop_last();
            assert((head + metas).drop_last() =~= head + m2);
            assert((head + m2).drop_last() =~= head + m1);
            assert((head + m1).drop_last() =~= head);
            assert(payload(head + m1) =~= payload(head));
            assert(payload(head + m2) =~= payload(head));
            assert(payload(head + metas) =~= payload(head));
        }
    }
}

/// The end of a stream carries no data.
pub proof fn lemma_payload_of_end(
    head: Seq<FrameView>,
    filename: Seq<char>,
    offset: u64,
    line_no: u64,
)
    ensures
        payload(head + eof_frames(filename, offset, line_no)) == payload(head),
{
    let tail = eof_frames(filename, offset, line_no);
    let t3 = tail.drop_last();
    let t2 = t3.drop_last();
    let t1 = t2.drop_last();
    assert((head + tail).drop_last() =~= head + t3);
    assert((head + t3).drop_last() =~= head + t2);
    assert((head + t2).drop_last() =~= head + t1);
    assert((head + t1).drop_last() =~= head);
    assert(payload(head + t1) =~= payload(head));
    assert(payload(head + t2) =~= payload(head));
    assert(payload(head + t3) =~= payload(head));
}

/// Whether a frame ends a stream: a data frame without data does.
pub open spec fn is_end(f: FrameView) -> bool {
    f.letter == LETTER_D && f.data.len() == 0
}

proof fn lemma_no_end_in_body(compact: bool, filename: Seq<char>, chunks: Seq<Seq<u8>>)
    requires
        forall|i: int| 0 <= i < chunks.len() ==> (#[trigger] chunks[i]).len() > 0,
    ensures
        forall|i: int|
            0 <= i < body_frames(compact, filename, chunks).len() ==> !is_end(
                #[trigger] body_frames(compact, filename, chunks)[i],
            ),
    decreases chunks.len(),
{
    if chunks.len() > 0 {
        let before = chunks.drop_last();
        assert forall|i: int| 0 <= i < before.len() implies (#[trigger] before[i]).len() > 0 by {
            assert(before[i] == chunks[i]);
        }
        lemma_no_end_in_body(compact, filename, before);
        let head = body_frames(compact, filename, before);
        let all = body_frames(compact, filename, chunks);
        assert(chunks[chunks.len() - 1].len() > 0);
        assert forall|i: int| 0 <= i < all.len() implies !is_end(#[trigger] all[i]) by {
            if i < head.len() {
                assert(all[i] == head[i]);
            }
        }
    }
}

/// Where no chunk is empty, the end of a stream cannot be mistaken: its last frame is the only
/// data frame without data.
pub proof fn law_only_the_last_frame_ends_a_stream(
    compact: bool,
    filename: Seq<char>,
    chunks: Seq<Seq<u8>>,
    offset: u64,
    line_no: u64,
)
    requires
        forall|i: int| 0 <= i < chunks.len() ==> (#[trigger] chunks[i]).len() > 0,
    ensures
        ({
            let all = body_frames(compact, filename, chunks) + eof_frames(
                filename,
                offset,
                line_no,
            );
            &&& is_end(all.last())
            &&& forall|i: int| 0 <= i < all.len() - 1 ==> !is_end(#[trigger] all[i])
        }),
{
    lemma_no_end_in_body(compact, filename, chunks);
    let head = body_frames(compact, filename, chunks);
    let tail = eof_frames(filename, offset, line_no);
    let all = head + tail;
    assert forall|i: int| 0 <= i < all.len() - 1 implies !is_end(#[trigger] all[i]) by {
        if i < head.len() {
            assert(all[i] == head[i]);
        } else {
            assert(all[i] == tail[i - head.len()]);
        }
    }
}

// ---------------------------------------------------------------- laws of packets

/// Whether three frames at a place among others are the meta frames of a packet: the name, the
/// offset and the line number.
pub open spec fn metas_at(
    frames: Seq<FrameView>,
    at: int,
    filename: Seq<char>,
    offset: int,
    line_no: int,
) -> bool {
    &&& 0 <= at && at + 2 < frames.len()
    &&& frames[at].letter == 0x46u8
    &&& frames[at].data == encode_utf8(filename)
    &&& frames[at + 1].letter == 0x4fu8
    &&& frames[at + 1].data.len() == 8
    &&& big_endian_value(frames[at + 1].data) == offset
    &&& frames[at + 2].letter == 0x4cu8
    &&& frames[at + 2].data.len() == 8
    &&& big_endian_value(frames[at + 2].data) == line_no
}

/// Whether a frame at a place among others has the given letter and data.
pub open spec fn frame_at(frames: Seq<FrameView>, at: int, letter: u8, data: Seq<u8>) -> bool {
    0 <= at < frames.len() && frames[at].letter == letter && frames[at].data == data
}

proof fn lemma_metas_at(
    head: Seq<FrameView>,
    filename: Seq<char>,
    offset: u64,
    line_no: u64,
    tail: Seq<FrameView>,
)
    ensures
        metas_at(
            head + meta_frames(filename, offset, line_no) + tail,
            head.len() as int,
            filename,
            offset as int,
            line_no as int,
        ),
{
    lemma_number_reads_back(offset);
    lemma_number_reads_back(line_no);
    let metas = meta_frames(filename, offset, line_no);
    let all = head + metas + tail;
    let n = head.len() as int;
    assert(all[n] == metas[0] && all[n + 1] == metas[1] && all[n + 2] == metas[2]);
}

proof fn lemma_number_reads_back(n: u64)
    ensures
        big_endian(n as nat, 8).len() == 8,
        big_endian_value(big_endian(n as nat, 8)) == n,
{
    reveal_with_fuel(byte_range, 9);
    law_big_endian_round_trip(n as nat, 8);
}

/// Whether the frames at a place among others are a packet with a chunk of data that follows
/// other data: the meta frames give the number of bytes and of line feeds before it.
pub open spec fn packet_at(
    frames: Seq<FrameView>,
    at: int,
    filename: Seq<char>,
    done: Seq<u8>,
    chunk: Seq<u8>,
) -> bool {
    &&& metas_at(frames, at, filename, done.len() as int, 1 + count_of(done, NEWLINE) as int)
    &&& frame_at(frames, at + 3, 0x44u8, chunk)
}

proof fn lemma_metas_moved(
    a: Seq<FrameView>,
    b: Seq<FrameView>,
    at: int,
    filename: Seq<char>,
    offset: int,
    line_no: int,
)
    requires
        metas_at(a, at, filename, offset, line_no),
    ensures
        metas_at(a + b, at, filename, offset, line_no),
{
    assert((a + b)[at] == a[at] && (a + b)[at + 1] == a[at + 1] && (a + b)[at + 2] == a[at + 2]);
}

proof fn lemma_packets_in_body(filename: Seq<char>, chunks: Seq<Seq<u8>>)
    requires
        chunks.flatten().len() <= u64::MAX - 2,
    ensures
        body_frames(false, filename, chunks).len() == 4 * chunks.len(),
        forall|k: int|
            0 <= k < chunks.len() ==> #[trigger] packet_at(
                body_frames(false, filename, chunks),
                4 * k,
                filename,
                chunks.take(k).flatten(),
                chunks[k],
            ),
    decreases chunks.len(),
{
    if chunks.len() > 0 {
        let before = chunks.drop_last();
        let n = before.len() as int;
        lemma_flatten_last(chunks);
        lemma_packets_in_body(filename, before);
        let done = before.flatten();
        lemma_count_bound(done, NEWLINE);
        let head = body_frames(false, filename, before);
        let d = seq![FrameView { letter: LETTER_D, data: chunks.last() }];
        let all = body_frames(false, filename, chunks);
        assert(all =~= head + meta_after(filename, done) + d);
        lemma_metas_at(
            head,
            filename,
            done.len() as u64,
            (1 + count_of(done, NEWLINE)) as u64,
            d,
        );
        assert forall|k: int| 0 <= k < chunks.len() implies #[trigger] packet_at(
            all,
            4 * k,
            filename,
            chunks.take(k).flatten(),
            chunks[k],
        ) by {
            if k < n {
                assert(packet_at(head, 4 * k, filename, before.take(k).flatten(), before[k]));
                assert(before.take(k) =~= chunks.take(k));
                let done_k = chunks.take(k).flatten();
                lemma_metas_moved(
                    head,
                    meta_after(filename, done) + d,
                    4 * k,
                    filename,
                    done_k.len() as int,
                    1 + count_of(done_k, NEWLINE) as int,
                );
                assert(head + (meta_after(filename, done) + d) =~= all);
                assert(all[4 * k + 3] == head[4 * k + 3]);
            } else {
                assert(chunks.take(k) =~= before);
                assert(all[4 * k + 3] == d[0]);
            }
        }
    }
}

/// The packets of the chunks are seen in front of whatever follows.
proof fn lemma_packets_in_front(filename: Seq<char>, chunks: Seq<Seq<u8>>, tail: Seq<FrameView>)
    requires
        chunks.flatten().len() <= u64::MAX - 2,
    ensures
        body_frames(false, filename, chunks).len() == 4 * chunks.len(),
        forall|k: int|
            0 <= k < chunks.len() ==> #[trigger] packet_at(
                body_frames(false, filename, chunks) + tail,
                4 * k,
                filename,
                chunks.take(k).flatten(),
                chunks[k],
            ),
{
    lemma_packets_in_body(filename, chunks);
    let head = body_frames(false, filename, chunks);
    let all = head + tail;
    assert forall|k: int| 0 <= k < chunks.len() implies #[trigger] packet_at(
        all,
        4 * k,
        filename,
        chunks.take(k).flatten(),
        chunks[k],
    ) by {
        assert(packet_at(head, 4 * k, filename, chunks.take(k).flatten(), chunks[k]));
        let done = chunks.take(k).flatten();
        lemma_metas_moved(
            head,
            tail,
            4 * k,
            filename,
            done.len() as int,
            1 + count_of(done, NEWLINE) as int,
        );
        assert(all[4 * k + 3] == head[4 * k + 3]);
    }
}

/// The end of a stream is seen behind whatever precedes it.
proof fn lemma_end_behind(head: Seq<FrameView>, filename: Seq<char>, o: u64, l: u64)
    ensures
        ({
            let all = head + eof_frames(filename, o, l);
            &&& all.len() == head.len() + 4
            &&& metas_at(all, head.len() as int, filename, o as int, l as int)
            &&& frame_at(all, head.len() as int + 3, 0x44u8, Seq::empty())
        }),
{
    let end = seq![FrameView { letter: LETTER_D, data: Seq::<u8>::empty() }];
    let all = head + eof_frames(filename, o, l);
    lemma_metas_at(head, filename, o, l, end);
    assert(all =~= head + meta_frames(filename, o, l) + end);
    assert(all[head.len() as int + 3] == end[0]);
}

/// An error is seen behind whatever precedes it, with the end of the stream behind it.
proof fn lemma_error_behind(
    head: Seq<FrameView>,
    filename: Seq<char>,
    o: u64,
    l: u64,
    msg: Seq<char>,
)
    ensures
        ({
            let all = head + error_frames(true, filename, o, l, msg);
            let n = head.len() as int;
            &&& all.len() == n + 8
            &&& metas_at(all, n, filename, o as int, l as int)
            &&& frame_at(all, n + 3, 0x45u8, encode_utf8(msg))
            &&& metas_at(all, n + 4, filename, o as int, l as int)
            &&& frame_at(all, n + 7, 0x44u8, Seq::empty())
        }),
{
    let metas = meta_frames(filename, o, l);
    let e = seq![FrameView { letter: LETTER_E, data: encode_utf8(msg) }];
    let eof = eof_frames(filename, o, l);
    let all = head + error_frames(true, filename, o, l, msg);
    lemma_metas_at(head, filename, o, l, e + eof);
    assert(all =~= head + metas + (e + eof));
    assert(all[head.len() as int + 3] == e[0]);
    let middle = head + metas + e;
    assert(all =~= middle + eof);
    lemma_end_behind(middle, filename, o, l);
}

/// A reader of a response sees one packet for each chunk, with the name, the number of bytes and
/// of line feeds before the chunk, and the chunk; then the packet that ends the stream, with the
/// totals. A last line without a line feed counts in the last line number.
pub proof fn law_packets_of_a_stream(filename: Seq<char>, chunks: Seq<Seq<u8>>)
    requires
        sendable(encode_utf8(filename)),
        streamable(chunks),
        forall|i: int| 0 <= i < chunks.len() ==> (#[trigger] chunks[i]).len() > 0,
    ensures
        ({
            let frames = frames_of(
                body(false, filename, chunks) + reached(chunks).eof_bytes(filename),
            );
            let n = chunks.len() as int;
            let data = chunks.flatten();
            &&& frames is Some
            &&& frames->0.len() == 4 * n + 4
            &&& forall|k: int|
                0 <= k < n ==> #[trigger] packet_at(
                    frames->0,
                    4 * k,
                    filename,
                    chunks.take(k).flatten(),
                    chunks[k],
                )
            &&& metas_at(
                frames->0,
                4 * n,
                filename,
                data.len() as int,
                1 + count_of(data, NEWLINE) + if data.len() > 0 && data.last() != 10u8 {
                    1int
                } else {
                    0
                },
            )
            &&& frame_at(frames->0, 4 * n + 3, 0x44u8, Seq::empty())
        }),
{
    law_stream_reads_back(false, filename, chunks);
    law_stream_position(chunks);
    let data = chunks.flatten();
    let line = reached(chunks).final_line();
    lemma_packets_in_front(filename, chunks, eof_frames(filename, data.len() as u64, line));
    lemma_end_behind(body_frames(false, filename, chunks), filename, data.len() as u64, line);
}

/// A reader of a response that fails sees the packets of the chunks, and then two packets at the
/// position that the data has reached: one with the message, and the end of the stream.
pub proof fn law_packets_of_a_failed_stream(
    filename: Seq<char>,
    chunks: Seq<Seq<u8>>,
    msg: Seq<char>,
)
    requires
        sendable(encode_utf8(filename)),
        sendable(encode_utf8(msg)),
        streamable(chunks),
    ensures
        ({
            let frames = frames_of(
                body(false, filename, chunks) + reached(chunks).error_bytes(false, filename, msg),
            );
            let n = chunks.len() as int;
            let data = chunks.flatten();
            let line = 1 + count_of(data, NEWLINE);
            &&& frames is Some
            &&& frames->0.len() == 4 * n + 8
            &&& forall|k: int|
                0 <= k < n ==> #[trigger] packet_at(
                    frames->0,
                    4 * k,
                    filename,
                    chunks.take(k).flatten(),
                    chunks[k],
                )
            &&& metas_at(frames->0, 4 * n, filename, data.len() as int, line as int)
            &&& frame_at(frames->0, 4 * n + 3, 0x45u8, encode_utf8(msg))
            &&& metas_at(frames->0, 4 * n + 4, filename, data.len() as int, line as int)
            &&& frame_at(frames->0, 4 * n + 7, 0x44u8, Seq::empty())
        }),
{
    law_failed_stream_reads_back(false, filename, chunks, msg);
    let data = chunks.flatten();
    lemma_count_bound(data, NEWLINE);
    let o = data.len() as u64;
    let l = (1 + count_of(data, NEWLINE)) as u64;
    lemma_packets_in_front(filename, chunks, error_frames(true, filename, o, l, msg));
    lemma_error_behind(body_frames(false, filename, chunks), filename, o, l, msg);
}

proof fn lemma_compact_body(filename: Seq<char>, chunks: Seq<Seq<u8>>)
    requires
        chunks.len() > 0,
    ensures
        body_frames(true, filename, chunks).len() == 3 + chunks.len(),
        metas_at(body_frames(true, filename, chunks), 0, filename, 0, 1),
        forall|k: int|
            0 <= k < chunks.len() ==> #[trigger] frame_at(
                body_frames(true, filename, chunks),
                3 + k,
                0x44u8,
                chunks[k],
            ),
    decreases chunks.len(),
{
    let before = chunks.drop_last();
    let all = body_frames(true, filename, chunks);
    let d = seq![FrameView { letter: LETTER_D, data: chunks.last() }];
    if before.len() == 0 {
        assert(before =~= Seq::empty());
        assert(before.flatten() =~= Seq::empty());
        assert(body_frames(true, filename, before) =~= Seq::empty());
        assert(count_of(before.flatten(), NEWLINE) == 0);
        lemma_metas_at(Seq::empty(), filename, 0, 1, d);
        assert(all =~= Seq::<FrameView>::empty() + meta_frames(filename, 0, 1) + d);
        assert(all[3] == d[0]);
    } else {
        lemma_compact_body(filename, before);
        let head = body_frames(true, filename, before);
        assert(all =~= head + d);
        lemma_metas_moved(head, d, 0, filename, 0, 1);
        assert forall|k: int| 0 <= k < chunks.len() implies #[trigger] frame_at(
            all,
            3 + k,
            0x44u8,
            chunks[k],
        ) by {
            if k < before.len() {
                assert(frame_at(head, 3 + k, 0x44u8, before[k]));
                assert(all[3 + k] == head[3 + k]);
            } else {
                assert(all[3 + k] == d[0]);
            }
        }
    }
}

/// In compact mode a reader sees the meta frames of the start, a data frame for each chunk, and
/// the packet that ends the stream, with the totals.
pub proof fn law_packets_of_a_compact_stream(filename: Seq<char>, chunks: Seq<Seq<u8>>)
    requires
        sendable(encode_utf8(filename)),
        streamable(chunks),
        chunks.len() > 0,
        forall|i: int| 0 <= i < chunks.len() ==> (#[trigger] chunks[i]).len() > 0,
    ensures
        ({
            let frames = frames_of(
                body(true, filename, chunks) + reached(chunks).eof_bytes(filename),
            );
            let n = chunks.len() as int;
            let data = chunks.flatten();
            &&& frames is Some
            &&& frames->0.len() == n + 7
            &&& metas_at(frames->0, 0, filename, 0, 1)
            &&& forall|k: int|
                0 <= k < n ==> #[trigger] frame_at(frames->0, 3 + k, 0x44u8, chunks[k])
            &&& metas_at(
                frames->0,
                n + 3,
                filename,
                data.len() as int,
                1 + count_of(data, NEWLINE) + if data.last() != 10u8 {
                    1int
                } else {
                    0
                },
            )
            &&& frame_at(frames->0, n + 6, 0x44u8, Seq::empty())
        }),
{
    law_stream_reads_back(true, filename, chunks);
    lemma_compact_body(filename, chunks);
    law_stream_position(chunks);
    lemma_flatten_last(chunks);
    assert(chunks[chunks.len() - 1].len() > 0);
    let st = reached(chunks);
    let n = chunks.len() as int;
    let o = chunks.flatten().len() as u64;
    let head = body_frames(true, filename, chunks);
    let all = head + eof_frames(filename, o, st.final_line());
    lemma_metas_moved(head, eof_frames(filename, o, st.final_line()), 0, filename, 0, 1);
    lemma_end_behind(head, filename, o, st.final_line());
    assert forall|k: int| 0 <= k < n implies #[trigger] frame_at(all, 3 + k, 0x44u8, chunks[k]) by {
        assert(frame_at(head, 3 + k, 0x44u8, chunks[k]));
        assert(all[3 + k] == head[3 + k]);
    }
}

/// In compact mode an error behind some data is a single frame, and the end of the stream has
/// its meta frames.
pub proof fn law_packets_of_a_failed_compact_stream(
    filename: Seq<char>,
    chunks: Seq<Seq<u8>>,
    msg: Seq<char>,
)
    requires
        sendable(encode_utf8(filename)),
        sendable(encode_utf8(msg)),
        streamable(chunks),
        chunks.len() > 0,
    ensures
        ({
            let frames = frames_of(
                body(true, filename, chunks) + reached(chunks).error_bytes(true, filename, msg),
            );
            let n = chunks.len() as int;
            let data = chunks.flatten();
            &&& frames is Some
            &&& frames->0.len() == n + 8
            &&& metas_at(frames->0, 0, filename, 0, 1)
            &&& forall|k: int|
                0 <= k < n ==> #[trigger] frame_at(frames->0, 3 + k, 0x44u8, chunks[k])
            &&& frame_at(frames->0, n + 3, 0x45u8, encode_utf8(msg))
            &&& metas_at(
                frames->0,
                n + 4,
                filename,
                data.len() as int,
                1 + count_of(data, NEWLINE) as int,
            )
            &&& frame_at(frames->0, n + 7, 0x44u8, Seq::empty())
        }),
{
    law_failed_stream_reads_back(true, filename, chunks, msg);
    lemma_compact_body(filename, chunks);
    let n = chunks.len() as int;
    let data = chunks.flatten();
    lemma_count_bound(data, NEWLINE);
    let o = data.len() as u64;
    let l = (1 + count_of(data, NEWLINE)) as u64;
    let head = body_frames(true, filename, chunks);
    let e = seq![FrameView { letter: LETTER_E, data: encode_utf8(msg) }];
    let tail = error_frames(false, filename, o, l, msg);
    let all = head + tail;
    assert(tail =~= e + eof_frames(filename, o, l));
    assert(all =~= (head + e) + eof_frames(filename, o, l));
    lemma_metas_moved(head, tail, 0, filename, 0, 1);
    lemma_end_behind(head + e, filename, o, l);
    assert(all[n + 3] == e[0]);
    assert forall|k: int| 0 <= k < n implies #[trigger] frame_at(all, 3 + k, 0x44u8, chunks[k]) by {
        assert(frame_at(head, 3 + k, 0x44u8, chunks[k]));
        assert(all[3 + k] == head[3 + k]);
    }
}

/// The first lines of some data are its beginning, up to the end of the last line that is asked
/// for: they hold as many line feeds as were asked for, or all that there are; and where they
/// are not all of the data, they end with a line feed.
pub proof fn law_first_lines(s: Seq<u8>, n: nat)
    ensures
        first_lines(s, n).len() <= s.len(),
        first_lines(s, n) == s.take(first_lines(s, n).len() as int),
        count_of(first_lines(s, n), 10u8) == if count_of(s, 10u8) < n {
            count_of(s, 10u8)
        } else {
            n
        },
        count_of(s, 10u8) < n ==> first_lines(s, n) == s,
        first_lines(s, n).len() > 0 && first_lines(s, n) != s ==> first_lines(s, n).last() == 10u8,
    decreases s.len(),
{
    if n == 0 || s.len() == 0 {
        assert(first_lines(s, n) =~= s.take(0));
        if s.len() == 0 {
            assert(first_lines(s, n) =~= s);
        }
    } else {
        let t = s.skip(1);
        let m = if s[0] == NEWLINE {
            (n - 1) as nat
        } else {
            n
        };
        law_first_lines(t, m);
        let rest = first_lines(t, m);
        let all = first_lines(s, n);
        assert(all == seq![s[0]] + rest);
        assert(s =~= seq![s[0]] + t);
        lemma_count_concat(seq![s[0]], rest, NEWLINE);
        lemma_count_concat(seq![s[0]], t, NEWLINE);
        lemma_count_one(s[0]);
        assert(all =~= s.take(all.len() as int)) by {
            assert(s.take(all.len() as int) =~= seq![s[0]] + t.take(rest.len() as int));
        }
        if rest.len() > 0 {
            assert(all.last() == rest.last());
            if all != s {
                assert(rest != t);
            }
        } else if all != s {
            assert(t.len() > 0);
            if m > 0 {
                // A line that is still wanted has at least one byte.
                assert(first_lines(t, m) == seq![t[0]] + first_lines(
                    t.skip(1),
                    if t[0] == NEWLINE {
                        (m - 1) as nat
                    } else {
                        m
                    },
                ));
            }
        }
    }
}

/// A limit of zero lines lets the first chunk through as a whole, and then ends the response.
pub proof fn law_limit_of_zero(chunks: Seq<Seq<u8>>)
    requires
        chunks.len() > 0,
    ensures
        served(LineLimit { remaining: Some(0) }, chunks) == seq![chunks[0]],
{
}

/// What each event adds to a response, and what it does to the position, for every state, name
/// and chunk: a chunk is a packet at the position so far, or in compact mode behind the first
/// one a data frame alone; the end counts a last line without a line feed; an error is reported
/// at the position so far, with the end of the stream behind it.
pub proof fn law_what_events_add(
    st: StreamState,
    compact: bool,
    filename: Seq<char>,
    csv: Seq<u8>,
    msg: Seq<char>,
)
    requires
        st.wf(),
        st.offset + csv.len() <= u64::MAX - 2,
    ensures
        st.room_for(csv),
        st.after(csv).offset == st.offset + csv.len(),
        st.after(csv).line_no == st.line_no + count_of(csv, 10u8),
        st.after(csv).started,
        st.after(csv).last_chunk_ended_with_newline <==> csv.len() > 0 && csv.last() == 10u8,
        !(compact && st.started) ==> st.data_bytes(compact, filename, csv) == data_packet(
            filename,
            st.offset,
            st.line_no,
            csv,
        ),
        compact && st.started ==> st.data_bytes(compact, filename, csv) == frame(0x44u8, csv),
        st.eof_bytes(filename) == eof_packet(
            filename,
            st.offset,
            if !st.last_chunk_ended_with_newline && st.offset > 0 {
                (st.line_no + 1) as u64
            } else {
                st.line_no
            },
        ),
        !(compact && st.started) ==> st.error_bytes(compact, filename, msg) == error_packet(
            filename,
            st.offset,
            st.line_no,
            msg,
        ) + eof_packet(filename, st.offset, st.line_no),
        compact && st.started ==> st.error_bytes(compact, filename, msg) == frame(
            0x45u8,
            encode_utf8(msg),
        ) + eof_packet(filename, st.offset, st.line_no),
        StreamState::at_start().offset == 0,
        StreamState::at_start().line_no == 1,
        StreamState::at_start().last_chunk_ended_with_newline,
        !StreamState::at_start().started,
{
    lemma_count_bound(csv, NEWLINE);
}

/// What can be streamed: chunks whose lengths can be stated in a frame, as long as the counters
/// have room for all of them.
pub proof fn law_what_can_be_streamed(chunks: Seq<Seq<u8>>)
    ensures
        streamable(chunks) <==> chunks.flatten().len() <= u64::MAX - 2 && forall|i: int|
            0 <= i < chunks.len() ==> (#[trigger] chunks[i]).len() <= 0xffff_ffff,
{
    if streamable(chunks) {
        assert forall|i: int| 0 <= i < chunks.len() implies (#[trigger] chunks[i]).len()
            <= 0xffff_ffff by {
            assert(sendable(chunks[i]));
        }
    }
    if forall|i: int| 0 <= i < chunks.len() ==> (#[trigger] chunks[i]).len() <= 0xffff_ffff {
        assert forall|i: int| 0 <= i < chunks.len() implies sendable(#[trigger] chunks[i]) by {
            assert(chunks[i].len() <= 0xffff_ffff);
        }
    }
}

} // verus!
