//! The routes of the server: what a request asks for, and what is sent in answer to it.
//!
//! Whatever waits (for the network, for files, for the query engine) stays outside. What is
//! done here between two waits appends to an output that is then to be sent.

use crate::df_engine::{view_name, DFEngine, DFRequest, QueryView, TableType};
use crate::frame::{
    eof_packet, error_packet, frameable, frames_of, put, sendable, write_eof_packet,
    write_error_packet,
};
use crate::http::{
    error_response, head_ends_at, head_text, law_head_does_not_depend_on_chunks,
    law_same_heads_make_the_same_request, lemma_encode_concat, ok_head, read_request, received,
    request_in, route, route_of, same_head, send_error, send_ok, MAX_HEAD, Request, RequestView,
    Route, RouteView,
};
use crate::number::{
    decimal, is_digit, law_decimal_injective, law_decimal_round_trip, law_numbers_above_the_limit,
    law_what_is_no_number, lemma_decimal_digits, parse_unsigned, push_decimal, unsigned,
};
use crate::outside::{alphanumeric, ascii_alphanumeric};
use crate::session::{
    all_wf, completed, decision, extract_session_key, failed, named, opt_key, remembered, requested,
    session_key_of, KeyView, SessionDecision, SessionKey, SessionManager, Sessions,
};
use crate::stream::{
    body, body_frames, first_lines, law_packets_of_a_stream, law_payload_is_the_data,
    law_served_lines, law_stream_reads_back, lemma_first_lines_len, lemma_payload_of_end, packet_at,
    payload, reached, served, streamable, LineLimit, StreamState,
};
use crate::text::{
    chars_of, contains_run, contains_two_dots, find_char, first_index, is_text, join, join_slices,
    joined, law_joined_pieces_are_found, law_stripped_text, opt_text, skip_leading, split,
    split_at_char, string_of, strip_front, texts, trim, trimmed, views,
};
use crate::util::{
    decode_chars, decoded, law_query_is_found, parameters, percent_decode, query_map_of,
    query_pairs, with_query, StringMap,
};
use vstd::prelude::*;
use vstd::slice::slice_subrange;
use vstd::string::*;
use vstd::utf8::encode_utf8;

verus! {

// ---------------------------------------------------------------- configuration

/// What the server is built to do beyond serving files and parquet tables.
#[derive(Debug, Clone, Copy, PartialEq, Eq, Structural)]
pub struct Features {
    /// Whether Delta tables are served.
    pub delta: bool,
    /// Whether Iceberg tables are served.
    pub iceberg: bool,
    /// Whether meta frames are sent only with the first packet and with the end of a stream.
    pub compact_meta: bool,
}

/// How long a completed session is remembered, in nanoseconds.
pub const SESSION_TTL: u128 = 300_000_000_000;

/// Whether the answers to repeated requests give the error of the session: only where the
/// variable that says so (`GPFDIST_SESSION_REPEAT_ERROR`) is `true`.
pub fn session_repeat_error_frame(value: Option<&str>) -> (r: bool)
    ensures
        r == (value is Some && value->0@ == "true"@),
{
    match value {
        Some(text) => {
            let chars = chars_of(text);
            is_text(chars.as_slice(), "true")
        },
        None => false,
    }
}

/// The server: where it listens, what it is built to do, and how it plans queries.
pub struct Server {
    pub addr: String,
    pub features: Features,
    pub df_engine: DFEngine,
}

impl Server {
    /// A server for the given address, without any of the additional features.
    pub fn new(addr: String) -> (r: Self)
        ensures
            r.addr@ == addr@,
            r.features == (Features { delta: false, iceberg: false, compact_meta: false }),
            r.df_engine == (DFEngine { views: 0 }),
    {
        Server {
            addr,
            features: Features { delta: false, iceberg: false, compact_meta: false },
            df_engine: DFEngine::new(),
        }
    }
}

// ---------------------------------------------------------------- table names

/// Whether a character may stand in the name of a table.
pub open spec fn name_char(c: char) -> bool {
    c == '_' || if (c as u32) < 128 {
        ascii_alphanumeric(c)
    } else {
        alphanumeric(c)
    }
}

/// A text without the characters that may not stand in the name of a table.
pub open spec fn sanitized(s: Seq<char>) -> Seq<char>
    decreases s.len(),
{
    if s.len() == 0 {
        Seq::empty()
    } else if name_char(s.last()) {
        sanitized(s.drop_last()).push(s.last())
    } else {
        sanitized(s.drop_last())
    }
}

/// The name for a table: its source, the segment and the time.
pub open spec fn table_name(source: Seq<char>, segid: Option<usize>, nanos: u128) -> Seq<char> {
    let sid = match segid {
        Some(n) => n as nat,
        None => 0,
    };
    sanitized(source) + "_seg"@ + decimal(sid) + "_"@ + decimal(nanos as nat)
}

/// Makes a name for a table. `nanos` is the time in nanoseconds since the start of 1970.
pub fn make_unique_table_name(source: &str, segid: Option<usize>, nanos: u128) -> (r: String)
    ensures
        r@ == table_name(source@, segid, nanos),
{
    let chars = chars_of(source);
    let mut name = String::new();
    assert(name@ =~= Seq::empty());
    for i in 0..chars.len()
        invariant
            chars@ == source@,
            name@ == sanitized(source@.take(i as int)),
    {
        proof {
            assert(source@.take(i + 1).drop_last() =~= source@.take(i as int));
            assert(source@.take(i + 1).last() == chars@[i as int]);
        }
        let c: char = chars[i];
        if c.is_alphanumeric() || c == '_' {
            name.push(c);
        }
    }
    assert(source@.take(source@.len() as int) =~= source@);
    let sid: usize = match segid {
        Some(n) => n,
        None => 0,
    };
    name.append("_seg");
    push_decimal(&mut name, sid as u128);
    name.append("_");
    push_decimal(&mut name, nanos);
    name
}

proof fn lemma_split_at_last(x: Seq<char>, a: Seq<char>, y: Seq<char>, b: Seq<char>, c: char)
    requires
        x.push(c) + a == y.push(c) + b,
        !a.contains(c),
        !b.contains(c),
    ensures
        x == y,
        a == b,
{
    let s = x.push(c) + a;
    let t = y.push(c) + b;
    assert(s.len() == x.len() + 1 + a.len());
    assert(t.len() == y.len() + 1 + b.len());
    assert(s[x.len() as int] == c);
    assert(t[y.len() as int] == c);
    if x.len() < y.len() {
        let k = y.len() - x.len() - 1;
        assert(s[y.len() as int] == a[k]);
        assert(a.contains(c));
    } else if y.len() < x.len() {
        let k = x.len() - y.len() - 1;
        assert(t[x.len() as int] == b[k]);
        assert(b.contains(c));
    }
    assert(x =~= s.take(x.len() as int));
    assert(y =~= s.take(y.len() as int));
    assert(a =~= s.skip(x.len() as int + 1));
    assert(b =~= s.skip(y.len() as int + 1));
}

/// Table names are unique: two of them are the same only where the segments and the times are
/// the same, and the sources differ at most in characters that are left out.
pub proof fn law_table_names_are_unique(
    source1: Seq<char>,
    segid1: Option<usize>,
    nanos1: u128,
    source2: Seq<char>,
    segid2: Option<usize>,
    nanos2: u128,
)
    requires
        table_name(source1, segid1, nanos1) == table_name(source2, segid2, nanos2),
    ensures
        nanos1 == nanos2,
        (match segid1 {
            Some(n) => n,
            None => 0,
        }) == (match segid2 {
            Some(n) => n,
            None => 0,
        }),
        sanitized(source1) == sanitized(source2),
{
    reveal_strlit("_seg");
    reveal_strlit("_");
    let sid1 = match segid1 {
        Some(n) => n as nat,
        None => 0,
    };
    let sid2 = match segid2 {
        Some(n) => n as nat,
        None => 0,
    };
    let d1 = decimal(sid1);
    let d2 = decimal(sid2);
    let n1 = decimal(nanos1 as nat);
    let n2 = decimal(nanos2 as nat);
    law_decimal_injective(nanos1 as nat, nanos2 as nat);
    law_decimal_injective(nanos2 as nat, nanos1 as nat);
    law_decimal_injective(sid1, sid2);
    lemma_decimal_digits(sid1);
    lemma_decimal_digits(sid2);
    let h1 = sanitized(source1) + "_seg"@ + d1;
    let h2 = sanitized(source2) + "_seg"@ + d2;
    assert(table_name(source1, segid1, nanos1) =~= h1.push('_') + n1);
    assert(table_name(source2, segid2, nanos2) =~= h2.push('_') + n2);
    lemma_split_at_last(h1, n1, h2, n2, '_');
    let g1 = sanitized(source1).push('_').push('s').push('e');
    let g2 = sanitized(source2).push('_').push('s').push('e');
    assert(h1 =~= g1.push('g') + d1);
    assert(h2 =~= g2.push('g') + d2);
    lemma_split_at_last(g1, d1, g2, d2, 'g');
    assert(sanitized(source1) =~= g1.take(g1.len() - 3));
    assert(sanitized(source2) =~= g2.take(g2.len() - 3));
}

// ---------------------------------------------------------------- parameters

/// The number that a parameter or a header gives, where it gives one.
pub open spec fn number_in(map: Map<Seq<char>, Seq<char>>, key: Seq<char>) -> Option<usize> {
    if map.contains_key(key) {
        match unsigned(map[key], 10, usize::MAX as int) {
            Some(n) => Some(n as usize),
            None => None,
        }
    } else {
        None
    }
}

fn get_number(map: &StringMap, key: &str) -> (r: Option<usize>)
    ensures
        r == number_in(map@, key@),
{
    match map.get(key) {
        Some(text) => {
            let chars = chars_of(text.as_str());
            match parse_unsigned(chars.as_slice(), 10, usize::MAX as u64) {
                Some(n) => Some(n as usize),
                None => None,
            }
        },
        None => None,
    }
}

/// The items of an encoded list: what stands between its commas, without white space around it.
pub open spec fn list_items(s: Seq<char>) -> Seq<Seq<char>> {
    split(decoded(s), ',').map_values(|item: Seq<char>| trimmed(item))
}

/// The list that a parameter gives, where it gives one.
pub open spec fn list_in(map: Map<Seq<char>, Seq<char>>, key: Seq<char>) -> Option<
    Seq<Seq<char>>,
> {
    if map.contains_key(key) {
        Some(list_items(map[key]))
    } else {
        None
    }
}

fn get_list(map: &StringMap, key: &str) -> (r: Option<Vec<String>>)
    ensures
        crate::text::opt_texts(r) == list_in(map@, key@),
{
    match map.get(key) {
        Some(text) => {
            let chars = chars_of(text.as_str());
            let plain = decode_chars(chars.as_slice());
            let items = split_at_char(plain.as_slice(), ',');
            let mut out: Vec<String> = Vec::new();
            let ghost expected = list_items(text@);
            assert(views(items@).len() == items@.len());
            for i in 0..items.len()
                invariant
                    views(items@) == split(decoded(text@), ','),
                    views(items@).len() == items@.len(),
                    expected == list_items(text@),
                    expected.len() == items@.len(),
                    texts(out@) == expected.take(i as int),
                    out@.len() == i,
            {
                let item = string_of(trim(items[i]));
                assert(views(items@)[i as int] == items@[i as int]@);
                assert(expected[i as int] == item@);
                out.push(item);
                assert(texts(out@) =~= expected.take(i + 1));
            }
            assert(expected.take(expected.len() as int) =~= expected);
            Some(out)
        },
        None => None,
    }
}

// ---------------------------------------------------------------- planning a query

/// The parts of the path of a request, without its query.
pub open spec fn path_parts(path: Seq<char>) -> Seq<Seq<char>> {
    split(path.take(first_index(path, '?')), '/')
}

/// The kind of table that a source names, where it is served.
pub open spec fn table_type_of(source: Seq<char>, features: Features) -> Result<
    TableType,
    Seq<char>,
> {
    if source == "parquet"@ {
        Ok(TableType::Parquet)
    } else if source == "delta"@ {
        if features.delta {
            Ok(TableType::Delta)
        } else {
            Err("Delta feature not enabled"@)
        }
    } else if source == "iceberg"@ {
        if features.iceberg {
            Ok(TableType::Iceberg)
        } else {
            Err("Iceberg feature not enabled"@)
        }
    } else {
        Err("Unknown source type"@)
    }
}

/// The location of a table: the parameter `path`, or else the rest of the path behind the
/// source, decoded, where there is one.
pub open spec fn location_of(
    parts: Seq<Seq<char>>,
    params: Map<Seq<char>, Seq<char>>,
) -> Option<Seq<char>> {
    if params.contains_key("path"@) {
        Some(params["path"@])
    } else if parts.len() > 3 && join(parts.skip(3), seq!['/']).len() > 0 {
        Some(decoded(join(parts.skip(3), seq!['/'])))
    } else {
        None
    }
}

/// What a request for a query asks for.
pub struct DfPlan {
    /// The source, as the path names it.
    pub source: String,
    pub request: DFRequest,
    /// The session, where the request belongs to one that is to be kept.
    pub session: Option<SessionKey>,
}

/// What a request for a query asks for, as a value.
pub struct DfPlanView {
    pub source: Seq<char>,
    pub query: QueryView,
    pub session: Option<KeyView>,
}

impl View for DfPlan {
    type V = DfPlanView;

    open spec fn view(&self) -> DfPlanView {
        DfPlanView {
            source: self.source@,
            query: self.request@,
            session: opt_key(self.session),
        }
    }
}

/// A plan or a message, as a value.
pub open spec fn df_plan_view(r: Result<DfPlan, &'static str>) -> Result<DfPlanView, Seq<char>> {
    match r {
        Ok(plan) => Ok(plan@),
        Err(message) => Err(message@),
    }
}

/// What a request for a query asks for, or why it is refused. A session is kept only for a
/// Delta or Iceberg table that is read as a whole. A table gets a name where a location and no
/// list of files is given.
pub open spec fn df_plan_of(
    path: Seq<char>,
    headers: Map<Seq<char>, Seq<char>>,
    gp_proto: u8,
    features: Features,
    nanos: u128,
) -> Result<DfPlanView, Seq<char>> {
    let parts = path_parts(path);
    let params = parameters(query_pairs(path));
    let location = location_of(parts, params);
    if parts.len() < 3 {
        Err("Invalid /df/ route"@)
    } else {
        match table_type_of(parts[2], features) {
            Err(message) => Err(message),
            Ok(table_type) => if location is None && !params.contains_key("files"@) {
                Err("Missing 'path' or 'files' parameter"@)
            } else {
                let segment_id = number_in(headers, "x-gp-segment-id"@);
                let whole = !params.contains_key("files"@);
                Ok(
                    DfPlanView {
                        source: parts[2],
                        query: QueryView {
                            table_type,
                            uri: match location {
                                Some(uri) => uri,
                                None => Seq::empty(),
                            },
                            file_list: list_in(params, "files"@),
                            projection: list_in(params, "columns"@),
                            filter: if params.contains_key("filter"@) {
                                Some(decoded(params["filter"@]))
                            } else {
                                None
                            },
                            limit: number_in(params, "limit"@),
                            segment_id,
                            segment_count: number_in(headers, "x-gp-segment-count"@),
                            gp_proto,
                            table_name: if location is Some && whole {
                                Some(table_name(parts[2], segment_id, nanos))
                            } else {
                                None
                            },
                        },
                        session: if table_type != TableType::Parquet && whole {
                            session_key_of(headers)
                        } else {
                            None
                        },
                    },
                )
            },
        }
    }
}

fn find_table_type(source: &[char], features: &Features) -> (r: Result<TableType, &'static str>)
    ensures
        r is Ok ==> frameable(source@),
        match r {
            Ok(t) => table_type_of(source@, *features) == Ok::<TableType, Seq<char>>(t),
            Err(message) => table_type_of(source@, *features) == Err::<TableType, Seq<char>>(
                message@,
            ),
        },
{
    proof {
        reveal_strlit("parquet");
        reveal_strlit("delta");
        reveal_strlit("iceberg");
        if source@.len() <= 64 {
            lemma_short_text(source@);
        }
    }
    if is_text(source, "parquet") {
        Ok(TableType::Parquet)
    } else if is_text(source, "delta") {
        if features.delta {
            Ok(TableType::Delta)
        } else {
            Err("Delta feature not enabled")
        }
    } else if is_text(source, "iceberg") {
        if features.iceberg {
            Ok(TableType::Iceberg)
        } else {
            Err("Iceberg feature not enabled")
        }
    } else {
        Err("Unknown source type")
    }
}

fn find_location(parts: &Vec<&[char]>, params: &StringMap) -> (r: Option<String>)
    ensures
        opt_text(r) == location_of(views(parts@), params@),
{
    if let Some(uri) = params.get("path") {
        return Some(uri.clone());
    }
    assert(views(parts@).len() == parts@.len());
    if parts.len() > 3 {
        let tail = slice_subrange(parts.as_slice(), 3, parts.len());
        assert(views(tail@) =~= views(parts@).skip(3));
        let rest = join_slices(tail, '/');
        if rest.len() > 0 {
            return Some(string_of(decode_chars(rest.as_slice()).as_slice()));
        }
    }
    None
}

/// Reads from a request for a query what it asks for. `nanos` is the time.
pub fn plan_df_route(
    path: &str,
    headers: &StringMap,
    gp_proto: u8,
    features: &Features,
    nanos: u128,
) -> (r: Result<DfPlan, &'static str>)
    ensures
        df_plan_view(r) == df_plan_of(path@, headers@, gp_proto, *features, nanos),
        r matches Ok(plan) ==> frameable(plan.source@),
{
    let chars = chars_of(path);
    let end: usize = find_char(chars.as_slice(), '?');
    let front = slice_subrange(chars.as_slice(), 0, end);
    assert(front@ =~= path@.take(end as int));
    let parts = split_at_char(front, '/');
    assert(views(parts@).len() == parts@.len());
    if parts.len() < 3 {
        return Err("Invalid /df/ route");
    }
    let source = parts[2];
    assert(views(parts@)[2] == source@);
    let table_type = match find_table_type(source, features) {
        Ok(t) => t,
        Err(message) => {
            return Err(message);
        },
    };
    let params = query_map_of(chars.as_slice());
    let location = find_location(&parts, &params);
    let file_list = get_list(&params, "files");
    if location.is_none() && file_list.is_none() {
        return Err("Missing 'path' or 'files' parameter");
    }
    let projection = get_list(&params, "columns");
    let filter = match params.get("filter") {
        Some(text) => Some(percent_decode(text.as_str())),
        None => None,
    };
    let limit = get_number(&params, "limit");
    let segment_id = get_number(headers, "x-gp-segment-id");
    let segment_count = get_number(headers, "x-gp-segment-count");
    let whole: bool = file_list.is_none();
    let session = if table_type != TableType::Parquet && whole {
        extract_session_key(headers)
    } else {
        None
    };
    let source_text = string_of(source);
    let name = if location.is_some() && whole {
        Some(make_unique_table_name(source_text.as_str(), segment_id, nanos))
    } else {
        None
    };
    let uri = match location {
        Some(uri) => uri,
        None => String::new(),
    };
    let request = DFRequest {
        table_type,
        uri,
        file_list,
        projection,
        filter,
        limit,
        segment_id,
        segment_count,
        gp_proto,
        table_name: name,
    };
    Ok(DfPlan { source: source_text, request, session })
}

// ---------------------------------------------------------------- sessions

/// What is to be done with a request of a session, after the old sessions are forgotten.
pub open spec fn opening(m: Sessions, key: KeyView, now: u128) -> SessionDecision {
    decision(remembered(m, now, SESSION_TTL), key)
}

/// The sessions after a request of one of them. The session of a request that is to read the
/// data is given the name of the source.
pub open spec fn opened(m: Sessions, key: KeyView, source: Seq<char>, now: u128) -> Sessions {
    let after = requested(remembered(m, now, SESSION_TTL), key, now);
    if opening(m, key, now) == SessionDecision::StartRead {
        named(after, key, source)
    } else {
        after
    }
}

/// Decides what is to be done with a request of a session.
pub fn open_session(
    sessions: &mut SessionManager,
    key: &SessionKey,
    source: &str,
    now: u128,
) -> (r: SessionDecision)
    requires
        old(sessions).wf(),
        frameable(source@),
    ensures
        final(sessions).wf(),
        r == opening(old(sessions)@, key@, now),
        final(sessions)@ == opened(old(sessions)@, key@, source@, now),
{
    sessions.evict_old_sessions(now, SESSION_TTL);
    let r = sessions.decide(key.duplicate(), now);
    if r == SessionDecision::StartRead {
        sessions.set_logical_name(key, String::from_str(source));
    }
    r
}

/// The sessions after a response that failed.
pub open spec fn session_failed(
    m: Sessions,
    session: Option<KeyView>,
    message: Seq<char>,
) -> Sessions {
    match session {
        Some(key) => failed(m, key, message),
        None => m,
    }
}

/// The sessions after all of a response was sent.
pub open spec fn session_ended(m: Sessions, session: Option<KeyView>, now: u128) -> Sessions {
    match session {
        Some(key) => completed(m, key, now),
        None => m,
    }
}

/// The answer to a repeated request: no data, and the error of the session where that is asked
/// for. It bears the name of the source that the session reads.
pub open spec fn repeat_response(
    gp_proto: u8,
    logical_name: Option<Seq<char>>,
    error_message: Option<Seq<char>>,
    repeat_errors: bool,
) -> Seq<u8> {
    let filename = match logical_name {
        Some(name) => name,
        None => "repeat_session"@,
    };
    encode_utf8(ok_head(gp_proto)) + if gp_proto == 1 {
        (if repeat_errors && error_message is Some {
            error_packet(filename, 0, 1, error_message->0)
        } else {
            Seq::empty()
        }) + eof_packet(filename, 0, 1)
    } else {
        Seq::empty()
    }
}

/// Appends the answer to a repeated request. The name and the error are those that the session
/// manager gives.
pub fn send_immediate_eof_response(
    out: &mut Vec<u8>,
    gp_proto: u8,
    logical_name: &Option<String>,
    error_message: &Option<String>,
    repeat_errors: bool,
)
    requires
        logical_name is Some ==> frameable(logical_name->0@),
        error_message is Some ==> frameable(error_message->0@),
    ensures
        final(out)@ == old(out)@ + repeat_response(
            gp_proto,
            opt_text(*logical_name),
            opt_text(*error_message),
            repeat_errors,
        ),
{
    send_ok(out, gp_proto);
    if gp_proto == 1 {
        let filename = match logical_name {
            Some(name) => name.as_str(),
            None => {
                proof {
                    reveal_strlit("repeat_session");
                    lemma_short_text("repeat_session"@);
                }
                "repeat_session"
            },
        };
        if repeat_errors {
            if let Some(msg) = error_message {
                write_error_packet(out, filename, 0, 1, msg.as_str());
            }
        }
        write_eof_packet(out, filename, 0, 1);
    }
    assert(out@ =~= old(out)@ + repeat_response(
        gp_proto,
        opt_text(*logical_name),
        opt_text(*error_message),
        repeat_errors,
    ));
}

/// A character takes at most four bytes.
proof fn lemma_encoded_len(s: Seq<char>)
    ensures
        encode_utf8(s).len() <= 4 * s.len(),
    decreases s.len(),
{
    if s.len() > 0 {
        lemma_encoded_len(s.drop_first());
    }
}

proof fn lemma_short_text(s: Seq<char>)
    requires
        s.len() <= 64,
    ensures
        frameable(s),
        encode_utf8(s).len() <= 256,
{
    lemma_encoded_len(s);
}

// ---------------------------------------------------------------- answering a query

/// Whether a report of an error fits into a frame, whatever is put in front of it.
pub open spec fn reportable(error: Seq<char>) -> bool {
    encode_utf8(error).len() + 1024 <= isize::MAX
}

/// Whether a report of an error fits into a frame, whatever is put in front of it.
pub fn fits_report(error: &str) -> (r: bool)
    ensures
        r == reportable(error@),
{
    error.as_bytes().len() <= isize::MAX as usize - 1024
}

/// The report of an error while data is sent.
pub open spec fn stream_error(error: Seq<char>) -> Seq<char> {
    "ERROR: "@ + error
}

/// The report of an error before data is sent.
pub open spec fn query_error(error: Seq<char>) -> Seq<char> {
    "Query execution failed: "@ + error
}

/// What is sent of a chunk of data: a packet in protocol 1, and otherwise the chunk.
pub open spec fn sent_of_chunk(
    gp_proto: u8,
    compact: bool,
    source: Seq<char>,
    state: StreamState,
    csv: Seq<u8>,
) -> Seq<u8> {
    if gp_proto == 1 {
        state.data_bytes(compact, source, csv)
    } else {
        csv
    }
}

/// Where the stream stands after a chunk.
pub open spec fn state_after(gp_proto: u8, state: StreamState, csv: Seq<u8>) -> StreamState {
    if gp_proto == 1 {
        state.after(csv)
    } else {
        state
    }
}

/// What is sent at the end of the data.
pub open spec fn sent_at_end(gp_proto: u8, source: Seq<char>, state: StreamState) -> Seq<u8> {
    if gp_proto == 1 {
        state.eof_bytes(source)
    } else {
        Seq::empty()
    }
}

/// What is sent of an error behind some data.
pub open spec fn sent_on_error(
    gp_proto: u8,
    compact: bool,
    source: Seq<char>,
    state: StreamState,
    error: Seq<char>,
) -> Seq<u8> {
    if gp_proto == 1 {
        state.error_bytes(compact, source, stream_error(error))
    } else {
        Seq::empty()
    }
}

/// The sessions after an error behind some data.
pub open spec fn sessions_on_error(
    gp_proto: u8,
    m: Sessions,
    session: Option<KeyView>,
    error: Seq<char>,
) -> Sessions {
    if gp_proto == 1 {
        session_failed(m, session, stream_error(error))
    } else {
        m
    }
}

/// The sessions after a query that cannot be started.
pub open spec fn sessions_on_failure(
    m: Sessions,
    session: Option<KeyView>,
    error: Seq<char>,
) -> Sessions {
    session_failed(m, session, stream_error(query_error(error)))
}

/// What is sent for a query that cannot be started.
pub open spec fn sent_on_failure(
    gp_proto: u8,
    compact: bool,
    source: Seq<char>,
    error: Seq<char>,
) -> Seq<u8> {
    if gp_proto == 1 {
        encode_utf8(ok_head(1)) + StreamState::at_start().error_bytes(
            compact,
            source,
            stream_error(query_error(error)),
        )
    } else {
        error_response(500, query_error(error))
    }
}

/// The response to a query while it is sent.
pub struct DfResponse {
    pub source: String,
    pub gp_proto: u8,
    pub compact: bool,
    pub session: Option<SessionKey>,
    pub state: StreamState,
}

impl DfResponse {
    /// What holds of every response: its counters are in order and its name fits into a frame.
    pub open spec fn wf(&self) -> bool {
        self.state.wf() && frameable(self.source@)
    }

    /// Whether two responses are to the same request.
    pub open spec fn same_request(&self, other: &DfResponse) -> bool {
        &&& self.source@ == other.source@
        &&& self.gp_proto == other.gp_proto
        &&& self.compact == other.compact
        &&& opt_key(self.session) == opt_key(other.session)
    }

    /// A response of which nothing was sent yet.
    pub fn new(plan: DfPlan, compact: bool) -> (r: Self)
        requires
            frameable(plan.source@),
        ensures
            r.wf(),
            r.source@ == plan.source@,
            r.gp_proto == plan.request.gp_proto,
            r.compact == compact,
            opt_key(r.session) == opt_key(plan.session),
            r.state == StreamState::at_start(),
    {
        DfResponse {
            source: plan.source,
            gp_proto: plan.request.gp_proto,
            compact,
            session: plan.session,
            state: StreamState::new(),
        }
    }

    /// Appends the head of the response: the query runs.
    pub fn begin(&self, out: &mut Vec<u8>)
        ensures
            final(out)@ == old(out)@ + encode_utf8(ok_head(self.gp_proto)),
    {
        send_ok(out, self.gp_proto);
    }

    /// Appends a chunk of data: framed in protocol 1, and otherwise as it is.
    pub fn send_chunk(&mut self, out: &mut Vec<u8>, csv_bytes: &[u8])
        requires
            old(self).wf(),
            old(self).state.room_for(csv_bytes@),
        ensures
            final(self).wf(),
            final(self).same_request(old(self)),
            final(self).state == if old(self).gp_proto == 1 {
                old(self).state.after(csv_bytes@)
            } else {
                old(self).state
            },
            final(out)@ == old(out)@ + if old(self).gp_proto == 1 {
                old(self).state.data_bytes(old(self).compact, old(self).source@, csv_bytes@)
            } else {
                csv_bytes@
            },
            final(self).state == state_after(old(self).gp_proto, old(self).state, csv_bytes@),
            final(out)@ == old(out)@ + sent_of_chunk(
                old(self).gp_proto,
                old(self).compact,
                old(self).source@,
                old(self).state,
                csv_bytes@,
            ),
    {
        if self.gp_proto == 1 {
            self.state.send_data(out, self.compact, self.source.as_str(), csv_bytes);
        } else {
            put(out, csv_bytes);
        }
    }

    /// Takes note of an error while data is sent. In protocol 1 the session keeps the error, and
    /// the error and the end of the stream are appended; otherwise it is passed over. Returns
    /// whether the response has ended.
    pub fn chunk_failed(
        &self,
        out: &mut Vec<u8>,
        sessions: &mut SessionManager,
        error: &str,
    ) -> (r: bool)
        requires
            self.wf(),
            reportable(error@),
            old(sessions).wf(),
        ensures
            final(sessions).wf(),
            r == (self.gp_proto == 1),
            final(out)@ == old(out)@ + if r {
                self.state.error_bytes(self.compact, self.source@, stream_error(error@))
            } else {
                Seq::empty()
            },
            final(sessions)@ == if r {
                session_failed(old(sessions)@, opt_key(self.session), stream_error(error@))
            } else {
                old(sessions)@
            },
            final(out)@ == old(out)@ + sent_on_error(
                self.gp_proto,
                self.compact,
                self.source@,
                self.state,
                error@,
            ),
            final(sessions)@ == sessions_on_error(
                self.gp_proto,
                old(sessions)@,
                opt_key(self.session),
                error@,
            ),
    {
        if self.gp_proto == 1 {
            let err_msg = joined("ERROR: ", error);
            proof {
                reveal_strlit("ERROR: ");
                lemma_short_text("ERROR: "@);
                lemma_encode_concat("ERROR: "@, error@);
            }
            self.state.send_error(out, self.compact, self.source.as_str(), err_msg.as_str());
            self.fail_session(sessions, err_msg);
            true
        } else {
            assert(out@ =~= old(out)@ + Seq::<u8>::empty());
            false
        }
    }

    fn fail_session(&self, sessions: &mut SessionManager, err_msg: String)
        requires
            old(sessions).wf(),
            frameable(err_msg@),
        ensures
            final(sessions).wf(),
            final(sessions)@ == session_failed(
                old(sessions)@,
                opt_key(self.session),
                err_msg@,
            ),
    {
        if let Some(key) = &self.session {
            sessions.set_error_message(key, err_msg);
        }
    }

    /// Appends the end of the data.
    pub fn finish(&self, out: &mut Vec<u8>)
        requires
            self.wf(),
        ensures
            final(out)@ == old(out)@ + if self.gp_proto == 1 {
                self.state.eof_bytes(self.source@)
            } else {
                Seq::empty()
            },
            final(out)@ == old(out)@ + sent_at_end(self.gp_proto, self.source@, self.state),
    {
        if self.gp_proto == 1 {
            self.state.send_eof(out, self.source.as_str());
        } else {
            assert(out@ =~= old(out)@ + Seq::<u8>::empty());
        }
    }

    /// Completes the session: all of the response was sent.
    pub fn sent(&self, sessions: &mut SessionManager, now: u128)
        requires
            old(sessions).wf(),
        ensures
            final(sessions).wf(),
            final(sessions)@ == session_ended(old(sessions)@, opt_key(self.session), now),
    {
        if let Some(key) = &self.session {
            sessions.mark_completed(key, now);
        }
    }

    /// Appends the response to a query that could not be started: in protocol 1 an error frame
    /// and the end of the stream, otherwise a response with status 500. The session keeps the
    /// error.
    pub fn query_failed(&self, out: &mut Vec<u8>, sessions: &mut SessionManager, error: &str)
        requires
            self.wf(),
            self.state == StreamState::at_start(),
            reportable(error@),
            old(sessions).wf(),
        ensures
            final(sessions).wf(),
            final(out)@ == old(out)@ + if self.gp_proto == 1 {
                encode_utf8(ok_head(1)) + self.state.error_bytes(
                    self.compact,
                    self.source@,
                    stream_error(query_error(error@)),
                )
            } else {
                error_response(500, query_error(error@))
            },
            final(out)@ == old(out)@ + sent_on_failure(
                self.gp_proto,
                self.compact,
                self.source@,
                error@,
            ),
            final(sessions)@ == sessions_on_failure(
                old(sessions)@,
                opt_key(self.session),
                error@,
            ),
            final(sessions)@ == session_failed(
                old(sessions)@,
                opt_key(self.session),
                stream_error(query_error(error@)),
            ),
    {
        let report = joined("Query execution failed: ", error);
        let err_msg = joined("ERROR: ", report.as_str());
        proof {
            reveal_strlit("ERROR: ");
            reveal_strlit("Query execution failed: ");
            lemma_short_text("ERROR: "@);
            lemma_short_text("Query execution failed: "@);
            lemma_encode_concat("Query execution failed: "@, error@);
            lemma_encode_concat("ERROR: "@, report@);
        }
        if self.gp_proto == 1 {
            send_ok(out, 1);
            self.state.send_error(out, self.compact, self.source.as_str(), err_msg.as_str());
            assert(out@ =~= old(out)@ + (encode_utf8(ok_head(1)) + self.state.error_bytes(
                self.compact,
                self.source@,
                err_msg@,
            )));
        } else {
            send_error(out, 500, report.as_str());
        }
        self.fail_session(sessions, err_msg);
    }
}

// ---------------------------------------------------------------- answering a request for a file

/// What a request for a file asks for.
pub struct FilePlan {
    /// The path, decoded: the name that the frames bear.
    pub name: String,
    /// The path of the file below the directory that is served.
    pub relative: String,
    /// How many lines to send at most.
    pub lines_limit: Option<usize>,
}

/// What a request for a file asks for, as a value.
pub struct FilePlanView {
    pub name: Seq<char>,
    pub relative: Seq<char>,
    pub lines_limit: Option<usize>,
}

impl View for FilePlan {
    type V = FilePlanView;

    open spec fn view(&self) -> FilePlanView {
        FilePlanView {
            name: self.name@,
            relative: self.relative@,
            lines_limit: self.lines_limit,
        }
    }
}

/// A plan or a message, as a value.
pub open spec fn file_plan_view(r: Result<FilePlan, &'static str>) -> Result<
    FilePlanView,
    Seq<char>,
> {
    match r {
        Ok(plan) => Ok(plan@),
        Err(message) => Err(message@),
    }
}

/// What a request for a file asks for. A path that could lead upwards is refused.
pub open spec fn file_plan_of(path: Seq<char>) -> Result<FilePlanView, Seq<char>> {
    let name = decoded(path.take(first_index(path, '?')));
    if contains_run(name, seq!['.', '.']) {
        Err("directory traversal not allowed"@)
    } else {
        Ok(
            FilePlanView {
                name,
                relative: strip_front(name, '/'),
                lines_limit: number_in(parameters(query_pairs(path)), "lines"@),
            },
        )
    }
}

/// Reads from a request for a file what it asks for.
pub fn plan_file_route(path: &str) -> (r: Result<FilePlan, &'static str>)
    ensures
        file_plan_view(r) == file_plan_of(path@),
{
    let chars = chars_of(path);
    let end: usize = find_char(chars.as_slice(), '?');
    let front = slice_subrange(chars.as_slice(), 0, end);
    assert(front@ =~= path@.take(end as int));
    let name = decode_chars(front);
    if contains_two_dots(name.as_slice()) {
        return Err("directory traversal not allowed");
    }
    let params = query_map_of(chars.as_slice());
    let lines_limit = get_number(&params, "lines");
    let relative = string_of(skip_leading(name.as_slice(), '/'));
    Ok(FilePlan { name: string_of(name.as_slice()), relative, lines_limit })
}

proof fn lemma_strip_front(s: Seq<char>, c: char)
    ensures
        strip_front(s, c).is_suffix_of(s),
        strip_front(s, c).len() > 0 ==> strip_front(s, c)[0] != c,
    decreases s.len(),
{
    if s.len() > 0 && s[0] == c {
        lemma_strip_front(s.skip(1), c);
        let t = strip_front(s.skip(1), c);
        assert(s.skip(1).subrange(s.skip(1).len() - t.len(), s.skip(1).len() as int)
            =~= s.subrange(s.len() - t.len(), s.len() as int));
    } else {
        assert(s.subrange(0, s.len() as int) =~= s);
    }
}

/// A file that is served lies below the directory that is served: its path neither holds two
/// dots in a row nor begins with a slash.
pub proof fn law_files_stay_below(path: Seq<char>)
    requires
        file_plan_of(path) is Ok,
    ensures
        !contains_run(file_plan_of(path)->Ok_0.relative, seq!['.', '.']),
        file_plan_of(path)->Ok_0.relative.len() > 0 ==> file_plan_of(path)->Ok_0.relative[0] != '/',
{
    let name = decoded(path.take(first_index(path, '?')));
    let dots: Seq<char> = seq!['.', '.'];
    let relative = strip_front(name, '/');
    lemma_strip_front(name, '/');
    if contains_run(relative, dots) {
        let at = choose|at: int|
            0 <= at && at + dots.len() <= relative.len() && #[trigger] relative.subrange(
                at,
                at + dots.len(),
            ) == dots;
        let skipped = name.len() - relative.len();
        assert(name.subrange(skipped + at, skipped + at + dots.len()) =~= relative.subrange(
            at,
            at + dots.len(),
        ));
        assert(contains_run(name, dots));
    }
}

/// The report of a file that could not be opened.
pub open spec fn file_error(resolved_path: Seq<char>, error: Seq<char>) -> Seq<char> {
    "Failed to read file: "@ + resolved_path + ", error "@ + error
}

/// What is sent for a file that cannot be opened.
pub open spec fn sent_when_unopened(
    compact: bool,
    name: Seq<char>,
    resolved_path: Seq<char>,
    error: Seq<char>,
) -> Seq<u8> {
    encode_utf8(ok_head(1)) + StreamState::at_start().error_bytes(
        compact,
        name,
        file_error(resolved_path, error),
    )
}

/// Whether the report of a file that could not be opened fits into a frame.
pub open spec fn file_reportable(resolved_path: Seq<char>, error: Seq<char>) -> bool {
    encode_utf8(resolved_path).len() + encode_utf8(error).len() + 1024 <= isize::MAX
}

/// Whether the report of a file that could not be opened fits into a frame.
pub fn fits_file_report(resolved_path: &str, error: &str) -> (r: bool)
    ensures
        r == file_reportable(resolved_path@, error@),
{
    let most: usize = isize::MAX as usize - 1024;
    let first: usize = resolved_path.as_bytes().len();
    first <= most && error.as_bytes().len() <= most - first
}

/// What is sent of a chunk of a file.
pub open spec fn sent_of_file(
    state: StreamState,
    limit: LineLimit,
    compact: bool,
    name: Seq<char>,
    chunk: Seq<u8>,
) -> Seq<u8> {
    state.data_bytes(compact, name, limit.kept(chunk))
}

/// Where the stream stands after a chunk of a file.
pub open spec fn state_after_file(
    state: StreamState,
    limit: LineLimit,
    chunk: Seq<u8>,
) -> StreamState {
    state.after(limit.kept(chunk))
}

/// The response to a request for a file while it is sent.
pub struct FileResponse {
    pub name: String,
    pub compact: bool,
    pub state: StreamState,
    pub limit: LineLimit,
}

impl FileResponse {
    /// What holds of every response: its counters are in order and its name fits into a frame.
    pub open spec fn wf(&self) -> bool {
        self.state.wf() && frameable(self.name@)
    }

    /// A response of which nothing was sent yet.
    pub fn new(plan: FilePlan, compact: bool) -> (r: Self)
        requires
            frameable(plan.name@),
        ensures
            r.wf(),
            r.name@ == plan.name@,
            r.compact == compact,
            r.state == StreamState::at_start(),
            r.limit == (LineLimit { remaining: plan.lines_limit }),
    {
        FileResponse {
            name: plan.name,
            compact,
            state: StreamState::new(),
            limit: LineLimit { remaining: plan.lines_limit },
        }
    }

    /// Appends the response for a file that could not be opened: an error frame and the end of
    /// the stream.
    pub fn open_failed(&self, out: &mut Vec<u8>, resolved_path: &str, error: &str)
        requires
            self.wf(),
            self.state == StreamState::at_start(),
            file_reportable(resolved_path@, error@),
        ensures
            final(out)@ == old(out)@ + encode_utf8(ok_head(1)) + self.state.error_bytes(
                self.compact,
                self.name@,
                file_error(resolved_path@, error@),
            ),
            final(out)@ == old(out)@ + sent_when_unopened(
                self.compact,
                self.name@,
                resolved_path@,
                error@,
            ),
    {
        let mut err_msg = String::from_str("Failed to read file: ");
        err_msg.append(resolved_path);
        err_msg.append(", error ");
        err_msg.append(error);
        proof {
            reveal_strlit("Failed to read file: ");
            reveal_strlit(", error ");
            lemma_short_text("Failed to read file: "@);
            lemma_short_text(", error "@);
            lemma_encode_concat("Failed to read file: "@, resolved_path@);
            lemma_encode_concat("Failed to read file: "@ + resolved_path@, ", error "@);
            lemma_encode_concat("Failed to read file: "@ + resolved_path@ + ", error "@, error@);
        }
        send_ok(out, 1);
        self.state.send_error(out, self.compact, self.name.as_str(), err_msg.as_str());
        proof {
            lemma_regroup(
                old(out)@,
                encode_utf8(ok_head(1)),
                self.state.error_bytes(self.compact, self.name@, err_msg@),
            );
        }
    }

    /// Appends the head of the response: the file is open.
    pub fn begin(&self, out: &mut Vec<u8>)
        ensures
            final(out)@ == old(out)@ + encode_utf8(ok_head(1)),
    {
        send_ok(out, 1);
    }

    /// Appends what is to be sent of a chunk of the file. Returns whether no more is to be read.
    pub fn send_chunk(&mut self, out: &mut Vec<u8>, chunk: &[u8]) -> (r: bool)
        requires
            old(self).wf(),
            old(self).state.room_for(chunk@),
        ensures
            final(self).wf(),
            final(self).name@ == old(self).name@,
            final(self).compact == old(self).compact,
            final(self).state == old(self).state.after(old(self).limit.kept(chunk@)),
            final(self).limit == if r {
                old(self).limit
            } else {
                old(self).limit.past(chunk@)
            },
            final(out)@ == old(out)@ + old(self).state.data_bytes(
                old(self).compact,
                old(self).name@,
                old(self).limit.kept(chunk@),
            ),
            final(out)@ == old(out)@ + sent_of_file(
                old(self).state,
                old(self).limit,
                old(self).compact,
                old(self).name@,
                chunk@,
            ),
            final(self).state == state_after_file(old(self).state, old(self).limit, chunk@),
            r == old(self).limit.reached_by(chunk@),
    {
        let (kept, stop) = self.limit.cut(chunk);
        self.state.send_data(out, self.compact, self.name.as_str(), kept);
        stop
    }

    /// Appends the end of the data.
    pub fn finish(&self, out: &mut Vec<u8>)
        requires
            self.wf(),
        ensures
            final(out)@ == old(out)@ + self.state.eof_bytes(self.name@),
    {
        self.state.send_eof(out, self.name.as_str());
    }
}

// ---------------------------------------------------------------- handling a request

/// What is left to do for a request once its head is handled.
pub enum Action {
    /// Nothing but to send the output.
    Reply,
    /// Run this query.
    Query(DfPlan),
    /// Serve this file.
    File(FilePlan),
}

/// What is left to do for a request, as a value.
pub enum ActionView {
    Reply,
    Query(DfPlanView),
    File(FilePlanView),
}

impl View for Action {
    type V = ActionView;

    open spec fn view(&self) -> ActionView {
        match self {
            Action::Reply => ActionView::Reply,
            Action::Query(plan) => ActionView::Query(plan@),
            Action::File(plan) => ActionView::File(plan@),
        }
    }
}

/// What comes of handling the head of a request.
pub struct Handled {
    pub action: ActionView,
    pub output: Seq<u8>,
    pub sessions: Sessions,
}

/// A request that is refused with a message.
pub open spec fn refused(message: Seq<char>, m: Sessions) -> Handled {
    Handled { action: ActionView::Reply, output: error_response(400, message), sessions: m }
}

/// What comes of a request for a query. One of a session whose data is or was read by another
/// request is answered at once.
pub open spec fn handled_query(
    request: RequestView,
    features: Features,
    m: Sessions,
    repeat_errors: bool,
    nanos: u128,
    now: u128,
) -> Handled {
    match df_plan_of(request.path, request.headers, 1, features, nanos) {
        Err(message) => refused(message, m),
        Ok(plan) => match plan.session {
            None => Handled {
                action: ActionView::Query(plan),
                output: Seq::empty(),
                sessions: m,
            },
            Some(key) => {
                let after = opened(m, key, plan.source, now);
                if opening(m, key, now) == SessionDecision::StartRead {
                    Handled {
                        action: ActionView::Query(plan),
                        output: Seq::empty(),
                        sessions: after,
                    }
                } else {
                    Handled {
                        action: ActionView::Reply,
                        output: repeat_response(
                            1,
                            after[key].logical_name,
                            after[key].error_message,
                            repeat_errors,
                        ),
                        sessions: after,
                    }
                }
            },
        },
    }
}

/// What comes of handling the head of a request.
pub open spec fn handled(
    head: Seq<u8>,
    features: Features,
    m: Sessions,
    repeat_errors: bool,
    nanos: u128,
    now: u128,
) -> Handled {
    match request_in(head_text(head)) {
        None => refused("Bad Request (request line)"@, m),
        Some(request) => match route_of(request) {
            RouteView::Refused(message) => refused(message, m),
            RouteView::File => match file_plan_of(request.path) {
                Err(message) => refused(message, m),
                Ok(plan) => Handled {
                    action: ActionView::File(plan),
                    output: Seq::empty(),
                    sessions: m,
                },
            },
            RouteView::Df => handled_query(request, features, m, repeat_errors, nanos, now),
        },
    }
}

fn handle_query(
    out: &mut Vec<u8>,
    request: &Request,
    features: &Features,
    sessions: &mut SessionManager,
    repeat_errors: bool,
    nanos: u128,
    now: u128,
) -> (r: Action)
    requires
        old(sessions).wf(),
    ensures
        final(sessions).wf(),
        ({
            let h = handled_query(request@, *features, old(sessions)@, repeat_errors, nanos, now);
            &&& r@ == h.action
            &&& final(out)@ == old(out)@ + h.output
            &&& final(sessions)@ == h.sessions
        }),
        r matches Action::Query(plan) ==> frameable(plan.source@) && plan.request.gp_proto == 1,
{
    match plan_df_route(request.path.as_str(), &request.headers, 1, features, nanos) {
        Err(message) => {
            send_error(out, 400, message);
            Action::Reply
        },
        Ok(plan) => {
            if let Some(key) = &plan.session {
                let source = plan.source.as_str();
                let d = open_session(sessions, key, source, now);
                if d != SessionDecision::StartRead {
                    let (name, error) = match sessions.get_session_info(key) {
                        Some(info) => info,
                        None => (None, None),
                    };
                    send_immediate_eof_response(out, 1, &name, &error, repeat_errors);
                    return Action::Reply;
                }
            }
            assert(out@ =~= old(out)@ + Seq::<u8>::empty());
            Action::Query(plan)
        },
    }
}

/// Handles the head of a request. `nanos` is the time of day, `now` the time on the clock of the
/// sessions.
pub fn handle_request(
    out: &mut Vec<u8>,
    head: &[u8],
    features: &Features,
    sessions: &mut SessionManager,
    repeat_errors: bool,
    nanos: u128,
    now: u128,
) -> (r: Action)
    requires
        old(sessions).wf(),
    ensures
        final(sessions).wf(),
        ({
            let h = handled(head@, *features, old(sessions)@, repeat_errors, nanos, now);
            &&& r@ == h.action
            &&& final(out)@ == old(out)@ + h.output
            &&& final(sessions)@ == h.sessions
        }),
        r matches Action::Query(plan) ==> frameable(plan.source@) && plan.request.gp_proto == 1,
{
    match read_request(head) {
        None => {
            send_error(out, 400, "Bad Request (request line)");
            Action::Reply
        },
        Some(request) => match route(&request) {
            Route::Refused(message) => {
                send_error(out, 400, message);
                Action::Reply
            },
            Route::File => match plan_file_route(request.path.as_str()) {
                Err(message) => {
                    send_error(out, 400, message);
                    Action::Reply
                },
                Ok(plan) => {
                    assert(out@ =~= old(out)@ + Seq::<u8>::empty());
                    Action::File(plan)
                },
            },
            Route::Df => handle_query(
                out,
                &request,
                features,
                sessions,
                repeat_errors,
                nanos,
                now,
            ),
        },
    }
}

// ---------------------------------------------------------------- laws

/// While the first request of a session reads the data, and for 300 seconds afterwards, every
/// other request of it is answered at once, and the answer bears
/// the name of the source of the first one. After that the data is read anew.
pub proof fn law_repeats_are_answered_at_once(
    m: Sessions,
    key: KeyView,
    source: Seq<char>,
    other_source: Seq<char>,
    start: u128,
    done: u128,
    now: u128,
)
    requires
        opening(m, key, start) == SessionDecision::StartRead,
    ensures
        ({
            let reading = opened(m, key, source, start);
            &&& opening(reading, key, now) == SessionDecision::ShortCircuitInProgress
            &&& opened(reading, key, other_source, now)[key].logical_name == Some(source)
        }),
        ({
            let read = session_ended(opened(m, key, source, start), Some(key), done);
            if now < done + 300 * 1_000_000_000 {
                &&& opening(read, key, now) == SessionDecision::ShortCircuitCompleted
                &&& opened(read, key, other_source, now)[key].logical_name == Some(source)
            } else {
                &&& opening(read, key, now) == SessionDecision::StartRead
                &&& opened(read, key, other_source, now)[key].logical_name == Some(other_source)
            }
        }),
{
}

/// After a response that failed, a repeated request is told the error, where errors are
/// repeated, for as long as the session is remembered.
pub proof fn law_first_error_is_repeated(
    m: Sessions,
    key: KeyView,
    source: Seq<char>,
    message: Seq<char>,
    start: u128,
    done: u128,
    now: u128,
)
    requires
        !remembered(m, start, SESSION_TTL).contains_key(key),
        now < done + 300 * 1_000_000_000,
    ensures
        ({
            let failing = session_ended(
                session_failed(opened(m, key, source, start), Some(key), message),
                Some(key),
                done,
            );
            let later = opened(failing, key, source, now);
            &&& opening(failing, key, now) == SessionDecision::ShortCircuitCompleted
            &&& repeat_response(1, later[key].logical_name, later[key].error_message, true)
                == encode_utf8(ok_head(1)) + (error_packet(source, 0, 1, message) + eof_packet(
                source,
                0,
                1,
            ))
            &&& repeat_response(1, later[key].logical_name, later[key].error_message, false)
                == encode_utf8(ok_head(1)) + eof_packet(source, 0, 1)
        }),
{
    let failing = session_ended(
        session_failed(opened(m, key, source, start), Some(key), message),
        Some(key),
        done,
    );
    let later = opened(failing, key, source, now);
    assert(later[key].logical_name == Some(source));
    assert(later[key].error_message == Some(message));
    assert(Seq::<u8>::empty() + eof_packet(source, 0, 1) =~= eof_packet(source, 0, 1));
}

proof fn lemma_served_is_streamable(limit: LineLimit, chunks: Seq<Seq<u8>>)
    requires
        streamable(chunks),
    ensures
        streamable(served(limit, chunks)),
        served(limit, chunks).flatten().len() <= chunks.flatten().len(),
    decreases chunks.len(),
{
    if chunks.len() > 0 {
        let rest = chunks.drop_first();
        assert(chunks.skip(1) =~= rest);
        assert(sendable(chunks[0]));
        let kept = limit.kept(chunks[0]);
        lemma_kept_len(limit, chunks[0]);
        if limit.reached_by(chunks[0]) {
            seq![kept].lemma_flatten_one_element();
        } else {
            assert forall|i: int| 0 <= i < rest.len() implies sendable(#[trigger] rest[i]) by {
                assert(rest[i] == chunks[i + 1]);
            }
            let more = served(limit.past(chunks[0]), rest);
            lemma_served_is_streamable(limit.past(chunks[0]), rest);
            let all = seq![kept] + more;
            assert(all.drop_first() =~= more);
            assert(all.first() == kept);
            assert forall|i: int| 0 <= i < all.len() implies sendable(#[trigger] all[i]) by {
                if i > 0 {
                    assert(all[i] == more[i - 1]);
                }
            }
        }
    }
}

proof fn lemma_kept_len(limit: LineLimit, chunk: Seq<u8>)
    ensures
        limit.kept(chunk).len() <= chunk.len(),
{
    if let Some(n) = limit.remaining {
        lemma_first_lines_len(chunk, n as nat);
    }
}

/// What is sent of a file from some state on, when it is read in the given chunks: each chunk
/// as far as the limit goes, then the end of the data.
pub open spec fn file_output(
    state: StreamState,
    limit: LineLimit,
    compact: bool,
    name: Seq<char>,
    chunks: Seq<Seq<u8>>,
) -> Seq<u8>
    decreases chunks.len(),
{
    if chunks.len() == 0 {
        state.eof_bytes(name)
    } else {
        let next = state_after_file(state, limit, chunks[0]);
        sent_of_file(state, limit, compact, name, chunks[0]) + if limit.reached_by(chunks[0]) {
            next.eof_bytes(name)
        } else {
            file_output(next, limit.past(chunks[0]), compact, name, chunks.skip(1))
        }
    }
}

proof fn lemma_regroup<A>(a: Seq<A>, b: Seq<A>, c: Seq<A>)
    ensures
        a + (b + c) == (a + b) + c,
{
    assert(a + (b + c) =~= (a + b) + c);
}

/// One more chunk adds its packet to the response and moves the stream on.
proof fn lemma_one_more_chunk(
    compact: bool,
    name: Seq<char>,
    done: Seq<Seq<u8>>,
    kept: Seq<u8>,
)
    ensures
        body(compact, name, done.push(kept)) == body(compact, name, done) + reached(
            done,
        ).data_bytes(compact, name, kept),
        reached(done.push(kept)) == reached(done).after(kept),
{
    assert(done.push(kept).drop_last() =~= done);
}

/// What is served begins with what is kept of the first chunk.
proof fn lemma_served_after(done: Seq<Seq<u8>>, limit: LineLimit, chunks: Seq<Seq<u8>>)
    requires
        chunks.len() > 0,
    ensures
        done + served(limit, chunks) == if limit.reached_by(chunks[0]) {
            done.push(limit.kept(chunks[0]))
        } else {
            done.push(limit.kept(chunks[0])) + served(limit.past(chunks[0]), chunks.skip(1))
        },
{
    let kept = limit.kept(chunks[0]);
    if limit.reached_by(chunks[0]) {
        assert(done + seq![kept] =~= done.push(kept));
    } else {
        let more = served(limit.past(chunks[0]), chunks.skip(1));
        assert(done + (seq![kept] + more) =~= done.push(kept) + more);
    }
}

/// The output of a file and that of a stream of the chunks that are served of it are the same.
proof fn lemma_file_output(
    done: Seq<Seq<u8>>,
    limit: LineLimit,
    compact: bool,
    name: Seq<char>,
    chunks: Seq<Seq<u8>>,
)
    ensures
        body(compact, name, done) + file_output(reached(done), limit, compact, name, chunks)
            == body(compact, name, done + served(limit, chunks)) + reached(
            done + served(limit, chunks),
        ).eof_bytes(name),
    decreases chunks.len(),
{
    if chunks.len() == 0 {
        assert(done + served(limit, chunks) =~= done);
    } else {
        let kept = limit.kept(chunks[0]);
        let more = done.push(kept);
        let packet = reached(done).data_bytes(compact, name, kept);
        lemma_one_more_chunk(compact, name, done, kept);
        lemma_served_after(done, limit, chunks);
        if limit.reached_by(chunks[0]) {
            lemma_regroup(body(compact, name, done), packet, reached(more).eof_bytes(name));
        } else {
            let rest = chunks.skip(1);
            let next = limit.past(chunks[0]);
            lemma_file_output(more, next, compact, name, rest);
            lemma_regroup(
                body(compact, name, done),
                packet,
                file_output(reached(more), next, compact, name, rest),
            );
        }
    }
}

/// A reader of the response to a request for a file sees frames whose data, put together, is
/// the file, or its first `n` lines where `n` lines, one or more, are asked for. That does not
/// depend on the chunks in which the file is read.
pub proof fn law_file_reads_back(
    compact: bool,
    name: Seq<char>,
    limit: LineLimit,
    chunks: Seq<Seq<u8>>,
)
    requires
        limit.remaining != Some(0usize),
        sendable(encode_utf8(name)),
        streamable(chunks),
    ensures
        ({
            let frames = frames_of(
                file_output(StreamState::at_start(), limit, compact, name, chunks),
            );
            &&& frames is Some
            &&& payload(frames->0) == match limit.remaining {
                Some(n) => first_lines(chunks.flatten(), n as nat),
                None => chunks.flatten(),
            }
        }),
{
    let sent = served(limit, chunks);
    let output = file_output(StreamState::at_start(), limit, compact, name, chunks);
    lemma_file_output(Seq::empty(), limit, compact, name, chunks);
    assert(Seq::<Seq<u8>>::empty() + sent =~= sent);
    assert(body(compact, name, Seq::empty()) + output =~= output);
    lemma_served_is_streamable(limit, chunks);
    law_stream_reads_back(compact, name, sent);
    law_payload_is_the_data(compact, name, sent);
    law_served_lines(limit, chunks);
    lemma_payload_of_end(
        body_frames(compact, name, sent),
        name,
        sent.flatten().len() as u64,
        reached(sent).final_line(),
    );
}

/// Only a request for a query can change the sessions, and only one that belongs to a session.
pub proof fn law_other_requests_leave_the_sessions(
    head: Seq<u8>,
    features: Features,
    m: Sessions,
    repeat_errors: bool,
    nanos: u128,
    now: u128,
)
    requires
        match request_in(head_text(head)) {
            Some(request) => session_key_of(request.headers) is None || !(route_of(
                request,
            ) is Df),
            None => true,
        },
    ensures
        handled(head, features, m, repeat_errors, nanos, now).sessions == m,
{
}

/// Two requests, each within the limit, that differ only in how their headers are spelled and in
/// the chunks in which they come are handled in the same way.
pub proof fn law_requests_are_handled_alike(
    chunks: Seq<Seq<u8>>,
    at: int,
    others: Seq<Seq<u8>>,
    other_at: int,
    features: Features,
    m: Sessions,
    repeat_errors: bool,
    nanos: u128,
    now: u128,
)
    requires
        forall|i: int| 0 <= i < chunks.len() ==> (#[trigger] chunks[i]).len() > 0,
        forall|i: int| 0 <= i < others.len() ==> (#[trigger] others[i]).len() > 0,
        chunks.flatten().len() <= MAX_HEAD,
        others.flatten().len() <= MAX_HEAD,
        head_ends_at(chunks.flatten(), at),
        head_ends_at(others.flatten(), other_at),
        same_head(
            head_text(chunks.flatten().take(at)),
            head_text(others.flatten().take(other_at)),
        ),
    ensures
        received(Seq::empty(), chunks) is Head,
        received(Seq::empty(), others) is Head,
        handled(
            received(Seq::empty(), chunks)->Head_0,
            features,
            m,
            repeat_errors,
            nanos,
            now,
        ) == handled(
            received(Seq::empty(), others)->Head_0,
            features,
            m,
            repeat_errors,
            nanos,
            now,
        ),
{
    let none = Seq::<u8>::empty();
    assert(none + chunks.flatten() =~= chunks.flatten());
    assert(none + others.flatten() =~= others.flatten());
    law_head_does_not_depend_on_chunks(none, chunks, at);
    law_head_does_not_depend_on_chunks(none, others, other_at);
    law_same_heads_make_the_same_request(
        head_text(chunks.flatten().take(at)),
        head_text(others.flatten().take(other_at)),
    );
}

proof fn lemma_sanitized_front(s: Seq<char>)
    requires
        s.len() > 0,
        name_char(s[0]),
    ensures
        sanitized(s).len() > 0,
        sanitized(s)[0] == s[0],
    decreases s.len(),
{
    if s.len() == 1 {
        assert(s.drop_last() =~= Seq::empty());
        assert(sanitized(s.drop_last()) =~= Seq::empty());
    } else {
        lemma_sanitized_front(s.drop_last());
    }
}

/// No table is registered by a name like that of the view of a query with a condition.
pub proof fn law_tables_are_not_named_like_views(
    path: Seq<char>,
    headers: Map<Seq<char>, Seq<char>>,
    gp_proto: u8,
    features: Features,
    nanos: u128,
    number: u64,
)
    requires
        df_plan_of(path, headers, gp_proto, features, nanos) is Ok,
    ensures
        ({
            let name = df_plan_of(path, headers, gp_proto, features, nanos)->Ok_0.query.table_name;
            name is Some ==> !"temp_filtered_"@.is_prefix_of(name->0) && name->0 != view_name(
                number,
            )
        }),
{
    reveal_strlit("parquet");
    reveal_strlit("delta");
    reveal_strlit("iceberg");
    reveal_strlit("temp_filtered_");
    let source = path_parts(path)[2];
    assert(source == "parquet"@ || source == "delta"@ || source == "iceberg"@);
    lemma_sanitized_front(source);
    let segid = number_in(headers, "x-gp-segment-id"@);
    assert(table_name(source, segid, nanos)[0] == source[0]);
    assert(view_name(number)[0] == 't');
}

// ---------------------------------------------------------------- laws of parameters

/// A parameter or header that is bound to a number in decimal gives that number, however large
/// it is; one that is bound to a number out of range, or to no number, gives none, and so does
/// one that is not bound.
pub proof fn law_numbers_are_read(map: Map<Seq<char>, Seq<char>>, key: Seq<char>, n: nat)
    ensures
        map.contains_key(key) && map[key] == decimal(n) && n <= usize::MAX ==> number_in(map, key)
            == Some(n as usize),
        map.contains_key(key) && map[key] == decimal(n) && n > usize::MAX ==> number_in(map, key)
            is None,
        map.contains_key(key) && (exists|i: int|
            0 <= i < map[key].len() && !is_digit(#[trigger] map[key][i]) && (i > 0 || map[key][i]
                != '+')) ==> number_in(map, key) is None,
        map.contains_key(key) && map[key].len() == 0 ==> number_in(map, key) is None,
        map.contains_key(key) && unsigned(map[key], 10, usize::MAX as int) == Some(n as int)
            ==> number_in(map, key) == Some(n as usize),
        !map.contains_key(key) ==> number_in(map, key) is None,
{
    if n <= usize::MAX {
        law_decimal_round_trip(n, usize::MAX as int);
    } else {
        law_numbers_above_the_limit(n, usize::MAX as int);
    }
    law_what_is_no_number(map[key], usize::MAX as int);
    if map[key].len() == 0 {
        assert(map[key] =~= Seq::empty());
    }
}

/// The items of a list are the pieces of the decoded text between its commas, each without the
/// white space around it; none is left out.
pub proof fn law_items_of_a_list(map: Map<Seq<char>, Seq<char>>, key: Seq<char>, i: int)
    ensures
        list_in(map, key) is Some <==> map.contains_key(key),
        map.contains_key(key) ==> {
            let pieces = split(decoded(map[key]), ',');
            &&& list_in(map, key)->0.len() == pieces.len()
            &&& 0 <= i < pieces.len() ==> list_in(map, key)->0[i] == trimmed(pieces[i])
        },
{
}

/// The path of a request is taken apart at its slashes, up to the question mark; the query does
/// not matter.
pub proof fn law_parts_of_a_path(parts: Seq<Seq<char>>, pieces: Seq<Seq<char>>)
    requires
        parts.len() > 0,
        pieces.len() > 0,
        forall|i: int|
            0 <= i < parts.len() ==> !(#[trigger] parts[i]).contains('/') && !parts[i].contains(
                '?',
            ),
        forall|i: int| 0 <= i < pieces.len() ==> !(#[trigger] pieces[i]).contains('&'),
    ensures
        path_parts(with_query(join(parts, seq!['/']), pieces)) == parts,
        path_parts(join(parts, seq!['/'])) == parts,
{
    let base = join(parts, seq!['/']);
    lemma_joined_lacks(parts, '/', '?');
    law_query_is_found(base, pieces);
    assert(with_query(base, pieces).take(base.len() as int) =~= base);
    assert(base.take(base.len() as int) =~= base);
    law_joined_pieces_are_found(parts, '/');
}

proof fn lemma_joined_lacks(parts: Seq<Seq<char>>, sep: char, c: char)
    requires
        sep != c,
        forall|i: int| 0 <= i < parts.len() ==> !(#[trigger] parts[i]).contains(c),
    ensures
        !join(parts, seq![sep]).contains(c),
    decreases parts.len(),
{
    if parts.len() > 0 {
        assert(!parts[0].contains(c));
        let rest = parts.skip(1);
        assert forall|i: int| 0 <= i < rest.len() implies !(#[trigger] rest[i]).contains(c) by {
            assert(rest[i] == parts[i + 1]);
        }
        lemma_joined_lacks(rest, sep, c);
        let all = join(parts, seq![sep]);
        assert forall|k: int| 0 <= k < all.len() implies all[k] != c by {
            if k < parts[0].len() {
                assert(parts[0].contains(all[k]));
            } else if k > parts[0].len() {
                assert(join(rest, seq![sep]).contains(all[k]));
            }
        }
    }
}

// ---------------------------------------------------------------- laws of plans

/// When a request for a query is refused, and how: for a path without a source, for a source
/// that is unknown or not built in, and where neither a location nor files are given. In all
/// other cases it is not.
pub proof fn law_queries_that_are_refused(
    path: Seq<char>,
    headers: Map<Seq<char>, Seq<char>>,
    gp_proto: u8,
    features: Features,
    nanos: u128,
)
    ensures
        ({
            let parts = path_parts(path);
            let params = parameters(query_pairs(path));
            let plan = df_plan_of(path, headers, gp_proto, features, nanos);
            let located = params.contains_key("path"@) || params.contains_key("files"@) || (
            parts.len() > 3 && join(parts.skip(3), seq!['/']).len() > 0);
            if parts.len() < 3 {
                plan == Err::<DfPlanView, Seq<char>>("Invalid /df/ route"@)
            } else if parts[2] == "delta"@ && !features.delta {
                plan == Err::<DfPlanView, Seq<char>>("Delta feature not enabled"@)
            } else if parts[2] == "iceberg"@ && !features.iceberg {
                plan == Err::<DfPlanView, Seq<char>>("Iceberg feature not enabled"@)
            } else if parts[2] != "parquet"@ && parts[2] != "delta"@ && parts[2] != "iceberg"@ {
                plan == Err::<DfPlanView, Seq<char>>("Unknown source type"@)
            } else if !located {
                plan == Err::<DfPlanView, Seq<char>>("Missing 'path' or 'files' parameter"@)
            } else {
                plan is Ok
            }
        }),
{
    reveal_strlit("parquet");
    reveal_strlit("delta");
    reveal_strlit("iceberg");
    assert("parquet"@[0] == 'p' && "delta"@[0] == 'd' && "iceberg"@[0] == 'i');
}

/// What a request for a query asks for is what its path and its headers say, each thing by
/// itself and whatever the others are: the kind of table by its source, the location by the
/// parameter `path` or the rest of the path, the files, the columns, the condition, the limit,
/// and the segment.
pub proof fn law_plan_of_a_query(
    path: Seq<char>,
    headers: Map<Seq<char>, Seq<char>>,
    gp_proto: u8,
    features: Features,
    nanos: u128,
    n: usize,
)
    requires
        df_plan_of(path, headers, gp_proto, features, nanos) is Ok,
    ensures
        ({
            let parts = path_parts(path);
            let params = parameters(query_pairs(path));
            let plan = df_plan_of(path, headers, gp_proto, features, nanos)->Ok_0;
            let q = plan.query;
            &&& plan.source == parts[2]
            &&& q.gp_proto == gp_proto
            &&& q.table_type == TableType::Parquet <==> parts[2] == "parquet"@
            &&& q.table_type == TableType::Delta <==> parts[2] == "delta"@
            &&& q.table_type == TableType::Iceberg <==> parts[2] == "iceberg"@
            &&& params.contains_key("path"@) ==> q.uri == params["path"@]
            &&& !params.contains_key("path"@) && parts.len() > 3 ==> q.uri == decoded(
                join(parts.skip(3), seq!['/']),
            )
            &&& !params.contains_key("path"@) && parts.len() == 3 ==> q.uri.len() == 0
            &&& q.file_list == list_in(params, "files"@)
            &&& q.projection == list_in(params, "columns"@)
            &&& params.contains_key("filter"@) ==> q.filter == Some(decoded(params["filter"@]))
            &&& !params.contains_key("filter"@) ==> q.filter is None
            &&& params.contains_key("limit"@) && params["limit"@] == decimal(n as nat) ==> q.limit
                == Some(n)
            &&& !params.contains_key("limit"@) ==> q.limit is None
            &&& q.limit == number_in(params, "limit"@)
            &&& headers.contains_key("x-gp-segment-id"@) && headers["x-gp-segment-id"@] == decimal(
                n as nat,
            ) ==> q.segment_id == Some(n)
            &&& q.segment_id == number_in(headers, "x-gp-segment-id"@)
            &&& headers.contains_key("x-gp-segment-count"@) && headers["x-gp-segment-count"@]
                == decimal(n as nat) ==> q.segment_count == Some(n)
            &&& q.segment_count == number_in(headers, "x-gp-segment-count"@)
        }),
{
    law_numbers_are_read(parameters(query_pairs(path)), "limit"@, n as nat);
    law_numbers_are_read(headers, "x-gp-segment-id"@, n as nat);
    law_numbers_are_read(headers, "x-gp-segment-count"@, n as nat);
    law_queries_that_are_refused(path, headers, gp_proto, features, nanos);
    reveal_strlit("parquet");
    reveal_strlit("delta");
    reveal_strlit("iceberg");
    assert("parquet"@[0] == 'p' && "delta"@[0] == 'd' && "iceberg"@[0] == 'i');
    let parts = path_parts(path);
    if parts.len() > 3 && join(parts.skip(3), seq!['/']).len() == 0 {
        assert(join(parts.skip(3), seq!['/']) =~= Seq::empty());
        assert(decoded(Seq::empty()) =~= Seq::empty());
        assert(df_plan_of(path, headers, gp_proto, features, nanos)->Ok_0.query.uri
            =~= decoded(join(parts.skip(3), seq!['/'])) || parameters(
            query_pairs(path),
        ).contains_key("path"@));
    }
}

/// The session of a query over a whole Delta or Iceberg table is the one that its three headers
/// name, and that does not depend on anything else that it asks for. Queries over parquet
/// files, and over listed files, have none. A table has a name of its own where it has a
/// location and no listed files.
pub proof fn law_session_of_a_query(
    path: Seq<char>,
    headers: Map<Seq<char>, Seq<char>>,
    gp_proto: u8,
    features: Features,
    nanos: u128,
)
    requires
        df_plan_of(path, headers, gp_proto, features, nanos) is Ok,
    ensures
        ({
            let params = parameters(query_pairs(path));
            let parts = path_parts(path);
            let plan = df_plan_of(path, headers, gp_proto, features, nanos)->Ok_0;
            let sid: nat = match number_in(headers, "x-gp-segment-id"@) {
                Some(n) => n as nat,
                None => 0,
            };
            &&& plan.query.table_type != TableType::Parquet && !params.contains_key("files"@)
                ==> plan.session == session_key_of(headers)
            &&& plan.query.table_type == TableType::Parquet || params.contains_key("files"@)
                ==> plan.session is None
            &&& params.contains_key("files"@) ==> plan.query.table_name is None
            &&& !params.contains_key("files"@) ==> plan.query.table_name == Some(
                sanitized(parts[2]) + "_seg"@ + decimal(sid) + "_"@ + decimal(nanos as nat),
            )
        }),
{
    law_queries_that_are_refused(path, headers, gp_proto, features, nanos);
}

/// Whether a request is one for a query over a whole Delta or Iceberg table that belongs to a
/// session, and is not refused.
pub open spec fn of_session(request: RequestView, features: Features, key: KeyView) -> bool {
    let parts = path_parts(request.path);
    let params = parameters(query_pairs(request.path));
    &&& parts.len() >= 3
    &&& (parts[2] == "delta"@ && features.delta) || (parts[2] == "iceberg"@ && features.iceberg)
    &&& !params.contains_key("files"@)
    &&& params.contains_key("path"@) || (parts.len() > 3 && join(parts.skip(3), seq!['/']).len()
        > 0)
    &&& session_key_of(request.headers) == Some(key)
}

/// Of two requests of the same session, whatever else they ask for, at most one reads the data:
/// once the first one is handled, the second one is answered at once, at any time while the
/// first one reads and for 300 seconds after it is done.
pub proof fn law_one_request_of_a_session_reads(
    first: RequestView,
    second: RequestView,
    key: KeyView,
    features: Features,
    m: Sessions,
    repeat_errors: bool,
    start: (u128, u128),
    done: u128,
    later: (u128, u128),
)
    requires
        of_session(first, features, key),
        of_session(second, features, key),
        all_wf(m),
        !m.contains_key(key),
    ensures
        ({
            let h = handled_query(first, features, m, repeat_errors, start.0, start.1);
            let during = handled_query(
                second,
                features,
                h.sessions,
                repeat_errors,
                later.0,
                later.1,
            );
            let after = handled_query(
                second,
                features,
                session_ended(h.sessions, Some(key), done),
                repeat_errors,
                later.0,
                later.1,
            );
            &&& h.action is Query
            &&& h.action->Query_0.session == Some(key)
            &&& during.action is Reply
            &&& later.1 < done + 300 * 1_000_000_000 ==> after.action is Reply
        }),
{
    reveal_strlit("parquet");
    reveal_strlit("delta");
    reveal_strlit("iceberg");
    assert("parquet"@[0] == 'p' && "delta"@[0] == 'd' && "iceberg"@[0] == 'i');
    law_queries_that_are_refused(first.path, first.headers, 1, features, start.0);
    law_queries_that_are_refused(second.path, second.headers, 1, features, later.0);
    law_session_of_a_query(first.path, first.headers, 1, features, start.0);
    law_session_of_a_query(second.path, second.headers, 1, features, later.0);
    law_plan_of_a_query(first.path, first.headers, 1, features, start.0, 0);
    law_plan_of_a_query(second.path, second.headers, 1, features, later.0, 0);
    law_repeats_are_answered_at_once(
        m,
        key,
        path_parts(first.path)[2],
        path_parts(second.path)[2],
        start.1,
        done,
        later.1,
    );
}

/// The name of a table keeps the letters, the digits and the underscores of its source, in
/// order, and nothing else.
pub proof fn law_sanitized_text(s: Seq<char>)
    ensures
        sanitized(s) == s.filter(
            |c: char|
                c == '_' || (if (c as u32) < 128 {
                    ascii_alphanumeric(c)
                } else {
                    alphanumeric(c)
                }),
        ),
    decreases s.len(),
{
    reveal(Seq::filter);
    if s.len() > 0 {
        law_sanitized_text(s.drop_last());
    }
}

/// A request for a file asks for the file at its decoded path, up to the question mark and
/// without the slashes at its front, and for as many lines as it says. It is refused exactly
/// where that path has two dots in a row.
pub proof fn law_plan_of_a_file(path: Seq<char>, n: usize)
    ensures
        ({
            let name = decoded(path.take(first_index(path, '?')));
            let params = parameters(query_pairs(path));
            let plan = file_plan_of(path);
            &&& (exists|k: int|
                0 <= k && k + 1 < name.len() && #[trigger] name[k] == '.' && name[k + 1] == '.')
                ==> plan == Err::<FilePlanView, Seq<char>>("directory traversal not allowed"@)
            &&& !(exists|k: int|
                0 <= k && k + 1 < name.len() && #[trigger] name[k] == '.' && name[k + 1] == '.')
                ==> plan is Ok
            &&& plan is Ok ==> {
                let slashes = name.len() - plan->Ok_0.relative.len();
                &&& plan->Ok_0.name == name
                &&& 0 <= slashes
                &&& name == name.take(slashes) + plan->Ok_0.relative
                &&& forall|k: int| 0 <= k < slashes ==> #[trigger] name[k] == '/'
                &&& plan->Ok_0.relative.len() > 0 ==> plan->Ok_0.relative[0] != '/'
                &&& params.contains_key("lines"@) && params["lines"@] == decimal(n as nat)
                    ==> plan->Ok_0.lines_limit == Some(n)
                &&& !params.contains_key("lines"@) ==> plan->Ok_0.lines_limit is None
                &&& plan->Ok_0.lines_limit == number_in(params, "lines"@)
            }
        }),
{
    let name = decoded(path.take(first_index(path, '?')));
    let dots: Seq<char> = seq!['.', '.'];
    law_numbers_are_read(parameters(query_pairs(path)), "lines"@, n as nat);
    law_stripped_text(name, '/');
    if exists|k: int|
        0 <= k && k + 1 < name.len() && #[trigger] name[k] == '.' && name[k + 1] == '.' {
        let k = choose|k: int|
            0 <= k && k + 1 < name.len() && #[trigger] name[k] == '.' && name[k + 1] == '.';
        assert(name.subrange(k, k + dots.len()) =~= dots);
        assert(contains_run(name, dots));
    }
    if contains_run(name, dots) {
        let at = choose|at: int|
            0 <= at && at + dots.len() <= name.len() && #[trigger] name.subrange(
                at,
                at + dots.len(),
            ) == dots;
        assert(name.subrange(at, at + 2)[0] == '.' && name.subrange(at, at + 2)[1] == '.');
        assert(name[at] == '.' && name[at + 1] == '.');
    }
}

// ---------------------------------------------------------------- laws of answers

/// The texts of the reports hold the error that they report.
pub proof fn law_reports(resolved_path: Seq<char>, error: Seq<char>)
    ensures
        stream_error(error) == "ERROR: "@ + error,
        query_error(error) == "Query execution failed: "@ + error,
        file_error(resolved_path, error) == "Failed to read file: "@ + resolved_path + ", error "@
            + error,
{
}

/// The answer to a repeated request has no data: in protocol 1 it is the end of a stream at its
/// start, under the name of the source, with the error in front where one is known and errors
/// are repeated. In other protocols it has no body.
pub proof fn law_answers_to_repeats(
    gp_proto: u8,
    name: Option<Seq<char>>,
    error: Option<Seq<char>>,
    repeat_errors: bool,
)
    ensures
        ({
            let filename = match name {
                Some(n) => n,
                None => "repeat_session"@,
            };
            &&& gp_proto != 1 ==> repeat_response(gp_proto, name, error, repeat_errors)
                == encode_utf8(ok_head(gp_proto))
            &&& gp_proto == 1 && repeat_errors && error is Some ==> repeat_response(
                gp_proto,
                name,
                error,
                repeat_errors,
            ) == encode_utf8(ok_head(1)) + (error_packet(filename, 0, 1, error->0) + eof_packet(
                filename,
                0,
                1,
            ))
            &&& gp_proto == 1 && (!repeat_errors || error is None) ==> repeat_response(
                gp_proto,
                name,
                error,
                repeat_errors,
            ) == encode_utf8(ok_head(1)) + eof_packet(filename, 0, 1)
        }),
{
    let filename = match name {
        Some(n) => n,
        None => "repeat_session"@,
    };
    assert(Seq::<u8>::empty() + eof_packet(filename, 0, 1) =~= eof_packet(filename, 0, 1));
    assert(encode_utf8(ok_head(gp_proto)) + Seq::<u8>::empty() =~= encode_utf8(ok_head(gp_proto)));
}

/// How a request is handled, for every head: one that makes no request, or takes no route, or
/// asks for what is not served is answered with status 400 and the reason, and changes nothing;
/// a file and a query are passed on with what they ask for, and with nothing sent yet.
pub proof fn law_how_requests_are_handled(
    head: Seq<u8>,
    features: Features,
    m: Sessions,
    repeat_errors: bool,
    nanos: u128,
    now: u128,
)
    ensures
        ({
            let h = handled(head, features, m, repeat_errors, nanos, now);
            let request = request_in(head_text(head));
            let r = request->0;
            let file = file_plan_of(r.path);
            let query = df_plan_of(r.path, r.headers, 1, features, nanos);
            &&& h.action is Query || h.action is File ==> h.output.len() == 0
            &&& request is None ==> h.action is Reply && h.sessions == m && h.output
                == error_response(400, "Bad Request (request line)"@)
            &&& request is Some && route_of(r) is Refused ==> h.action is Reply && h.sessions == m
                && h.output == error_response(400, route_of(r)->Refused_0)
            &&& request is Some && route_of(r) is File && file is Err ==> h.action is Reply
                && h.sessions == m && h.output == error_response(400, file->Err_0)
            &&& request is Some && route_of(r) is File && file is Ok ==> h.action
                == ActionView::File(file->Ok_0) && h.sessions == m
            &&& request is Some && route_of(r) is Df && query is Err ==> h.action is Reply
                && h.sessions == m && h.output == error_response(400, query->Err_0)
            &&& request is Some && route_of(r) is Df && query is Ok && query->Ok_0.session is None
                ==> h.action == ActionView::Query(query->Ok_0) && h.sessions == m
            &&& request is Some && route_of(r) is Df && query is Ok && query->Ok_0.session is Some
                ==> {
                let key = query->Ok_0.session->0;
                let reads = opening(m, key, now) == SessionDecision::StartRead;
                &&& reads ==> h.action == ActionView::Query(query->Ok_0)
                    && h.sessions[key].logical_name == Some(query->Ok_0.source)
                &&& !reads ==> h.action is Reply && h.output == repeat_response(
                    1,
                    h.sessions[key].logical_name,
                    h.sessions[key].error_message,
                    repeat_errors,
                )
            }
        }),
{
}

// ---------------------------------------------------------------- laws of whole responses

/// What is sent behind the head of the response to a query, from some state on: its chunks one
/// after the other, and then the end, or an error.
pub open spec fn query_output(
    gp_proto: u8,
    compact: bool,
    source: Seq<char>,
    state: StreamState,
    chunks: Seq<Seq<u8>>,
    error: Option<Seq<char>>,
) -> Seq<u8>
    decreases chunks.len(),
{
    if chunks.len() == 0 {
        match error {
            None => sent_at_end(gp_proto, source, state),
            Some(e) => sent_on_error(gp_proto, compact, source, state, e),
        }
    } else {
        sent_of_chunk(gp_proto, compact, source, state, chunks[0]) + query_output(
            gp_proto,
            compact,
            source,
            state_after(gp_proto, state, chunks[0]),
            chunks.skip(1),
            error,
        )
    }
}

proof fn lemma_framed_query(
    compact: bool,
    source: Seq<char>,
    done: Seq<Seq<u8>>,
    chunks: Seq<Seq<u8>>,
    error: Option<Seq<char>>,
)
    ensures
        body(compact, source, done) + query_output(
            1,
            compact,
            source,
            reached(done),
            chunks,
            error,
        ) == body(compact, source, done + chunks) + match error {
            None => reached(done + chunks).eof_bytes(source),
            Some(e) => reached(done + chunks).error_bytes(compact, source, "ERROR: "@ + e),
        },
    decreases chunks.len(),
{
    if chunks.len() == 0 {
        assert(done + chunks =~= done);
    } else {
        let c = chunks[0];
        let more = done.push(c);
        lemma_one_more_chunk(compact, source, done, c);
        assert(done + chunks =~= more + chunks.skip(1));
        lemma_framed_query(compact, source, more, chunks.skip(1), error);
        lemma_regroup(
            body(compact, source, done),
            reached(done).data_bytes(compact, source, c),
            query_output(1, compact, source, reached(more), chunks.skip(1), error),
        );
    }
}

/// In protocol 1 the response to a query is the framed stream of its chunks, ended by the totals
/// or by the error; in other protocols it is its chunks and nothing else, and an error adds
/// nothing.
pub proof fn law_output_of_a_query(
    gp_proto: u8,
    compact: bool,
    source: Seq<char>,
    chunks: Seq<Seq<u8>>,
    error: Option<Seq<char>>,
)
    ensures
        gp_proto == 1 ==> query_output(
            gp_proto,
            compact,
            source,
            StreamState::at_start(),
            chunks,
            error,
        ) == body(compact, source, chunks) + match error {
            None => reached(chunks).eof_bytes(source),
            Some(e) => reached(chunks).error_bytes(compact, source, "ERROR: "@ + e),
        },
        gp_proto != 1 ==> query_output(
            gp_proto,
            compact,
            source,
            StreamState::at_start(),
            chunks,
            error,
        ) == chunks.flatten(),
{
    if gp_proto == 1 {
        lemma_framed_query(compact, source, Seq::empty(), chunks, error);
        assert(Seq::<Seq<u8>>::empty() + chunks =~= chunks);
        let output = query_output(1, compact, source, StreamState::at_start(), chunks, error);
        assert(body(compact, source, Seq::empty()) + output =~= output);
    } else {
        lemma_plain_query(gp_proto, compact, source, StreamState::at_start(), chunks, error);
    }
}

proof fn lemma_plain_query(
    gp_proto: u8,
    compact: bool,
    source: Seq<char>,
    state: StreamState,
    chunks: Seq<Seq<u8>>,
    error: Option<Seq<char>>,
)
    requires
        gp_proto != 1,
    ensures
        query_output(gp_proto, compact, source, state, chunks, error) == chunks.flatten(),
    decreases chunks.len(),
{
    if chunks.len() > 0 {
        lemma_plain_query(gp_proto, compact, source, state, chunks.skip(1), error);
        assert(chunks.skip(1) =~= chunks.drop_first());
    }
}

/// A reader of the response to a query sees a packet for each of its chunks, under the name of
/// the source and with the number of bytes and of line feeds before it; the data in them is
/// that of the chunks, all of it and in order.
pub proof fn law_query_reads_back(source: Seq<char>, chunks: Seq<Seq<u8>>)
    requires
        sendable(encode_utf8(source)),
        streamable(chunks),
        forall|i: int| 0 <= i < chunks.len() ==> (#[trigger] chunks[i]).len() > 0,
    ensures
        ({
            let frames = frames_of(
                query_output(1, false, source, StreamState::at_start(), chunks, None),
            );
            &&& frames is Some
            &&& frames->0.len() == 4 * chunks.len() + 4
            &&& forall|k: int|
                0 <= k < chunks.len() ==> #[trigger] packet_at(
                    frames->0,
                    4 * k,
                    source,
                    chunks.take(k).flatten(),
                    chunks[k],
                )
        }),
{
    law_output_of_a_query(1, false, source, chunks, None);
    law_packets_of_a_stream(source, chunks);
}

/// What is sent where nothing can be read: for a query that cannot be started in protocol 1, and
/// for a file that cannot be opened, a stream at its start with the report and the end; for a
/// query in another protocol a response with status 500.
pub proof fn law_nothing_to_read(
    gp_proto: u8,
    compact: bool,
    name: Seq<char>,
    resolved_path: Seq<char>,
    error: Seq<char>,
)
    ensures
        gp_proto == 1 ==> sent_on_failure(gp_proto, compact, name, error) == encode_utf8(
            ok_head(1),
        ) + (error_packet(name, 0, 1, "ERROR: "@ + ("Query execution failed: "@ + error))
            + eof_packet(name, 0, 1)),
        gp_proto != 1 ==> sent_on_failure(gp_proto, compact, name, error) == error_response(
            500,
            "Query execution failed: "@ + error,
        ),
        sent_when_unopened(compact, name, resolved_path, error) == encode_utf8(ok_head(1)) + (
        error_packet(
            name,
            0,
            1,
            "Failed to read file: "@ + resolved_path + ", error "@ + error,
        ) + eof_packet(name, 0, 1)),
{
}

/// The first error of a session is kept with the word ERROR in front, and with what failed where
/// the query could not be started. In other protocols an error behind some data is passed over.
pub proof fn law_errors_are_kept(m: Sessions, key: KeyView, error: Seq<char>, gp_proto: u8)
    requires
        m.contains_key(key),
        m[key].error_message is None,
    ensures
        gp_proto == 1 ==> sessions_on_error(gp_proto, m, Some(key), error)[key].error_message
            == Some("ERROR: "@ + error),
        gp_proto != 1 ==> sessions_on_error(gp_proto, m, Some(key), error) == m,
        sessions_on_failure(m, Some(key), error)[key].error_message == Some(
            "ERROR: "@ + ("Query execution failed: "@ + error),
        ),
        sessions_on_error(gp_proto, m, None, error) == m,
        sessions_on_failure(m, None, error) == m,
{
}

/// A reader of the response to a request for a file sees a packet for each chunk that is served
/// of it, under its name and with the number of bytes and of line feeds before it.
pub proof fn law_packets_of_a_file(name: Seq<char>, limit: LineLimit, chunks: Seq<Seq<u8>>)
    requires
        limit.remaining != Some(0usize),
        sendable(encode_utf8(name)),
        streamable(chunks),
        forall|i: int| 0 <= i < chunks.len() ==> (#[trigger] chunks[i]).len() > 0,
    ensures
        ({
            let sent = served(limit, chunks);
            let frames = frames_of(
                file_output(StreamState::at_start(), limit, false, name, chunks),
            );
            &&& frames is Some
            &&& frames->0.len() == 4 * sent.len() + 4
            &&& forall|k: int|
                0 <= k < sent.len() ==> #[trigger] packet_at(
                    frames->0,
                    4 * k,
                    name,
                    sent.take(k).flatten(),
                    sent[k],
                )
        }),
{
    let sent = served(limit, chunks);
    let output = file_output(StreamState::at_start(), limit, false, name, chunks);
    lemma_file_output(Seq::empty(), limit, false, name, chunks);
    assert(Seq::<Seq<u8>>::empty() + sent =~= sent);
    assert(body(false, name, Seq::empty()) + output =~= output);
    lemma_served_is_streamable(limit, chunks);
    lemma_served_is_not_empty(limit, chunks);
    law_packets_of_a_stream(name, sent);
}

proof fn lemma_served_is_not_empty(limit: LineLimit, chunks: Seq<Seq<u8>>)
    requires
        limit.remaining != Some(0usize),
        forall|i: int| 0 <= i < chunks.len() ==> (#[trigger] chunks[i]).len() > 0,
    ensures
        forall|i: int|
            0 <= i < served(limit, chunks).len() ==> (#[trigger] served(limit, chunks)[i]).len()
                > 0,
    decreases chunks.len(),
{
    if chunks.len() > 0 {
        assert(chunks[0].len() > 0);
        let kept = limit.kept(chunks[0]);
        assert(kept.len() > 0);
        if !limit.reached_by(chunks[0]) {
            let rest = chunks.skip(1);
            assert forall|i: int| 0 <= i < rest.len() implies (#[trigger] rest[i]).len() > 0 by {
                assert(rest[i] == chunks[i + 1]);
            }
            lemma_served_is_not_empty(limit.past(chunks[0]), rest);
            let more = served(limit.past(chunks[0]), rest);
            let all = served(limit, chunks);
            assert(all == seq![kept] + more);
            assert forall|i: int| 0 <= i < all.len() implies (#[trigger] all[i]).len() > 0 by {
                if i > 0 {
                    assert(all[i] == more[i - 1]);
                }
            }
        }
    }
}

/// A request of one session leaves every other session as it was, as long as it is remembered.
pub proof fn law_other_sessions_are_left(
    m: Sessions,
    key: KeyView,
    other: KeyView,
    source: Seq<char>,
    message: Seq<char>,
    now: u128,
)
    requires
        key != other,
    ensures
        opened(m, key, source, now).contains_key(other) <==> remembered(
            m,
            now,
            300_000_000_000,
        ).contains_key(other),
        opened(m, key, source, now).contains_key(other) ==> opened(m, key, source, now)[other]
            == m[other],
        session_failed(m, Some(key), message).contains_key(other) == m.contains_key(other),
        session_ended(m, Some(key), now).contains_key(other) == m.contains_key(other),
        m.contains_key(other) ==> session_failed(m, Some(key), message)[other] == m[other]
            && session_ended(m, Some(key), now)[other] == m[other],
        session_failed(m, None, message) == m,
        session_ended(m, None, now) == m,
{
}

/// What can be reported: texts that leave room for the words that are put in front of them.
pub proof fn law_what_can_be_reported(resolved_path: Seq<char>, error: Seq<char>)
    ensures
        reportable(error) <==> encode_utf8(error).len() + 1024 <= isize::MAX,
        file_reportable(resolved_path, error) <==> encode_utf8(resolved_path).len() + encode_utf8(
            error,
        ).len() + 1024 <= isize::MAX,
{
}

} // verus!
