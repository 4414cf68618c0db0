//! Requests and responses: where the head of a request ends, what it says, which route it
//! takes, and the heads of the responses.

use crate::frame::put;
use crate::number::{
    decimal, is_digit, law_decimal_round_trip, law_numbers_above_the_limit, law_what_is_no_number,
    parse_unsigned, push_decimal, unsigned,
};
use crate::outside::{
    find_bytes, lossy_text, lowercase, occurs_at, small_letter, text_from_utf8_lossy, to_lowercase,
};
use crate::text::{
    blank, chars_of, find_char, first_index, has_break, is_text, is_white_space, join,
    law_joined_lines_are_found, law_trimming_forgets_blanks, law_words_of_a_text,
    lemma_first_index, lines, split_lines, split_words, starts_with, string_of, trim, trim_back,
    trim_front, trimmed, views, words,
};
use crate::util::StringMap;
use vstd::prelude::*;
use vstd::slice::slice_subrange;
use vstd::string::*;
use vstd::utf8::{
    decode_utf8, encode_utf8, encode_utf8_decode_utf8, encode_utf8_valid_utf8, is_ascii_chars,
    valid_utf8,
};

verus! {

// ---------------------------------------------------------------- reading a head

/// How many bytes a request may send before its head has to be over.
pub const MAX_HEAD: usize = 65536;

/// What ends the head of a request: an empty line.
pub open spec fn head_mark() -> Seq<u8> {
    seq![13u8, 10, 13, 10]
}

/// Whether the head of a request is over, and is what precedes position `at`.
pub open spec fn head_ends_at(data: Seq<u8>, at: int) -> bool {
    &&& occurs_at(data, head_mark(), at)
    &&& forall|k: int| 0 <= k < at ==> !occurs_at(data, head_mark(), k)
}

/// What is to be done once some bytes of a request have come.
#[derive(Debug, Clone, Copy, PartialEq, Eq, Structural)]
pub enum HeadStep {
    /// Wait for more.
    More,
    /// Give up: the connection was closed.
    Closed,
    /// Refuse the request: its head is too large.
    TooLarge,
    /// The head is complete, and is what precedes this position.
    Complete(usize),
}

/// The bytes of a request that have come.
pub struct HeadReader {
    pub buf: Vec<u8>,
}

impl HeadReader {
    /// Nothing has come yet.
    pub fn new() -> (r: Self)
        ensures
            r.buf@ == Seq::<u8>::empty(),
    {
        HeadReader { buf: Vec::new() }
    }

    /// Takes in what was read from the connection. Nothing read means that it was closed.
    pub fn receive(&mut self, chunk: &[u8]) -> (r: HeadStep)
        ensures
            final(self).buf@ == old(self).buf@ + chunk@,
            match r {
                HeadStep::Closed => chunk@.len() == 0,
                HeadStep::TooLarge => chunk@.len() > 0 && final(self).buf@.len() > MAX_HEAD,
                HeadStep::Complete(at) => chunk@.len() > 0 && final(self).buf@.len() <= MAX_HEAD
                    && head_ends_at(final(self).buf@, at as int),
                HeadStep::More => chunk@.len() > 0 && final(self).buf@.len() <= MAX_HEAD
                    && forall|at: int| !head_ends_at(final(self).buf@, at),
            },
            match r {
                HeadStep::Closed => after_chunk(old(self).buf@, chunk@) is Closed,
                HeadStep::TooLarge => after_chunk(old(self).buf@, chunk@) is TooLarge,
                HeadStep::Complete(at) => after_chunk(old(self).buf@, chunk@) == HeadView::Head(
                    final(self).buf@.take(at as int),
                ),
                HeadStep::More => after_chunk(old(self).buf@, chunk@) is Waiting,
            },
    {
        if chunk.len() == 0 {
            assert(self.buf@ =~= old(self).buf@ + chunk@);
            return HeadStep::Closed;
        }
        put(&mut self.buf, chunk);
        if self.buf.len() > MAX_HEAD {
            return HeadStep::TooLarge;
        }
        let mark: [u8; 4] = [13, 10, 13, 10];
        assert(mark@ =~= head_mark());
        match find_bytes(self.buf.as_slice(), &mark) {
            Some(at) => {
                proof {
                    let found = choose|f: int| head_ends_at(self.buf@, f);
                    assert(head_ends_at(self.buf@, at as int));
                    lemma_one_end(self.buf@, found, at as int);
                }
                HeadStep::Complete(at)
            },
            None => HeadStep::More,
        }
    }
}

/// What came of reading a request.
pub enum HeadView {
    Waiting,
    Closed,
    TooLarge,
    Head(Seq<u8>),
}

/// What comes of reading one chunk more.
pub open spec fn after_chunk(buf: Seq<u8>, chunk: Seq<u8>) -> HeadView {
    let now = buf + chunk;
    if chunk.len() == 0 {
        HeadView::Closed
    } else if now.len() > MAX_HEAD {
        HeadView::TooLarge
    } else if exists|at: int| head_ends_at(now, at) {
        HeadView::Head(now.take(choose|at: int| head_ends_at(now, at)))
    } else {
        HeadView::Waiting
    }
}

/// A head has one end.
proof fn lemma_one_end(data: Seq<u8>, a: int, b: int)
    requires
        head_ends_at(data, a),
        head_ends_at(data, b),
    ensures
        a == b,
{
    if a < b {
        assert(occurs_at(data, head_mark(), a));
    } else if b < a {
        assert(occurs_at(data, head_mark(), b));
    }
}

/// What comes of reading the chunks of a request, one after the other.
pub open spec fn received(buf: Seq<u8>, chunks: Seq<Seq<u8>>) -> HeadView
    decreases chunks.len(),
{
    if chunks.len() == 0 {
        HeadView::Waiting
    } else {
        match after_chunk(buf, chunks[0]) {
            HeadView::Waiting => received(buf + chunks[0], chunks.drop_first()),
            outcome => outcome,
        }
    }
}

proof fn lemma_occurs_in_prefix(data: Seq<u8>, part: Seq<u8>, at: int)
    requires
        part.is_prefix_of(data),
        at + 4 <= part.len(),
    ensures
        occurs_at(part, head_mark(), at) == occurs_at(data, head_mark(), at),
{
    if 0 <= at {
        assert(part.subrange(at, at + 4) =~= data.subrange(at, at + 4));
    }
}

/// However the bytes of a request are cut into chunks, the head that is read is what precedes
/// its first empty line, provided that all that is sent is within the limit.
pub proof fn law_head_does_not_depend_on_chunks(
    buf: Seq<u8>,
    chunks: Seq<Seq<u8>>,
    at: int,
)
    requires
        forall|i: int| 0 <= i < chunks.len() ==> (#[trigger] chunks[i]).len() > 0,
        (buf + chunks.flatten()).len() <= MAX_HEAD,
        head_ends_at(buf + chunks.flatten(), at),
        buf.len() < at + 4,
    ensures
        received(buf, chunks) == HeadView::Head((buf + chunks.flatten()).take(at)),
    decreases chunks.len(),
{
    let data = buf + chunks.flatten();
    if chunks.len() == 0 {
        assert(data =~= buf);
    } else {
        let now = buf + chunks[0];
        let rest = chunks.drop_first();
        assert(chunks[0].len() > 0);
        assert(data =~= now + rest.flatten());
        assert(now.is_prefix_of(data));
        if at + 4 <= now.len() {
            assert forall|k: int| 0 <= k < at implies !occurs_at(now, head_mark(), k) by {
                lemma_occurs_in_prefix(data, now, k);
            }
            lemma_occurs_in_prefix(data, now, at);
            assert(head_ends_at(now, at));
            let found = choose|f: int| head_ends_at(now, f);
            assert(head_ends_at(now, found));
            if found < at {
                assert(occurs_at(now, head_mark(), found));
            } else if at < found {
                assert(occurs_at(now, head_mark(), at));
            }
            assert(now.take(at) =~= data.take(at));
        } else {
            assert forall|k: int| !head_ends_at(now, k) by {
                if head_ends_at(now, k) {
                    assert(occurs_at(now, head_mark(), k));
                    lemma_occurs_in_prefix(data, now, k);
                    assert(k < at);
                }
            }
            assert forall|i: int| 0 <= i < rest.len() implies (#[trigger] rest[i]).len() > 0 by {
                assert(rest[i] == chunks[i + 1]);
            }
            law_head_does_not_depend_on_chunks(now, rest, at);
        }
    }
}

// ---------------------------------------------------------------- reading a request

/// A request.
pub struct Request {
    pub method: String,
    /// The path, with its query.
    pub path: String,
    /// The headers, by their names in small letters.
    pub headers: StringMap,
}

/// A request, as a value.
pub struct RequestView {
    pub method: Seq<char>,
    pub path: Seq<char>,
    pub headers: Map<Seq<char>, Seq<char>>,
}

impl View for Request {
    type V = RequestView;

    open spec fn view(&self) -> RequestView {
        RequestView { method: self.method@, path: self.path@, headers: self.headers@ }
    }
}

/// A request or none, as a value.
pub open spec fn opt_request(r: Option<Request>) -> Option<RequestView> {
    match r {
        Some(request) => Some(request@),
        None => None,
    }
}

/// A text in small letters.
pub open spec fn small_letters(s: Seq<char>) -> Seq<char> {
    if is_ascii_chars(s) {
        s.map_values(|c: char| small_letter(c))
    } else {
        lowercase(s)
    }
}

/// The headers with one more line: the name stands before the first colon, the value after it.
/// A line without a colon says nothing.
pub open spec fn with_header(
    headers: Map<Seq<char>, Seq<char>>,
    line: Seq<char>,
) -> Map<Seq<char>, Seq<char>> {
    let at = first_index(line, ':');
    if at < line.len() {
        headers.insert(small_letters(trimmed(line.take(at))), trimmed(line.skip(at + 1)))
    } else {
        headers
    }
}

/// The headers in some lines, up to the first empty one.
pub open spec fn headers_in(
    headers: Map<Seq<char>, Seq<char>>,
    rest: Seq<Seq<char>>,
) -> Map<Seq<char>, Seq<char>>
    decreases rest.len(),
{
    if rest.len() == 0 || rest[0].len() == 0 {
        headers
    } else {
        headers_in(with_header(headers, rest[0]), rest.skip(1))
    }
}

/// The request that the text of a head makes: the first line gives the method and the path, the
/// other ones the headers. There is none where the first line has fewer than two words.
pub open spec fn request_in(text: Seq<char>) -> Option<RequestView> {
    let all = lines(text);
    let first = words(all[0]);
    if first.len() < 2 {
        None
    } else {
        Some(
            RequestView {
                method: first[0],
                path: first[1],
                headers: headers_in(Map::empty(), all.skip(1)),
            },
        )
    }
}

/// The text of a head: what its bytes encode, with a replacement for what is no UTF-8.
pub open spec fn head_text(head: Seq<u8>) -> Seq<char> {
    if valid_utf8(head) {
        decode_utf8(head)
    } else {
        lossy_text(head)
    }
}

/// Adds the header in a line to the headers.
pub fn add_header(headers: &mut StringMap, line: &[char])
    ensures
        final(headers)@ == with_header(old(headers)@, line@),
{
    let at: usize = find_char(line, ':');
    if at < line.len() {
        let name = slice_subrange(line, 0, at);
        let value = slice_subrange(line, at + 1, line.len());
        assert(name@ =~= line@.take(at as int));
        assert(value@ =~= line@.skip(at + 1));
        let name_text = string_of(trim(name));
        let key = to_lowercase(name_text.as_str());
        headers.insert(key, string_of(trim(value)));
    }
}

/// Reads the request that the text of a head makes.
pub fn parse_request(text: &str) -> (r: Option<Request>)
    ensures
        opt_request(r) == request_in(text@),
{
    let chars = chars_of(text);
    let all = split_lines(chars.as_slice());
    let ghost line_views = views(all@);
    assert(line_views[0] == all@[0]@);
    let first = split_words(all[0]);
    assert(views(first@).len() == first@.len());
    if first.len() < 2 {
        return None;
    }
    assert(views(first@)[0] == first@[0]@ && views(first@)[1] == first@[1]@);
    let method = string_of(first[0]);
    let path = string_of(first[1]);
    let mut headers = StringMap::new();
    let mut i: usize = 1;
    while i < all.len() && all[i].len() > 0
        invariant
            line_views == views(all@),
            1 <= i <= all@.len(),
            headers_in(headers@, line_views.skip(i as int)) == headers_in(
                Map::empty(),
                line_views.skip(1),
            ),
        decreases all@.len() - i,
    {
        proof {
            let rest = line_views.skip(i as int);
            assert(rest[0] == all@[i as int]@);
            assert(rest.skip(1) =~= line_views.skip(i + 1));
        }
        add_header(&mut headers, all[i]);
        i += 1;
    }
    proof {
        let rest = line_views.skip(i as int);
        if i < all@.len() {
            assert(rest[0] == all@[i as int]@);
        }
    }
    Some(Request { method, path, headers })
}

/// Reads the request that a head makes.
pub fn read_request(head: &[u8]) -> (r: Option<Request>)
    ensures
        opt_request(r) == request_in(head_text(head@)),
{
    let text = text_from_utf8_lossy(head);
    parse_request(text.as_str())
}

// ---------------------------------------------------------------- how headers are spelled

/// Whether two ASCII texts differ at most in the case of their letters.
pub open spec fn same_letters(a: Seq<char>, b: Seq<char>) -> bool {
    &&& is_ascii_chars(a)
    &&& is_ascii_chars(b)
    &&& a.len() == b.len()
    &&& forall|i: int| 0 <= i < a.len() ==> small_letter(#[trigger] a[i]) == small_letter(b[i])
}

proof fn lemma_trim_same_letters(a: Seq<char>, b: Seq<char>)
    requires
        same_letters(a, b),
    ensures
        same_letters(trim_front(a), trim_front(b)),
        same_letters(trim_back(a), trim_back(b)),
    decreases a.len(),
{
    if a.len() > 0 {
        assert(small_letter(a[0]) == small_letter(b[0]));
        assert(small_letter(a[a.len() - 1]) == small_letter(b[b.len() - 1]));
        lemma_same_blank(a[0], b[0]);
        lemma_same_blank(a[a.len() - 1], b[b.len() - 1]);
        let (x, y) = (a.skip(1), b.skip(1));
        assert forall|i: int| 0 <= i < x.len() implies small_letter(#[trigger] x[i])
            == small_letter(y[i]) by {
            assert(x[i] == a[i + 1]);
        }
        lemma_trim_same_letters(x, y);
        let (v, w) = (a.drop_last(), b.drop_last());
        assert forall|i: int| 0 <= i < v.len() implies small_letter(#[trigger] v[i])
            == small_letter(w[i]) by {
            assert(v[i] == a[i]);
        }
        lemma_trim_same_letters(v, w);
    }
}

proof fn lemma_same_blank(c: char, d: char)
    requires
        (c as u32) < 128,
        (d as u32) < 128,
        small_letter(c) == small_letter(d),
    ensures
        is_white_space(c) == is_white_space(d),
{
}

/// One way to spell the name of a header, and the white space around the name and the value.
pub struct Spelling {
    pub before_name: Seq<char>,
    pub name: Seq<char>,
    pub after_name: Seq<char>,
    pub before_value: Seq<char>,
    pub after_value: Seq<char>,
}

impl Spelling {
    /// Whether this spells a header: the name has no colon, and what is around it is blank.
    pub open spec fn wf(self) -> bool {
        &&& !self.name.contains(':')
        &&& blank(self.before_name)
        &&& blank(self.after_name)
        &&& blank(self.before_value)
        &&& blank(self.after_value)
    }

    /// The line that gives a value to the header.
    pub open spec fn line(self, value: Seq<char>) -> Seq<char> {
        self.before_name + self.name + self.after_name + seq![':'] + (self.before_value + value
            + self.after_value)
    }
}

/// Whether two lines of a head say the same: the same name but for the case of its letters, and
/// the same value, without the white space around them; or both nothing.
pub open spec fn same_header(a: Seq<char>, b: Seq<char>) -> bool {
    let i = first_index(a, ':');
    let j = first_index(b, ':');
    &&& a.len() > 0 <==> b.len() > 0
    &&& i < a.len() <==> j < b.len()
    &&& i < a.len() ==> small_letters(trimmed(a.take(i))) == small_letters(trimmed(b.take(j)))
        && trimmed(a.skip(i + 1)) == trimmed(b.skip(j + 1))
}

proof fn lemma_spelled_line(s: Spelling, value: Seq<char>)
    requires
        s.wf(),
    ensures
        ({
            let line = s.line(value);
            let at = first_index(line, ':');
            &&& 0 <= at < line.len()
            &&& trimmed(line.take(at)) == trimmed(s.name)
            &&& trimmed(line.skip(at + 1)) == trimmed(value)
        }),
{
    let front = s.before_name + s.name + s.after_name;
    let back = s.before_value + value + s.after_value;
    let line = s.line(value);
    let at = front.len() as int;
    assert forall|k: int| 0 <= k < at implies line[k] != ':' by {
        assert(line[k] == front[k]);
        let n = s.before_name.len();
        let m = s.name.len();
        if k < n {
            assert(is_white_space(s.before_name[k]));
        } else if k < n + m {
            assert(front[k] == s.name[k - n]);
        } else {
            assert(front[k] == s.after_name[k - n - m]);
            assert(is_white_space(s.after_name[k - n - m]));
        }
    }
    assert(line[at] == ':');
    lemma_first_index(line, ':', at);
    assert(line.take(at) =~= front);
    assert(line.skip(at + 1) =~= back);
    law_trimming_forgets_blanks(s.before_name, s.name, s.after_name);
    law_trimming_forgets_blanks(s.before_value, value, s.after_value);
}

/// The case of the letters of an ASCII header name, and the white space around the name and the
/// value, do not matter.
pub proof fn law_header_spelling_does_not_matter(
    headers: Map<Seq<char>, Seq<char>>,
    a: Spelling,
    b: Spelling,
    value: Seq<char>,
)
    requires
        a.wf(),
        b.wf(),
        a.name == b.name || same_letters(a.name, b.name),
    ensures
        same_header(a.line(value), b.line(value)),
        with_header(headers, a.line(value)) == with_header(headers, b.line(value)),
{
    lemma_spelled_line(a, value);
    lemma_spelled_line(b, value);
    if a.name != b.name {
        lemma_trim_same_letters(a.name, b.name);
        lemma_trim_same_letters(trim_front(a.name), trim_front(b.name));
        let (x, y) = (trimmed(a.name), trimmed(b.name));
        assert(small_letters(x) =~= small_letters(y));
    }
}

/// Whether two texts of heads say the same: the first lines are the same, and the other ones
/// say the same one by one.
pub open spec fn same_head(a: Seq<char>, b: Seq<char>) -> bool {
    &&& lines(a).len() == lines(b).len()
    &&& lines(a)[0] == lines(b)[0]
    &&& forall|i: int| 1 <= i < lines(a).len() ==> same_header(#[trigger] lines(a)[i], lines(b)[i])
}

proof fn lemma_same_headers(
    headers: Map<Seq<char>, Seq<char>>,
    a: Seq<Seq<char>>,
    b: Seq<Seq<char>>,
)
    requires
        a.len() == b.len(),
        forall|i: int| 0 <= i < a.len() ==> same_header(#[trigger] a[i], b[i]),
    ensures
        headers_in(headers, a) == headers_in(headers, b),
    decreases a.len(),
{
    if a.len() > 0 {
        assert(same_header(a[0], b[0]));
        let (x, y) = (a.skip(1), b.skip(1));
        assert forall|i: int| 0 <= i < x.len() implies same_header(#[trigger] x[i], y[i]) by {
            assert(same_header(a[i + 1], b[i + 1]));
        }
        assert(with_header(headers, a[0]) == with_header(headers, b[0]));
        lemma_same_headers(with_header(headers, a[0]), x, y);
    }
}

/// Heads that say the same make the same request.
pub proof fn law_same_heads_make_the_same_request(a: Seq<char>, b: Seq<char>)
    requires
        same_head(a, b),
    ensures
        request_in(a) == request_in(b),
{
    let (x, y) = (lines(a).skip(1), lines(b).skip(1));
    assert forall|i: int| 0 <= i < x.len() implies same_header(#[trigger] x[i], y[i]) by {
        assert(same_header(lines(a)[i + 1], lines(b)[i + 1]));
    }
    lemma_same_headers(Map::empty(), x, y);
}

// ---------------------------------------------------------------- routes

/// The version of the protocol that a request asks for: 0 where it does not say, and none where
/// what it says is no number below 256.
pub open spec fn proto_of(headers: Map<Seq<char>, Seq<char>>) -> Option<int> {
    if headers.contains_key("x-gp-proto"@) {
        unsigned(headers["x-gp-proto"@], 10, 255)
    } else {
        Some(0)
    }
}

/// Reads the version of the protocol that a request asks for.
pub fn gp_proto(headers: &StringMap) -> (r: Option<u8>)
    ensures
        match r {
            Some(n) => proto_of(headers@) == Some(n as int),
            None => proto_of(headers@) is None,
        },
{
    match headers.get("x-gp-proto") {
        None => Some(0),
        Some(text) => {
            let chars = chars_of(text.as_str());
            match parse_unsigned(chars.as_slice(), 10, 255) {
                Some(n) => Some(n as u8),
                None => None,
            }
        },
    }
}

/// The route that a request takes.
#[derive(Debug, Clone, Copy)]
pub enum Route {
    /// A query.
    Df,
    /// A file.
    File,
    /// None: the request is refused with this message.
    Refused(&'static str),
}

/// The route that a request takes, as a value.
pub enum RouteView {
    Df,
    File,
    Refused(Seq<char>),
}

impl View for Route {
    type V = RouteView;

    open spec fn view(&self) -> RouteView {
        match self {
            Route::Df => RouteView::Df,
            Route::File => RouteView::File,
            Route::Refused(message) => RouteView::Refused(message@),
        }
    }
}

/// The route that a request takes: only a GET in protocol 1 is served.
pub open spec fn route_of(request: RequestView) -> RouteView {
    if request.method == "GET"@ {
        if proto_of(request.headers) == Some(1int) {
            if "/df/"@.is_prefix_of(request.path) {
                RouteView::Df
            } else {
                RouteView::File
            }
        } else {
            RouteView::Refused("X-GP-PROTO must be 1 for GET"@)
        }
    } else if request.method == "POST"@ {
        if proto_of(request.headers) == Some(0int) {
            RouteView::Refused("only GET supported currently"@)
        } else {
            RouteView::Refused("X-GP-PROTO must be 0 for POST"@)
        }
    } else {
        RouteView::Refused("unsupported method"@)
    }
}

/// Decides which route a request takes.
pub fn route(request: &Request) -> (r: Route)
    ensures
        r@ == route_of(request@),
{
    let method = chars_of(request.method.as_str());
    let proto = gp_proto(&request.headers);
    if is_text(method.as_slice(), "GET") {
        match proto {
            Some(1) => {
                let path = chars_of(request.path.as_str());
                if starts_with(path.as_slice(), "/df/") {
                    Route::Df
                } else {
                    Route::File
                }
            },
            _ => Route::Refused("X-GP-PROTO must be 1 for GET"),
        }
    } else if is_text(method.as_slice(), "POST") {
        match proto {
            Some(0) => Route::Refused("only GET supported currently"),
            _ => Route::Refused("X-GP-PROTO must be 0 for POST"),
        }
    } else {
        Route::Refused("unsupported method")
    }
}

/// Only requests that ask for protocol 1 are served, and only by GET.
pub proof fn law_only_get_in_protocol_one_is_served(request: RequestView)
    ensures
        !(route_of(request) is Refused) <==> request.method == "GET"@ && proto_of(request.headers)
            == Some(1int),
{
}

/// A request that does not say which version of the protocol it asks for takes the route of one
/// that asks for version 0.
pub proof fn law_missing_protocol_means_zero(request: RequestView)
    requires
        !request.headers.contains_key("x-gp-proto"@),
    ensures
        route_of(request) == route_of(
            RequestView { headers: request.headers.insert("x-gp-proto"@, "0"@), ..request },
        ),
{
    reveal_strlit("0");
    law_decimal_round_trip(0, 255);
    assert(decimal(0) =~= "0"@);
}

// ---------------------------------------------------------------- responses

/// The words that go with a status.
pub open spec fn status_words(status: u16) -> Seq<char> {
    if status == 400 {
        "Bad Request"@
    } else if status == 404 {
        "Not Found"@
    } else if status == 405 {
        "Method Not Allowed"@
    } else if status == 500 {
        "Internal Server Error"@
    } else {
        "Error"@
    }
}

/// The head of a response that says what went wrong, with a message of the given length in
/// bytes.
pub open spec fn error_head(status: u16, length: nat) -> Seq<char> {
    "HTTP/1.1 "@ + decimal(status as nat) + " "@ + status_words(status)
        + "\r\nContent-Type: text/plain\r\nContent-Length: "@ + decimal(length)
        + "\r\nConnection: close\r\n\r\n"@
}

/// A response that says what went wrong.
pub open spec fn error_response(status: u16, message: Seq<char>) -> Seq<u8> {
    encode_utf8(error_head(status, encode_utf8(message).len()) + message)
}

/// Appends a response that says what went wrong.
pub fn send_error(out: &mut Vec<u8>, status: u16, message: &str)
    ensures
        final(out)@ == old(out)@ + error_response(status, message@),
{
    let status_text = match status {
        400 => "Bad Request",
        404 => "Not Found",
        405 => "Method Not Allowed",
        500 => "Internal Server Error",
        _ => "Error",
    };
    let mut text = String::from_str("HTTP/1.1 ");
    push_decimal(&mut text, status as u128);
    text.append(" ");
    text.append(status_text);
    text.append("\r\nContent-Type: text/plain\r\nContent-Length: ");
    push_decimal(&mut text, message.as_bytes().len() as u128);
    text.append("\r\nConnection: close\r\n\r\n");
    text.append(message);
    assert(text@ =~= error_head(status, encode_utf8(message@).len()) + message@);
    put(out, text.as_str().as_bytes());
}

/// Appends the refusal of a request whose head is too large.
pub fn send_head_too_large(out: &mut Vec<u8>)
    ensures
        final(out)@ == old(out)@ + error_response(400, "Header too large"@),
{
    send_error(out, 400, "Header too large");
}

/// The head of a response that carries data.
pub open spec fn ok_head(gp_proto: u8) -> Seq<char> {
    "HTTP/1.1 200 OK\r\nContent-Type: application/octet-stream\r\nX-GP-PROTO: "@ + decimal(
        gp_proto as nat,
    ) + "\r\nConnection: close\r\n\r\n"@
}

/// Appends the head of a response that carries data.
pub fn send_ok(out: &mut Vec<u8>, gp_proto: u8)
    ensures
        final(out)@ == old(out)@ + encode_utf8(ok_head(gp_proto)),
{
    let mut text = String::from_str(
        "HTTP/1.1 200 OK\r\nContent-Type: application/octet-stream\r\nX-GP-PROTO: ",
    );
    push_decimal(&mut text, gp_proto as u128);
    text.append("\r\nConnection: close\r\n\r\n");
    assert(text@ =~= ok_head(gp_proto));
    put(out, text.as_str().as_bytes());
}

/// Text is encoded piece by piece.
pub proof fn lemma_encode_concat(a: Seq<char>, b: Seq<char>)
    ensures
        encode_utf8(a + b) == encode_utf8(a) + encode_utf8(b),
    decreases a.len(),
{
    if a.len() == 0 {
        assert(a + b =~= b);
        assert(encode_utf8(a) + encode_utf8(b) =~= encode_utf8(b));
    } else {
        lemma_encode_concat(a.drop_first(), b);
        assert((a + b).drop_first() =~= a.drop_first() + b);
        assert(encode_utf8(a + b) =~= encode_utf8(a) + encode_utf8(b));
    }
}

/// The body of an error response is the message, and its length is the one that the head gives.
pub proof fn law_error_length(status: u16, message: Seq<char>)
    ensures
        error_response(status, message) == encode_utf8(
            error_head(status, encode_utf8(message).len()),
        ) + encode_utf8(message),
{
    lemma_encode_concat(error_head(status, encode_utf8(message).len()), message);
}

// ---------------------------------------------------------------- laws of requests

/// The head of a request is what precedes its first empty line: its end is marked by a carriage
/// return and a line feed, twice, and by nothing else.
pub proof fn law_end_of_a_head(data: Seq<u8>, at: int)
    ensures
        head_ends_at(data, at) <==> 0 <= at && at + 4 <= data.len() && data.subrange(at, at + 4)
            == seq![13u8, 10u8, 13u8, 10u8] && forall|k: int|
            0 <= k < at ==> #[trigger] data.subrange(k, k + 4) != seq![13u8, 10u8, 13u8, 10u8],
{
    let mark = seq![13u8, 10u8, 13u8, 10u8];
    assert(head_mark() =~= mark);
    if head_ends_at(data, at) {
        assert forall|k: int| 0 <= k < at implies #[trigger] data.subrange(k, k + 4) != mark by {
            assert(!occurs_at(data, head_mark(), k));
        }
    }
    if 0 <= at && at + 4 <= data.len() && data.subrange(at, at + 4) == mark && forall|k: int|
        0 <= k < at ==> #[trigger] data.subrange(k, k + 4) != mark {
        assert forall|k: int| 0 <= k < at implies !occurs_at(data, head_mark(), k) by {
            assert(data.subrange(k, k + 4) != mark);
        }
    }
}

/// A request is given up exactly where the connection is closed before its head is complete, and
/// refused exactly where more than 64 KiB have come by then.
pub proof fn law_limit_of_a_head(buf: Seq<u8>, chunk: Seq<u8>)
    ensures
        received(buf, seq![chunk]) is Closed <==> chunk.len() == 0,
        received(buf, seq![chunk]) is TooLarge <==> chunk.len() > 0 && buf.len() + chunk.len()
            > 65536,
        received(buf, seq![chunk]) is Head <==> chunk.len() > 0 && buf.len() + chunk.len() <= 65536
            && exists|at: int| head_ends_at(buf + chunk, at),
{
    assert(seq![chunk][0] == chunk);
    assert(seq![chunk].drop_first() =~= Seq::empty());
    assert(received(buf + chunk, Seq::empty()) is Waiting);
}

/// The first line of a head gives the method and the path, which are its first two words, and
/// the lines behind it give the headers. With fewer words there is no request.
pub proof fn law_request_line(
    p: Seq<char>,
    method: Seq<char>,
    gap: Seq<char>,
    path: Seq<char>,
    tail: Seq<char>,
    more: Seq<Seq<char>>,
)
    requires
        blank(p),
        blank(gap),
        gap.len() > 0,
        method.len() > 0,
        path.len() > 0,
        forall|k: int| 0 <= k < method.len() ==> !is_white_space(#[trigger] method[k]),
        forall|k: int| 0 <= k < path.len() ==> !is_white_space(#[trigger] path[k]),
        tail.len() > 0 ==> is_white_space(tail[0]),
        !has_break(p + method + gap + path + tail),
        !has_break(p + method + gap),
        forall|i: int| 0 <= i < more.len() ==> !has_break(#[trigger] more[i]),
    ensures
        request_in(
            join(seq![p + method + gap + path + tail] + more, seq!['\r', '\n']),
        ) == Some(RequestView { method, path, headers: headers_in(Map::empty(), more) }),
        request_in(join(seq![p + method + gap] + more, seq!['\r', '\n'])) is None,
{
    let line = p + method + gap + path + tail;
    let all = seq![line] + more;
    assert forall|i: int| 0 <= i < all.len() implies !has_break(#[trigger] all[i]) by {
        if i > 0 {
            assert(all[i] == more[i - 1]);
        }
    }
    law_joined_lines_are_found(all);
    assert(all[0] == line);
    assert(all.skip(1) =~= more);
    let rest = gap + path + tail;
    assert(line =~= p + method + rest);
    assert(rest[0] == gap[0]);
    law_words_of_a_text(p, method, rest);
    law_words_of_a_text(gap, path, tail);
    let found = words(line);
    assert(found =~= seq![method] + (seq![path] + words(tail)));
    assert(found[0] == method && found[1] == path);

    let short = p + method + gap;
    let few = seq![short] + more;
    assert forall|i: int| 0 <= i < few.len() implies !has_break(#[trigger] few[i]) by {
        if i > 0 {
            assert(few[i] == more[i - 1]);
        }
    }
    law_joined_lines_are_found(few);
    assert(few[0] == short);
    law_words_of_a_text(p, method, gap);
    law_words_of_a_text(gap, path, tail);
    assert(words(short) =~= seq![method]);
}

/// The lines of a head are read one by one: a line with a colon binds the name in front of it,
/// in small letters, to the value behind it, both without the white space around them. A line
/// without a colon is passed over, and an empty line is the end.
pub proof fn law_header_lines(
    headers: Map<Seq<char>, Seq<char>>,
    s: Spelling,
    foreign: Spelling,
    value: Seq<char>,
    other: Seq<char>,
    rest: Seq<Seq<char>>,
)
    requires
        s.wf(),
        foreign.wf(),
        is_ascii_chars(s.name),
        !other.contains(':'),
        other.len() > 0,
    ensures
        headers_in(headers, seq![s.line(value)] + rest) == headers_in(
            headers.insert(
                trimmed(s.name).map_values(|c: char| small_letter(c)),
                trimmed(value),
            ),
            rest,
        ),
        !is_ascii_chars(trimmed(foreign.name)) ==> headers_in(
            headers,
            seq![foreign.line(value)] + rest,
        ) == headers_in(headers.insert(lowercase(trimmed(foreign.name)), trimmed(value)), rest),
        headers_in(headers, seq![other] + rest) == headers_in(headers, rest),
        headers_in(headers, seq![Seq::<char>::empty()] + rest) == headers,
        headers_in(headers, Seq::empty()) == headers,
{
    lemma_spelled_line(s, value);
    let line = s.line(value);
    assert((seq![line] + rest)[0] == line);
    assert((seq![line] + rest).skip(1) =~= rest);
    lemma_trim_ascii(s.name);
    lemma_spelled_line(foreign, value);
    assert((seq![foreign.line(value)] + rest)[0] == foreign.line(value));
    assert((seq![foreign.line(value)] + rest).skip(1) =~= rest);
    assert forall|k: int| 0 <= k < other.len() implies other[k] != ':' by {
        assert(other.contains(other[k]));
    }
    lemma_first_index(other, ':', other.len() as int);
    assert((seq![other] + rest)[0] == other);
    assert((seq![other] + rest).skip(1) =~= rest);
    assert((seq![Seq::<char>::empty()] + rest)[0] == Seq::<char>::empty());
}

proof fn lemma_trim_ascii(s: Seq<char>)
    requires
        is_ascii_chars(s),
    ensures
        is_ascii_chars(trimmed(s)),
{
    assert(same_letters(s, s));
    lemma_trim_same_letters(s, s);
    lemma_trim_same_letters(trim_front(s), trim_front(s));
}

/// The version of the protocol is the number in its header, where it is one below 256, and 0
/// where there is no such header.
pub proof fn law_protocol_of_a_request(headers: Map<Seq<char>, Seq<char>>, n: nat)
    ensures
        headers.contains_key("x-gp-proto"@) && headers["x-gp-proto"@] == decimal(n) && n <= 255
            ==> proto_of(headers) == Some(n as int),
        headers.contains_key("x-gp-proto"@) && headers["x-gp-proto"@] == decimal(n) && n > 255
            ==> proto_of(headers) is None,
        headers.contains_key("x-gp-proto"@) && (exists|i: int|
            0 <= i < headers["x-gp-proto"@].len() && !is_digit(
                #[trigger] headers["x-gp-proto"@][i],
            ) && (i > 0 || headers["x-gp-proto"@][i] != '+')) ==> proto_of(headers) is None,
        headers.contains_key("x-gp-proto"@) && headers["x-gp-proto"@].len() == 0 ==> proto_of(
            headers,
        ) is None,
        headers.contains_key("x-gp-proto"@) && unsigned(headers["x-gp-proto"@], 10, 255) == Some(
            n as int,
        ) ==> proto_of(headers) == Some(n as int),
        !headers.contains_key("x-gp-proto"@) ==> proto_of(headers) == Some(0int),
{
    if n <= 255 {
        law_decimal_round_trip(n, 255);
    } else {
        law_numbers_above_the_limit(n, 255);
    }
    let text = headers["x-gp-proto"@];
    law_what_is_no_number(text, 255);
    if text.len() == 0 {
        assert(text =~= Seq::empty());
    }
}

/// Which route a request takes, and how it is refused, for every method and every protocol.
pub proof fn law_routes(request: RequestView)
    ensures
        request.method == "GET"@ && proto_of(request.headers) == Some(1int) && "/df/"@.is_prefix_of(
            request.path,
        ) ==> route_of(request) is Df,
        request.method == "GET"@ && proto_of(request.headers) == Some(1int)
            && !"/df/"@.is_prefix_of(request.path) ==> route_of(request) is File,
        request.method == "GET"@ && proto_of(request.headers) != Some(1int) ==> route_of(request)
            == RouteView::Refused("X-GP-PROTO must be 1 for GET"@),
        request.method == "POST"@ && proto_of(request.headers) == Some(0int) ==> route_of(request)
            == RouteView::Refused("only GET supported currently"@),
        request.method == "POST"@ && proto_of(request.headers) != Some(0int) ==> route_of(request)
            == RouteView::Refused("X-GP-PROTO must be 0 for POST"@),
        request.method != "GET"@ && request.method != "POST"@ ==> route_of(request)
            == RouteView::Refused("unsupported method"@),
{
    reveal_strlit("GET");
    reveal_strlit("POST");
    assert("GET"@.len() != "POST"@.len());
}

/// What the heads of responses are: the status with its words, what the body is, and for an
/// error how long it is.
pub proof fn law_heads_of_responses(status: u16, message: Seq<char>, gp_proto: u8)
    ensures
        error_response(status, message) == encode_utf8(
            "HTTP/1.1 "@ + decimal(status as nat) + " "@ + (if status == 400 {
                "Bad Request"@
            } else if status == 404 {
                "Not Found"@
            } else if status == 405 {
                "Method Not Allowed"@
            } else if status == 500 {
                "Internal Server Error"@
            } else {
                "Error"@
            }) + "\r\nContent-Type: text/plain\r\nContent-Length: "@ + decimal(
                encode_utf8(message).len(),
            ) + "\r\nConnection: close\r\n\r\n"@,
        ) + encode_utf8(message),
        ok_head(gp_proto)
            == "HTTP/1.1 200 OK\r\nContent-Type: application/octet-stream\r\nX-GP-PROTO: "@
            + decimal(gp_proto as nat) + "\r\nConnection: close\r\n\r\n"@,
{
    law_error_length(status, message);
}

/// The text of a head is what its bytes encode; only bytes that are no text are replaced.
pub proof fn law_text_of_a_head(text: Seq<char>, bytes: Seq<u8>)
    ensures
        head_text(encode_utf8(text)) == text,
        !valid_utf8(bytes) ==> head_text(bytes) == lossy_text(bytes),
{
    encode_utf8_valid_utf8(text);
    encode_utf8_decode_utf8(text);
}

} // verus!
