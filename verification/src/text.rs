//! Text as sequences of characters: splitting, trimming and joining.

use vstd::prelude::*;
use vstd::slice::slice_subrange;
use vstd::string::*;

verus! {

/// Calls `String::push`: the character is appended.
pub assume_specification[ String::push ](s: &mut String, c: char)
    ensures
        final(s)@ == old(s)@.push(c),
;

// ---------------------------------------------------------------- characters

/// The characters of a string, as a vector.
pub fn chars_of(s: &str) -> (r: Vec<char>)
    ensures
        r@ == s@,
{
    let mut out: Vec<char> = Vec::new();
    for c in it: s.chars()
        invariant
            out@ == it.seq().take(it.index() as int),
            it.seq() == s@,
    {
        out.push(c);
    }
    out
}

/// The string made of the given characters.
pub fn string_of(cs: &[char]) -> (r: String)
    ensures
        r@ == cs@,
{
    let mut out = String::new();
    for i in 0..cs.len()
        invariant
            out@ == cs@.take(i as int),
    {
        out.push(cs[i]);
        assert(cs@.take(i + 1) == cs@.take(i as int).push(cs@[i as int]));
    }
    assert(cs@.take(cs@.len() as int) == cs@);
    out
}

/// Whether a character sequence is the given text.
pub fn is_text(cs: &[char], text: &str) -> (r: bool)
    ensures
        r == (cs@ == text@),
{
    let t = chars_of(text);
    if cs.len() != t.len() {
        return false;
    }
    for i in 0..cs.len()
        invariant
            cs@.len() == t@.len(),
            t@ == text@,
            forall|k: int| 0 <= k < i ==> cs@[k] == t@[k],
    {
        if cs[i] != t[i] {
            return false;
        }
    }
    assert(cs@ =~= t@);
    true
}

// ---------------------------------------------------------------- searching

/// The position of the first `c` in `s`, or the length of `s` where there is none.
pub open spec fn first_index(s: Seq<char>, c: char) -> int
    decreases s.len(),
{
    if s.len() == 0 || s[0] == c {
        0
    } else {
        1 + first_index(s.skip(1), c)
    }
}

/// What makes a position the first occurrence of a character.
pub proof fn lemma_first_index(s: Seq<char>, c: char, at: int)
    requires
        0 <= at <= s.len(),
        forall|k: int| 0 <= k < at ==> s[k] != c,
        at < s.len() ==> s[at] == c,
    ensures
        first_index(s, c) == at,
    decreases s.len(),
{
    if s.len() > 0 && s[0] != c {
        assert forall|k: int| 0 <= k < at - 1 implies s.skip(1)[k] != c by {
            assert(s.skip(1)[k] == s[k + 1]);
        }
        lemma_first_index(s.skip(1), c, at - 1);
    }
}

/// The position of the first `c`, or the length of the text where there is none.
pub fn find_char(s: &[char], c: char) -> (r: usize)
    ensures
        r == first_index(s@, c),
        r <= s@.len(),
{
    let mut i: usize = 0;
    while i < s.len() && s[i] != c
        invariant
            i <= s@.len(),
            forall|k: int| 0 <= k < i ==> s@[k] != c,
        decreases s@.len() - i,
    {
        i += 1;
    }
    proof {
        lemma_first_index(s@, c, i as int);
    }
    i
}

/// Whether `part` occurs in `s` as a contiguous run.
pub open spec fn contains_run(s: Seq<char>, part: Seq<char>) -> bool {
    exists|at: int|
        0 <= at && at + part.len() <= s.len() && #[trigger] s.subrange(at, at + part.len()) == part
}

/// Whether the text begins with the given prefix.
pub fn starts_with(s: &[char], prefix: &str) -> (r: bool)
    ensures
        r == prefix@.is_prefix_of(s@),
{
    let p = chars_of(prefix);
    if p.len() > s.len() {
        return false;
    }
    let head = slice_subrange(s, 0, p.len());
    is_text(head, prefix)
}

/// Whether the text ends with the given suffix.
pub fn ends_with(s: &[char], suffix: &str) -> (r: bool)
    ensures
        r == suffix@.is_suffix_of(s@),
{
    let p = chars_of(suffix);
    if p.len() > s.len() {
        return false;
    }
    let tail = slice_subrange(s, s.len() - p.len(), s.len());
    is_text(tail, suffix)
}

/// Whether two dots in a row occur in the text.
pub fn contains_two_dots(s: &[char]) -> (r: bool)
    ensures
        r == contains_run(s@, seq!['.', '.']),
{
    let ghost dots: Seq<char> = seq!['.', '.'];
    if s.len() < 2 {
        return false;
    }
    let mut i: usize = 0;
    while i < s.len() - 1
        invariant
            2 <= s@.len(),
            i <= s@.len() - 1,
            dots == seq!['.', '.'],
            forall|k: int| 0 <= k < i ==> #[trigger] s@.subrange(k, k + 2) != dots,
        decreases s@.len() - i,
    {
        if s[i] == '.' && s[i + 1] == '.' {
            assert(s@.subrange(i as int, i + 2) =~= dots);
            assert(s@.subrange(i as int, i + dots.len()) == dots);
            return true;
        }
        assert(s@.subrange(i as int, i + 2) != dots) by {
            assert(s@.subrange(i as int, i + 2)[0] == s@[i as int]);
            assert(s@.subrange(i as int, i + 2)[1] == s@[i + 1]);
            assert(dots[0] == '.' && dots[1] == '.');
        }
        i += 1;
    }
    assert(!contains_run(s@, dots)) by {
        assert forall|at: int| 0 <= at && at + dots.len() <= s@.len() implies
            #[trigger] s@.subrange(at, at + dots.len()) != dots by {
            assert(s@.subrange(at, at + 2) != dots);
        }
    }
    false
}

// ---------------------------------------------------------------- splitting

/// The contents of a list of character slices.
pub open spec fn views(parts: Seq<&[char]>) -> Seq<Seq<char>> {
    Seq::new(parts.len(), |i: int| parts[i]@)
}

/// The pieces of `s` between the occurrences of `sep`: one more than there are separators.
pub open spec fn split(s: Seq<char>, sep: char) -> Seq<Seq<char>>
    decreases s.len(),
{
    let at = first_index(s, sep);
    if 0 <= at < s.len() {
        seq![s.take(at)] + split(s.skip(at + 1), sep)
    } else {
        seq![s]
    }
}

/// Splits a text at every occurrence of a separator.
pub fn split_at_char<'a>(s: &'a [char], sep: char) -> (r: Vec<&'a [char]>)
    ensures
        views(r@) == split(s@, sep),
        r@.len() >= 1,
{
    let mut out: Vec<&'a [char]> = Vec::new();
    let mut rest: &'a [char] = s;
    assert(views(out@) + split(rest@, sep) =~= split(s@, sep));
    loop
        invariant
            views(out@) + split(rest@, sep) == split(s@, sep),
        decreases rest@.len(),
    {
        let at: usize = find_char(rest, sep);
        let ghost before = out@;
        if at == rest.len() {
            out.push(rest);
            assert(views(out@) =~= views(before).push(rest@));
            assert(views(out@) =~= views(before) + seq![rest@]);
            return out;
        }
        let piece = slice_subrange(rest, 0, at);
        let next = slice_subrange(rest, at + 1, rest.len());
        out.push(piece);
        proof {
            assert(piece@ =~= rest@.take(at as int));
            assert(next@ =~= rest@.skip(at + 1));
            assert(views(out@) =~= views(before).push(piece@));
            assert(views(out@) + split(next@, sep) =~= views(before) + (seq![piece@] + split(
                next@,
                sep,
            )));
        }
        rest = next;
    }
}

/// The texts `parts` with `sep` between each two of them.
pub open spec fn join(parts: Seq<Seq<char>>, sep: Seq<char>) -> Seq<char>
    decreases parts.len(),
{
    if parts.len() == 0 {
        Seq::empty()
    } else if parts.len() == 1 {
        parts[0]
    } else {
        parts[0] + sep + join(parts.skip(1), sep)
    }
}

/// Puts texts together with a separator between each two of them.
pub fn join_slices(parts: &[&[char]], sep: char) -> (r: Vec<char>)
    ensures
        r@ == join(views(parts@), seq![sep]),
{
    let mut out: Vec<char> = Vec::new();
    let mut i: usize = parts.len();
    let ghost all = views(parts@);
    assert(all.skip(all.len() as int) =~= Seq::empty());
    while i > 0
        invariant
            i <= parts@.len(),
            all == views(parts@),
            out@ == join(all.skip(i as int), seq![sep]),
        decreases i,
    {
        let ghost tail = all.skip(i as int);
        let mut head: Vec<char> = vstd::slice::slice_to_vec(parts[i - 1]);
        proof {
            assert(all.skip(i - 1)[0] == parts@[i - 1]@);
            assert(all.skip(i - 1).skip(1) =~= tail);
        }
        if i < parts.len() {
            head.push(sep);
            let ghost before = head@;
            head.append(&mut out);
            assert(head@ =~= parts@[i - 1]@ + seq![sep] + join(tail, seq![sep]));
        }
        out = head;
        i -= 1;
    }
    assert(all.skip(0) =~= all);
    out
}

/// The contents of a list of strings.
pub open spec fn texts(parts: Seq<String>) -> Seq<Seq<char>> {
    Seq::new(parts.len(), |i: int| parts[i]@)
}

/// Puts strings together with a separator between each two of them.
pub fn join_strings(parts: &[String], sep: &str) -> (r: String)
    ensures
        r@ == join(texts(parts@), sep@),
{
    let mut out = String::new();
    let mut i: usize = parts.len();
    let ghost all = texts(parts@);
    assert(all.skip(all.len() as int) =~= Seq::empty());
    while i > 0
        invariant
            i <= parts@.len(),
            all == texts(parts@),
            out@ == join(all.skip(i as int), sep@),
        decreases i,
    {
        let ghost tail = all.skip(i as int);
        let mut head = parts[i - 1].clone();
        proof {
            assert(all.skip(i - 1)[0] == parts@[i - 1]@);
            assert(all.skip(i - 1).skip(1) =~= tail);
        }
        if i < parts.len() {
            head.append(sep);
            head.append(out.as_str());
            assert(head@ =~= parts@[i - 1]@ + sep@ + join(tail, sep@));
        }
        out = head;
        i -= 1;
    }
    assert(all.skip(0) =~= all);
    out
}

/// The position of the first line break (a carriage return and a line feed), or the length of
/// `s` where there is none.
pub open spec fn first_line_break(s: Seq<char>) -> int
    decreases s.len(),
{
    if s.len() < 2 {
        s.len() as int
    } else if s[0] == '\r' && s[1] == '\n' {
        0
    } else {
        1 + first_line_break(s.skip(1))
    }
}

proof fn lemma_first_line_break(s: Seq<char>, at: int)
    requires
        0 <= at <= s.len(),
        forall|k: int|
            0 <= k < at && k + 1 < s.len() ==> !(s[k] == '\r' && #[trigger] s[k + 1] == '\n'),
        at == s.len() || (at + 1 < s.len() && s[at] == '\r' && s[at + 1] == '\n'),
    ensures
        first_line_break(s) == at,
    decreases s.len(),
{
    if s.len() >= 2 {
        if s[0] == '\r' && s[1] == '\n' {
            if at > 0 {
                assert(s[0int + 1] == '\n');
            }
        } else {
            let t = s.skip(1);
            assert forall|k: int| 0 <= k < at - 1 && k + 1 < t.len() implies !(t[k] == '\r'
                && #[trigger] t[k + 1] == '\n') by {
                assert(t[k] == s[k + 1] && t[k + 1] == s[(k + 1) + 1]);
            }
            if at < s.len() {
                assert(t[at - 1] == s[at] && t[at] == s[at + 1]);
            }
            lemma_first_line_break(t, at - 1);
        }
    }
}

/// The lines of `s`: the pieces between its line breaks.
pub open spec fn lines(s: Seq<char>) -> Seq<Seq<char>>
    decreases s.len(),
{
    let at = first_line_break(s);
    if 0 <= at && at + 2 <= s.len() {
        seq![s.take(at)] + lines(s.skip(at + 2))
    } else {
        seq![s]
    }
}

fn find_line_break(s: &[char]) -> (r: usize)
    ensures
        r == first_line_break(s@),
        r == s@.len() || r + 2 <= s@.len(),
{
    let mut i: usize = 0;
    while i < s.len()
        invariant
            i <= s@.len(),
            forall|k: int|
                0 <= k < i && k + 1 < s@.len() ==> !(s@[k] == '\r' && #[trigger] s@[k + 1] == '\n'),
        decreases s@.len() - i,
    {
        if i + 1 < s.len() && s[i] == '\r' && s[i + 1] == '\n' {
            proof {
                lemma_first_line_break(s@, i as int);
            }
            return i;
        }
        i += 1;
    }
    proof {
        lemma_first_line_break(s@, i as int);
    }
    i
}

/// Splits a text at its line breaks.
pub fn split_lines<'a>(s: &'a [char]) -> (r: Vec<&'a [char]>)
    ensures
        views(r@) == lines(s@),
        r@.len() >= 1,
{
    let mut out: Vec<&'a [char]> = Vec::new();
    let mut rest: &'a [char] = s;
    assert(views(out@) + lines(rest@) =~= lines(s@));
    loop
        invariant
            views(out@) + lines(rest@) == lines(s@),
        decreases rest@.len(),
    {
        let at: usize = find_line_break(rest);
        let ghost before = out@;
        if at == rest.len() {
            out.push(rest);
            assert(views(out@) =~= views(before) + seq![rest@]);
            return out;
        }
        let piece = slice_subrange(rest, 0, at);
        let next = slice_subrange(rest, at + 2, rest.len());
        out.push(piece);
        proof {
            assert(piece@ =~= rest@.take(at as int));
            assert(next@ =~= rest@.skip(at + 2));
            assert(views(out@) =~= views(before).push(piece@));
            assert(views(out@) + lines(next@) =~= views(before) + (seq![piece@] + lines(next@)));
        }
        rest = next;
    }
}

// ---------------------------------------------------------------- white space

/// The characters with the Unicode property `White_Space`.
pub open spec fn is_white_space(c: char) -> bool {
    let n = c as u32;
    ||| 0x9 <= n <= 0xd
    ||| n == 0x20
    ||| n == 0x85
    ||| n == 0xa0
    ||| n == 0x1680
    ||| 0x2000 <= n <= 0x200a
    ||| n == 0x2028
    ||| n == 0x2029
    ||| n == 0x202f
    ||| n == 0x205f
    ||| n == 0x3000
}

/// Whether a character is white space.
pub fn white_space(c: char) -> (r: bool)
    ensures
        r == is_white_space(c),
{
    let n: u32 = c as u32;
    (0x9 <= n && n <= 0xd) || n == 0x20 || n == 0x85 || n == 0xa0 || n == 0x1680 || (0x2000 <= n
        && n <= 0x200a) || n == 0x2028 || n == 0x2029 || n == 0x202f || n == 0x205f || n == 0x3000
}

/// `s` without the white space at its front.
pub open spec fn trim_front(s: Seq<char>) -> Seq<char>
    decreases s.len(),
{
    if s.len() > 0 && is_white_space(s[0]) {
        trim_front(s.skip(1))
    } else {
        s
    }
}

/// `s` without the white space at its back.
pub open spec fn trim_back(s: Seq<char>) -> Seq<char>
    decreases s.len(),
{
    if s.len() > 0 && is_white_space(s.last()) {
        trim_back(s.drop_last())
    } else {
        s
    }
}

/// `s` without the white space around it.
pub open spec fn trimmed(s: Seq<char>) -> Seq<char> {
    trim_back(trim_front(s))
}

fn skip_white_space<'a>(s: &'a [char]) -> (r: &'a [char])
    ensures
        r@ == trim_front(s@),
        r@.len() <= s@.len(),
{
    let mut i: usize = 0;
    assert(s@.skip(0) =~= s@);
    while i < s.len() && white_space(s[i])
        invariant
            i <= s@.len(),
            trim_front(s@.skip(i as int)) == trim_front(s@),
        decreases s@.len() - i,
    {
        assert(s@.skip(i as int).skip(1) =~= s@.skip(i + 1));
        assert(s@.skip(i as int)[0] == s@[i as int]);
        i += 1;
    }
    let r = slice_subrange(s, i, s.len());
    assert(r@ =~= s@.skip(i as int));
    if i < s.len() {
        assert(s@.skip(i as int)[0] == s@[i as int]);
    }
    r
}

/// Takes the white space off both ends of a text.
pub fn trim<'a>(s: &'a [char]) -> (r: &'a [char])
    ensures
        r@ == trimmed(s@),
{
    let f = skip_white_space(s);
    let mut n: usize = f.len();
    assert(f@.take(f@.len() as int) =~= f@);
    while n > 0 && white_space(f[n - 1])
        invariant
            n <= f@.len(),
            trim_back(f@.take(n as int)) == trim_back(f@),
        decreases n,
    {
        assert(f@.take(n as int).drop_last() =~= f@.take(n - 1));
        assert(f@.take(n as int).last() == f@[n - 1]);
        n -= 1;
    }
    let r = slice_subrange(f, 0, n);
    assert(r@ =~= f@.take(n as int));
    if n > 0 {
        assert(f@.take(n as int).last() == f@[n - 1]);
    }
    r
}

/// The position of the first white space in `s`, or the length of `s`.
pub open spec fn first_white_space(s: Seq<char>) -> int
    decreases s.len(),
{
    if s.len() == 0 || is_white_space(s[0]) {
        0
    } else {
        1 + first_white_space(s.skip(1))
    }
}

proof fn lemma_first_white_space(s: Seq<char>, at: int)
    requires
        0 <= at <= s.len(),
        forall|k: int| 0 <= k < at ==> !is_white_space(#[trigger] s[k]),
        at < s.len() ==> is_white_space(s[at]),
    ensures
        first_white_space(s) == at,
    decreases s.len(),
{
    if at > 0 {
        assert(!is_white_space(s[0]));
        assert forall|k: int| 0 <= k < at - 1 implies !is_white_space(#[trigger] s.skip(1)[k]) by {
            assert(s.skip(1)[k] == s[k + 1]);
        }
        lemma_first_white_space(s.skip(1), at - 1);
    }
}

/// The longest runs of `s` that hold no white space.
pub open spec fn words(s: Seq<char>) -> Seq<Seq<char>>
    decreases s.len(),
{
    let t = trim_front(s);
    let at = first_white_space(t);
    if t.len() <= s.len() && 0 < at <= t.len() {
        seq![t.take(at)] + words(t.skip(at))
    } else {
        Seq::empty()
    }
}

/// Splits a text into its words.
pub fn split_words<'a>(s: &'a [char]) -> (r: Vec<&'a [char]>)
    ensures
        views(r@) == words(s@),
{
    let mut out: Vec<&'a [char]> = Vec::new();
    let mut rest: &'a [char] = s;
    assert(views(out@) + words(rest@) =~= words(s@));
    loop
        invariant
            views(out@) + words(rest@) == words(s@),
        decreases rest@.len(),
    {
        let t = skip_white_space(rest);
        let mut at: usize = 0;
        while at < t.len() && !white_space(t[at])
            invariant
                at <= t@.len(),
                forall|k: int| 0 <= k < at ==> !is_white_space(#[trigger] t@[k]),
            decreases t@.len() - at,
        {
            at += 1;
        }
        proof {
            lemma_first_white_space(t@, at as int);
        }
        if at == 0 {
            assert(words(rest@) =~= Seq::empty());
            assert(views(out@) + words(rest@) =~= views(out@));
            return out;
        }
        let ghost before = out@;
        let piece = slice_subrange(t, 0, at);
        let next = slice_subrange(t, at, t.len());
        out.push(piece);
        proof {
            assert(piece@ =~= t@.take(at as int));
            assert(next@ =~= t@.skip(at as int));
            assert(views(out@) =~= views(before).push(piece@));
            assert(views(out@) + words(next@) =~= views(before) + (seq![piece@] + words(next@)));
        }
        rest = next;
    }
}

/// `s` without the characters `c` at its front.
pub open spec fn strip_front(s: Seq<char>, c: char) -> Seq<char>
    decreases s.len(),
{
    if s.len() > 0 && s[0] == c {
        strip_front(s.skip(1), c)
    } else {
        s
    }
}

/// Takes every leading `c` off a text.
pub fn skip_leading<'a>(s: &'a [char], c: char) -> (r: &'a [char])
    ensures
        r@ == strip_front(s@, c),
{
    let mut i: usize = 0;
    assert(s@.skip(0) =~= s@);
    while i < s.len() && s[i] == c
        invariant
            i <= s@.len(),
            strip_front(s@.skip(i as int), c) == strip_front(s@, c),
        decreases s@.len() - i,
    {
        assert(s@.skip(i as int).skip(1) =~= s@.skip(i + 1));
        assert(s@.skip(i as int)[0] == s@[i as int]);
        i += 1;
    }
    let r = slice_subrange(s, i, s.len());
    assert(r@ =~= s@.skip(i as int));
    if i < s.len() {
        assert(s@.skip(i as int)[0] == s@[i as int]);
    }
    r
}

// ---------------------------------------------------------------- optional texts

/// The text in an optional string.
pub open spec fn opt_text(s: Option<String>) -> Option<Seq<char>> {
    match s {
        Some(t) => Some(t@),
        None => None,
    }
}

/// The texts in an optional list of strings.
pub open spec fn opt_texts(s: Option<Vec<String>>) -> Option<Seq<Seq<char>>> {
    match s {
        Some(t) => Some(texts(t@)),
        None => None,
    }
}

/// A copy of an optional string.
pub fn copy_text(s: &Option<String>) -> (r: Option<String>)
    ensures
        opt_text(r) == opt_text(*s),
{
    match s {
        Some(t) => Some(t.clone()),
        None => None,
    }
}

/// A copy of a list of strings.
pub fn copy_texts(s: &[String]) -> (r: Vec<String>)
    ensures
        texts(r@) == texts(s@),
        r@.len() == s@.len(),
{
    let mut out: Vec<String> = Vec::new();
    for i in 0..s.len()
        invariant
            texts(out@) == texts(s@).take(i as int),
            out@.len() == i,
    {
        out.push(s[i].clone());
        assert(texts(out@) =~= texts(s@).take(i + 1));
    }
    assert(texts(s@).take(s@.len() as int) =~= texts(s@));
    out
}

/// Two texts, one after the other.
pub fn joined(a: &str, b: &str) -> (r: String)
    ensures
        r@ == a@ + b@,
{
    let mut out = String::new();
    out.append(a);
    out.append(b);
    assert(out@ =~= a@ + b@);
    out
}

// ---------------------------------------------------------------- laws of trimming

/// Whether a text is nothing but white space.
pub open spec fn blank(s: Seq<char>) -> bool {
    forall|i: int| 0 <= i < s.len() ==> is_white_space(#[trigger] s[i])
}

/// White space in front of a text is trimmed away.
proof fn lemma_trim_front_blank(p: Seq<char>, s: Seq<char>)
    requires
        blank(p),
    ensures
        trim_front(p + s) == trim_front(s),
    decreases p.len(),
{
    if p.len() == 0 {
        assert(p + s =~= s);
    } else {
        let rest = p.skip(1);
        assert forall|i: int| 0 <= i < rest.len() implies is_white_space(#[trigger] rest[i]) by {
            assert(rest[i] == p[i + 1]);
        }
        assert(is_white_space(p[0]));
        assert((p + s)[0] == p[0]);
        assert((p + s).skip(1) =~= rest + s);
        lemma_trim_front_blank(rest, s);
    }
}

/// White space behind a text is trimmed away.
proof fn lemma_trim_back_blank(s: Seq<char>, q: Seq<char>)
    requires
        blank(q),
    ensures
        trim_back(s + q) == trim_back(s),
    decreases q.len(),
{
    if q.len() == 0 {
        assert(s + q =~= s);
    } else {
        let rest = q.drop_last();
        assert forall|i: int| 0 <= i < rest.len() implies is_white_space(#[trigger] rest[i]) by {
            assert(rest[i] == q[i]);
        }
        assert(is_white_space(q[q.len() - 1]));
        assert((s + q).last() == q.last());
        assert((s + q).drop_last() =~= s + rest);
        lemma_trim_back_blank(s, rest);
    }
}

/// Trimming the front of a text goes through to what follows only where all of it is white space.
proof fn lemma_trim_front_append(s: Seq<char>, q: Seq<char>)
    requires
        blank(q),
    ensures
        trim_front(s + q) == if trim_front(s).len() > 0 {
            trim_front(s) + q
        } else {
            Seq::empty()
        },
    decreases s.len(),
{
    if s.len() == 0 {
        assert(s + q =~= q);
        lemma_trim_front_blank(q, Seq::empty());
        assert(q + Seq::<char>::empty() =~= q);
        assert(trim_front(Seq::<char>::empty()) =~= Seq::empty());
    } else if is_white_space(s[0]) {
        assert((s + q)[0] == s[0]);
        assert((s + q).skip(1) =~= s.skip(1) + q);
        lemma_trim_front_append(s.skip(1), q);
    } else {
        assert((s + q)[0] == s[0]);
    }
}

/// White space around a text does not matter once it is trimmed.
pub proof fn law_trimming_forgets_blanks(p: Seq<char>, s: Seq<char>, q: Seq<char>)
    requires
        blank(p),
        blank(q),
    ensures
        trimmed(p + s + q) == trimmed(s),
{
    assert(p + s + q =~= p + (s + q));
    lemma_trim_front_blank(p, s + q);
    lemma_trim_front_append(s, q);
    if trim_front(s).len() > 0 {
        lemma_trim_back_blank(trim_front(s), q);
    } else {
        assert(trim_front(s) =~= Seq::empty());
    }
}

// ---------------------------------------------------------------- laws of pieces

/// Joining puts the separator between the pieces and nowhere else.
pub proof fn law_join(a: Seq<Seq<char>>, b: Seq<Seq<char>>, x: Seq<char>, sep: Seq<char>)
    ensures
        join(Seq::empty(), sep) == Seq::<char>::empty(),
        join(seq![x], sep) == x,
        a.len() > 0 && b.len() > 0 ==> join(a + b, sep) == join(a, sep) + sep + join(b, sep),
    decreases a.len(),
{
    if a.len() > 0 && b.len() > 0 {
        let whole = a + b;
        assert(whole[0] == a[0]);
        if a.len() == 1 {
            assert(whole.skip(1) =~= b);
        } else {
            law_join(a.skip(1), b, x, sep);
            assert(whole.skip(1) =~= a.skip(1) + b);
            assert(join(whole, sep) =~= join(a, sep) + sep + join(b, sep));
        }
    }
}

proof fn lemma_found(s: Seq<char>, c: char)
    ensures
        0 <= first_index(s, c) <= s.len(),
        forall|k: int| 0 <= k < first_index(s, c) ==> s[k] != c,
        first_index(s, c) < s.len() ==> s[first_index(s, c)] == c,
    decreases s.len(),
{
    if s.len() > 0 && s[0] != c {
        lemma_found(s.skip(1), c);
        assert forall|k: int| 0 <= k < first_index(s, c) implies s[k] != c by {
            if k > 0 {
                assert(s[k] == s.skip(1)[k - 1]);
            }
        }
    }
}

/// Splitting takes a text apart at every separator, and joining the pieces gives it back.
pub proof fn law_split_pieces(s: Seq<char>, sep: char)
    ensures
        join(split(s, sep), seq![sep]) == s,
        split(s, sep).len() > 0,
        forall|i: int|
            0 <= i < split(s, sep).len() ==> !(#[trigger] split(s, sep)[i]).contains(sep),
    decreases s.len(),
{
    lemma_found(s, sep);
    let at = first_index(s, sep);
    if at < s.len() {
        let rest = s.skip(at + 1);
        law_split_pieces(rest, sep);
        let more = split(rest, sep);
        let all = seq![s.take(at)] + more;
        assert(all.skip(1) =~= more);
        assert(s =~= s.take(at) + seq![sep] + rest);
        assert forall|i: int| 0 <= i < all.len() implies !(#[trigger] all[i]).contains(sep) by {
            if i > 0 {
                assert(all[i] == more[i - 1]);
            }
        }
    }
}

/// Pieces that were joined are found again, where none of them holds the separator.
pub proof fn law_joined_pieces_are_found(parts: Seq<Seq<char>>, sep: char)
    requires
        parts.len() > 0,
        forall|i: int| 0 <= i < parts.len() ==> !(#[trigger] parts[i]).contains(sep),
    ensures
        split(join(parts, seq![sep]), sep) == parts,
    decreases parts.len(),
{
    let s = join(parts, seq![sep]);
    let first = parts[0];
    assert(!first.contains(sep));
    if parts.len() == 1 {
        assert forall|k: int| 0 <= k < s.len() implies s[k] != sep by {
            assert(first.contains(s[k]));
        }
        lemma_first_index(s, sep, s.len() as int);
        assert(parts =~= seq![first]);
    } else {
        let rest = parts.skip(1);
        assert forall|i: int| 0 <= i < rest.len() implies !(#[trigger] rest[i]).contains(sep) by {
            assert(rest[i] == parts[i + 1]);
        }
        law_joined_pieces_are_found(rest, sep);
        let at = first.len() as int;
        assert forall|k: int| 0 <= k < at implies s[k] != sep by {
            assert(first.contains(s[k]));
        }
        assert(s[at] == sep);
        lemma_first_index(s, sep, at);
        assert(s.take(at) =~= first);
        assert(s.skip(at + 1) =~= join(rest, seq![sep]));
        assert(parts =~= seq![first] + rest);
    }
}

/// Whether a text holds a line break.
pub open spec fn has_break(s: Seq<char>) -> bool {
    exists|k: int| 0 <= k && k + 1 < s.len() && #[trigger] s[k] == '\r' && s[k + 1] == '\n'
}

proof fn lemma_found_break(s: Seq<char>)
    ensures
        0 <= first_line_break(s) <= s.len(),
        forall|k: int|
            0 <= k < first_line_break(s) && k + 1 < s.len() ==> !(#[trigger] s[k] == '\r'
                && s[k + 1] == '\n'),
        first_line_break(s) < s.len() ==> first_line_break(s) + 1 < s.len()
            && s[first_line_break(s)] == '\r' && s[first_line_break(s) + 1] == '\n',
    decreases s.len(),
{
    if s.len() >= 2 && !(s[0] == '\r' && s[1] == '\n') {
        let t = s.skip(1);
        lemma_found_break(t);
        let at = first_line_break(t);
        assert forall|k: int| 0 <= k < first_line_break(s) && k + 1 < s.len() implies !(
        #[trigger] s[k] == '\r' && s[k + 1] == '\n') by {
            if k > 0 {
                assert(t[k - 1] == s[k] && t[k] == s[k + 1]);
            }
        }
        if at < t.len() {
            assert(t[at] == s[at + 1] && t[at + 1] == s[at + 2]);
        }
    }
}

/// Lines that were joined by line breaks are found again, where none of them holds one.
pub proof fn law_joined_lines_are_found(parts: Seq<Seq<char>>)
    requires
        parts.len() > 0,
        forall|i: int| 0 <= i < parts.len() ==> !has_break(#[trigger] parts[i]),
    ensures
        lines(join(parts, seq!['\r', '\n'])) == parts,
    decreases parts.len(),
{
    let sep: Seq<char> = seq!['\r', '\n'];
    let s = join(parts, sep);
    let first = parts[0];
    assert(!has_break(first));
    if parts.len() == 1 {
        assert(s == first);
        lemma_found_break(s);
        let at = first_line_break(s);
        if at < s.len() {
            assert(s[at] == '\r');
            assert(has_break(first));
        }
        assert(parts =~= seq![first]);
    } else {
        let rest = parts.skip(1);
        assert forall|i: int| 0 <= i < rest.len() implies !has_break(#[trigger] rest[i]) by {
            assert(rest[i] == parts[i + 1]);
        }
        law_joined_lines_are_found(rest);
        let at = first.len() as int;
        assert(s[at] == '\r' && s[at + 1] == '\n');
        lemma_found_break(s);
        let found = first_line_break(s);
        if found < at {
            assert(s[found] == first[found]);
            if found + 1 < at {
                assert(s[found + 1] == first[found + 1]);
                assert(has_break(first));
            }
        } else if found > at {
            assert(!(s[at] == '\r' && s[at + 1] == '\n'));
        }
        assert(found == at);
        assert(s.take(at) =~= first);
        assert(s.skip(at + 2) =~= join(rest, sep));
        assert(parts =~= seq![first] + rest);
    }
}

/// Lines are the pieces of a text between its line breaks: joined they give it back, and none
/// of them holds a line break.
pub proof fn law_lines_of_a_text(s: Seq<char>)
    ensures
        join(lines(s), seq!['\r', '\n']) == s,
        lines(s).len() > 0,
        forall|i: int| 0 <= i < lines(s).len() ==> !has_break(#[trigger] lines(s)[i]),
    decreases s.len(),
{
    lemma_found_break(s);
    let at = first_line_break(s);
    let sep: Seq<char> = seq!['\r', '\n'];
    if at < s.len() {
        let rest = s.skip(at + 2);
        law_lines_of_a_text(rest);
        let more = lines(rest);
        let front = s.take(at);
        let all = seq![front] + more;
        assert(all.skip(1) =~= more);
        assert(s =~= front + sep + rest);
        assert(!has_break(front)) by {
            if has_break(front) {
                let k = choose|k: int|
                    0 <= k && k + 1 < front.len() && #[trigger] front[k] == '\r' && front[k + 1]
                        == '\n';
                assert(s[k] == '\r' && s[k + 1] == '\n');
            }
        }
        assert forall|i: int| 0 <= i < all.len() implies !has_break(#[trigger] all[i]) by {
            if i > 0 {
                assert(all[i] == more[i - 1]);
            }
        }
    } else {
        if has_break(s) {
            let k = choose|k: int|
                0 <= k && k + 1 < s.len() && #[trigger] s[k] == '\r' && s[k + 1] == '\n';
            assert(!(s[k] == '\r' && s[k + 1] == '\n'));
        }
        assert(lines(s) =~= seq![s]);
    }
}

proof fn lemma_trim_front_parts(s: Seq<char>)
    ensures
        trim_front(s).len() <= s.len(),
        s == s.take(s.len() - trim_front(s).len()) + trim_front(s),
        blank(s.take(s.len() - trim_front(s).len())),
        trim_front(s).len() > 0 ==> !is_white_space(trim_front(s)[0]),
    decreases s.len(),
{
    if s.len() > 0 && is_white_space(s[0]) {
        let t = s.skip(1);
        lemma_trim_front_parts(t);
        let n = s.len() - trim_front(s).len();
        assert(s.take(n) =~= seq![s[0]] + t.take(n - 1));
        assert(s =~= seq![s[0]] + t);
        assert(seq![s[0]] + (t.take(n - 1) + trim_front(t)) =~= s.take(n) + trim_front(t));
        assert forall|i: int| 0 <= i < n implies is_white_space(#[trigger] s.take(n)[i]) by {
            if i > 0 {
                assert(s.take(n)[i] == t.take(n - 1)[i - 1]);
            }
        }
    } else {
        assert(s =~= s.take(0) + s);
    }
}

proof fn lemma_trim_back_parts(s: Seq<char>)
    ensures
        trim_back(s).len() <= s.len(),
        s == trim_back(s) + s.skip(trim_back(s).len() as int),
        blank(s.skip(trim_back(s).len() as int)),
        trim_back(s).len() > 0 ==> !is_white_space(trim_back(s).last()) && trim_back(s)[0] == s[0],
    decreases s.len(),
{
    if s.len() > 0 && is_white_space(s.last()) {
        let t = s.drop_last();
        lemma_trim_back_parts(t);
        let n = trim_back(s).len() as int;
        assert(s.skip(n) =~= t.skip(n).push(s.last()));
        assert(s =~= t.push(s.last()));
        assert((trim_back(t) + t.skip(n)).push(s.last()) =~= trim_back(t) + s.skip(n));
        assert forall|i: int| 0 <= i < s.skip(n).len() implies is_white_space(
            #[trigger] s.skip(n)[i],
        ) by {
            if i < t.skip(n).len() {
                assert(s.skip(n)[i] == t.skip(n)[i]);
            }
        }
    } else {
        assert(s =~= s + s.skip(s.len() as int));
    }
}

/// Trimming takes away the white space at both ends of a text, all of it and nothing else.
pub proof fn law_trimmed_text(s: Seq<char>)
    ensures
        exists|p: Seq<char>, q: Seq<char>|
            blank(p) && blank(q) && s == #[trigger] (p + trimmed(s) + q),
        trimmed(s).len() > 0 ==> !is_white_space(trimmed(s)[0]) && !is_white_space(
            trimmed(s).last(),
        ),
{
    let t = trim_front(s);
    lemma_trim_front_parts(s);
    lemma_trim_back_parts(t);
    let p = s.take(s.len() - t.len());
    let q = t.skip(trimmed(s).len() as int);
    assert(s =~= p + trimmed(s) + q);
}

proof fn lemma_found_white_space(s: Seq<char>, at: int)
    requires
        0 <= at <= s.len(),
        forall|k: int| 0 <= k < at ==> !is_white_space(#[trigger] s[k]),
        at < s.len() ==> is_white_space(s[at]),
    ensures
        first_white_space(s) == at,
    decreases s.len(),
{
    if s.len() > 0 && !is_white_space(s[0]) {
        assert forall|k: int| 0 <= k < at - 1 implies !is_white_space(#[trigger] s.skip(1)[k]) by {
            assert(s.skip(1)[k] == s[k + 1]);
        }
        lemma_found_white_space(s.skip(1), at - 1);
    }
}

/// The words of a text are what stands between its white space: there is none in a blank text,
/// and a word behind white space, up to the next white space, comes before the words of the
/// rest.
pub proof fn law_words_of_a_text(p: Seq<char>, word: Seq<char>, rest: Seq<char>)
    requires
        blank(p),
        word.len() > 0,
        forall|k: int| 0 <= k < word.len() ==> !is_white_space(#[trigger] word[k]),
        rest.len() > 0 ==> is_white_space(rest[0]),
    ensures
        words(p) == Seq::<Seq<char>>::empty(),
        words(p + word + rest) == seq![word] + words(rest),
{
    lemma_trim_front_blank(p, Seq::empty());
    assert(p + Seq::<char>::empty() =~= p);
    assert(trim_front(Seq::<char>::empty()) =~= Seq::empty());
    let s = p + word + rest;
    let t = word + rest;
    assert(s =~= p + t);
    lemma_trim_front_blank(p, t);
    assert(t[0] == word[0]);
    assert(trim_front(t) == t);
    let at = word.len() as int;
    assert forall|k: int| 0 <= k < at implies !is_white_space(#[trigger] t[k]) by {
        assert(t[k] == word[k]);
    }
    lemma_found_white_space(t, at);
    assert(t.take(at) =~= word);
    assert(t.skip(at) =~= rest);
}

/// Stripping takes a character away from the front of a text, every time it stands there, and
/// nothing else.
pub proof fn law_stripped_text(s: Seq<char>, c: char)
    ensures
        strip_front(s, c).len() <= s.len(),
        s == s.take(s.len() - strip_front(s, c).len()) + strip_front(s, c),
        forall|i: int| 0 <= i < s.len() - strip_front(s, c).len() ==> #[trigger] s[i] == c,
        strip_front(s, c).len() > 0 ==> strip_front(s, c)[0] != c,
    decreases s.len(),
{
    if s.len() > 0 && s[0] == c {
        law_stripped_text(s.skip(1), c);
        let n = s.len() - strip_front(s, c).len();
        assert(s =~= s.take(n) + strip_front(s, c)) by {
            assert(s =~= seq![s[0]] + s.skip(1));
            assert(s.take(n) =~= seq![s[0]] + s.skip(1).take(n - 1));
        }
        assert forall|i: int| 0 <= i < n implies #[trigger] s[i] == c by {
            if i > 0 {
                assert(s.skip(1)[i - 1] == s[i]);
            }
        }
    } else {
        assert(s =~= s.take(0) + s);
    }
}

} // verus!
