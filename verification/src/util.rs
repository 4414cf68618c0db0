//! Query parameters and percent-encoding.

use crate::number::{hex_value, law_hexadecimal_bytes, parse_unsigned, unsigned};
use crate::text::{
    chars_of, find_char, first_index, join, law_joined_pieces_are_found, lemma_first_index, split,
    split_at_char, string_of, views,
};
use vstd::hash_map::StringHashMap;
use vstd::prelude::*;
use vstd::slice::slice_subrange;

verus! {

// ---------------------------------------------------------------- string maps

/// A map from names to texts: the parameters of a query, or the headers of a request.
pub struct StringMap {
    entries: StringHashMap<String>,
}

impl View for StringMap {
    type V = Map<Seq<char>, Seq<char>>;

    closed spec fn view(&self) -> Map<Seq<char>, Seq<char>> {
        self.entries@.map_values(|v: String| v@)
    }
}

impl StringMap {
    /// The map without entries.
    pub fn new() -> (r: Self)
        ensures
            r@ == Map::<Seq<char>, Seq<char>>::empty(),
    {
        let r = StringMap { entries: StringHashMap::new() };
        assert(r@ =~= Map::<Seq<char>, Seq<char>>::empty());
        r
    }

    /// Binds a name to a text, in place of what it was bound to.
    pub fn insert(&mut self, key: String, value: String)
        ensures
            final(self)@ == old(self)@.insert(key@, value@),
    {
        let ghost k = key@;
        let ghost v = value@;
        self.entries.insert(key, value);
        assert(self@ =~= old(self)@.insert(k, v));
    }

    /// The text that a name is bound to.
    pub fn get(&self, key: &str) -> (r: Option<&String>)
        ensures
            match r {
                Some(v) => self@.contains_key(key@) && self@[key@] == v@,
                None => !self@.contains_key(key@),
            },
    {
        self.entries.get(key)
    }

    /// Whether nothing is bound.
    pub fn is_empty(&self) -> (r: bool)
        ensures
            r == (self@ == Map::<Seq<char>, Seq<char>>::empty()),
    {
        let r = self.entries.is_empty();
        proof {
            if r {
                assert(self@ =~= Map::<Seq<char>, Seq<char>>::empty());
            } else {
                let k = choose|k: Seq<char>| self.entries@.contains_key(k);
                assert(self.entries@.dom() != Set::<Seq<char>>::empty());
                assert(self@.contains_key(k));
            }
        }
        r
    }
}

// ---------------------------------------------------------------- query parameters

/// The `&`-separated pieces of the query of a path: of what follows its first question mark.
pub open spec fn query_pairs(raw_path: Seq<char>) -> Seq<Seq<char>> {
    let at = first_index(raw_path, '?');
    if at < raw_path.len() {
        split(raw_path.skip(at + 1), '&')
    } else {
        Seq::empty()
    }
}

/// Whether a piece of a query binds a name, that is, holds an equals sign.
pub open spec fn binds(pair: Seq<char>) -> bool {
    first_index(pair, '=') < pair.len()
}

/// The name that a piece binds: what precedes its first equals sign.
pub open spec fn pair_key(pair: Seq<char>) -> Seq<char> {
    pair.take(first_index(pair, '='))
}

/// The value that a piece gives: what follows its first equals sign.
pub open spec fn pair_value(pair: Seq<char>) -> Seq<char> {
    pair.skip(first_index(pair, '=') + 1)
}

/// The parameters that the pieces of a query bind, each piece in turn.
pub open spec fn parameters(pairs: Seq<Seq<char>>) -> Map<Seq<char>, Seq<char>>
    decreases pairs.len(),
{
    if pairs.len() == 0 {
        Map::empty()
    } else {
        let before = parameters(pairs.drop_last());
        if binds(pairs.last()) {
            before.insert(pair_key(pairs.last()), pair_value(pairs.last()))
        } else {
            before
        }
    }
}

/// Reads the query parameters of a path.
///
/// `/df/parquet?path=/data&limit=100` gives `path` as `/data` and `limit` as `100`. The values
/// are not decoded.
pub fn parse_query_map(raw_path: &str) -> (r: StringMap)
    ensures
        r@ == parameters(query_pairs(raw_path@)),
{
    let path = chars_of(raw_path);
    query_map_of(path.as_slice())
}

/// Reads the query parameters of a path that is given by its characters.
pub fn query_map_of(path: &[char]) -> (r: StringMap)
    ensures
        r@ == parameters(query_pairs(path@)),
{
    let mut map = StringMap::new();
    let at: usize = find_char(path, '?');
    if at == path.len() {
        return map;
    }
    let query = slice_subrange(path, at + 1, path.len());
    assert(query@ =~= path@.skip(at + 1));
    let pairs = split_at_char(query, '&');
    let ghost all = views(pairs@);
    for i in 0..pairs.len()
        invariant
            all == views(pairs@),
            map@ == parameters(all.take(i as int)),
    {
        let pair = pairs[i];
        let eq: usize = find_char(pair, '=');
        proof {
            assert(all.take(i + 1).drop_last() =~= all.take(i as int));
            assert(all.take(i + 1).last() == pair@);
        }
        if eq < pair.len() {
            let key = slice_subrange(pair, 0, eq);
            let value = slice_subrange(pair, eq + 1, pair.len());
            assert(key@ =~= pair@.take(eq as int));
            assert(value@ =~= pair@.skip(eq + 1));
            map.insert(string_of(key), string_of(value));
        }
    }
    assert(all.take(all.len() as int) =~= all);
    map
}

/// Whether a piece of a query binds the given name.
#[verifier::opaque]
spec fn binds_to(pair: Seq<char>, key: Seq<char>) -> bool {
    binds(pair) && pair_key(pair) == key
}

/// What one more piece does to a name: it gives the name its value where it binds it, and
/// otherwise leaves it as it was.
proof fn lemma_one_more_piece(pairs: Seq<Seq<char>>, key: Seq<char>)
    requires
        pairs.len() > 0,
    ensures
        binds_to(pairs.last(), key) ==> parameters(pairs).contains_key(key) && parameters(
            pairs,
        )[key] == pair_value(pairs.last()),
        !binds_to(pairs.last(), key) ==> parameters(pairs).contains_key(key) == parameters(
            pairs.drop_last(),
        ).contains_key(key) && (parameters(pairs).contains_key(key) ==> parameters(pairs)[key]
            == parameters(pairs.drop_last())[key]),
{
    reveal(binds_to);
}

proof fn lemma_bound(pairs: Seq<Seq<char>>, key: Seq<char>, i: int)
    requires
        0 <= i < pairs.len(),
        binds_to(pairs[i], key),
    ensures
        parameters(pairs).contains_key(key),
        (forall|j: int| i < j < pairs.len() ==> !binds_to(#[trigger] pairs[j], key))
            ==> parameters(pairs)[key] == pair_value(pairs[i]),
    decreases pairs.len(),
{
    lemma_one_more_piece(pairs, key);
    if i < pairs.len() - 1 {
        let front = pairs.drop_last();
        lemma_bound(front, key, i);
        if forall|j: int| i < j < pairs.len() ==> !binds_to(#[trigger] pairs[j], key) {
            assert(!binds_to(pairs[pairs.len() - 1], key));
            assert forall|j: int| i < j < front.len() implies !binds_to(
                #[trigger] front[j],
                key,
            ) by {
                assert(front[j] == pairs[j]);
            }
        }
    }
}

proof fn lemma_unbound(pairs: Seq<Seq<char>>, key: Seq<char>)
    requires
        forall|i: int| 0 <= i < pairs.len() ==> !binds_to(#[trigger] pairs[i], key),
    ensures
        !parameters(pairs).contains_key(key),
    decreases pairs.len(),
{
    if pairs.len() > 0 {
        let front = pairs.drop_last();
        lemma_one_more_piece(pairs, key);
        assert(!binds_to(pairs[pairs.len() - 1], key));
        assert forall|i: int| 0 <= i < front.len() implies !binds_to(#[trigger] front[i], key) by {
            assert(front[i] == pairs[i]);
        }
        lemma_unbound(front, key);
    }
}

/// A name has the value that the last piece binding it gives; a name that no piece binds has none.
pub proof fn law_last_binding_wins(pairs: Seq<Seq<char>>, key: Seq<char>)
    ensures
        parameters(pairs).contains_key(key) <==> exists|i: int|
            0 <= i < pairs.len() && binds(#[trigger] pairs[i]) && pair_key(pairs[i]) == key,
        forall|i: int|
            0 <= i < pairs.len() && binds(#[trigger] pairs[i]) && pair_key(pairs[i]) == key && (
            forall|j: int|
                i < j < pairs.len() && binds(#[trigger] pairs[j]) ==> pair_key(pairs[j]) != key)
                ==> parameters(pairs)[key] == pair_value(pairs[i]),
{
    if exists|i: int|
        0 <= i < pairs.len() && binds(#[trigger] pairs[i]) && pair_key(pairs[i]) == key {
        let i = choose|i: int|
            0 <= i < pairs.len() && binds(#[trigger] pairs[i]) && pair_key(pairs[i]) == key;
        assert(binds_to(pairs[i], key)) by {
            reveal(binds_to);
        }
        lemma_bound(pairs, key, i);
    } else {
        assert forall|i: int| 0 <= i < pairs.len() implies !binds_to(#[trigger] pairs[i], key) by {
            reveal(binds_to);
        }
        lemma_unbound(pairs, key);
    }
    assert forall|i: int|
        0 <= i < pairs.len() && binds(#[trigger] pairs[i]) && pair_key(pairs[i]) == key && (
        forall|j: int|
            i < j < pairs.len() && binds(#[trigger] pairs[j]) ==> pair_key(pairs[j])
                != key) implies parameters(pairs)[key] == pair_value(pairs[i]) by {
        assert(binds_to(pairs[i], key)) by {
            reveal(binds_to);
        }
        assert forall|j: int| i < j < pairs.len() implies !binds_to(#[trigger] pairs[j], key) by {
            reveal(binds_to);
        }
        lemma_bound(pairs, key, i);
    }
}

// ---------------------------------------------------------------- percent-encoding

/// The characters that a percent sign takes in: those that follow it, at most two.
pub open spec fn escape_digits(s: Seq<char>) -> Seq<char> {
    if s.len() >= 3 {
        s.subrange(1, 3)
    } else {
        s.skip(1)
    }
}

/// What percent-encoded text stands for.
///
/// A percent sign and the (at most two) characters after it stand for one character, whose code
/// is their value as a hexadecimal byte; where they are no such number they stand for
/// themselves. A plus sign stands for a space, every other character for itself.
pub open spec fn decoded(s: Seq<char>) -> Seq<char>
    decreases s.len(),
{
    if s.len() == 0 {
        Seq::empty()
    } else if s[0] == '%' {
        let hex = escape_digits(s);
        let rest = decoded(s.skip(1 + hex.len() as int));
        match unsigned(hex, 16, 255) {
            Some(byte) => seq![byte as char] + rest,
            None => seq!['%'] + hex + rest,
        }
    } else {
        seq![if s[0] == '+' { ' ' } else { s[0] }] + decoded(s.skip(1))
    }
}

/// Decodes percent-encoded text.
pub fn percent_decode(s: &str) -> (r: String)
    ensures
        r@ == decoded(s@),
{
    let chars = chars_of(s);
    string_of(decode_chars(chars.as_slice()).as_slice())
}

/// Decodes percent-encoded text that is given by its characters.
pub fn decode_chars(s: &[char]) -> (r: Vec<char>)
    ensures
        r@ == decoded(s@),
{
    let mut out: Vec<char> = Vec::new();
    let mut i: usize = 0;
    assert(s@.skip(0) =~= s@);
    assert(out@ + decoded(s@.skip(0)) =~= decoded(s@));
    while i < s.len()
        invariant
            i <= s@.len(),
            out@ + decoded(s@.skip(i as int)) == decoded(s@),
        decreases s@.len() - i,
    {
        let ghost here = s@.skip(i as int);
        let ghost before = out@;
        assert(here[0] == s@[i as int]);
        if s[i] == '%' {
            let end: usize = if s.len() - i >= 3 {
                i + 3
            } else {
                s.len()
            };
            let hex = slice_subrange(s, i + 1, end);
            proof {
                assert(hex@ =~= escape_digits(here));
                assert(here.skip(1 + hex@.len() as int) =~= s@.skip(end as int));
            }
            match parse_unsigned(hex, 16, 255) {
                Some(byte) => {
                    let c: char = (byte as u8) as char;
                    out.push(c);
                    assert(out@ + decoded(s@.skip(end as int)) =~= before + (seq![c] + decoded(
                        s@.skip(end as int),
                    )));
                },
                None => {
                    out.push('%');
                    out.extend_from_slice(hex);
                    assert(out@ =~= before + (seq!['%'] + hex@));
                    assert(out@ + decoded(s@.skip(end as int)) =~= before + (seq!['%'] + hex@
                        + decoded(s@.skip(end as int))));
                },
            }
            i = end;
        } else {
            let c: char = if s[i] == '+' {
                ' '
            } else {
                s[i]
            };
            out.push(c);
            proof {
                assert(here.skip(1) =~= s@.skip(i + 1));
                assert(out@ + decoded(s@.skip(i + 1)) =~= before + (seq![c] + decoded(
                    s@.skip(i + 1),
                )));
            }
            i += 1;
        }
    }
    assert(s@.skip(i as int) =~= Seq::empty());
    assert(out@ + decoded(s@.skip(i as int)) =~= out@);
    out
}

/// Text that holds neither a percent sign nor a plus sign stands for itself.
pub proof fn law_plain_text_decodes_to_itself(s: Seq<char>)
    requires
        !s.contains('%'),
        !s.contains('+'),
    ensures
        decoded(s) == s,
    decreases s.len(),
{
    if s.len() > 0 {
        assert(s[0] != '%' && s[0] != '+');
        let t = s.skip(1);
        assert forall|i: int| 0 <= i < t.len() implies t[i] != '%' && t[i] != '+' by {
            assert(t[i] == s[i + 1]);
        }
        law_plain_text_decodes_to_itself(t);
        assert(seq![s[0]] + t =~= s);
    }
}

/// Decoding goes piece by piece: where no escape reaches over the seam, the decoded whole is
/// the decoded front followed by the decoded back.
pub proof fn law_decode_concatenates(a: Seq<char>, b: Seq<char>)
    requires
        forall|i: int| a.len() - 2 <= i < a.len() && 0 <= i ==> #[trigger] a[i] != '%',
    ensures
        decoded(a + b) == decoded(a) + decoded(b),
    decreases a.len(),
{
    if a.len() == 0 {
        assert(a + b =~= b);
        assert(decoded(a) + decoded(b) =~= decoded(b));
    } else {
        let n: int = if a[0] == '%' {
            3
        } else {
            1
        };
        assert(a.len() >= n);
        let rest = a.skip(n);
        assert forall|i: int| rest.len() - 2 <= i < rest.len() && 0 <= i implies #[trigger] rest[i]
            != '%' by {
            assert(rest[i] == a[i + n]);
        }
        law_decode_concatenates(rest, b);
        assert((a + b).skip(n) =~= rest + b);
        if a[0] == '%' {
            assert(escape_digits(a + b) =~= escape_digits(a));
        }
        assert((a + b)[0] == a[0]);
        assert(decoded(a + b) =~= decoded(a) + decoded(b));
    }
}

/// How each part of a percent-encoded text is decoded: a percent sign and two hexadecimal digits
/// are one character, whose code they give; where they are no number they stay. A plus sign is
/// a space, and every other character is itself.
pub proof fn law_escapes(c: char, a: char, b: char, rest: Seq<char>)
    ensures
        decoded(Seq::empty()) == Seq::<char>::empty(),
        c != '%' && c != '+' ==> decoded(seq![c] + rest) == seq![c] + decoded(rest),
        decoded(seq!['+'] + rest) == seq![' '] + decoded(rest),
        decoded(seq!['%', a, b] + rest) == (if hex_value(a) is Some && hex_value(b) is Some {
            seq![(16 * hex_value(a)->0 + hex_value(b)->0) as char]
        } else if a == '+' && hex_value(b) is Some {
            seq![hex_value(b)->0 as char]
        } else {
            seq!['%', a, b]
        }) + decoded(rest),
        decoded(seq!['%', a]) == if hex_value(a) is Some {
            seq![hex_value(a)->0 as char]
        } else {
            seq!['%', a]
        },
        decoded(seq!['%']) == seq!['%'],
{
    law_hexadecimal_bytes(a, b);
    assert((seq![c] + rest).skip(1) =~= rest);
    assert((seq!['+'] + rest).skip(1) =~= rest);
    let three = seq!['%', a, b] + rest;
    assert(three.subrange(1, 3) =~= seq![a, b]);
    assert(three.skip(3) =~= rest);
    assert(three[0] == '%');
    assert(seq!['%'] + seq![a, b] + decoded(rest) =~= seq!['%', a, b] + decoded(rest));
    let two = seq!['%', a];
    assert(two.skip(1) =~= seq![a]);
    assert(two.skip(2) =~= Seq::empty());
    assert(decoded(two.skip(2)) =~= Seq::empty());
    assert(decoded(two) =~= if hex_value(a) is Some {
        seq![hex_value(a)->0 as char]
    } else {
        seq!['%', a]
    });
    let one = seq!['%'];
    assert(one.skip(1) =~= Seq::empty());
    assert(decoded(one.skip(1)) =~= Seq::empty());
    assert(decoded(one) =~= one);
}

/// A parameter as it stands in a query: its name, an equals sign and its value.
pub open spec fn binding(key: Seq<char>, value: Seq<char>) -> Seq<char> {
    key + seq!['='] + value
}

proof fn lemma_binding(key: Seq<char>, value: Seq<char>)
    requires
        !key.contains('='),
    ensures
        binds(binding(key, value)),
        pair_key(binding(key, value)) == key,
        pair_value(binding(key, value)) == value,
{
    let pair = binding(key, value);
    let at = key.len() as int;
    assert forall|k: int| 0 <= k < at implies pair[k] != '=' by {
        assert(key.contains(pair[k]));
    }
    assert(pair[at] == '=');
    lemma_first_index(pair, '=', at);
    assert(pair.take(at) =~= key);
    assert(pair.skip(at + 1) =~= value);
}

/// A path as it stands in a request: what precedes its query, a question mark, and the pieces of
/// the query with ampersands between them.
pub open spec fn with_query(base: Seq<char>, pieces: Seq<Seq<char>>) -> Seq<char> {
    base + seq!['?'] + join(pieces, seq!['&'])
}

/// The pieces of a query are found in the path that they were written to.
pub proof fn law_query_is_found(base: Seq<char>, pieces: Seq<Seq<char>>)
    requires
        !base.contains('?'),
        pieces.len() > 0,
        forall|i: int| 0 <= i < pieces.len() ==> !(#[trigger] pieces[i]).contains('&'),
    ensures
        query_pairs(with_query(base, pieces)) == pieces,
        query_pairs(base) == Seq::<Seq<char>>::empty(),
        first_index(with_query(base, pieces), '?') == base.len(),
        first_index(base, '?') == base.len(),
{
    let path = with_query(base, pieces);
    let at = base.len() as int;
    assert forall|k: int| 0 <= k < at implies path[k] != '?' && base[k] != '?' by {
        assert(base.contains(path[k]));
    }
    assert(path[at] == '?');
    lemma_first_index(path, '?', at);
    lemma_first_index(base, '?', at);
    assert(path.skip(at + 1) =~= join(pieces, seq!['&']));
    law_joined_pieces_are_found(pieces, '&');
}

/// A parameter that a query binds has just the value that it is bound to, character for
/// character, unless a later piece of the query binds it again; and a name that no piece of a
/// query binds has no value.
pub proof fn law_parameters_are_found(
    base: Seq<char>,
    before: Seq<Seq<char>>,
    key: Seq<char>,
    value: Seq<char>,
    after: Seq<Seq<char>>,
)
    requires
        !base.contains('?'),
        !key.contains('='),
        !key.contains('&'),
        !value.contains('&'),
        forall|i: int| 0 <= i < before.len() ==> !(#[trigger] before[i]).contains('&'),
        forall|i: int|
            0 <= i < after.len() ==> !(#[trigger] after[i]).contains('&') && !(key + seq![
                '=',
            ]).is_prefix_of(after[i]),
    ensures
        ({
            let path = with_query(base, before + seq![binding(key, value)] + after);
            &&& parameters(query_pairs(path)).contains_key(key)
            &&& parameters(query_pairs(path))[key] == value
        }),
        after.len() > 0 ==> !parameters(query_pairs(with_query(base, after))).contains_key(key),
        !parameters(query_pairs(base)).contains_key(key),
{
    let one = binding(key, value);
    let all = before + seq![one] + after;
    lemma_binding(key, value);
    assert(!one.contains('&'));
    assert forall|i: int| 0 <= i < all.len() implies !(#[trigger] all[i]).contains('&') by {
        if i < before.len() {
            assert(all[i] == before[i]);
        } else if i > before.len() {
            assert(all[i] == after[i - before.len() - 1]);
        }
    }
    law_query_is_found(base, all);
    law_last_binding_wins(all, key);
    let at = before.len() as int;
    assert(all[at] == one);
    assert forall|j: int| at < j < all.len() && binds(#[trigger] all[j]) implies pair_key(all[j])
        != key by {
        assert(all[j] == after[j - at - 1]);
        lemma_key_is_front(after[j - at - 1], key);
    }
    assert(binds(all[at]) && pair_key(all[at]) == key);
    if after.len() > 0 {
        law_query_is_found(base, after);
        law_last_binding_wins(after, key);
        assert forall|i: int| 0 <= i < after.len() && binds(#[trigger] after[i]) implies pair_key(
            after[i],
        ) != key by {
            lemma_key_is_front(after[i], key);
        }
    }
}

/// A piece that binds a name begins with the name and an equals sign.
proof fn lemma_key_is_front(pair: Seq<char>, key: Seq<char>)
    ensures
        binds(pair) && pair_key(pair) == key ==> (key + seq!['=']).is_prefix_of(pair),
{
    if binds(pair) && pair_key(pair) == key {
        lemma_first_char(pair, '=');
        let at = first_index(pair, '=');
        assert(pair.subrange(0, at + 1) =~= key + seq!['=']);
    }
}

proof fn lemma_first_char(s: Seq<char>, c: char)
    ensures
        0 <= first_index(s, c) <= s.len(),
        first_index(s, c) < s.len() ==> s[first_index(s, c)] == c,
    decreases s.len(),
{
    if s.len() > 0 && s[0] != c {
        lemma_first_char(s.skip(1), c);
    }
}

} // verus!
