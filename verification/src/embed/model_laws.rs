//! What keeps a text from being handed to a model, and what does not.

use vstd::prelude::*;
use vstd::utf8::{
    encode_utf8, encode_utf8_valid_utf8, is_ascii_chars, is_ascii_chars_encode_utf8,
    is_char_boundary, is_char_boundary_iff_not_is_continuation_byte,
    is_char_boundary_start_end_of_seq, is_continuation_byte,
};
use crate::embed::model::{
    behind, bytes_at, child, cut_after, cuts_between, cuts_well, ends_at, goes_on, is_byte_pair,
    is_whole, kind_of, label, le32, leaf, longest_from, longest_key, longest_symbol, merges_end,
    message, next_start, offset, table_of, tables_fit, texts_among, texts_of, usable_table,
    value_at,
};
use crate::embed::tokenizer::{
    finish_plain, normalized_form, piece_ids, E5Tokenizer, SpecialIds, TokenizerError,
};
use crate::embed::wire::{
    field_at, fields_from, fields_of, find_last, last_of, part, read_field, read_fields, varint_at,
    varint_from, Field, Wire,
};

verus! {

/// A byte continues a character exactly where it has the form for it, and the
/// next character begins at the first byte that does not.
pub proof fn law_next_character(b: Seq<u8>, i: int)
    requires
        0 <= i <= b.len(),
    ensures
        i <= next_start(b, i) <= b.len(),
        forall|j: int| i <= j < next_start(b, i) ==> is_continuation_byte(#[trigger] b[j]),
        next_start(b, i) < b.len() ==> !is_continuation_byte(b[next_start(b, i)]),
    decreases b.len() - i,
{
    if i < b.len() && goes_on(b[i]) {
        law_next_character(b, i + 1);
    }
}

/// The cuts of a text that is cut well are character boundaries: the first
/// place is one, and so is the cut after each cut.
pub proof fn law_cuts_are_boundaries(model: Seq<u8>, text: Seq<char>, cuts: Seq<int>, k: int)
    requires
        cuts_well(model, text),
        0 <= k < cuts.len(),
        cuts[0] == 0,
        forall|i: int|
            0 < i < cuts.len() ==> #[trigger] cuts[i] == cut_after(
                usable_table(model),
                texts_of(model, 4),
                encode_utf8(text),
                cuts[i - 1],
            ),
        forall|i: int| 0 < i < cuts.len() ==> cuts[i - 1] < #[trigger] cuts[i] <= encode_utf8(
            text,
        ).len(),
    ensures
        is_char_boundary(encode_utf8(text), cuts[k]),
{
    let b = encode_utf8(text);
    encode_utf8_valid_utf8(text);
    is_char_boundary_start_end_of_seq(b);
    lemma_chain(model, text, cuts, k);
    if cuts[k] < b.len() {
        is_char_boundary_iff_not_is_continuation_byte(b, cuts[k]);
        assert(!goes_on(b[cuts[k]]));
    }
}

proof fn lemma_chain(model: Seq<u8>, text: Seq<char>, cuts: Seq<int>, k: int)
    requires
        cuts_well(model, text),
        0 <= k < cuts.len(),
        cuts[0] == 0,
        forall|i: int|
            0 < i < cuts.len() ==> #[trigger] cuts[i] == cut_after(
                usable_table(model),
                texts_of(model, 4),
                encode_utf8(text),
                cuts[i - 1],
            ),
        forall|i: int| 0 < i < cuts.len() ==> cuts[i - 1] < #[trigger] cuts[i] <= encode_utf8(
            text,
        ).len(),
    ensures
        0 <= cuts[k] <= encode_utf8(text).len(),
        cuts_between(usable_table(model), texts_of(model, 4), encode_utf8(text), cuts[k]),
    decreases k,
{
    if k > 0 {
        lemma_chain(model, text, cuts, k - 1);
        assert(cuts[k - 1] < cuts[k]);
    }
}

/// A text is cut well where every cut from a boundary is a boundary.
pub proof fn law_boundaries_are_enough(model: Seq<u8>, text: Seq<char>)
    requires
        forall|c: int|
            0 <= c < encode_utf8(text).len() && is_char_boundary(encode_utf8(text), c)
                ==> is_char_boundary(
                encode_utf8(text),
                #[trigger] cut_after(usable_table(model), texts_of(model, 4), encode_utf8(text), c),
            ),
    ensures
        cuts_well(model, text),
{
    let b = encode_utf8(text);
    encode_utf8_valid_utf8(text);
    is_char_boundary_start_end_of_seq(b);
    lemma_boundaries(model, text, 0);
}

proof fn lemma_boundaries(model: Seq<u8>, text: Seq<char>, c: int)
    requires
        0 <= c,
        is_char_boundary(encode_utf8(text), c),
        forall|c: int|
            0 <= c < encode_utf8(text).len() && is_char_boundary(encode_utf8(text), c)
                ==> is_char_boundary(
                encode_utf8(text),
                #[trigger] cut_after(usable_table(model), texts_of(model, 4), encode_utf8(text), c),
            ),
    ensures
        cuts_between(usable_table(model), texts_of(model, 4), encode_utf8(text), c),
    decreases encode_utf8(text).len() - c,
{
    let b = encode_utf8(text);
    if c < b.len() {
        encode_utf8_valid_utf8(text);
        is_char_boundary_iff_not_is_continuation_byte(b, c);
        assert(is_continuation_byte(b[c]) == goes_on(b[c]));
        let end = cut_after(usable_table(model), texts_of(model, 4), b, c);
        if c < end <= b.len() {
            lemma_boundaries(model, text, end);
        }
    }
}

/// An ASCII text is cut well by every model.
pub proof fn law_ascii_is_cut_well(model: Seq<u8>, text: Seq<char>)
    requires
        is_ascii_chars(text),
    ensures
        cuts_well(model, text),
{
    lemma_ascii(model, text, 0);
}

proof fn lemma_ascii(model: Seq<u8>, text: Seq<char>, c: int)
    requires
        0 <= c,
        is_ascii_chars(text),
    ensures
        cuts_between(usable_table(model), texts_of(model, 4), encode_utf8(text), c),
    decreases encode_utf8(text).len() - c,
{
    let b = encode_utf8(text);
    if c < b.len() {
        is_ascii_chars_encode_utf8(text);
        assert(text[c] as u8 == b[c]);
        assert('\0' <= text[c] <= '\u{7f}');
        assert(b[c] < 0x80);
        let end = cut_after(usable_table(model), texts_of(model, 4), b, c);
        if c < end <= b.len() {
            lemma_ascii(model, text, end);
        }
    }
}

/// A model without a table and without pieces that a user defined cuts every
/// text behind its characters, and so cuts it well.
pub proof fn law_plain_models_cut_well(model: Seq<u8>, text: Seq<char>)
    requires
        table_of(model, 3) is None,
        texts_of(model, 4).len() == 0,
    ensures
        cuts_well(model, text),
{
    let b = encode_utf8(text);
    encode_utf8_valid_utf8(text);
    is_char_boundary_start_end_of_seq(b);
    assert forall|c: int| 0 <= c < b.len() && is_char_boundary(b, c) implies is_char_boundary(
        b,
        #[trigger] cut_after(usable_table(model), texts_of(model, 4), b, c),
    ) by {
        let end = next_start(b, c + 1);
        assert(cut_after(usable_table(model), texts_of(model, 4), b, c) == end);
        law_next_character(b, c + 1);
        if end < b.len() {
            is_char_boundary_iff_not_is_continuation_byte(b, end);
        }
    }
    law_boundaries_are_enough(model, text);
}

/// A model merges byte pairs where its training, under field 2, is of the
/// second kind.
pub proof fn law_byte_pair_models(model: Seq<u8>)
    ensures
        is_byte_pair(model) <==> (message(model, 2) matches Some(m) && kind_of(m) == Some(2i32)),
{
}

/// No text is refused for its merges by a model that does not merge byte
/// pairs, nor by one in which every piece is used.
pub proof fn law_merges_of_other_models(model: Seq<u8>, normalized: Option<Seq<char>>)
    requires
        !is_byte_pair(model) || texts_of(model, 5).len() == 0,
    ensures
        merges_end(model, normalized),
{
}

/// An ASCII text is handed to a model that does not merge byte pairs, and gets
/// the ids that its pieces have.
pub proof fn law_ascii_texts_are_encoded(
    t: &E5Tokenizer,
    text: &str,
    pieces: Vec<usize>,
    sp: SpecialIds,
    ids: Vec<i64>,
    r: Result<Vec<i64>, TokenizerError>,
)
    requires
        call_ensures(E5Tokenizer::encode_plain, (t, text), r),
        call_ensures(E5Tokenizer::ids, (t,), sp),
        is_ascii_chars(text@),
        !is_byte_pair(t.model()),
        piece_ids(t.model(), text@) == Some(pieces@),
        call_ensures(finish_plain, (&sp, &pieces, text), ids),
    ensures
        r matches Ok(v) && v@ == ids@,
{
    law_ascii_is_cut_well(t.model(), text@);
    law_merges_of_other_models(t.model(), normalized_form(t.model(), text@));
}

/// A symbol that stands at a place is at most as long as the longest there,
/// which is the length of one of them or nothing.
pub proof fn law_longest_symbol(symbols: Seq<Seq<u8>>, b: Seq<u8>, c: int, k: int)
    requires
        0 <= k < symbols.len(),
    ensures
        bytes_at(b, symbols[k], c) ==> symbols[k].len() <= longest_symbol(symbols, b, c),
        longest_symbol(symbols, b, c) > 0 ==> exists|i: int|
            0 <= i < symbols.len() && #[trigger] bytes_at(b, symbols[i], c) && symbols[i].len()
                == longest_symbol(symbols, b, c),
{
    lemma_longest_symbol(symbols, b, c);
}

proof fn lemma_longest_symbol(symbols: Seq<Seq<u8>>, b: Seq<u8>, c: int)
    ensures
        forall|k: int|
            0 <= k < symbols.len() && bytes_at(b, #[trigger] symbols[k], c) ==> symbols[k].len()
                <= longest_symbol(symbols, b, c),
        longest_symbol(symbols, b, c) > 0 ==> exists|i: int|
            0 <= i < symbols.len() && #[trigger] bytes_at(b, symbols[i], c) && symbols[i].len()
                == longest_symbol(symbols, b, c),
    decreases symbols.len(),
{
    if symbols.len() > 0 {
        let rest = symbols.drop_last();
        lemma_longest_symbol(rest, b, c);
        let last = symbols.last();
        let longest = longest_symbol(symbols, b, c);
        assert forall|k: int|
            0 <= k < symbols.len() && bytes_at(b, #[trigger] symbols[k], c) implies symbols[k].len()
            <= longest by {
            if k < rest.len() {
                assert(rest[k] == symbols[k]);
            }
        }
        if longest > 0 {
            if bytes_at(b, last, c) && last.len() == longest {
                assert(bytes_at(b, symbols[symbols.len() - 1], c));
            } else {
                let i = choose|i: int|
                    0 <= i < rest.len() && #[trigger] bytes_at(b, rest[i], c) && rest[i].len()
                        == longest_symbol(rest, b, c);
                assert(bytes_at(b, symbols[i], c));
            }
        }
    }
}

/// A table is as long as it says where it names no size that a trie can have,
/// or where the bytes of that size follow the size itself.
pub proof fn law_whole_tables(t: Seq<u8>)
    requires
        t.len() > 4,
    ensures
        ({
            let size = t[0] + 256 * (t[1] + 256 * (t[2] + 256 * t[3]));
            let trie = size >= 1024 && size % 1024 == 0 && size < t.len();
            is_whole(Some(t)) <==> !trie || size + 4 <= t.len()
        }),
{
}

/// A model is taken where both of its tables are whole, the normalizer's under
/// field 3 and the denormalizer's under field 5.
pub proof fn law_tables(model: &[u8], r: bool)
    requires
        call_ensures(tables_fit, (model,), r),
    ensures
        r <==> is_whole(table_of(model@, 3)) && is_whole(table_of(model@, 5)),
{
}

/// A varint of up to three bytes is its digits to base 128, lowest first; the
/// last is the first byte below 128.
pub proof fn law_short_varints(b: Seq<u8>, pos: int)
    requires
        0 <= pos,
    ensures
        pos >= b.len() ==> varint_at(b, pos) is None,
        pos < b.len() && b[pos] < 128 ==> varint_at(b, pos) == Some((b[pos] as u64, pos + 1)),
        pos + 1 < b.len() && b[pos] >= 128 && b[pos + 1] < 128 ==> varint_at(b, pos) == Some(
            ((b[pos] - 128 + 128 * b[pos + 1]) as u64, pos + 2),
        ),
        pos + 2 < b.len() && b[pos] >= 128 && b[pos + 1] >= 128 && b[pos + 2] < 128 ==> varint_at(
            b,
            pos,
        ) == Some(
            ((b[pos] - 128 + 128 * (b[pos + 1] - 128) + 16384 * b[pos + 2]) as u64, pos + 3),
        ),
{
    reveal_with_fuel(varint_from, 4);
    if pos < b.len() {
        let x = b[pos];
        assert((x & 0x80 == 0) == (x < 128)) by (bit_vector);
        assert(x < 128 ==> 0u64 | (((x & 0x7f) as u64) << 0u64) == x as u64) by (bit_vector);
        if pos + 1 < b.len() {
            let y = b[pos + 1];
            assert((y & 0x80 == 0) == (y < 128)) by (bit_vector);
            assert(x >= 128 && y < 128 ==> (0u64 | (((x & 0x7f) as u64) << 0u64)) | (((y
                & 0x7f) as u64) << 7u64) == x - 128 + 128 * y) by (bit_vector);
            if pos + 2 < b.len() {
                let z = b[pos + 2];
                assert((z & 0x80 == 0) == (z < 128)) by (bit_vector);
                assert(x >= 128 && y >= 128 && z < 128 ==> ((0u64 | (((x & 0x7f) as u64) << 0u64))
                    | (((y & 0x7f) as u64) << 7u64)) | (((z & 0x7f) as u64) << 14u64) == x - 128
                    + 128 * (y - 128) + 16384 * z) by (bit_vector);
            }
        }
    }
}

/// A field with a one-byte key has the number that the key is in eighths, and
/// the rest says how its value is written: as a varint, as eight bytes, as a
/// length and that many bytes, or as four.
pub proof fn law_fields_by_key(b: &[u8], pos: usize, r: Option<Field>)
    requires
        call_ensures(read_field, (b, pos), r),
        pos < b@.len(),
        8 <= b@[pos as int] < 128,
        b@.len() < 0x7fff_ffff,
    ensures
        ({
            let key = b@[pos as int] as int;
            let p = pos + 1;
            match r {
                Some(f) => {
                    &&& f.number == key / 8
                    &&& f.wire is Varint ==> key % 8 == 0 && f.from == p && varint_at(b@, p)
                        == Some((f.value, f.to as int))
                    &&& f.wire is Fixed64 ==> key % 8 == 1 && f.from == p && f.to == p + 8
                    &&& f.wire is Bytes ==> key % 8 == 2 && (varint_at(b@, p) matches Some(
                        (len, from),
                    ) && f.from == from && (len < 0x8000_0000 ==> f.to == from + len))
                    &&& f.wire is Fixed32 ==> key % 8 == 5 && f.from == p && f.to == p + 4
                    &&& f.to <= b@.len()
                },
                None => {
                    ||| varint_at(b@, p) is None && (key % 8 == 0 || key % 8 == 2)
                    ||| key % 8 == 1 && p + 8 > b@.len()
                    ||| key % 8 == 2 && (varint_at(b@, p) matches Some((len, from)) && (len
                        >= 0x8000_0000 || from + len > b@.len()))
                    ||| key % 8 == 5 && p + 4 > b@.len()
                    ||| key % 8 == 3 || key % 8 == 4 || key % 8 == 6 || key % 8 == 7
                },
            }
        }),
{
    law_short_varints(b@, pos as int);
    let k = b@[pos as int] as u64;
    assert(((k >> 3) as u32) == k / 8 && k & 7 == k % 8) by (bit_vector)
        requires
            k < 128,
    ;
    lemma_varint_end(b@, pos + 1, 0, 0);
}

/// A varint ends behind its start, within the bytes.
proof fn lemma_varint_end(b: Seq<u8>, pos: int, shift: u64, acc: u64)
    ensures
        varint_from(b, pos, shift, acc) matches Some((_, to)) ==> pos < to <= b.len(),
    decreases 70 - shift,
{
    if shift < 64 && pos < b.len() && b[pos] & 0x80 != 0 {
        let next = acc | (((b[pos] & 0x7f) as u64) << shift);
        lemma_varint_end(b, pos + 1, (shift + 7) as u64, next);
    }
}

/// The field that counts is the last one of its number that is written that
/// way.
pub proof fn law_last_field(fields: &Vec<Field>, number: u32, wire: Wire, r: Option<Field>, i: int)
    requires
        call_ensures(find_last, (fields, number, wire), r),
        0 <= i < fields@.len(),
        fields@[i].number == number,
        fields@[i].wire == wire,
        forall|j: int|
            i < j < fields@.len() ==> (#[trigger] fields@[j]).number != number || fields@[j].wire
                != wire,
    ensures
        r == Some(fields@[i]),
{
    lemma_last_of(fields@, number, wire, i);
}

proof fn lemma_last_of(fields: Seq<Field>, number: u32, wire: Wire, i: int)
    requires
        0 <= i < fields.len(),
        fields[i].number == number,
        fields[i].wire == wire,
        forall|j: int|
            i < j < fields.len() ==> (#[trigger] fields[j]).number != number || fields[j].wire
                != wire,
    ensures
        last_of(fields, number, wire) == Some(fields[i]),
    decreases fields.len(),
{
    if i < fields.len() - 1 {
        assert(fields[fields.len() - 1].number != number || fields[fields.len() - 1].wire != wire);
        lemma_last_of(fields.drop_last(), number, wire, i);
    }
}

/// The fields of a message follow one another from its first byte to its
/// last: each is what is read where the one before it ended.
pub proof fn law_fields_follow_one_another(b: &[u8], r: Option<Vec<Field>>, i: int)
    requires
        call_ensures(read_fields, (b,), r),
        r is Some,
        0 <= i < r->0@.len(),
    ensures
        ({
            let v = r->0@;
            let start = if i == 0 {
                0
            } else {
                v[i - 1].to as int
            };
            &&& field_at(b@, start) == Some(v[i])
            &&& i == v.len() - 1 ==> v[i].to == b@.len()
        }),
{
    lemma_follow(b@, 0, i);
}

proof fn lemma_follow(b: Seq<u8>, pos: int, i: int)
    requires
        0 <= pos <= b.len(),
        fields_from(b, pos) is Some,
        0 <= i < fields_from(b, pos)->0.len(),
    ensures
        ({
            let v = fields_from(b, pos)->0;
            let start = if i == 0 {
                pos
            } else {
                v[i - 1].to as int
            };
            &&& field_at(b, start) == Some(v[i])
            &&& i == v.len() - 1 ==> v[i].to == b.len()
        }),
    decreases b.len() - pos,
{
    let f = field_at(b, pos)->0;
    let rest = fields_from(b, f.to as int)->0;
    let v = fields_from(b, pos)->0;
    assert(v == seq![f] + rest);
    if i > 0 {
        lemma_follow(b, f.to as int, i - 1);
        assert(v[i] == rest[i - 1]);
        if i > 1 {
            assert(v[i - 1] == rest[i - 2]);
        }
    } else if v.len() == 1 {
        assert(rest.len() == 0);
        assert(f.to == b.len()) by {
            if (f.to as int) < b.len() {
                assert(rest.len() > 0);
            }
        }
    }
}

/// The parts of a unit of a trie: bit 8 says whether a key may end there, the
/// low byte and the top bit are its label, and the bits from the tenth on say
/// how far the units behind it lie, in steps of 256 where bit 9 is set. A
/// value is a unit without its top bit.
pub proof fn law_trie_units(u: u32)
    ensures
        leaf(u) <==> u / 256 % 2 == 1,
        u < 0x8000_0000 ==> label(u) == u % 256,
        u >= 0x8000_0000 ==> label(u) == u % 256 + 0x8000_0000,
        u / 512 % 2 == 0 ==> offset(u) == u / 1024,
        u / 512 % 2 == 1 && u < 0x400_0000 ==> offset(u) == u / 1024 * 256,
        (u & 0x7fff_ffff) == u % 0x8000_0000,
{
    assert(((u >> 8) & 1 == 1) == (u / 256 % 2 == 1)) by (bit_vector);
    assert(u < 0x8000_0000 ==> u & 0x8000_00ff == u % 256) by (bit_vector);
    assert(u >= 0x8000_0000 ==> u & 0x8000_00ff == u % 256 + 0x8000_0000) by (bit_vector);
    assert(u / 512 % 2 == 0 ==> (u >> 10) << ((u & 0x200) >> 6) == u / 1024) by (bit_vector);
    assert(u / 512 % 2 == 1 && u < 0x400_0000 ==> (u >> 10) << ((u & 0x200) >> 6) == u / 1024 * 256)
        by (bit_vector);
    assert((u & 0x7fff_ffff) == u % 0x8000_0000) by (bit_vector);
}

/// A byte leads to the unit at its place only where that unit bears it.
pub proof fn law_trie_steps(t: Seq<u8>, pos: usize, b: u8)
    ensures
        child(t, pos, b) matches Some(at) ==> at == pos ^ (b as usize) && 4 * at < le32(t, 0)
            && label(le32(t, 4 + 4 * at) as u32) == b,
        4 * (pos ^ (b as usize)) + 3 < le32(t, 0) && label(
            le32(t, 4 + 4 * (pos ^ (b as usize))) as u32,
        ) == b ==> child(t, pos, b) is Some,
{
}

/// The longest key ends where the last key on the way ends: no key means no
/// end, and a key that goes on beyond another takes its place.
pub proof fn law_longest_keys(t: Seq<u8>, b: Seq<u8>, c: int)
    requires
        0 <= c <= b.len(),
    ensures
        c == b.len() ==> longest_key(t, b, c) is None,
        longest_key(t, b, c) matches Some((_, end)) ==> c < end <= b.len(),
        c < b.len() && child(t, offset(le32(t, 4) as u32), b[c]) is None ==> longest_key(t, b, c)
            is None,
{
    lemma_longest_end(t, b, offset(le32(t, 4) as u32), c, None, c);
}

proof fn lemma_longest_end(
    t: Seq<u8>,
    b: Seq<u8>,
    pos: usize,
    i: int,
    best: Option<(u32, int)>,
    c: int,
)
    requires
        c <= i <= b.len(),
        best matches Some((_, end)) ==> c < end <= i,
    ensures
        longest_from(t, b, pos, i, best) matches Some((_, end)) ==> c < end <= b.len(),
    decreases b.len() - i,
{
    if i < b.len() {
        if let Some(at) = child(t, pos, b[i]) {
            let next = if ends_at(t, at) {
                Some((value_at(t, at), i + 1))
            } else {
                best
            };
            lemma_longest_end(t, b, behind(t, at), i + 1, next, c);
        }
    }
}

/// The pieces of a kind: field 1 of a model is a piece, field 3 of a piece is
/// its kind and field 1 its text. Each piece adds its text, in order, where it
/// is of the kind.
pub proof fn law_pieces(model: Seq<u8>, fields: Seq<Field>, f: Field, kind: i32)
    ensures
        f.number == 1 && f.wire is Bytes && kind_of(part(model, f)) == Some(kind) ==> texts_among(
            model,
            fields.push(f),
            kind,
        ) == texts_among(model, fields, kind).push(
            match message(part(model, f), 1) {
                Some(text) => text,
                None => Seq::empty(),
            },
        ),
        f.number != 1 || !(f.wire is Bytes) || kind_of(part(model, f)) != Some(kind) ==> texts_among(
            model,
            fields.push(f),
            kind,
        ) == texts_among(model, fields, kind),
        kind_of(model) matches Some(k) ==> (fields_of(model) matches Some(all) && (last_of(
            all,
            3,
            Wire::Varint,
        ) matches Some(g) && k == g.value as i32)),
{
    assert(fields.push(f).drop_last() =~= fields);
}

} // verus!
