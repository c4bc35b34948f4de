//! What can keep a serialized SentencePiece model from being loaded, or a text
//! from being encoded by it: a normalization table that is shorter than it
//! says, a key of the table that ends inside a character of the text, and
//! merges of byte pairs that have to be undone without end.

use vstd::prelude::*;
use vstd::slice::{slice_subrange, slice_to_vec};
use vstd::utf8::encode_utf8;
use crate::embed::wire::{
    fields_of, find_last, last_of, part, read_fields, Field, Wire,
};

verus! {

/// Field of a model that holds a piece.
pub const PIECE: u32 = 1;

/// Field of a model that holds what it was trained with.
pub const TRAINER: u32 = 2;

/// Field of a model that holds the normalizer.
pub const NORMALIZER: u32 = 3;

/// Field of a model that holds the denormalizer.
pub const DENORMALIZER: u32 = 5;

/// Field of a normalizer that holds its table.
pub const TABLE: u32 = 2;

/// Field of a piece that holds its text.
pub const TEXT: u32 = 1;

/// Field of a piece, and of the training, that holds the kind.
pub const KIND: u32 = 3;

/// Kind of a piece that a user defined, and that stands for itself.
pub const USER_DEFINED: i32 = 4;

/// Kind of a piece that is not used.
pub const UNUSED: i32 = 5;

/// Kind of a model that merges byte pairs.
pub const BYTE_PAIR: i32 = 2;

/// The value of the last field of that number that holds bytes.
pub open spec fn message(b: Seq<u8>, number: u32) -> Option<Seq<u8>> {
    match fields_of(b) {
        None => None,
        Some(fields) => match last_of(fields, number, Wire::Bytes) {
            None => None,
            Some(f) => Some(part(b, f)),
        },
    }
}

/// The kind that a message names, if it names one.
pub open spec fn kind_of(b: Seq<u8>) -> Option<i32> {
    match fields_of(b) {
        None => None,
        Some(fields) => match last_of(fields, KIND, Wire::Varint) {
            None => None,
            Some(f) => Some(f.value as i32),
        },
    }
}

fn read_message(b: &[u8], number: u32) -> (r: Option<&[u8]>)
    ensures
        r is Some == message(b@, number) is Some,
        r matches Some(m) ==> message(b@, number) == Some(m@),
{
    match read_fields(b) {
        None => None,
        Some(fields) => match find_last(&fields, number, Wire::Bytes) {
            None => None,
            Some(f) => Some(slice_subrange(b, f.from, f.to)),
        },
    }
}

fn read_kind(b: &[u8]) -> (r: Option<i32>)
    ensures
        r == kind_of(b@),
{
    match read_fields(b) {
        None => None,
        Some(fields) => match find_last(&fields, KIND, Wire::Varint) {
            None => None,
            Some(f) => Some(#[verifier::truncate] (f.value as i32)),
        },
    }
}

/// The table of the normalizer, or of the denormalizer, under field `number`.
pub open spec fn table_of(model: Seq<u8>, number: u32) -> Option<Seq<u8>> {
    match message(model, number) {
        None => None,
        Some(m) => message(m, TABLE),
    }
}

fn read_table(model: &[u8], number: u32) -> (r: Option<&[u8]>)
    ensures
        r is Some == table_of(model@, number) is Some,
        r matches Some(t) ==> table_of(model@, number) == Some(t@),
{
    match read_message(model, number) {
        None => None,
        Some(m) => read_message(m, TABLE),
    }
}

/// Four bytes from `at`, lowest first.
pub open spec fn le32(b: Seq<u8>, at: int) -> int {
    b[at] + b[at + 1] * 0x100 + b[at + 2] * 0x1_0000 + b[at + 3] * 0x100_0000
}

fn read_le32(b: &[u8], at: usize) -> (r: u32)
    requires
        at + 4 <= b.len(),
    ensures
        r == le32(b@, at as int),
{
    b[at] as u32 + b[at + 1] as u32 * 0x100 + b[at + 2] as u32 * 0x1_0000 + b[at + 3] as u32
        * 0x100_0000
}

/// The table gives its trie a size that a trie can have.
pub open spec fn has_trie(t: Seq<u8>) -> bool {
    t.len() > 4 && 1024 <= le32(t, 0) < t.len() && le32(t, 0) % 1024 == 0
}

/// A table with a trie holds all of it.
pub open spec fn is_whole(t: Option<Seq<u8>>) -> bool {
    match t {
        Some(t) => has_trie(t) ==> 4 + le32(t, 0) <= t.len(),
        None => true,
    }
}

/// The tables of a model are as long as they say.
pub open spec fn table_fits(model: Seq<u8>) -> bool {
    is_whole(table_of(model, NORMALIZER)) && is_whole(table_of(model, DENORMALIZER))
}

fn read_trie_size(t: &[u8]) -> (r: Option<usize>)
    ensures
        r is Some == has_trie(t@),
        r matches Some(size) ==> size == le32(t@, 0),
{
    if t.len() <= 4 {
        return None;
    }
    let size: u32 = read_le32(t, 0);
    if size < 1024 || size % 1024 != 0 || size as u64 >= t.len() as u64 {
        return None;
    }
    Some(size as usize)
}

fn whole(t: Option<&[u8]>) -> (r: bool)
    ensures
        r == is_whole(
            match t {
                Some(s) => Some(s@),
                None => None,
            },
        ),
{
    match t {
        None => true,
        Some(t) => match read_trie_size(t) {
            None => true,
            Some(size) => size <= t.len() - 4,
        },
    }
}

/// Whether the tables of a model are as long as they say.
pub fn tables_fit(model: &[u8]) -> (r: bool)
    ensures
        r == table_fits(model@),
{
    whole(read_table(model, NORMALIZER)) && whole(read_table(model, DENORMALIZER))
}

/// Number of units of the trie of a table.
pub open spec fn unit_count(t: Seq<u8>) -> int {
    le32(t, 0) / 4
}

/// Unit `i` of the trie of a table.
pub open spec fn unit(t: Seq<u8>, i: int) -> u32 {
    le32(t, 4 + 4 * i) as u32
}

/// A key may end at the unit.
pub open spec fn leaf(u: u32) -> bool {
    (u >> 8) & 1 == 1
}

/// The byte that leads to the unit, with the mark that no byte does.
pub open spec fn label(u: u32) -> u32 {
    u & 0x8000_00ff
}

/// How far the units behind this one lie.
pub open spec fn offset(u: u32) -> usize {
    ((u >> 10) << ((u & 0x200) >> 6)) as usize
}

/// The unit that byte `b` leads to from position `pos` of a trie.
pub open spec fn child(t: Seq<u8>, pos: usize, b: u8) -> Option<int> {
    let at = pos ^ (b as usize);
    if at < unit_count(t) && label(unit(t, at as int)) == b as u32 {
        Some(at as int)
    } else {
        None
    }
}

/// The position behind unit `at`.
pub open spec fn behind(t: Seq<u8>, at: int) -> usize {
    (at as usize) ^ offset(unit(t, at))
}

/// A key of the trie ends at unit `at`, which a byte led to.
pub open spec fn ends_at(t: Seq<u8>, at: int) -> bool {
    leaf(unit(t, at)) && behind(t, at) < unit_count(t)
}

/// What the key that ends at unit `at` stands for.
pub open spec fn value_at(t: Seq<u8>, at: int) -> u32 {
    unit(t, behind(t, at) as int) & 0x7fff_ffff
}

/// What the longest key stands for and where it ends, among `best` and the
/// keys that go on with the bytes from `i` at position `pos` of the trie.
pub open spec fn longest_from(
    t: Seq<u8>,
    b: Seq<u8>,
    pos: usize,
    i: int,
    best: Option<(u32, int)>,
) -> Option<(u32, int)>
    decreases b.len() - i,
{
    if i >= b.len() {
        best
    } else {
        match child(t, pos, b[i]) {
            None => best,
            Some(at) => {
                let next = if ends_at(t, at) {
                    Some((value_at(t, at), i + 1))
                } else {
                    best
                };
                longest_from(t, b, behind(t, at), i + 1, next)
            },
        }
    }
}

/// What the longest key at `c` stands for, and where it ends.
pub open spec fn longest_key(t: Seq<u8>, b: Seq<u8>, c: int) -> Option<(u32, int)> {
    longest_from(t, b, offset(unit(t, 0)), c, None)
}

/// The table holds its trie.
pub open spec fn is_usable(t: Seq<u8>) -> bool {
    has_trie(t) && 4 + le32(t, 0) <= t.len()
}

/// Bytes behind the trie of a table, which its values lead into.
pub open spec fn forms_len(t: Seq<u8>) -> int {
    t.len() - 4 - le32(t, 0)
}

/// The bytes of `part` stand in `b` at `at`.
pub open spec fn bytes_at(b: Seq<u8>, part: Seq<u8>, at: int) -> bool {
    0 <= at && at + part.len() <= b.len() && b.subrange(at, at + part.len()) == part
}

/// Length of the longest symbol that stands at `c`, or 0.
pub open spec fn longest_symbol(symbols: Seq<Seq<u8>>, b: Seq<u8>, c: int) -> nat
    decreases symbols.len(),
{
    if symbols.len() == 0 {
        0
    } else {
        let rest = longest_symbol(symbols.drop_last(), b, c);
        if bytes_at(b, symbols.last(), c) && symbols.last().len() > rest {
            symbols.last().len()
        } else {
            rest
        }
    }
}

/// The byte goes on with a character.
pub open spec fn goes_on(b: u8) -> bool {
    0x80 <= b < 0xc0
}

/// Where the next character begins, from `i` on.
pub open spec fn next_start(b: Seq<u8>, i: int) -> int
    decreases b.len() - i,
{
    if i < b.len() && goes_on(b[i]) {
        next_start(b, i + 1)
    } else {
        i
    }
}

/// Where the normalizer goes on after `c`: behind the longest symbol there,
/// or else behind the longest key that stands for something, or else behind
/// the character.
pub open spec fn cut_after(
    table: Option<Seq<u8>>,
    symbols: Seq<Seq<u8>>,
    b: Seq<u8>,
    c: int,
) -> int {
    let symbol = longest_symbol(symbols, b, c);
    if symbol > 0 {
        c + symbol
    } else {
        match table {
            Some(t) => match longest_key(t, b, c) {
                Some((value, end)) => if value < forms_len(t) {
                    end
                } else {
                    next_start(b, c + 1)
                },
                None => next_start(b, c + 1),
            },
            None => next_start(b, c + 1),
        }
    }
}

/// From `c` on, the normalizer cuts between characters only. A cut is always
/// further on, within the text.
pub open spec fn cuts_between(
    table: Option<Seq<u8>>,
    symbols: Seq<Seq<u8>>,
    b: Seq<u8>,
    c: int,
) -> bool
    decreases b.len() - c,
{
    if c >= b.len() {
        true
    } else if goes_on(b[c]) {
        false
    } else {
        let end = cut_after(table, symbols, b, c);
        c < end <= b.len() ==> cuts_between(table, symbols, b, end)
    }
}

/// The table that a model normalizes by.
pub open spec fn usable_table(model: Seq<u8>) -> Option<Seq<u8>> {
    match table_of(model, NORMALIZER) {
        Some(t) => if is_usable(t) {
            Some(t)
        } else {
            None
        },
        None => None,
    }
}

/// The text of a piece.
pub open spec fn piece_text(b: Seq<u8>) -> Seq<u8> {
    match message(b, TEXT) {
        Some(text) => text,
        None => Seq::empty(),
    }
}

/// The texts of the pieces of a kind among these fields, in their order.
pub open spec fn texts_among(model: Seq<u8>, fields: Seq<Field>, kind: i32) -> Seq<Seq<u8>>
    decreases fields.len(),
{
    if fields.len() == 0 {
        Seq::empty()
    } else {
        let f = fields.last();
        let before = texts_among(model, fields.drop_last(), kind);
        if f.number == PIECE && f.wire is Bytes && kind_of(part(model, f)) == Some(kind) {
            before.push(piece_text(part(model, f)))
        } else {
            before
        }
    }
}

/// The texts of the pieces of a kind.
pub open spec fn texts_of(model: Seq<u8>, kind: i32) -> Seq<Seq<u8>> {
    match fields_of(model) {
        None => Seq::empty(),
        Some(fields) => texts_among(model, fields, kind),
    }
}

/// The model cuts the text between characters only.
pub open spec fn cuts_well(model: Seq<u8>, text: Seq<char>) -> bool {
    cuts_between(usable_table(model), texts_of(model, USER_DEFINED), encode_utf8(text), 0)
}

/// The model merges byte pairs.
pub open spec fn is_byte_pair(model: Seq<u8>) -> bool {
    message(model, TRAINER) matches Some(m) && kind_of(m) == Some(BYTE_PAIR)
}

/// The piece stands in the text twice. A merge is remembered under the last
/// pair of the text, so without symbols that stand for themselves one of the
/// two is the end of the text.
pub open spec fn recurs(b: Seq<u8>, piece: Seq<u8>, at_end: bool) -> bool {
    piece.len() > 0 && exists|i: int, j: int|
        #![trigger bytes_at(b, piece, i), bytes_at(b, piece, j)]
        0 <= i < j && bytes_at(b, piece, i) && bytes_at(b, piece, j) && (at_end ==> j + piece.len()
            == b.len())
}

/// Some of the pieces stands in the text twice.
pub open spec fn some_recurs(b: Seq<u8>, pieces: Seq<Seq<u8>>, at_end: bool) -> bool {
    exists|k: int| 0 <= k < pieces.len() && recurs(b, #[trigger] pieces[k], at_end)
}

/// Merges of the normalized text need not be undone without end. Only a
/// byte-pair model undoes merges, those into unused pieces, and only such a
/// piece that stands in the text twice can be split into itself.
pub open spec fn merges_end(model: Seq<u8>, normalized: Option<Seq<char>>) -> bool {
    match normalized {
        None => true,
        Some(text) => !(is_byte_pair(model) && some_recurs(
            encode_utf8(text),
            texts_of(model, UNUSED),
            texts_of(model, USER_DEFINED).len() == 0,
        )),
    }
}

fn read_unit(t: &[u8], i: usize) -> (r: u32)
    requires
        is_usable(t@),
        i < unit_count(t@),
    ensures
        r == unit(t@, i as int),
{
    read_le32(t, 4 + 4 * i)
}

fn read_offset(u: u32) -> (r: usize)
    ensures
        r == offset(u),
{
    assert((u & 0x200) >> 6 <= 8) by (bit_vector);
    ((u >> 10) << ((u & 0x200) >> 6)) as usize
}

fn find_longest(t: &[u8], b: &[u8], c: usize) -> (r: Option<(u32, usize)>)
    requires
        is_usable(t@),
        c < b.len(),
    ensures
        r is Some == longest_key(t@, b@, c as int) is Some,
        r matches Some((v, end)) ==> longest_key(t@, b@, c as int) == Some((v, end as int)) && c
            < end <= b.len(),
{
    let n: usize = (read_le32(t, 0) / 4) as usize;
    let mut pos: usize = read_offset(read_unit(t, 0));
    let mut i: usize = c;
    let mut best: Option<(u32, usize)> = None;
    while i < b.len()
        invariant
            is_usable(t@),
            n == unit_count(t@),
            c <= i <= b.len(),
            best matches Some((_, end)) ==> c < end <= b.len(),
            longest_key(t@, b@, c as int) == longest_from(
                t@,
                b@,
                pos,
                i as int,
                match best {
                    Some((v, end)) => Some((v, end as int)),
                    None => None,
                },
            ),
        decreases b.len() - i,
    {
        let byte: u8 = b[i];
        let at: usize = pos ^ (byte as usize);
        if at >= n {
            return best;
        }
        let u: u32 = read_unit(t, at);
        if u & 0x8000_00ff != byte as u32 {
            return best;
        }
        pos = at ^ read_offset(u);
        i += 1;
        if (u >> 8) & 1 == 1 && pos < n {
            best = Some((read_unit(t, pos) & 0x7fff_ffff, i));
        }
    }
    best
}

fn stands(b: &[u8], part: &[u8], at: usize) -> (r: bool)
    ensures
        r == bytes_at(b@, part@, at as int),
{
    if at > b.len() || part.len() > b.len() - at {
        return false;
    }
    let mut i: usize = 0;
    while i < part.len()
        invariant
            i <= part.len(),
            at + part.len() <= b.len(),
            forall|j: int| 0 <= j < i ==> b@[at + j] == #[trigger] part@[j],
        decreases part.len() - i,
    {
        if b[at + i] != part[i] {
            assert(b@.subrange(at as int, at + part@.len())[i as int] == b@[at + i]);
            return false;
        }
        i += 1;
    }
    assert(b@.subrange(at as int, at + part@.len()) =~= part@);
    true
}

/// The bytes of each text.
pub open spec fn byte_views(v: Seq<Vec<u8>>) -> Seq<Seq<u8>> {
    v.map_values(|x: Vec<u8>| x@)
}

fn find_symbol(symbols: &Vec<Vec<u8>>, b: &[u8], c: usize) -> (r: usize)
    requires
        c <= b.len(),
    ensures
        r == longest_symbol(byte_views(symbols@), b@, c as int),
        c + r <= b.len(),
{
    let ghost all = byte_views(symbols@);
    let mut longest: usize = 0;
    let mut i: usize = 0;
    assert(all.take(0) =~= Seq::<Seq<u8>>::empty());
    while i < symbols.len()
        invariant
            i <= symbols.len(),
            c + longest <= b.len(),
            all == byte_views(symbols@),
            longest == longest_symbol(all.take(i as int), b@, c as int),
        decreases symbols.len() - i,
    {
        proof {
            let upto = all.take(i + 1);
            assert(upto.drop_last() =~= all.take(i as int));
            assert(upto.last() == symbols@[i as int]@);
        }
        let s: &Vec<u8> = &symbols[i];
        if s.len() > longest && stands(b, s.as_slice(), c) {
            longest = s.len();
        }
        i += 1;
    }
    assert(all.take(all.len() as int) =~= all);
    longest
}

fn find_next_start(b: &[u8], i: usize) -> (r: usize)
    requires
        i <= b.len(),
    ensures
        r == next_start(b@, i as int),
        i <= r <= b.len(),
{
    let mut j: usize = i;
    while j < b.len() && 0x80 <= b[j] && b[j] < 0xc0
        invariant
            i <= j <= b.len(),
            next_start(b@, i as int) == next_start(b@, j as int),
        decreases b.len() - j,
    {
        j += 1;
    }
    j
}

/// What of a model decides whether a text can be handed to it.
pub struct TextRules {
    /// The table of the normalizer, where there is one that holds its trie.
    table: Option<Vec<u8>>,
    symbols: Vec<Vec<u8>>,
    byte_pair: bool,
    unused: Vec<Vec<u8>>,
}

/// The texts of the pieces of a kind.
fn read_texts(model: &[u8], kind: i32) -> (r: Vec<Vec<u8>>)
    ensures
        byte_views(r@) == texts_of(model@, kind),
{
    let mut r: Vec<Vec<u8>> = Vec::new();
    let fields: Vec<Field> = match read_fields(model) {
        Some(fields) => fields,
        None => {
            assert(byte_views(r@) =~= Seq::<Seq<u8>>::empty());
            return r;
        },
    };
    let mut i: usize = 0;
    assert(fields@.take(0) =~= Seq::<Field>::empty());
    assert(byte_views(r@) =~= Seq::<Seq<u8>>::empty());
    while i < fields.len()
        invariant
            i <= fields.len(),
            forall|k: int|
                0 <= k < fields@.len() ==> (#[trigger] fields@[k]).from <= fields@[k].to
                    <= model.len(),
            byte_views(r@) == texts_among(model@, fields@.take(i as int), kind),
        decreases fields.len() - i,
    {
        let f: Field = fields[i];
        proof {
            let upto = fields@.take(i + 1);
            assert(upto.drop_last() =~= fields@.take(i as int));
            assert(upto.last() == f);
        }
        if f.number == PIECE && f.wire == Wire::Bytes {
            let body: &[u8] = slice_subrange(model, f.from, f.to);
            if let Some(found) = read_kind(body) {
                if found == kind {
                    let text: Vec<u8> = match read_message(body, TEXT) {
                        Some(text) => slice_to_vec(text),
                        None => Vec::new(),
                    };
                    let ghost before = r@;
                    assert(text@ =~= piece_text(body@));
                    r.push(text);
                    assert(byte_views(r@) =~= byte_views(before).push(text@));
                }
            }
        }
        i += 1;
    }
    assert(fields@.take(fields@.len() as int) =~= fields@);
    r
}

impl TextRules {
    /// The table holds its trie.
    #[verifier::type_invariant]
    spec fn has_usable_table(self) -> bool {
        self.table matches Some(t) ==> is_usable(t@)
    }

    spec fn table_view(self) -> Option<Seq<u8>> {
        match self.table {
            Some(t) => Some(t@),
            None => None,
        }
    }

    /// These are the rules of the model.
    pub closed spec fn are_of(self, model: Seq<u8>) -> bool {
        &&& self.table_view() == usable_table(model)
        &&& byte_views(self.symbols@) == texts_of(model, USER_DEFINED)
        &&& self.byte_pair == is_byte_pair(model)
        &&& self.byte_pair ==> byte_views(self.unused@) == texts_of(model, UNUSED)
    }

    /// The rules of a model.
    pub fn read(model: &[u8]) -> (r: Self)
        ensures
            r.are_of(model@),
    {
        let table: Option<Vec<u8>> = match read_table(model, NORMALIZER) {
            None => None,
            Some(t) => match read_trie_size(t) {
                None => None,
                Some(size) => if size > t.len() - 4 {
                    None
                } else {
                    Some(slice_to_vec(t))
                },
            },
        };
        let byte_pair: bool = match read_message(model, TRAINER) {
            Some(m) => match read_kind(m) {
                Some(kind) => kind == BYTE_PAIR,
                None => false,
            },
            None => false,
        };
        let unused: Vec<Vec<u8>> = if byte_pair {
            read_texts(model, UNUSED)
        } else {
            Vec::new()
        };
        TextRules { table, symbols: read_texts(model, USER_DEFINED), byte_pair, unused }
    }

    /// Whether the model cuts the text between characters only.
    pub fn cuts_well(&self, text: &str) -> (r: bool)
        ensures
            forall|model: Seq<u8>| #[trigger] self.are_of(model) ==> r == cuts_well(model, text@),
    {
        let b: &[u8] = text.as_bytes();
        let ghost table = self.table_view();
        proof {
            use_type_invariant(self);
        }
        let ghost symbols = byte_views(self.symbols@);
        let mut c: usize = 0;
        while c < b.len()
            invariant
                c <= b.len(),
                b@ == encode_utf8(text@),
                table == self.table_view(),
                self.table matches Some(t) ==> is_usable(t@),
                symbols == byte_views(self.symbols@),
                cuts_between(table, symbols, b@, 0) == cuts_between(table, symbols, b@, c as int),
            decreases b.len() - c,
        {
            if 0x80 <= b[c] && b[c] < 0xc0 {
                return false;
            }
            let symbol: usize = find_symbol(&self.symbols, b, c);
            let end: usize = if symbol > 0 {
                c + symbol
            } else {
                let key: Option<(u32, usize)> = match &self.table {
                    Some(t) => match find_longest(t.as_slice(), b, c) {
                        Some((value, end)) => {
                            let size: u32 = read_le32(t.as_slice(), 0);
                            if (value as u64) < (t.len() - 4 - size as usize) as u64 {
                                Some((value, end))
                            } else {
                                None
                            }
                        },
                        None => None,
                    },
                    None => None,
                };
                match key {
                    Some((_, end)) => end,
                    None => find_next_start(b, c + 1),
                }
            };
            assert(end == cut_after(table, symbols, b@, c as int));
            c = end;
        }
        true
    }

    /// Whether the model has merges to undo: it merges byte pairs, and some
    /// piece is not used.
    pub fn undoes_merges(&self) -> (r: bool)
        ensures
            forall|model: Seq<u8>| #[trigger]
                self.are_of(model) ==> r == (is_byte_pair(model) && texts_of(model, UNUSED).len()
                    > 0),
    {
        assert(byte_views(self.unused@).len() == self.unused@.len());
        self.byte_pair && self.unused.len() > 0
    }

    /// Whether the merges of a normalized text end.
    pub fn merges_end(&self, normalized: &String) -> (r: bool)
        ensures
            forall|model: Seq<u8>| #[trigger]
                self.are_of(model) ==> r == merges_end(model, Some(normalized@)),
    {
        if !self.byte_pair {
            return true;
        }
        let b: &[u8] = normalized.as_str().as_bytes();
        let ghost pieces = byte_views(self.unused@);
        let at_end: bool = self.symbols.len() == 0;
        let mut k: usize = 0;
        while k < self.unused.len()
            invariant
                k <= self.unused.len(),
                self.byte_pair,
                b@ == encode_utf8(normalized@),
                at_end == (byte_views(self.symbols@).len() == 0),
                pieces == byte_views(self.unused@),
                forall|x: int| 0 <= x < k ==> !recurs(b@, #[trigger] pieces[x], at_end),
            decreases self.unused.len() - k,
        {
            assert(pieces[k as int] == self.unused@[k as int]@);
            if find_twice(b, self.unused[k].as_slice(), at_end) {
                assert(some_recurs(b@, pieces, at_end));
                return false;
            }
            k += 1;
        }
        true
    }
}

/// Whether the piece stands in the text twice.
fn find_twice(b: &[u8], piece: &[u8], at_end: bool) -> (r: bool)
    ensures
        r == recurs(b@, piece@, at_end),
{
    if piece.len() == 0 {
        return false;
    }
    let mut first: Option<usize> = None;
    let mut j: usize = 0;
    while j < b.len() && piece.len() <= b.len() - j
        invariant
            j <= b.len(),
            piece.len() > 0,
            first is None ==> forall|i: int| 0 <= i < j ==> !#[trigger] bytes_at(b@, piece@, i),
            first matches Some(i) ==> i < j && bytes_at(b@, piece@, i as int),
            forall|x: int, y: int|
                0 <= x < y < j && #[trigger] bytes_at(b@, piece@, x) && #[trigger] bytes_at(
                    b@,
                    piece@,
                    y,
                ) ==> at_end && y + piece@.len() != b@.len(),
        decreases b.len() - j,
    {
        if stands(b, piece, j) {
            if let Some(i) = first {
                if !at_end || piece.len() == b.len() - j {
                    assert(bytes_at(b@, piece@, i as int) && bytes_at(b@, piece@, j as int));
                    return true;
                }
            } else {
                first = Some(j);
            }
        }
        j += 1;
    }
    false
}

} // verus!
