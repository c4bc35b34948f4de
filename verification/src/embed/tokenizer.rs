//! Token ids of a text.
//!
//! A SentencePiece model gives the ids of plain text. The encoder was trained
//! on a vocabulary that puts `<pad>` at 1 and `<unk>` at 3 and shifts ordinary
//! pieces up by one, and that keeps a trailing space as a piece of its own.
//! Added tokens such as `<mask>` stand for themselves wherever they occur.

use sentencepiece_rs::SentencePieceProcessor;

use vstd::prelude::*;
use vstd::string::{StrSliceExecFns, StringExecFns};
use crate::embed::model::{cuts_well, merges_end, table_fits, tables_fit, TextRules};
use crate::embed::text::{chars_of, is_white, matches_at, stands_at, trim, trimmed, white};

verus! {

/// A loaded SentencePiece model.
#[verifier::external_type_specification]
#[verifier::external_body]
pub struct ExSentencePieceProcessor(sentencepiece_rs::SentencePieceProcessor);

/// Why SentencePiece could not load a model or encode a text.
#[verifier::external_type_specification]
#[verifier::external_body]
pub struct ExSentencePieceError(sentencepiece_rs::Error);

/// Why a configuration is not JSON.
#[verifier::external_type_specification]
#[verifier::external_body]
pub struct ExJsonError(serde_json::Error);

/// What a processor encodes by: the serialized model that it was loaded from,
/// as long as no encoding options have been set on it.
pub uninterp spec fn model_of(p: SentencePieceProcessor) -> Seq<u8>;

/// The bytes, whose tables fit, are a serialized model that can be loaded.
pub uninterp spec fn is_model(bytes: Seq<u8>) -> bool;

/// The text that a model normalizes a text to, or `None` where it cannot.
pub uninterp spec fn normalized_form(model: Seq<u8>, text: Seq<char>) -> Option<Seq<char>>;

/// The ids that a model gives a text, or `None` where it cannot encode it.
pub uninterp spec fn piece_ids(model: Seq<u8>, text: Seq<char>) -> Option<Seq<usize>>;

/// The id of a model's start-of-text piece.
pub uninterp spec fn bos_piece(model: Seq<u8>) -> Option<usize>;

/// The id of a model's end-of-text piece.
pub uninterp spec fn eos_piece(model: Seq<u8>) -> Option<usize>;

/// The id of a model's unknown piece.
pub uninterp spec fn unk_piece(model: Seq<u8>) -> usize;

/// The unsigned integer under a key of a JSON text: `None` where the text is
/// not JSON, `Some(None)` where it is but there is no such integer.
pub uninterp spec fn json_u64(json: Seq<u8>, key: Seq<char>) -> Option<Option<u64>>;

/// `SentencePieceProcessor::from_serialized_model`: whether the bytes are a
/// model depends on them alone, and what is loaded encodes by them. It slices
/// a table that is shorter than it says out of bounds, so such bytes are left
/// out.
#[verifier::external_body]
fn load_model(bytes: &[u8]) -> (r: Result<SentencePieceProcessor, sentencepiece_rs::Error>)
    requires
        table_fits(bytes@),
    ensures
        match r {
            Ok(p) => is_model(bytes@) && model_of(p) == bytes@,
            Err(_) => !is_model(bytes@),
        },
{
    SentencePieceProcessor::from_serialized_model(bytes)
}

/// `SentencePieceProcessor::normalize`: what a text is normalized to depends on
/// the model and the text alone. It panics where it cuts the text inside a
/// character, so such texts are left out.
#[verifier::external_body]
fn normalize(p: &SentencePieceProcessor, text: &str) -> (r: Result<
    String,
    sentencepiece_rs::Error,
>)
    requires
        cuts_well(model_of(*p), text@),
    ensures
        match r {
            Ok(s) => normalized_form(model_of(*p), text@) == Some(s@),
            Err(_) => normalized_form(model_of(*p), text@) is None,
        },
{
    p.normalize(text)
}

/// `SentencePieceProcessor::encode_to_ids`: the ids of a text depend on the
/// model and the text alone. It normalizes the text first, which panics where
/// that cuts it inside a character, and it may undo the merges of byte pairs
/// without end, so such texts are left out.
#[verifier::external_body]
fn encode_to_ids(p: &SentencePieceProcessor, text: &str) -> (r: Result<
    Vec<usize>,
    sentencepiece_rs::Error,
>)
    requires
        cuts_well(model_of(*p), text@),
        merges_end(model_of(*p), normalized_form(model_of(*p), text@)),
    ensures
        match r {
            Ok(ids) => piece_ids(model_of(*p), text@) == Some(ids@),
            Err(_) => piece_ids(model_of(*p), text@) is None,
        },
{
    p.encode_to_ids(text)
}

/// `SentencePieceProcessor::bos_id`: fixed by the model.
#[verifier::external_body]
fn bos_id(p: &SentencePieceProcessor) -> (r: Option<usize>)
    ensures
        r == bos_piece(model_of(*p)),
{
    p.bos_id()
}

/// `SentencePieceProcessor::eos_id`: fixed by the model.
#[verifier::external_body]
fn eos_id(p: &SentencePieceProcessor) -> (r: Option<usize>)
    ensures
        r == eos_piece(model_of(*p)),
{
    p.eos_id()
}

/// `SentencePieceProcessor::unk_id`: fixed by the model.
#[verifier::external_body]
fn unk_id(p: &SentencePieceProcessor) -> (r: usize)
    ensures
        r == unk_piece(model_of(*p)),
{
    p.unk_id()
}

/// `serde_json::from_slice` into a value, and the unsigned integer it holds
/// under `key`: fixed by the text and the key.
#[verifier::external_body]
fn json_member_u64(json: &[u8], key: &str) -> (r: Result<Option<u64>, serde_json::Error>)
    ensures
        match r {
            Ok(v) => json_u64(json@, key@) == Some(v),
            Err(_) => json_u64(json@, key@) is None,
        },
{
    let value: serde_json::Value = serde_json::from_slice(json)?;
    Ok(value[key].as_u64())
}

/// Why a tokenizer could not be made or a text not be encoded.
#[derive(Debug)]
pub enum TokenizerError {
    /// The configuration is not JSON.
    Config(serde_json::Error),
    /// A normalization table of the model is shorter than it says.
    Table,
    /// The model cannot be loaded.
    Model(sentencepiece_rs::Error),
    /// The model has no start-of-text piece.
    MissingBos,
    /// The model has no end-of-text piece.
    MissingEos,
    /// The model would cut the text inside a character.
    Cut,
    /// The model merges byte pairs and might undo those of the text without
    /// end.
    Merges,
    /// The model cannot encode the text.
    Encode(sentencepiece_rs::Error),
}

/// Why a text has no ids.
pub enum Failure {
    Cut,
    Merges,
    Encode,
}

impl TokenizerError {
    /// The error tells of this failure.
    pub open spec fn tells(self, f: Failure) -> bool {
        match f {
            Failure::Cut => self is Cut,
            Failure::Merges => self is Merges,
            Failure::Encode => self is Encode,
        }
    }
}

/// Id that the encoder's vocabulary gives a trailing space.
pub const HF_SPACE_TOKEN_ID: i64 = 6;

/// Ids of a model's special pieces.
#[derive(Clone, Copy, Debug, PartialEq, Eq, Structural)]
pub struct SpecialIds {
    pub bos: i64,
    pub eos: i64,
    pub unk: i64,
}

impl SpecialIds {
    /// The encoder's id of the model's piece `id`: start 0, end 2, unknown 3,
    /// and one up for the rest.
    pub open spec fn hf(self, id: i64) -> i64 {
        if id == self.bos {
            0
        } else if id == self.eos {
            2
        } else if id == self.unk {
            3
        } else {
            id.wrapping_add(1)
        }
    }

    /// The encoder's id of a piece of the model.
    pub fn hf_id(&self, piece: usize) -> (r: i64)
        ensures
            r == self.hf(piece as i64),
    {
        let id: i64 = #[verifier::truncate] (piece as i64);
        if id == self.bos {
            0
        } else if id == self.eos {
            2
        } else if id == self.unk {
            3
        } else {
            id.wrapping_add(1)
        }
    }
}

/// Encoder ids of plain text, given what the model gave it. SentencePiece
/// drops a trailing space; the encoder's vocabulary keeps it as a piece.
pub open spec fn plain_ids(sp: SpecialIds, pieces: Seq<usize>, text: Seq<char>) -> Seq<i64> {
    let ids = pieces.map_values(|p: usize| sp.hf(p as i64));
    if text.len() > 0 && white(text.last()) && !(ids.len() > 0 && ids.last() == HF_SPACE_TOKEN_ID) {
        ids.push(HF_SPACE_TOKEN_ID)
    } else {
        ids
    }
}

/// Encoder ids of plain text, given what the model gave it.
pub fn finish_plain(sp: &SpecialIds, pieces: &Vec<usize>, text: &str) -> (r: Vec<i64>)
    ensures
        r@ == plain_ids(*sp, pieces@, text@),
{
    let ghost ids = pieces@.map_values(|p: usize| sp.hf(p as i64));
    let mut out: Vec<i64> = Vec::new();
    let mut i: usize = 0;
    while i < pieces.len()
        invariant
            i <= pieces.len(),
            ids == pieces@.map_values(|p: usize| sp.hf(p as i64)),
            out@ == ids.take(i as int),
        decreases pieces.len() - i,
    {
        out.push(sp.hf_id(pieces[i]));
        assert(ids.take(i + 1) =~= ids.take(i as int).push(ids[i as int]));
        i += 1;
    }
    assert(ids.take(ids.len() as int) =~= ids);
    let len: usize = text.unicode_len();
    if len > 0 && is_white(text.get_char(len - 1)) {
        let kept: bool = out.len() > 0 && out[out.len() - 1] == HF_SPACE_TOKEN_ID;
        if !kept {
            out.push(HF_SPACE_TOKEN_ID);
        }
    }
    out
}

/// Number of added tokens.
pub open spec fn added_count() -> int {
    5
}

/// Text of an added token.
pub open spec fn added_text(k: int) -> Seq<char> {
    if k == 0 {
        "</s>"@
    } else if k == 1 {
        "<mask>"@
    } else if k == 2 {
        "<pad>"@
    } else if k == 3 {
        "<unk>"@
    } else {
        "<s>"@
    }
}

/// Id of an added token.
pub open spec fn added_id(k: int) -> i64 {
    if k == 0 {
        2
    } else if k == 1 {
        250001
    } else if k == 2 {
        1
    } else if k == 3 {
        3
    } else {
        0
    }
}

/// The added token that stands at `pos`, the first of the list that does.
pub open spec fn added_at(s: Seq<char>, pos: int, from: int) -> Option<int>
    decreases added_count() - from,
{
    if from >= added_count() {
        None
    } else if stands_at(s, added_text(from), pos) {
        Some(from)
    } else {
        added_at(s, pos, from + 1)
    }
}

/// The first added token at or after `from`: where it stands and which it is.
pub open spec fn next_added(s: Seq<char>, from: int) -> Option<(int, int)>
    decreases s.len() - from,
{
    if from >= s.len() {
        None
    } else if let Some(k) = added_at(s, from, 0) {
        Some((from, k))
    } else {
        next_added(s, from + 1)
    }
}

/// A piece of a text: plain text between two places, or an added token.
#[derive(Clone, Copy, Debug, PartialEq, Eq, Structural)]
pub enum Segment {
    Plain(usize, usize),
    Added(i64),
}

pub proof fn lemma_added_texts()
    ensures
        forall|k: int| 3 <= (#[trigger] added_text(k)).len() <= 6,
        forall|k: int| (#[trigger] added_text(k))[0] == '<',
        added_text(0)[1] == '/',
        added_text(1)[1] == 'm',
        added_text(2)[1] == 'p',
        added_text(3)[1] == 'u',
        added_text(4)[1] == 's',
{
    reveal_strlit("</s>");
    reveal_strlit("<mask>");
    reveal_strlit("<pad>");
    reveal_strlit("<unk>");
    reveal_strlit("<s>");
}

proof fn lemma_added_at(s: Seq<char>, pos: int, from: int)
    requires
        0 <= from,
    ensures
        added_at(s, pos, from) matches Some(k) ==> from <= k < added_count() && stands_at(
            s,
            added_text(k),
            pos,
        ),
        added_at(s, pos, from) is None ==> forall|k: int|
            from <= k < added_count() ==> !stands_at(s, #[trigger] added_text(k), pos),
    decreases added_count() - from,
{
    if from < added_count() && !stands_at(s, added_text(from), pos) {
        lemma_added_at(s, pos, from + 1);
    }
}

pub proof fn lemma_next_added(s: Seq<char>, from: int)
    requires
        0 <= from,
    ensures
        next_added(s, from) matches Some((p, k)) ==> {
            &&& from <= p < s.len()
            &&& 0 <= k < added_count()
            &&& stands_at(s, added_text(k), p)
            &&& p + added_text(k).len() <= s.len()
            &&& forall|q: int| from <= q < p ==> #[trigger] added_at(s, q, 0) is None
        },
        next_added(s, from) is None ==> forall|q: int|
            from <= q < s.len() ==> #[trigger] added_at(s, q, 0) is None,
    decreases s.len() - from,
{
    if from < s.len() {
        lemma_added_at(s, from, 0);
        if added_at(s, from, 0) is None {
            lemma_next_added(s, from + 1);
        }
    }
}

/// The pieces of the text from `from` on: the stretches between added tokens,
/// where they are not empty, and the added tokens.
pub open spec fn segments(s: Seq<char>, from: int) -> Seq<Segment>
    decreases s.len() - from,
{
    if from < 0 || from >= s.len() {
        Seq::empty()
    } else {
        match next_added(s, from) {
            None => seq![Segment::Plain(from as usize, s.len() as usize)],
            Some((p, k)) => {
                proof {
                    lemma_next_added(s, from);
                    lemma_added_texts();
                }
                let before = if p > from {
                    seq![Segment::Plain(from as usize, p as usize)]
                } else {
                    Seq::empty()
                };
                before + seq![Segment::Added(added_id(k))] + segments(s, p + added_text(k).len())
            },
        }
    }
}

/// At most one added token stands at a place, so which one is found does not
/// depend on their order or length.
pub proof fn law_added_tokens_do_not_overlap(s: Seq<char>, pos: int, j: int, k: int)
    requires
        0 <= pos,
        0 <= j < added_count(),
        0 <= k < added_count(),
        stands_at(s, added_text(j), pos),
        stands_at(s, added_text(k), pos),
    ensures
        j == k,
{
    lemma_added_texts();
    assert(s.subrange(pos, pos + added_text(j).len())[1] == s[pos + 1]);
    assert(s.subrange(pos, pos + added_text(k).len())[1] == s[pos + 1]);
}

/// An added token and its id.
struct AddedToken {
    chars: Vec<char>,
    id: i64,
}

fn added_tokens() -> (v: Vec<AddedToken>)
    ensures
        v@.len() == added_count(),
        forall|k: int|
            0 <= k < added_count() ==> (#[trigger] v@[k]).chars@ == added_text(k) && v@[k].id
                == added_id(k),
{
    let mut v: Vec<AddedToken> = Vec::new();
    v.push(AddedToken { chars: chars_of("</s>"), id: 2 });
    v.push(AddedToken { chars: chars_of("<mask>"), id: 250001 });
    v.push(AddedToken { chars: chars_of("<pad>"), id: 1 });
    v.push(AddedToken { chars: chars_of("<unk>"), id: 3 });
    v.push(AddedToken { chars: chars_of("<s>"), id: 0 });
    v
}

/// The added token that stands at `pos`.
fn find_added(s: &Vec<char>, added: &Vec<AddedToken>, pos: usize) -> (r: Option<usize>)
    requires
        pos <= s@.len(),
        added@.len() == added_count(),
        forall|k: int| 0 <= k < added_count() ==> (#[trigger] added@[k]).chars@ == added_text(k),
    ensures
        r is Some == added_at(s@, pos as int, 0) is Some,
        r matches Some(k) ==> added_at(s@, pos as int, 0) == Some(k as int) && k < added_count(),
{
    let mut k: usize = 0;
    while k < added.len()
        invariant
            k <= added.len(),
            pos <= s@.len(),
            added@.len() == added_count(),
            forall|k: int|
                0 <= k < added_count() ==> (#[trigger] added@[k]).chars@ == added_text(k),
            added_at(s@, pos as int, k as int) == added_at(s@, pos as int, 0),
        decreases added.len() - k,
    {
        if matches_at(s, &added[k].chars, pos) {
            return Some(k);
        }
        k += 1;
    }
    None
}

/// Splits a text at the added tokens in it.
pub fn split_added(text: &str) -> (r: Vec<Segment>)
    ensures
        r@ == segments(text@, 0),
{
    let s: Vec<char> = chars_of(text);
    let added: Vec<AddedToken> = added_tokens();
    let mut out: Vec<Segment> = Vec::new();
    let mut from: usize = 0;
    while from < s.len()
        invariant
            s@ == text@,
            from <= s@.len(),
            added@.len() == added_count(),
            forall|k: int|
                0 <= k < added_count() ==> (#[trigger] added@[k]).chars@ == added_text(k)
                    && added@[k].id == added_id(k),
            out@ + segments(text@, from as int) == segments(text@, 0),
        decreases s.len() - from,
    {
        let mut pos: usize = from;
        let mut hit: Option<usize> = None;
        while pos < s.len() && hit.is_none()
            invariant
                from <= pos <= s@.len(),
                s@ == text@,
                added@.len() == added_count(),
                forall|k: int|
                    0 <= k < added_count() ==> (#[trigger] added@[k]).chars@ == added_text(k),
                hit is None ==> next_added(s@, pos as int) == next_added(s@, from as int),
                hit matches Some(k) ==> k < added_count() && pos < s@.len() && next_added(
                    s@,
                    from as int,
                ) == Some((pos as int, k as int)),
            decreases s.len() - pos + (if hit is None {
                1int
            } else {
                0
            }),
        {
            hit = find_added(&s, &added, pos);
            if hit.is_none() {
                pos += 1;
            }
        }
        let ghost tail = segments(text@, from as int);
        let ghost before = out@;
        proof {
            lemma_next_added(s@, from as int);
            lemma_added_texts();
        }
        match hit {
            None => {
                out.push(Segment::Plain(from, s.len()));
                assert(out@ + segments(text@, s@.len() as int) =~= before + tail);
                from = s.len();
            },
            Some(k) => {
                if pos > from {
                    out.push(Segment::Plain(from, pos));
                }
                out.push(Segment::Added(added[k].id));
                from = pos + added[k].chars.len();
                assert(out@ + segments(text@, from as int) =~= before + tail);
            },
        }
    }
    assert(out@ + segments(text@, from as int) =~= out@);
    out
}

/// The text of a segment.
pub open spec fn segment_text(s: Seq<char>, seg: Segment) -> Seq<char> {
    match seg {
        Segment::Plain(a, b) => s.subrange(a as int, b as int),
        Segment::Added(id) => if id == 2 {
            "</s>"@
        } else if id == 250001 {
            "<mask>"@
        } else if id == 1 {
            "<pad>"@
        } else if id == 3 {
            "<unk>"@
        } else {
            "<s>"@
        },
    }
}

/// The texts of segments, one after the other.
pub open spec fn joined(s: Seq<char>, segs: Seq<Segment>) -> Seq<char>
    decreases segs.len(),
{
    if segs.len() == 0 {
        Seq::empty()
    } else {
        segment_text(s, segs[0]) + joined(s, segs.subrange(1, segs.len() as int))
    }
}

proof fn lemma_joined_append(s: Seq<char>, a: Seq<Segment>, b: Seq<Segment>)
    ensures
        joined(s, a + b) == joined(s, a) + joined(s, b),
    decreases a.len(),
{
    if a.len() == 0 {
        assert(a + b =~= b);
        assert(joined(s, a) + joined(s, b) =~= joined(s, b));
    } else {
        let rest = a.subrange(1, a.len() as int);
        assert((a + b).subrange(1, (a + b).len() as int) =~= rest + b);
        lemma_joined_append(s, rest, b);
        assert(joined(s, a + b) =~= joined(s, a) + joined(s, b));
    }
}

proof fn lemma_joined_one(s: Seq<char>, seg: Segment)
    ensures
        joined(s, seq![seg]) == segment_text(s, seg),
{
    let one = seq![seg];
    assert(one.subrange(1, 1) =~= Seq::<Segment>::empty());
    assert(joined(s, one.subrange(1, 1)) =~= Seq::<char>::empty());
    assert(joined(s, one) =~= segment_text(s, seg));
}

/// Splitting loses nothing: the segments of a text, put together, are the
/// text.
pub proof fn law_segments_make_the_text(s: Seq<char>, from: int)
    requires
        0 <= from <= s.len(),
        s.len() <= usize::MAX,
    ensures
        joined(s, segments(s, from)) == s.subrange(from, s.len() as int),
    decreases s.len() - from,
{
    if from >= s.len() {
        assert(joined(s, segments(s, from)) =~= s.subrange(from, s.len() as int));
    } else {
        lemma_next_added(s, from);
        lemma_added_texts();
        match next_added(s, from) {
            None => {
                lemma_joined_one(s, Segment::Plain(from as usize, s.len() as usize));
            },
            Some((p, k)) => {
                let e = p + added_text(k).len();
                law_segments_make_the_text(s, e);
                let before: Seq<Segment> = if p > from {
                    seq![Segment::Plain(from as usize, p as usize)]
                } else {
                    Seq::empty()
                };
                let tok = seq![Segment::Added(added_id(k))];
                lemma_joined_append(s, before + tok, segments(s, e));
                lemma_joined_append(s, before, tok);
                lemma_joined_one(s, Segment::Added(added_id(k)));
                if p > from {
                    lemma_joined_one(s, Segment::Plain(from as usize, p as usize));
                }
                assert(joined(s, before) =~= s.subrange(from, p));
                assert(joined(s, tok) =~= s.subrange(p, e));
                assert(s.subrange(from, s.len() as int) =~= s.subrange(from, p) + s.subrange(p, e)
                    + s.subrange(e, s.len() as int));
            },
        }
    }
}

/// Encoder ids of plain text, or why there are none.
pub open spec fn ids_of_plain(model: Seq<u8>, sp: SpecialIds, text: Seq<char>) -> Result<
    Seq<i64>,
    Failure,
> {
    if !cuts_well(model, text) {
        Err(Failure::Cut)
    } else if !merges_end(model, normalized_form(model, text)) {
        Err(Failure::Merges)
    } else {
        match piece_ids(model, text) {
            Some(pieces) => Ok(plain_ids(sp, pieces, text)),
            None => Err(Failure::Encode),
        }
    }
}

/// Encoder ids of a segment, or why there are none.
pub open spec fn segment_ids(
    model: Seq<u8>,
    sp: SpecialIds,
    s: Seq<char>,
    seg: Segment,
) -> Result<Seq<i64>, Failure> {
    match seg {
        Segment::Added(id) => Ok(seq![id]),
        Segment::Plain(a, b) => ids_of_plain(model, sp, s.subrange(a as int, b as int)),
    }
}

/// Encoder ids of segments, or why the first that has none has none.
pub open spec fn all_ids(
    model: Seq<u8>,
    sp: SpecialIds,
    s: Seq<char>,
    segs: Seq<Segment>,
) -> Result<Seq<i64>, Failure>
    decreases segs.len(),
{
    if segs.len() == 0 {
        Ok(Seq::empty())
    } else {
        match all_ids(model, sp, s, segs.drop_last()) {
            Ok(a) => match segment_ids(model, sp, s, segs.last()) {
                Ok(b) => Ok(a + b),
                Err(f) => Err(f),
            },
            Err(f) => Err(f),
        }
    }
}

/// Plain segments are stretches of the text.
proof fn lemma_segments_in_text(s: Seq<char>, from: int)
    requires
        0 <= from,
        s.len() <= usize::MAX,
    ensures
        forall|k: int|
            0 <= k < segments(s, from).len() ==> (#[trigger] segments(s, from)[k] matches
                Segment::Plain(a, b) ==> a <= b <= s.len()),
    decreases s.len() - from,
{
    if from < s.len() {
        lemma_next_added(s, from);
        lemma_added_texts();
        if let Some((p, k)) = next_added(s, from) {
            let e = p + added_text(k).len();
            lemma_segments_in_text(s, e);
            let all = segments(s, from);
            let rest = segments(s, e);
            let skipped = all.len() - rest.len();
            assert forall|i: int| 0 <= i < all.len() implies (#[trigger] all[i] matches
                Segment::Plain(a, b) ==> a <= b <= s.len()) by {
                if i >= skipped {
                    assert(all[i] == rest[i - skipped]);
                }
            }
        }
    }
}

/// A segment that has no ids, behind segments that have, fails the whole text.
proof fn lemma_all_ids_fail(
    model: Seq<u8>,
    sp: SpecialIds,
    s: Seq<char>,
    segs: Seq<Segment>,
    i: int,
)
    requires
        0 <= i < segs.len(),
        all_ids(model, sp, s, segs.take(i)) is Ok,
        segment_ids(model, sp, s, segs[i]) is Err,
    ensures
        all_ids(model, sp, s, segs) == Err::<Seq<i64>, Failure>(
            segment_ids(model, sp, s, segs[i])->Err_0,
        ),
    decreases segs.len(),
{
    if i < segs.len() - 1 {
        assert(segs.drop_last().take(i) =~= segs.take(i));
        lemma_all_ids_fail(model, sp, s, segs.drop_last(), i);
    } else {
        assert(segs.drop_last() =~= segs.take(i));
    }
}

/// Encoder ids of a text, or why there are none.
pub open spec fn text_ids(model: Seq<u8>, sp: SpecialIds, s: Seq<char>) -> Result<
    Seq<i64>,
    Failure,
> {
    all_ids(model, sp, s, segments(s, 0))
}

/// The row of a text: start, as many ids as fit, end.
pub open spec fn row_of(sp: SpecialIds, ids: Seq<i64>, max_length: int) -> Seq<i64> {
    let room = if max_length < 2 {
        0
    } else {
        max_length - 2
    };
    let kept = if ids.len() < room {
        ids
    } else {
        ids.take(room)
    };
    seq![sp.hf(sp.bos)] + kept + seq![sp.hf(sp.eos)]
}

/// The row of a text, given its ids.
pub fn make_row(sp: &SpecialIds, ids: &Vec<i64>, max_length: usize) -> (row: Vec<i64>)
    ensures
        row@ == row_of(*sp, ids@, max_length as int),
{
    let room: usize = max_length.saturating_sub(2);
    let mut row: Vec<i64> = Vec::new();
    row.push(sp.hf_start());
    let mut i: usize = 0;
    while i < ids.len() && i < room
        invariant
            i <= ids.len(),
            i <= room,
            row@ =~= seq![sp.hf(sp.bos)] + ids@.take(i as int),
        decreases ids.len() - i,
    {
        row.push(ids[i]);
        i += 1;
    }
    row.push(sp.hf_end());
    assert(ids@.take(ids@.len() as int) =~= ids@);
    assert(row@ =~= row_of(*sp, ids@, max_length as int));
    row
}

impl SpecialIds {
    /// The encoder's id of the start piece.
    pub fn hf_start(&self) -> (r: i64)
        ensures
            r == self.hf(self.bos),
    {
        0
    }

    /// The encoder's id of the end piece.
    pub fn hf_end(&self) -> (r: i64)
        ensures
            r == self.hf(self.eos),
    {
        if self.eos == self.bos {
            0
        } else {
            2
        }
    }
}

/// A row holds the start and the end, begins with id 0, and is no longer than
/// the limit where the limit leaves room for both.
pub proof fn law_row_shape(sp: SpecialIds, ids: Seq<i64>, max_length: int)
    ensures
        row_of(sp, ids, max_length).len() >= 2,
        row_of(sp, ids, max_length)[0] == 0,
        max_length >= 2 ==> row_of(sp, ids, max_length).len() <= max_length,
        sp.eos != sp.bos ==> row_of(sp, ids, max_length).last() == 2,
{
}

/// A row loses nothing that fits. Where the ids fit between the start and the
/// end, the row is the start, all of them and the end. Where they do not, the
/// row is exactly as long as the limit and holds the first ids between the
/// two.
pub proof fn law_row_keeps_what_fits(
    sp: &SpecialIds,
    ids: &Vec<i64>,
    max_length: usize,
    row: Vec<i64>,
)
    requires
        call_ensures(make_row, (sp, ids, max_length), row),
    ensures
        row@.first() == 0,
        row@.last() == (if sp.eos == sp.bos { 0int } else { 2 }),
        ids@.len() + 2 <= max_length ==> row@.len() == ids@.len() + 2 && row@.subrange(
            1,
            row@.len() - 1,
        ) == ids@,
        2 <= max_length < ids@.len() + 2 ==> row@.len() == max_length && row@.subrange(
            1,
            row@.len() - 1,
        ) == ids@.subrange(0, max_length - 2),
        max_length < 2 ==> row@.len() == 2,
{
    assert(row@ == row_of(*sp, ids@, max_length as int));
    assert(ids@.take(ids@.len() as int) =~= ids@);
    if ids@.len() + 2 <= max_length {
        assert(row@.subrange(1, row@.len() - 1) =~= ids@);
    } else if 2 <= max_length {
        assert(row@.subrange(1, row@.len() - 1) =~= ids@.subrange(0, max_length - 2));
    }
}

/// The special ids of a model, given what it says of them.
pub fn special_ids(bos: Option<usize>, eos: Option<usize>, unk: usize) -> (r: Result<
    SpecialIds,
    TokenizerError,
>)
    ensures
        r is Ok == (bos is Some && eos is Some),
        r matches Ok(sp) ==> sp == (SpecialIds {
            bos: bos->0 as i64,
            eos: eos->0 as i64,
            unk: unk as i64,
        }),
        bos is None ==> r matches Err(TokenizerError::MissingBos),
        bos is Some && eos is None ==> r matches Err(TokenizerError::MissingEos),
{
    match (bos, eos) {
        (Some(b), Some(e)) => Ok(
            SpecialIds {
                bos: #[verifier::truncate] (b as i64),
                eos: #[verifier::truncate] (e as i64),
                unk: #[verifier::truncate] (unk as i64),
            },
        ),
        (None, _) => Err(TokenizerError::MissingBos),
        (Some(_), None) => Err(TokenizerError::MissingEos),
    }
}

/// The padding id for what a configuration says of it: 0 where it says
/// nothing.
pub fn pad_id_from(member: Option<u64>) -> (r: i64)
    ensures
        r == (match member {
            Some(v) => v as i64,
            None => 0i64,
        }),
{
    match member {
        Some(v) => #[verifier::truncate] (v as i64),
        None => 0,
    }
}

/// The padding id of a model configuration.
pub fn pad_token_id(config: &[u8]) -> (r: Result<i64, TokenizerError>)
    ensures
        match json_u64(config@, "pad_token_id"@) {
            Some(Some(v)) => r == Ok::<i64, TokenizerError>(v as i64),
            Some(None) => r == Ok::<i64, TokenizerError>(0),
            None => r matches Err(TokenizerError::Config(_)),
        },
{
    match json_member_u64(config, "pad_token_id") {
        Ok(member) => Ok(pad_id_from(member)),
        Err(e) => Err(TokenizerError::Config(e)),
    }
}

/// A tokenizer: a model, its special ids, the padding id and the longest row.
pub struct E5Tokenizer {
    processor: SentencePieceProcessor,
    max_length: usize,
    pad_id: i64,
    ids: SpecialIds,
    rules: TextRules,
}

impl E5Tokenizer {
    /// The rules are those of the model.
    #[verifier::type_invariant]
    spec fn knows_rules(self) -> bool {
        self.rules.are_of(model_of(self.processor))
    }

    /// The serialized model.
    pub closed spec fn model(self) -> Seq<u8> {
        model_of(self.processor)
    }

    /// Ids of the model's special pieces.
    pub closed spec fn specials(self) -> SpecialIds {
        self.ids
    }

    /// The id that rows are padded with.
    pub closed spec fn padding(self) -> i64 {
        self.pad_id
    }

    /// Length of the longest row.
    pub closed spec fn longest(self) -> usize {
        self.max_length
    }

    /// The id that rows are padded with.
    pub fn pad_id(&self) -> (r: i64)
        ensures
            r == self.padding(),
    {
        self.pad_id
    }

    /// Ids of the model's special pieces.
    pub fn ids(&self) -> (r: SpecialIds)
        ensures
            r == self.specials(),
    {
        self.ids
    }

    /// A tokenizer for the bytes of a model and of its configuration. The
    /// configuration is read first.
    pub fn load(model: &[u8], config: &[u8], max_length: usize) -> (r: Result<
        Self,
        TokenizerError,
    >)
        ensures
            match json_u64(config@, "pad_token_id"@) {
                None => r matches Err(TokenizerError::Config(_)),
                Some(pad) => {
                    if !table_fits(model@) {
                        r matches Err(TokenizerError::Table)
                    } else if !is_model(model@) {
                        r matches Err(TokenizerError::Model(_))
                    } else if bos_piece(model@) is None {
                        r matches Err(TokenizerError::MissingBos)
                    } else if eos_piece(model@) is None {
                        r matches Err(TokenizerError::MissingEos)
                    } else {
                        r matches Ok(t) && t.model() == model@ && t.longest() == max_length
                            && t.padding() == (match pad {
                            Some(v) => v as i64,
                            None => 0i64,
                        }) && t.specials() == (SpecialIds {
                            bos: bos_piece(model@)->0 as i64,
                            eos: eos_piece(model@)->0 as i64,
                            unk: unk_piece(model@) as i64,
                        })
                    }
                },
            },
    {
        let pad_id: i64 = match pad_token_id(config) {
            Ok(pad_id) => pad_id,
            Err(e) => return Err(e),
        };
        if !tables_fit(model) {
            return Err(TokenizerError::Table);
        }
        let processor: SentencePieceProcessor = match load_model(model) {
            Ok(processor) => processor,
            Err(e) => return Err(TokenizerError::Model(e)),
        };
        match special_ids(bos_id(&processor), eos_id(&processor), unk_id(&processor)) {
            Ok(ids) => {
                let rules: TextRules = TextRules::read(model);
                Ok(E5Tokenizer { processor, max_length, pad_id, ids, rules })
            },
            Err(e) => Err(e),
        }
    }

    /// Encoder ids of plain text.
    pub fn encode_plain(&self, text: &str) -> (r: Result<Vec<i64>, TokenizerError>)
        ensures
            match ids_of_plain(self.model(), self.specials(), text@) {
                Ok(ids) => r matches Ok(v) && v@ == ids,
                Err(f) => r matches Err(e) && e.tells(f),
            },
    {
        proof {
            use_type_invariant(self);
        }
        if !self.rules.cuts_well(text) {
            return Err(TokenizerError::Cut);
        }
        if self.rules.undoes_merges() {
            if let Ok(normalized) = normalize(&self.processor, text) {
                if !self.rules.merges_end(&normalized) {
                    return Err(TokenizerError::Merges);
                }
            }
        }
        match encode_to_ids(&self.processor, text) {
            Ok(pieces) => Ok(finish_plain(&self.ids, &pieces, text)),
            Err(e) => Err(TokenizerError::Encode(e)),
        }
    }

    /// Encoder ids of a text that may hold added tokens.
    pub fn encode_text(&self, text: &str) -> (r: Result<Vec<i64>, TokenizerError>)
        ensures
            match text_ids(self.model(), self.specials(), text@) {
                Ok(ids) => r matches Ok(v) && v@ == ids,
                Err(f) => r matches Err(e) && e.tells(f),
            },
    {
        let segs: Vec<Segment> = split_added(text);
        let len: usize = text.unicode_len();
        let mut out: Vec<i64> = Vec::new();
        let mut i: usize = 0;
        proof {
            lemma_segments_in_text(text@, 0);
            assert(segs@.take(0) =~= Seq::<Segment>::empty());
        }
        while i < segs.len()
            invariant
                i <= segs.len(),
                segs@ == segments(text@, 0),
                forall|k: int|
                    0 <= k < segs@.len() ==> (#[trigger] segs@[k] matches Segment::Plain(a, b)
                        ==> a <= b <= text@.len()),
                all_ids(self.model(), self.specials(), text@, segs@.take(i as int)) == Ok::<
                    Seq<i64>,
                    Failure,
                >(out@),
            decreases segs.len() - i,
        {
            let ghost before = segs@.take(i as int);
            let ghost upto = segs@.take(i + 1);
            assert(upto.drop_last() =~= before);
            assert(upto.last() == segs@[i as int]);
            match segs[i] {
                Segment::Added(id) => {
                    let ghost held = out@;
                    out.push(id);
                    assert(out@ =~= held + seq![id]);
                },
                Segment::Plain(a, b) => match self.encode_plain(text.substring_char(a, b)) {
                    Ok(mut ids) => {
                        out.append(&mut ids);
                    },
                    Err(e) => {
                        proof {
                            lemma_all_ids_fail(
                                self.model(),
                                self.specials(),
                                text@,
                                segs@,
                                i as int,
                            );
                        }
                        return Err(e);
                    },
                },
            }
            i += 1;
        }
        assert(segs@.take(segs@.len() as int) =~= segs@);
        Ok(out)
    }

    /// The row of each text: start, ids, end; cut to the longest row, not
    /// padded.
    pub fn encode_rows(&self, texts: &[&str]) -> (r: Result<Vec<Vec<i64>>, TokenizerError>)
        ensures
            r is Ok == (forall|i: int|
                0 <= i < texts@.len() ==> text_ids(self.model(), self.specials(), #[trigger] texts@[i]@)
                    is Ok),
            r matches Ok(rows) ==> rows@.len() == texts@.len() && forall|i: int|
                0 <= i < rows@.len() ==> (#[trigger] rows@[i])@ == row_of(
                    self.specials(),
                    text_ids(self.model(), self.specials(), texts@[i]@)->Ok_0,
                    self.longest() as int,
                ),
            r matches Err(e) ==> exists|i: int|
                0 <= i < texts@.len() && (text_ids(
                    self.model(),
                    self.specials(),
                    #[trigger] texts@[i]@,
                ) matches Err(f) && e.tells(f)) && forall|j: int|
                    0 <= j < i ==> text_ids(self.model(), self.specials(), #[trigger] texts@[j]@)
                        is Ok,
    {
        let mut rows: Vec<Vec<i64>> = Vec::new();
        let mut i: usize = 0;
        while i < texts.len()
            invariant
                i <= texts.len(),
                rows@.len() == i,
                forall|k: int|
                    0 <= k < i ==> text_ids(self.model(), self.specials(), #[trigger] texts@[k]@) is Ok,
                forall|k: int|
                    0 <= k < i ==> (#[trigger] rows@[k])@ == row_of(
                        self.specials(),
                        text_ids(self.model(), self.specials(), texts@[k]@)->Ok_0,
                        self.longest() as int,
                    ),
            decreases texts.len() - i,
        {
            match self.encode_text(texts[i]) {
                Ok(ids) => rows.push(make_row(&self.ids, &ids, self.max_length)),
                Err(e) => {
                    assert(text_ids(self.model(), self.specials(), texts@[i as int]@) is Err);
                    return Err(e);
                },
            }
            i += 1;
        }
        Ok(rows)
    }

    /// The row of a trimmed text behind a prefix.
    pub fn encode_prefixed(&self, prefix: &str, text: &str) -> (r: Result<
        Vec<i64>,
        TokenizerError,
    >)
        ensures
            match text_ids(self.model(), self.specials(), prefix@ + trimmed(text@)) {
                Ok(ids) => r matches Ok(row) && row@ == row_of(
                    self.specials(),
                    ids,
                    self.longest() as int,
                ),
                Err(f) => r matches Err(e) && e.tells(f),
            },
    {
        let full: String = String::from_str(prefix).concat(trim(text));
        match self.encode_text(full.as_str()) {
            Ok(ids) => Ok(make_row(&self.ids, &ids, self.max_length)),
            Err(e) => Err(e),
        }
    }
}

} // verus!
