//! What the tokenizer, the packing and the padding come to, on the texts, ids
//! and rows themselves.

use vstd::prelude::*;
use crate::embed::batch::{
    batch_models, flat, goes_before, has_room, is_order, law_every_row_is_in_one_batch,
    law_batches_keep_to_the_budget, law_padding_keeps_rows, packed, pad_rows, pack_batches,
    padded_len, row_models, BatchEncoding,
};
use crate::embed::plan::{
    law_batches_are_disjoint, law_blank_texts_are_skipped, lemma_worded, place_all, place_batch,
    prefix_texts, text_models, worded, CountMismatch, PrefixedTexts, E5_PASSAGE_PREFIX, E5_QUERY_PREFIX,
};
use crate::embed::text::{
    chars_of, is_white, matches_at, trim, trimmed, trimmed_end, trimmed_start, white,
};
use crate::embed::tokenizer::{
    added_at, added_text, all_ids, bos_piece, eos_piece, finish_plain, ids_of_plain, json_u64,
    law_segments_make_the_text, lemma_added_texts, lemma_next_added, make_row, next_added,
    pad_id_from, segment_ids, segments, special_ids, split_added, unk_piece, E5Tokenizer, Failure,
    Segment, SpecialIds, TokenizerError,
};

verus! {

/// White space is tab to carriage return, the space, and what Unicode adds to
/// them.
pub proof fn law_white_space(c: char, r: bool)
    requires
        call_ensures(is_white, (c,), r),
    ensures
        r == white(c),
        r <==> seq![
            '\u{9}',
            '\u{a}',
            '\u{b}',
            '\u{c}',
            '\u{d}',
            ' ',
            '\u{85}',
            '\u{a0}',
            '\u{1680}',
            '\u{2000}',
            '\u{2001}',
            '\u{2002}',
            '\u{2003}',
            '\u{2004}',
            '\u{2005}',
            '\u{2006}',
            '\u{2007}',
            '\u{2008}',
            '\u{2009}',
            '\u{200a}',
            '\u{2028}',
            '\u{2029}',
            '\u{202f}',
            '\u{205f}',
            '\u{3000}',
        ].contains(c),
{
    let all = seq![
        '\u{9}',
        '\u{a}',
        '\u{b}',
        '\u{c}',
        '\u{d}',
        ' ',
        '\u{85}',
        '\u{a0}',
        '\u{1680}',
        '\u{2000}',
        '\u{2001}',
        '\u{2002}',
        '\u{2003}',
        '\u{2004}',
        '\u{2005}',
        '\u{2006}',
        '\u{2007}',
        '\u{2008}',
        '\u{2009}',
        '\u{200a}',
        '\u{2028}',
        '\u{2029}',
        '\u{202f}',
        '\u{205f}',
        '\u{3000}',
    ];
    let u = c as u32;
    if white(c) {
        let i: int = if u <= 0xd {
            u - 9
        } else if u == 0x20 {
            5
        } else if u == 0x85 {
            6
        } else if u == 0xa0 {
            7
        } else if u == 0x1680 {
            8
        } else if u <= 0x200a {
            9 + u - 0x2000
        } else if u == 0x2028 {
            20
        } else if u == 0x2029 {
            21
        } else if u == 0x202f {
            22
        } else if u == 0x205f {
            23
        } else {
            24
        };
        assert(all[i] == c);
    }
}

/// Trimming takes off white space only, and all of it at both ends.
pub proof fn law_trim_takes_off_white_space(text: &str, r: &str)
    requires
        call_ensures(trim, (text,), r),
    ensures
        exists|a: int, b: int|
            {
                &&& 0 <= a <= b <= text@.len()
                &&& r@ == #[trigger] text@.subrange(a, b)
                &&& forall|i: int| 0 <= i < a || b <= i < text@.len() ==> white(#[trigger] text@[i])
                &&& a < b ==> !white(text@[a]) && !white(text@[b - 1])
            },
{
    lemma_trim(text@);
}

proof fn lemma_trim(s: Seq<char>)
    ensures
        exists|a: int, b: int|
            {
                &&& 0 <= a <= b <= s.len()
                &&& trimmed(s) == #[trigger] s.subrange(a, b)
                &&& forall|i: int| 0 <= i < a || b <= i < s.len() ==> white(#[trigger] s[i])
                &&& a < b ==> !white(s[a]) && !white(s[b - 1])
            },
{
    let a = lemma_start(s);
    let t = trimmed_start(s);
    let b = lemma_end(t);
    assert(s.subrange(a, a + b) =~= trimmed(s));
    assert forall|i: int| 0 <= i < a || a + b <= i < s.len() implies white(#[trigger] s[i]) by {
        if a + b <= i {
            assert(t[i - a] == s[i]);
        }
    }
    if b > 0 {
        assert(t[0] == s[a]);
        assert(t[b - 1] == s[a + b - 1]);
    }
}

proof fn lemma_start(s: Seq<char>) -> (a: int)
    ensures
        0 <= a <= s.len(),
        trimmed_start(s) == s.subrange(a, s.len() as int),
        forall|i: int| 0 <= i < a ==> white(#[trigger] s[i]),
        a < s.len() ==> !white(s[a]),
    decreases s.len(),
{
    if s.len() > 0 && white(s[0]) {
        let rest = s.subrange(1, s.len() as int);
        let a = lemma_start(rest);
        assert(s.subrange(a + 1, s.len() as int) =~= rest.subrange(a, rest.len() as int));
        assert forall|i: int| 0 <= i < a + 1 implies white(#[trigger] s[i]) by {
            if i > 0 {
                assert(rest[i - 1] == s[i]);
            }
        }
        if a + 1 < s.len() {
            assert(rest[a] == s[a + 1]);
        }
        a + 1
    } else {
        assert(s.subrange(0, s.len() as int) =~= s);
        0
    }
}

proof fn lemma_end(s: Seq<char>) -> (b: int)
    ensures
        0 <= b <= s.len(),
        trimmed_end(s) == s.subrange(0, b),
        forall|i: int| b <= i < s.len() ==> white(#[trigger] s[i]),
        b > 0 ==> !white(s[b - 1]),
        b > 0 ==> trimmed_end(s)[0] == s[0],
    decreases s.len(),
{
    if s.len() > 0 && white(s.last()) {
        let rest = s.drop_last();
        let b = lemma_end(rest);
        assert(s.subrange(0, b) =~= rest.subrange(0, b));
        assert forall|i: int| b <= i < s.len() implies white(#[trigger] s[i]) by {
            if i < rest.len() {
                assert(rest[i] == s[i]);
            }
        }
        b
    } else {
        assert(s.subrange(0, s.len() as int) =~= s);
        s.len() as int
    }
}

/// A text trims to nothing exactly where it is white space throughout.
pub proof fn law_blank_texts(s: Seq<char>)
    ensures
        trimmed(s).len() == 0 <==> forall|i: int| 0 <= i < s.len() ==> white(#[trigger] s[i]),
{
    lemma_trim(s);
    let (a, b) = choose|a: int, b: int|
        {
            &&& 0 <= a <= b <= s.len()
            &&& trimmed(s) == #[trigger] s.subrange(a, b)
            &&& forall|i: int| 0 <= i < a || b <= i < s.len() ==> white(#[trigger] s[i])
            &&& a < b ==> !white(s[a]) && !white(s[b - 1])
        };
}

/// The encoder's id of a piece: 0 for the start, 2 for the end, 3 for the
/// unknown piece, and one up for every other.
pub proof fn law_piece_ids(sp: &SpecialIds, piece: usize, r: i64)
    requires
        call_ensures(SpecialIds::hf_id, (sp, piece), r),
        piece < 0x7fff_ffff_ffff_ffff,
    ensures
        piece == sp.bos ==> r == 0,
        piece != sp.bos && piece == sp.eos ==> r == 2,
        piece != sp.bos && piece != sp.eos && piece == sp.unk ==> r == 3,
        piece != sp.bos && piece != sp.eos && piece != sp.unk ==> r == piece + 1,
{
}

/// Plain text keeps one id for each piece, in order, and a trailing space
/// comes back as id 6 where the last id is not that already.
pub proof fn law_plain_ids(
    sp: &SpecialIds,
    pieces: &Vec<usize>,
    text: &str,
    r: Vec<i64>,
    i: int,
    id: i64,
)
    requires
        call_ensures(finish_plain, (sp, pieces, text), r),
        0 <= i < pieces@.len(),
        call_ensures(SpecialIds::hf_id, (sp, pieces@[i]), id),
    ensures
        r@[i] == id,
        ({
            let n = pieces@.len() as int;
            let spaced = text@.len() > 0 && white(text@.last());
            &&& r@.len() == n || r@.len() == n + 1
            &&& r@.len() == n + 1 <==> spaced && r@[n - 1] != 6
            &&& r@.len() == n + 1 ==> r@[n] == 6
        }),
{
    let ids = pieces@.map_values(|p: usize| sp.hf(p as i64));
    assert(ids[i] == id);
    assert(ids.last() == ids[ids.len() - 1]);
}

/// A text without pieces has no ids but for a trailing space.
pub proof fn law_no_pieces(sp: &SpecialIds, pieces: &Vec<usize>, text: &str, r: Vec<i64>)
    requires
        call_ensures(finish_plain, (sp, pieces, text), r),
        pieces@.len() == 0,
    ensures
        text@.len() > 0 && white(text@.last()) ==> r@ == seq![6i64],
        !(text@.len() > 0 && white(text@.last())) ==> r@ == Seq::<i64>::empty(),
{
}

/// None of the added tokens begins at `p`.
pub open spec fn no_token_at(s: Seq<char>, p: int) -> bool {
    let rest = s.subrange(p, s.len() as int);
    &&& !"<s>"@.is_prefix_of(rest)
    &&& !"<pad>"@.is_prefix_of(rest)
    &&& !"</s>"@.is_prefix_of(rest)
    &&& !"<unk>"@.is_prefix_of(rest)
    &&& !"<mask>"@.is_prefix_of(rest)
}

/// What a text is split into, put together, is the text. A plain stretch is
/// not empty and no added token begins in it.
pub proof fn law_split_finds_every_token(text: &str, r: Vec<Segment>, k: int)
    requires
        call_ensures(split_added, (text,), r),
        0 <= k < r@.len(),
        text@.len() <= usize::MAX,
    ensures
        r@[k] matches Segment::Plain(a, b) ==> a < b <= text@.len() && forall|p: int|
            a <= p < b ==> #[trigger] no_token_at(text@, p),
        r@[k] matches Segment::Added(id) ==> id == 0 || id == 1 || id == 2 || id == 3 || id
            == 250001,
        crate::embed::tokenizer::joined(text@, r@) == text@,
{
    law_segments_make_the_text(text@, 0);
    assert(text@.subrange(0, text@.len() as int) =~= text@);
    lemma_segments(text@, 0);
}

proof fn lemma_segments(s: Seq<char>, from: int)
    requires
        0 <= from,
        s.len() <= usize::MAX,
    ensures
        forall|k: int|
            0 <= k < segments(s, from).len() ==> {
                &&& #[trigger] segments(s, from)[k] matches Segment::Plain(a, b) ==> a < b
                    <= s.len() && forall|p: int| a <= p < b ==> #[trigger] no_token_at(s, p)
                &&& segments(s, from)[k] matches Segment::Added(id) ==> id == 0 || id == 1 || id
                    == 2 || id == 3 || id == 250001
            },
    decreases s.len() - from,
{
    if from < s.len() {
        lemma_next_added(s, from);
        lemma_added_texts();
        let all = segments(s, from);
        match next_added(s, from) {
            None => {
                assert forall|p: int| from <= p < s.len() implies #[trigger] no_token_at(s, p) by {
                    assert(added_at(s, p, 0) is None);
                    lemma_no_token(s, p);
                }
            },
            Some((at, k)) => {
                let e = at + added_text(k).len();
                lemma_segments(s, e);
                let rest = segments(s, e);
                let skipped = all.len() - rest.len();
                assert forall|p: int| from <= p < at implies #[trigger] no_token_at(s, p) by {
                    assert(added_at(s, p, 0) is None);
                    lemma_no_token(s, p);
                }
                assert forall|i: int| 0 <= i < all.len() implies {
                    &&& #[trigger] all[i] matches Segment::Plain(a, b) ==> a < b <= s.len()
                        && forall|p: int| a <= p < b ==> #[trigger] no_token_at(s, p)
                    &&& all[i] matches Segment::Added(id) ==> id == 0 || id == 1 || id == 2 || id
                        == 3 || id == 250001
                } by {
                    if i >= skipped {
                        assert(all[i] == rest[i - skipped]);
                    }
                }
            },
        }
    }
}

proof fn lemma_no_token(s: Seq<char>, p: int)
    requires
        0 <= p < s.len(),
        added_at(s, p, 0) is None,
    ensures
        no_token_at(s, p),
{
    reveal_with_fuel(added_at, 6);
    let rest = s.subrange(p, s.len() as int);
    assert forall|part: Seq<char>| #[trigger] part.is_prefix_of(rest) implies p + part.len()
        <= s.len() && s.subrange(p, p + part.len()) == part by {
        assert(s.subrange(p, p + part.len()) =~= rest.subrange(0, part.len() as int));
    }
}

/// The special ids are those that the model gives.
pub proof fn law_special_ids(
    bos: Option<usize>,
    eos: Option<usize>,
    unk: usize,
    r: Result<SpecialIds, TokenizerError>,
)
    requires
        call_ensures(special_ids, (bos, eos, unk), r),
        unk < 0x7fff_ffff,
        bos matches Some(b) ==> b < 0x7fff_ffff,
        eos matches Some(e) ==> e < 0x7fff_ffff,
    ensures
        bos is None ==> r matches Err(TokenizerError::MissingBos),
        bos is Some && eos is None ==> r matches Err(TokenizerError::MissingEos),
        bos is Some && eos is Some ==> r is Ok,
        r matches Ok(sp) ==> bos == Some(sp.bos as usize) && eos == Some(sp.eos as usize) && unk
            == sp.unk,
{
}

/// The padding id is the one that the configuration names, and 0 where it
/// names none.
pub proof fn law_padding_id(member: Option<u64>, r: i64)
    requires
        call_ensures(pad_id_from, (member,), r),
    ensures
        member is None ==> r == 0,
        member matches Some(v) && v < 0x7fff_ffff_ffff_ffff ==> r == member->0,
{
}

/// The ids of a text are those of its segments in order: an added token gives
/// its own id and no other, and a plain stretch what the model gives it.
pub proof fn law_text_ids_follow_the_segments(
    t: &E5Tokenizer,
    text: &str,
    segs: Vec<Segment>,
    parts: Seq<Seq<i64>>,
    r: Result<Vec<i64>, TokenizerError>,
)
    requires
        call_ensures(split_added, (text,), segs),
        call_ensures(E5Tokenizer::encode_text, (t, text), r),
        parts.len() == segs@.len(),
        forall|k: int|
            0 <= k < segs@.len() ==> (#[trigger] segs@[k] matches Segment::Added(id) ==> parts[k]
                == seq![id]),
        forall|k: int|
            0 <= k < segs@.len() ==> (#[trigger] segs@[k] matches Segment::Plain(a, b)
                ==> ids_of_plain(
                t.model(),
                t.specials(),
                text@.subrange(a as int, b as int),
            ) == Ok::<Seq<i64>, Failure>(parts[k])),
    ensures
        r matches Ok(v) && v@ == parts.flatten_alt(),
{
    lemma_all_ids(t.model(), t.specials(), text@, segs@, parts);
}

proof fn lemma_all_ids(
    model: Seq<u8>,
    sp: SpecialIds,
    s: Seq<char>,
    segs: Seq<Segment>,
    parts: Seq<Seq<i64>>,
)
    requires
        parts.len() == segs.len(),
        forall|k: int|
            0 <= k < segs.len() ==> (#[trigger] segs[k] matches Segment::Added(id) ==> parts[k]
                == seq![id]),
        forall|k: int|
            0 <= k < segs.len() ==> (#[trigger] segs[k] matches Segment::Plain(a, b)
                ==> ids_of_plain(model, sp, s.subrange(a as int, b as int)) == Ok::<
                Seq<i64>,
                Failure,
            >(parts[k])),
    ensures
        all_ids(model, sp, s, segs) == Ok::<Seq<i64>, Failure>(parts.flatten_alt()),
    decreases segs.len(),
{
    if segs.len() > 0 {
        lemma_all_ids(model, sp, s, segs.drop_last(), parts.drop_last());
        assert(segment_ids(model, sp, s, segs.last()) == Ok::<Seq<i64>, Failure>(parts.last()));
    }
}

/// A text in which no added token stands has the ids of plain text.
pub proof fn law_text_without_tokens(
    t: &E5Tokenizer,
    text: &str,
    plain: Result<Vec<i64>, TokenizerError>,
    whole: Result<Vec<i64>, TokenizerError>,
)
    requires
        call_ensures(E5Tokenizer::encode_plain, (t, text), plain),
        call_ensures(E5Tokenizer::encode_text, (t, text), whole),
        0 < text@.len() <= usize::MAX,
        next_added(text@, 0) is None,
    ensures
        plain is Ok == whole is Ok,
        plain is Ok ==> plain->Ok_0@ == whole->Ok_0@,
{
    let s = text@;
    let segs = segments(s, 0);
    assert(segs =~= seq![Segment::Plain(0, s.len() as usize)]);
    assert(segs.drop_last() =~= Seq::<Segment>::empty());
    assert(s.subrange(0, s.len() as int) =~= s);
    let model = t.model();
    let sp = t.specials();
    assert(all_ids(model, sp, s, segs.drop_last()) == Ok::<Seq<i64>, Failure>(Seq::empty()));
    let ids = ids_of_plain(model, sp, s);
    assert(segment_ids(model, sp, s, segs.last()) == ids);
    if ids is Ok {
        assert(Seq::<i64>::empty() + ids->Ok_0 =~= ids->Ok_0);
    }
}

/// Each text of a list gets the row of its own ids.
pub proof fn law_rows_of_texts(
    t: &E5Tokenizer,
    texts: &[&str],
    rows: Result<Vec<Vec<i64>>, TokenizerError>,
    i: int,
    ids: Vec<i64>,
    sp: SpecialIds,
    longest: usize,
    row: Vec<i64>,
)
    requires
        call_ensures(E5Tokenizer::encode_rows, (t, texts), rows),
        rows is Ok,
        0 <= i < texts@.len(),
        call_ensures(
            E5Tokenizer::encode_text,
            (t, texts@[i]),
            Ok::<Vec<i64>, TokenizerError>(ids),
        ),
        call_ensures(E5Tokenizer::ids, (t,), sp),
        longest == t.longest(),
        call_ensures(make_row, (&sp, &ids, longest), row),
    ensures
        rows->Ok_0@.len() == texts@.len(),
        rows->Ok_0@[i]@ == row@,
{
    assert(texts@[i]@ == texts@[i]@);
    assert(rows->Ok_0@[i] == rows->Ok_0@[i]);
}

/// The row behind a prefix is the row of the prefix and the trimmed text, one
/// after the other.
pub proof fn law_prefixed_rows(
    t: &E5Tokenizer,
    prefix: &str,
    text: &str,
    bare: &str,
    full: &str,
    r: Result<Vec<i64>, TokenizerError>,
    ids: Vec<i64>,
    sp: SpecialIds,
    longest: usize,
    row: Vec<i64>,
)
    requires
        call_ensures(E5Tokenizer::encode_prefixed, (t, prefix, text), r),
        call_ensures(trim, (text,), bare),
        full@ == prefix@ + bare@,
        call_ensures(E5Tokenizer::encode_text, (t, full), Ok::<Vec<i64>, TokenizerError>(ids)),
        call_ensures(E5Tokenizer::ids, (t,), sp),
        longest == t.longest(),
        call_ensures(make_row, (&sp, &ids, longest), row),
    ensures
        r matches Ok(v) && v@ == row@,
{
}

/// What is encoded: the texts that hold a character other than white space, in
/// their order, each trimmed and behind the prefix.
pub proof fn law_prefixed_texts(
    prefix: &str,
    texts: &[&str],
    r: PrefixedTexts,
    k: int,
    bare: &str,
    i: int,
)
    requires
        call_ensures(prefix_texts, (prefix, texts), r),
        texts@.len() <= usize::MAX,
        0 <= k < r.indices@.len(),
        call_ensures(trim, (texts@[r.indices@[k] as int],), bare),
        0 <= i < texts@.len(),
    ensures
        r.texts@.len() == r.indices@.len(),
        r.indices@[k] < texts@.len(),
        k > 0 ==> r.indices@[k - 1] < r.indices@[k],
        r.texts@[k]@ == prefix@ + bare@,
        r.indices@.contains(i as usize) <==> exists|c: int|
            0 <= c < texts@[i]@.len() && !white(#[trigger] texts@[i]@[c]),
{
    let m = text_models(texts@);
    lemma_worded(m, m.len());
    law_blank_texts_are_skipped(m, i);
    law_blank_texts(m[i]);
    assert(m[i] == texts@[i]@);
    assert(r.texts@[k] == r.texts@[k]);
    if k > 0 {
        assert(worded(m, m.len())[k - 1] < worded(m, m.len())[k]);
    }
}

/// A batch that was closed had no room for another row.
proof fn lemma_closed(lens: Seq<usize>, order: Seq<usize>, max_tokens: int, upto: nat)
    ensures
        forall|b: int|
            0 <= b < packed(lens, order, max_tokens, upto).len() - 1 ==> !has_room(
                lens,
                #[trigger] packed(lens, order, max_tokens, upto)[b],
                max_tokens,
            ),
    decreases upto,
{
    if upto > 0 {
        lemma_closed(lens, order, max_tokens, (upto - 1) as nat);
        let before = packed(lens, order, max_tokens, (upto - 1) as nat);
        let all = packed(lens, order, max_tokens, upto);
        assert forall|b: int| 0 <= b < all.len() - 1 implies !has_room(
            lens,
            #[trigger] all[b],
            max_tokens,
        ) by {
            assert(all[b] == before[b]);
        }
    }
}

/// A batch has a row, at most 256 of them, and more than one only where the
/// padded rectangle keeps to the budget; no row is longer than the first, and
/// a batch is closed only where another row would break a limit.
pub proof fn law_batches(
    lens: &[usize],
    max_tokens: usize,
    batches: Vec<Vec<usize>>,
    b: int,
    r: int,
)
    requires
        call_ensures(pack_batches, (lens, max_tokens), batches),
        0 <= b < batches@.len(),
        0 <= r < batches@[b]@.len() || r == 0,
        lens@.len() <= usize::MAX,
    ensures
        ({
            let batch = batches@[b]@;
            let rows = batch.len() as int;
            let width = if lens@[batch[0] as int] == 0 {
                1
            } else {
                lens@[batch[0] as int] as int
            };
            &&& 1 <= rows <= 256
            &&& rows > 1 ==> rows * width <= max_tokens
            &&& batch[r] < lens@.len()
            &&& lens@[batch[r] as int] <= lens@[batch[0] as int]
            &&& b + 1 < batches@.len() ==> rows == 256 || (rows + 1) * width > max_tokens
        }),
{
    let order = choose|order: Seq<usize>|
        is_order(lens@, order, 0, lens@.len() as int) && batch_models(batches@)
            == #[trigger] packed(lens@, order, max_tokens as int, lens@.len());
    let all = packed(lens@, order, max_tokens as int, lens@.len());
    assert(all[b] == batches@[b]@);
    lemma_closed(lens@, order, max_tokens as int, lens@.len());
    lemma_first_in_limits(lens@, order, max_tokens as int, b);
    law_batches_keep_to_the_budget(lens@, order, max_tokens as int, b, r);
    law_every_row_is_in_one_batch(lens@, order, max_tokens as int);
    lemma_in_flat(all, b, r);
    let p = choose|p: int| 0 <= p < order.len() && order[p] == all[b][r];
    lemma_in_flat(all, b, 0);
    let p0 = choose|p: int| 0 <= p < order.len() && order[p] == all[b][0];
    if lens@[all[b][r] as int] > lens@[all[b][0] as int] {
        assert(padded_len(lens@, all[b]) == 1);
        assert(lens@[all[b][0] as int] == 0);
        assert(lens@[all[b][r] as int] == 1);
        crate::embed::batch::lemma_packed(lens@, order, max_tokens as int, lens@.len());
        assert(goes_before(lens@, all[b][0] as int, all[b][r] as int));
    }
}

proof fn lemma_first_in_limits(lens: Seq<usize>, order: Seq<usize>, max_tokens: int, b: int)
    requires
        is_order(lens, order, 0, lens.len() as int),
        0 <= b < packed(lens, order, max_tokens, lens.len()).len(),
    ensures
        packed(lens, order, max_tokens, lens.len())[b].len() > 0,
{
    crate::embed::batch::lemma_packed(lens, order, max_tokens, lens.len());
}

/// A row of a batch is a row of all batches.
proof fn lemma_in_flat(all: Seq<Seq<usize>>, b: int, r: int)
    requires
        0 <= b < all.len(),
        0 <= r < all[b].len(),
    ensures
        flat(all).contains(all[b][r]),
    decreases all.len(),
{
    let head = all.drop_last();
    if b < head.len() {
        lemma_in_flat(head, b, r);
        let p = choose|p: int| 0 <= p < flat(head).len() && flat(head)[p] == all[b][r];
        assert(flat(all)[p] == all[b][r]);
    } else {
        assert(flat(all)[flat(head).len() + r] == all[b][r]);
    }
}

/// A row of all batches is a row of one of them.
proof fn lemma_flat_has(all: Seq<Seq<usize>>, x: usize) -> (at: (int, int))
    requires
        flat(all).contains(x),
    ensures
        0 <= at.0 < all.len(),
        0 <= at.1 < all[at.0].len(),
        all[at.0][at.1] == x,
    decreases all.len(),
{
    let p = choose|p: int| 0 <= p < flat(all).len() && flat(all)[p] == x;
    let head = all.drop_last();
    if p < flat(head).len() {
        assert(flat(head)[p] == x);
        let (b, r) = lemma_flat_has(head, x);
        assert(all[b] == head[b]);
        (b, r)
    } else {
        assert(all.last()[p - flat(head).len()] == x);
        (all.len() - 1, p - flat(head).len())
    }
}

/// Every row is in a batch, and in one place only.
pub proof fn law_batches_hold_every_row(
    lens: &[usize],
    max_tokens: usize,
    batches: Vec<Vec<usize>>,
    i: usize,
)
    requires
        call_ensures(pack_batches, (lens, max_tokens), batches),
        i < lens@.len(),
    ensures
        exists|b: int, r: int|
            0 <= b < batches@.len() && 0 <= r < batches@[b]@.len() && #[trigger] batches@[b]@[r]
                == i,
        forall|b: int, r: int, c: int, q: int|
            #![trigger batches@[b]@[r], batches@[c]@[q]]
            0 <= b < batches@.len() && 0 <= r < batches@[b]@.len() && 0 <= c < batches@.len() && 0
                <= q < batches@[c]@.len() && batches@[b]@[r] == batches@[c]@[q] ==> b == c && r
                == q,
{
    let order = choose|order: Seq<usize>|
        is_order(lens@, order, 0, lens@.len() as int) && batch_models(batches@)
            == #[trigger] packed(lens@, order, max_tokens as int, lens@.len());
    let all = packed(lens@, order, max_tokens as int, lens@.len());
    law_every_row_is_in_one_batch(lens@, order, max_tokens as int);
    assert(order.contains((i as int) as usize));
    let (b, r) = lemma_flat_has(all, i);
    assert(all[b] == batches@[b]@);
    assert(batches@[b]@[r] == i);
    assert forall|b: int, r: int, c: int, q: int|
        #![trigger batches@[b]@[r], batches@[c]@[q]]
        0 <= b < batches@.len() && 0 <= r < batches@[b]@.len() && 0 <= c < batches@.len() && 0 <= q
            < batches@[c]@.len() && batches@[b]@[r] == batches@[c]@[q] implies b == c && r == q by {
        assert(all[b] == batches@[b]@ && all[c] == batches@[c]@);
        law_batches_are_disjoint(all, b, r, c, q);
    }
}

/// The rectangle holds each chosen row at the left of a row of its own, with a
/// mask of ones, and padding with a mask of zeros to the right of it; it is as
/// wide as the longest of them, and never empty.
pub proof fn law_rectangle(
    rows: &Vec<Vec<i64>>,
    indices: &[usize],
    pad_id: i64,
    e: BatchEncoding,
    r: int,
    c: int,
)
    requires
        call_ensures(pad_rows, (rows, indices, pad_id), e),
        0 <= r < indices@.len(),
        indices@[r] < rows@.len(),
        0 <= c < e.encoding_length,
    ensures
        e.batch_size == indices@.len(),
        e.encoding_length >= 1,
        e.encoding_length >= rows@[indices@[r] as int]@.len(),
        e.encoding_length == 1 || exists|k: int|
            0 <= k < indices@.len() && row_models(rows@)[#[trigger] indices@[k] as int].len()
                == e.encoding_length,
        e.input_ids@.len() == indices@.len() * e.encoding_length,
        e.attention_mask@.len() == indices@.len() * e.encoding_length,
        e.token_type_ids@.len() == indices@.len() * e.encoding_length,
        ({
            let row = rows@[indices@[r] as int]@;
            let at = r * e.encoding_length + c;
            &&& c < row.len() ==> e.input_ids@[at] == row[c] && e.attention_mask@[at] == 1
            &&& c >= row.len() ==> e.input_ids@[at] == pad_id && e.attention_mask@[at] == 0
            &&& e.token_type_ids@[at] == 0
        }),
{
    law_padding_keeps_rows(e, row_models(rows@), indices@, pad_id, r, c);
    assert(row_models(rows@)[indices@[r] as int] == rows@[indices@[r] as int]@);
}

/// A part stands at a place exactly where the text from there on begins with
/// it.
pub proof fn law_parts(s: &Vec<char>, part: &Vec<char>, pos: usize, r: bool)
    requires
        call_ensures(matches_at, (s, part, pos), r),
        pos <= s@.len(),
    ensures
        r <==> part@.is_prefix_of(s@.subrange(pos as int, s@.len() as int)),
{
    let rest = s@.subrange(pos as int, s@.len() as int);
    if pos + part@.len() <= s@.len() {
        assert(rest.subrange(0, part@.len() as int) =~= s@.subrange(
            pos as int,
            pos + part@.len(),
        ));
    }
}

/// The characters of a text are those of the text, in order.
pub proof fn law_characters(text: &str, v: Vec<char>)
    requires
        call_ensures(chars_of, (text,), v),
    ensures
        v@ == text@,
{
}

/// A passage and a query are told apart by what goes before them.
pub proof fn law_prefixes()
    ensures
        E5_PASSAGE_PREFIX@ == "passage: "@,
        E5_QUERY_PREFIX@ == "query: "@,
{
}

/// A loaded tokenizer encodes by the model it was given, cuts rows at the
/// length it was given, and knows the special pieces of the model.
pub proof fn law_loading(
    model: &[u8],
    config: &[u8],
    max_length: usize,
    t: E5Tokenizer,
    sp: SpecialIds,
    pad: i64,
)
    requires
        call_ensures(
            E5Tokenizer::load,
            (model, config, max_length),
            Ok::<E5Tokenizer, TokenizerError>(t),
        ),
        call_ensures(E5Tokenizer::ids, (&t,), sp),
        call_ensures(E5Tokenizer::pad_id, (&t,), pad),
    ensures
        t.model() == model@,
        t.longest() == max_length,
        bos_piece(model@) matches Some(b) && (b < 0x7fff_ffff ==> sp.bos == b),
        eos_piece(model@) matches Some(e) && (e < 0x7fff_ffff ==> sp.eos == e),
        unk_piece(model@) < 0x7fff_ffff ==> sp.unk == unk_piece(model@),
        json_u64(config@, "pad_token_id"@) matches Some(member) && (member is None ==> pad == 0) && (
        member matches Some(v) ==> (v < 0x7fff_ffff ==> pad == v)),
{
}

/// The vectors of a batch go to the places of its rows, and no other place
/// changes; another number of vectors than rows is refused.
pub proof fn law_placing<T>(
    out: &mut Vec<T>,
    rows: &[usize],
    vectors: Vec<T>,
    r: Result<(), CountMismatch>,
    k: int,
    i: int,
)
    requires
        call_ensures(place_batch::<T>, (out, rows, vectors), r),
        0 <= k < rows@.len(),
        0 <= i < old(out)@.len(),
        old(out)@.len() <= usize::MAX,
    ensures
        r is Ok <==> vectors@.len() == rows@.len(),
        r is Ok ==> final(out)@[rows@[k] as int] == vectors@[k],
        r is Ok && (forall|j: int| 0 <= j < rows@.len() ==> #[trigger] rows@[j] != i)
            ==> final(out)@[i] == old(out)@[i],
        r matches Err(e) ==> e.vectors == vectors@.len() && e.rows == rows@.len() && final(out)@
            == old(out)@,
{
    if forall|j: int| 0 <= j < rows@.len() ==> #[trigger] rows@[j] != i {
        assert(!rows@.contains(i as usize));
    }
}

/// Over all batches, each row gets its own vector.
pub proof fn law_placing_all<T>(
    out: Vec<T>,
    batches: &Vec<Vec<usize>>,
    vectors: Vec<Vec<T>>,
    v: Vec<T>,
    b: int,
    k: int,
)
    requires
        call_ensures(place_all::<T>, (out, batches, vectors), Ok::<Vec<T>, CountMismatch>(v)),
        0 <= b < batches@.len(),
        0 <= k < batches@[b]@.len(),
    ensures
        v@.len() == out@.len(),
        v@[batches@[b]@[k] as int] == vectors@[b]@[k],
{
}

/// A row of an earlier batch, or of an earlier place of a batch, comes earlier
/// over all batches.
proof fn lemma_flat_order(all: Seq<Seq<usize>>, b: int, r: int, c: int, q: int) -> (at: (int, int))
    requires
        0 <= b < all.len(),
        0 <= r < all[b].len(),
        0 <= c < all.len(),
        0 <= q < all[c].len(),
        b < c || b == c && r < q,
    ensures
        0 <= at.0 < at.1 < flat(all).len(),
        flat(all)[at.0] == all[b][r],
        flat(all)[at.1] == all[c][q],
    decreases all.len(),
{
    let head = all.drop_last();
    let n = flat(head).len() as int;
    if c < head.len() {
        let (x, y) = lemma_flat_order(head, b, r, c, q);
        assert(flat(all)[x] == flat(head)[x] && flat(all)[y] == flat(head)[y]);
        (x, y)
    } else if b < head.len() {
        lemma_in_flat(head, b, r);
        let x = choose|x: int| 0 <= x < flat(head).len() && flat(head)[x] == all[b][r];
        assert(flat(all)[x] == flat(head)[x]);
        assert(flat(all)[n + q] == all[c][q]);
        (x, n + q)
    } else {
        assert(flat(all)[n + r] == all[b][r]);
        assert(flat(all)[n + q] == all[c][q]);
        (n + r, n + q)
    }
}

/// Over all batches the rows go from the longest to the shortest, and rows of
/// one length in their order.
pub proof fn law_longest_rows_first(
    lens: &[usize],
    max_tokens: usize,
    batches: Vec<Vec<usize>>,
    b: int,
    r: int,
    c: int,
    q: int,
)
    requires
        call_ensures(pack_batches, (lens, max_tokens), batches),
        0 <= b < batches@.len(),
        0 <= r < batches@[b]@.len(),
        0 <= c < batches@.len(),
        0 <= q < batches@[c]@.len(),
        b < c || b == c && r < q,
    ensures
        ({
            let x = batches@[b]@[r];
            let y = batches@[c]@[q];
            lens@[x as int] > lens@[y as int] || (lens@[x as int] == lens@[y as int] && x < y)
        }),
{
    let order = choose|order: Seq<usize>|
        is_order(lens@, order, 0, lens@.len() as int) && batch_models(batches@)
            == #[trigger] packed(lens@, order, max_tokens as int, lens@.len());
    let all = packed(lens@, order, max_tokens as int, lens@.len());
    assert(all[b] == batches@[b]@ && all[c] == batches@[c]@);
    law_every_row_is_in_one_batch(lens@, order, max_tokens as int);
    let (x, y) = lemma_flat_order(all, b, r, c, q);
    assert(goes_before(lens@, order[x] as int, order[y] as int));
}

} // verus!
