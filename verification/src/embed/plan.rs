//! Which texts are encoded, and where their vectors go.

use vstd::prelude::*;
use vstd::string::StringExecFns;
use crate::embed::batch::{batch_models, flat};
use crate::embed::text::{trim, trimmed};

verus! {

/// Width of a text embedding.
pub const TEXT_EMB_DIM: usize = 384;

/// What goes before a text that is searched for.
pub const E5_PASSAGE_PREFIX: &'static str = "passage: ";

/// What goes before a text that is searched with.
pub const E5_QUERY_PREFIX: &'static str = "query: ";

/// Longest row, start and end included.
pub const DEFAULT_MAX_LENGTH: usize = 512;

/// Token budget of one batch.
pub const DEFAULT_MAX_BATCH_TOKENS: usize = 4096;

/// Models of a list of texts.
pub open spec fn text_models(texts: Seq<&str>) -> Seq<Seq<char>> {
    texts.map_values(|t: &str| t@)
}

/// Of the first `upto` texts, those that are not only white space.
pub open spec fn worded(texts: Seq<Seq<char>>, upto: nat) -> Seq<usize>
    decreases upto,
{
    if upto == 0 {
        Seq::empty()
    } else {
        let before = worded(texts, (upto - 1) as nat);
        if trimmed(texts[upto - 1]).len() > 0 {
            before.push((upto - 1) as usize)
        } else {
            before
        }
    }
}

/// Texts to encode, and the places of their originals.
pub struct PrefixedTexts {
    pub texts: Vec<String>,
    pub indices: Vec<usize>,
}

/// The texts that are not only white space, trimmed and prefixed. The others
/// are not encoded.
pub fn prefix_texts(prefix: &str, texts: &[&str]) -> (r: PrefixedTexts)
    ensures
        r.indices@ == worded(text_models(texts@), texts@.len()),
        r.texts@.len() == r.indices@.len(),
        forall|k: int|
            0 <= k < r.texts@.len() ==> (#[trigger] r.texts@[k])@ == prefix@ + trimmed(
                texts@[r.indices@[k] as int]@,
            ),
{
    let ghost m = text_models(texts@);
    let mut out: Vec<String> = Vec::new();
    let mut indices: Vec<usize> = Vec::new();
    let mut i: usize = 0;
    while i < texts.len()
        invariant
            i <= texts.len(),
            m == text_models(texts@),
            indices@ == worded(m, i as nat),
            out@.len() == indices@.len(),
            forall|k: int|
                0 <= k < out@.len() ==> (#[trigger] out@[k])@ == prefix@ + trimmed(
                    texts@[indices@[k] as int]@,
                ),
        decreases texts.len() - i,
    {
        assert(m[i as int] == texts@[i as int]@);
        let t: &str = trim(texts[i]);
        if t.unicode_len() > 0 {
            out.push(String::from_str(prefix).concat(t));
            indices.push(i);
        }
        i += 1;
    }
    PrefixedTexts { texts: out, indices }
}

/// The places of the encoded texts are in range and in order.
pub proof fn lemma_worded(texts: Seq<Seq<char>>, upto: nat)
    requires
        upto <= usize::MAX,
    ensures
        forall|k: int|
            0 <= k < worded(texts, upto).len() ==> #[trigger] worded(texts, upto)[k] < upto
                && trimmed(texts[worded(texts, upto)[k] as int]).len() > 0,
        forall|j: int, k: int|
            0 <= j < k < worded(texts, upto).len() ==> #[trigger] worded(texts, upto)[j]
                < #[trigger] worded(texts, upto)[k],
    decreases upto,
{
    if upto > 0 {
        lemma_worded(texts, (upto - 1) as nat);
        let before = worded(texts, (upto - 1) as nat);
        let all = worded(texts, upto);
        assert forall|k: int| 0 <= k < all.len() implies #[trigger] all[k] < upto && trimmed(
            texts[all[k] as int],
        ).len() > 0 by {
            if k < before.len() {
                assert(all[k] == before[k]);
            }
        }
        assert forall|j: int, k: int| 0 <= j < k < all.len() implies #[trigger] all[j]
            < #[trigger] all[k] by {
            assert(all[j] == before[j]);
            if k < before.len() {
                assert(all[k] == before[k]);
            }
        }
    }
}

/// A text is encoded exactly where it is not only white space, and once.
pub proof fn law_blank_texts_are_skipped(texts: Seq<Seq<char>>, i: int)
    requires
        0 <= i < texts.len(),
        texts.len() <= usize::MAX,
    ensures
        worded(texts, texts.len()).contains(i as usize) == (trimmed(texts[i]).len() > 0),
        worded(texts, texts.len()).no_duplicates(),
{
    lemma_worded(texts, texts.len());
    if trimmed(texts[i]).len() > 0 {
        lemma_worded_has(texts, texts.len(), i);
    }
    let w = worded(texts, texts.len());
    assert forall|a: int, b: int| 0 <= a < w.len() && 0 <= b < w.len() && a != b implies w[a]
        != w[b] by {
        if a < b {
            assert(w[a] < w[b]);
        } else {
            assert(w[b] < w[a]);
        }
    }
}

proof fn lemma_worded_has(texts: Seq<Seq<char>>, upto: nat, i: int)
    requires
        0 <= i < upto <= texts.len(),
        trimmed(texts[i]).len() > 0,
    ensures
        worded(texts, upto).contains(i as usize),
    decreases upto,
{
    let all = worded(texts, upto);
    if i == upto - 1 {
        assert(all[all.len() - 1] == i as usize);
    } else {
        lemma_worded_has(texts, (upto - 1) as nat, i);
        let before = worded(texts, (upto - 1) as nat);
        let k = choose|k: int| 0 <= k < before.len() && before[k] == i as usize;
        assert(all[k] == i as usize);
    }
}

/// An encoder answered a batch with another number of vectors than it has
/// rows.
#[derive(Clone, Copy, Debug, PartialEq, Eq, Structural)]
pub struct CountMismatch {
    pub vectors: usize,
    pub rows: usize,
}

/// `out` with `values[k]` at `places[k]` for the first `upto` of them.
pub open spec fn placed<T>(out: Seq<T>, places: Seq<usize>, values: Seq<T>, upto: nat) -> Seq<T>
    decreases upto,
{
    if upto == 0 {
        out
    } else {
        placed(out, places, values, (upto - 1) as nat).update(
            places[upto - 1] as int,
            values[upto - 1],
        )
    }
}

proof fn lemma_placed<T>(out: Seq<T>, places: Seq<usize>, values: Seq<T>, upto: nat)
    requires
        upto <= places.len(),
        upto <= values.len(),
        places.no_duplicates(),
        forall|k: int| 0 <= k < places.len() ==> #[trigger] places[k] < out.len(),
    ensures
        placed(out, places, values, upto).len() == out.len(),
        forall|k: int|
            0 <= k < upto ==> placed(out, places, values, upto)[#[trigger] places[k] as int]
                == values[k],
        forall|i: int|
            0 <= i < out.len() && (forall|k: int| 0 <= k < upto ==> #[trigger] places[k] != i)
                ==> #[trigger] placed(out, places, values, upto)[i] == out[i],
    decreases upto,
{
    if upto > 0 {
        lemma_placed(out, places, values, (upto - 1) as nat);
        let before = placed(out, places, values, (upto - 1) as nat);
        let all = placed(out, places, values, upto);
        assert forall|k: int| 0 <= k < upto implies all[#[trigger] places[k] as int]
            == values[k] by {
            if k < upto - 1 {
                assert(places[k] != places[upto - 1]);
                assert(before[places[k] as int] == values[k]);
            }
        }
        assert forall|i: int|
            0 <= i < out.len() && (forall|k: int| 0 <= k < upto ==> #[trigger] places[k]
                != i) implies #[trigger] all[i] == out[i] by {
            assert(places[upto - 1] != i);
            assert(before[i] == out[i]);
        }
    }
}

/// Puts the vectors of a batch at the places of its rows, or says that their
/// number is wrong.
pub fn place_batch<T>(out: &mut Vec<T>, rows: &[usize], vectors: Vec<T>) -> (r: Result<
    (),
    CountMismatch,
>)
    requires
        rows@.no_duplicates(),
        forall|k: int| 0 <= k < rows@.len() ==> #[trigger] rows@[k] < old(out)@.len(),
    ensures
        r is Ok == (vectors@.len() == rows@.len()),
        r matches Err(e) ==> e.vectors == vectors@.len() && e.rows == rows@.len() && final(out)@
            == old(out)@,
        r is Ok ==> final(out)@ == placed(old(out)@, rows@, vectors@, rows@.len()),
        r is Ok ==> final(out)@.len() == old(out)@.len(),
        r is Ok ==> forall|k: int|
            0 <= k < rows@.len() ==> final(out)@[#[trigger] rows@[k] as int] == vectors@[k],
        r is Ok ==> forall|i: int|
            0 <= i < old(out)@.len() && !rows@.contains(i as usize) ==> #[trigger] final(out)@[i]
                == old(out)@[i],
{
    if vectors.len() != rows.len() {
        return Err(CountMismatch { vectors: vectors.len(), rows: rows.len() });
    }
    let ghost all = vectors@;
    let ghost out0 = out@;
    let mut left: Vec<T> = vectors;
    let mut k: usize = 0;
    while k < rows.len()
        invariant
            k <= rows.len(),
            all.len() == rows@.len(),
            left@ == all.subrange(k as int, all.len() as int),
            out@.len() == out0.len(),
            forall|j: int| 0 <= j < rows@.len() ==> #[trigger] rows@[j] < out0.len(),
            out@ == placed(out0, rows@, all, k as nat),
        decreases rows.len() - k,
    {
        let v: T = left.remove(0);
        assert(left@ =~= all.subrange(k + 1, all.len() as int));
        let at: usize = rows[k];
        out[at] = v;
        k += 1;
    }
    proof {
        lemma_placed(out0, rows@, all, rows@.len());
        assert forall|i: int|
            0 <= i < out0.len() && !rows@.contains(i as usize) implies #[trigger] out@[i]
            == out0[i] by {
            assert forall|j: int| 0 <= j < rows@.len() implies #[trigger] rows@[j] != i by {
                if rows@[j] == i {
                    assert(rows@[j] == i as usize);
                }
            }
        }
    }
    Ok(())
}

/// Every text ends up with its own vector: the encoded ones with the vector of
/// their row, and those that are only white space with what stood there before.
pub proof fn law_each_text_gets_its_vector<T>(
    texts: Seq<Seq<char>>,
    start: Seq<T>,
    vectors: Seq<T>,
)
    requires
        texts.len() <= usize::MAX,
        start.len() == texts.len(),
        vectors.len() == worded(texts, texts.len()).len(),
    ensures
        ({
            let places = worded(texts, texts.len());
            let result = placed(start, places, vectors, places.len());
            &&& result.len() == texts.len()
            &&& forall|k: int|
                0 <= k < places.len() ==> result[#[trigger] places[k] as int] == vectors[k]
            &&& forall|i: int|
                0 <= i < texts.len() && trimmed(texts[i]).len() == 0 ==> #[trigger] result[i]
                    == start[i]
        }),
{
    let places = worded(texts, texts.len());
    let result = placed(start, places, vectors, places.len());
    lemma_worded(texts, texts.len());
    assert(places.no_duplicates()) by {
        if texts.len() > 0 {
            law_blank_texts_are_skipped(texts, 0);
        }
    }
    lemma_placed(start, places, vectors, places.len());
    assert forall|i: int|
        0 <= i < texts.len() && trimmed(texts[i]).len() == 0 implies #[trigger] result[i]
        == start[i] by {
        assert forall|k: int| 0 <= k < places.len() implies #[trigger] places[k] != i by {
            assert(trimmed(texts[places[k] as int]).len() > 0);
        }
    }
}

/// The places before batch `b`, over all batches.
spec fn offset(batches: Seq<Seq<usize>>, b: int) -> int
    decreases b,
{
    if b <= 0 {
        0
    } else {
        offset(batches, b - 1) + batches[b - 1].len()
    }
}

proof fn lemma_flat_at(batches: Seq<Seq<usize>>, b: int, r: int)
    requires
        0 <= b < batches.len(),
        0 <= r < batches[b].len(),
    ensures
        0 <= offset(batches, b) + r < flat(batches).len(),
        flat(batches)[offset(batches, b) + r] == batches[b][r],
    decreases batches.len(),
{
    lemma_offset(batches, b);
    lemma_offset(batches, batches.len() as int);
    let head = batches.drop_last();
    lemma_flat_len(head);
    lemma_offset_prefix(batches, head, batches.len() - 1);
    if b < batches.len() - 1 {
        lemma_flat_at(head, b, r);
        lemma_offset_prefix(batches, head, b);
        assert(flat(batches)[offset(batches, b) + r] == flat(head)[offset(head, b) + r]);
    }
}

proof fn lemma_offset(batches: Seq<Seq<usize>>, b: int)
    ensures
        offset(batches, b) >= 0,
    decreases b,
{
    if b > 0 {
        lemma_offset(batches, b - 1);
    }
}

proof fn lemma_offset_prefix(batches: Seq<Seq<usize>>, head: Seq<Seq<usize>>, b: int)
    requires
        head == batches.drop_last(),
        batches.len() > 0,
        0 <= b <= head.len(),
    ensures
        offset(batches, b) == offset(head, b),
    decreases b,
{
    if b > 0 {
        lemma_offset_prefix(batches, head, b - 1);
    }
}

proof fn lemma_flat_len(batches: Seq<Seq<usize>>)
    ensures
        flat(batches).len() == offset(batches, batches.len() as int),
    decreases batches.len(),
{
    if batches.len() > 0 {
        let head = batches.drop_last();
        lemma_flat_len(head);
        lemma_offset_prefix(batches, head, head.len() as int);
    }
}

proof fn lemma_offset_monotone(batches: Seq<Seq<usize>>, a: int, b: int)
    requires
        0 <= a < b <= batches.len(),
    ensures
        offset(batches, a) + batches[a].len() <= offset(batches, b),
    decreases b,
{
    if a < b - 1 {
        lemma_offset_monotone(batches, a, b - 1);
    }
}

/// Rows that occur once over all batches occur in one place of one batch.
pub proof fn law_batches_are_disjoint(
    batches: Seq<Seq<usize>>,
    a: int,
    r: int,
    b: int,
    q: int,
)
    requires
        flat(batches).no_duplicates(),
        0 <= a < batches.len(),
        0 <= r < batches[a].len(),
        0 <= b < batches.len(),
        0 <= q < batches[b].len(),
        batches[a][r] == batches[b][q],
    ensures
        a == b,
        r == q,
{
    lemma_flat_at(batches, a, r);
    lemma_flat_at(batches, b, q);
    if a < b {
        lemma_offset_monotone(batches, a, b);
    } else if b < a {
        lemma_offset_monotone(batches, b, a);
    }
}

/// Rows that occur once over all batches occur once in each.
proof fn lemma_batch_no_duplicates(batches: Seq<Seq<usize>>, b: int)
    requires
        flat(batches).no_duplicates(),
        0 <= b < batches.len(),
    ensures
        batches[b].no_duplicates(),
{
    assert forall|r: int, q: int|
        0 <= r < batches[b].len() && 0 <= q < batches[b].len() && r != q implies batches[b][r]
        != batches[b][q] by {
        if batches[b][r] == batches[b][q] {
            law_batches_are_disjoint(batches, b, r, b, q);
        }
    }
}

/// Every batch got as many vectors as it has rows.
pub open spec fn counts_match<T>(batches: Seq<Seq<usize>>, vectors: Seq<Vec<T>>) -> bool {
    forall|b: int| 0 <= b < batches.len() ==> (#[trigger] vectors[b])@.len() == batches[b].len()
}

/// Puts the vectors of all batches at the places of their rows, so that they
/// stand in the order of the rows whatever the order of the batches; the first
/// batch whose number of vectors is wrong ends it.
pub fn place_all<T>(out: Vec<T>, batches: &Vec<Vec<usize>>, vectors: Vec<Vec<T>>) -> (r: Result<
    Vec<T>,
    CountMismatch,
>)
    requires
        vectors@.len() == batches@.len(),
        flat(batch_models(batches@)).no_duplicates(),
        forall|b: int, k: int|
            0 <= b < batches@.len() && 0 <= k < batches@[b]@.len() ==> #[trigger] batches@[b]@[k]
                < out@.len(),
    ensures
        r is Ok == counts_match(batch_models(batches@), vectors@),
        r matches Ok(v) ==> {
            &&& v@.len() == out@.len()
            &&& forall|b: int, k: int|
                0 <= b < batches@.len() && 0 <= k < batches@[b]@.len()
                    ==> v@[#[trigger] batches@[b]@[k] as int] == vectors@[b]@[k]
            &&& forall|i: int|
                0 <= i < out@.len() && (forall|b: int|
                    0 <= b < batches@.len() ==> !(#[trigger] batches@[b])@.contains(i as usize))
                    ==> #[trigger] v@[i] == out@[i]
        },
        r matches Err(e) ==> exists|b: int|
            0 <= b < batches@.len() && (#[trigger] vectors@[b])@.len() != batches@[b]@.len()
                && e.vectors == vectors@[b]@.len() && e.rows == batches@[b]@.len() && forall|c: int|
                0 <= c < b ==> (#[trigger] vectors@[c])@.len() == batches@[c]@.len(),
{
    let ghost m = batch_models(batches@);
    let ghost all = vectors@;
    let ghost n = out@.len();
    let ghost out0 = out@;
    let mut out: Vec<T> = out;
    let mut left: Vec<Vec<T>> = vectors;
    let mut b: usize = 0;
    while b < batches.len()
        invariant
            b <= batches.len(),
            m == batch_models(batches@),
            all == vectors@,
            all.len() == batches@.len(),
            flat(m).no_duplicates(),
            left@ == all.subrange(b as int, all.len() as int),
            out@.len() == n,
            forall|c: int, k: int|
                0 <= c < batches@.len() && 0 <= k < batches@[c]@.len()
                    ==> #[trigger] batches@[c]@[k] < n,
            forall|c: int| 0 <= c < b ==> (#[trigger] all[c])@.len() == batches@[c]@.len(),
            forall|c: int, k: int|
                0 <= c < b && 0 <= k < batches@[c]@.len()
                    ==> out@[#[trigger] batches@[c]@[k] as int] == all[c]@[k],
            out0.len() == n,
            forall|i: int|
                0 <= i < n && (forall|c: int|
                    0 <= c < b ==> !(#[trigger] batches@[c])@.contains(i as usize))
                    ==> #[trigger] out@[i] == out0[i],
        decreases batches.len() - b,
    {
        let vs: Vec<T> = left.remove(0);
        assert(vs == all[b as int]);
        assert(left@ =~= all.subrange(b + 1, all.len() as int));
        let ghost before = out@;
        proof {
            lemma_batch_no_duplicates(m, b as int);
            assert(m[b as int] == batches@[b as int]@);
        }
        match place_batch(&mut out, batches[b].as_slice(), vs) {
            Ok(()) => {},
            Err(e) => {
                assert(all[b as int]@.len() != batches@[b as int]@.len());
                assert(m[b as int] == batches@[b as int]@);
                return Err(e);
            },
        }
        proof {
            assert forall|i: int|
                0 <= i < n && (forall|c: int|
                    0 <= c < b + 1 ==> !(#[trigger] batches@[c])@.contains(
                        i as usize,
                    )) implies #[trigger] out@[i] == out0[i] by {
                assert(!batches@[b as int]@.contains(i as usize));
                assert(out@[i] == before[i]);
                assert(before[i] == out0[i]);
            }
            assert forall|c: int, k: int|
                0 <= c < b + 1 && 0 <= k < batches@[c]@.len() implies out@[
            #[trigger] batches@[c]@[k] as int] == all[c]@[k] by {
                let at = batches@[c]@[k];
                if c < b {
                    assert(before[at as int] == all[c]@[k]);
                    if batches@[b as int]@.contains(at) {
                        let q = choose|q: int|
                            0 <= q < batches@[b as int]@.len() && batches@[b as int]@[q] == at;
                        assert(m[c] == batches@[c]@);
                        law_batches_are_disjoint(m, c, k, b as int, q);
                    }
                    assert(out@[at as int] == before[at as int]);
                }
            }
        }
        b += 1;
    }
    proof {
        assert forall|c: int| 0 <= c < m.len() implies (#[trigger] all[c])@.len()
            == m[c].len() by {
            assert(m[c] == batches@[c]@);
        }
    }
    Ok(out)
}

} // verus!
