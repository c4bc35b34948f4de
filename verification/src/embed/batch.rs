//! Packing rows into batches under a token budget, longest rows first, and
//! padding a batch to a rectangle.

use vstd::prelude::*;
use crate::arith::{lemma_in_matrix, lemma_row_col};

verus! {

/// Rows of one batch at most.
pub const MAX_BATCH_ROWS: usize = 256;

/// Row `i` goes before row `j`: it is longer, or as long and earlier.
pub open spec fn goes_before(lens: Seq<usize>, i: int, j: int) -> bool {
    lens[i] > lens[j] || (lens[i] == lens[j] && i < j)
}

/// Each row goes before those that follow it.
pub open spec fn longest_first(lens: Seq<usize>, order: Seq<usize>) -> bool {
    forall|a: int, b: int|
        0 <= a < b < order.len() ==> goes_before(
            lens,
            #[trigger] order[a] as int,
            #[trigger] order[b] as int,
        )
}

/// `order` lists exactly the rows `lo .. hi`, longest first.
pub open spec fn is_order(lens: Seq<usize>, order: Seq<usize>, lo: int, hi: int) -> bool {
    &&& order.len() == hi - lo
    &&& longest_first(lens, order)
    &&& forall|a: int| 0 <= a < order.len() ==> lo <= #[trigger] order[a] < hi
    &&& forall|i: int| lo <= i < hi ==> order.contains(#[trigger] (i as usize))
}

/// Merges two orders, the rows of the first coming before those of the second.
fn merge(
    lens: &[usize],
    left: &Vec<usize>,
    right: &Vec<usize>,
    lo: usize,
    mid: usize,
    hi: usize,
) -> (out: Vec<usize>)
    requires
        lo <= mid <= hi <= lens.len(),
        is_order(lens@, left@, lo as int, mid as int),
        is_order(lens@, right@, mid as int, hi as int),
    ensures
        is_order(lens@, out@, lo as int, hi as int),
{
    let mut out: Vec<usize> = Vec::new();
    let mut i: usize = 0;
    let mut j: usize = 0;
    while i < left.len() || j < right.len()
        invariant
            lo <= mid <= hi <= lens.len(),
            is_order(lens@, left@, lo as int, mid as int),
            is_order(lens@, right@, mid as int, hi as int),
            i <= left.len(),
            j <= right.len(),
            out@.len() == i + j,
            longest_first(lens@, out@),
            forall|a: int| 0 <= a < out@.len() ==> lo <= #[trigger] out@[a] < hi,
            forall|a: int, p: int|
                0 <= a < out@.len() && i <= p < left@.len() ==> goes_before(
                    lens@,
                    #[trigger] out@[a] as int,
                    #[trigger] left@[p] as int,
                ),
            forall|a: int, p: int|
                0 <= a < out@.len() && j <= p < right@.len() ==> goes_before(
                    lens@,
                    #[trigger] out@[a] as int,
                    #[trigger] right@[p] as int,
                ),
            forall|p: int| 0 <= p < i ==> out@.contains(#[trigger] left@[p]),
            forall|p: int| 0 <= p < j ==> out@.contains(#[trigger] right@[p]),
        decreases left.len() - i + right.len() - j,
    {
        let take_left: bool = if i < left.len() && j < right.len() {
            lens[left[i]] >= lens[right[j]]
        } else {
            i < left.len()
        };
        let ghost before = out@;
        let next: usize = if take_left {
            left[i]
        } else {
            right[j]
        };
        out.push(next);
        proof {
            assert forall|x: usize| before.contains(x) implies out@.contains(x) by {
                let a = choose|a: int| 0 <= a < before.len() && before[a] == x;
                assert(out@[a] == x);
            }
            assert(out@[before.len() as int] == next);
            assert(out@.contains(next));
            assert forall|a: int, b: int| 0 <= a < b < out@.len() implies goes_before(
                lens@,
                #[trigger] out@[a] as int,
                #[trigger] out@[b] as int,
            ) by {
                assert(out@[a] == before[a]);
                if b < before.len() {
                    assert(out@[b] == before[b]);
                }
            }
            let li = if take_left {
                i + 1
            } else {
                i as int
            };
            let rj = if take_left {
                j as int
            } else {
                j + 1
            };
            assert forall|a: int, p: int| 0 <= a < out@.len() && li <= p < left@.len() implies
                goes_before(lens@, #[trigger] out@[a] as int, #[trigger] left@[p] as int) by {
                if a < before.len() {
                    assert(out@[a] == before[a]);
                } else if take_left {
                    assert(left@[i as int] == next);
                } else {
                    assert(left@[i as int] < mid);
                    assert(goes_before(lens@, right@[j as int] as int, left@[i as int] as int));
                    if p > i {
                        assert(goes_before(lens@, left@[i as int] as int, left@[p] as int));
                    }
                }
            }
            assert forall|a: int, p: int| 0 <= a < out@.len() && rj <= p < right@.len() implies
                goes_before(lens@, #[trigger] out@[a] as int, #[trigger] right@[p] as int) by {
                if a < before.len() {
                    assert(out@[a] == before[a]);
                } else if !take_left {
                    assert(right@[j as int] == next);
                } else {
                    assert(left@[i as int] < mid);
                    assert(right@[j as int] >= mid);
                    assert(goes_before(lens@, left@[i as int] as int, right@[j as int] as int));
                    if p > j {
                        assert(goes_before(lens@, right@[j as int] as int, right@[p] as int));
                    }
                }
            }
        }
        if take_left {
            i += 1;
        } else {
            j += 1;
        }
    }
    proof {
        assert forall|x: int| lo <= x < hi implies out@.contains(#[trigger] (x as usize)) by {
            if x < mid {
                assert(left@.contains(x as usize));
                let p = choose|p: int| 0 <= p < left@.len() && left@[p] == x as usize;
                assert(out@.contains(left@[p]));
            } else {
                assert(right@.contains(x as usize));
                let p = choose|p: int| 0 <= p < right@.len() && right@[p] == x as usize;
                assert(out@.contains(right@[p]));
            }
        }
    }
    out
}

/// The rows `lo .. hi`, longest first, equally long ones in their order.
fn sort_rows(lens: &[usize], lo: usize, hi: usize) -> (order: Vec<usize>)
    requires
        lo <= hi <= lens.len(),
    ensures
        is_order(lens@, order@, lo as int, hi as int),
    decreases hi - lo,
{
    let mut order: Vec<usize> = Vec::new();
    if lo == hi {
        return order;
    }
    if hi - lo == 1 {
        order.push(lo);
        assert(order@[0] == lo);
        assert(forall|i: int| lo <= i < hi ==> #[trigger] (i as usize) == lo);
        return order;
    }
    let mid: usize = lo + (hi - lo) / 2;
    let left: Vec<usize> = sort_rows(lens, lo, mid);
    let right: Vec<usize> = sort_rows(lens, mid, hi);
    merge(lens, &left, &right, lo, mid, hi)
}

/// Length that the rows of a batch are padded to, which is that of the first
/// one: the longest.
pub open spec fn padded_len(lens: Seq<usize>, batch: Seq<usize>) -> int {
    let first = lens[batch[0] as int];
    if first < 1 {
        1
    } else {
        first as int
    }
}

/// Another row fits the batch.
pub open spec fn has_room(lens: Seq<usize>, batch: Seq<usize>, max_tokens: int) -> bool {
    &&& batch.len() > 0
    &&& batch.len() < MAX_BATCH_ROWS
    &&& (batch.len() + 1) * padded_len(lens, batch) <= max_tokens
}

/// The first `upto` rows of an order in batches, the last of which may still
/// be open: each row joins the open batch where there is room, and opens the
/// next one where there is not.
pub open spec fn packed(
    lens: Seq<usize>,
    order: Seq<usize>,
    max_tokens: int,
    upto: nat,
) -> Seq<Seq<usize>>
    decreases upto,
{
    if upto == 0 {
        Seq::empty()
    } else {
        let before = packed(lens, order, max_tokens, (upto - 1) as nat);
        let row = order[upto - 1];
        if before.len() > 0 && has_room(lens, before.last(), max_tokens) {
            before.drop_last().push(before.last().push(row))
        } else {
            before.push(seq![row])
        }
    }
}

/// Models of a list of batches.
pub open spec fn batch_models(batches: Seq<Vec<usize>>) -> Seq<Seq<usize>> {
    batches.map_values(|b: Vec<usize>| b@)
}

/// Whether another row fits a batch of `rows` rows padded to `padded`.
fn room_for(rows: usize, padded: usize, max_tokens: usize) -> (r: bool)
    ensures
        r == (rows > 0 && rows < MAX_BATCH_ROWS && (rows + 1) * padded <= max_tokens),
{
    if rows == 0 || rows >= MAX_BATCH_ROWS {
        return false;
    }
    match (rows + 1).checked_mul(padded) {
        Some(tokens) => tokens <= max_tokens,
        None => false,
    }
}

/// Rows in batches, longest rows first, under a budget of
/// `rows x padded length` for each batch.
pub fn pack_batches(row_lens: &[usize], max_batch_tokens: usize) -> (batches: Vec<Vec<usize>>)
    ensures
        exists|order: Seq<usize>|
            is_order(row_lens@, order, 0, row_lens@.len() as int) && batch_models(batches@)
                == #[trigger] packed(
                row_lens@,
                order,
                max_batch_tokens as int,
                row_lens@.len(),
            ),
{
    let order: Vec<usize> = sort_rows(row_lens, 0, row_lens.len());
    let mut batches: Vec<Vec<usize>> = Vec::new();
    let mut current: Vec<usize> = Vec::new();
    let mut padded: usize = 0;
    let mut at: usize = 0;
    let ghost lens = row_lens@;
    let ghost budget = max_batch_tokens as int;
    assert(batch_models(batches@) =~= Seq::<Seq<usize>>::empty());
    while at < order.len()
        invariant
            at <= order.len(),
            order@.len() == row_lens@.len(),
            lens == row_lens@,
            budget == max_batch_tokens,
            is_order(lens, order@, 0, row_lens@.len() as int),
            current@.len() > 0 ==> padded == padded_len(lens, current@),
            current@.len() == 0 ==> at == 0 && batches@.len() == 0,
            packed(lens, order@, budget, at as nat) == (if current@.len() > 0 {
                batch_models(batches@).push(current@)
            } else {
                batch_models(batches@)
            }),
        decreases order.len() - at,
    {
        let idx: usize = order[at];
        let ghost open = packed(lens, order@, budget, at as nat);
        let ghost closed = batch_models(batches@);
        let ghost held = current@;
        let len: usize = row_lens[idx];
        if current.len() == 0 {
            padded = if len < 1 {
                1
            } else {
                len
            };
            current.push(idx);
            assert(current@ =~= seq![idx]);
            assert(closed.push(seq![idx]) =~= open.push(seq![idx]));
        } else if room_for(current.len(), padded, max_batch_tokens) {
            current.push(idx);
            assert(open.drop_last() =~= closed);
        } else {
            let mut full: Vec<usize> = Vec::new();
            core::mem::swap(&mut full, &mut current);
            batches.push(full);
            padded = if len < 1 {
                1
            } else {
                len
            };
            current.push(idx);
            assert(current@ =~= seq![idx]);
            assert(batch_models(batches@) =~= closed.push(held));
        }
        at += 1;
    }
    if current.len() > 0 {
        let ghost closed = batch_models(batches@);
        let ghost held = current@;
        batches.push(current);
        assert(batch_models(batches@) =~= closed.push(held));
    }
    batches
}

/// Row lengths determine the order.
pub proof fn law_order_is_unique(lens: Seq<usize>, a: Seq<usize>, b: Seq<usize>, lo: int, hi: int)
    requires
        0 <= lo <= hi <= lens.len(),
        hi <= usize::MAX,
        is_order(lens, a, lo, hi),
        is_order(lens, b, lo, hi),
    ensures
        a == b,
{
    lemma_same_prefix(lens, a, b, lo, hi, a.len());
    assert(a.take(a.len() as int) =~= a);
    assert(b.take(b.len() as int) =~= b);
}

proof fn lemma_same_prefix(
    lens: Seq<usize>,
    a: Seq<usize>,
    b: Seq<usize>,
    lo: int,
    hi: int,
    upto: nat,
)
    requires
        0 <= lo <= hi <= lens.len(),
        hi <= usize::MAX,
        is_order(lens, a, lo, hi),
        is_order(lens, b, lo, hi),
        upto <= a.len(),
    ensures
        a.take(upto as int) == b.take(upto as int),
    decreases upto,
{
    if upto > 0 {
        let at = upto - 1;
        lemma_same_prefix(lens, a, b, lo, hi, at as nat);
        let x = a[at];
        let y = b[at];
        assert(a.contains((y as int) as usize));
        assert(b.contains((x as int) as usize));
        let py = choose|p: int| 0 <= p < a.len() && a[p] == y;
        let px = choose|p: int| 0 <= p < b.len() && b[p] == x;
        if x != y {
            if py < at {
                assert(a.take(at)[py] == b.take(at)[py]);
                assert(goes_before(lens, b[py] as int, b[at] as int));
            }
            if px < at {
                assert(a.take(at)[px] == b.take(at)[px]);
                assert(goes_before(lens, a[px] as int, a[at] as int));
            }
            assert(goes_before(lens, a[at] as int, a[py] as int));
            assert(goes_before(lens, b[at] as int, b[px] as int));
        }
        assert(a.take(upto as int) =~= a.take(at).push(x));
        assert(b.take(upto as int) =~= b.take(at).push(y));
    }
}

/// The rows of all batches, one batch after the other.
pub open spec fn flat(batches: Seq<Seq<usize>>) -> Seq<usize>
    decreases batches.len(),
{
    if batches.len() == 0 {
        Seq::empty()
    } else {
        flat(batches.drop_last()) + batches.last()
    }
}

/// A batch keeps to the limits: it has a row, no more than the most rows, and
/// more than one only within the token budget.
pub open spec fn within_limits(lens: Seq<usize>, batch: Seq<usize>, max_tokens: int) -> bool {
    &&& 0 < batch.len() <= MAX_BATCH_ROWS
    &&& batch.len() > 1 ==> batch.len() * padded_len(lens, batch) <= max_tokens
}

pub proof fn lemma_packed(lens: Seq<usize>, order: Seq<usize>, max_tokens: int, upto: nat)
    requires
        upto <= order.len(),
        longest_first(lens, order),
    ensures
        flat(packed(lens, order, max_tokens, upto)) == order.take(upto as int),
        forall|b: int|
            0 <= b < packed(lens, order, max_tokens, upto).len() ==> {
                &&& within_limits(
                    lens,
                    #[trigger] packed(lens, order, max_tokens, upto)[b],
                    max_tokens,
                )
                &&& longest_first(lens, packed(lens, order, max_tokens, upto)[b])
            },
        forall|b: int, r: int|
            0 <= b < packed(lens, order, max_tokens, upto).len() && 0 <= r < packed(
                lens,
                order,
                max_tokens,
                upto,
            )[b].len() ==> order.take(upto as int).contains(
                #[trigger] packed(lens, order, max_tokens, upto)[b][r],
            ),
    decreases upto,
{
    let all = packed(lens, order, max_tokens, upto);
    if upto == 0 {
        assert(order.take(0) =~= Seq::<usize>::empty());
    } else {
        lemma_packed(lens, order, max_tokens, (upto - 1) as nat);
        let before = packed(lens, order, max_tokens, (upto - 1) as nat);
        let row = order[upto - 1];
        let seen = order.take(upto - 1);
        let now = order.take(upto as int);
        assert(now =~= seen.push(row));
        assert forall|x: usize| seen.contains(x) implies now.contains(x) by {
            let p = choose|p: int| 0 <= p < seen.len() && seen[p] == x;
            assert(now[p] == x);
        }
        assert(now[upto - 1] == row);
        if before.len() > 0 && has_room(lens, before.last(), max_tokens) {
            let last = before.last();
            let grown = last.push(row);
            assert(all.drop_last() =~= before.drop_last());
            assert(all.last() =~= grown);
            assert(flat(all) =~= flat(before).push(row));
            assert(last == before[before.len() - 1]);
            assert(grown[0] == last[0]);
            assert(longest_first(lens, grown)) by {
                assert forall|x: int, y: int| 0 <= x < y < grown.len() implies goes_before(
                    lens,
                    #[trigger] grown[x] as int,
                    #[trigger] grown[y] as int,
                ) by {
                    assert(grown[x] == last[x]);
                    if y < last.len() {
                        assert(grown[y] == last[y]);
                    } else {
                        assert(seen.contains(before[before.len() - 1][x]));
                        let p = choose|p: int| 0 <= p < seen.len() && seen[p] == last[x];
                        assert(order[p] == last[x]);
                    }
                }
            }
            assert forall|b: int| 0 <= b < all.len() implies within_limits(
                lens,
                #[trigger] all[b],
                max_tokens,
            ) && longest_first(lens, all[b]) by {
                if b < before.len() - 1 {
                    assert(all[b] == before[b]);
                } else {
                    assert(all[b] == grown);
                }
            }
            assert forall|b: int, r: int|
                0 <= b < all.len() && 0 <= r < all[b].len() implies now.contains(
                #[trigger] all[b][r],
            ) by {
                if b < before.len() - 1 {
                    assert(all[b][r] == before[b][r]);
                } else if r < last.len() {
                    assert(all[b][r] == before[b][r]);
                }
            }
        } else {
            assert(all.drop_last() =~= before);
            assert(flat(all) =~= flat(before).push(row));
            assert forall|b: int| 0 <= b < all.len() implies within_limits(
                lens,
                #[trigger] all[b],
                max_tokens,
            ) && longest_first(lens, all[b]) by {
                if b < before.len() {
                    assert(all[b] == before[b]);
                }
            }
            assert forall|b: int, r: int|
                0 <= b < all.len() && 0 <= r < all[b].len() implies now.contains(
                #[trigger] all[b][r],
            ) by {
                if b < before.len() {
                    assert(all[b][r] == before[b][r]);
                }
            }
        }
    }
}

/// Packing loses no row and doubles none: the batches, one after the other,
/// are the rows in order, each once.
pub proof fn law_every_row_is_in_one_batch(lens: Seq<usize>, order: Seq<usize>, max_tokens: int)
    requires
        is_order(lens, order, 0, lens.len() as int),
    ensures
        flat(packed(lens, order, max_tokens, lens.len())) == order,
        order.no_duplicates(),
        forall|i: int| 0 <= i < lens.len() ==> order.contains(#[trigger] (i as usize)),
{
    lemma_packed(lens, order, max_tokens, lens.len());
    assert(order.take(order.len() as int) =~= order);
    assert forall|a: int, b: int| 0 <= a < order.len() && 0 <= b < order.len() && a
        != b implies order[a] != order[b] by {
        if a < b {
            assert(goes_before(lens, order[a] as int, order[b] as int));
        } else {
            assert(goes_before(lens, order[b] as int, order[a] as int));
        }
    }
}

/// Every batch keeps to the row limit and, with more than one row, to the
/// token budget, and none of its rows is longer than what it is padded to.
pub proof fn law_batches_keep_to_the_budget(
    lens: Seq<usize>,
    order: Seq<usize>,
    max_tokens: int,
    b: int,
    r: int,
)
    requires
        is_order(lens, order, 0, lens.len() as int),
        0 <= b < packed(lens, order, max_tokens, lens.len()).len(),
        0 <= r < packed(lens, order, max_tokens, lens.len())[b].len(),
    ensures
        within_limits(lens, packed(lens, order, max_tokens, lens.len())[b], max_tokens),
        lens[packed(lens, order, max_tokens, lens.len())[b][r] as int] <= padded_len(
            lens,
            packed(lens, order, max_tokens, lens.len())[b],
        ),
{
    lemma_packed(lens, order, max_tokens, lens.len());
    let batch = packed(lens, order, max_tokens, lens.len())[b];
    if r > 0 {
        assert(goes_before(lens, batch[0] as int, batch[r] as int));
    }
}

/// A rectangle of token ids with the mask that tells tokens from padding.
pub struct BatchEncoding {
    pub input_ids: Vec<i64>,
    pub attention_mask: Vec<i64>,
    pub token_type_ids: Vec<i64>,
    pub batch_size: usize,
    pub encoding_length: usize,
}

/// Models of a list of rows.
pub open spec fn row_models(rows: Seq<Vec<i64>>) -> Seq<Seq<i64>> {
    rows.map_values(|r: Vec<i64>| r@)
}

/// `len` is the length of the longest chosen row, at least 1.
pub open spec fn is_longest(rows: Seq<Seq<i64>>, indices: Seq<usize>, len: int) -> bool {
    &&& len >= 1
    &&& forall|i: int| 0 <= i < indices.len() ==> rows[#[trigger] indices[i] as int].len() <= len
    &&& len == 1 || exists|i: int|
        0 <= i < indices.len() && rows[#[trigger] indices[i] as int].len() == len
}

/// The id at position `p` of the rectangle: of the row, or padding.
pub open spec fn padded_id(
    rows: Seq<Seq<i64>>,
    indices: Seq<usize>,
    pad_id: i64,
    len: int,
    p: int,
) -> i64 {
    let row = rows[indices[p / len] as int];
    if p % len < row.len() {
        row[p % len]
    } else {
        pad_id
    }
}

/// The mask at position `p` of the rectangle: 1 on a token, 0 on padding.
pub open spec fn padded_mask(rows: Seq<Seq<i64>>, indices: Seq<usize>, len: int, p: int) -> i64 {
    if p % len < rows[indices[p / len] as int].len() {
        1
    } else {
        0
    }
}

/// The encoding is the chosen rows, padded on the right to the longest.
pub open spec fn is_padded(
    e: BatchEncoding,
    rows: Seq<Seq<i64>>,
    indices: Seq<usize>,
    pad_id: i64,
) -> bool {
    let len = e.encoding_length as int;
    let size = indices.len() * e.encoding_length;
    &&& e.batch_size == indices.len()
    &&& is_longest(rows, indices, len)
    &&& e.input_ids@.len() == size
    &&& e.attention_mask@.len() == size
    &&& e.token_type_ids@.len() == size
    &&& forall|p: int|
        0 <= p < size ==> #[trigger] e.input_ids@[p] == padded_id(rows, indices, pad_id, len, p)
    &&& forall|p: int|
        0 <= p < size ==> #[trigger] e.attention_mask@[p] == padded_mask(rows, indices, len, p)
    &&& forall|p: int| 0 <= p < size ==> #[trigger] e.token_type_ids@[p] == 0
}

/// The length of the longest chosen row, at least 1.
pub fn longest_row(rows: &Vec<Vec<i64>>, indices: &[usize]) -> (len: usize)
    requires
        forall|i: int| 0 <= i < indices@.len() ==> #[trigger] indices@[i] < rows@.len(),
    ensures
        is_longest(row_models(rows@), indices@, len as int),
{
    let ghost m = row_models(rows@);
    let mut len: usize = 1;
    let mut i: usize = 0;
    while i < indices.len()
        invariant
            i <= indices.len(),
            m == row_models(rows@),
            forall|k: int| 0 <= k < indices@.len() ==> #[trigger] indices@[k] < rows@.len(),
            len >= 1,
            forall|k: int| 0 <= k < i ==> m[#[trigger] indices@[k] as int].len() <= len,
            len == 1 || exists|k: int|
                0 <= k < i && m[#[trigger] indices@[k] as int].len() == len,
        decreases indices.len() - i,
    {
        let n: usize = rows[indices[i]].len();
        assert(m[indices@[i as int] as int].len() == n);
        if n > len {
            len = n;
        }
        i += 1;
    }
    len
}

/// The chosen rows as a rectangle, padded on the right.
pub fn pad_rows(rows: &Vec<Vec<i64>>, indices: &[usize], pad_id: i64) -> (e: BatchEncoding)
    requires
        forall|i: int| 0 <= i < indices@.len() ==> #[trigger] indices@[i] < rows@.len(),
    ensures
        is_padded(e, row_models(rows@), indices@, pad_id),
{
    let ghost m = row_models(rows@);
    let len: usize = longest_row(rows, indices);
    let ghost li = len as int;
    let mut input_ids: Vec<i64> = Vec::new();
    let mut attention_mask: Vec<i64> = Vec::new();
    let mut token_type_ids: Vec<i64> = Vec::new();
    let mut r: usize = 0;
    assert(0 * li == 0);
    while r < indices.len()
        invariant
            r <= indices.len(),
            len >= 1,
            li == len,
            m == row_models(rows@),
            forall|i: int| 0 <= i < indices@.len() ==> #[trigger] indices@[i] < rows@.len(),
            is_longest(m, indices@, li),
            input_ids@.len() == r * li,
            attention_mask@.len() == r * li,
            token_type_ids@.len() == r * li,
            forall|p: int|
                0 <= p < r * li ==> #[trigger] input_ids@[p] == padded_id(
                    m,
                    indices@,
                    pad_id,
                    li,
                    p,
                ),
            forall|p: int|
                0 <= p < r * li ==> #[trigger] attention_mask@[p] == padded_mask(
                    m,
                    indices@,
                    li,
                    p,
                ),
            forall|p: int| 0 <= p < r * li ==> #[trigger] token_type_ids@[p] == 0,
        decreases indices.len() - r,
    {
        let row: &Vec<i64> = &rows[indices[r]];
        assert(m[indices@[r as int] as int] == row@);
        let mut c: usize = 0;
        while c < len
            invariant
                r < indices.len(),
                c <= len,
                len >= 1,
                li == len,
                m == row_models(rows@),
                m[indices@[r as int] as int] == row@,
                input_ids@.len() == r * li + c,
                attention_mask@.len() == r * li + c,
                token_type_ids@.len() == r * li + c,
                forall|p: int|
                    0 <= p < r * li + c ==> #[trigger] input_ids@[p] == padded_id(
                        m,
                        indices@,
                        pad_id,
                        li,
                        p,
                    ),
                forall|p: int|
                    0 <= p < r * li + c ==> #[trigger] attention_mask@[p] == padded_mask(
                        m,
                        indices@,
                        li,
                        p,
                    ),
                forall|p: int| 0 <= p < r * li + c ==> #[trigger] token_type_ids@[p] == 0,
            decreases len - c,
        {
            proof {
                lemma_row_col(r as int, c as int, li);
            }
            if c < row.len() {
                input_ids.push(row[c]);
                attention_mask.push(1);
            } else {
                input_ids.push(pad_id);
                attention_mask.push(0);
            }
            token_type_ids.push(0);
            c += 1;
        }
        proof {
            assert((r + 1) * li == r * li + li) by (nonlinear_arith);
        }
        r += 1;
    }
    BatchEncoding {
        input_ids,
        attention_mask,
        token_type_ids,
        batch_size: indices.len(),
        encoding_length: len,
    }
}

/// Padding keeps every token: the masked positions of a row of the rectangle
/// are its tokens, and the rest are padding.
pub proof fn law_padding_keeps_rows(
    e: BatchEncoding,
    rows: Seq<Seq<i64>>,
    indices: Seq<usize>,
    pad_id: i64,
    r: int,
    c: int,
)
    requires
        is_padded(e, rows, indices, pad_id),
        0 <= r < indices.len(),
        0 <= c < e.encoding_length,
    ensures
        0 <= r * e.encoding_length + c < e.input_ids@.len(),
        c < rows[indices[r] as int].len() ==> e.input_ids@[r * e.encoding_length + c]
            == rows[indices[r] as int][c] && e.attention_mask@[r * e.encoding_length + c] == 1,
        c >= rows[indices[r] as int].len() ==> e.input_ids@[r * e.encoding_length + c] == pad_id
            && e.attention_mask@[r * e.encoding_length + c] == 0,
{
    lemma_in_matrix(r, c, indices.len() as int, e.encoding_length as int);
    lemma_row_col(r, c, e.encoding_length as int);
}

} // verus!
