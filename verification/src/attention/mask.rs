//! What happens to each attention score before the softmax.

use vstd::prelude::*;

verus! {

/// What is done to the score of one query and one key.
#[derive(Clone, Copy, Debug, PartialEq, Eq, Structural)]
pub enum ScoreRule {
    /// The score stays as it is.
    Keep,
    /// The score becomes minus infinity.
    Hide,
    /// The bias element at this index is added.
    AddBias(usize),
    /// The score becomes minus infinity, and the bias element at this index is
    /// added to that.
    HideThenAddBias(usize),
}

impl ScoreRule {
    /// Whether the score is set to minus infinity.
    pub open spec fn hides(self) -> bool {
        self is Hide || self is HideThenAddBias
    }
}

/// Key `ki` comes after the last key that query `qi` may see.
pub open spec fn is_future(causal_offset: Option<isize>, qi: int, ki: int) -> bool {
    causal_offset matches Some(offset) && ki > qi + offset
}

/// The mask byte of query `qi` and key `ki` is set.
pub open spec fn is_masked(mask: Option<Seq<u8>>, q_step: int, qi: int, ki: int) -> bool {
    mask matches Some(m) && m[qi * q_step + ki] != 0
}

/// The mask and the causal rule hide the score.
pub open spec fn is_hidden(
    mask: Option<Seq<u8>>,
    mask_q_step: int,
    causal_offset: Option<isize>,
    qi: int,
    ki: int,
) -> bool {
    is_masked(mask, mask_q_step, qi, ki) || is_future(causal_offset, qi, ki)
}

/// The rule of the tiled paths: a hidden score gets no bias.
pub open spec fn tiled_rule(hidden: bool, has_bias: bool, at: int) -> ScoreRule {
    if hidden {
        ScoreRule::Hide
    } else if has_bias {
        ScoreRule::AddBias(at as usize)
    } else {
        ScoreRule::Keep
    }
}

/// The rule of the integer path: every score gets its bias, hidden or not.
pub open spec fn full_rule(hidden: bool, has_bias: bool, at: int) -> ScoreRule {
    if has_bias {
        if hidden {
            ScoreRule::HideThenAddBias(at as usize)
        } else {
            ScoreRule::AddBias(at as usize)
        }
    } else if hidden {
        ScoreRule::Hide
    } else {
        ScoreRule::Keep
    }
}

/// The mask of one head, as contents.
pub open spec fn contents(mask: Option<&[u8]>) -> Option<Seq<u8>> {
    match mask {
        Some(m) => Some(m@),
        None => None,
    }
}

/// Mask and bias steps reach every query and key: the rows are `q_step` apart
/// and the last one ends within `len`.
pub open spec fn reaches(q_step: int, seq_q: int, seq_kv: int, len: int) -> bool {
    &&& 0 <= q_step
    &&& (seq_q - 1) * q_step + seq_kv <= len
}

/// The causal offset of sequences of these lengths.
pub open spec fn is_offset(causal_offset: Option<isize>, seq_q: int, seq_kv: int) -> bool {
    causal_offset matches Some(o) ==> o == seq_kv - seq_q
}

/// The index of query `qi` and key `ki` is in range.
proof fn lemma_reaches(q_step: int, seq_q: int, seq_kv: int, len: int, qi: int, ki: int)
    requires
        reaches(q_step, seq_q, seq_kv, len),
        0 <= qi < seq_q,
        0 <= ki < seq_kv,
    ensures
        0 <= qi * q_step <= qi * q_step + ki < len,
{
    assert(0 <= qi * q_step <= (seq_q - 1) * q_step) by (nonlinear_arith)
        requires
            0 <= qi <= seq_q - 1,
            0 <= q_step,
    ;
}

/// Whether mask and causal rule hide the score of query `qi` and key `ki`.
fn hidden(
    mask: Option<&[u8]>,
    mask_q_step: usize,
    causal_offset: Option<isize>,
    seq_q: usize,
    seq_kv: usize,
    qi: usize,
    ki: usize,
) -> (r: bool)
    requires
        qi < seq_q <= isize::MAX,
        ki < seq_kv <= isize::MAX,
        is_offset(causal_offset, seq_q as int, seq_kv as int),
        mask matches Some(m) ==> reaches(
            mask_q_step as int,
            seq_q as int,
            seq_kv as int,
            m.len() as int,
        ),
    ensures
        r == is_hidden(contents(mask), mask_q_step as int, causal_offset, qi as int, ki as int),
{
    if let Some(m) = mask {
        proof {
            lemma_reaches(
                mask_q_step as int,
                seq_q as int,
                seq_kv as int,
                m.len() as int,
                qi as int,
                ki as int,
            );
        }
        if m[qi * mask_q_step + ki] != 0 {
            return true;
        }
    }
    if let Some(offset) = causal_offset {
        if (ki as isize) > (qi as isize) + offset {
            return true;
        }
    }
    false
}

/// The rules for the scores of query `qi` against the keys
/// `kv_start .. kv_start + tile_kv`, where a hidden score gets no bias.
pub fn tile_rules(
    mask: Option<&[u8]>,
    mask_q_step: usize,
    bias_len: Option<usize>,
    bias_q_step: usize,
    causal_offset: Option<isize>,
    seq_q: usize,
    seq_kv: usize,
    qi: usize,
    kv_start: usize,
    tile_kv: usize,
) -> (r: Vec<ScoreRule>)
    requires
        qi < seq_q <= isize::MAX,
        kv_start + tile_kv <= seq_kv <= isize::MAX,
        is_offset(causal_offset, seq_q as int, seq_kv as int),
        mask matches Some(m) ==> reaches(
            mask_q_step as int,
            seq_q as int,
            seq_kv as int,
            m.len() as int,
        ),
        bias_len matches Some(len) ==> reaches(
            bias_q_step as int,
            seq_q as int,
            seq_kv as int,
            len as int,
        ),
    ensures
        r@.len() == tile_kv,
        forall|i: int|
            0 <= i < tile_kv ==> #[trigger] r@[i] == tiled_rule(
                is_hidden(
                    contents(mask),
                    mask_q_step as int,
                    causal_offset,
                    qi as int,
                    kv_start + i,
                ),
                bias_len is Some,
                qi * bias_q_step + (kv_start + i),
            ),
{
    let mut r: Vec<ScoreRule> = Vec::new();
    let mut i: usize = 0;
    while i < tile_kv
        invariant
            i <= tile_kv,
            qi < seq_q <= isize::MAX,
            kv_start + tile_kv <= seq_kv <= isize::MAX,
            is_offset(causal_offset, seq_q as int, seq_kv as int),
            mask matches Some(m) ==> reaches(
                mask_q_step as int,
                seq_q as int,
                seq_kv as int,
                m.len() as int,
            ),
            bias_len matches Some(len) ==> reaches(
                bias_q_step as int,
                seq_q as int,
                seq_kv as int,
                len as int,
            ),
            r@.len() == i,
            forall|j: int|
                0 <= j < i ==> #[trigger] r@[j] == tiled_rule(
                    is_hidden(
                        contents(mask),
                        mask_q_step as int,
                        causal_offset,
                        qi as int,
                        kv_start + j,
                    ),
                    bias_len is Some,
                    qi * bias_q_step + (kv_start + j),
                ),
        decreases tile_kv - i,
    {
        let ki: usize = kv_start + i;
        if hidden(mask, mask_q_step, causal_offset, seq_q, seq_kv, qi, ki) {
            r.push(ScoreRule::Hide);
        } else if let Some(len) = bias_len {
            proof {
                lemma_reaches(
                    bias_q_step as int,
                    seq_q as int,
                    seq_kv as int,
                    len as int,
                    qi as int,
                    ki as int,
                );
            }
            r.push(ScoreRule::AddBias(qi * bias_q_step + ki));
        } else {
            r.push(ScoreRule::Keep);
        }
        i += 1;
    }
    r
}

/// The rules for the scores of query `qi` against all keys, where every score
/// gets its bias.
pub fn row_rules(
    mask: Option<&[u8]>,
    mask_q_step: usize,
    bias_len: Option<usize>,
    bias_q_step: usize,
    causal_offset: Option<isize>,
    seq_q: usize,
    seq_kv: usize,
    qi: usize,
) -> (r: Vec<ScoreRule>)
    requires
        qi < seq_q <= isize::MAX,
        seq_kv <= isize::MAX,
        is_offset(causal_offset, seq_q as int, seq_kv as int),
        mask matches Some(m) ==> reaches(
            mask_q_step as int,
            seq_q as int,
            seq_kv as int,
            m.len() as int,
        ),
        bias_len matches Some(len) ==> reaches(
            bias_q_step as int,
            seq_q as int,
            seq_kv as int,
            len as int,
        ),
    ensures
        r@.len() == seq_kv,
        forall|ki: int|
            0 <= ki < seq_kv ==> #[trigger] r@[ki] == full_rule(
                is_hidden(contents(mask), mask_q_step as int, causal_offset, qi as int, ki),
                bias_len is Some,
                qi * bias_q_step + ki,
            ),
{
    let mut r: Vec<ScoreRule> = Vec::new();
    let mut ki: usize = 0;
    while ki < seq_kv
        invariant
            ki <= seq_kv,
            qi < seq_q <= isize::MAX,
            seq_kv <= isize::MAX,
            is_offset(causal_offset, seq_q as int, seq_kv as int),
            mask matches Some(m) ==> reaches(
                mask_q_step as int,
                seq_q as int,
                seq_kv as int,
                m.len() as int,
            ),
            bias_len matches Some(len) ==> reaches(
                bias_q_step as int,
                seq_q as int,
                seq_kv as int,
                len as int,
            ),
            r@.len() == ki,
            forall|j: int|
                0 <= j < ki ==> #[trigger] r@[j] == full_rule(
                    is_hidden(contents(mask), mask_q_step as int, causal_offset, qi as int, j),
                    bias_len is Some,
                    qi * bias_q_step + j,
                ),
        decreases seq_kv - ki,
    {
        let hide: bool = hidden(mask, mask_q_step, causal_offset, seq_q, seq_kv, qi, ki);
        if let Some(len) = bias_len {
            proof {
                lemma_reaches(
                    bias_q_step as int,
                    seq_q as int,
                    seq_kv as int,
                    len as int,
                    qi as int,
                    ki as int,
                );
            }
            let at: usize = qi * bias_q_step + ki;
            if hide {
                r.push(ScoreRule::HideThenAddBias(at));
            } else {
                r.push(ScoreRule::AddBias(at));
            }
        } else if hide {
            r.push(ScoreRule::Hide);
        } else {
            r.push(ScoreRule::Keep);
        }
        ki += 1;
    }
    r
}

/// Both paths hide the same scores, and what both leave visible gets the same
/// bias.
pub proof fn law_paths_agree_on_what_is_seen(hidden: bool, has_bias: bool, at: int)
    ensures
        tiled_rule(hidden, has_bias, at).hides() == full_rule(hidden, has_bias, at).hides(),
        tiled_rule(hidden, has_bias, at).hides() == hidden,
        !hidden ==> tiled_rule(hidden, has_bias, at) == full_rule(hidden, has_bias, at),
{
}

/// Without a mask, causal attention on sequences of one length lets query `qi`
/// see exactly the keys `0 ..= qi`.
pub proof fn law_causal_sees_the_past(seq: int, causal_offset: Option<isize>, qi: int, ki: int)
    requires
        causal_offset is Some,
        is_offset(causal_offset, seq, seq),
    ensures
        is_hidden(None, 0, causal_offset, qi, ki) <==> ki > qi,
{
}

/// Under causal attention the last query sees every key.
pub proof fn law_last_query_sees_all(
    seq_q: int,
    seq_kv: int,
    causal_offset: Option<isize>,
    ki: int,
)
    requires
        is_offset(causal_offset, seq_q, seq_kv),
        0 <= ki < seq_kv,
    ensures
        !is_hidden(None, 0, causal_offset, seq_q - 1, ki),
{
}

} // verus!
