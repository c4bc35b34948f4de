//! Arguments, probe inputs and machine facts of the measuring programs.

use vstd::prelude::*;
use vstd::string::{StrSliceExecFns, StringExecFns};
use crate::arith::{
    lemma_congruent_mul, lemma_in_matrix, lemma_row_col, lemma_wrap_congruent,
    lemma_wrap_is_congruent, lemma_wrapping_mul, wrap32,
};
use crate::codegen::laws::read_decimal;
use crate::embed::batch::{row_models, BatchEncoding};
use crate::embed::text::chars_of;
use crate::gemm::zp::wrap_len;

verus! {

/// A decimal digit.
pub open spec fn is_digit(c: char) -> bool {
    '0' <= c <= '9'
}

/// The number that a run of digits stands for.
pub open spec fn digits_value(s: Seq<char>) -> int
    decreases s.len(),
{
    if s.len() == 0 {
        0
    } else {
        digits_value(s.drop_last()) * 10 + (s.last() as u32 - '0' as u32)
    }
}

/// The digits of a number, without the sign that may go before them.
pub open spec fn unsigned_part(s: Seq<char>) -> Seq<char> {
    if s.len() > 0 && s[0] == '+' {
        s.subrange(1, s.len() as int)
    } else {
        s
    }
}

/// The number that a text stands for: an optional plus sign and digits, within
/// the range of the type.
pub open spec fn number(s: Seq<char>) -> Option<int> {
    let d = unsigned_part(s);
    if d.len() > 0 && (forall|i: int| 0 <= i < d.len() ==> is_digit(#[trigger] d[i]))
        && digits_value(d) <= usize::MAX {
        Some(digits_value(d))
    } else {
        None
    }
}

/// Digits in front only make a number larger.
proof fn lemma_digits_grow(s: Seq<char>, upto: int)
    requires
        0 <= upto <= s.len(),
        forall|i: int| 0 <= i < s.len() ==> is_digit(#[trigger] s[i]),
    ensures
        0 <= digits_value(s.take(upto)) <= digits_value(s),
    decreases s.len(),
{
    if s.len() == 0 {
        assert(s.take(upto) =~= s);
    } else if upto == s.len() {
        assert(s.take(upto) =~= s);
        let t = s.drop_last();
        lemma_digits_grow(t, t.len() as int);
        assert(t.take(t.len() as int) =~= t);
        assert(is_digit(s[s.len() - 1]));
    } else {
        let t = s.drop_last();
        assert forall|i: int| 0 <= i < t.len() implies is_digit(#[trigger] t[i]) by {
            assert(t[i] == s[i]);
        }
        lemma_digits_grow(t, upto);
        lemma_digits_grow(t, t.len() as int);
        assert(t.take(t.len() as int) =~= t);
        assert(t.take(upto) =~= s.take(upto));
        assert(is_digit(s[s.len() - 1]));
    }
}

/// Reads a number.
pub fn parse_usize(text: &str) -> (r: Option<usize>)
    ensures
        (match r {
            Some(n) => Some(n as int),
            None => None,
        }) == number(text@),
{
    let chars: Vec<char> = chars_of(text);
    let from: usize = if chars.len() > 0 && chars[0] == '+' { 1 } else { 0 };
    let ghost d = unsigned_part(text@);
    proof {
        assert(d =~= text@.subrange(from as int, text@.len() as int));
        assert(d.take(0) =~= Seq::<char>::empty());
    }
    if chars.len() == from {
        return None;
    }
    let mut n: usize = 0;
    let mut i: usize = from;
    while i < chars.len()
        invariant
            from <= i <= chars.len(),
            chars@ == text@,
            d == text@.subrange(from as int, text@.len() as int),
            d == unsigned_part(text@),
            n == digits_value(d.take(i - from)),
            forall|j: int| 0 <= j < i - from ==> is_digit(#[trigger] d[j]),
        decreases chars.len() - i,
    {
        let c: char = chars[i];
        proof {
            assert(d[i - from] == c);
            assert(d.take(i - from + 1).drop_last() =~= d.take(i - from));
            assert(d.take(i - from + 1).last() == c);
        }
        if c < '0' || c > '9' {
            return None;
        }
        let v: usize = (c as u32 - '0' as u32) as usize;
        let ghost all_digits = forall|j: int| 0 <= j < d.len() ==> is_digit(#[trigger] d[j]);
        proof {
            if all_digits {
                lemma_digits_grow(d, i - from + 1);
            }
        }
        if n > (usize::MAX - v) / 10 {
            assert(digits_value(d.take(i - from + 1)) > usize::MAX);
            return None;
        }
        n = n * 10 + v;
        i += 1;
    }
    assert(d.take(d.len() as int) =~= d);
    Some(n)
}

/// The number at place `i` of the arguments, or `default` where there is none.
pub fn number_or(args: &Vec<String>, i: usize, default: usize) -> (r: usize)
    ensures
        r == (if i < args@.len() {
            match number(args@[i as int]@) {
                Some(n) => n,
                None => default as int,
            }
        } else {
            default as int
        }),
{
    if i < args.len() {
        match parse_usize(args[i].as_str()) {
            Some(n) => n,
            None => default,
        }
    } else {
        default
    }
}

/// Arguments of the memory benchmark.
#[derive(Clone, Copy, Debug, PartialEq, Eq, Structural)]
pub struct RunArgs {
    pub rounds: usize,
    pub budget: usize,
    pub arena: bool,
}

/// What is wrong with the arguments.
#[derive(Clone, Debug)]
pub enum ArgError {
    /// An option that does not exist.
    UnknownFlag(String),
    /// The first operand is no number.
    Rounds,
    /// The second operand is no number.
    Budget,
}

/// The argument is an option or a separator.
pub open spec fn is_flag(s: Seq<char>) -> bool {
    s.len() > 0 && s[0] == '-'
}

/// The argument is an option that exists, or the separator.
pub open spec fn is_known(s: Seq<char>) -> bool {
    s == "--arena"@ || s == "--"@
}

/// The argument is an option that does not exist.
pub open spec fn is_unknown(s: Seq<char>) -> bool {
    is_flag(s) && !is_known(s)
}

/// Models of the arguments.
pub open spec fn arg_models(args: Seq<String>) -> Seq<Seq<char>> {
    args.map_values(|a: String| a@)
}

/// Of the first `upto` arguments, those that are no options.
pub open spec fn operands(args: Seq<Seq<char>>, upto: nat) -> Seq<Seq<char>>
    decreases upto,
{
    if upto == 0 {
        Seq::empty()
    } else {
        let before = operands(args, (upto - 1) as nat);
        if is_known(args[upto - 1]) || is_flag(args[upto - 1]) {
            before
        } else {
            before.push(args[upto - 1])
        }
    }
}

/// The number at operand `i`, or `default` where there is no such operand;
/// none where it is no number.
pub open spec fn operand_number(ops: Seq<Seq<char>>, i: int, default: int) -> Option<int> {
    if i < ops.len() {
        number(ops[i])
    } else {
        Some(default)
    }
}

/// Operands that a program reads.
fn operand_or(args: &Vec<String>, ops: &Vec<usize>, i: usize, default: usize) -> (r: Option<usize>)
    requires
        forall|k: int| 0 <= k < ops@.len() ==> #[trigger] ops@[k] < args@.len(),
    ensures
        (match r {
            Some(n) => Some(n as int),
            None => None,
        }) == operand_number(
            ops@.map_values(|k: usize| args@[k as int]@),
            i as int,
            default as int,
        ),
{
    if i < ops.len() {
        parse_usize(args[ops[i]].as_str())
    } else {
        Some(default)
    }
}

/// Reads the arguments: `--arena` anywhere, separators skipped, then rounds (5
/// where absent) and token budget (2048 where absent). The first option that
/// does not exist is an error, before any number is read.
pub fn parse_args(args: &Vec<String>) -> (r: Result<RunArgs, ArgError>)
    ensures
        ({
            let m = arg_models(args@);
            let ops = operands(m, m.len());
            let rounds = operand_number(ops, 0, 5);
            let budget = operand_number(ops, 1, 2048);
            match r {
                Ok(a) => {
                    &&& forall|i: int| 0 <= i < m.len() ==> !is_unknown(#[trigger] m[i])
                    &&& rounds == Some(a.rounds as int)
                    &&& budget == Some(a.budget as int)
                    &&& a.arena == m.contains("--arena"@)
                },
                Err(ArgError::UnknownFlag(f)) => exists|i: int|
                    0 <= i < m.len() && is_unknown(m[i]) && f@ == #[trigger] m[i] && forall|j: int|
                        0 <= j < i ==> !is_unknown(#[trigger] m[j]),
                Err(ArgError::Rounds) => (forall|i: int|
                    0 <= i < m.len() ==> !is_unknown(#[trigger] m[i])) && rounds is None,
                Err(ArgError::Budget) => (forall|i: int|
                    0 <= i < m.len() ==> !is_unknown(#[trigger] m[i])) && rounds is Some
                    && budget is None,
            }
        }),
{
    let ghost m = arg_models(args@);
    let arena_flag: String = String::from_str("--arena");
    let separator: String = String::from_str("--");
    let mut arena: bool = false;
    let mut ops: Vec<usize> = Vec::new();
    let mut i: usize = 0;
    assert(ops@.map_values(|k: usize| args@[k as int]@) =~= operands(m, 0));
    while i < args.len()
        invariant
            i <= args.len(),
            m == arg_models(args@),
            arena_flag@ == "--arena"@,
            separator@ == "--"@,
            forall|j: int| 0 <= j < i ==> !is_unknown(#[trigger] m[j]),
            arena == (exists|j: int| 0 <= j < i && #[trigger] m[j] == "--arena"@),
            forall|k: int| 0 <= k < ops@.len() ==> #[trigger] ops@[k] < args@.len(),
            ops@.map_values(|k: usize| args@[k as int]@) == operands(m, i as nat),
        decreases args.len() - i,
    {
        assert(m[i as int] == args@[i as int]@);
        if args[i] == arena_flag {
            arena = true;
        } else if args[i] == separator {
        } else if args[i].as_str().unicode_len() > 0 && args[i].as_str().get_char(0) == '-' {
            assert(is_unknown(m[i as int]));
            return Err(ArgError::UnknownFlag(String::from_str(args[i].as_str())));
        } else {
            let ghost before = ops@;
            ops.push(i);
            assert(ops@.map_values(|k: usize| args@[k as int]@) =~= before.map_values(
                |k: usize| args@[k as int]@,
            ).push(m[i as int]));
        }
        i += 1;
    }
    proof {
        if arena {
            let j = choose|j: int| 0 <= j < m.len() && #[trigger] m[j] == "--arena"@;
            assert(m.contains(m[j]));
        }
        if m.contains("--arena"@) {
            let j = choose|j: int| 0 <= j < m.len() && m[j] == "--arena"@;
            assert(m[j] == "--arena"@);
        }
    }
    let rounds: usize = match operand_or(args, &ops, 0, 5) {
        Some(n) => n,
        None => {
            return Err(ArgError::Rounds);
        },
    };
    let budget: usize = match operand_or(args, &ops, 1, 2048) {
        Some(n) => n,
        None => {
            return Err(ArgError::Budget);
        },
    };
    Ok(RunArgs { rounds, budget, arena })
}

/// Tokens of a full row.
pub const FULL_ROW: usize = 512;

/// Full rows that one batch may hold under a token budget, at least one.
pub fn stress_rows(budget: usize) -> (r: usize)
    ensures
        r >= 1,
        budget >= 512 ==> r * 512 <= budget < (r + 1) * 512,
        budget < 512 ==> r == 1,
{
    let r: usize = budget / FULL_ROW;
    if r < 1 {
        1
    } else {
        r
    }
}

/// The id at column `c` of a full row of `seq` tokens: start, end, or filler.
pub open spec fn dummy_id(seq: int, c: int) -> i64 {
    if c == seq - 1 {
        2
    } else if c == 0 {
        0
    } else {
        1
    }
}

/// A batch of `rows` full rows: a start token, fillers and an end token, with
/// nothing masked.
pub fn dummy_batch(rows: usize, seq: usize) -> (e: BatchEncoding)
    requires
        rows > 0 ==> seq >= 1,
        rows * seq <= usize::MAX,
    ensures
        e.batch_size == rows,
        e.encoding_length == seq,
        e.input_ids@.len() == rows * seq,
        e.attention_mask@.len() == rows * seq,
        e.token_type_ids@.len() == rows * seq,
        forall|p: int|
            0 <= p < rows * seq ==> {
                &&& #[trigger] e.input_ids@[p] == dummy_id(seq as int, p % (seq as int))
                &&& e.attention_mask@[p] == 1
                &&& e.token_type_ids@[p] == 0
            },
{
    let n: usize = rows * seq;
    let ghost w = seq as int;
    let mut ids: Vec<i64> = vec![1i64; n];
    let mut r: usize = 0;
    while r < rows
        invariant
            r <= rows,
            n == rows * seq,
            rows > 0 ==> seq >= 1,
            w == seq,
            ids@.len() == n,
            forall|p: int| 0 <= p < r * w ==> #[trigger] ids@[p] == dummy_id(w, p % w),
            forall|p: int| r * w <= p < n ==> #[trigger] ids@[p] == 1,
        decreases rows - r,
    {
        proof {
            lemma_in_matrix(r as int, 0, rows as int, w);
            assert((r + 1) * w == r * w + w) by (nonlinear_arith);
        }
        let ghost before = ids@;
        let start: usize = r * seq;
        ids[start] = 0;
        ids[start + (seq - 1)] = 2;
        proof {
            assert forall|p: int| 0 <= p < (r + 1) * w implies #[trigger] ids@[p] == dummy_id(
                w,
                p % w,
            ) by {
                if p < r * w {
                    assert(before[p] == dummy_id(w, p % w));
                } else {
                    lemma_row_col(r as int, p - r * w, w);
                    assert(before[p] == 1);
                }
            }
            assert forall|p: int| (r + 1) * w <= p < n implies #[trigger] ids@[p] == 1 by {
                assert(before[p] == 1);
            }
        }
        r += 1;
    }
    BatchEncoding {
        input_ids: ids,
        attention_mask: vec![1i64; n],
        token_type_ids: vec![0i64; n],
        batch_size: rows,
        encoding_length: seq,
    }
}

/// Size of the vocabulary.
pub const VOCAB: i32 = 250_037;

/// Token ids that are spread over the vocabulary: multiples of a prime, in
/// wrapping 32-bit arithmetic, reduced to the range of the ids.
pub fn probe_ids(seq: usize) -> (r: Vec<i32>)
    ensures
        r@.len() == seq,
        forall|i: int| 0 <= i < seq ==> #[trigger] r@[i] == wrap32(i * 7919) as int % 250_037,
        forall|i: int| 0 <= i < seq ==> 0 <= #[trigger] r@[i] < VOCAB,
{
    let mut r: Vec<i32> = Vec::new();
    let mut i: usize = 0;
    while i < seq
        invariant
            i <= seq,
            r@.len() == i,
            forall|j: int| 0 <= j < i ==> #[trigger] r@[j] == wrap32(j * 7919) as int % 250_037,
        decreases seq - i,
    {
        let x: i32 = wrap_len(i);
        proof {
            lemma_wrapping_mul(x, 7919);
            lemma_wrap_is_congruent(i as int);
            lemma_congruent_mul(x as int, i as int, 7919, 7919);
            lemma_wrap_congruent(x * 7919, i * 7919);
        }
        let y: i32 = x.wrapping_mul(7919);
        r.push(rem_euclid(y, VOCAB));
        i += 1;
    }
    r
}

/// The remainder that is never negative.
fn rem_euclid(x: i32, d: i32) -> (r: i32)
    requires
        0 < d,
    ensures
        r == x as int % d as int,
{
    let q: i64 = x as i64;
    let m: i64 = d as i64;
    if q >= 0 {
        (q % m) as i32
    } else {
        let neg: i64 = (-q) % m;
        proof {
            let a = -(q as int);
            let md = m as int;
            vstd::arithmetic::div_mod::lemma_fundamental_div_mod(a, md);
            let k = a / md;
            assert(-(md * k) == (-k) * md) by (nonlinear_arith);
            if neg == 0 {
                vstd::arithmetic::div_mod::lemma_fundamental_div_mod_converse(q as int, md, -k, 0);
            } else {
                assert((-k - 1) * md == (-k) * md - md) by (nonlinear_arith);
                vstd::arithmetic::div_mod::lemma_fundamental_div_mod_converse(
                    q as int,
                    md,
                    -k - 1,
                    md - neg,
                );
            }
        }
        if neg == 0 {
            0
        } else {
            (m - neg) as i32
        }
    }
}

/// Multiply-accumulates of one layer, by block.
#[derive(Clone, Copy, Debug, PartialEq, Eq, Structural)]
pub struct Macs {
    /// One projection of the hidden state.
    pub projection: usize,
    /// The first product of the feed-forward block.
    pub ffn1: usize,
    /// The second.
    pub ffn2: usize,
    /// Scores and weighted sums of all heads.
    pub attention: usize,
}

/// Heads of a layer.
pub const HEADS: usize = 12;

/// Width of a head.
pub const HEAD_DIM: usize = 32;

/// Width of the hidden state.
pub const HIDDEN: usize = 384;

/// Width of the feed-forward block.
pub const FFN: usize = 1536;

/// Layers of the encoder.
pub const LAYERS: usize = 12;

/// Multiply-accumulates of one layer on `seq` tokens.
pub fn macs(seq: usize) -> (r: Macs)
    requires
        seq * 589_824 <= usize::MAX,
        768 * (seq * seq) <= usize::MAX,
    ensures
        r.projection == seq * (HIDDEN * HIDDEN),
        r.ffn1 == seq * (HIDDEN * FFN),
        r.ffn2 == seq * (FFN * HIDDEN),
        r.attention == 2 * HEADS * HEAD_DIM * (seq * seq),
{
    proof {
        assert(seq * seq >= 0) by (nonlinear_arith)
            requires
                seq >= 0,
        ;
    }
    Macs {
        projection: seq * 147_456,
        ffn1: seq * 589_824,
        ffn2: seq * 589_824,
        attention: 768 * (seq * seq),
    }
}

/// Rows that differ, of two lists of rows of the same length.
pub open spec fn differing(got: Seq<Seq<i64>>, want: Seq<Seq<i64>>, upto: nat) -> Seq<usize>
    decreases upto,
{
    if upto == 0 {
        Seq::empty()
    } else {
        let before = differing(got, want, (upto - 1) as nat);
        if got[upto - 1] == want[upto - 1] {
            before
        } else {
            before.push((upto - 1) as usize)
        }
    }
}

fn same_row(a: &Vec<i64>, b: &Vec<i64>) -> (r: bool)
    ensures
        r == (a@ == b@),
{
    if a.len() != b.len() {
        return false;
    }
    let mut i: usize = 0;
    while i < a.len()
        invariant
            i <= a.len(),
            a.len() == b.len(),
            forall|j: int| 0 <= j < i ==> #[trigger] a@[j] == b@[j],
        decreases a.len() - i,
    {
        if a[i] != b[i] {
            return false;
        }
        i += 1;
    }
    assert(a@ =~= b@);
    true
}

/// The rows in which two tokenizers disagree.
pub fn mismatches(got: &Vec<Vec<i64>>, want: &Vec<Vec<i64>>) -> (r: Vec<usize>)
    requires
        got@.len() == want@.len(),
    ensures
        r@ == differing(row_models(got@), row_models(want@), got@.len()),
{
    let ghost g = row_models(got@);
    let ghost w = row_models(want@);
    let mut r: Vec<usize> = Vec::new();
    let mut i: usize = 0;
    while i < got.len()
        invariant
            i <= got.len(),
            got@.len() == want@.len(),
            g == row_models(got@),
            w == row_models(want@),
            r@ == differing(g, w, i as nat),
        decreases got.len() - i,
    {
        assert(g[i as int] == got@[i as int]@ && w[i as int] == want@[i as int]@);
        if !same_row(&got[i], &want[i]) {
            r.push(i);
        }
        i += 1;
    }
    r
}

/// Rows that agree are exactly those that are not reported.
pub proof fn law_mismatches_are_complete(got: Seq<Seq<i64>>, want: Seq<Seq<i64>>, upto: nat, i: int)
    requires
        0 <= i < upto <= usize::MAX,
    ensures
        differing(got, want, upto).contains(i as usize) == (got[i] != want[i]),
    decreases upto,
{
    let all = differing(got, want, upto);
    let before = differing(got, want, (upto - 1) as nat);
    lemma_differing_bound(got, want, (upto - 1) as nat);
    if i == upto - 1 {
        if got[i] != want[i] {
            assert(all.last() == i as usize);
        } else if all.contains(i as usize) {
            let k = choose|k: int| 0 <= k < all.len() && all[k] == i as usize;
            assert(before[k] < upto - 1);
        }
    } else {
        law_mismatches_are_complete(got, want, (upto - 1) as nat, i);
        if before.contains(i as usize) {
            let k = choose|k: int| 0 <= k < before.len() && before[k] == i as usize;
            assert(all[k] == i as usize);
        }
        if all.contains(i as usize) {
            let k = choose|k: int| 0 <= k < all.len() && all[k] == i as usize;
            assert(k < before.len());
            assert(before[k] == i as usize);
        }
    }
}

proof fn lemma_differing_bound(got: Seq<Seq<i64>>, want: Seq<Seq<i64>>, upto: nat)
    requires
        upto <= usize::MAX,
    ensures
        forall|k: int|
            0 <= k < differing(got, want, upto).len() ==> #[trigger] differing(got, want, upto)[k]
                < upto,
    decreases upto,
{
    if upto > 0 {
        lemma_differing_bound(got, want, (upto - 1) as nat);
        let before = differing(got, want, (upto - 1) as nat);
        let all = differing(got, want, upto);
        assert forall|k: int| 0 <= k < all.len() implies #[trigger] all[k] < upto by {
            if k < before.len() {
                assert(all[k] == before[k]);
            }
        }
    }
}

/// Digits stand for the number that they read as.
proof fn lemma_reads(d: Seq<char>)
    ensures
        digits_value(d) == read_decimal(d),
    decreases d.len(),
{
    if d.len() > 0 {
        lemma_reads(d.drop_last());
    }
}

/// A number is read from digits, behind a plus sign or not, and is what the
/// digits say.
pub proof fn law_numbers(text: &str, d: Seq<char>, r: Option<usize>)
    requires
        call_ensures(parse_usize, (text,), r),
        text@ == d || text@ == seq!['+'] + d,
        d.len() > 0,
        forall|i: int| 0 <= i < d.len() ==> '0' <= #[trigger] d[i] <= '9',
    ensures
        read_decimal(d) <= usize::MAX ==> (r matches Some(n) && n == read_decimal(d)),
        read_decimal(d) > usize::MAX ==> r is None,
{
    lemma_reads(d);
    assert('0' <= d[0] <= '9');
    if text@ == seq!['+'] + d {
        assert(text@[0] == '+');
        assert(text@.subrange(1, text@.len() as int) =~= d);
    }
    assert(unsigned_part(text@) == d);
    assert forall|i: int| 0 <= i < d.len() implies is_digit(#[trigger] d[i]) by {}
}

/// A text that holds anything but digits behind its first character, or that
/// begins with neither a digit nor a plus sign, or that has no digit, is no
/// number.
pub proof fn law_no_numbers(text: &str, i: int, r: Option<usize>)
    requires
        call_ensures(parse_usize, (text,), r),
        ({
            ||| text@.len() == 0
            ||| text@ == seq!['+']
            ||| 0 <= i < text@.len() && !('0' <= text@[i] <= '9') && (i > 0 || text@[i] != '+')
        }),
    ensures
        r is None,
{
    let d = unsigned_part(text@);
    if text@.len() > 0 && text@ != seq!['+'] {
        if text@[0] == '+' {
            assert(d[i - 1] == text@[i]);
            assert(!is_digit(d[i - 1]));
        } else {
            assert(!is_digit(d[i]));
        }
    }
}

/// The number at a place is the one that is read there, and the default where
/// there is no such place or no number.
pub proof fn law_number_at_place(
    args: &Vec<String>,
    i: usize,
    default: usize,
    text: &str,
    read: Option<usize>,
    r: usize,
)
    requires
        call_ensures(number_or, (args, i, default), r),
        i < args@.len() ==> text@ == args@[i as int]@,
        call_ensures(parse_usize, (text,), read),
    ensures
        i >= args@.len() || read is None ==> r == default,
        i < args@.len() ==> (read matches Some(n) ==> r == n),
{
}

/// The operands are the arguments that do not begin with a dash.
proof fn lemma_operands(args: Seq<Seq<char>>)
    ensures
        operands(args, args.len()) == args.filter(|s: Seq<char>| s.len() == 0 || s[0] != '-'),
    decreases args.len(),
{
    let f = |s: Seq<char>| s.len() == 0 || s[0] != '-';
    reveal(Seq::filter);
    if args.len() > 0 {
        let head = args.drop_last();
        lemma_operands(head);
        lemma_operands_prefix(args, head, head.len());
        reveal_strlit("--arena");
        reveal_strlit("--");
        assert(args[args.len() - 1] == args.last());
    }
}

proof fn lemma_operands_prefix(args: Seq<Seq<char>>, head: Seq<Seq<char>>, upto: nat)
    requires
        upto <= head.len() <= args.len(),
        forall|i: int| 0 <= i < head.len() ==> #[trigger] head[i] == args[i],
    ensures
        operands(args, upto) == operands(head, upto),
    decreases upto,
{
    if upto > 0 {
        lemma_operands_prefix(args, head, (upto - 1) as nat);
        assert(head[upto - 1] == args[upto - 1]);
    }
}

/// The arguments of the memory benchmark. Those that begin with a dash are
/// options, of which only `--arena` and the bare `--` are taken; of the others
/// the first is the number of rounds, 5 where it is absent, and the second the
/// budget, 2048 where it is absent.
pub proof fn law_arguments(
    args: &Vec<String>,
    rounds: &str,
    budget: &str,
    first: Option<usize>,
    second: Option<usize>,
    r: Result<RunArgs, ArgError>,
    i: int,
)
    requires
        call_ensures(parse_args, (args,), r),
        call_ensures(parse_usize, (rounds,), first),
        call_ensures(parse_usize, (budget,), second),
        0 <= i < args@.len(),
        ({
            let ops = arg_models(args@).filter(|s: Seq<char>| s.len() == 0 || s[0] != '-');
            &&& ops.len() > 0 ==> rounds@ == ops[0]
            &&& ops.len() > 1 ==> budget@ == ops[1]
        }),
    ensures
        ({
            let m = arg_models(args@);
            let ops = m.filter(|s: Seq<char>| s.len() == 0 || s[0] != '-');
            let bad = m[i].len() > 0 && m[i][0] == '-' && m[i] != "--arena"@ && m[i] != "--"@;
            &&& bad ==> (r matches Err(ArgError::UnknownFlag(_)))
            &&& (r matches Ok(a) ==> {
                &&& a.arena <==> m.contains("--arena"@)
                &&& ops.len() == 0 ==> a.rounds == 5
                &&& ops.len() < 2 ==> a.budget == 2048
                &&& ops.len() > 0 ==> first == Some(a.rounds)
                &&& ops.len() > 1 ==> second == Some(a.budget)
            })
            &&& (r matches Err(ArgError::Rounds) ==> ops.len() > 0 && first is None)
            &&& (r matches Err(ArgError::Budget) ==> ops.len() > 1 && second is None)
        }),
{
    let m = arg_models(args@);
    lemma_operands(m);
    assert(is_unknown(m[i]) || !is_unknown(m[i]));
}

/// Full rows of a stress batch: as many as the budget holds, and one at least.
pub proof fn law_stress_rows(budget: usize, r: usize)
    requires
        call_ensures(stress_rows, (budget,), r),
    ensures
        r == 1 || 512 * r <= budget,
        512 * (r + 1) > budget,
        r >= 1,
{
}

/// A dummy row begins with the start token, ends with the end token and is
/// filled between them, with nothing masked.
pub proof fn law_dummy_rows(rows: usize, seq: usize, e: BatchEncoding, r: int, c: int)
    requires
        call_ensures(dummy_batch, (rows, seq), e),
        0 <= r < rows,
        0 <= c < seq,
    ensures
        e.batch_size == rows && e.encoding_length == seq,
        e.input_ids@.len() == rows * seq,
        c == seq - 1 ==> e.input_ids@[r * seq + c] == 2,
        c == 0 && seq > 1 ==> e.input_ids@[r * seq + c] == 0,
        0 < c < seq - 1 ==> e.input_ids@[r * seq + c] == 1,
        e.attention_mask@[r * seq + c] == 1,
        e.token_type_ids@[r * seq + c] == 0,
{
    lemma_in_matrix(r, c, rows as int, seq as int);
    lemma_row_col(r, c, seq as int);
    let p = r * seq + c;
    assert(e.input_ids@[p] == dummy_id(seq as int, p % (seq as int)));
}

/// The probe ids are multiples of 7919 in the vocabulary's 250037 ids, as long
/// as the multiples fit 32 bits.
pub proof fn law_probe_ids(seq: usize, r: Vec<i32>, i: int)
    requires
        call_ensures(probe_ids, (seq,), r),
        0 <= i < seq,
    ensures
        r@.len() == seq,
        0 <= r@[i] < 250037,
        i * 7919 < 0x8000_0000 ==> r@[i] == i * 7919 % 250037,
{
    assert(r@[i] == wrap32(i * 7919) as int % 250_037);
    crate::gemm::laws::law_wrapping(i * 7919);
}

/// The products of a layer, from its widths: 384 hidden, 1536 inside, 12 heads
/// of 32.
pub proof fn law_macs(seq: usize, r: Macs)
    requires
        call_ensures(macs, (seq,), r),
    ensures
        r.projection == seq * 384 * 384,
        r.ffn1 == seq * 384 * 1536,
        r.ffn2 == r.ffn1,
        r.attention == 2 * 12 * (seq * seq * 32),
{
    assert(HIDDEN * HIDDEN == 147_456);
    assert(HIDDEN * FFN == 589_824 && FFN * HIDDEN == 589_824);
    assert(2 * HEADS * HEAD_DIM == 768);
    let square = seq * seq;
    assert(r.attention == 768 * square);
    assert(768 * square == 2 * 12 * (square * 32)) by (nonlinear_arith);
}

/// A row is reported exactly where the two lists differ in it, and the reports
/// are in order.
pub proof fn law_mismatches(
    got: &Vec<Vec<i64>>,
    want: &Vec<Vec<i64>>,
    r: Vec<usize>,
    i: int,
    k: int,
)
    requires
        call_ensures(mismatches, (got, want), r),
        got@.len() == want@.len(),
        0 <= i < got@.len() <= usize::MAX,
    ensures
        r@.contains(i as usize) <==> got@[i]@ != want@[i]@,
        0 < k < r@.len() ==> r@[k - 1] < r@[k],
{
    let g = row_models(got@);
    let w = row_models(want@);
    law_mismatches_are_complete(g, w, g.len(), i);
    assert(g[i] == got@[i]@ && w[i] == want@[i]@);
    lemma_differing_grows(g, w, g.len());
}

proof fn lemma_differing_grows(got: Seq<Seq<i64>>, want: Seq<Seq<i64>>, upto: nat)
    requires
        upto <= usize::MAX,
    ensures
        forall|j: int, k: int|
            0 <= j < k < differing(got, want, upto).len() ==> #[trigger] differing(
                got,
                want,
                upto,
            )[j] < #[trigger] differing(got, want, upto)[k],
    decreases upto,
{
    if upto > 0 {
        let before = differing(got, want, (upto - 1) as nat);
        let all = differing(got, want, upto);
        lemma_differing_grows(got, want, (upto - 1) as nat);
        lemma_differing_bound(got, want, (upto - 1) as nat);
        assert forall|j: int, k: int| 0 <= j < k < all.len() implies #[trigger] all[j]
            < #[trigger] all[k] by {
            assert(all[j] == before[j]);
            if k < before.len() {
                assert(all[k] == before[k]);
            }
        }
    }
}

} // verus!
