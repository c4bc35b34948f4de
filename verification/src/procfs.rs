//! Facts read out of the kernel's text files about the process and the
//! processors.

use vstd::prelude::*;
use vstd::string::{StrSliceExecFns, StringExecFns};
use crate::embed::text::{chars_of, is_white, matches_at, stands_at, white};

verus! {

/// Where the line that begins at `from` ends: at the next newline, or at the
/// end of the text.
pub open spec fn line_end(s: Seq<char>, from: int) -> int
    decreases s.len() - from,
{
    if from >= s.len() {
        s.len() as int
    } else if s[from] == '\n' {
        from
    } else {
        line_end(s, from + 1)
    }
}

/// First place at or after `from` that is no white space, before `to`.
pub open spec fn skip_white(s: Seq<char>, from: int, to: int) -> int
    decreases to - from,
{
    if from >= to {
        to
    } else if white(s[from]) {
        skip_white(s, from + 1, to)
    } else {
        from
    }
}

/// First place at or after `from` that is white space, before `to`.
pub open spec fn skip_word(s: Seq<char>, from: int, to: int) -> int
    decreases to - from,
{
    if from >= to {
        to
    } else if white(s[from]) {
        from
    } else {
        skip_word(s, from + 1, to)
    }
}

/// The first word between `from` and `to`.
pub open spec fn first_word(s: Seq<char>, from: int, to: int) -> Option<Seq<char>> {
    let a = skip_white(s, from, to);
    if a >= to {
        None
    } else {
        Some(s.subrange(a, skip_word(s, a, to)))
    }
}

/// For each line at or after `from` that begins with `key`, in order, the
/// first word after the key.
pub open spec fn fields(s: Seq<char>, key: Seq<char>, from: int) -> Seq<Option<Seq<char>>>
    decreases s.len() + 1 - from,
{
    if from >= s.len() {
        Seq::empty()
    } else {
        let end = line_end(s, from);
        proof {
            lemma_line_end(s, from);
        }
        let rest = fields(s, key, end + 1);
        if stands_at(s, key, from) && from + key.len() <= end {
            seq![first_word(s, from + key.len(), end)] + rest
        } else {
            rest
        }
    }
}

pub proof fn lemma_line_end(s: Seq<char>, from: int)
    ensures
        from <= s.len() ==> from <= line_end(s, from) <= s.len(),
    decreases s.len() - from,
{
    if from < s.len() && s[from] != '\n' {
        lemma_line_end(s, from + 1);
    }
}

fn find_line_end(chars: &Vec<char>, from: usize) -> (r: usize)
    requires
        from < chars@.len(),
    ensures
        r == line_end(chars@, from as int),
        from <= r <= chars@.len(),
{
    let mut i: usize = from;
    while i < chars.len() && chars[i] != '\n'
        invariant
            from <= i <= chars.len(),
            line_end(chars@, i as int) == line_end(chars@, from as int),
        decreases chars.len() - i,
    {
        i += 1;
    }
    i
}

/// The first word of `text` between `from` and `to`.
fn word_between(text: &str, chars: &Vec<char>, from: usize, to: usize) -> (r: Option<String>)
    requires
        chars@ == text@,
        from <= to <= chars@.len(),
    ensures
        (match r {
            Some(w) => Some(w@),
            None => None,
        }) == first_word(text@, from as int, to as int),
{
    let mut a: usize = from;
    while a < to && is_white(chars[a])
        invariant
            from <= a <= to <= chars.len(),
            chars@ == text@,
            skip_white(text@, a as int, to as int) == skip_white(text@, from as int, to as int),
        decreases to - a,
    {
        a += 1;
    }
    if a >= to {
        return None;
    }
    let mut b: usize = a;
    while b < to && !is_white(chars[b])
        invariant
            a <= b <= to <= chars.len(),
            chars@ == text@,
            skip_word(text@, b as int, to as int) == skip_word(text@, a as int, to as int),
        decreases to - b,
    {
        b += 1;
    }
    Some(String::from_str(text.substring_char(a, b)))
}

/// Models of a list of words.
pub open spec fn word_models(words: Seq<Option<String>>) -> Seq<Option<Seq<char>>> {
    words.map_values(
        |w: Option<String>|
            match w {
                Some(t) => Some(t@),
                None => None,
            },
    )
}

/// The first word after `key` on each line that begins with it; `None` for
/// such a line with no word.
pub fn field_words(text: &str, key: &str) -> (r: Vec<Option<String>>)
    ensures
        word_models(r@) == fields(text@, key@, 0),
{
    let chars: Vec<char> = chars_of(text);
    let name: Vec<char> = chars_of(key);
    let mut r: Vec<Option<String>> = Vec::new();
    let mut from: usize = 0;
    assert(word_models(r@) =~= Seq::empty());
    assert(word_models(r@) + fields(text@, key@, 0) =~= fields(text@, key@, 0));
    while from < chars.len()
        invariant
            from <= chars.len(),
            chars@ == text@,
            name@ == key@,
            word_models(r@) + fields(text@, key@, from as int) == fields(text@, key@, 0),
        decreases chars.len() - from,
    {
        let end: usize = find_line_end(&chars, from);
        let ghost before = r@;
        let ghost rest = fields(text@, key@, end + 1);
        if matches_at(&chars, &name, from) && name.len() <= end - from {
            let w: Option<String> = word_between(text, &chars, from + name.len(), end);
            let ghost wm = first_word(text@, from + key@.len(), end as int);
            r.push(w);
            assert(word_models(r@) =~= word_models(before).push(wm));
            assert(word_models(before) + (seq![wm] + rest) =~= word_models(r@) + rest);
        }
        if end == chars.len() {
            assert(rest =~= Seq::empty());
            assert(word_models(r@) + rest =~= word_models(r@));
            return r;
        }
        from = end + 1;
    }
    assert(word_models(r@) + fields(text@, key@, from as int) =~= word_models(r@));
    r
}

/// How often `part` occurs at or after `from`, occurrences not overlapping.
pub open spec fn occurrences(s: Seq<char>, part: Seq<char>, from: int) -> nat
    decreases s.len() - from,
{
    if from >= s.len() || part.len() == 0 {
        0
    } else if stands_at(s, part, from) {
        1 + occurrences(s, part, from + part.len())
    } else {
        occurrences(s, part, from + 1)
    }
}

/// `part` occurs between `from` and `to`.
pub open spec fn occurs(s: Seq<char>, part: Seq<char>, from: int, to: int) -> bool {
    exists|p: int| from <= p && p + part.len() <= to && #[trigger] stands_at(s, part, p)
}

fn count_occurrences(chars: &Vec<char>, part: &Vec<char>) -> (r: usize)
    requires
        part@.len() > 0,
    ensures
        r == occurrences(chars@, part@, 0),
{
    let mut n: usize = 0;
    let mut i: usize = 0;
    while i < chars.len()
        invariant
            part@.len() > 0,
            i <= chars.len(),
            n <= i,
            n + occurrences(chars@, part@, i as int) == occurrences(chars@, part@, 0),
        decreases chars.len() - i,
    {
        if matches_at(chars, part, i) {
            n += 1;
            i += part.len();
        } else {
            i += 1;
        }
    }
    n
}

fn occurs_between(chars: &Vec<char>, part: &Vec<char>, from: usize, to: usize) -> (r: bool)
    requires
        from <= to <= chars@.len(),
    ensures
        r == occurs(chars@, part@, from as int, to as int),
{
    let mut i: usize = from;
    while i < to && part.len() <= to - i
        invariant
            from <= i <= to <= chars.len(),
            forall|p: int|
                from <= p < i && p + part@.len() <= to ==> !#[trigger] stands_at(chars@, part@, p),
        decreases to - i,
    {
        if matches_at(chars, part, i) {
            assert(stands_at(chars@, part@, i as int));
            return true;
        }
        i += 1;
    }
    if i == to && part.len() == 0 {
        assert(chars@.subrange(to as int, to as int) =~= part@);
        assert(stands_at(chars@, part@, to as int));
        return true;
    }
    false
}

/// What the kernel says of the processors.
#[derive(Clone, Copy, Debug, PartialEq, Eq, Structural)]
pub struct CpuSummary {
    pub cores: usize,
    pub vnni: bool,
    pub amx: bool,
}

/// First line at or after `from` that begins with `key`.
pub open spec fn first_line(s: Seq<char>, key: Seq<char>, from: int) -> Option<int>
    decreases s.len() + 1 - from,
{
    if from >= s.len() {
        None
    } else {
        let end = line_end(s, from);
        proof {
            lemma_line_end(s, from);
        }
        if stands_at(s, key, from) && from + key.len() <= end {
            Some(from)
        } else {
            first_line(s, key, end + 1)
        }
    }
}

/// The first line that begins with `key` holds `part`.
pub open spec fn line_has(s: Seq<char>, key: Seq<char>, part: Seq<char>) -> bool {
    match first_line(s, key, 0) {
        Some(from) => occurs(s, part, from, line_end(s, from)),
        None => false,
    }
}

/// Counts the processors of a `/proc/cpuinfo` text and looks for the two
/// integer extensions on its first line of flags.
pub fn cpu_summary(text: &str) -> (r: CpuSummary)
    ensures
        r.cores == occurrences(text@, "processor"@, 0),
        r.vnni == line_has(text@, "flags"@, "avx512_vnni"@),
        r.amx == line_has(text@, "flags"@, "amx_int8"@),
{
    let chars: Vec<char> = chars_of(text);
    let key: Vec<char> = chars_of("flags");
    let vnni: Vec<char> = chars_of("avx512_vnni");
    let amx: Vec<char> = chars_of("amx_int8");
    proof {
        reveal_strlit("processor");
    }
    let cores: usize = count_occurrences(&chars, &chars_of("processor"));
    let mut from: usize = 0;
    while from < chars.len()
        invariant
            from <= chars.len(),
            chars@ == text@,
            key@ == "flags"@,
            vnni@ == "avx512_vnni"@,
            amx@ == "amx_int8"@,
            cores == occurrences(text@, "processor"@, 0),
            first_line(text@, "flags"@, from as int) == first_line(text@, "flags"@, 0),
        decreases chars.len() - from,
    {
        let end: usize = find_line_end(&chars, from);
        if matches_at(&chars, &key, from) && key.len() <= end - from {
            return CpuSummary {
                cores,
                vnni: occurs_between(&chars, &vnni, from, end),
                amx: occurs_between(&chars, &amx, from, end),
            };
        }
        if end == chars.len() {
            assert(first_line(text@, "flags"@, end + 1) is None);
            return CpuSummary { cores, vnni: false, amx: false };
        }
        from = end + 1;
    }
    CpuSummary { cores, vnni: false, amx: false }
}

/// A line begins at `p`, and it begins with `key`.
pub open spec fn keyed(s: Seq<char>, key: Seq<char>, p: int) -> bool {
    &&& 0 <= p < s.len()
    &&& p == 0 || s[p - 1] == '\n'
    &&& key.is_prefix_of(s.subrange(p, s.len() as int))
}

/// `w` is the first word from `from` on before the line ends: a stretch
/// without white space between white space or ends, or nothing where the rest
/// of the line is white space.
pub open spec fn is_first_word(s: Seq<char>, from: int, w: Option<Seq<char>>) -> bool {
    match w {
        Some(w) => exists|a: int, b: int|
            {
                &&& from <= a < b <= s.len()
                &&& w == #[trigger] s.subrange(a, b)
                &&& forall|q: int| from <= q < a ==> white(#[trigger] s[q]) && s[q] != '\n'
                &&& forall|q: int| a <= q < b ==> !white(#[trigger] s[q])
                &&& b == s.len() || white(s[b])
            },
        None => exists|e: int|
            {
                &&& from <= e <= s.len()
                &&& e == s.len() || s[e] == '\n'
                &&& #[trigger] all_white(s, from, e)
            },
    }
}

/// Every character between the two places is white space.
pub open spec fn all_white(s: Seq<char>, from: int, to: int) -> bool {
    forall|q: int| from <= q < to ==> white(#[trigger] s[q])
}

proof fn lemma_line(s: Seq<char>, from: int)
    requires
        0 <= from <= s.len(),
    ensures
        from <= line_end(s, from) <= s.len(),
        forall|q: int| from <= q < line_end(s, from) ==> #[trigger] s[q] != '\n',
        line_end(s, from) < s.len() ==> s[line_end(s, from)] == '\n',
    decreases s.len() - from,
{
    if from < s.len() && s[from] != '\n' {
        lemma_line(s, from + 1);
    }
}

proof fn lemma_skip_white(s: Seq<char>, from: int, to: int)
    requires
        0 <= from <= to <= s.len(),
    ensures
        from <= skip_white(s, from, to) <= to,
        all_white(s, from, skip_white(s, from, to)),
        skip_white(s, from, to) < to ==> !white(s[skip_white(s, from, to)]),
    decreases to - from,
{
    if from < to && white(s[from]) {
        lemma_skip_white(s, from + 1, to);
        let e = skip_white(s, from, to);
        assert forall|q: int| from <= q < e implies white(#[trigger] s[q]) by {
            if q > from {
                assert(all_white(s, from + 1, e));
            }
        }
    }
}

proof fn lemma_skip_word(s: Seq<char>, from: int, to: int)
    requires
        0 <= from <= to <= s.len(),
    ensures
        from <= skip_word(s, from, to) <= to,
        forall|q: int| from <= q < skip_word(s, from, to) ==> !white(#[trigger] s[q]),
        skip_word(s, from, to) < to ==> white(s[skip_word(s, from, to)]),
    decreases to - from,
{
    if from < to && !white(s[from]) {
        lemma_skip_word(s, from + 1, to);
    }
}

/// The word that is found is the first one of the rest of the line.
proof fn lemma_first_word(s: Seq<char>, from: int, to: int)
    requires
        0 <= from <= to <= s.len(),
        forall|q: int| from <= q < to ==> #[trigger] s[q] != '\n',
        to < s.len() ==> s[to] == '\n',
    ensures
        is_first_word(s, from, first_word(s, from, to)),
{
    lemma_skip_white(s, from, to);
    let a = skip_white(s, from, to);
    if a < to {
        lemma_skip_word(s, a, to);
        let b = skip_word(s, a, to);
        assert(first_word(s, from, to) == Some(s.subrange(a, b)));
        assert forall|q: int| from <= q < a implies white(#[trigger] s[q]) && s[q] != '\n' by {
            assert(all_white(s, from, a));
        }
        assert(b == s.len() || white(s[b]));
    } else {
        assert(all_white(s, from, to));
    }
}

/// A line that begins with a key holds it.
proof fn lemma_keyed(s: Seq<char>, key: Seq<char>, from: int)
    requires
        0 <= from < s.len(),
        from == 0 || s[from - 1] == '\n',
        forall|i: int| 0 <= i < key.len() ==> #[trigger] key[i] != '\n',
    ensures
        keyed(s, key, from) <==> stands_at(s, key, from) && from + key.len() <= line_end(s, from),
{
    lemma_line(s, from);
    let rest = s.subrange(from, s.len() as int);
    if key.is_prefix_of(rest) {
        assert(s.subrange(from, from + key.len()) =~= rest.subrange(0, key.len() as int));
        let e = line_end(s, from);
        if e < from + key.len() {
            assert(rest.subrange(0, key.len() as int)[e - from] == s[e]);
            assert(key[e - from] == '\n');
        }
    }
    if stands_at(s, key, from) {
        assert(rest.subrange(0, key.len() as int) =~= s.subrange(from, from + key.len()));
    }
}

/// The lines from `from` on that begin with the key, and the first word of
/// each.
proof fn lemma_fields(s: Seq<char>, key: Seq<char>, from: int) -> (starts: Seq<int>)
    requires
        0 <= from,
        from < s.len() ==> from == 0 || s[from - 1] == '\n',
        forall|i: int| 0 <= i < key.len() ==> #[trigger] key[i] != '\n',
    ensures
        starts.len() == fields(s, key, from).len(),
        forall|j: int, k: int|
            0 <= j < k < starts.len() ==> #[trigger] starts[j] < #[trigger] starts[k],
        forall|k: int| 0 <= k < starts.len() ==> #[trigger] starts[k] >= from,
        forall|p: int|
            from <= p ==> (#[trigger] keyed(s, key, p) <==> starts.contains(p)),
        forall|k: int|
            0 <= k < starts.len() ==> is_first_word(
                s,
                #[trigger] starts[k] + key.len(),
                fields(s, key, from)[k],
            ),
    decreases s.len() + 1 - from,
{
    if from >= s.len() {
        Seq::empty()
    } else {
        lemma_line(s, from);
        lemma_keyed(s, key, from);
        let end = line_end(s, from);
        let rest = fields(s, key, end + 1);
        let later = lemma_fields(s, key, end + 1);
        let all = fields(s, key, from);
        let here = stands_at(s, key, from) && from + key.len() <= end;
        let starts = if here {
            seq![from] + later
        } else {
            later
        };
        assert forall|p: int| from < p <= end implies !#[trigger] keyed(s, key, p) by {
            assert(s[p - 1] != '\n');
        }
        if here {
            lemma_first_word(s, from + key.len(), end);
            assert(all == seq![first_word(s, from + key.len(), end)] + rest);
            assert forall|p: int| from <= p implies (#[trigger] keyed(s, key, p)
                <==> starts.contains(p)) by {
                assert(starts[0] == from);
                if later.contains(p) {
                    let k = choose|k: int| 0 <= k < later.len() && later[k] == p;
                    assert(starts[k + 1] == p);
                }
                if starts.contains(p) && p != from {
                    let k = choose|k: int| 0 <= k < starts.len() && starts[k] == p;
                    assert(later[k - 1] == p);
                }
                if from < p <= end && later.contains(p) {
                    let k = choose|k: int| 0 <= k < later.len() && later[k] == p;
                    assert(later[k] >= end + 1);
                }
            }
            assert forall|k: int| 0 <= k < starts.len() implies is_first_word(
                s,
                #[trigger] starts[k] + key.len(),
                all[k],
            ) by {
                if k > 0 {
                    assert(starts[k] == later[k - 1]);
                    assert(all[k] == rest[k - 1]);
                }
            }
            assert forall|j: int, k: int| 0 <= j < k < starts.len() implies #[trigger] starts[j]
                < #[trigger] starts[k] by {
                assert(starts[k] == later[k - 1]);
                if j > 0 {
                    assert(starts[j] == later[j - 1]);
                }
            }
        } else {
            assert forall|p: int| from <= p implies (#[trigger] keyed(s, key, p)
                <==> starts.contains(p)) by {
                if p <= end && starts.contains(p) {
                    let k = choose|k: int| 0 <= k < later.len() && later[k] == p;
                    assert(later[k] >= end + 1);
                }
            }
        }
        starts
    }
}

/// There is one answer for each line that begins with the key, in order: the
/// first word behind the key, or nothing where the line has none.
pub proof fn law_field_words(text: &str, key: &str, r: Vec<Option<String>>) -> (starts: Seq<int>)
    requires
        call_ensures(field_words, (text, key), r),
        forall|i: int| 0 <= i < key@.len() ==> #[trigger] key@[i] != '\n',
    ensures
        starts.len() == r@.len(),
        forall|j: int, k: int|
            0 <= j < k < starts.len() ==> #[trigger] starts[j] < #[trigger] starts[k],
        forall|p: int| 0 <= p ==> (#[trigger] keyed(text@, key@, p) <==> starts.contains(p)),
        forall|k: int|
            0 <= k < r@.len() ==> is_first_word(
                text@,
                #[trigger] starts[k] + key@.len(),
                word_models(r@)[k],
            ),
{
    assert(word_models(r@).len() == r@.len());
    lemma_fields(text@, key@, 0)
}

/// Which words were found is what the models say.
pub proof fn law_word_models(words: Seq<Option<String>>, k: int)
    requires
        0 <= k < words.len(),
    ensures
        words[k] is None ==> word_models(words)[k] is None,
        words[k] matches Some(w) ==> word_models(words)[k] == Some(w@),
{
}

/// The places where the processors are listed.
proof fn lemma_processors(s: Seq<char>, from: int) -> (places: Seq<int>)
    requires
        0 <= from,
    ensures
        places.len() == occurrences(s, "processor"@, from),
        forall|j: int, k: int|
            0 <= j < k < places.len() ==> #[trigger] places[j] < #[trigger] places[k],
        forall|k: int| 0 <= k < places.len() ==> #[trigger] places[k] >= from,
        forall|p: int|
            from <= p ==> (#[trigger] stands_at(s, "processor"@, p) <==> places.contains(p)),
    decreases s.len() - from,
{
    reveal_strlit("processor");
    let part = "processor"@;
    if from >= s.len() {
        assert forall|p: int| from <= p implies !#[trigger] stands_at(s, part, p) by {}
        Seq::empty()
    } else if stands_at(s, part, from) {
        let later = lemma_processors(s, from + part.len());
        let places = seq![from] + later;
        let there = s.subrange(from, from + part.len());
        assert forall|p: int| from < p < from + part.len() implies !#[trigger] stands_at(
            s,
            part,
            p,
        ) by {
            if stands_at(s, part, p) {
                assert(s.subrange(p, p + part.len())[0] == s[p]);
                assert(there[p - from] == s[p]);
                assert(part[p - from] == 'p');
            }
        }
        assert forall|p: int| from <= p implies (#[trigger] stands_at(s, part, p)
            <==> places.contains(p)) by {
            assert(places[0] == from);
            if later.contains(p) {
                let k = choose|k: int| 0 <= k < later.len() && later[k] == p;
                assert(places[k + 1] == p);
                assert(later[k] >= from + part.len());
            }
            if places.contains(p) && p != from {
                let k = choose|k: int| 0 <= k < places.len() && places[k] == p;
                assert(later[k - 1] == p);
            }
        }
        assert forall|j: int, k: int| 0 <= j < k < places.len() implies #[trigger] places[j]
            < #[trigger] places[k] by {
            assert(places[k] == later[k - 1]);
            if j > 0 {
                assert(places[j] == later[j - 1]);
            }
        }
        places
    } else {
        let places = lemma_processors(s, from + 1);
        assert forall|p: int| from <= p implies (#[trigger] stands_at(s, part, p)
            <==> places.contains(p)) by {
            if p == from && places.contains(p) {
                let k = choose|k: int| 0 <= k < places.len() && places[k] == p;
                assert(places[k] >= from + 1);
            }
        }
        places
    }
}

/// The cores are as many as the places where `processor` stands.
pub proof fn law_cores(text: &str, r: CpuSummary) -> (places: Seq<int>)
    requires
        call_ensures(cpu_summary, (text,), r),
    ensures
        places.len() == r.cores,
        forall|j: int, k: int|
            0 <= j < k < places.len() ==> #[trigger] places[j] < #[trigger] places[k],
        forall|p: int|
            0 <= p ==> (#[trigger] stands_at(text@, "processor"@, p) <==> places.contains(p)),
{
    lemma_processors(text@, 0)
}

proof fn lemma_first_line(s: Seq<char>, key: Seq<char>, from: int, p: int)
    requires
        0 <= from <= p,
        from < s.len() ==> from == 0 || s[from - 1] == '\n',
        forall|i: int| 0 <= i < key.len() ==> #[trigger] key[i] != '\n',
        keyed(s, key, p),
        forall|q: int| from <= q < p ==> !#[trigger] keyed(s, key, q),
    ensures
        first_line(s, key, from) == Some(p),
    decreases s.len() + 1 - from,
{
    lemma_line(s, from);
    lemma_keyed(s, key, from);
    if p != from {
        assert(!keyed(s, key, from));
        let end = line_end(s, from);
        assert(p > end) by {
            if p <= end {
                assert(s[p - 1] != '\n');
            }
        }
        lemma_first_line(s, key, end + 1, p);
    }
}

proof fn lemma_no_line(s: Seq<char>, key: Seq<char>, from: int)
    requires
        0 <= from,
        from < s.len() ==> from == 0 || s[from - 1] == '\n',
        forall|i: int| 0 <= i < key.len() ==> #[trigger] key[i] != '\n',
        forall|q: int| from <= q ==> !#[trigger] keyed(s, key, q),
    ensures
        first_line(s, key, from) is None,
    decreases s.len() + 1 - from,
{
    if from < s.len() {
        lemma_line(s, from);
        lemma_keyed(s, key, from);
        assert(!keyed(s, key, from));
        lemma_no_line(s, key, line_end(s, from) + 1);
    }
}

/// An extension is there exactly where its name stands on the first line that
/// begins with `flags`.
pub proof fn law_extensions(text: &str, r: CpuSummary, p: int)
    requires
        call_ensures(cpu_summary, (text,), r),
        keyed(text@, "flags"@, p),
        forall|q: int| 0 <= q < p ==> !#[trigger] keyed(text@, "flags"@, q),
    ensures
        r.vnni <==> exists|q: int|
            p <= q && #[trigger] stands_at(text@, "avx512_vnni"@, q) && (forall|i: int|
                p <= i < q + "avx512_vnni"@.len() ==> #[trigger] text@[i] != '\n'),
        r.amx <==> exists|q: int|
            p <= q && #[trigger] stands_at(text@, "amx_int8"@, q) && (forall|i: int|
                p <= i < q + "amx_int8"@.len() ==> #[trigger] text@[i] != '\n'),
{
    reveal_strlit("flags");
    reveal_strlit("avx512_vnni");
    reveal_strlit("amx_int8");
    let s = text@;
    lemma_first_line(s, "flags"@, 0, p);
    lemma_line(s, p);
    lemma_on_line(s, "avx512_vnni"@, p);
    lemma_on_line(s, "amx_int8"@, p);
}

/// What stands on a line stands before a newline.
proof fn lemma_on_line(s: Seq<char>, part: Seq<char>, p: int)
    requires
        0 <= p <= s.len(),
        part.len() > 0,
    ensures
        occurs(s, part, p, line_end(s, p)) <==> exists|q: int|
            p <= q && #[trigger] stands_at(s, part, q) && (forall|i: int|
                p <= i < q + part.len() ==> #[trigger] s[i] != '\n'),
{
    lemma_line(s, p);
    let e = line_end(s, p);
    if occurs(s, part, p, e) {
        let q = choose|q: int| p <= q && q + part.len() <= e && #[trigger] stands_at(s, part, q);
        assert(forall|i: int| p <= i < q + part.len() ==> #[trigger] s[i] != '\n');
    }
    if exists|q: int|
        p <= q && #[trigger] stands_at(s, part, q) && (forall|i: int|
            p <= i < q + part.len() ==> #[trigger] s[i] != '\n') {
        let q = choose|q: int|
            p <= q && #[trigger] stands_at(s, part, q) && (forall|i: int|
                p <= i < q + part.len() ==> #[trigger] s[i] != '\n');
        if e < q + part.len() {
            assert(s[e] == '\n');
        }
    }
}

/// Without a line of flags no extension is there.
pub proof fn law_no_flags(text: &str, r: CpuSummary)
    requires
        call_ensures(cpu_summary, (text,), r),
        forall|q: int| 0 <= q ==> !#[trigger] keyed(text@, "flags"@, q),
    ensures
        !r.vnni && !r.amx,
{
    reveal_strlit("flags");
    lemma_no_line(text@, "flags"@, 0);
}

} // verus!
