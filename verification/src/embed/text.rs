//! Characters of a text.

use vstd::prelude::*;
use vstd::string::StrSliceExecFns;

verus! {

/// The Unicode property `White_Space`.
pub open spec fn white(c: char) -> bool {
    ||| 0x9 <= c as u32 <= 0xd
    ||| c as u32 == 0x20
    ||| c as u32 == 0x85
    ||| c as u32 == 0xa0
    ||| c as u32 == 0x1680
    ||| 0x2000 <= c as u32 <= 0x200a
    ||| c as u32 == 0x2028
    ||| c as u32 == 0x2029
    ||| c as u32 == 0x202f
    ||| c as u32 == 0x205f
    ||| c as u32 == 0x3000
}

/// Whether the character is white space.
pub fn is_white(c: char) -> (r: bool)
    ensures
        r == white(c),
{
    let u: u32 = c as u32;
    (0x9 <= u && u <= 0xd) || u == 0x20 || u == 0x85 || u == 0xa0 || u == 0x1680 || (0x2000 <= u
        && u <= 0x200a) || u == 0x2028 || u == 0x2029 || u == 0x202f || u == 0x205f || u == 0x3000
}

/// The characters of a text.
pub fn chars_of(text: &str) -> (v: Vec<char>)
    ensures
        v@ == text@,
{
    let mut v: Vec<char> = Vec::new();
    for c in it: text.chars()
        invariant
            v@ == it.seq().take(it.index() as int),
            it.seq() == text@,
    {
        v.push(c);
        assert(it.seq().take(it.index() + 1) =~= it.seq().take(it.index() as int).push(c));
    }
    assert(text@.take(text@.len() as int) =~= text@);
    v
}

/// `part` stands in `s` at `pos`.
pub open spec fn stands_at(s: Seq<char>, part: Seq<char>, pos: int) -> bool {
    pos + part.len() <= s.len() && s.subrange(pos, pos + part.len()) == part
}

/// Whether `part` stands in `s` at `pos`.
pub fn matches_at(s: &Vec<char>, part: &Vec<char>, pos: usize) -> (r: bool)
    requires
        pos <= s@.len(),
    ensures
        r == stands_at(s@, part@, pos as int),
{
    if part.len() > s.len() - pos {
        return false;
    }
    let ghost there = s@.subrange(pos as int, pos + part@.len());
    let mut i: usize = 0;
    while i < part.len()
        invariant
            i <= part.len(),
            part.len() <= s.len() - pos,
            pos <= s.len(),
            there == s@.subrange(pos as int, pos + part@.len()),
            forall|j: int| 0 <= j < i ==> #[trigger] there[j] == part@[j],
        decreases part.len() - i,
    {
        if s[pos + i] != part[i] {
            assert(there[i as int] != part@[i as int]);
            return false;
        }
        i += 1;
    }
    assert(there =~= part@);
    true
}

/// The text without its leading white space.
pub open spec fn trimmed_start(s: Seq<char>) -> Seq<char>
    decreases s.len(),
{
    if s.len() > 0 && white(s[0]) {
        trimmed_start(s.subrange(1, s.len() as int))
    } else {
        s
    }
}

/// The text without its trailing white space.
pub open spec fn trimmed_end(s: Seq<char>) -> Seq<char>
    decreases s.len(),
{
    if s.len() > 0 && white(s.last()) {
        trimmed_end(s.drop_last())
    } else {
        s
    }
}

/// The text without the white space around it.
pub open spec fn trimmed(s: Seq<char>) -> Seq<char> {
    trimmed_end(trimmed_start(s))
}

/// The text without the white space around it.
pub fn trim(text: &str) -> (r: &str)
    ensures
        r@ == trimmed(text@),
{
    let chars: Vec<char> = chars_of(text);
    let ghost s = text@;
    let mut lo: usize = 0;
    assert(s.subrange(0, s.len() as int) =~= s);
    while lo < chars.len() && is_white(chars[lo])
        invariant
            lo <= chars.len(),
            chars@ == s,
            trimmed_start(s.subrange(lo as int, s.len() as int)) == trimmed_start(s),
        decreases chars.len() - lo,
    {
        proof {
            let here = s.subrange(lo as int, s.len() as int);
            assert(here.subrange(1, here.len() as int) =~= s.subrange(lo + 1, s.len() as int));
        }
        lo += 1;
    }
    assert(trimmed_start(s) == s.subrange(lo as int, s.len() as int));
    let mut hi: usize = chars.len();
    while hi > lo && is_white(chars[hi - 1])
        invariant
            lo <= hi <= chars.len(),
            chars@ == s,
            trimmed_end(s.subrange(lo as int, hi as int)) == trimmed(s),
        decreases hi,
    {
        proof {
            let here = s.subrange(lo as int, hi as int);
            assert(here.drop_last() =~= s.subrange(lo as int, hi - 1));
        }
        hi -= 1;
    }
    assert(trimmed(s) == s.subrange(lo as int, hi as int));
    text.substring_char(lo, hi)
}

/// Trimming leaves a part of the text with no white space at either end.
pub proof fn law_trim(s: Seq<char>)
    ensures
        trimmed(s).len() > 0 ==> !white(trimmed(s)[0]) && !white(trimmed(s).last()),
        exists|a: int, b: int| 0 <= a <= b <= s.len() && #[trigger] s.subrange(a, b) == trimmed(s),
        trimmed(trimmed(s)) == trimmed(s),
{
    lemma_trim_start(s);
    let a = choose|a: int|
        0 <= a <= s.len() && #[trigger] s.subrange(a, s.len() as int) == trimmed_start(s);
    let t = trimmed_start(s);
    lemma_trim_end(t);
    let b = choose|b: int| 0 <= b <= t.len() && #[trigger] t.subrange(0, b) == trimmed_end(t);
    assert(s.subrange(a, a + b) =~= t.subrange(0, b));
    if trimmed(s).len() > 0 {
        assert(trimmed(s)[0] == t[0]);
    }
}

proof fn lemma_trim_start(s: Seq<char>)
    ensures
        exists|a: int|
            0 <= a <= s.len() && #[trigger] s.subrange(a, s.len() as int) == trimmed_start(s),
        trimmed_start(s).len() > 0 ==> !white(trimmed_start(s)[0]),
    decreases s.len(),
{
    if s.len() > 0 && white(s[0]) {
        let rest = s.subrange(1, s.len() as int);
        lemma_trim_start(rest);
        let a = choose|a: int|
            0 <= a <= rest.len() && #[trigger] rest.subrange(a, rest.len() as int)
                == trimmed_start(rest);
        assert(s.subrange(a + 1, s.len() as int) =~= rest.subrange(a, rest.len() as int));
    } else {
        assert(s.subrange(0, s.len() as int) =~= s);
    }
}

proof fn lemma_trim_end(s: Seq<char>)
    ensures
        exists|b: int| 0 <= b <= s.len() && #[trigger] s.subrange(0, b) == trimmed_end(s),
        trimmed_end(s).len() > 0 ==> !white(trimmed_end(s).last()),
    decreases s.len(),
{
    if s.len() > 0 && white(s.last()) {
        let rest = s.drop_last();
        lemma_trim_end(rest);
        let b = choose|b: int|
            0 <= b <= rest.len() && #[trigger] rest.subrange(0, b) == trimmed_end(rest);
        assert(s.subrange(0, b) =~= rest.subrange(0, b));
    } else {
        assert(s.subrange(0, s.len() as int) =~= s);
    }
}

} // verus!
