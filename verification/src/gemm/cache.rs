//! Packed operands kept between calls, found again by the place, the shape
//! and a fingerprint of their buffer. A buffer that moved into a freed place
//! is told apart from the one that was there by its bytes.

use std::sync::Arc;

use vstd::prelude::*;
use vstd::slice::slice_to_vec;
use crate::arith::wrap32;
use crate::gemm::amx::{is_tile_packed, pack_b_amx, CACHE_LIMIT};
use crate::gemm::bytes::{byte_values, sum_cols_u8};
use crate::gemm::model::col_sum;

verus! {

/// Eight bytes from `at`, lowest first.
pub open spec fn le64(b: Seq<u8>, at: int) -> int {
    b[at] + b[at + 1] * 0x100 + b[at + 2] * 0x1_0000 + b[at + 3] * 0x100_0000 + b[at + 4]
        * 0x1_0000_0000 + b[at + 5] * 0x100_0000_0000 + b[at + 6] * 0x1_0000_0000_0000 + b[at + 7]
        * 0x100_0000_0000_0000
}

/// Eight bytes from `at`, lowest first.
fn read_le64(b: &[u8], at: usize) -> (r: u64)
    requires
        at + 8 <= b.len(),
    ensures
        r == le64(b@, at as int),
{
    b[at] as u64 + b[at + 1] as u64 * 0x100 + b[at + 2] as u64 * 0x1_0000 + b[at + 3] as u64
        * 0x100_0000 + b[at + 4] as u64 * 0x1_0000_0000 + b[at + 5] as u64 * 0x100_0000_0000 + b[at
        + 6] as u64 * 0x1_0000_0000_0000 + b[at + 7] as u64 * 0x100_0000_0000_0000
}

/// Fingerprint of a buffer: its length, mixed with its first and last eight
/// bytes from eight bytes on, and with its middle eight from sixteen on.
pub open spec fn tag_of(b: Seq<u8>) -> u64 {
    let len = b.len() as u64;
    let ends = if b.len() >= 8 {
        len ^ (le64(b, 0) as u64) ^ (le64(b, b.len() - 8) as u64)
    } else {
        len
    };
    if b.len() >= 16 {
        ends ^ (le64(b, b.len() / 2 - 4) as u64)
    } else {
        ends
    }
}

/// Cheap fingerprint, which tells most buffers apart without a look at all of
/// their bytes.
pub fn buf_tag(b: &[u8]) -> (t: u64)
    ensures
        t == tag_of(b@),
{
    let mut t: u64 = b.len() as u64;
    if b.len() >= 8 {
        t = t ^ read_le64(b, 0);
        t = t ^ read_le64(b, b.len() - 8);
    }
    if b.len() >= 16 {
        let mid: usize = b.len() / 2;
        t = t ^ read_le64(b, mid - 4);
    }
    t
}

/// `sums` are the wrapped column sums of the bytes `B[k, n]`.
pub open spec fn is_col_sums(sums: Seq<i32>, b: Seq<u8>, n: int, k: int, signed: bool) -> bool {
    &&& sums.len() == n
    &&& forall|j: int|
        0 <= j < n ==> #[trigger] sums[j] == wrap32(
            col_sum(byte_values(b, signed), n, j, k as nat),
        )
}

/// What a kept operand is found by.
#[derive(Clone, Copy, Debug, PartialEq, Eq, Structural)]
pub struct BufKey {
    pub addr: usize,
    pub n: usize,
    pub k: usize,
    pub tag: u64,
}

/// The key of the buffer `b` of shape `[k, n]` at `addr`.
pub open spec fn key_of(addr: usize, b: Seq<u8>, n: usize, k: usize) -> BufKey {
    BufKey { addr, n, k, tag: tag_of(b) }
}

/// Whether two buffers hold the same bytes.
fn same_bytes(a: &[u8], b: &[u8]) -> (r: bool)
    ensures
        r == (a@ == b@),
{
    if a.len() != b.len() {
        return false;
    }
    let mut i: usize = 0;
    while i < a.len()
        invariant
            i <= a.len(),
            a.len() == b.len(),
            forall|j: int| 0 <= j < i ==> a@[j] == b@[j],
        decreases a.len() - i,
    {
        if a[i] != b[i] {
            return false;
        }
        i += 1;
    }
    assert(a@ =~= b@);
    true
}

pub struct PackEntry {
    pub key: BufKey,
    /// The bytes that were packed.
    pub source: Vec<u8>,
    pub bytes: Arc<Vec<u8>>,
}

pub struct SumEntry {
    pub key: BufKey,
    pub signed: bool,
    /// The bytes that were summed.
    pub source: Vec<u8>,
    pub sums: Arc<Vec<i32>>,
}

/// Packed operands and their column sums.
pub struct PackCache {
    packs: Vec<PackEntry>,
    sums: Vec<SumEntry>,
}

impl PackCache {
    /// No key is kept twice, neither list outgrows the limit, and what is kept
    /// was made from the bytes that it is kept with.
    pub closed spec fn wf(self) -> bool {
        &&& self.packs@.len() <= CACHE_LIMIT
        &&& self.sums@.len() <= CACHE_LIMIT
        &&& forall|i: int, j: int|
            0 <= i < j < self.packs@.len() ==> (#[trigger] self.packs@[i]).key != (
            #[trigger] self.packs@[j]).key
        &&& forall|i: int, j: int|
            0 <= i < j < self.sums@.len() ==> (#[trigger] self.sums@[i]).key != (
            #[trigger] self.sums@[j]).key || self.sums@[i].signed != self.sums@[j].signed
        &&& forall|i: int|
            0 <= i < self.packs@.len() ==> {
                let e = #[trigger] self.packs@[i];
                is_tile_packed(e.bytes@, e.source@, e.key.n as int, e.key.k as int)
            }
        &&& forall|i: int|
            0 <= i < self.sums@.len() ==> {
                let e = #[trigger] self.sums@[i];
                is_col_sums(e.sums@, e.source@, e.key.n as int, e.key.k as int, e.signed)
            }
    }

    /// The tiles `bytes` are kept under the key, together with what they were
    /// packed from.
    pub closed spec fn has_pack(self, key: BufKey, source: Seq<u8>, bytes: Seq<u8>) -> bool {
        exists|i: int|
            0 <= i < self.packs@.len() && (#[trigger] self.packs@[i]).key == key
                && self.packs@[i].source@ == source && self.packs@[i].bytes@ == bytes
    }

    /// The sums are kept under the key and the sign, together with what they
    /// were taken of.
    pub closed spec fn has_sums(
        self,
        key: BufKey,
        signed: bool,
        source: Seq<u8>,
        sums: Seq<i32>,
    ) -> bool {
        exists|i: int|
            0 <= i < self.sums@.len() && (#[trigger] self.sums@[i]).key == key
                && self.sums@[i].signed == signed && self.sums@[i].source@ == source
                && self.sums@[i].sums@ == sums
    }

    /// Some tiles are kept under the key.
    pub open spec fn knows_pack(self, key: BufKey) -> bool {
        exists|source: Seq<u8>, bytes: Seq<u8>| #[trigger] self.has_pack(key, source, bytes)
    }

    /// Some sums are kept under the key and the sign.
    pub open spec fn knows_sums(self, key: BufKey, signed: bool) -> bool {
        exists|source: Seq<u8>, sums: Seq<i32>| #[trigger] self.has_sums(key, signed, source, sums)
    }

    /// Number of packed operands kept.
    pub closed spec fn packs_len(self) -> nat {
        self.packs@.len()
    }

    /// Number of lists of column sums kept.
    pub closed spec fn sums_len(self) -> nat {
        self.sums@.len()
    }

    pub fn new() -> (r: Self)
        ensures
            r.wf(),
            r.packs_len() == 0,
            r.sums_len() == 0,
            forall|key: BufKey| !#[trigger] r.knows_pack(key),
            forall|key: BufKey, signed: bool| !#[trigger] r.knows_sums(key, signed),
    {
        PackCache { packs: Vec::new(), sums: Vec::new() }
    }

    /// Where the tiles under a key are.
    fn find_pack(&self, key: BufKey) -> (r: Option<usize>)
        ensures
            r matches Some(i) ==> i < self.packs@.len() && self.packs@[i as int].key == key,
            r is None ==> forall|i: int|
                0 <= i < self.packs@.len() ==> (#[trigger] self.packs@[i]).key != key,
    {
        let mut i: usize = 0;
        while i < self.packs.len()
            invariant
                i <= self.packs.len(),
                forall|j: int| 0 <= j < i ==> (#[trigger] self.packs@[j]).key != key,
            decreases self.packs.len() - i,
        {
            if self.packs[i].key == key {
                return Some(i);
            }
            i += 1;
        }
        None
    }

    /// Where the sums under a key and a sign are.
    fn find_sums(&self, key: BufKey, signed: bool) -> (r: Option<usize>)
        ensures
            r matches Some(i) ==> i < self.sums@.len() && self.sums@[i as int].key == key
                && self.sums@[i as int].signed == signed,
            r is None ==> forall|i: int|
                0 <= i < self.sums@.len() ==> (#[trigger] self.sums@[i]).key != key
                    || self.sums@[i].signed != signed,
    {
        let mut i: usize = 0;
        while i < self.sums.len()
            invariant
                i <= self.sums.len(),
                forall|j: int|
                    0 <= j < i ==> (#[trigger] self.sums@[j]).key != key || self.sums@[j].signed
                        != signed,
            decreases self.sums.len() - i,
        {
            if self.sums[i].key == key && self.sums[i].signed == signed {
                return Some(i);
            }
            i += 1;
        }
        None
    }

    /// The tile form of `b`: the one kept for these bytes under their key, or
    /// a new one that is kept from now on. A full cache is emptied first; what
    /// other bytes left under the key is replaced.
    #[verifier::spinoff_prover]
    pub fn cached_pack_b(&mut self, addr: usize, b: &[u8], n: usize, k: usize) -> (r: Arc<Vec<u8>>)
        requires
            old(self).wf(),
            b.len() == k * n,
            n % 16 == 0,
            k % 64 == 0,
        ensures
            final(self).wf(),
            is_tile_packed(r@, b@, n as int, k as int),
            final(self).has_pack(key_of(addr, b@, n, k), b@, r@),
            (exists|x: Seq<u8>| old(self).has_pack(key_of(addr, b@, n, k), b@, x)) ==> *final(self)
                == *old(self),
            (forall|x: Seq<u8>| !old(self).has_pack(key_of(addr, b@, n, k), b@, x)) ==> {
                &&& final(self).packs_len() == (if old(self).packs_len() >= CACHE_LIMIT {
                    1
                } else if old(self).knows_pack(key_of(addr, b@, n, k)) {
                    old(self).packs_len()
                } else {
                    old(self).packs_len() + 1
                })
                &&& forall|key: BufKey, s: Seq<u8>, x: Seq<u8>|
                    key != key_of(addr, b@, n, k) ==> #[trigger] final(self).has_pack(key, s, x)
                        == (old(self).packs_len() < CACHE_LIMIT && old(self).has_pack(key, s, x))
                &&& final(self).sums_len() == old(self).sums_len()
                &&& forall|key: BufKey, signed: bool, s: Seq<u8>, x: Seq<i32>| #[trigger]
                    final(self).has_sums(key, signed, s, x) == old(self).has_sums(key, signed, s, x)
            },
    {
        let key: BufKey = BufKey { addr, n, k, tag: buf_tag(b) };
        let ghost before = *self;
        let found: Option<usize> = self.find_pack(key);
        if let Some(i) = found {
            if same_bytes(self.packs[i].source.as_slice(), b) {
                let kept: Arc<Vec<u8>> = Arc::clone(&self.packs[i].bytes);
                assert(before.has_pack(key, b@, kept@));
                return kept;
            }
        }
        let packed: Arc<Vec<u8>> = Arc::new(pack_b_amx(b, n, k));
        let entry: PackEntry = PackEntry {
            key,
            source: slice_to_vec(b),
            bytes: Arc::clone(&packed),
        };
        let ghost at: int;
        if self.packs.len() >= CACHE_LIMIT {
            self.packs.clear();
            self.packs.push(entry);
            proof {
                at = 0;
            }
        } else if let Some(i) = found {
            self.packs.set(i, entry);
            proof {
                at = i as int;
                assert(before.has_pack(key, before.packs@[at].source@, before.packs@[at].bytes@));
            }
        } else {
            self.packs.push(entry);
            proof {
                at = before.packs@.len() as int;
            }
        }
        proof {
            assert(self.packs@[at] == entry);
            assert forall|x: Seq<u8>| !before.has_pack(key, b@, x) by {
                if before.has_pack(key, b@, x) {
                    let j = choose|j: int|
                        0 <= j < before.packs@.len() && (#[trigger] before.packs@[j]).key == key
                            && before.packs@[j].source@ == b@ && before.packs@[j].bytes@ == x;
                    assert(before.packs@[j].key == key);
                }
            }
            assert(before.knows_pack(key) ==> found is Some) by {
                if before.knows_pack(key) {
                    let (s, x) = choose|s: Seq<u8>, x: Seq<u8>| #[trigger] before.has_pack(key, s, x);
                    let j = choose|j: int|
                        0 <= j < before.packs@.len() && (#[trigger] before.packs@[j]).key == key
                            && before.packs@[j].source@ == s && before.packs@[j].bytes@ == x;
                    assert(before.packs@[j].key == key);
                }
            }
            let full = before.packs@.len() >= CACHE_LIMIT;
            assert(key == key_of(addr, b@, n, k));
            if let Some(i) = found {
                let e = before.packs@[i as int];
                assert(e.key == key);
                assert(before.has_pack(key, e.source@, e.bytes@));
            }
            assert(found is Some ==> before.knows_pack(key));
            assert(self.packs@.len() == (if full {
                1
            } else if before.knows_pack(key) {
                before.packs@.len()
            } else {
                before.packs@.len() + 1
            }));
            assert(self.sums == before.sums);
            assert forall|other: BufKey, g: bool, s: Seq<u8>, x: Seq<i32>| #[trigger]
                self.has_sums(other, g, s, x) == before.has_sums(other, g, s, x) by {}
            assert forall|j: int| 0 <= j < self.packs@.len() && j != at implies !full && j
                < before.packs@.len() && #[trigger] self.packs@[j] == before.packs@[j] by {}
            assert forall|other: BufKey, s: Seq<u8>, x: Seq<u8>| other != key implies
                #[trigger] self.has_pack(other, s, x) == (!full && before.has_pack(other, s, x)) by {
                if self.has_pack(other, s, x) {
                    let j = choose|j: int|
                        0 <= j < self.packs@.len() && (#[trigger] self.packs@[j]).key == other
                            && self.packs@[j].source@ == s && self.packs@[j].bytes@ == x;
                    assert(before.packs@[j] == self.packs@[j]);
                }
                if !full && before.has_pack(other, s, x) {
                    let j = choose|j: int|
                        0 <= j < before.packs@.len() && (#[trigger] before.packs@[j]).key == other
                            && before.packs@[j].source@ == s && before.packs@[j].bytes@ == x;
                    assert(self.packs@[j] == before.packs@[j]);
                }
            }
        }
        packed
    }

    /// The column sums of `b`: the ones kept for these bytes under their key,
    /// or new ones that are kept from now on, as for the tiles.
    #[verifier::spinoff_prover]
    pub fn cached_sum_cols(
        &mut self,
        addr: usize,
        b: &[u8],
        k: usize,
        n: usize,
        signed: bool,
    ) -> (r: Arc<Vec<i32>>)
        requires
            old(self).wf(),
            b.len() == k * n,
        ensures
            final(self).wf(),
            is_col_sums(r@, b@, n as int, k as int, signed),
            final(self).has_sums(key_of(addr, b@, n, k), signed, b@, r@),
            (exists|x: Seq<i32>| old(self).has_sums(key_of(addr, b@, n, k), signed, b@, x))
                ==> *final(self) == *old(self),
            (forall|x: Seq<i32>| !old(self).has_sums(key_of(addr, b@, n, k), signed, b@, x)) ==> {
                &&& final(self).sums_len() == (if old(self).sums_len() >= CACHE_LIMIT {
                    1
                } else if old(self).knows_sums(key_of(addr, b@, n, k), signed) {
                    old(self).sums_len()
                } else {
                    old(self).sums_len() + 1
                })
                &&& forall|key: BufKey, g: bool, s: Seq<u8>, x: Seq<i32>|
                    key != key_of(addr, b@, n, k) || g != signed
                        ==> #[trigger] final(self).has_sums(key, g, s, x) == (old(self).sums_len()
                        < CACHE_LIMIT && old(self).has_sums(key, g, s, x))
                &&& final(self).packs_len() == old(self).packs_len()
                &&& forall|key: BufKey, s: Seq<u8>, x: Seq<u8>| #[trigger]
                    final(self).has_pack(key, s, x) == old(self).has_pack(key, s, x)
            },
    {
        let key: BufKey = BufKey { addr, n, k, tag: buf_tag(b) };
        let ghost before = *self;
        let found: Option<usize> = self.find_sums(key, signed);
        if let Some(i) = found {
            if same_bytes(self.sums[i].source.as_slice(), b) {
                let kept: Arc<Vec<i32>> = Arc::clone(&self.sums[i].sums);
                assert(before.has_sums(key, signed, b@, kept@));
                return kept;
            }
        }
        let sums: Arc<Vec<i32>> = Arc::new(sum_cols_u8(b, k, n, signed));
        let entry: SumEntry = SumEntry {
            key,
            signed,
            source: slice_to_vec(b),
            sums: Arc::clone(&sums),
        };
        let ghost at: int;
        if self.sums.len() >= CACHE_LIMIT {
            self.sums.clear();
            self.sums.push(entry);
            proof {
                at = 0;
            }
        } else if let Some(i) = found {
            self.sums.set(i, entry);
            proof {
                at = i as int;
                let e = before.sums@[at];
                assert(before.has_sums(key, signed, e.source@, e.sums@));
            }
        } else {
            self.sums.push(entry);
            proof {
                at = before.sums@.len() as int;
            }
        }
        proof {
            assert(self.sums@[at] == entry);
            assert forall|x: Seq<i32>| !before.has_sums(key, signed, b@, x) by {
                if before.has_sums(key, signed, b@, x) {
                    let j = choose|j: int|
                        0 <= j < before.sums@.len() && (#[trigger] before.sums@[j]).key == key
                            && before.sums@[j].signed == signed && before.sums@[j].source@ == b@
                            && before.sums@[j].sums@ == x;
                    assert(before.sums@[j].key == key);
                }
            }
            assert(before.knows_sums(key, signed) ==> found is Some) by {
                if before.knows_sums(key, signed) {
                    let (s, x) = choose|s: Seq<u8>, x: Seq<i32>| #[trigger]
                        before.has_sums(key, signed, s, x);
                    let j = choose|j: int|
                        0 <= j < before.sums@.len() && (#[trigger] before.sums@[j]).key == key
                            && before.sums@[j].signed == signed && before.sums@[j].source@ == s
                            && before.sums@[j].sums@ == x;
                    assert(before.sums@[j].key == key);
                }
            }
            let full = before.sums@.len() >= CACHE_LIMIT;
            assert(self.packs == before.packs);
            assert(key == key_of(addr, b@, n, k));
            if let Some(i) = found {
                let e = before.sums@[i as int];
                assert(e.key == key && e.signed == signed);
                assert(before.has_sums(key, signed, e.source@, e.sums@));
            }
            assert(found is Some ==> before.knows_sums(key, signed));
            assert(self.sums@.len() == (if full {
                1
            } else if before.knows_sums(key, signed) {
                before.sums@.len()
            } else {
                before.sums@.len() + 1
            }));
            assert forall|other: BufKey, s: Seq<u8>, x: Seq<u8>| #[trigger]
                self.has_pack(other, s, x) == before.has_pack(other, s, x) by {}
            assert forall|j: int| 0 <= j < self.sums@.len() && j != at implies !full && j
                < before.sums@.len() && #[trigger] self.sums@[j] == before.sums@[j] by {}
            assert forall|other: BufKey, g: bool, s: Seq<u8>, x: Seq<i32>|
                other != key || g != signed implies #[trigger] self.has_sums(other, g, s, x) == (
            !full && before.has_sums(other, g, s, x)) by {
                if self.has_sums(other, g, s, x) {
                    let j = choose|j: int|
                        0 <= j < self.sums@.len() && (#[trigger] self.sums@[j]).key == other
                            && self.sums@[j].signed == g && self.sums@[j].source@ == s
                            && self.sums@[j].sums@ == x;
                    assert(before.sums@[j] == self.sums@[j]);
                }
                if !full && before.has_sums(other, g, s, x) {
                    let j = choose|j: int|
                        0 <= j < before.sums@.len() && (#[trigger] before.sums@[j]).key == other
                            && before.sums@[j].signed == g && before.sums@[j].source@ == s
                            && before.sums@[j].sums@ == x;
                    assert(self.sums@[j] == before.sums@[j]);
                }
            }
        }
        sums
    }
}

/// A well-formed cache keeps at most one packed form and one list of sums
/// under a key, so what a lookup gives back is determined.
pub proof fn law_one_entry_per_key(
    c: PackCache,
    key: BufKey,
    signed: bool,
    b: Seq<u8>,
    d: Seq<u8>,
    x: Seq<u8>,
    y: Seq<u8>,
    s: Seq<i32>,
    t: Seq<i32>,
)
    requires
        c.wf(),
    ensures
        c.has_pack(key, b, x) && c.has_pack(key, d, y) ==> b == d && x == y,
        c.has_sums(key, signed, b, s) && c.has_sums(key, signed, d, t) ==> b == d && s == t,
{
}

/// What a well-formed cache keeps was made from the bytes that it is kept
/// with.
pub proof fn law_kept_forms_are_right(
    c: PackCache,
    key: BufKey,
    signed: bool,
    source: Seq<u8>,
    bytes: Seq<u8>,
    sums: Seq<i32>,
)
    requires
        c.wf(),
    ensures
        c.has_pack(key, source, bytes) ==> is_tile_packed(
            bytes,
            source,
            key.n as int,
            key.k as int,
        ),
        c.has_sums(key, signed, source, sums) ==> is_col_sums(
            sums,
            source,
            key.n as int,
            key.k as int,
            signed,
        ),
{
}

/// A well-formed cache never holds more than the limit.
pub proof fn law_cache_is_bounded(c: PackCache)
    requires
        c.wf(),
    ensures
        c.packs_len() <= CACHE_LIMIT,
        c.sums_len() <= CACHE_LIMIT,
{
}

/// Eight bytes are the digits of their number to base 256.
proof fn lemma_le64_digits(b: Seq<u8>, at: int, c: Seq<u8>, from: int)
    requires
        le64(b, at) == le64(c, from),
    ensures
        forall|i: int| 0 <= i < 8 ==> #[trigger] b[at + i] == c[from + i],
{
    let b6 = b[at + 6] + 256 * b[at + 7];
    let b5 = b[at + 5] + 256 * b6;
    let b4 = b[at + 4] + 256 * b5;
    let b3 = b[at + 3] + 256 * b4;
    let b2 = b[at + 2] + 256 * b3;
    let b1 = b[at + 1] + 256 * b2;
    let c6 = c[from + 6] + 256 * c[from + 7];
    let c5 = c[from + 5] + 256 * c6;
    let c4 = c[from + 4] + 256 * c5;
    let c3 = c[from + 3] + 256 * c4;
    let c2 = c[from + 2] + 256 * c3;
    let c1 = c[from + 1] + 256 * c2;
    lemma_digit(b[at] as int, b1, c[from] as int, c1);
    lemma_digit(b[at + 1] as int, b2, c[from + 1] as int, c2);
    lemma_digit(b[at + 2] as int, b3, c[from + 2] as int, c3);
    lemma_digit(b[at + 3] as int, b4, c[from + 3] as int, c4);
    lemma_digit(b[at + 4] as int, b5, c[from + 4] as int, c5);
    lemma_digit(b[at + 5] as int, b6, c[from + 5] as int, c6);
    lemma_digit(b[at + 6] as int, b[at + 7] as int, c[from + 6] as int, c[from + 7] as int);
    assert forall|i: int| 0 <= i < 8 implies #[trigger] b[at + i] == c[from + i] by {
        assert(i == 0 || i == 1 || i == 2 || i == 3 || i == 4 || i == 5 || i == 6 || i == 7);
    }
}

/// The lowest digit to base 256 and the rest are determined.
proof fn lemma_digit(x: int, more: int, y: int, rest: int)
    requires
        0 <= x < 256,
        0 <= y < 256,
        x + 256 * more == y + 256 * rest,
    ensures
        x == y,
        more == rest,
{
}

/// Of two buffers of one length, the fingerprints differ where the first eight
/// bytes, the last eight or the middle eight do, and the other two do not.
pub proof fn law_fingerprints_differ(b: &[u8], c: &[u8], x: u64, y: u64, p: int, i: int)
    requires
        call_ensures(buf_tag, (b,), x),
        call_ensures(buf_tag, (c,), y),
        b@.len() == c@.len(),
        16 <= b@.len() <= usize::MAX,
        p == 0 || p == b@.len() - 8 || p == b@.len() as int / 2 - 4,
        0 <= i < 8,
        b@[p + i] != c@[p + i],
        p != 0 ==> b@.subrange(0, 8) == c@.subrange(0, 8),
        p != b@.len() - 8 ==> b@.subrange(b@.len() - 8, b@.len() as int) == c@.subrange(
            c@.len() - 8,
            c@.len() as int,
        ),
        p != b@.len() as int / 2 - 4 ==> b@.subrange(
            b@.len() as int / 2 - 4,
            b@.len() as int / 2 + 4,
        ) == c@.subrange(c@.len() as int / 2 - 4, c@.len() as int / 2 + 4),
    ensures
        x != y,
{
    let n = b@.len() as int;
    let m = n / 2 - 4;
    let b0 = le64(b@, 0) as u64;
    let b1 = le64(b@, n - 8) as u64;
    let b2 = le64(b@, m) as u64;
    let c0 = le64(c@, 0) as u64;
    let c1 = le64(c@, n - 8) as u64;
    let c2 = le64(c@, m) as u64;
    let len = n as u64;
    if p != 0 {
        lemma_same_word(b@, c@, 0);
    }
    if p != n - 8 {
        lemma_same_word(b@, c@, n - 8);
    }
    if p != m {
        lemma_same_word(b@, c@, m);
    }
    if le64(b@, p) == le64(c@, p) {
        lemma_le64_digits(b@, p, c@, p);
    }
    assert(b0 != c0 && b1 == c1 && b2 == c2 ==> len ^ b0 ^ b1 ^ b2 != len ^ c0 ^ c1 ^ c2)
        by (bit_vector);
    assert(b0 == c0 && b1 != c1 && b2 == c2 ==> len ^ b0 ^ b1 ^ b2 != len ^ c0 ^ c1 ^ c2)
        by (bit_vector);
    assert(b0 == c0 && b1 == c1 && b2 != c2 ==> len ^ b0 ^ b1 ^ b2 != len ^ c0 ^ c1 ^ c2)
        by (bit_vector);
}

proof fn lemma_same_word(b: Seq<u8>, c: Seq<u8>, at: int)
    requires
        0 <= at,
        at + 8 <= b.len(),
        at + 8 <= c.len(),
        b.subrange(at, at + 8) == c.subrange(at, at + 8),
    ensures
        le64(b, at) == le64(c, at),
{
    let s = b.subrange(at, at + 8);
    let t = c.subrange(at, at + 8);
    assert forall|i: int| 0 <= i < 8 implies #[trigger] b[at + i] == c[at + i] by {
        assert(s[i] == b[at + i] && t[i] == c[at + i]);
    }
    assert(b[at + 0] == c[at + 0] && b[at + 1] == c[at + 1] && b[at + 2] == c[at + 2]);
    assert(b[at + 3] == c[at + 3] && b[at + 4] == c[at + 4] && b[at + 5] == c[at + 5]);
    assert(b[at + 6] == c[at + 6] && b[at + 7] == c[at + 7]);
}

/// A buffer of fewer than eight bytes is told by its length.
pub proof fn law_short_fingerprints(b: &[u8], x: u64)
    requires
        call_ensures(buf_tag, (b,), x),
        b@.len() < 8,
    ensures
        x == b@.len(),
{
}

} // verus!
