//! Page memory committed to by a sparse binary Merkle tree.
//!
//! Memory is kept at page granularity: a page is a fixed-size block of
//! field values, and a page that was never written is all-zero.  The tree
//! has a fixed depth covering the whole address space at page granularity,
//! and offers the current root, per-page inclusion proofs, and bulk updates
//! of (address, value) writes.

use vstd::prelude::*;
use vstd::arithmetic::power2::{pow2, lemma_pow2_unfold, lemma_pow2_adds, lemma_pow2_pos, lemma2_to64};
use vstd::arithmetic::div_mod::lemma_div_denominator;
use vstd::bits::{lemma_u64_shl_is_mul, lemma_u64_shr_is_div};

verus! {

/// Number of field values in one memory page: 2^PAGE_SIZE_BYTES_LOG bytes,
/// four bytes per value.
pub const WORDS_PER_PAGE: usize = 1024;

/// Height of the page Merkle tree.  It covers 2^MERKLE_DEPTH pages, which
/// at 4096 bytes per page is the full 4 GiB address space.
pub const MERKLE_DEPTH: usize = 20;

/// Number of pages the tree commits to: 2^MERKLE_DEPTH.
pub const NUM_PAGES: u64 = 1048576;

/// One byte past the largest byte address the tree covers.
pub const ADDRESS_SPACE: u64 = 0x1_0000_0000;

/// Multiplier of the compression primitive below.
///
/// The mix/compress functions here are a deterministic stand-in for the
/// proof system's injected compression primitive.  The bootloader circuit
/// fixes the real hash bit-exactly as a cross-boundary contract; a
/// deployment must replace this stand-in with that primitive, keeping the
/// arity and the output width.
pub const MIX_MULTIPLIER: u64 = 0x100000001b3;

/// Output of the tree's hash: a tuple of field values wide enough for the
/// proof system's compression primitive.
#[derive(Clone, Copy, Debug, PartialEq, Eq, Structural)]
pub struct Digest {
    pub n0: u64,
    pub n1: u64,
    pub n2: u64,
    pub n3: u64,
}

/// Number of field values in a hash.
pub const HASH_WIDTH: usize = 4;

/// One multiply-accumulate step of the hash, modulo 2^64.
pub open spec fn mix_spec(acc: u64, x: u64) -> u64 {
    (((acc as int) * (MIX_MULTIPLIER as int) + (x as int)) % 0x1_0000_0000_0000_0000) as u64
}

fn mix(acc: u64, x: u64) -> (r: u64)
    ensures
        r == mix_spec(acc, x),
{
    proof {
        assert((acc as int) * (MIX_MULTIPLIER as int) + (x as int)
            < 0x1_0000_0000_0000_0000_0000_0000_0000) by (nonlinear_arith)
            requires
                acc as int <= 0xFFFF_FFFF_FFFF_FFFF,
                x as int <= 0xFFFF_FFFF_FFFF_FFFF,
        ;
    }
    let wide: u128 = (acc as u128) * (MIX_MULTIPLIER as u128) + (x as u128);
    (wide % 0x1_0000_0000_0000_0000u128) as u64
}

/// Folds the mix step over a sequence of values, front to back.
pub open spec fn fold_mix(s: Seq<u64>, acc: u64) -> u64
    decreases s.len(),
{
    if s.len() == 0 {
        acc
    } else {
        fold_mix(s.drop_first(), mix_spec(acc, s.first()))
    }
}

/// Expands one accumulator value to a full hash.
pub open spec fn expand_spec(a: u64) -> Digest {
    Digest { n0: a, n1: mix_spec(a, 1), n2: mix_spec(a, 2), n3: mix_spec(a, 3) }
}

/// Digest of a page of values.
#[verifier::opaque]
pub open spec fn page_hash_spec(p: Seq<u64>) -> Digest {
    expand_spec(fold_mix(p, 1))
}

/// Compression of two child hashes to one parent hash.
#[verifier::opaque]
pub open spec fn compress_spec(l: Digest, r: Digest) -> Digest {
    expand_spec(
        mix_spec(
            mix_spec(
                mix_spec(
                    mix_spec(
                        mix_spec(mix_spec(mix_spec(mix_spec(2, l.n0), l.n1), l.n2), l.n3),
                        r.n0,
                    ),
                    r.n1,
                ),
                r.n2,
            ),
            r.n3,
        ),
    )
}

fn expand(a: u64) -> (r: Digest)
    ensures
        r == expand_spec(a),
{
    Digest { n0: a, n1: mix(a, 1), n2: mix(a, 2), n3: mix(a, 3) }
}

/// Compresses two child hashes to one parent hash.
pub fn compress(l: &Digest, r: &Digest) -> (h: Digest)
    ensures
        h == compress_spec(*l, *r),
{
    let mut acc = mix(2, l.n0);
    acc = mix(acc, l.n1);
    acc = mix(acc, l.n2);
    acc = mix(acc, l.n3);
    acc = mix(acc, r.n0);
    acc = mix(acc, r.n1);
    acc = mix(acc, r.n2);
    acc = mix(acc, r.n3);
    proof {
        reveal(compress_spec);
    }
    expand(acc)
}

/// Hashes a page of values.
pub fn page_hash(p: &Vec<u64>) -> (h: Digest)
    ensures
        h == page_hash_spec(p@),
{
    let mut acc: u64 = 1;
    let mut i: usize = 0;
    proof {
        assert(p@.skip(0) =~= p@);
    }
    while i < p.len()
        invariant
            0 <= i <= p@.len(),
            fold_mix(p@.skip(i as int), acc) == fold_mix(p@, 1),
        decreases p@.len() - i,
    {
        proof {
            assert(p@.skip(i as int).first() == p@[i as int]);
            assert(p@.skip(i as int).drop_first() =~= p@.skip(i as int + 1));
        }
        acc = mix(acc, p[i]);
        i = i + 1;
    }
    proof {
        assert(p@.skip(p@.len() as int) =~= Seq::<u64>::empty());
        reveal(page_hash_spec);
    }
    expand(acc)
}

/// The all-zero page.
pub open spec fn zero_page() -> Seq<u64> {
    Seq::new(WORDS_PER_PAGE as nat, |i: int| 0u64)
}

/// Returns an all-zero page.
pub fn make_zero_page() -> (p: Vec<u64>)
    ensures
        p@ == zero_page(),
{
    let mut p: Vec<u64> = Vec::new();
    let mut i: usize = 0;
    while i < WORDS_PER_PAGE
        invariant
            0 <= i <= WORDS_PER_PAGE,
            p@.len() == i,
            forall|j: int| 0 <= j < i ==> p@[j] == 0u64,
        decreases WORDS_PER_PAGE - i,
    {
        p.push(0);
        i = i + 1;
    }
    proof {
        assert(p@ =~= zero_page());
    }
    p
}

/// The page stored at `page_index`, an all-zero page if never written.
pub open spec fn page_at(m: Map<u64, Seq<u64>>, page_index: u64) -> Seq<u64> {
    if m.contains_key(page_index) {
        m[page_index]
    } else {
        zero_page()
    }
}

/// Digest of the subtree at height `level` whose leftmost leaf is page
/// `index * 2^level`.
pub open spec fn subtree_hash(m: Map<u64, Seq<u64>>, level: nat, index: nat) -> Digest
    decreases level,
{
    if level == 0 {
        page_hash_spec(page_at(m, index as u64))
    } else {
        compress_spec(
            subtree_hash(m, (level - 1) as nat, 2 * index),
            subtree_hash(m, (level - 1) as nat, 2 * index + 1),
        )
    }
}

/// Root of the whole tree over memory `m`.
pub open spec fn root_spec(m: Map<u64, Seq<u64>>) -> Digest {
    subtree_hash(m, MERKLE_DEPTH as nat, 0)
}

/// Digest of an all-empty subtree at height `level`.
pub open spec fn empty_subtree(level: nat) -> Digest
    decreases level,
{
    if level == 0 {
        page_hash_spec(zero_page())
    } else {
        let c = empty_subtree((level - 1) as nat);
        compress_spec(c, c)
    }
}

/// Memory seen as a map from page index to page contents.
pub open spec fn pairs_map(s: Seq<(u64, Vec<u64>)>) -> Map<u64, Seq<u64>>
    decreases s.len(),
{
    if s.len() == 0 {
        Map::empty()
    } else {
        pairs_map(s.drop_last()).insert(s.last().0, s.last().1@)
    }
}

/// The keys of `pairs_map` are exactly the first components of the pairs.
pub proof fn lemma_pairs_map_dom(s: Seq<(u64, Vec<u64>)>, k: u64)
    ensures
        pairs_map(s).contains_key(k) <==> (exists|i: int| 0 <= i < s.len() && s[i].0 == k),
    decreases s.len(),
{
    if s.len() > 0 {
        lemma_pairs_map_dom(s.drop_last(), k);
        if s.last().0 == k {
            assert(s[s.len() - 1].0 == k);
        } else if pairs_map(s).contains_key(k) {
            let i = choose|i: int| 0 <= i < s.drop_last().len() && s.drop_last()[i].0 == k;
            assert(s[i].0 == k);
        } else if exists|i: int| 0 <= i < s.len() && s[i].0 == k {
            let i = choose|i: int| 0 <= i < s.len() && s[i].0 == k;
            assert(s.drop_last()[i].0 == k);
        }
    }
}

/// With distinct keys, `pairs_map` maps each stored key to its page.
pub proof fn lemma_pairs_map_at(s: Seq<(u64, Vec<u64>)>, i: int)
    requires
        forall|a: int, b: int| 0 <= a < b < s.len() ==> (#[trigger] s[a]).0 != (#[trigger] s[b]).0,
        0 <= i < s.len(),
    ensures
        pairs_map(s).contains_key(s[i].0),
        pairs_map(s)[s[i].0] == s[i].1@,
    decreases s.len(),
{
    if i == s.len() - 1 {
    } else {
        lemma_pairs_map_at(s.drop_last(), i);
        assert(s.drop_last()[i] == s[i]);
        assert(s[i].0 != s.last().0);
    }
}

/// A pair store with distinct keys that agrees with a map pointwise
/// denotes that map.
pub proof fn lemma_pairs_map_is(s: Seq<(u64, Vec<u64>)>, m: Map<u64, Seq<u64>>)
    requires
        forall|a: int, b: int| 0 <= a < b < s.len() ==> (#[trigger] s[a]).0 != (#[trigger] s[b]).0,
        forall|i: int| 0 <= i < s.len()
            ==> m.contains_key((#[trigger] s[i]).0) && m[s[i].0] == s[i].1@,
        forall|k: u64| #[trigger] m.contains_key(k)
            ==> exists|i: int| 0 <= i < s.len() && (#[trigger] s[i]).0 == k,
    ensures
        pairs_map(s) == m,
{
    assert forall|k: u64| pairs_map(s).contains_key(k) == m.contains_key(k) by {
        lemma_pairs_map_dom(s, k);
    }
    assert forall|k: u64| #[trigger] pairs_map(s).contains_key(k) implies pairs_map(s)[k] == m[k] by {
        lemma_pairs_map_dom(s, k);
        let i = choose|i: int| 0 <= i < s.len() && s[i].0 == k;
        lemma_pairs_map_at(s, i);
    }
    assert(pairs_map(s) =~= m);
}

/// A subtree over a range of pages that are all absent has the empty hash.
pub proof fn lemma_subtree_empty(m: Map<u64, Seq<u64>>, level: nat, index: nat)
    requires
        forall|k: u64| m.contains_key(k) ==> !(index * pow2(level) <= k < (index + 1) * pow2(level)),
        (index + 1) * pow2(level) <= NUM_PAGES,
    ensures
        subtree_hash(m, level, index) == empty_subtree(level),
    decreases level,
{
    lemma_pow2_pos(level);
    if level == 0 {
        assert(pow2(0) == 1) by {
            lemma2_to64();
        }
        assert(index * pow2(0) == index && (index + 1) * pow2(0) == index + 1) by (nonlinear_arith)
            requires
                pow2(0) == 1,
        ;
        assert(index < NUM_PAGES);
        let k: u64 = index as u64;
        assert(index * pow2(0) <= k < (index + 1) * pow2(0));
        assert(!m.contains_key(index as u64));
    } else {
        lemma_pow2_unfold(level);
        lemma_pow2_pos((level - 1) as nat);
        let half = pow2((level - 1) as nat);
        assert((2 * index) * half == index * pow2(level) && (2 * index + 1) * half == index * pow2(
            level,
        ) + half && (2 * index + 2) * half == (index + 1) * pow2(level)) by (nonlinear_arith)
            requires
                pow2(level) == 2 * half,
        ;
        assert(index * pow2(level) + half <= (index + 1) * pow2(level)) by (nonlinear_arith)
            requires
                pow2(level) == 2 * half,
                half > 0,
        ;
        lemma_subtree_empty(m, (level - 1) as nat, 2 * index);
        lemma_subtree_empty(m, (level - 1) as nat, 2 * index + 1);
    }
}

/// Index of the sibling of node `index` within its level.
pub open spec fn sibling_of(index: nat) -> nat {
    if index % 2 == 0 {
        index + 1
    } else {
        (index - 1) as nat
    }
}

/// The inclusion proof for a page: the sibling hashes from the leaf's
/// sibling upward to just below the root.
pub open spec fn proof_spec(m: Map<u64, Seq<u64>>, page_index: nat) -> Seq<Digest> {
    Seq::new(MERKLE_DEPTH as nat, |j: int| subtree_hash(m, j as nat, sibling_of(page_index / pow2(j as nat))))
}

/// Folds a leaf hash up along a proof: at each level the current hash is
/// compressed with the next sibling, on the side given by the index bit.
pub open spec fn proof_root(h: Digest, index: nat, siblings: Seq<Digest>) -> Digest
    decreases siblings.len(),
{
    if siblings.len() == 0 {
        h
    } else {
        let parent = if index % 2 == 0 {
            compress_spec(h, siblings.first())
        } else {
            compress_spec(siblings.first(), h)
        };
        proof_root(parent, index / 2, siblings.drop_first())
    }
}

/// Folding a correct chain of sibling hashes reproduces the enclosing
/// subtree's hash.
#[verifier::rlimit(100)]
pub proof fn lemma_path_reconstruction(m: Map<u64, Seq<u64>>, level: nat, index: nat, sibs: Seq<Digest>)
    requires
        forall|j: int| 0 <= j < sibs.len()
            ==> #[trigger] sibs[j] == subtree_hash(m, level + j as nat, sibling_of(index / pow2(j as nat))),
    ensures
        proof_root(subtree_hash(m, level, index), index, sibs)
            == subtree_hash(m, level + sibs.len(), index / pow2(sibs.len())),
    decreases sibs.len(),
{
    if sibs.len() == 0 {
        assert(pow2(0) == 1) by {
            lemma2_to64();
        }
        assert(index / pow2(0) == index);
    } else {
        assert(pow2(0) == 1) by {
            lemma2_to64();
        }
        assert(index / pow2(0) == index);
        assert(sibs[0] == subtree_hash(m, level + 0, sibling_of(index / pow2(0))));
        assert(sibs[0] == subtree_hash(m, level, sibling_of(index)));
        let parent_index = index / 2;
        let h = subtree_hash(m, level, index);
        let parent = if index % 2 == 0 {
            compress_spec(h, sibs.first())
        } else {
            compress_spec(sibs.first(), h)
        };
        if index % 2 == 0 {
            assert(2 * parent_index == index);
            assert(sibling_of(index) == index + 1);
            assert(parent == subtree_hash(m, level + 1, parent_index));
        } else {
            assert(2 * parent_index == index - 1);
            assert(sibling_of(index) == index - 1);
            assert(parent == subtree_hash(m, level + 1, parent_index));
        }
        let rest = sibs.drop_first();
        assert forall|j: int| 0 <= j < rest.len() implies rest[j] == subtree_hash(
            m,
            (level + 1) + j as nat,
            sibling_of(parent_index / pow2(j as nat)),
        ) by {
            assert(sibs[j + 1] == subtree_hash(m, level + (j + 1) as nat, sibling_of(index / pow2((j + 1) as nat))));
            lemma_pow2_pos(j as nat);
            lemma_div_denominator(index as int, 2, pow2(j as nat) as int);
            lemma_pow2_unfold((j + 1) as nat);
            assert(2 * pow2(j as nat) == pow2((j + 1) as nat));
            assert(parent_index / pow2(j as nat) == index / pow2((j + 1) as nat));
        }
        lemma_path_reconstruction(m, level + 1, parent_index, rest);
        lemma_pow2_pos((sibs.len() - 1) as nat);
        lemma_div_denominator(index as int, 2, pow2((sibs.len() - 1) as nat) as int);
        lemma_pow2_unfold(sibs.len());
        assert(parent_index / pow2((sibs.len() - 1) as nat) == index / pow2(sibs.len()));
    }
}

/// The proof returned for any page verifies against the root.
pub proof fn lemma_proof_verifies(m: Map<u64, Seq<u64>>, page_index: nat)
    requires
        page_index < NUM_PAGES,
    ensures
        proof_root(page_hash_spec(page_at(m, page_index as u64)), page_index, proof_spec(m, page_index))
            == root_spec(m),
{
    let sibs = proof_spec(m, page_index);
    lemma_path_reconstruction(m, 0, page_index, sibs);
    assert(subtree_hash(m, 0, page_index) == page_hash_spec(page_at(m, page_index as u64)));
    assert(pow2(MERKLE_DEPTH as nat) == NUM_PAGES) by {
        lemma2_to64();
    }
    assert(page_index / pow2(MERKLE_DEPTH as nat) == 0);
}

/// Page index of a byte address.
pub open spec fn page_index_of_address(address: u64) -> u64 {
    address >> (crate::PAGE_SIZE_BYTES_LOG as u64)
}

/// Word offset of a byte address within its page.
pub open spec fn word_offset_of_address(address: u64) -> int {
    ((address as int) % 4096) / 4
}

/// One write applied to the page map.
pub open spec fn apply_one(m: Map<u64, Seq<u64>>, address: u64, value: u64) -> Map<u64, Seq<u64>> {
    let pi = page_index_of_address(address);
    m.insert(pi, page_at(m, pi).update(word_offset_of_address(address), value))
}

/// A sequence of writes applied front to back, so the final content of a
/// page reflects the final write at each address.
pub open spec fn apply_writes(m: Map<u64, Seq<u64>>, ws: Seq<(u64, u64)>) -> Map<u64, Seq<u64>>
    decreases ws.len(),
{
    if ws.len() == 0 {
        m
    } else {
        apply_writes(apply_one(m, ws.first().0, ws.first().1), ws.drop_first())
    }
}

/// Sparse page memory with its Merkle commitment.
///
/// Pages are kept sorted by page index; the cached root always equals the
/// root of the tree over the current page map.
pub struct MerkleTree {
    pub pages: Vec<(u64, Vec<u64>)>,
    pub root: Digest,
}

impl MerkleTree {
    /// The committed memory: page index to page contents.
    pub open spec fn mem(self) -> Map<u64, Seq<u64>> {
        pairs_map(self.pages@)
    }

    /// Pages are sorted by strictly increasing index, sized, in range.
    pub open spec fn pages_wf(self) -> bool {
        &&& forall|i: int| 0 <= i < self.pages@.len()
            ==> (#[trigger] self.pages@[i]).1@.len() == WORDS_PER_PAGE && self.pages@[i].0 < NUM_PAGES
        &&& forall|i: int, j: int| 0 <= i < j < self.pages@.len()
            ==> (#[trigger] self.pages@[i]).0 < (#[trigger] self.pages@[j]).0
    }

    /// Well-formed tree: sorted page store and a root that matches it.
    pub open spec fn wf(self) -> bool {
        &&& self.pages_wf()
        &&& self.root == root_spec(self.mem())
    }

    /// Position of `page_index` in the page store, if present.
    fn find_page(&self, page_index: u64) -> (r: Option<usize>)
        ensures
            match r {
                Some(i) => i < self.pages@.len() && self.pages@[i as int].0 == page_index,
                None => forall|i: int| 0 <= i < self.pages@.len() ==> (#[trigger] self.pages@[i]).0 != page_index,
            },
    {
        let mut i: usize = 0;
        while i < self.pages.len()
            invariant
                0 <= i <= self.pages@.len(),
                forall|j: int| 0 <= j < i ==> (#[trigger] self.pages@[j]).0 != page_index,
            decreases self.pages@.len() - i,
        {
            if self.pages[i].0 == page_index {
                return Some(i);
            }
            i = i + 1;
        }
        None
    }

    /// True if some stored page index lies in `[lo, hi)`.
    fn has_page_in_range(&self, lo: u64, hi: u64) -> (r: bool)
        ensures
            r == exists|i: int| 0 <= i < self.pages@.len() && lo <= (#[trigger] self.pages@[i]).0 < hi,
    {
        let mut i: usize = 0;
        while i < self.pages.len()
            invariant
                0 <= i <= self.pages@.len(),
                forall|j: int| 0 <= j < i ==> !(lo <= (#[trigger] self.pages@[j]).0 < hi),
            decreases self.pages@.len() - i,
        {
            if lo <= self.pages[i].0 && self.pages[i].0 < hi {
                return true;
            }
            i = i + 1;
        }
        false
    }

    /// Digest of the all-empty subtree at height `level`.
    fn empty_hash(level: usize) -> (h: Digest)
        requires
            level <= MERKLE_DEPTH,
        ensures
            h == empty_subtree(level as nat),
    {
        let zp = make_zero_page();
        let mut h = page_hash(&zp);
        let mut k: usize = 0;
        while k < level
            invariant
                0 <= k <= level,
                h == empty_subtree(k as nat),
            decreases level - k,
        {
            h = compress(&h, &h);
            k = k + 1;
        }
        h
    }

    /// Digest of the subtree at height `level` and position `index`, pruning
    /// ranges with no stored page to the precomputed empty hash.
    fn node_hash(&self, level: usize, index: u64) -> (h: Digest)
        requires
            self.pages_wf(),
            level <= MERKLE_DEPTH,
            (index as nat) < pow2((MERKLE_DEPTH - level) as nat),
        ensures
            h == subtree_hash(self.mem(), level as nat, index as nat),
        decreases level,
    {
        proof {
            lemma2_to64();
            assert(pow2(MERKLE_DEPTH as nat) == NUM_PAGES);
        }
        if level == 0 {
            match self.find_page(index) {
                Some(i) => {
                    proof {
                        lemma_pairs_map_at(self.pages@, i as int);
                    }
                    page_hash(&self.pages[i].1)
                },
                None => {
                    proof {
                        lemma_pairs_map_dom(self.pages@, index);
                        assert(!self.mem().contains_key(index));
                    }
                    Self::empty_hash(0)
                },
            }
        } else {
            proof {
                lemma_pow2_adds((MERKLE_DEPTH - level) as nat, level as nat);
                lemma_pow2_pos(level as nat);
                lemma_pow2_pos((MERKLE_DEPTH - level) as nat);
                assert((index as nat) * pow2(level as nat) + pow2(level as nat) <= pow2(
                    (MERKLE_DEPTH - level) as nat,
                ) * pow2(level as nat)) by (nonlinear_arith)
                    requires
                        (index as nat) < pow2((MERKLE_DEPTH - level) as nat),
                        pow2(level as nat) > 0,
                ;
            }
            let width = 1u64 << (level as u64);
            proof {
                lemma_u64_shl_is_mul(1u64, level as u64);
                assert(width as nat == pow2(level as nat));
            }
            let lo = index * width;
            let hi = lo + width;
            if !self.has_page_in_range(lo, hi) {
                proof {
                    assert forall|k: u64| self.mem().contains_key(k) implies !((index as nat) * pow2(
                        level as nat,
                    ) <= k < (index as nat + 1) * pow2(level as nat)) by {
                        lemma_pairs_map_dom(self.pages@, k);
                        let i = choose|i: int|
                            0 <= i < self.pages@.len() && self.pages@[i].0 == k;
                        assert(!(lo <= self.pages@[i].0 < hi));
                        assert((index as nat + 1) * pow2(level as nat) == index as nat * pow2(
                            level as nat,
                        ) + pow2(level as nat)) by (nonlinear_arith);
                    }
                    assert((index as nat + 1) * pow2(level as nat) == index as nat * pow2(level as nat)
                        + pow2(level as nat)) by (nonlinear_arith);
                    lemma_subtree_empty(self.mem(), level as nat, index as nat);
                }
                Self::empty_hash(level)
            } else {
                proof {
                    lemma_pow2_unfold((MERKLE_DEPTH - level + 1) as nat);
                    assert(2 * (index as nat) + 1 < pow2((MERKLE_DEPTH - (level - 1)) as nat));
                }
                let left = self.node_hash(level - 1, 2 * index);
                let right = self.node_hash(level - 1, 2 * index + 1);
                compress(&left, &right)
            }
        }
    }

    /// An empty tree: no page was ever written, and the root is the root
    /// of the all-zero tree of fixed depth.
    pub fn new() -> (t: MerkleTree)
        ensures
            t.wf(),
            t.mem() == Map::<u64, Seq<u64>>::empty(),
    {
        let pages: Vec<(u64, Vec<u64>)> = Vec::new();
        let mut t = MerkleTree { pages, root: Digest { n0: 0, n1: 0, n2: 0, n3: 0 } };
        proof {
            assert(t.mem() =~= Map::<u64, Seq<u64>>::empty());
            lemma2_to64();
        }
        let root = t.node_hash(MERKLE_DEPTH, 0);
        t.root = root;
        t
    }

    /// The current root commitment; a cached read.
    pub fn root_hash(&self) -> (h: Digest)
        requires
            self.wf(),
        ensures
            h == root_spec(self.mem()),
    {
        self.root
    }

    /// Returns the current contents of the page (all-zero if never written)
    /// and its inclusion proof: the sibling hashes from the leaf upward.
    /// The proof has one hash per tree level and verifies against the
    /// current root.
    pub fn get(&self, page_index: u64) -> (r: (Vec<u64>, Vec<Digest>))
        requires
            self.wf(),
            page_index < NUM_PAGES,
        ensures
            r.0@ == page_at(self.mem(), page_index),
            r.1@ == proof_spec(self.mem(), page_index as nat),
            r.1@.len() == MERKLE_DEPTH,
            proof_root(page_hash_spec(r.0@), page_index as nat, r.1@) == root_spec(self.mem()),
    {
        proof {
            lemma2_to64();
            assert(pow2(MERKLE_DEPTH as nat) == NUM_PAGES);
        }
        let page = match self.find_page(page_index) {
            Some(i) => {
                proof {
                    lemma_pairs_map_at(self.pages@, i as int);
                }
                let mut p: Vec<u64> = Vec::new();
                let src = &self.pages[i].1;
                let mut j: usize = 0;
                while j < src.len()
                    invariant
                        0 <= j <= src@.len(),
                        p@ =~= src@.take(j as int),
                    decreases src@.len() - j,
                {
                    p.push(src[j]);
                    j = j + 1;
                }
                proof {
                    assert(p@ =~= src@);
                }
                p
            },
            None => {
                proof {
                    lemma_pairs_map_dom(self.pages@, page_index);
                }
                make_zero_page()
            },
        };
        let mut siblings: Vec<Digest> = Vec::new();
        let mut cur: u64 = page_index;
        let mut k: usize = 0;
        while k < MERKLE_DEPTH
            invariant
                self.wf(),
                page_index < NUM_PAGES,
                0 <= k <= MERKLE_DEPTH,
                pow2(MERKLE_DEPTH as nat) == NUM_PAGES,
                cur as nat == (page_index as nat) / pow2(k as nat),
                siblings@.len() == k,
                forall|j: int| 0 <= j < k ==> siblings@[j] == subtree_hash(
                    self.mem(),
                    j as nat,
                    sibling_of((page_index as nat) / pow2(j as nat)),
                ),
            decreases MERKLE_DEPTH - k,
        {
            proof {
                lemma_pow2_pos(k as nat);
                lemma_pow2_adds(k as nat, (MERKLE_DEPTH - k) as nat);
                lemma_pow2_pos((MERKLE_DEPTH - k) as nat);
                assert((cur as nat) < pow2((MERKLE_DEPTH - k) as nat)) by (nonlinear_arith)
                    requires
                        cur as nat == (page_index as nat) / pow2(k as nat),
                        (page_index as nat) < pow2(k as nat) * pow2((MERKLE_DEPTH - k) as nat),
                        pow2(k as nat) > 0,
                        pow2((MERKLE_DEPTH - k) as nat) > 0,
                ;
            }
            let sib = if cur % 2 == 0 {
                proof {
                    lemma_pow2_unfold((MERKLE_DEPTH - k) as nat);
                    assert((cur as nat) + 1 < pow2((MERKLE_DEPTH - k) as nat)) by (nonlinear_arith)
                        requires
                            cur as nat % 2 == 0,
                            (cur as nat) < pow2((MERKLE_DEPTH - k) as nat),
                            pow2((MERKLE_DEPTH - k) as nat) == 2 * pow2((MERKLE_DEPTH - k - 1) as nat),
                    ;
                }
                cur + 1
            } else {
                cur - 1
            };
            proof {
                assert(sib as nat == sibling_of(cur as nat));
            }
            let h = self.node_hash(k, sib);
            siblings.push(h);
            proof {
                lemma_pow2_pos(k as nat);
                lemma_div_denominator(page_index as int, pow2(k as nat) as int, 2);
                lemma_pow2_unfold((k + 1) as nat);
                assert((page_index as nat) / pow2((k + 1) as nat) == (cur as nat) / 2);
            }
            cur = cur / 2;
            k = k + 1;
        }
        proof {
            assert(siblings@ =~= proof_spec(self.mem(), page_index as nat));
            lemma_proof_verifies(self.mem(), page_index as nat);
        }
        (page, siblings)
    }

    /// Applies a batch of (byte address, value) writes: groups them by page,
    /// updates the affected pages, and refreshes the root.  The final page
    /// contents reflect the final write at each address within the batch.
    pub fn update(&mut self, writes: &Vec<(u64, u64)>)
        requires
            old(self).wf(),
            forall|i: int| 0 <= i < writes@.len() ==> (#[trigger] writes@[i]).0 < ADDRESS_SPACE,
        ensures
            final(self).wf(),
            final(self).mem() == apply_writes(old(self).mem(), writes@),
    {
        let ghost original: Map<u64, Seq<u64>> = self.mem();
        let mut w: usize = 0;
        while w < writes.len()
            invariant
                self.pages_wf(),
                forall|i: int| 0 <= i < writes@.len() ==> (#[trigger] writes@[i]).0 < ADDRESS_SPACE,
                0 <= w <= writes@.len(),
                self.mem() == apply_writes(original, writes@.take(w as int)),
            decreases writes@.len() - w,
        {
            let ghost before: Map<u64, Seq<u64>> = self.mem();
            let address = writes[w].0;
            let value = writes[w].1;
            self.apply_write(address, value);
            proof {
                assert(writes@.take(w as int + 1).drop_last() =~= writes@.take(w as int));
                assert(apply_writes(original, writes@.take(w as int + 1)) == apply_one(
                    before,
                    address,
                    value,
                )) by {
                    lemma_apply_writes_snoc(original, writes@.take(w as int + 1));
                }
            }
            w = w + 1;
        }
        proof {
            assert(writes@.take(writes@.len() as int) =~= writes@);
            lemma2_to64();
        }
        let root = self.node_hash(MERKLE_DEPTH, 0);
        self.root = root;
    }

    /// Applies one write to the page store, leaving the cached root stale.
    fn apply_write(&mut self, address: u64, value: u64)
        requires
            old(self).pages_wf(),
            address < ADDRESS_SPACE,
        ensures
            final(self).pages_wf(),
            final(self).mem() == apply_one(old(self).mem(), address, value),
            final(self).root == old(self).root,
    {
        let page_index = address >> (crate::PAGE_SIZE_BYTES_LOG as u64);
        proof {
            lemma_u64_shr_is_div(address, crate::PAGE_SIZE_BYTES_LOG as u64);
            lemma2_to64();
            assert(pow2(12) == 4096);
            assert((address as nat) / 4096 < NUM_PAGES as nat);
        }
        let offset = ((address % 4096) / 4) as usize;
        proof {
            assert(offset < WORDS_PER_PAGE);
        }
        let ghost m0: Map<u64, Seq<u64>> = self.mem();
        let ghost m2: Map<u64, Seq<u64>> = apply_one(m0, address, value);
        match self.find_page(page_index) {
            Some(i) => {
                proof {
                    lemma_sorted_distinct(self.pages@);
                    lemma_pairs_map_at(self.pages@, i as int);
                }
                let entry = &mut self.pages[i];
                entry.1[offset] = value;
                proof {
                    let s1 = self.pages@;
                    let s0 = old(self).pages@;
                    assert(s1.len() == s0.len());
                    assert(forall|j: int| 0 <= j < s1.len() && j != i ==> s1[j] == s0[j]);
                    assert(s1[i as int].0 == page_index);
                    assert(s1[i as int].1@ =~= page_at(m0, page_index).update(
                        word_offset_of_address(address),
                        value,
                    ));
                    assert(forall|a: int, b: int| 0 <= a < b < s1.len() ==> (#[trigger] s1[a]).0
                        != (#[trigger] s1[b]).0);
                    assert forall|j: int| 0 <= j < s1.len() implies m2.contains_key(
                        (#[trigger] s1[j]).0,
                    ) && m2[s1[j].0] == s1[j].1@ by {
                        if j != i {
                            lemma_pairs_map_at(s0, j);
                            assert(s1[j].0 != page_index);
                        }
                    }
                    assert forall|k: u64| #[trigger] m2.contains_key(k) implies exists|j: int|
                        0 <= j < s1.len() && (#[trigger] s1[j]).0 == k by {
                        if k == page_index {
                            assert(s1[i as int].0 == k);
                        } else {
                            lemma_pairs_map_dom(s0, k);
                            let j = choose|j: int| 0 <= j < s0.len() && s0[j].0 == k;
                            assert(s1[j].0 == k);
                        }
                    }
                    lemma_pairs_map_is(s1, m2);
                }
            },
            None => {
                proof {
                    lemma_pairs_map_dom(self.pages@, page_index);
                    assert(!m0.contains_key(page_index));
                }
                let mut page = make_zero_page();
                page[offset] = value;
                let pos = self.insert_position(page_index);
                self.pages.insert(pos, (page_index, page));
                proof {
                    let s1 = self.pages@;
                    let s0 = old(self).pages@;
                    assert(s1.len() == s0.len() + 1);
                    assert(forall|j: int| 0 <= j < pos ==> s1[j] == s0[j]);
                    assert(forall|j: int| pos < j < s1.len() ==> s1[j] == s0[j - 1]);
                    assert(s1[pos as int].0 == page_index);
                    assert(s1[pos as int].1@ =~= page_at(m0, page_index).update(
                        word_offset_of_address(address),
                        value,
                    ));
                    assert forall|a: int, b: int| 0 <= a < b < s1.len() implies (#[trigger] s1[a]).0
                        < (#[trigger] s1[b]).0 by {
                        if a < pos && b > pos {
                            assert(s1[a] == s0[a] && s1[b] == s0[b - 1]);
                        }
                    }
                    lemma_sorted_distinct(s1);
                    assert forall|j: int| 0 <= j < s1.len() implies m2.contains_key(
                        (#[trigger] s1[j]).0,
                    ) && m2[s1[j].0] == s1[j].1@ by {
                        if j < pos as int {
                            lemma_pairs_map_at(s0, j);
                            assert(s1[j].0 != page_index);
                        } else if j > pos as int {
                            lemma_pairs_map_at(s0, j - 1);
                            assert(s1[j].0 != page_index);
                        }
                    }
                    assert forall|k: u64| #[trigger] m2.contains_key(k) implies exists|j: int|
                        0 <= j < s1.len() && (#[trigger] s1[j]).0 == k by {
                        if k == page_index {
                            assert(s1[pos as int].0 == k);
                        } else {
                            lemma_pairs_map_dom(s0, k);
                            let j = choose|j: int| 0 <= j < s0.len() && s0[j].0 == k;
                            if j < pos as int {
                                assert(s1[j].0 == k);
                            } else {
                                assert(s1[j + 1].0 == k);
                            }
                        }
                    }
                    lemma_pairs_map_is(s1, m2);
                }
            },
        }
    }

    /// Position at which `page_index` keeps the store sorted.
    fn insert_position(&self, page_index: u64) -> (pos: usize)
        requires
            self.pages_wf(),
            forall|i: int| 0 <= i < self.pages@.len() ==> (#[trigger] self.pages@[i]).0 != page_index,
        ensures
            pos <= self.pages@.len(),
            forall|i: int| 0 <= i < pos ==> (#[trigger] self.pages@[i]).0 < page_index,
            forall|i: int| pos <= i < self.pages@.len() ==> (#[trigger] self.pages@[i]).0 > page_index,
    {
        let mut pos: usize = 0;
        while pos < self.pages.len() && self.pages[pos].0 < page_index
            invariant
                0 <= pos <= self.pages@.len(),
                forall|i: int| 0 <= i < pos ==> (#[trigger] self.pages@[i]).0 < page_index,
                self.pages_wf(),
            decreases self.pages@.len() - pos,
        {
            pos = pos + 1;
        }
        proof {
            assert forall|i: int| pos <= i < self.pages@.len() implies (#[trigger] self.pages@[i]).0
                > page_index by {
                if i > pos {
                    assert(self.pages@[pos as int].0 < self.pages@[i].0);
                }
            }
        }
        pos
    }
}

/// Sorted page indices are pairwise distinct.
pub proof fn lemma_sorted_distinct(s: Seq<(u64, Vec<u64>)>)
    requires
        forall|i: int, j: int| 0 <= i < j < s.len() ==> (#[trigger] s[i]).0 < (#[trigger] s[j]).0,
    ensures
        forall|i: int, j: int| 0 <= i < j < s.len() ==> (#[trigger] s[i]).0 != (#[trigger] s[j]).0,
{
}

/// Appending one write applies it after the others.
pub proof fn lemma_apply_writes_snoc(m: Map<u64, Seq<u64>>, ws: Seq<(u64, u64)>)
    requires
        ws.len() > 0,
    ensures
        apply_writes(m, ws) == apply_one(apply_writes(m, ws.drop_last()), ws.last().0, ws.last().1),
    decreases ws.len(),
{
    let m1 = apply_one(m, ws.first().0, ws.first().1);
    if ws.len() == 1 {
        assert(ws.drop_last() =~= Seq::<(u64, u64)>::empty());
        assert(ws.drop_first() =~= Seq::<(u64, u64)>::empty());
        assert(apply_writes(m1, ws.drop_first()) == m1);
        assert(apply_writes(m, ws) == m1);
        assert(apply_writes(m, ws.drop_last()) == m);
        assert(ws.last() == ws.first());
    } else {
        lemma_apply_writes_snoc(m1, ws.drop_first());
        assert(apply_writes(m, ws) == apply_writes(m1, ws.drop_first()));
        assert(ws.drop_first().last() == ws.last());
        assert(ws.drop_first().drop_last() =~= ws.drop_last().drop_first());
        assert(ws.drop_last().len() > 0);
        assert(ws.drop_last().first() == ws.first());
        assert(apply_writes(m, ws.drop_last()) == apply_writes(m1, ws.drop_last().drop_first()));
    }
}

} // verus!
