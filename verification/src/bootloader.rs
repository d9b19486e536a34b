//! Bootloader-facing constants and the bootloader input assembler.
//!
//! A chunk's bootloader input is one ordered vector of field values:
//! the register snapshot in canonical register order, the current Merkle
//! root, the count of pages to page in, and, per page in ascending page
//! index order, the page index, the page contents and its inclusion proof.

use vstd::prelude::*;
use crate::merkle::{
    Digest, MerkleTree, NUM_PAGES, MERKLE_DEPTH, WORDS_PER_PAGE, page_at, proof_spec, root_spec,
};

verus! {

/// Number of registers carried across chunk boundaries.
pub const REG_COUNT: usize = 5;

/// Index of the program counter inside the register snapshot.
pub const PC_INDEX: usize = 4;

/// Program counter value at which real (post-dispatch) execution starts.
pub const DEFAULT_PC: u64 = 2;

/// The canonical qualified register names, PC last.
pub open spec fn register_names_spec() -> Seq<Seq<char>> {
    seq!["main.x1"@, "main.x2"@, "main.x3"@, "main.x4"@, "main.pc"@]
}

/// Returns the canonical register names; `register_names()[PC_INDEX]` is
/// the program counter's qualified name.
pub fn register_names() -> (r: Vec<String>)
    ensures
        r@.len() == REG_COUNT,
        forall|i: int| 0 <= i < REG_COUNT ==> (#[trigger] r@[i])@ == register_names_spec()[i],
{
    let mut r: Vec<String> = Vec::new();
    r.push("main.x1".to_owned());
    r.push("main.x2".to_owned());
    r.push("main.x3".to_owned());
    r.push("main.x4".to_owned());
    r.push("main.pc".to_owned());
    r
}

/// The canonical register names are pairwise distinct, and the PC entry
/// names the program counter.
pub proof fn lemma_register_names_distinct()
    ensures
        forall|i: int, j: int| 0 <= i < j < REG_COUNT
            ==> register_names_spec()[i] != register_names_spec()[j],
        register_names_spec()[PC_INDEX as int] == "main.pc"@,
{
    reveal_strlit("main.x1");
    reveal_strlit("main.x2");
    reveal_strlit("main.x3");
    reveal_strlit("main.x4");
    reveal_strlit("main.pc");
    assert forall|i: int, j: int| 0 <= i < j < REG_COUNT implies register_names_spec()[i]
        != register_names_spec()[j] by {
        assert(register_names_spec()[i][5] != register_names_spec()[j][5]
            || register_names_spec()[i][6] != register_names_spec()[j][6]);
    }
}

/// Instructions the bootloader needs the compiled machine to expose.
pub open spec fn bootloader_instruction_names_spec() -> Seq<Seq<char>> {
    seq!["load_bootloader_input"@, "jump_to_bootloader_input"@]
}

/// Returns the names of the bootloader-specific instructions.
pub fn bootloader_instruction_names() -> (r: Vec<String>)
    ensures
        r@.len() == bootloader_instruction_names_spec().len(),
        forall|i: int| 0 <= i < r@.len()
            ==> (#[trigger] r@[i])@ == bootloader_instruction_names_spec()[i],
{
    let mut r: Vec<String> = Vec::new();
    r.push("load_bootloader_input".to_owned());
    r.push("jump_to_bootloader_input".to_owned());
    r
}

/// Register values a fresh execution starts from: all zero but the PC,
/// which starts at `DEFAULT_PC`.
pub open spec fn default_register_values_spec() -> Seq<u64> {
    Seq::new(REG_COUNT as nat, |i: int| if i == PC_INDEX as int { DEFAULT_PC } else { 0u64 })
}

/// Returns the default register snapshot for the first chunk.
pub fn default_register_values() -> (r: Vec<u64>)
    ensures
        r@ == default_register_values_spec(),
{
    let mut r: Vec<u64> = Vec::new();
    r.push(0);
    r.push(0);
    r.push(0);
    r.push(0);
    r.push(DEFAULT_PC);
    proof {
        assert(r@ =~= default_register_values_spec());
    }
    r
}

/// A hash flattened to its field values.
pub open spec fn hash_words(h: Digest) -> Seq<u64> {
    seq![h.n0, h.n1, h.n2, h.n3]
}

/// A proof flattened to field values, sibling after sibling.
pub open spec fn flatten_hashes(hs: Seq<Digest>) -> Seq<u64>
    decreases hs.len(),
{
    if hs.len() == 0 {
        Seq::empty()
    } else {
        hash_words(hs.first()) + flatten_hashes(hs.drop_first())
    }
}

/// Appending one hash appends its four values.
pub proof fn lemma_flatten_hashes_snoc(hs: Seq<Digest>)
    requires
        hs.len() > 0,
    ensures
        flatten_hashes(hs) == flatten_hashes(hs.drop_last()) + hash_words(hs.last()),
    decreases hs.len(),
{
    if hs.len() == 1 {
        assert(hs.drop_last() =~= Seq::<Digest>::empty());
        assert(hs.drop_first() =~= Seq::<Digest>::empty());
        assert(flatten_hashes(hs.drop_first()) == Seq::<u64>::empty());
        assert(flatten_hashes(hs) =~= flatten_hashes(hs.drop_last()) + hash_words(hs.last()));
    } else {
        lemma_flatten_hashes_snoc(hs.drop_first());
        assert(hs.drop_first().drop_last() =~= hs.drop_last().drop_first());
        assert(hs.drop_first().last() == hs.last());
        assert(hs.drop_last().first() == hs.first());
        assert(flatten_hashes(hs) == hash_words(hs.first()) + flatten_hashes(hs.drop_first()));
        assert(flatten_hashes(hs.drop_last()) == hash_words(hs.first()) + flatten_hashes(
            hs.drop_last().drop_first(),
        ));
        assert(flatten_hashes(hs) =~= flatten_hashes(hs.drop_last()) + hash_words(hs.last()));
    }
}

/// The input segment of one paged-in page: its index, its contents, and
/// its inclusion proof.
pub open spec fn page_segment(m: Map<u64, Seq<u64>>, pi: u64) -> Seq<u64> {
    seq![pi] + page_at(m, pi) + flatten_hashes(proof_spec(m, pi as nat))
}

/// The input segments of all paged-in pages, in the given order.
pub open spec fn pages_segment(m: Map<u64, Seq<u64>>, pages: Seq<u64>) -> Seq<u64>
    decreases pages.len(),
{
    if pages.len() == 0 {
        Seq::empty()
    } else {
        page_segment(m, pages.first()) + pages_segment(m, pages.drop_first())
    }
}

/// Appending one page appends its segment.
pub proof fn lemma_pages_segment_snoc(m: Map<u64, Seq<u64>>, pages: Seq<u64>)
    requires
        pages.len() > 0,
    ensures
        pages_segment(m, pages) == pages_segment(m, pages.drop_last()) + page_segment(
            m,
            pages.last(),
        ),
    decreases pages.len(),
{
    if pages.len() == 1 {
        assert(pages.drop_last() =~= Seq::<u64>::empty());
        assert(pages.drop_first() =~= Seq::<u64>::empty());
        assert(pages_segment(m, pages.drop_first()) == Seq::<u64>::empty());
        assert(pages_segment(m, pages) =~= pages_segment(m, pages.drop_last()) + page_segment(
            m,
            pages.last(),
        ));
    } else {
        lemma_pages_segment_snoc(m, pages.drop_first());
        assert(pages.drop_first().drop_last() =~= pages.drop_last().drop_first());
        assert(pages.drop_first().last() == pages.last());
        assert(pages.drop_last().first() == pages.first());
        assert(pages_segment(m, pages.drop_last()) == page_segment(m, pages.first())
            + pages_segment(m, pages.drop_last().drop_first()));
        assert(pages_segment(m, pages) =~= pages_segment(m, pages.drop_last()) + page_segment(
            m,
            pages.last(),
        ));
    }
}

/// The full bootloader input for one chunk: register snapshot, current
/// root, page count, then one segment per page.
pub open spec fn bootloader_input_spec(
    regs: Seq<u64>,
    m: Map<u64, Seq<u64>>,
    pages: Seq<u64>,
) -> Seq<u64> {
    regs + hash_words(root_spec(m)) + seq![pages.len() as u64] + pages_segment(m, pages)
}

/// Assembles the bootloader input vector for one chunk from the incoming
/// register snapshot, the current page Merkle tree, and the pages the
/// chunk will touch (in ascending page index order).
pub fn assemble_bootloader_input(
    register_values: &Vec<u64>,
    tree: &MerkleTree,
    accessed_pages: &Vec<u64>,
) -> (r: Vec<u64>)
    requires
        tree.wf(),
        register_values@.len() == REG_COUNT,
        forall|i: int| 0 <= i < accessed_pages@.len() ==> (#[trigger] accessed_pages@[i]) < NUM_PAGES,
    ensures
        r@ == bootloader_input_spec(register_values@, tree.mem(), accessed_pages@),
{
    let ghost m = tree.mem();
    let mut r: Vec<u64> = Vec::new();
    let mut i: usize = 0;
    while i < register_values.len()
        invariant
            0 <= i <= register_values@.len(),
            r@ =~= register_values@.take(i as int),
        decreases register_values@.len() - i,
    {
        r.push(register_values[i]);
        i = i + 1;
    }
    proof {
        assert(r@ =~= register_values@);
    }
    let root = tree.root_hash();
    r.push(root.n0);
    r.push(root.n1);
    r.push(root.n2);
    r.push(root.n3);
    r.push(accessed_pages.len() as u64);
    proof {
        assert(r@ =~= register_values@ + hash_words(root_spec(m)) + seq![
            accessed_pages@.len() as u64,
        ]);
    }
    let ghost prefix = r@;
    let mut k: usize = 0;
    while k < accessed_pages.len()
        invariant
            tree.wf(),
            tree.mem() == m,
            0 <= k <= accessed_pages@.len(),
            forall|i: int| 0 <= i < accessed_pages@.len() ==> (#[trigger] accessed_pages@[i])
                < NUM_PAGES,
            r@ == prefix + pages_segment(m, accessed_pages@.take(k as int)),
        decreases accessed_pages@.len() - k,
    {
        let pi = accessed_pages[k];
        let ghost r_before = r@;
        r.push(pi);
        let (page, siblings) = tree.get(pi);
        let mut j: usize = 0;
        while j < page.len()
            invariant
                0 <= j <= page@.len(),
                r@ =~= r_before + seq![pi] + page@.take(j as int),
            decreases page@.len() - j,
        {
            r.push(page[j]);
            j = j + 1;
        }
        proof {
            assert(r@ =~= r_before + seq![pi] + page_at(m, pi));
        }
        let ghost r_mid = r@;
        let mut s: usize = 0;
        while s < siblings.len()
            invariant
                0 <= s <= siblings@.len(),
                r@ =~= r_mid + flatten_hashes(siblings@.take(s as int)),
            decreases siblings@.len() - s,
        {
            let h = siblings[s];
            r.push(h.n0);
            r.push(h.n1);
            r.push(h.n2);
            r.push(h.n3);
            proof {
                assert(siblings@.take(s as int + 1).drop_last() =~= siblings@.take(s as int));
                assert(siblings@.take(s as int + 1).last() == siblings@[s as int]);
                lemma_flatten_hashes_snoc(siblings@.take(s as int + 1));
            }
            s = s + 1;
        }
        proof {
            assert(siblings@.take(siblings@.len() as int) =~= siblings@);
            assert(r@ =~= r_before + page_segment(m, pi));
            assert(accessed_pages@.take(k as int + 1).drop_last() =~= accessed_pages@.take(
                k as int,
            ));
            assert(accessed_pages@.take(k as int + 1).last() == accessed_pages@[k as int]);
            lemma_pages_segment_snoc(m, accessed_pages@.take(k as int + 1));
            assert(r@ =~= prefix + pages_segment(m, accessed_pages@.take(k as int + 1)));
        }
        k = k + 1;
    }
    proof {
        assert(accessed_pages@.take(accessed_pages@.len() as int) =~= accessed_pages@);
        assert(r@ =~= bootloader_input_spec(register_values@, m, accessed_pages@));
    }
    r
}

/// The neutral bootloader input: default registers, the empty tree's root,
/// and the given accessed pages (none for a reference run).
pub fn default_input(accessed_pages: &Vec<u64>) -> (r: Vec<u64>)
    requires
        forall|i: int| 0 <= i < accessed_pages@.len() ==> (#[trigger] accessed_pages@[i]) < NUM_PAGES,
    ensures
        r@ == bootloader_input_spec(
            default_register_values_spec(),
            Map::<u64, Seq<u64>>::empty(),
            accessed_pages@,
        ),
{
    let tree = MerkleTree::new();
    let regs = default_register_values();
    assemble_bootloader_input(&regs, &tree, accessed_pages)
}

} // verus!
