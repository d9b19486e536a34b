use continuations::bootloader::{assemble_bootloader_input, default_input, default_register_values};
use continuations::merkle::{MerkleTree, HASH_WIDTH, MERKLE_DEPTH, WORDS_PER_PAGE};

#[test]
fn last_write_wins_within_one_update() {
    let mut t = MerkleTree::new();
    t.update(&vec![(0x0000, 1), (0x0004, 9), (0x0000, 2)]);
    let (page, proof) = t.get(0);
    assert_eq!(page[0], 2);
    assert_eq!(page[1], 9);
    assert_eq!(page.len(), WORDS_PER_PAGE);
    assert_eq!(proof.len(), MERKLE_DEPTH);
}

#[test]
fn unwritten_pages_read_all_zero() {
    let t = MerkleTree::new();
    let (page, proof) = t.get(12345);
    assert!(page.iter().all(|&w| w == 0));
    assert_eq!(proof.len(), MERKLE_DEPTH);
}

#[test]
fn identical_update_histories_give_identical_roots() {
    let mut t1 = MerkleTree::new();
    let mut t2 = MerkleTree::new();
    t1.update(&vec![(0x1000, 5), (0x2_0000, 6)]);
    t2.update(&vec![(0x1000, 5), (0x2_0000, 6)]);
    assert_eq!(t1.root_hash(), t2.root_hash());
    t1.update(&vec![(0x1000, 7)]);
    assert_ne!(t1.root_hash(), t2.root_hash());
}

#[test]
fn writes_to_distinct_pages_leave_other_pages_unchanged() {
    let mut t = MerkleTree::new();
    t.update(&vec![(0x0000, 1)]);
    let (page_before, _) = t.get(5);
    t.update(&vec![(5 * 4096 + 8, 3)]);
    let (page_zero, _) = t.get(0);
    let (page_five, _) = t.get(5);
    assert_eq!(page_zero[0], 1);
    assert_eq!(page_before[2], 0);
    assert_eq!(page_five[2], 3);
}

#[test]
fn default_input_layout_for_no_pages() {
    let input = default_input(&Vec::new());
    let regs = default_register_values();
    let tree = MerkleTree::new();
    let root = tree.root_hash();
    assert_eq!(input.len(), regs.len() + HASH_WIDTH + 1);
    assert_eq!(&input[0..regs.len()], &regs[..]);
    assert_eq!(input[regs.len()], root.n0);
    assert_eq!(input[regs.len() + 1], root.n1);
    assert_eq!(input[regs.len() + 2], root.n2);
    assert_eq!(input[regs.len() + 3], root.n3);
    assert_eq!(input[regs.len() + HASH_WIDTH], 0);
}

#[test]
fn assembled_input_embeds_pages_in_ascending_order() {
    let mut t = MerkleTree::new();
    t.update(&vec![(2 * 4096, 8)]);
    let regs = default_register_values();
    let input = assemble_bootloader_input(&regs, &t, &vec![0, 2]);
    let n_at = regs.len() + HASH_WIDTH;
    assert_eq!(input[n_at], 2);
    let seg = 1 + WORDS_PER_PAGE + MERKLE_DEPTH * HASH_WIDTH;
    assert_eq!(input[n_at + 1], 0);
    assert_eq!(input[n_at + 1 + seg], 2);
    // Page 2's first word was written.
    assert_eq!(input[n_at + 1 + seg + 1], 8);
    assert_eq!(input.len(), n_at + 1 + 2 * seg);
}
