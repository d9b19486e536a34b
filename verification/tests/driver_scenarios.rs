use continuations::bootloader::{
    default_register_values, register_names, DEFAULT_PC, PC_INDEX, REG_COUNT,
};
use continuations::driver::{
    sanity_check, AnalyzedProgram, ChunkingDriver, ContinuationsError, Register, RegisterTy,
};
use continuations::merkle::{MerkleTree, HASH_WIDTH, MERKLE_DEPTH, WORDS_PER_PAGE};
use continuations::trace::{transposed_trace, MemoryAccess, TransposedTrace};

fn machine_registers() -> Vec<Register> {
    vec![
        Register { name: "x1".to_owned(), ty: RegisterTy::Write },
        Register { name: "x2".to_owned(), ty: RegisterTy::Write },
        Register { name: "x3".to_owned(), ty: RegisterTy::Write },
        Register { name: "x4".to_owned(), ty: RegisterTy::Write },
        Register { name: "x0".to_owned(), ty: RegisterTy::Write },
        Register { name: "tmp".to_owned(), ty: RegisterTy::Assignment },
        Register { name: "pc".to_owned(), ty: RegisterTy::Pc },
    ]
}

fn program(degree: u64) -> AnalyzedProgram {
    AnalyzedProgram {
        main_instructions: vec![
            "load_bootloader_input".to_owned(),
            "jump_to_bootloader_input".to_owned(),
            "mstore".to_owned(),
        ],
        main_registers: machine_registers(),
        machine_degrees: vec![None, Some(degree)],
    }
}

/// A full trace of `len` rows: one preamble row, then real execution with
/// the PC counting up from `DEFAULT_PC` and registers derived from the row.
fn full_trace(len: usize) -> TransposedTrace {
    let mut cols: Vec<Vec<u64>> = Vec::new();
    for k in 0..REG_COUNT - 1 {
        let mut col = vec![1000 + k as u64];
        for r in 1..len {
            col.push((r as u64) * 10 + k as u64);
        }
        cols.push(col);
    }
    let mut pc = vec![0u64];
    for r in 1..len {
        pc.push(DEFAULT_PC + (r as u64) - 1);
    }
    cols.push(pc);
    TransposedTrace { cols }
}

/// A chunk trace: one bootloader-prefix row, then the full trace's rows
/// `[from, to)`.
fn chunk_trace(full: &TransposedTrace, from: usize, to: usize) -> TransposedTrace {
    let mut cols: Vec<Vec<u64>> = Vec::new();
    for k in 0..REG_COUNT {
        let mut col = vec![9999u64];
        for r in from..to {
            col.push(full.cols[k][r]);
        }
        cols.push(col);
    }
    TransposedTrace { cols }
}

#[test]
fn empty_access_chunk_emits_one_input_without_pages() {
    // A program that loops in-register only: no memory accesses.
    let full = full_trace(4);
    let mut driver = ChunkingDriver::new(full_trace(4), Vec::new(), &program(16)).unwrap();
    assert_eq!(driver.num_rows, 14);
    assert_eq!(driver.proven_trace, 1);
    let empty_root = MerkleTree::new().root_hash();

    let input = driver.next_bootloader_input();
    assert_eq!(input.len(), REG_COUNT + HASH_WIDTH + 1);
    assert_eq!(&input[0..REG_COUNT], &default_register_values()[..]);
    // No pages: the count is zero and nothing follows it.
    assert_eq!(input[REG_COUNT + HASH_WIDTH], 0);

    // The chunk re-executes rows 1..4 after no bootloader rows.
    let chunk = chunk_trace(&full, 1, 4);
    let done = driver.process_chunk(&chunk, &Vec::new()).unwrap();
    assert!(done);
    assert_eq!(driver.all_bootloader_inputs.len(), 1);
    // No update: the root is still the empty tree's root.
    assert_eq!(driver.merkle_tree.root_hash(), empty_root);
}

#[test]
fn single_page_chunk_pages_in_page_zero() {
    // The program reads and writes address 0x0000 at row 1.
    let full = full_trace(4);
    let accesses = vec![MemoryAccess { idx: 1, address: 0x0000 }];
    let mut driver = ChunkingDriver::new(full_trace(4), accesses, &program(16)).unwrap();
    let empty_root = MerkleTree::new().root_hash();

    let input = driver.next_bootloader_input();
    // One page: index, contents, and a proof of one hash per level.
    assert_eq!(input[REG_COUNT + HASH_WIDTH], 1);
    assert_eq!(input[REG_COUNT + HASH_WIDTH + 1], 0);
    let segment = REG_COUNT + HASH_WIDTH + 2;
    // The paged-in contents are the never-written all-zero page.
    assert!(input[segment..segment + WORDS_PER_PAGE].iter().all(|&w| w == 0));
    assert_eq!(input.len(), segment + WORDS_PER_PAGE + MERKLE_DEPTH * HASH_WIDTH);

    let chunk = chunk_trace(&full, 1, 4);
    let done = driver.process_chunk(&chunk, &vec![(0x0000, 7)]).unwrap();
    assert!(done);
    assert_ne!(driver.merkle_tree.root_hash(), empty_root);
    let (page, proof) = driver.merkle_tree.get(0);
    assert_eq!(page[0], 7);
    assert_eq!(proof.len(), MERKLE_DEPTH);
}

#[test]
fn two_chunks_hand_off_registers_and_root() {
    // A trace long enough for two chunks with num_rows = 14.
    let full = full_trace(20);
    let accesses = vec![MemoryAccess { idx: 2, address: 3 * 4096 }];
    let mut driver = ChunkingDriver::new(full_trace(20), accesses, &program(16)).unwrap();
    assert_eq!(driver.num_rows, 14);

    let _input0 = driver.next_bootloader_input();
    // Chunk 0: one bootloader row, then full rows 1..14 (budget 14).
    let chunk0 = chunk_trace(&full, 1, 14);
    let done = driver.process_chunk(&chunk0, &vec![(3 * 4096, 5)]).unwrap();
    assert!(!done);
    // One bootloader row used: 14 - 1 - 1 = 12 new rows proved.
    assert_eq!(driver.proven_trace, 13);
    assert_eq!(driver.chunk_index, 1);
    let root_after_chunk0 = driver.merkle_tree.root_hash();

    let input1 = driver.next_bootloader_input();
    assert_eq!(driver.all_bootloader_inputs.len(), 2);
    // Register continuity: the snapshot equals chunk 0's last row.
    for k in 0..REG_COUNT {
        assert_eq!(input1[k], chunk0.cols[k][13]);
    }
    // Root continuity: the embedded root is the post-chunk-0 root.
    assert_eq!(input1[REG_COUNT], root_after_chunk0.n0);
    assert_eq!(input1[REG_COUNT + 1], root_after_chunk0.n1);
    assert_eq!(input1[REG_COUNT + 2], root_after_chunk0.n2);
    assert_eq!(input1[REG_COUNT + 3], root_after_chunk0.n3);

    // Chunk 1 starts where chunk 0's last row was replayed: full row 13.
    let chunk1 = chunk_trace(&full, 13, 20);
    let done = driver.process_chunk(&chunk1, &Vec::new()).unwrap();
    assert!(done);
    assert_eq!(driver.all_bootloader_inputs.len(), 2);
}

#[test]
fn oracle_divergence_names_register_and_values() {
    let full = full_trace(4);
    let mut driver = ChunkingDriver::new(full_trace(4), Vec::new(), &program(16)).unwrap();
    let _input = driver.next_bootloader_input();
    let mut chunk = chunk_trace(&full, 1, 4);
    // Mutate one validated cell: register x2 at chunk row 2 (full row 2).
    let honest = chunk.cols[1][2];
    chunk.cols[1][2] = honest + 1;
    let err = driver.process_chunk(&chunk, &Vec::new()).unwrap_err();
    match err {
        ContinuationsError::OracleViolation {
            register,
            chunk_row,
            full_row,
            chunk_value,
            full_value,
        } => {
            assert_eq!(register, register_names()[1]);
            assert_eq!(chunk_row, 2);
            assert_eq!(full_row, 2);
            assert_eq!(chunk_value, honest + 1);
            assert_eq!(full_value, honest);
        },
        other => panic!("expected an oracle violation, got {:?}", other),
    }
}

#[test]
fn missing_bootloader_instruction_is_fatal() {
    let mut p = program(16);
    // Strip one bootloader-specific instruction.
    p.main_instructions.retain(|n| n != "jump_to_bootloader_input");
    let err = sanity_check(&p).unwrap_err();
    match err {
        ContinuationsError::MissingBootloaderInstruction { name } => {
            assert_eq!(name, "jump_to_bootloader_input");
        },
        other => panic!("expected a missing instruction, got {:?}", other),
    }
}

#[test]
fn register_set_mismatch_reports_both_differences() {
    let mut p = program(16);
    // Rename one writable register.
    p.main_registers[1].name = "y2".to_owned();
    let err = sanity_check(&p).unwrap_err();
    match err {
        ContinuationsError::RegisterSetMismatch { missing, unexpected } => {
            assert_eq!(missing, vec!["main.x2".to_owned()]);
            assert_eq!(unexpected, vec!["main.y2".to_owned()]);
        },
        other => panic!("expected a register-set mismatch, got {:?}", other),
    }
}

#[test]
fn sanity_check_accepts_the_expected_machine() {
    assert!(sanity_check(&program(16)).is_ok());
}

#[test]
fn identical_runs_emit_identical_inputs() {
    // Determinism: two runs on identical inputs yield identical
    // bootloader input vectors.
    let run = || {
        let full = full_trace(20);
        let accesses = vec![
            MemoryAccess { idx: 1, address: 0x2000 },
            MemoryAccess { idx: 2, address: 0x1000 },
            MemoryAccess { idx: 2, address: 0x2004 },
        ];
        let mut driver =
            ChunkingDriver::new(full_trace(20), accesses, &program(16)).unwrap();
        let _ = driver.next_bootloader_input();
        let chunk0 = chunk_trace(&full, 1, 14);
        assert!(!driver.process_chunk(&chunk0, &vec![(0x1000, 3), (0x2000, 4)]).unwrap());
        let _ = driver.next_bootloader_input();
        let chunk1 = chunk_trace(&full, 13, 20);
        assert!(driver.process_chunk(&chunk1, &Vec::new()).unwrap());
        driver.all_bootloader_inputs
    };
    assert_eq!(run(), run());
}

#[test]
fn missing_first_real_execution_row_is_fatal() {
    let mut full = full_trace(4);
    for v in full.cols[PC_INDEX].iter_mut() {
        *v = 77;
    }
    let err = match ChunkingDriver::new(full, Vec::new(), &program(16)) {
        Err(e) => e,
        Ok(_) => panic!("expected a missing first real execution row"),
    };
    assert!(matches!(err, ContinuationsError::MissingFirstRealExecutionRow));
}

#[test]
fn missing_degree_is_fatal() {
    let mut p = program(16);
    p.machine_degrees = vec![None, None];
    let err = match ChunkingDriver::new(full_trace(4), Vec::new(), &p) {
        Err(e) => e,
        Ok(_) => panic!("expected a missing degree"),
    };
    assert!(matches!(err, ContinuationsError::MissingDegree));
}

#[test]
fn transposer_keeps_every_register_of_the_map() {
    // Registers in executor order, assignment registers included; the
    // canonical five are present among them.
    let reg_map: Vec<(String, usize)> = vec![
        ("tmp".to_owned(), 0),
        ("pc".to_owned(), 1),
        ("x1".to_owned(), 2),
        ("x2".to_owned(), 3),
        ("x3".to_owned(), 4),
        ("x4".to_owned(), 5),
    ];
    let rows: Vec<Vec<u64>> = vec![
        vec![10, 11, 12, 13, 14, 15],
        vec![20, 21, 22, 23, 24, 25],
    ];
    let (t, full_columns) = transposed_trace(&reg_map, &rows).unwrap();
    // The canonical block, reordered to REGISTER_NAMES order.
    assert_eq!(t.cols[0], vec![12, 22]); // main.x1
    assert_eq!(t.cols[PC_INDEX], vec![11, 21]); // main.pc
    // The whole mapping, one entry per register of the map, in map order.
    assert_eq!(full_columns.len(), reg_map.len());
    assert_eq!(full_columns[0].0, "main.tmp");
    assert_eq!(full_columns[0].1, vec![10, 20]);
    assert_eq!(full_columns[1].0, "main.pc");
    assert_eq!(full_columns[1].1, vec![11, 21]);
    assert_eq!(full_columns[5].0, "main.x4");
    assert_eq!(full_columns[5].1, vec![15, 25]);
}

#[test]
fn transposer_rejects_a_map_without_the_pc() {
    let reg_map: Vec<(String, usize)> = vec![
        ("x1".to_owned(), 0),
        ("x2".to_owned(), 1),
        ("x3".to_owned(), 2),
        ("x4".to_owned(), 3),
    ];
    let rows: Vec<Vec<u64>> = vec![vec![1, 2, 3, 4]];
    assert!(transposed_trace(&reg_map, &rows).is_none());
}

#[test]
fn transposer_rejects_a_column_missing_from_a_row() {
    let reg_map: Vec<(String, usize)> = vec![
        ("x1".to_owned(), 0),
        ("x2".to_owned(), 1),
        ("x3".to_owned(), 2),
        ("x4".to_owned(), 3),
        ("pc".to_owned(), 4),
        ("tmp".to_owned(), 5),
    ];
    let rows: Vec<Vec<u64>> = vec![vec![1, 2, 3, 4, 5, 6], vec![1, 2, 3, 4, 5]];
    assert!(transposed_trace(&reg_map, &rows).is_none());
}
