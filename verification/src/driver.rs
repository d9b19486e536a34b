//! The chunking driver: derives each chunk's accessed pages from the
//! memory-access log, assembles its bootloader input, folds the chunk's
//! memory writes into the page Merkle tree, validates the chunk's trace
//! against the reference full trace, and carries register state and the
//! Merkle root across chunk boundaries.

use vstd::prelude::*;
use vstd::arithmetic::power2::pow2;
use vstd::bits::lemma_u64_shr_is_div;
use crate::bootloader::{
    REG_COUNT, PC_INDEX, DEFAULT_PC, register_names, register_names_spec,
    bootloader_instruction_names, bootloader_instruction_names_spec, default_register_values,
    default_register_values_spec, assemble_bootloader_input, bootloader_input_spec,
};
use crate::merkle::{MerkleTree, ADDRESS_SPACE, NUM_PAGES, apply_writes};
use crate::trace::{MemoryAccess, TransposedTrace, find_first, qualify};

verus! {

/// Kinds of machine registers.
#[derive(Clone, Copy, Debug, PartialEq, Eq, Structural)]
pub enum RegisterTy {
    /// The program counter.
    Pc,
    /// An assignment register.
    Assignment,
    /// A writable register.
    Write,
    /// A read-only register.
    ReadOnly,
}

/// A register declaration of the `Main` machine.
#[derive(Debug, PartialEq, Eq)]
pub struct Register {
    pub name: String,
    pub ty: RegisterTy,
}

/// What the driver reads of an analyzed program: the `Main` machine's
/// instruction names and registers, and the declared degree of each
/// machine in declaration order.
pub struct AnalyzedProgram {
    pub main_instructions: Vec<String>,
    pub main_registers: Vec<Register>,
    pub machine_degrees: Vec<Option<u64>>,
}

/// A fatal error of the continuations driver.
#[derive(Debug)]
pub enum ContinuationsError {
    /// The `Main` machine lacks a bootloader-specific instruction, which
    /// suggests the program was compiled without bootloader support.
    MissingBootloaderInstruction { name: String },
    /// The machine's writable registers differ from the canonical set.
    RegisterSetMismatch { missing: Vec<String>, unexpected: Vec<String> },
    /// No machine declares a degree.
    MissingDegree,
    /// The full trace never reaches the default PC.
    MissingFirstRealExecutionRow,
    /// A chunk trace never reaches the PC its bootloader input names.
    MissingChunkStartRow,
    /// A chunk trace has more rows past its start than the full trace has
    /// left to prove: the re-execution diverged from the reference.
    ChunkPastFullTrace,
    /// A chunk trace disagrees with the full trace: the first differing
    /// register with both values.
    OracleViolation {
        register: String,
        chunk_row: usize,
        full_row: usize,
        chunk_value: u64,
        full_value: u64,
    },
}

/// True if a kept (PC or writable, not `x0`) register named `n` exists.
pub open spec fn keeps(r: Register) -> bool {
    (r.ty == RegisterTy::Pc || r.ty == RegisterTy::Write) && r.name@ != "x0"@
}

/// True if the machine declares a kept register whose qualified name is `n`.
pub open spec fn machine_has(regs: Seq<Register>, n: Seq<char>) -> bool {
    exists|j: int| 0 <= j < regs.len() && keeps(#[trigger] regs[j]) && qualify(regs[j].name@) == n
}

/// True if some instruction is named `n`.
pub open spec fn instructions_have(instrs: Seq<String>, n: Seq<char>) -> bool {
    exists|j: int| 0 <= j < instrs.len() && (#[trigger] instrs[j])@ == n
}

/// The machine exposes every bootloader-specific instruction.
pub open spec fn instructions_ok(p: AnalyzedProgram) -> bool {
    forall|i: int| 0 <= i < bootloader_instruction_names_spec().len() ==> instructions_have(
        p.main_instructions@,
        #[trigger] bootloader_instruction_names_spec()[i],
    )
}

/// The machine's kept registers, qualified, are exactly the canonical set.
pub open spec fn registers_ok(p: AnalyzedProgram) -> bool {
    &&& forall|k: int| 0 <= k < REG_COUNT ==> machine_has(
        p.main_registers@,
        #[trigger] register_names_spec()[k],
    )
    &&& forall|j: int| 0 <= j < p.main_registers@.len() && keeps(#[trigger] p.main_registers@[j])
        ==> register_names_spec().contains(qualify(p.main_registers@[j].name@))
}

/// True if some string of `v` reads `s`.
fn contains_string(v: &Vec<String>, s: &String) -> (r: bool)
    ensures
        r == instructions_have(v@, s@),
{
    let mut j: usize = 0;
    while j < v.len()
        invariant
            0 <= j <= v@.len(),
            forall|j2: int| 0 <= j2 < j ==> (#[trigger] v@[j2])@ != s@,
        decreases v@.len() - j,
    {
        if v[j] == *s {
            return true;
        }
        j = j + 1;
    }
    false
}

/// Validates that the compiled program fits the bootloader: the `Main`
/// machine exposes the bootloader-specific instructions, and its PC and
/// writable registers (but `x0`), qualified, are exactly the canonical
/// register set.
pub fn sanity_check(program: &AnalyzedProgram) -> (r: Result<(), ContinuationsError>)
    ensures
        r is Ok <==> instructions_ok(*program) && registers_ok(*program),
        match r {
            Result::Ok(()) => true,
            Result::Err(ContinuationsError::MissingBootloaderInstruction { name }) => exists|i: int|
                #![trigger bootloader_instruction_names_spec()[i]]
                {
                    &&& 0 <= i < bootloader_instruction_names_spec().len()
                    &&& name@ == bootloader_instruction_names_spec()[i]
                    &&& !instructions_have(
                        program.main_instructions@,
                        bootloader_instruction_names_spec()[i],
                    )
                    &&& forall|i2: int| 0 <= i2 < i ==> instructions_have(
                        program.main_instructions@,
                        #[trigger] bootloader_instruction_names_spec()[i2],
                    )
                },
            Result::Err(ContinuationsError::RegisterSetMismatch { missing, unexpected }) => {
                &&& instructions_ok(*program)
                &&& missing@.len() + unexpected@.len() > 0
                &&& forall|i: int| 0 <= i < missing@.len()
                    ==> register_names_spec().contains((#[trigger] missing@[i])@)
                        && !machine_has(program.main_registers@, missing@[i]@)
                &&& forall|i: int| 0 <= i < unexpected@.len()
                    ==> machine_has(program.main_registers@, (#[trigger] unexpected@[i])@)
                        && !register_names_spec().contains(unexpected@[i]@)
            },
            Result::Err(_) => false,
        },
{
    let expected_instructions = bootloader_instruction_names();
    let mut i: usize = 0;
    while i < expected_instructions.len()
        invariant
            expected_instructions@.len() == bootloader_instruction_names_spec().len(),
            forall|i2: int| 0 <= i2 < expected_instructions@.len()
                ==> (#[trigger] expected_instructions@[i2])@
                    == bootloader_instruction_names_spec()[i2],
            0 <= i <= expected_instructions@.len(),
            forall|i2: int| 0 <= i2 < i ==> instructions_have(
                program.main_instructions@,
                #[trigger] bootloader_instruction_names_spec()[i2],
            ),
        decreases expected_instructions@.len() - i,
    {
        if !contains_string(&program.main_instructions, &expected_instructions[i]) {
            let name = expected_instructions[i].clone();
            proof {
                assert(name@ == bootloader_instruction_names_spec()[i as int]
                    && !instructions_have(
                    program.main_instructions@,
                    bootloader_instruction_names_spec()[i as int],
                ));
            }
            return Err(ContinuationsError::MissingBootloaderInstruction { name });
        }
        i = i + 1;
    }

    // The kept machine registers, qualified.
    let mut machine_names: Vec<String> = Vec::new();
    let mut j: usize = 0;
    while j < program.main_registers.len()
        invariant
            0 <= j <= program.main_registers@.len(),
            forall|i2: int| 0 <= i2 < machine_names@.len() ==> machine_has(
                program.main_registers@,
                (#[trigger] machine_names@[i2])@,
            ),
            forall|j2: int| 0 <= j2 < j && keeps(#[trigger] program.main_registers@[j2])
                ==> instructions_have(machine_names@, qualify(program.main_registers@[j2].name@)),
        decreases program.main_registers@.len() - j,
    {
        let reg = &program.main_registers[j];
        let x0: String = "x0".to_owned();
        let is_kept = (matches!(reg.ty, RegisterTy::Pc) || matches!(reg.ty, RegisterTy::Write))
            && !(reg.name == x0);
        if is_kept {
            proof {
                reveal_strlit("x0");
            }
            let qn = crate::trace::qualify_name(&reg.name);
            let ghost before = machine_names@;
            machine_names.push(qn);
            proof {
                assert(keeps(program.main_registers@[j as int]));
                assert(machine_names@[before.len() as int]@ == qualify(
                    program.main_registers@[j as int].name@,
                ));
                assert forall|j2: int|
                    0 <= j2 < j + 1 && keeps(#[trigger] program.main_registers@[j2]) implies
                    instructions_have(
                    machine_names@,
                    qualify(program.main_registers@[j2].name@),
                ) by {
                    if j2 < j as int {
                        let w = choose|w: int|
                            0 <= w < before.len() && (#[trigger] before[w])@ == qualify(
                                program.main_registers@[j2].name@,
                            );
                        assert(machine_names@[w]@ == qualify(program.main_registers@[j2].name@));
                    }
                }
            }
        } else {
            proof {
                reveal_strlit("x0");
                if reg.ty == RegisterTy::Pc || reg.ty == RegisterTy::Write {
                    assert(reg.name@ == "x0"@);
                }
            }
        }
        j = j + 1;
    }

    let expected = register_names();
    let mut missing: Vec<String> = Vec::new();
    let mut k: usize = 0;
    while k < expected.len()
        invariant
            expected@.len() == REG_COUNT,
            forall|i2: int| 0 <= i2 < REG_COUNT ==> (#[trigger] expected@[i2])@
                == register_names_spec()[i2],
            forall|i2: int| 0 <= i2 < machine_names@.len() ==> machine_has(
                program.main_registers@,
                (#[trigger] machine_names@[i2])@,
            ),
            forall|j2: int| 0 <= j2 < program.main_registers@.len() && keeps(
                #[trigger] program.main_registers@[j2],
            ) ==> instructions_have(machine_names@, qualify(program.main_registers@[j2].name@)),
            0 <= k <= REG_COUNT,
            forall|k2: int| 0 <= k2 < missing@.len()
                ==> register_names_spec().contains((#[trigger] missing@[k2])@) && !machine_has(
                    program.main_registers@,
                    missing@[k2]@,
                ),
            forall|k2: int| 0 <= k2 < k && !instructions_have(
                machine_names@,
                #[trigger] register_names_spec()[k2],
            ) ==> instructions_have(missing@, register_names_spec()[k2]),
            forall|k2: int| 0 <= k2 < k && !machine_has(
                program.main_registers@,
                #[trigger] register_names_spec()[k2],
            ) ==> instructions_have(missing@, register_names_spec()[k2]),
        decreases expected@.len() - k,
    {
        if !contains_string(&machine_names, &expected[k]) {
            let ghost before = missing@;
            missing.push(expected[k].clone());
            proof {
                assert(register_names_spec().contains(register_names_spec()[k as int]));
                assert forall|k2: int|
                    0 <= k2 < k + 1 && !instructions_have(
                        machine_names@,
                        #[trigger] register_names_spec()[k2],
                    ) implies instructions_have(missing@, register_names_spec()[k2]) by {
                    if k2 < k as int {
                        let w = choose|w: int|
                            0 <= w < before.len() && (#[trigger] before[w])@
                                == register_names_spec()[k2];
                        assert(missing@[w]@ == register_names_spec()[k2]);
                    } else {
                        assert(missing@[before.len() as int]@ == register_names_spec()[k2]);
                    }
                }
                assert(!machine_has(program.main_registers@, register_names_spec()[k as int]));
            }
        } else {
            proof {
                assert(machine_has(program.main_registers@, register_names_spec()[k as int]));
            }
        }
        k = k + 1;
    }

    let mut unexpected: Vec<String> = Vec::new();
    let mut m: usize = 0;
    while m < machine_names.len()
        invariant
            expected@.len() == REG_COUNT,
            forall|i2: int| 0 <= i2 < REG_COUNT ==> (#[trigger] expected@[i2])@
                == register_names_spec()[i2],
            forall|i2: int| 0 <= i2 < machine_names@.len() ==> machine_has(
                program.main_registers@,
                (#[trigger] machine_names@[i2])@,
            ),
            0 <= m <= machine_names@.len(),
            forall|k2: int| 0 <= k2 < unexpected@.len() ==> machine_has(
                program.main_registers@,
                (#[trigger] unexpected@[k2])@,
            ) && !register_names_spec().contains(unexpected@[k2]@),
            forall|m2: int| 0 <= m2 < m && !register_names_spec().contains(
                (#[trigger] machine_names@[m2])@,
            ) ==> instructions_have(unexpected@, machine_names@[m2]@),
        decreases machine_names@.len() - m,
    {
        if !contains_string(&expected, &machine_names[m]) {
            let ghost before = unexpected@;
            unexpected.push(machine_names[m].clone());
            proof {
                assert(!register_names_spec().contains(machine_names@[m as int]@)) by {
                    if register_names_spec().contains(machine_names@[m as int]@) {
                        let w = choose|w: int|
                            0 <= w < REG_COUNT && register_names_spec()[w]
                                == machine_names@[m as int]@;
                        assert(expected@[w]@ == machine_names@[m as int]@);
                    }
                }
                assert forall|m2: int|
                    0 <= m2 < m + 1 && !register_names_spec().contains(
                        (#[trigger] machine_names@[m2])@,
                    ) implies instructions_have(unexpected@, machine_names@[m2]@) by {
                    if m2 < m as int {
                        let w = choose|w: int|
                            0 <= w < before.len() && (#[trigger] before[w])@ == machine_names@[m2]@;
                        assert(unexpected@[w]@ == machine_names@[m2]@);
                    } else {
                        assert(unexpected@[before.len() as int]@ == machine_names@[m2]@);
                    }
                }
            }
        } else {
            proof {
                let w = choose|w: int|
                    0 <= w < expected@.len() && (#[trigger] expected@[w])@ == machine_names@[m as int]@;
                assert(register_names_spec()[w] == machine_names@[m as int]@);
            }
        }
        m = m + 1;
    }

    if missing.len() == 0 && unexpected.len() == 0 {
        proof {
            assert forall|k2: int| 0 <= k2 < REG_COUNT implies machine_has(
                program.main_registers@,
                #[trigger] register_names_spec()[k2],
            ) by {
                if !machine_has(program.main_registers@, register_names_spec()[k2]) {
                    assert(instructions_have(missing@, register_names_spec()[k2]));
                }
            }
            assert forall|j2: int|
                0 <= j2 < program.main_registers@.len() && keeps(
                    #[trigger] program.main_registers@[j2],
                ) implies register_names_spec().contains(
                qualify(program.main_registers@[j2].name@),
            ) by {
                let w = choose|w: int|
                    0 <= w < machine_names@.len() && (#[trigger] machine_names@[w])@ == qualify(
                        program.main_registers@[j2].name@,
                    );
                if !register_names_spec().contains(machine_names@[w]@) {
                    assert(instructions_have(unexpected@, machine_names@[w]@));
                }
            }
        }
        Ok(())
    } else {
        proof {
            if registers_ok(*program) {
                if missing@.len() > 0 {
                    assert(register_names_spec().contains(missing@[0]@));
                    let w = choose|w: int|
                        0 <= w < REG_COUNT && register_names_spec()[w] == missing@[0]@;
                    assert(machine_has(program.main_registers@, register_names_spec()[w]));
                } else {
                    assert(machine_has(program.main_registers@, unexpected@[0]@));
                    let j2 = choose|j2: int|
                        0 <= j2 < program.main_registers@.len() && keeps(
                            #[trigger] program.main_registers@[j2],
                        ) && qualify(program.main_registers@[j2].name@) == unexpected@[0]@;
                    assert(register_names_spec().contains(qualify(
                        program.main_registers@[j2].name@,
                    )));
                }
            }
        }
        Err(ContinuationsError::RegisterSetMismatch { missing, unexpected })
    }
}

/// The first declared machine degree, if any machine declares one.
pub open spec fn first_degree(ds: Seq<Option<u64>>) -> Option<u64>
    decreases ds.len(),
{
    if ds.len() == 0 {
        Option::None
    } else {
        match ds.first() {
            Option::Some(d) => Option::Some(d),
            Option::None => first_degree(ds.drop_first()),
        }
    }
}

/// The program's degree: the first machine degree declared.
pub fn program_degree(program: &AnalyzedProgram) -> (r: Option<u64>)
    ensures
        r == first_degree(program.machine_degrees@),
{
    let ds = &program.machine_degrees;
    let mut i: usize = 0;
    proof {
        assert(ds@.skip(0) =~= ds@);
    }
    while i < ds.len()
        invariant
            ds@ == program.machine_degrees@,
            0 <= i <= ds@.len(),
            first_degree(ds@) == first_degree(ds@.skip(i as int)),
        decreases ds@.len() - i,
    {
        proof {
            assert(ds@.skip(i as int).first() == ds@[i as int]);
            assert(ds@.skip(i as int).drop_first() =~= ds@.skip(i as int + 1));
        }
        if let Some(d) = ds[i] {
            proof {
                assert(ds@[i as int] == Option::Some(d));
                assert(first_degree(ds@.skip(i as int)) == Option::Some(d));
            }
            return Some(d);
        }
        i = i + 1;
    }
    proof {
        assert(ds@.skip(ds@.len() as int) =~= Seq::<Option<u64>>::empty());
    }
    None
}

/// The memory-access log is sorted by row index.
pub open spec fn accesses_sorted(s: Seq<MemoryAccess>) -> bool {
    forall|i: int, j: int| 0 <= i < j < s.len() ==> (#[trigger] s[i]).idx <= (#[trigger] s[j]).idx
}

/// All accessed addresses fit the committed address space.
pub open spec fn accesses_bounded(s: Seq<MemoryAccess>) -> bool {
    forall|i: int| 0 <= i < s.len() ==> (#[trigger] s[i]).address < ADDRESS_SPACE
}

/// The memory committed after a sequence of per-chunk write batches.
pub open spec fn memory_after(us: Seq<Seq<(u64, u64)>>) -> Map<u64, Seq<u64>>
    decreases us.len(),
{
    if us.len() == 0 {
        Map::empty()
    } else {
        apply_writes(memory_after(us.drop_last()), us.last())
    }
}

/// The page of an access.
pub open spec fn page_of_access(a: MemoryAccess) -> u64 {
    a.address >> (crate::PAGE_SIZE_BYTES_LOG as u64)
}

/// True if some access in rows `[lo, hi)` of the full trace touches `pi`.
pub open spec fn page_in_window(s: Seq<MemoryAccess>, lo: int, hi: int, pi: u64) -> bool {
    exists|a: int| 0 <= a < s.len() && lo <= (#[trigger] s[a]).idx < hi && page_of_access(s[a]) == pi
}

/// Strictly increasing, hence duplicate-free.
pub open spec fn sorted_unique(s: Seq<u64>) -> bool {
    forall|i: int, j: int| 0 <= i < j < s.len() ==> s[i] < s[j]
}

/// Row `start` is the first at which the trace's PC equals `v`.
pub open spec fn first_pc_row(t: TransposedTrace, v: u64, start: int) -> bool {
    &&& 0 <= start < t.len()
    &&& t.pc()[start] == v
    &&& forall|r: int| 0 <= r < start ==> t.pc()[r] != v
}

/// The chunk trace from `start` onward agrees with the full trace from
/// `proven` onward, register by register.
pub open spec fn chunks_agree(
    chunk: TransposedTrace,
    full: TransposedTrace,
    start: int,
    proven: int,
) -> bool {
    forall|i: int, k: int|
        0 <= i < chunk.len() - start && 0 <= k < REG_COUNT ==> #[trigger] chunk.at(k, start + i)
            == full.at(k, proven + i)
}

/// The driver's state across chunk iterations.
pub struct ChunkingDriver {
    /// The page memory commitment, updated once per chunk.
    pub merkle_tree: MerkleTree,
    /// Register snapshot the next chunk starts from.
    pub register_values: Vec<u64>,
    /// Full-trace rows reproduced by validated chunks so far.
    pub proven_trace: usize,
    /// Index of the next chunk.
    pub chunk_index: usize,
    /// The emitted bootloader inputs, append-only.
    pub all_bootloader_inputs: Vec<Vec<u64>>,
    /// Row budget of one chunk: the machine degree minus the two rows the
    /// dispatcher consumes.
    pub num_rows: usize,
    /// The reference full trace.
    pub full_trace: TransposedTrace,
    /// The full run's memory-access log, sorted by row index.
    pub memory_accesses: Vec<MemoryAccess>,
    /// History of the chunks' memory-snapshot updates.
    pub updates: Ghost<Seq<Seq<(u64, u64)>>>,
}

impl ChunkingDriver {
    /// Well-formed driver state.
    pub open spec fn wf(self) -> bool {
        &&& self.merkle_tree.wf()
        &&& self.merkle_tree.mem() == memory_after(self.updates@)
        &&& self.register_values@.len() == REG_COUNT
        &&& self.full_trace.wf()
        &&& self.proven_trace <= self.full_trace.len()
        &&& 1 <= self.num_rows
        &&& self.full_trace.len() + self.num_rows <= usize::MAX
        &&& accesses_sorted(self.memory_accesses@)
        &&& accesses_bounded(self.memory_accesses@)
    }

    /// Creates the driver for a program's reference run: an empty page
    /// tree, the default register snapshot, and the proven-trace cursor at
    /// the first real execution row (the first at which the PC reaches
    /// `DEFAULT_PC`).
    pub fn new(
        full_trace: TransposedTrace,
        memory_accesses: Vec<MemoryAccess>,
        program: &AnalyzedProgram,
    ) -> (r: Result<ChunkingDriver, ContinuationsError>)
        requires
            full_trace.wf(),
            accesses_sorted(memory_accesses@),
            accesses_bounded(memory_accesses@),
            match first_degree(program.machine_degrees@) {
                Option::Some(d) => 3 <= d && full_trace.len() + d <= usize::MAX,
                Option::None => true,
            },
        ensures
            match r {
                Result::Ok(d) => {
                    &&& first_degree(program.machine_degrees@) matches Option::Some(deg)
                        && d.num_rows == deg - 2
                    &&& d.wf()
                    &&& d.full_trace == full_trace
                    &&& d.memory_accesses == memory_accesses
                    &&& first_pc_row(full_trace, DEFAULT_PC, d.proven_trace as int)
                    &&& d.register_values@ == default_register_values_spec()
                    &&& d.chunk_index == 0
                    &&& d.all_bootloader_inputs@.len() == 0
                    &&& d.updates@.len() == 0
                },
                Result::Err(ContinuationsError::MissingDegree) => first_degree(
                    program.machine_degrees@,
                ) is None,
                Result::Err(ContinuationsError::MissingFirstRealExecutionRow) => {
                    &&& first_degree(program.machine_degrees@) is Some
                    &&& forall|r2: int| 0 <= r2 < full_trace.len() ==> full_trace.pc()[r2]
                        != DEFAULT_PC
                },
                Result::Err(_) => false,
            },
    {
        let degree = match program_degree(program) {
            Some(d) => d,
            None => {
                return Err(ContinuationsError::MissingDegree);
            },
        };
        // Run for degree - 2 rows, because the executor does not run the
        // dispatcher, which takes two rows.
        let num_rows = (degree - 2) as usize;
        let first_real_execution_row = match find_first(
            &full_trace.cols[PC_INDEX],
            DEFAULT_PC,
        ) {
            Some(row) => row,
            None => {
                return Err(ContinuationsError::MissingFirstRealExecutionRow);
            },
        };
        let driver = ChunkingDriver {
            merkle_tree: MerkleTree::new(),
            register_values: default_register_values(),
            proven_trace: first_real_execution_row,
            chunk_index: 0,
            all_bootloader_inputs: Vec::new(),
            num_rows,
            full_trace,
            memory_accesses,
            updates: Ghost(Seq::empty()),
        };
        proof {
            assert(memory_after(driver.updates@) =~= Map::<u64, Seq<u64>>::empty());
        }
        Ok(driver)
    }

    /// Builds and records the bootloader input of the next chunk: the
    /// current register snapshot, the current Merkle root, and — with
    /// their contents and inclusion proofs — the pages touched by any
    /// access in the next `num_rows` full-trace rows, in ascending page
    /// index order.  The window overapproximates the chunk, which is safe.
    #[verifier::loop_isolation(false)]
    pub fn next_bootloader_input(&mut self) -> (r: Vec<u64>)
        requires
            old(self).wf(),
        ensures
            final(self).wf(),
            exists|pages: Seq<u64>|
                {
                    &&& #[trigger] sorted_unique(pages)
                    &&& forall|pi: u64| pages.contains(pi) <==> page_in_window(
                        old(self).memory_accesses@,
                        old(self).proven_trace as int,
                        old(self).proven_trace + old(self).num_rows,
                        pi,
                    )
                    &&& r@ == bootloader_input_spec(
                        old(self).register_values@,
                        old(self).merkle_tree.mem(),
                        pages,
                    )
                },
            final(self).all_bootloader_inputs@.len() == old(self).all_bootloader_inputs@.len() + 1,
            final(self).all_bootloader_inputs@.last()@ == r@,
            forall|i: int| 0 <= i < old(self).all_bootloader_inputs@.len()
                ==> final(self).all_bootloader_inputs@[i] == old(self).all_bootloader_inputs@[i],
            final(self).merkle_tree == old(self).merkle_tree,
            final(self).register_values == old(self).register_values,
            final(self).proven_trace == old(self).proven_trace,
            final(self).chunk_index == old(self).chunk_index,
            final(self).num_rows == old(self).num_rows,
            final(self).full_trace == old(self).full_trace,
            final(self).memory_accesses == old(self).memory_accesses,
            final(self).updates == old(self).updates,
    {
        let lo = self.proven_trace;
        let hi = self.proven_trace + self.num_rows;
        let start_idx = lower_bound(&self.memory_accesses, lo);
        let mut pages: Vec<u64> = Vec::new();
        let mut a: usize = start_idx;
        while a < self.memory_accesses.len() && self.memory_accesses[a].idx < hi
            invariant
                self == old(self),
                self.wf(),
                lo == self.proven_trace,
                hi == self.proven_trace + self.num_rows,
                start_idx <= a <= self.memory_accesses@.len(),
                forall|i: int| 0 <= i < start_idx ==> (#[trigger] self.memory_accesses@[i]).idx
                    < lo,
                forall|i: int| start_idx <= i < a ==> (#[trigger] self.memory_accesses@[i]).idx
                    < hi,
                sorted_unique(pages@),
                forall|i: int| 0 <= i < pages@.len() ==> (#[trigger] pages@[i]) < NUM_PAGES,
                forall|pi: u64| pages@.contains(pi) <==> exists|i: int|
                    start_idx <= i < a && lo <= (#[trigger] self.memory_accesses@[i]).idx < hi
                        && page_of_access(self.memory_accesses@[i]) == pi,
            decreases self.memory_accesses@.len() - a,
        {
            let access = self.memory_accesses[a];
            let pi = access.address >> (crate::PAGE_SIZE_BYTES_LOG as u64);
            proof {
                lemma_u64_shr_is_div(access.address, crate::PAGE_SIZE_BYTES_LOG as u64);
                vstd::arithmetic::power2::lemma2_to64();
                assert(pow2(12) == 4096);
                assert(pi < NUM_PAGES);
                assert(pi == page_of_access(self.memory_accesses@[a as int]));
            }
            let ghost pages0 = pages@;
            pages = insert_page(pages, pi);
            proof {
                assert forall|i: int| 0 <= i < pages@.len() implies (#[trigger] pages@[i])
                    < NUM_PAGES by {
                    if pages0.contains(pages@[i]) {
                        let w = choose|w: int| 0 <= w < pages0.len() && pages0[w] == pages@[i];
                    }
                }
                assert(lo <= self.memory_accesses@[a as int].idx < hi);
                assert forall|p2: u64| pages@.contains(p2) implies exists|i: int|
                    start_idx <= i < a + 1 && lo <= (#[trigger] self.memory_accesses@[i]).idx < hi
                        && page_of_access(self.memory_accesses@[i]) == p2 by {
                    if p2 == pi {
                        assert(lo <= self.memory_accesses@[a as int].idx < hi
                            && page_of_access(self.memory_accesses@[a as int]) == p2);
                    } else {
                        assert(pages0.contains(p2));
                    }
                }
                assert forall|p2: u64|
                    exists|i: int|
                        start_idx <= i < a + 1 && lo <= (#[trigger] self.memory_accesses@[i]).idx
                            < hi && page_of_access(self.memory_accesses@[i]) == p2 implies pages@.contains(
                    p2,
                ) by {
                    let i = choose|i: int|
                        start_idx <= i < a + 1 && lo <= (#[trigger] self.memory_accesses@[i]).idx
                            < hi && page_of_access(self.memory_accesses@[i]) == p2;
                    if i < a as int {
                        assert(pages0.contains(p2));
                    }
                }
            }
            a = a + 1;
        }
        proof {
            assert forall|pi: u64| pages@.contains(pi) <==> page_in_window(
                self.memory_accesses@,
                lo as int,
                hi as int,
                pi,
            ) by {
                if page_in_window(self.memory_accesses@, lo as int, hi as int, pi) {
                    let i = choose|i: int|
                        0 <= i < self.memory_accesses@.len() && lo <= (
                        #[trigger] self.memory_accesses@[i]).idx < hi && page_of_access(
                            self.memory_accesses@[i],
                        ) == pi;
                    if i < start_idx {
                        assert(self.memory_accesses@[i].idx < lo);
                    } else if i >= a as int {
                        if (a as int) < self.memory_accesses@.len() {
                            assert(self.memory_accesses@[a as int].idx >= hi);
                            assert(self.memory_accesses@[a as int].idx
                                <= self.memory_accesses@[i].idx);
                        }
                    }
                }
            }
        }
        let input = assemble_bootloader_input(&self.register_values, &self.merkle_tree, &pages);
        let stored = copy_words(&input);
        self.all_bootloader_inputs.push(stored);
        input
    }

    /// Folds one executed chunk into the driver: applies the chunk's
    /// memory writes to the Merkle tree, locates the chunk-local start of
    /// real execution (the first row whose PC equals the snapshot's PC
    /// entry), validates the chunk trace against the full trace row by
    /// row and register by register, and either finishes (`Ok(true)`,
    /// when the chunk ran short of its row budget) or advances the proven
    /// cursor, the register snapshot and the chunk index (`Ok(false)`).
    /// Any divergence from the reference trace is fatal.
    #[verifier::loop_isolation(false)]
    pub fn process_chunk(
        &mut self,
        chunk_trace: &TransposedTrace,
        memory_snapshot_update: &Vec<(u64, u64)>,
    ) -> (r: Result<bool, ContinuationsError>)
        requires
            old(self).wf(),
            old(self).chunk_index < usize::MAX,
            chunk_trace.wf(),
            chunk_trace.len() <= old(self).num_rows,
            forall|i: int| 0 <= i < memory_snapshot_update@.len()
                ==> (#[trigger] memory_snapshot_update@[i]).0 < ADDRESS_SPACE,
        ensures
            final(self).wf(),
            final(self).merkle_tree.mem() == apply_writes(
                old(self).merkle_tree.mem(),
                memory_snapshot_update@,
            ),
            final(self).updates@ == old(self).updates@.push(memory_snapshot_update@),
            final(self).all_bootloader_inputs == old(self).all_bootloader_inputs,
            final(self).num_rows == old(self).num_rows,
            final(self).full_trace == old(self).full_trace,
            final(self).memory_accesses == old(self).memory_accesses,
            match r {
                Result::Ok(done) => exists|start: int|
                    {
                        &&& #[trigger] first_pc_row(
                            *chunk_trace,
                            old(self).register_values@[PC_INDEX as int],
                            start,
                        )
                        &&& chunk_trace.len() - start <= old(self).full_trace.len() - old(self).proven_trace
                        &&& chunks_agree(
                            *chunk_trace,
                            old(self).full_trace,
                            start,
                            old(self).proven_trace as int,
                        )
                        &&& done == (chunk_trace.len() < old(self).num_rows)
                        &&& if done {
                            final(self).register_values == old(self).register_values
                                && final(self).proven_trace == old(self).proven_trace && final(self).chunk_index == old(self).chunk_index
                        } else {
                            final(self).proven_trace == old(self).proven_trace + old(self).num_rows - start - 1 && final(self).register_values@
                                == chunk_trace.last_row() && final(self).chunk_index == old(self).chunk_index + 1
                        }
                    },
                Result::Err(e) => {
                    &&& final(self).register_values == old(self).register_values
                    &&& final(self).proven_trace == old(self).proven_trace
                    &&& final(self).chunk_index == old(self).chunk_index
                    &&& match e {
                        ContinuationsError::MissingChunkStartRow => forall|r2: int|
                            0 <= r2 < chunk_trace.len() ==> chunk_trace.pc()[r2] != old(self).register_values@[PC_INDEX as int],
                        ContinuationsError::ChunkPastFullTrace => exists|start: int|
                            #[trigger] first_pc_row(
                                *chunk_trace,
                                old(self).register_values@[PC_INDEX as int],
                                start,
                            ) && chunk_trace.len() - start > old(self).full_trace.len() - old(self).proven_trace,
                        ContinuationsError::OracleViolation {
                            register,
                            chunk_row,
                            full_row,
                            chunk_value,
                            full_value,
                        } => exists|start: int, i: int, k: int|
                            #![trigger first_pc_row(*chunk_trace, old(self).register_values@[PC_INDEX as int], start), chunk_trace.at(k, start + i)]
                            {
                                &&& first_pc_row(
                                    *chunk_trace,
                                    old(self).register_values@[PC_INDEX as int],
                                    start,
                                )
                                &&& 0 <= i < chunk_trace.len() - start
                                &&& 0 <= k < REG_COUNT
                                &&& chunk_row == start + i
                                &&& full_row == old(self).proven_trace + i
                                &&& register@ == register_names_spec()[k]
                                &&& chunk_value == chunk_trace.at(k, start + i)
                                &&& full_value == old(self).full_trace.at(
                                    k,
                                    old(self).proven_trace + i,
                                )
                                &&& chunk_value != full_value
                                &&& forall|i2: int, k2: int|
                                    0 <= i2 < i && 0 <= k2 < REG_COUNT
                                        ==> #[trigger] chunk_trace.at(k2, start + i2) == old(
                                        self,
                                    ).full_trace.at(k2, old(self).proven_trace + i2)
                                &&& forall|k2: int| 0 <= k2 < k ==> #[trigger] chunk_trace.at(
                                    k2,
                                    start + i,
                                ) == old(self).full_trace.at(k2, old(self).proven_trace + i)
                            },
                        _ => false,
                    }
                },
            },
    {
        self.merkle_tree.update(memory_snapshot_update);
        proof {
            self.updates@ = self.updates@.push(memory_snapshot_update@);
            assert(self.updates@.drop_last() =~= old(self).updates@);
        }
        let target_pc = self.register_values[PC_INDEX];
        let start = match find_first(&chunk_trace.cols[PC_INDEX], target_pc) {
            Some(s) => s,
            None => {
                return Err(ContinuationsError::MissingChunkStartRow);
            },
        };
        let chunk_len = chunk_trace.num_rows();
        proof {
            assert(first_pc_row(*chunk_trace, target_pc, start as int));
        }
        if chunk_len - start > self.full_trace.num_rows() - self.proven_trace {
            return Err(ContinuationsError::ChunkPastFullTrace);
        }
        // Validate the chunk against the reference trace.
        let names = register_names();
        let mut i: usize = 0;
        while i < chunk_len - start
            invariant
                self.full_trace == old(self).full_trace,
                self.proven_trace == old(self).proven_trace,
                self.register_values == old(self).register_values,
                old(self).wf(),
                chunk_trace.wf(),
                names@.len() == REG_COUNT,
                forall|k2: int| 0 <= k2 < REG_COUNT ==> (#[trigger] names@[k2])@
                    == register_names_spec()[k2],
                start < chunk_len,
                chunk_len == chunk_trace.len(),
                chunk_len - start <= self.full_trace.len() - self.proven_trace,
                0 <= i <= chunk_len - start,
                first_pc_row(*chunk_trace, target_pc, start as int),
                target_pc == old(self).register_values@[PC_INDEX as int],
                forall|i2: int, k2: int|
                    0 <= i2 < i && 0 <= k2 < REG_COUNT ==> #[trigger] chunk_trace.at(
                        k2,
                        start + i2,
                    ) == self.full_trace.at(k2, self.proven_trace + i2),
            decreases chunk_len - start - i,
        {
            let mut k: usize = 0;
            while k < REG_COUNT
                invariant
                    self.full_trace == old(self).full_trace,
                    self.proven_trace == old(self).proven_trace,
                    old(self).wf(),
                    chunk_trace.wf(),
                    names@.len() == REG_COUNT,
                    forall|k2: int| 0 <= k2 < REG_COUNT ==> (#[trigger] names@[k2])@
                        == register_names_spec()[k2],
                    start < chunk_len,
                    chunk_len == chunk_trace.len(),
                    chunk_len - start <= self.full_trace.len() - self.proven_trace,
                    0 <= i < chunk_len - start,
                    0 <= k <= REG_COUNT,
                    forall|k2: int| 0 <= k2 < k ==> #[trigger] chunk_trace.at(k2, start + i)
                        == self.full_trace.at(k2, self.proven_trace + i),
                decreases REG_COUNT - k,
            {
                let chunk_row = start + i;
                let full_row = self.proven_trace + i;
                let chunk_value = chunk_trace.cols[k][chunk_row];
                let full_value = self.full_trace.cols[k][full_row];
                if chunk_value != full_value {
                    proof {
                        assert(first_pc_row(*chunk_trace, target_pc, start as int));
                        assert(chunk_trace.at(k as int, start + i) == chunk_value);
                        assert(old(self).full_trace.at(k as int, old(self).proven_trace + i)
                            == full_value);
                    }
                    let register = names[k].clone();
                    return Err(ContinuationsError::OracleViolation {
                        register,
                        chunk_row,
                        full_row,
                        chunk_value,
                        full_value,
                    });
                }
                k = k + 1;
            }
            i = i + 1;
        }
        proof {
            assert(chunks_agree(
                *chunk_trace,
                old(self).full_trace,
                start as int,
                old(self).proven_trace as int,
            ));
        }
        if chunk_len < self.num_rows {
            return Ok(true);
        }
        // The last row is repeated as the first row of the next chunk.
        let new_rows = self.num_rows - start - 1;
        self.proven_trace = self.proven_trace + new_rows;
        let mut regs: Vec<u64> = Vec::new();
        let mut k: usize = 0;
        while k < REG_COUNT
            invariant
                chunk_trace.wf(),
                chunk_len == chunk_trace.len(),
                chunk_len >= 1,
                0 <= k <= REG_COUNT,
                regs@.len() == k,
                forall|k2: int| 0 <= k2 < k ==> regs@[k2] == chunk_trace.at(
                    k2,
                    chunk_trace.len() as int - 1,
                ),
            decreases REG_COUNT - k,
        {
            regs.push(chunk_trace.cols[k][chunk_len - 1]);
            k = k + 1;
        }
        proof {
            assert(regs@ =~= chunk_trace.last_row());
        }
        self.register_values = regs;
        self.chunk_index = self.chunk_index + 1;
        Ok(false)
    }
}

/// The first log position whose row index is at least `target`.
fn lower_bound(accesses: &Vec<MemoryAccess>, target: usize) -> (r: usize)
    requires
        accesses_sorted(accesses@),
    ensures
        r <= accesses@.len(),
        forall|i: int| 0 <= i < r ==> (#[trigger] accesses@[i]).idx < target,
        forall|i: int| r <= i < accesses@.len() ==> (#[trigger] accesses@[i]).idx >= target,
{
    let mut lo: usize = 0;
    let mut hi: usize = accesses.len();
    while lo < hi
        invariant
            accesses_sorted(accesses@),
            0 <= lo <= hi <= accesses@.len(),
            forall|i: int| 0 <= i < lo ==> (#[trigger] accesses@[i]).idx < target,
            forall|i: int| hi <= i < accesses@.len() ==> (#[trigger] accesses@[i]).idx >= target,
        decreases hi - lo,
    {
        let mid = lo + (hi - lo) / 2;
        if accesses[mid].idx < target {
            proof {
                assert forall|i: int| 0 <= i < mid + 1 implies (#[trigger] accesses@[i]).idx
                    < target by {
                    if i < mid as int {
                        assert(accesses@[i].idx <= accesses@[mid as int].idx);
                    }
                }
            }
            lo = mid + 1;
        } else {
            proof {
                assert forall|i: int| mid <= i < accesses@.len() implies (
                #[trigger] accesses@[i]).idx >= target by {
                    if i > mid as int {
                        assert(accesses@[mid as int].idx <= accesses@[i].idx);
                    }
                }
            }
            hi = mid;
        }
    }
    lo
}

/// Inserts a page index into a sorted duplicate-free list.
fn insert_page(pages: Vec<u64>, pi: u64) -> (r: Vec<u64>)
    requires
        sorted_unique(pages@),
    ensures
        sorted_unique(r@),
        forall|p2: u64| r@.contains(p2) <==> pages@.contains(p2) || p2 == pi,
        forall|i: int| 0 <= i < r@.len() ==> pages@.contains(#[trigger] r@[i]) || r@[i] == pi,
{
    let mut pages = pages;
    let mut pos: usize = 0;
    while pos < pages.len() && pages[pos] < pi
        invariant
            sorted_unique(pages@),
            0 <= pos <= pages@.len(),
            forall|i: int| 0 <= i < pos ==> (#[trigger] pages@[i]) < pi,
        decreases pages@.len() - pos,
    {
        pos = pos + 1;
    }
    if pos < pages.len() && pages[pos] == pi {
        proof {
            assert(pages@.contains(pi));
        }
        return pages;
    }
    let ghost before = pages@;
    pages.insert(pos, pi);
    proof {
        assert(pages@ == before.insert(pos as int, pi));
        assert(pos < before.len() ==> before[pos as int] > pi);
        assert forall|a2: int, b2: int| 0 <= a2 < b2 < pages@.len() implies pages@[a2]
            < pages@[b2] by {
            if b2 < pos {
                assert(pages@[a2] == before[a2] && pages@[b2] == before[b2]);
            } else if a2 < pos && b2 == pos {
                assert(pages@[a2] == before[a2]);
            } else if a2 < pos && b2 > pos {
                assert(pages@[a2] == before[a2] && pages@[b2] == before[b2 - 1]);
                assert(before[pos as int] <= before[b2 - 1]);
            } else if a2 == pos {
                assert(pages@[b2] == before[b2 - 1]);
                assert(before[pos as int] <= before[b2 - 1]);
            } else {
                assert(pages@[a2] == before[a2 - 1] && pages@[b2] == before[b2 - 1]);
            }
        }
        assert forall|p2: u64| pages@.contains(p2) implies before.contains(p2) || p2 == pi by {
            let w = choose|w: int| 0 <= w < pages@.len() && pages@[w] == p2;
            if w < pos as int {
                assert(before[w] == p2);
            } else if w > pos as int {
                assert(before[w - 1] == p2);
            }
        }
        assert forall|p2: u64| before.contains(p2) || p2 == pi implies pages@.contains(p2) by {
            if p2 == pi {
                assert(pages@[pos as int] == pi);
            } else {
                let w = choose|w: int| 0 <= w < before.len() && before[w] == p2;
                if w < pos as int {
                    assert(pages@[w] == p2);
                } else {
                    assert(pages@[w + 1] == p2);
                }
            }
        }
    }
    pages
}

/// A copy of a vector of field values.
fn copy_words(v: &Vec<u64>) -> (r: Vec<u64>)
    ensures
        r@ == v@,
{
    let mut r: Vec<u64> = Vec::new();
    let mut i: usize = 0;
    while i < v.len()
        invariant
            0 <= i <= v@.len(),
            r@ =~= v@.take(i as int),
        decreases v@.len() - i,
    {
        r.push(v[i]);
        i = i + 1;
    }
    proof {
        assert(r@ =~= v@);
    }
    r
}

} // verus!
