//! Execution traces: the executor's row-oriented register trace reshaped
//! into canonical column order, and the memory-access log.

use vstd::prelude::*;
use crate::bootloader::{REG_COUNT, register_names, register_names_spec};

verus! {

/// One entry of the executor's memory-access log.
#[derive(Clone, Copy, Debug, PartialEq, Eq, Structural)]
pub struct MemoryAccess {
    /// Row index in the full trace at which the access happens.
    pub idx: usize,
    /// Byte address accessed.
    pub address: u64,
}

/// A register trace in column orientation and canonical register order:
/// column `k` holds the values of register `register_names()[k]`, row by
/// row in execution order.
pub struct TransposedTrace {
    pub cols: Vec<Vec<u64>>,
}

impl TransposedTrace {
    /// One column per canonical register, all of the same length.
    pub open spec fn wf(self) -> bool {
        &&& self.cols@.len() == REG_COUNT
        &&& forall|k: int| 0 <= k < REG_COUNT ==> (#[trigger] self.cols@[k])@.len()
            == self.cols@[0]@.len()
    }

    /// Number of rows.
    pub open spec fn len(self) -> nat {
        self.cols@[0]@.len()
    }

    /// Value of register column `k` at `row`.
    pub open spec fn at(self, k: int, row: int) -> u64 {
        self.cols@[k]@[row]
    }

    /// The program counter column.
    pub open spec fn pc(self) -> Seq<u64> {
        self.cols@[crate::bootloader::PC_INDEX as int]@
    }

    /// The register values of the last row, in canonical order.
    pub open spec fn last_row(self) -> Seq<u64> {
        Seq::new(REG_COUNT as nat, |k: int| self.at(k, self.len() as int - 1))
    }

    /// Number of rows.
    pub fn num_rows(&self) -> (r: usize)
        requires
            self.wf(),
        ensures
            r == self.len(),
    {
        self.cols[0].len()
    }
}

/// The first row at which a column holds the given value.
pub fn find_first(col: &Vec<u64>, value: u64) -> (r: Option<usize>)
    ensures
        match r {
            Some(i) => i < col@.len() && col@[i as int] == value && forall|j: int|
                0 <= j < i ==> col@[j] != value,
            None => forall|j: int| 0 <= j < col@.len() ==> col@[j] != value,
        },
{
    let mut i: usize = 0;
    while i < col.len()
        invariant
            0 <= i <= col@.len(),
            forall|j: int| 0 <= j < i ==> col@[j] != value,
        decreases col@.len() - i,
    {
        if col[i] == value {
            return Some(i);
        }
        i = i + 1;
    }
    None
}

/// The qualified name of a machine register: the machine prefix followed
/// by the register's own name.
pub open spec fn qualify(name: Seq<char>) -> Seq<char> {
    "main."@ + name
}

/// Qualifies a register name with the machine prefix.
pub fn qualify_name(name: &String) -> (r: String)
    ensures
        r@ == qualify(name@),
{
    let mut r: String = "main.".to_owned();
    r.append(name.as_str());
    r
}

/// Column of a row-oriented trace at register-file index `c`.
pub open spec fn column_of(rows: Seq<Vec<u64>>, c: int) -> Seq<u64> {
    Seq::new(rows.len(), |r: int| rows[r]@[c])
}

/// True if register-file column `c` exists in every row.
pub open spec fn column_valid(rows: Seq<Vec<u64>>, c: int) -> bool {
    forall|r: int| 0 <= r < rows.len() ==> c < (#[trigger] rows[r])@.len()
}

/// The register-map entry whose qualified name is `target`: the first
/// match wins.
pub open spec fn find_reg_col(rm: Seq<(String, usize)>, target: Seq<char>) -> Option<int>
    decreases rm.len(),
{
    if rm.len() == 0 {
        Option::None
    } else if qualify(rm.first().0@) == target {
        Option::Some(0int)
    } else {
        match find_reg_col(rm.drop_first(), target) {
            Option::Some(j) => Option::Some(j + 1),
            Option::None => Option::None,
        }
    }
}

/// `find_reg_col` returns the first matching entry, if any.
pub proof fn lemma_find_reg_col(rm: Seq<(String, usize)>, target: Seq<char>)
    ensures
        match find_reg_col(rm, target) {
            Option::Some(j) => 0 <= j < rm.len() && qualify(rm[j].0@) == target && (forall|j2: int|
                0 <= j2 < j ==> qualify((#[trigger] rm[j2]).0@) != target),
            Option::None => forall|j: int| 0 <= j < rm.len()
                ==> qualify((#[trigger] rm[j]).0@) != target,
        },
    decreases rm.len(),
{
    if rm.len() > 0 {
        lemma_find_reg_col(rm.drop_first(), target);
        if qualify(rm.first().0@) == target {
        } else {
            match find_reg_col(rm.drop_first(), target) {
                Option::Some(j) => {
                    assert(rm.drop_first()[j] == rm[j + 1]);
                    assert forall|j2: int| 0 <= j2 < j + 1 implies qualify(
                        (#[trigger] rm[j2]).0@,
                    ) != target by {
                        if j2 > 0 {
                            assert(rm.drop_first()[j2 - 1] == rm[j2]);
                        }
                    }
                },
                Option::None => {
                    assert forall|j2: int| 0 <= j2 < rm.len() implies qualify(
                        (#[trigger] rm[j2]).0@,
                    ) != target by {
                        if j2 > 0 {
                            assert(rm.drop_first()[j2 - 1] == rm[j2]);
                        }
                    }
                },
            }
        }
    }
}

/// True if `col` is the column of the register named `name`, per the
/// register map.
pub open spec fn col_ok(
    rm: Seq<(String, usize)>,
    rows: Seq<Vec<u64>>,
    col: Vec<u64>,
    name: Seq<char>,
) -> bool {
    match find_reg_col(rm, name) {
        Option::Some(j) => column_valid(rows, rm[j].1 as int) && col@ == column_of(
            rows,
            rm[j].1 as int,
        ),
        Option::None => false,
    }
}

/// Reshapes the executor's row-oriented trace into column orientation.
///
/// `reg_map` maps each register name to its column in the rows.  The
/// first result holds the canonical block the driver reads: column `k` is
/// the column of the register whose qualified name is
/// `register_names()[k]` (the first matching entry), in the same row
/// order.  The second result holds the whole mapping: one entry per
/// register of the register map, its qualified name paired with that
/// register's column, in map order, every column in row order.  Returns
/// `None` when a canonical register is missing from the map or any
/// mapped column is missing from some row.
#[verifier::loop_isolation(false)]
#[verifier::rlimit(100)]
pub fn transposed_trace(reg_map: &Vec<(String, usize)>, rows: &Vec<Vec<u64>>) -> (r: Option<
    (TransposedTrace, Vec<(String, Vec<u64>)>),
>)
    ensures
        match r {
            Some((t, full_columns)) => {
                &&& t.wf()
                &&& t.len() == rows@.len()
                &&& forall|k: int| #![trigger t.cols@[k]] 0 <= k < REG_COUNT
                    ==> col_ok(reg_map@, rows@, t.cols@[k], register_names_spec()[k])
                &&& full_columns@.len() == reg_map@.len()
                &&& forall|j: int| #![trigger full_columns@[j]] 0 <= j < reg_map@.len() ==> {
                    &&& full_columns@[j].0@ == qualify((reg_map@[j]).0@)
                    &&& column_valid(rows@, reg_map@[j].1 as int)
                    &&& full_columns@[j].1@ == column_of(rows@, reg_map@[j].1 as int)
                }
            },
            None => (exists|k: int| #![trigger register_names_spec()[k]] 0 <= k < REG_COUNT
                && (forall|col: Vec<u64>| !col_ok(reg_map@, rows@, col, register_names_spec()[k])))
                || (exists|j: int| 0 <= j < reg_map@.len() && !column_valid(
                rows@,
                (#[trigger] reg_map@[j]).1 as int,
            )),
        },
{
    let names = register_names();
    let mut cols: Vec<Vec<u64>> = Vec::new();
    let mut k: usize = 0;
    while k < names.len()
        invariant
            names@.len() == REG_COUNT,
            forall|i: int| 0 <= i < REG_COUNT ==> (#[trigger] names@[i])@
                == register_names_spec()[i],
            0 <= k <= REG_COUNT,
            cols@.len() == k,
            forall|i: int| 0 <= i < k ==> (#[trigger] cols@[i])@.len() == rows@.len(),
            forall|i: int| #![trigger cols@[i]] 0 <= i < k
                ==> col_ok(reg_map@, rows@, cols@[i], register_names_spec()[i]),
        decreases REG_COUNT - k,
    {
        match find_register_column(reg_map, &names[k]) {
            None => {
                return None;
            },
            Some(j) => {
                let ghost cols0 = cols@;
                let c = reg_map[j].1;
                let mut col: Vec<u64> = Vec::new();
                let mut r: usize = 0;
                while r < rows.len()
                    invariant
                        0 <= j < reg_map@.len(),
                        c == reg_map@[j as int].1,
                        find_reg_col(reg_map@, register_names_spec()[k as int]) == Option::Some(
                            j as int,
                        ),
                        0 <= k < REG_COUNT,
                        0 <= r <= rows@.len(),
                        col@.len() == r,
                        forall|r2: int| 0 <= r2 < r ==> c < (#[trigger] rows@[r2])@.len()
                            && col@[r2] == rows@[r2]@[c as int],
                    decreases rows@.len() - r,
                {
                    if c >= rows[r].len() {
                        proof {
                            assert(!column_valid(rows@, c as int));
                        }
                        return None;
                    }
                    col.push(rows[r][c]);
                    r = r + 1;
                }
                proof {
                    assert(col@ =~= column_of(rows@, c as int));
                    assert(column_valid(rows@, c as int));
                }
                cols.push(col);
                proof {
                    assert(cols@ == cols0.push(col));
                    assert(cols@[k as int]@ == column_of(rows@, reg_map@[j as int].1 as int));
                    assert(find_reg_col(reg_map@, register_names_spec()[k as int])
                        == Option::Some(j as int));
                    assert forall|i: int| #![trigger cols@[i]] 0 <= i < k + 1 implies col_ok(
                        reg_map@,
                        rows@,
                        cols@[i],
                        register_names_spec()[i],
                    ) by {
                        if i < k {
                            assert(cols@[i] == cols0[i]);
                            assert(col_ok(reg_map@, rows@, cols0[i], register_names_spec()[i]));
                        } else {
                            assert(cols@[i] == col);
                            assert(col_ok(reg_map@, rows@, col, register_names_spec()[i]));
                        }
                    }
                }
            },
        }
        k = k + 1;
    }
    // The whole mapping: every register of the map with its column.
    let mut full_columns: Vec<(String, Vec<u64>)> = Vec::new();
    let mut j: usize = 0;
    while j < reg_map.len()
        invariant
            0 <= j <= reg_map@.len(),
            full_columns@.len() == j,
            forall|j2: int| #![trigger full_columns@[j2]] 0 <= j2 < j ==> {
                &&& full_columns@[j2].0@ == qualify((reg_map@[j2]).0@)
                &&& column_valid(rows@, reg_map@[j2].1 as int)
                &&& full_columns@[j2].1@ == column_of(rows@, reg_map@[j2].1 as int)
            },
        decreases reg_map@.len() - j,
    {
        let qn = qualify_name(&reg_map[j].0);
        let c = reg_map[j].1;
        let mut col: Vec<u64> = Vec::new();
        let mut r: usize = 0;
        while r < rows.len()
            invariant
                0 <= j < reg_map@.len(),
                c == reg_map@[j as int].1,
                0 <= r <= rows@.len(),
                col@.len() == r,
                forall|r2: int| 0 <= r2 < r ==> c < (#[trigger] rows@[r2])@.len() && col@[r2]
                    == rows@[r2]@[c as int],
            decreases rows@.len() - r,
        {
            if c >= rows[r].len() {
                proof {
                    assert(!column_valid(rows@, reg_map@[j as int].1 as int));
                }
                return None;
            }
            col.push(rows[r][c]);
            r = r + 1;
        }
        proof {
            assert(col@ =~= column_of(rows@, c as int));
            assert(column_valid(rows@, c as int));
        }
        let ghost fc0 = full_columns@;
        full_columns.push((qn, col));
        proof {
            assert(full_columns@[j as int].0@ == qualify((reg_map@[j as int]).0@));
            assert(full_columns@[j as int].1@ == column_of(rows@, reg_map@[j as int].1 as int));
            assert(forall|j2: int| 0 <= j2 < j ==> full_columns@[j2] == fc0[j2]);
        }
        j = j + 1;
    }
    let ghost colsg = cols@;
    let t = TransposedTrace { cols };
    proof {
        assert(t.cols@ == colsg);
        assert(t.wf());
        assert(t.cols@[0]@.len() == rows@.len());
        assert forall|i: int| #![trigger t.cols@[i]] 0 <= i < REG_COUNT implies col_ok(
            reg_map@,
            rows@,
            t.cols@[i],
            register_names_spec()[i],
        ) by {
            assert(t.cols@[i] == colsg[i]);
            assert(col_ok(reg_map@, rows@, colsg[i], register_names_spec()[i]));
        }
    }
    Some((t, full_columns))
}

/// The first entry of the register map whose qualified name is `target`.
fn find_register_column(reg_map: &Vec<(String, usize)>, target: &String) -> (r: Option<usize>)
    ensures
        match r {
            Some(j) => j < reg_map@.len() && reg_map@[j as int].1 == reg_map@[j as int].1
                && find_reg_col(reg_map@, target@) == Option::Some(j as int),
            None => find_reg_col(reg_map@, target@) is None,
        },
{
    let mut j: usize = 0;
    while j < reg_map.len()
        invariant
            0 <= j <= reg_map@.len(),
            forall|j2: int| 0 <= j2 < j ==> qualify((#[trigger] reg_map@[j2]).0@) != target@,
        decreases reg_map@.len() - j,
    {
        let qn = qualify_name(&reg_map[j].0);
        if qn == *target {
            proof {
                lemma_find_reg_col(reg_map@, target@);
            }
            return Some(j);
        }
        j = j + 1;
    }
    proof {
        lemma_find_reg_col(reg_map@, target@);
        if find_reg_col(reg_map@, target@) is Some {
            let jj = find_reg_col(reg_map@, target@)->Some_0;
            assert(qualify(reg_map@[jj].0@) == target@);
        }
    }
    None
}

} // verus!
