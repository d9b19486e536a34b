//! The properties the continuation machinery is built around, stated and
//! proved over the same specifications the executable contracts use.

use vstd::prelude::*;
use crate::bootloader::{
    REG_COUNT, bootloader_input_spec, hash_words,
};
use crate::merkle::{
    WORDS_PER_PAGE, apply_writes, apply_one, page_at, root_spec, page_index_of_address,
    word_offset_of_address, lemma_apply_writes_snoc,
};
use crate::trace::MemoryAccess;
use crate::driver::{page_in_window, page_of_access, sorted_unique};

verus! {

/// The rows of one chunk's register column that extend the proven trace:
/// from the chunk-local start row to the end, the last row dropped unless
/// the chunk is the final one (its last row is otherwise replayed as the
/// first row of the next chunk).
pub open spec fn validated_suffix(col: Seq<u64>, start: int, last: bool) -> Seq<u64> {
    col.subrange(start, if last { col.len() as int } else { col.len() - 1 })
}

/// The concatenation of the validated suffixes of chunks `c0` onward.
pub open spec fn concat_suffixes_from(cols: Seq<Seq<u64>>, starts: Seq<int>, c0: int) -> Seq<u64>
    decreases cols.len() - c0,
{
    if c0 < 0 || c0 >= cols.len() {
        Seq::empty()
    } else if c0 == cols.len() - 1 {
        validated_suffix(cols[c0], starts[c0], true)
    } else {
        validated_suffix(cols[c0], starts[c0], false) + concat_suffixes_from(cols, starts, c0 + 1)
    }
}

/// Trace equivalence, per register: concatenating the validated suffixes
/// of the chunks' columns for one register, from chunk `c0` onward,
/// reproduces the full trace's column for that register from chunk `c0`'s
/// proven cursor onward.  Each chunk was validated against the full trace
/// at its own cursor (`chunks_agree` gives these hypotheses for every
/// register), every chunk but the last filled its full row budget, and
/// each cursor advances by the rows its chunk proved.  Instantiated at
/// `c0 == 0`, the concatenation of all chunks reproduces the full trace
/// from the first real execution row onward.
#[verifier::rlimit(100)]
pub proof fn lemma_trace_equivalence(
    cols: Seq<Seq<u64>>,
    starts: Seq<int>,
    provens: Seq<int>,
    full_col: Seq<u64>,
    num_rows: int,
    c0: int,
)
    requires
        cols.len() == starts.len(),
        cols.len() == provens.len(),
        0 <= c0 < cols.len(),
        forall|c: int| 0 <= c < cols.len() ==> 0 <= #[trigger] starts[c] < cols[c].len(),
        forall|c: int| 0 <= c < cols.len() - 1 ==> (#[trigger] cols[c]).len() == num_rows,
        forall|c: int| 0 <= c < cols.len() ==> 0 <= #[trigger] provens[c],
        forall|c: int, i: int|
            0 <= c < cols.len() && 0 <= i < cols[c].len() - starts[c]
                ==> #[trigger] cols[c][starts[c] + i] == full_col[provens[c] + i],
        forall|c: int| 0 <= c < cols.len() ==> #[trigger] provens[c] + cols[c].len() - starts[c]
            <= full_col.len(),
        forall|c: int| 0 <= c < cols.len() - 1 ==> provens[c + 1] == #[trigger] provens[c]
            + num_rows - starts[c] - 1,
    ensures
        concat_suffixes_from(cols, starts, c0) == full_col.subrange(
            provens[c0],
            provens[cols.len() - 1] + cols[cols.len() - 1].len() - starts[cols.len() - 1],
        ),
    decreases cols.len() - c0,
{
    let last = cols.len() - 1;
    if c0 == last {
        lemma_suffix_matches(cols[c0], full_col, starts[c0], provens[c0], true);
    } else {
        assert(cols[c0].len() == num_rows);
        assert(provens[c0 + 1] == provens[c0] + num_rows - starts[c0] - 1);
        lemma_suffix_matches(cols[c0], full_col, starts[c0], provens[c0], false);
        lemma_trace_equivalence(cols, starts, provens, full_col, num_rows, c0 + 1);
        lemma_provens_monotone(cols, starts, provens, num_rows, c0 + 1, last);
        lemma_subrange_join(
            full_col,
            provens[c0],
            provens[c0 + 1],
            provens[last] + cols[last].len() - starts[last],
        );
    }
}

/// The proven cursor never moves backwards.
proof fn lemma_provens_monotone(
    cols: Seq<Seq<u64>>,
    starts: Seq<int>,
    provens: Seq<int>,
    num_rows: int,
    i: int,
    j: int,
)
    requires
        cols.len() == starts.len(),
        cols.len() == provens.len(),
        forall|c: int| 0 <= c < cols.len() ==> 0 <= #[trigger] starts[c] < cols[c].len(),
        forall|c: int| 0 <= c < cols.len() - 1 ==> (#[trigger] cols[c]).len() == num_rows,
        forall|c: int| 0 <= c < cols.len() - 1 ==> provens[c + 1] == #[trigger] provens[c]
            + num_rows - starts[c] - 1,
        0 <= i <= j < cols.len(),
    ensures
        provens[i] <= provens[j],
    decreases j - i,
{
    if i < j {
        assert(provens[i + 1] == provens[i] + num_rows - starts[i] - 1);
        assert(starts[i] < cols[i].len());
        assert(cols[i].len() == num_rows);
        lemma_provens_monotone(cols, starts, provens, num_rows, i + 1, j);
    }
}

/// Adjacent slices of one sequence join to the enclosing slice.
proof fn lemma_subrange_join(s: Seq<u64>, a: int, b: int, c: int)
    requires
        0 <= a <= b <= c <= s.len(),
    ensures
        s.subrange(a, b) + s.subrange(b, c) == s.subrange(a, c),
{
    assert(s.subrange(a, b) + s.subrange(b, c) =~= s.subrange(a, c));
}

/// One validated chunk suffix is the matching slice of the full column.
proof fn lemma_suffix_matches(col: Seq<u64>, full_col: Seq<u64>, start: int, proven: int, last: bool)
    requires
        0 <= start < col.len(),
        0 <= proven,
        proven + col.len() - start <= full_col.len(),
        forall|i: int| 0 <= i < col.len() - start ==> #[trigger] col[start + i] == full_col[proven
            + i],
    ensures
        validated_suffix(col, start, last) == full_col.subrange(
            proven,
            proven + (if last {
                col.len() as int
            } else {
                col.len() - 1
            }) - start,
        ),
{
    let hi = if last {
        col.len() as int
    } else {
        col.len() - 1
    };
    let lhs = validated_suffix(col, start, last);
    let rhs = full_col.subrange(proven, proven + hi - start);
    assert forall|n: int| 0 <= n < hi - start implies lhs[n] == rhs[n] by {
        assert(lhs[n] == col[start + n]);
        assert(rhs[n] == full_col[proven + n]);
    }
    assert(lhs =~= rhs);
}

/// Root continuity: the hash embedded in a bootloader input right after
/// the register snapshot is exactly the root of the page memory the input
/// was assembled against — for the driver, the memory after all previous
/// chunks' updates.
pub proof fn lemma_root_continuity(regs: Seq<u64>, m: Map<u64, Seq<u64>>, pages: Seq<u64>)
    requires
        regs.len() == REG_COUNT,
    ensures
        bootloader_input_spec(regs, m, pages).subrange(
            REG_COUNT as int,
            REG_COUNT + crate::merkle::HASH_WIDTH,
        ) == hash_words(root_spec(m)),
{
    assert(bootloader_input_spec(regs, m, pages).subrange(
        REG_COUNT as int,
        REG_COUNT + crate::merkle::HASH_WIDTH,
    ) =~= hash_words(root_spec(m)));
}

/// Register continuity: the first `REG_COUNT` entries of a bootloader
/// input are exactly the register snapshot it was assembled from — for
/// the driver, the last trace row of the previous chunk.
pub proof fn lemma_register_continuity(regs: Seq<u64>, m: Map<u64, Seq<u64>>, pages: Seq<u64>)
    requires
        regs.len() == REG_COUNT,
    ensures
        bootloader_input_spec(regs, m, pages).subrange(0, REG_COUNT as int) == regs,
{
    assert(bootloader_input_spec(regs, m, pages).subrange(0, REG_COUNT as int) =~= regs);
}

/// Accessed-page coverage: every access whose row index falls within the
/// next chunk's window has its page in the chunk's page list.
pub proof fn lemma_page_coverage(
    accesses: Seq<MemoryAccess>,
    lo: int,
    hi: int,
    pages: Seq<u64>,
)
    requires
        forall|pi: u64| pages.contains(pi) <==> page_in_window(accesses, lo, hi, pi),
    ensures
        forall|a: int| 0 <= a < accesses.len() && lo <= (#[trigger] accesses[a]).idx < hi
            ==> pages.contains(page_of_access(accesses[a])),
{
    assert forall|a: int|
        0 <= a < accesses.len() && lo <= (#[trigger] accesses[a]).idx < hi implies pages.contains(
        page_of_access(accesses[a]),
    ) by {
        assert(page_in_window(accesses, lo, hi, page_of_access(accesses[a])));
    }
}

/// The last write to a word within a batch, if any: later writes win.
pub open spec fn last_write_to(ws: Seq<(u64, u64)>, pi: u64, o: int) -> Option<u64>
    decreases ws.len(),
{
    if ws.len() == 0 {
        Option::None
    } else if page_index_of_address(ws.last().0) == pi && word_offset_of_address(ws.last().0)
        == o {
        Option::Some(ws.last().1)
    } else {
        last_write_to(ws.drop_last(), pi, o)
    }
}

/// All pages of a memory map are full pages.
pub open spec fn pages_sized(m: Map<u64, Seq<u64>>) -> bool {
    forall|k: u64| m.contains_key(k) ==> (#[trigger] m[k]).len() == WORDS_PER_PAGE
}

/// Round trip through the page memory: after a batch of writes, a word
/// reads as the last write to it within the batch, and as before the
/// batch where the batch never wrote it.  (That the page's inclusion
/// proof verifies against the root is `merkle::lemma_proof_verifies`.)
pub proof fn lemma_pmt_round_trip(m: Map<u64, Seq<u64>>, ws: Seq<(u64, u64)>, pi: u64, o: int)
    requires
        pages_sized(m),
        0 <= o < WORDS_PER_PAGE,
    ensures
        pages_sized(apply_writes(m, ws)),
        page_at(apply_writes(m, ws), pi).len() == WORDS_PER_PAGE,
        page_at(apply_writes(m, ws), pi)[o] == match last_write_to(ws, pi, o) {
            Option::Some(v) => v,
            Option::None => page_at(m, pi)[o],
        },
    decreases ws.len(),
{
    assert(crate::merkle::zero_page().len() == WORDS_PER_PAGE);
    if ws.len() == 0 {
    } else {
        lemma_apply_writes_snoc(m, ws);
        lemma_pmt_round_trip(m, ws.drop_last(), pi, o);
        let before = apply_writes(m, ws.drop_last());
        let w = ws.last();
        assert(apply_writes(m, ws) == apply_one(before, w.0, w.1));
        assert(pages_sized(before)) by {
            lemma_pages_sized(m, ws.drop_last());
        }
        assert forall|k: u64| apply_one(before, w.0, w.1).contains_key(k) implies (
        #[trigger] apply_one(before, w.0, w.1)[k]).len() == WORDS_PER_PAGE by {
            if k != page_index_of_address(w.0) {
                assert(apply_one(before, w.0, w.1)[k] == before[k]);
            }
        }
    }
}

/// Applying writes keeps every page full-sized.
pub proof fn lemma_pages_sized(m: Map<u64, Seq<u64>>, ws: Seq<(u64, u64)>)
    requires
        pages_sized(m),
    ensures
        pages_sized(apply_writes(m, ws)),
    decreases ws.len(),
{
    assert(crate::merkle::zero_page().len() == WORDS_PER_PAGE);
    if ws.len() > 0 {
        let w = ws.first();
        assert forall|k: u64| apply_one(m, w.0, w.1).contains_key(k) implies (
        #[trigger] apply_one(m, w.0, w.1)[k]).len() == WORDS_PER_PAGE by {
            if k != page_index_of_address(w.0) {
                assert(apply_one(m, w.0, w.1)[k] == m[k]);
            }
        }
        lemma_pages_sized(apply_one(m, w.0, w.1), ws.drop_first());
    }
}

/// Two strictly sorted lists with the same members are the same list.
pub proof fn lemma_sorted_unique_set_equal(s1: Seq<u64>, s2: Seq<u64>)
    requires
        sorted_unique(s1),
        sorted_unique(s2),
        forall|x: u64| s1.contains(x) <==> s2.contains(x),
    ensures
        s1 == s2,
    decreases s1.len(),
{
    if s1.len() == 0 {
        if s2.len() > 0 {
            assert(s2.contains(s2[0]));
        }
        assert(s1 =~= s2);
    } else {
        assert(s1.contains(s1[0]));
        assert(s2.contains(s1[0]));
        if s2.len() == 0 {
            assert(false);
        }
        let j1 = choose|j: int| 0 <= j < s2.len() && s2[j] == s1[0];
        assert(s2[0] <= s2[j1]);
        assert(s2.contains(s2[0]));
        let j2 = choose|j: int| 0 <= j < s1.len() && s1[j] == s2[0];
        assert(s1[0] <= s1[j2]);
        assert(s1[0] == s2[0]);
        let t1 = s1.drop_first();
        let t2 = s2.drop_first();
        assert forall|x: u64| t1.contains(x) <==> t2.contains(x) by {
            if t1.contains(x) {
                let w = choose|w: int| 0 <= w < t1.len() && t1[w] == x;
                assert(s1[w + 1] == x);
                assert(x > s1[0]);
                assert(s2.contains(x));
                let w2 = choose|w: int| 0 <= w < s2.len() && s2[w] == x;
                assert(w2 > 0);
                assert(t2[w2 - 1] == x);
            }
            if t2.contains(x) {
                let w = choose|w: int| 0 <= w < t2.len() && t2[w] == x;
                assert(s2[w + 1] == x);
                assert(x > s2[0]);
                assert(s1.contains(x));
                let w2 = choose|w: int| 0 <= w < s1.len() && s1[w] == x;
                assert(w2 > 0);
                assert(t1[w2 - 1] == x);
            }
        }
        lemma_sorted_unique_set_equal(t1, t2);
        assert forall|n: int| 0 <= n < s1.len() implies s1[n] == s2[n] by {
            if n > 0 {
                assert(t1[n - 1] == t2[n - 1]);
            }
        }
        assert(s1 =~= s2);
    }
}

/// Determinism: a bootloader input is a function of the register
/// snapshot, the committed memory and the accessed-page set alone.  Two
/// runs that derive their page lists from the same access-log window
/// therefore emit identical inputs.
pub proof fn lemma_input_determinism(
    regs: Seq<u64>,
    m: Map<u64, Seq<u64>>,
    accesses: Seq<MemoryAccess>,
    lo: int,
    hi: int,
    pages1: Seq<u64>,
    pages2: Seq<u64>,
)
    requires
        sorted_unique(pages1),
        sorted_unique(pages2),
        forall|pi: u64| pages1.contains(pi) <==> page_in_window(accesses, lo, hi, pi),
        forall|pi: u64| pages2.contains(pi) <==> page_in_window(accesses, lo, hi, pi),
    ensures
        pages1 == pages2,
        bootloader_input_spec(regs, m, pages1) == bootloader_input_spec(regs, m, pages2),
{
    lemma_sorted_unique_set_equal(pages1, pages2);
}

} // verus!
