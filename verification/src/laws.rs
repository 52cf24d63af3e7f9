//! The properties the join promises, proved once and for all over the
//! index model that the sink and probe contracts expose.

use vstd::prelude::*;

use crate::expr::PhysicalPipedExpr;
use crate::frame::ColV;
use crate::index::ChunkId;
use crate::index::lemma_matches_exact;
use crate::index::matches_exact_for;
use crate::index::tuple_of;
use crate::probe::InnerJoinProbe;
use crate::probe::dropped_col;
use crate::probe::keep_cols;

verus! {

/// Multi-key equality is decided by value comparison, never by hash alone:
/// a lookup never surfaces a build row whose key values differ from the
/// probed tuple, even when their hashes collide.
pub proof fn lemma_no_false_positive<E: PhysicalPipedExpr>(
    p: InnerJoinProbe<E>,
    t: Seq<u64>,
    x: int,
)
    requires
        p.wf(),
        0 <= x < p.key_matches(t).len(),
    ensures
        tuple_of(p.store(), p.n_keys(), p.key_matches(t)[x]) == t,
        p.dom().contains(p.key_matches(t)[x]),
{
    lemma_matches_exact(p.tables(), p.store(), p.n_keys(), p.seed, p.dom(), t);
}

/// Fan-out is exact: for every key tuple, the lookup lists exactly the
/// retained build rows bearing that tuple, each exactly once — `m` build
/// rows sharing a key give `m` joined rows per matching probe row.
pub proof fn lemma_fan_out<E: PhysicalPipedExpr>(p: InnerJoinProbe<E>, t: Seq<u64>)
    requires
        p.wf(),
    ensures
        matches_exact_for(p.tables(), p.store(), p.n_keys(), p.seed, p.dom(), t),
{
    lemma_matches_exact(p.tables(), p.store(), p.n_keys(), p.seed, p.dom(), t);
}

/// Inner-join semantics: a probe key that no retained build row bears
/// contributes no output rows at all.
pub proof fn lemma_no_match_empty<E: PhysicalPipedExpr>(p: InnerJoinProbe<E>, t: Seq<u64>)
    requires
        p.wf(),
        forall|id: ChunkId|
            #[trigger] p.dom().contains(id) ==> tuple_of(p.store(), p.n_keys(), id) != t,
    ensures
        p.key_matches(t).len() == 0,
{
    lemma_matches_exact(p.tables(), p.store(), p.n_keys(), p.seed, p.dom(), t);
    let m = p.key_matches(t);
    if m.len() > 0 {
        assert(p.dom().contains(m[0]) && tuple_of(p.store(), p.n_keys(), m[0]) == t);
    }
}

/// Split/combine equivalence: two probe operators over the same retained
/// rows, store and seed — one fed by a single sink, one by any number of
/// split sinks combined back — yield the same set of build rows for every
/// key tuple, each row listed exactly once by both.  Since their retained
/// batches agree as well, the joined output rows agree as a set.
pub proof fn lemma_split_combine_equivalence<E: PhysicalPipedExpr>(
    a: InnerJoinProbe<E>,
    b: InnerJoinProbe<E>,
    t: Seq<u64>,
)
    requires
        a.wf(),
        b.wf(),
        a.frames() == b.frames(),
        a.store() == b.store(),
        a.seed == b.seed,
        a.n_keys() == b.n_keys(),
    ensures
        forall|id: ChunkId|
            #[trigger] a.key_matches(t).contains(id) <==> b.key_matches(t).contains(id),
        forall|i: int, j: int|
            0 <= i < j < a.key_matches(t).len() ==> a.key_matches(t)[i] != a.key_matches(t)[j],
        forall|i: int, j: int|
            0 <= i < j < b.key_matches(t).len() ==> b.key_matches(t)[i] != b.key_matches(t)[j],
{
    lemma_matches_exact(a.tables(), a.store(), a.n_keys(), a.seed, a.dom(), t);
    lemma_matches_exact(b.tables(), b.store(), b.n_keys(), b.seed, b.dom(), t);
    assert(a.dom() == b.dom());
    let ma = a.key_matches(t);
    let mb = b.key_matches(t);
    assert forall|id: ChunkId| #[trigger] ma.contains(id) implies mb.contains(id) by {
        let i = choose|i: int| 0 <= i < ma.len() && ma[i] == id;
        assert(a.dom().contains(ma[i]) && tuple_of(a.store(), a.n_keys(), ma[i]) == t);
    }
    assert forall|id: ChunkId| #[trigger] mb.contains(id) implies ma.contains(id) by {
        let i = choose|i: int| 0 <= i < mb.len() && mb[i] == id;
        assert(b.dom().contains(mb[i]) && tuple_of(b.store(), b.n_keys(), mb[i]) == t);
    }
}

/// Swap invariance: with relation A as build side probed by B's rows, a
/// pair (build row `x`, probe row `y`) is matched exactly when, with B as
/// build side probed by A's rows, the pair (`y`, `x`) is matched — the
/// joined row set is the same modulo column order, which the swap flag
/// restores.
pub proof fn lemma_swap_invariance<E: PhysicalPipedExpr>(
    a: InnerJoinProbe<E>,
    b: InnerJoinProbe<E>,
    x: ChunkId,
    y: ChunkId,
)
    requires
        a.wf(),
        b.wf(),
        a.n_keys() == b.n_keys(),
        a.dom().contains(x),
        b.dom().contains(y),
    ensures
        a.key_matches(tuple_of(b.store(), b.n_keys(), y)).contains(x) <==> b.key_matches(
            tuple_of(a.store(), a.n_keys(), x),
        ).contains(y),
{
    let ty = tuple_of(b.store(), b.n_keys(), y);
    let tx = tuple_of(a.store(), a.n_keys(), x);
    lemma_matches_exact(a.tables(), a.store(), a.n_keys(), a.seed, a.dom(), ty);
    lemma_matches_exact(b.tables(), b.store(), b.n_keys(), b.seed, b.dom(), tx);
    if a.key_matches(ty).contains(x) {
        let i = choose|i: int| 0 <= i < a.key_matches(ty).len() && a.key_matches(ty)[i] == x;
        assert(tuple_of(a.store(), a.n_keys(), a.key_matches(ty)[i]) == ty);
        assert(tx == ty);
    }
    if b.key_matches(tx).contains(y) {
        let i = choose|i: int| 0 <= i < b.key_matches(tx).len() && b.key_matches(tx)[i] == y;
        assert(tuple_of(b.store(), b.n_keys(), b.key_matches(tx)[i]) == tx);
        assert(tx == ty);
    }
}

/// Column-drop correctness, membership half: every column that survives the
/// probe-side key drop is one of the original columns, standing at a
/// position that no key name selects.
pub proof fn lemma_column_drop_sound(cols: Seq<ColV>, keynames: Seq<Seq<u8>>, i: int, m: int)
    requires
        0 <= m < keep_cols(cols, keynames, i).len(),
    ensures
        exists|q: int|
            i <= q < cols.len() && !dropped_col(cols, keynames, q) && keep_cols(
                cols,
                keynames,
                i,
            )[m] == cols[q],
    decreases cols.len() - i,
{
    if i >= 0 && i < cols.len() {
        if dropped_col(cols, keynames, i) {
            lemma_column_drop_sound(cols, keynames, i + 1, m);
            let q = choose|q: int|
                i + 1 <= q < cols.len() && !dropped_col(cols, keynames, q) && keep_cols(
                    cols,
                    keynames,
                    i + 1,
                )[m] == cols[q];
            assert(keep_cols(cols, keynames, i)[m] == cols[q]);
        } else {
            if m == 0 {
                assert(keep_cols(cols, keynames, i)[0] == cols[i]);
            } else {
                lemma_column_drop_sound(cols, keynames, i + 1, m - 1);
                let q = choose|q: int|
                    i + 1 <= q < cols.len() && !dropped_col(cols, keynames, q) && keep_cols(
                        cols,
                        keynames,
                        i + 1,
                    )[m - 1] == cols[q];
                assert(keep_cols(cols, keynames, i)[m] == cols[q]);
            }
        }
    }
}

/// Column-drop correctness, completeness half: every original column that
/// no key name selects survives the drop.
pub proof fn lemma_column_drop_complete(cols: Seq<ColV>, keynames: Seq<Seq<u8>>, i: int, q: int)
    requires
        0 <= i <= q < cols.len(),
        !dropped_col(cols, keynames, q),
    ensures
        keep_cols(cols, keynames, i).contains(cols[q]),
    decreases cols.len() - i,
{
    if q == i {
        assert(keep_cols(cols, keynames, i)[0] == cols[i]);
    } else {
        lemma_column_drop_complete(cols, keynames, i + 1, q);
        let rest = keep_cols(cols, keynames, i + 1);
        let m = choose|m: int| 0 <= m < rest.len() && rest[m] == cols[q];
        if dropped_col(cols, keynames, i) {
            assert(keep_cols(cols, keynames, i)[m] == cols[q]);
        } else {
            assert(keep_cols(cols, keynames, i)[m + 1] == cols[q]);
        }
    }
}

} // verus!
