//! Join-key expressions: the capability the surrounding pipeline supplies to
//! turn a batch into one normalized key column per configured join key.

use vstd::prelude::*;

use crate::frame::ColV;
use crate::frame::Column;
use crate::frame::Frame;
use crate::frame::FrameV;
use crate::frame::copy_vec;
use crate::frame::find_col;
use crate::frame::lemma_find_col;

verus! {

/// How an operation of this core fails.
#[derive(Clone, Copy, PartialEq, Eq, Structural, Debug)]
pub enum JoinError {
    /// A join-key expression could not be evaluated against a batch.
    Evaluation,
    /// `finalize` was invoked with a join kind this core does not implement.
    UnsupportedJoin,
}

/// A join-key expression.  Evaluation must be deterministic and
/// side-effect-free: what `evaluate` returns is fixed by `eval_model`, a pure
/// function of the expression and the batch.
pub trait PhysicalPipedExpr: Sized {
    /// The column this expression denotes on a given batch, or `None` when
    /// evaluation fails on that batch.
    spec fn eval_model(&self, chunk: FrameV) -> Option<ColV>;

    /// Evaluates the expression against a batch, yielding one cell per row.
    fn evaluate(&self, chunk: &Frame) -> (r: Result<Column, JoinError>)
        requires
            chunk.wf(),
        ensures
            r is Ok <==> self.eval_model(chunk@) is Some,
            r is Ok ==> r->Ok_0@ == self.eval_model(chunk@)->Some_0,
            r is Ok ==> r->Ok_0@.values.len() == chunk@.height,
    ;

    /// A behaviourally identical copy, so that a sink obtained by `split`
    /// computes the very same key columns and hashes as its parent.
    fn duplicate(&self) -> (r: Self)
        ensures
            forall|c: FrameV| #[trigger] r.eval_model(c) == self.eval_model(c),
    ;
}

/// The columns the configured expressions denote on a batch, in key order.
pub open spec fn models_of<E: PhysicalPipedExpr>(exprs: Seq<E>, c: FrameV) -> Seq<Option<ColV>> {
    exprs.map_values(|e: E| e.eval_model(c))
}

/// Whether every configured expression evaluates on the batch.
pub open spec fn all_eval<E: PhysicalPipedExpr>(exprs: Seq<E>, c: FrameV) -> bool {
    forall|j: int| 0 <= j < exprs.len() ==> (#[trigger] exprs[j].eval_model(c)) is Some
}

/// The raw cell fragments those columns contribute to the materialized
/// store, one per key position.
pub open spec fn eval_frags<E: PhysicalPipedExpr>(exprs: Seq<E>, c: FrameV) -> Seq<Seq<u64>> {
    Seq::new(exprs.len(), |j: int| exprs[j].eval_model(c)->Some_0.values)
}

/// Behaviourally equal expression lists — such as a sink's and its
/// `split`-descendants' — materialize the very same key fragments on every
/// batch, so sinks of one lineage agree on store contents and hashes.
pub proof fn lemma_eval_frags_equal<E: PhysicalPipedExpr>(a: Seq<E>, b: Seq<E>, c: FrameV)
    requires
        a.len() == b.len(),
        forall|j: int| 0 <= j < a.len() ==> #[trigger] a[j].eval_model(c) == b[j].eval_model(c),
    ensures
        eval_frags(a, c) == eval_frags(b, c),
        all_eval(a, c) == all_eval(b, c),
{
    assert(eval_frags(a, c) =~= eval_frags(b, c));
    if all_eval(a, c) {
        assert forall|j: int| 0 <= j < b.len() implies (#[trigger] b[j].eval_model(c))
            is Some by {
            assert(a[j].eval_model(c) == b[j].eval_model(c));
            assert(a[j].eval_model(c) is Some);
        }
        assert(all_eval(b, c));
    }
    if all_eval(b, c) {
        assert forall|j: int| 0 <= j < a.len() implies (#[trigger] a[j].eval_model(c))
            is Some by {
            assert(a[j].eval_model(c) == b[j].eval_model(c));
            assert(b[j].eval_model(c) is Some);
        }
        assert(all_eval(a, c));
    }
}

/// Duplicates a list of expressions behaviourally.
pub fn duplicate_exprs<E: PhysicalPipedExpr>(exprs: &Vec<E>) -> (r: Vec<E>)
    ensures
        r@.len() == exprs@.len(),
        forall|j: int, c: FrameV|
            0 <= j < r@.len() ==> #[trigger] r@[j].eval_model(c) == exprs@[j].eval_model(c),
{
    let mut r: Vec<E> = Vec::new();
    let mut i: usize = 0;
    while i < exprs.len()
        invariant
            i <= exprs@.len(),
            r@.len() == i,
            forall|j: int, c: FrameV|
                0 <= j < i ==> #[trigger] r@[j].eval_model(c) == exprs@[j].eval_model(c),
        decreases exprs@.len() - i,
    {
        r.push(exprs[i].duplicate());
        i += 1;
    }
    r
}

/// The simplest join-key expression: the first column with a given name,
/// taken as already being in raw physical form.
pub struct NamedColumnExpr {
    pub name: Vec<u8>,
}

impl PhysicalPipedExpr for NamedColumnExpr {
    open spec fn eval_model(&self, chunk: FrameV) -> Option<ColV> {
        match find_col(chunk.cols, self.name@) {
            Some(i) => Some(chunk.cols[i]),
            None => None,
        }
    }

    fn evaluate(&self, chunk: &Frame) -> (r: Result<Column, JoinError>)
    {
        proof {
            lemma_find_col(chunk@.cols, self.name@);
        }
        match chunk.find_idx_by_name(&self.name) {
            Some(i) => {
                let c = &chunk.cols[i];
                Ok(Column { name: copy_vec(&c.name), values: copy_vec(&c.values) })
            },
            None => Err(JoinError::Evaluation),
        }
    }

    fn duplicate(&self) -> (r: Self)
    {
        let r = NamedColumnExpr { name: copy_vec(&self.name) };
        proof {
            assert forall|c: FrameV| #[trigger] r.eval_model(c) == self.eval_model(c) by {
                assert(r.name@ == self.name@);
            }
        }
        r
    }
}

} // verus!
