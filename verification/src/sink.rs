//! The build sink: owns the partitioned key index, the materialized key
//! store and the retained batches; supports independent per-thread
//! construction (`split`), disjoint ingestion (`sink`) and merging
//! (`combine`), and is finalized once into the probe operator.

use vstd::prelude::*;

use crate::expr::JoinError;
use crate::expr::PhysicalPipedExpr;
use crate::expr::all_eval;
use crate::expr::duplicate_exprs;
use crate::expr::eval_frags;
use crate::frame::Column;
use crate::frame::Frame;
use crate::frame::FrameV;
use crate::frame::copy_vec;
use crate::hashing::hash_row;
use crate::hashing::hash_tuple;
use crate::index::ChunkId;
use crate::index::Entry;
use crate::index::EntryV;
use crate::index::entry_wf;
use crate::index::frames_dom;
use crate::index::idset;
use crate::index::index_wf;
use crate::index::insert_rows;
use crate::index::lemma_index_wf_store_extend;
use crate::index::lemma_store_extend;
use crate::index::loc_in_store;
use crate::index::sv;
use crate::index::tuple_of;
use crate::index::tv;
use crate::probe::InnerJoinProbe;

verus! {

/// The kind of join requested.  Only `Inner` is implemented by this core;
/// finalizing any other kind fails rather than producing wrong results.
#[derive(Clone, Copy, PartialEq, Eq, Structural, Debug)]
pub enum JoinType {
    Inner,
    Left,
    Outer,
}

/// What a successful `sink` call reports back to the scheduler.
#[derive(Clone, Copy, PartialEq, Eq, Structural, Debug)]
pub enum SinkResult {
    CanHaveMoreInput,
}

/// One build sink.
pub struct GenericBuild<E: PhysicalPipedExpr> {
    /// The build-side batches, retained verbatim.
    pub chunks: Vec<Frame>,
    /// The flatly packed key fragments: for `n` join keys, the fragments of
    /// batch `b` occupy positions `[b*n, b*n + n)`.
    pub materialized_join_cols: Vec<Vec<u64>>,
    /// Appended to colliding probe-side output names.
    pub suffix: Vec<u8>,
    /// The hash seed, shared by every sink of one split lineage.
    pub seed: u64,
    /// The partitioned key index.
    pub hash_tables: Vec<Vec<Entry>>,
    /// The build-side join-key expressions.
    pub join_columns_left: Vec<E>,
    /// The probe-side join-key expressions, handed on at finalize.
    pub join_columns_right: Vec<E>,
    /// The requested join kind.
    pub join_type: JoinType,
    /// Whether the physical build side is the user's right side.
    pub swapped: bool,
}

impl<E: PhysicalPipedExpr> GenericBuild<E> {
    pub open spec fn n_keys(self) -> int {
        self.join_columns_left@.len() as int
    }

    pub open spec fn frames(self) -> Seq<FrameV> {
        self.chunks@.map_values(|f: Frame| f@)
    }

    pub open spec fn dom(self) -> Set<ChunkId> {
        frames_dom(self.frames())
    }

    pub open spec fn store(self) -> Seq<Seq<u64>> {
        sv(self.materialized_join_cols@)
    }

    pub open spec fn tables(self) -> Seq<Seq<EntryV>> {
        tv(self.hash_tables@)
    }

    /// The sink invariant: the store holds exactly the key fragments of the
    /// retained batches, the batches agree on their schema, and the index is
    /// exact over exactly the retained rows.
    pub open spec fn wf(self) -> bool {
        &&& self.join_columns_left@.len() == self.join_columns_right@.len()
        &&& self.n_keys() >= 1
        &&& self.hash_tables@.len() >= 1
        &&& self.materialized_join_cols@.len() == self.chunks@.len() * self.n_keys()
        &&& forall|b: int| 0 <= b < self.frames().len() ==> (#[trigger] self.frames()[b]).wf()
        &&& forall|b: int|
            0 <= b < self.frames().len() ==> (#[trigger] self.frames()[b]).names()
                == self.frames()[0].names()
        &&& index_wf(self.tables(), self.store(), self.n_keys(), self.seed, self.dom())
    }

    /// A fresh, empty sink.  The partition count and the hash seed must be
    /// shared with every other sink that will later be combined with this
    /// one; `split` guarantees exactly that.
    pub fn new(
        suffix: Vec<u8>,
        join_type: JoinType,
        swapped: bool,
        join_columns_left: Vec<E>,
        join_columns_right: Vec<E>,
        n_partitions: usize,
        seed: u64,
    ) -> (r: GenericBuild<E>)
        requires
            n_partitions >= 1,
            join_columns_left@.len() == join_columns_right@.len(),
            join_columns_left@.len() >= 1,
        ensures
            r.wf(),
            r.chunks@.len() == 0,
            r.materialized_join_cols@.len() == 0,
            r.suffix == suffix,
            r.seed == seed,
            r.swapped == swapped,
            r.join_type == join_type,
            r.join_columns_left == join_columns_left,
            r.join_columns_right == join_columns_right,
            r.hash_tables@.len() == n_partitions,
    {
        let hash_tables = empty_tables(n_partitions);
        let r = GenericBuild {
            chunks: Vec::new(),
            materialized_join_cols: Vec::new(),
            suffix,
            seed,
            hash_tables,
            join_columns_left,
            join_columns_right,
            join_type,
            swapped,
        };
        proof {
            lemma_empty_sink_wf(r);
        }
        r
    }

    pub fn number_of_keys(&self) -> (r: usize)
        ensures
            r == self.join_columns_left@.len(),
    {
        self.join_columns_left.len()
    }

    /// Evaluates the build-side key expressions against a batch, yielding
    /// one normalized key column per configured key, or the evaluation
    /// failure, with no state touched.
    pub fn set_join_series(&self, chunk: &Frame) -> (r: Result<Vec<Column>, JoinError>)
        requires
            chunk.wf(),
        ensures
            match r {
                Ok(cols) => {
                    &&& cols@.len() == self.join_columns_left@.len()
                    &&& all_eval(self.join_columns_left@, chunk@)
                    &&& forall|j: int|
                        0 <= j < cols@.len() ==> (#[trigger] cols@[j])@
                            == self.join_columns_left@[j].eval_model(chunk@)->Some_0
                    &&& forall|j: int|
                        0 <= j < cols@.len() ==> (#[trigger] cols@[j])@.values.len()
                            == chunk@.height
                },
                Err(_) => !all_eval(self.join_columns_left@, chunk@),
            },
    {
        let mut cols: Vec<Column> = Vec::new();
        let mut j: usize = 0;
        while j < self.join_columns_left.len()
            invariant
                j <= self.join_columns_left@.len(),
                cols@.len() == j,
                chunk.wf(),
                forall|jj: int|
                    0 <= jj < j ==> (#[trigger] self.join_columns_left@[jj].eval_model(chunk@))
                        is Some,
                forall|jj: int|
                    0 <= jj < j ==> (#[trigger] cols@[jj])@
                        == self.join_columns_left@[jj].eval_model(chunk@)->Some_0,
                forall|jj: int|
                    0 <= jj < j ==> (#[trigger] cols@[jj])@.values.len() == chunk@.height,
            decreases self.join_columns_left@.len() - j,
        {
            match self.join_columns_left[j].evaluate(chunk) {
                Ok(c) => {
                    cols.push(c);
                },
                Err(e) => {
                    proof {
                        assert(self.join_columns_left@[j as int].eval_model(chunk@) is None);
                        assert(!all_eval(self.join_columns_left@, chunk@));
                    }
                    return Err(e);
                },
            }
            j += 1;
        }
        Ok(cols)
    }

    /// Reads the key tuple of one retained row back out of the store.
    pub fn get_tuple(&self, chunk_idx: usize, df_idx: usize) -> (r: Vec<u64>)
        requires
            self.n_keys() >= 1,
            loc_in_store(self.store(), self.n_keys(), ChunkId { chunk_idx, df_idx }),
        ensures
            r@ == tuple_of(self.store(), self.n_keys(), ChunkId { chunk_idx, df_idx }),
            r@.len() == self.n_keys(),
    {
        read_tuple(&self.materialized_join_cols, self.join_columns_left.len(), chunk_idx, df_idx)
    }

    /// A fresh, empty sink configured identically: same expressions (by
    /// behaviour), same join kind, same swap flag, same partition count and
    /// the same hash seed, so its hashes are comparable with this sink's.
    pub fn split(&self, _thread_no: usize) -> (r: GenericBuild<E>)
        requires
            self.wf(),
        ensures
            r.wf(),
            r.chunks@.len() == 0,
            r.materialized_join_cols@.len() == 0,
            r.suffix@ == self.suffix@,
            r.seed == self.seed,
            r.swapped == self.swapped,
            r.join_type == self.join_type,
            r.hash_tables@.len() == self.hash_tables@.len(),
            r.join_columns_left@.len() == self.join_columns_left@.len(),
            r.join_columns_right@.len() == self.join_columns_right@.len(),
            forall|j: int, c: FrameV|
                0 <= j < r.join_columns_left@.len() ==> #[trigger] r.join_columns_left@[j].eval_model(
                    c,
                ) == self.join_columns_left@[j].eval_model(c),
            forall|j: int, c: FrameV|
                0 <= j < r.join_columns_right@.len()
                    ==> #[trigger] r.join_columns_right@[j].eval_model(c)
                    == self.join_columns_right@[j].eval_model(c),
    {
        let r = GenericBuild {
            chunks: Vec::new(),
            materialized_join_cols: Vec::new(),
            suffix: copy_vec(&self.suffix),
            seed: self.seed,
            hash_tables: empty_tables(self.hash_tables.len()),
            join_columns_left: duplicate_exprs(&self.join_columns_left),
            join_columns_right: duplicate_exprs(&self.join_columns_right),
            join_type: self.join_type,
            swapped: self.swapped,
        };
        proof {
            lemma_empty_sink_wf(r);
        }
        r
    }

    /// Ingests one batch: evaluates the key expressions against it, appends
    /// the resulting key fragments to the materialized store, computes one
    /// combined hash per row with the shared seed, records every row in its
    /// hash's partition (appending to the entry of a value-equal key found by
    /// hash-then-verify, inserting a fresh entry otherwise), and retains the
    /// batch.  On evaluation failure the error is propagated and no state
    /// changes.
    pub fn sink(&mut self, chunk: Frame) -> (r: Result<SinkResult, JoinError>)
        requires
            old(self).wf(),
            chunk.wf(),
            old(self).chunks@.len() >= 1 ==> chunk@.names() == old(self).frames()[0].names(),
        ensures
            match r {
                Ok(res) => {
                    &&& res == SinkResult::CanHaveMoreInput
                    &&& all_eval(old(self).join_columns_left@, chunk@)
                    &&& final(self).wf()
                    &&& final(self).chunks@ == old(self).chunks@.push(chunk)
                    &&& final(self).store() == old(self).store() + eval_frags(
                        old(self).join_columns_left@,
                        chunk@,
                    )
                    &&& final(self).suffix == old(self).suffix
                    &&& final(self).seed == old(self).seed
                    &&& final(self).swapped == old(self).swapped
                    &&& final(self).join_type == old(self).join_type
                    &&& final(self).join_columns_left == old(self).join_columns_left
                    &&& final(self).join_columns_right == old(self).join_columns_right
                    &&& final(self).hash_tables@.len() == old(self).hash_tables@.len()
                },
                Err(_) => {
                    &&& !all_eval(old(self).join_columns_left@, chunk@)
                    &&& *final(self) == *old(self)
                },
            },
    {
        let cols = match self.set_join_series(&chunk) {
            Ok(c) => c,
            Err(e) => {
                return Err(e);
            },
        };
        let n = self.join_columns_left.len();
        let offset = self.chunks.len();
        let height = chunk.height;
        let ghost store0 = old(self).store();
        let ghost slen0 = old(self).materialized_join_cols@.len() as int;
        let ghost colsv = cols@;
        proof {
            assert(slen0 == offset * n);
        }
        let mut cc = cols;
        let mut j: usize = 0;
        while j < n
            invariant
                j <= n,
                n == old(self).join_columns_left@.len(),
                cc@ == colsv.skip(j as int),
                colsv.len() == n,
                slen0 == old(self).materialized_join_cols@.len() as int,
                self.materialized_join_cols@.len() == slen0 + j,
                forall|f: int|
                    0 <= f < slen0 ==> sv(self.materialized_join_cols@)[f]
                        == sv(old(self).materialized_join_cols@)[f],
                forall|jj: int|
                    0 <= jj < j ==> sv(self.materialized_join_cols@)[slen0 + jj]
                        == (#[trigger] colsv[jj])@.values,
                self.chunks == old(self).chunks,
                self.hash_tables == old(self).hash_tables,
                self.seed == old(self).seed,
                self.suffix == old(self).suffix,
                self.swapped == old(self).swapped,
                self.join_type == old(self).join_type,
                self.join_columns_left == old(self).join_columns_left,
                self.join_columns_right == old(self).join_columns_right,
            decreases n - j,
        {
            let c = cc.remove(0);
            proof {
                assert(c == colsv.skip(j as int)[0]);
                assert(colsv.skip(j as int)[0] == colsv[j as int]);
                assert(colsv.skip(j as int).remove(0) =~= colsv.skip(j + 1));
            }
            self.materialized_join_cols.push(c.values);
            j += 1;
        }
        let ghost store_ext = sv(self.materialized_join_cols@);
        let ghost dom0 = old(self).dom();
        let ghost seedg = old(self).seed;
        proof {
            assert(tv(self.hash_tables@) == old(self).tables());
            assert forall|id: ChunkId| #[trigger] dom0.contains(id) implies loc_in_store(
                store_ext,
                n as int,
                id,
            ) && tuple_of(store_ext, n as int, id) == tuple_of(store0, n as int, id) by {
                assert(loc_in_store(store0, n as int, id));
                lemma_store_extend(store0, store_ext, n as int, id);
            }
            lemma_index_wf_store_extend(
                old(self).tables(),
                store0,
                store_ext,
                n as int,
                seedg,
                dom0,
            );
            assert(dom0.union(prefix_ids(offset as int, 0)) =~= dom0);
        }
        let mut i: usize = 0;
        while i < height
            invariant
                i <= height,
                n == old(self).join_columns_left@.len(),
                n >= 1,
                offset == old(self).chunks@.len(),
                slen0 == offset * n,
                self.materialized_join_cols@.len() == slen0 + n,
                sv(self.materialized_join_cols@) == store_ext,
                forall|jj: int|
                    0 <= jj < n ==> store_ext[slen0 + jj] == (#[trigger] colsv[jj])@.values,
                forall|jj: int| 0 <= jj < n ==> (#[trigger] colsv[jj])@.values.len() == height,
                forall|f: int| 0 <= f < slen0 ==> store_ext[f] == store0[f],
                store0 == old(self).store(),
                all_eval(old(self).join_columns_left@, chunk@),
                forall|jj: int|
                    0 <= jj < n ==> (#[trigger] colsv[jj])@ == old(
                        self,
                    ).join_columns_left@[jj].eval_model(chunk@)->Some_0,
                colsv.len() == n,
                self.chunks == old(self).chunks,
                self.seed == old(self).seed,
                self.suffix == old(self).suffix,
                self.swapped == old(self).swapped,
                self.join_type == old(self).join_type,
                self.join_columns_left == old(self).join_columns_left,
                self.join_columns_right == old(self).join_columns_right,
                self.hash_tables@.len() == old(self).hash_tables@.len(),
                seedg == old(self).seed,
                dom0 == old(self).dom(),
                index_wf(
                    tv(self.hash_tables@),
                    store_ext,
                    n as int,
                    seedg,
                    dom0.union(prefix_ids(offset as int, i as int)),
                ),
            decreases height - i,
        {
            let ghost id = ChunkId { chunk_idx: offset, df_idx: i };
            let ghost domi = dom0.union(prefix_ids(offset as int, i as int));
            proof {
                assert(crate::index::frag_at(store_ext, n as int, offset as int, 0)
                    == store_ext[slen0 + 0]);
                assert forall|jj: int|
                    0 <= jj < n implies (i as int) < crate::index::frag_at(
                    store_ext,
                    n as int,
                    offset as int,
                    jj,
                ).len() by {
                    assert(store_ext[slen0 + jj] == colsv[jj]@.values);
                    assert(colsv[jj]@.values.len() == height);
                    assert(crate::index::frag_at(store_ext, n as int, offset as int, jj)
                        == store_ext[slen0 + jj]);
                }
                assert(loc_in_store(store_ext, n as int, id));
            }
            let row = read_tuple(&self.materialized_join_cols, n, offset, i);
            let h = hash_row(self.seed, &row);
            let mut ids: Vec<ChunkId> = Vec::new();
            ids.push(ChunkId { chunk_idx: offset, df_idx: i });
            proof {
                assert(ids@.len() == 1);
                assert(ids@[0] == id);
                assert(ids@.contains(id));
                assert forall|q: int| 0 <= q < ids@.len() implies !domi.contains(
                    #[trigger] ids@[q],
                ) by {
                    assert(ids@[q] == id);
                    assert(!dom0.contains(id));
                    assert(!prefix_ids(offset as int, i as int).contains(id));
                }
            }
            insert_rows(
                &mut self.hash_tables,
                &self.materialized_join_cols,
                h,
                ids,
                &row,
                Ghost(seedg),
                Ghost(domi),
            );
            proof {
                assert forall|x: ChunkId| #[trigger] idset(seq![id]).contains(x) implies x
                    == id by {
                    let q = choose|q: int| 0 <= q < seq![id].len() && seq![id][q] == x;
                    assert(seq![id][q] == id);
                }
                assert(seq![id][0] == id);
                assert(seq![id].contains(id));
                assert(domi.union(idset(seq![id])) =~= dom0.union(
                    prefix_ids(offset as int, i + 1),
                ));
            }
            i += 1;
        }
        self.chunks.push(chunk);
        proof {
            assert(self.frames() =~= old(self).frames().push(chunk@));
            assert(frames_dom(self.frames()) =~= dom0.union(
                prefix_ids(offset as int, height as int),
            ));
            assert forall|f: int| 0 <= f < slen0 + n implies self.store()[f] == (store0
                + eval_frags(old(self).join_columns_left@, chunk@))[f] by {
                if f < slen0 {
                    assert(store_ext[f] == store0[f]);
                } else {
                    let jj = f - slen0;
                    assert(store_ext[slen0 + jj] == colsv[jj]@.values);
                    assert(colsv[jj]@ == old(self).join_columns_left@[jj].eval_model(
                        chunk@,
                    )->Some_0);
                }
            }
            assert(self.store() =~= store0 + eval_frags(old(self).join_columns_left@, chunk@));
            assert((offset + 1) * n == offset * n + n) by (nonlinear_arith);
            assert forall|b: int| 0 <= b < self.frames().len() implies (
            #[trigger] self.frames()[b]).wf() && self.frames()[b].names()
                == self.frames()[0].names() by {
                if b < offset {
                    assert(self.frames()[b] == old(self).frames()[b]);
                    assert(old(self).frames()[b].wf());
                    assert(old(self).frames()[b].names() == old(self).frames()[0].names());
                    if offset >= 1 {
                        assert(self.frames()[0] == old(self).frames()[0]);
                    }
                } else {
                    assert(self.frames()[b] == chunk@);
                    if offset >= 1 {
                        assert(self.frames()[0] == old(self).frames()[0]);
                        assert(chunk@.names() == old(self).frames()[0].names());
                    }
                }
            }
            assert(self.wf());
        }
        Ok(SinkResult::CanHaveMoreInput)
    }

    /// Merges `other`'s state into this sink.  `other`'s batches are
    /// appended, so every locator coming from it is shifted by the number of
    /// batches already held here; each of `other`'s entries is merged into
    /// the same-indexed partition, extending the entry of a value-equal key
    /// or inserting a fresh one.  `other`'s key hashes are reused, never
    /// recomputed: the two sinks must come from one split lineage, so they
    /// share the seed and the partition count.
    pub fn combine(&mut self, other: GenericBuild<E>)
        requires
            old(self).wf(),
            other.wf(),
            other.seed == old(self).seed,
            other.hash_tables@.len() == old(self).hash_tables@.len(),
            other.join_columns_left@.len() == old(self).join_columns_left@.len(),
            old(self).chunks@.len() >= 1 && other.chunks@.len() >= 1 ==> other.frames()[0].names()
                == old(self).frames()[0].names(),
        ensures
            final(self).wf(),
            final(self).chunks@ == old(self).chunks@ + other.chunks@,
            final(self).store() == old(self).store() + other.store(),
            final(self).suffix == old(self).suffix,
            final(self).seed == old(self).seed,
            final(self).swapped == old(self).swapped,
            final(self).join_type == old(self).join_type,
            final(self).join_columns_left == old(self).join_columns_left,
            final(self).join_columns_right == old(self).join_columns_right,
            final(self).hash_tables@.len() == old(self).hash_tables@.len(),
    {
        let n = self.join_columns_left.len();
        let off = self.chunks.len();
        let ghost sdom = old(self).dom();
        let ghost store0 = old(self).store();
        let ghost slen0 = old(self).materialized_join_cols@.len() as int;
        let ghost oframes = other.frames();
        let ghost odom = other.dom();
        let ghost ostore = other.store();
        let ghost ot0 = other.tables();
        let ghost seedg = old(self).seed;
        let GenericBuild {
            chunks: mut ochunks,
            materialized_join_cols: mut ostore_vec,
            hash_tables: otables,
            ..
        } = other;
        let olen = ochunks.len();
        let ghost och0 = ochunks@;
        let mut b: usize = 0;
        while b < olen
            invariant
                b <= olen,
                olen == och0.len(),
                ochunks@ == och0.skip(b as int),
                self.chunks@ == old(self).chunks@ + och0.take(b as int),
                self.materialized_join_cols == old(self).materialized_join_cols,
                self.hash_tables == old(self).hash_tables,
                self.seed == old(self).seed,
                self.suffix == old(self).suffix,
                self.swapped == old(self).swapped,
                self.join_type == old(self).join_type,
                self.join_columns_left == old(self).join_columns_left,
                self.join_columns_right == old(self).join_columns_right,
            decreases olen - b,
        {
            let c = ochunks.remove(0);
            proof {
                assert(c == och0.skip(b as int)[0]);
                assert(och0.skip(b as int)[0] == och0[b as int]);
                assert(och0.skip(b as int).remove(0) =~= och0.skip(b + 1));
                assert((old(self).chunks@ + och0.take(b as int)).push(och0[b as int]) =~= old(
                    self,
                ).chunks@ + och0.take(b + 1));
            }
            self.chunks.push(c);
            b += 1;
        }
        proof {
            assert(och0.take(olen as int) =~= och0);
        }
        let oslen = ostore_vec.len();
        let ghost osv0 = ostore_vec@;
        let mut g: usize = 0;
        while g < oslen
            invariant
                g <= oslen,
                oslen == osv0.len(),
                ostore_vec@ == osv0.skip(g as int),
                self.materialized_join_cols@ == old(self).materialized_join_cols@ + osv0.take(
                    g as int,
                ),
                self.chunks@ == old(self).chunks@ + och0,
                self.hash_tables == old(self).hash_tables,
                self.seed == old(self).seed,
                self.suffix == old(self).suffix,
                self.swapped == old(self).swapped,
                self.join_type == old(self).join_type,
                self.join_columns_left == old(self).join_columns_left,
                self.join_columns_right == old(self).join_columns_right,
            decreases oslen - g,
        {
            let f = ostore_vec.remove(0);
            proof {
                assert(f == osv0.skip(g as int)[0]);
                assert(osv0.skip(g as int)[0] == osv0[g as int]);
                assert(osv0.skip(g as int).remove(0) =~= osv0.skip(g + 1));
                assert((old(self).materialized_join_cols@ + osv0.take(g as int)).push(
                    osv0[g as int],
                ) =~= old(self).materialized_join_cols@ + osv0.take(g + 1));
            }
            self.materialized_join_cols.push(f);
            g += 1;
        }
        proof {
            assert(osv0.take(oslen as int) =~= osv0);
            assert(self.materialized_join_cols@ =~= old(self).materialized_join_cols@ + osv0);
        }
        let ghost store_ext = sv(self.materialized_join_cols@);
        let total = self.chunks.len();
        proof {
            assert(store_ext.len() == slen0 + ostore.len());
            assert forall|f: int| 0 <= f < slen0 implies store_ext[f] == store0[f] by {
                assert(self.materialized_join_cols@[f] == old(self).materialized_join_cols@[f]);
            }
            assert forall|gg: int|
                0 <= gg < ostore.len() implies store_ext[slen0 + gg] == ostore[gg] by {
                assert(self.materialized_join_cols@[slen0 + gg] == osv0[gg]);
            }
            lemma_index_wf_store_extend(
                old(self).tables(),
                store0,
                store_ext,
                n as int,
                seedg,
                sdom,
            );
            assert(sdom.union(merged_ids(ot0, 0, 0, off as int)) =~= sdom);
            assert forall|id: ChunkId| #[trigger] sdom.contains(id) implies id.chunk_idx < off by {
                assert(id.chunk_idx < old(self).frames().len());
            }
            assert forall|id: ChunkId| #[trigger] odom.contains(id) implies id.chunk_idx
                < olen by {
                assert(id.chunk_idx < oframes.len());
            }
        }
        let nparts = self.hash_tables.len();
        let mut p: usize = 0;
        while p < nparts
            invariant
                p <= nparts,
                combine_loop_inv(
                    *self,
                    *old(self),
                    store0,
                    store_ext,
                    slen0,
                    n as int,
                    off as int,
                    olen as int,
                    seedg,
                    sdom,
                    odom,
                    ostore,
                    ot0,
                    oframes,
                    och0,
                ),
                total == off + olen,
                ot0 == tv(otables@),
                otables@.len() == nparts,
                nparts == self.hash_tables@.len(),
                index_wf(
                    tv(self.hash_tables@),
                    store_ext,
                    n as int,
                    seedg,
                    sdom.union(merged_ids(ot0, p as int, 0, off as int)),
                ),
            decreases nparts - p,
        {
            let part = &otables[p];
            let plen = part.len();
            let mut k: usize = 0;
            while k < plen
                invariant
                    k <= plen,
                    p < nparts,
                    plen == part@.len(),
                    part@ == otables@[p as int]@,
                    combine_loop_inv(
                        *self,
                        *old(self),
                        store0,
                        store_ext,
                        slen0,
                        n as int,
                        off as int,
                        olen as int,
                        seedg,
                        sdom,
                        odom,
                        ostore,
                        ot0,
                        oframes,
                        och0,
                    ),
                    total == off + olen,
                    ot0 == tv(otables@),
                    otables@.len() == nparts,
                    nparts == self.hash_tables@.len(),
                    index_wf(
                        tv(self.hash_tables@),
                        store_ext,
                        n as int,
                        seedg,
                        sdom.union(merged_ids(ot0, p as int, k as int, off as int)),
                    ),
                decreases plen - k,
            {
                let ghost domc = sdom.union(merged_ids(ot0, p as int, k as int, off as int));
                let ghost ev = ot0[p as int][k as int];
                let e = &part[k];
                proof {
                    assert(ev == e@);
                    assert(entry_wf(ev, p as int, nparts as int, ostore, n as int, seedg, odom));
                    assert forall|x: int|
                        0 <= x < ev.rows.len() implies (#[trigger] ev.rows[x]).chunk_idx + off
                        <= total by {
                        assert(odom.contains(ev.rows[x]));
                    }
                }
                let erlen = e.rows.len();
                let mut ids: Vec<ChunkId> = Vec::new();
                let mut q: usize = 0;
                while q < erlen
                    invariant
                        q <= erlen,
                        erlen == ev.rows.len(),
                        ev == e@,
                        off <= total,
                        forall|x: int|
                            0 <= x < ev.rows.len() ==> (#[trigger] ev.rows[x]).chunk_idx + off
                                <= total,
                        ids@.len() == q,
                        forall|x: int|
                            0 <= x < q ==> ids@[x] == shift_id(#[trigger] ev.rows[x], off as int),
                    decreases erlen - q,
                {
                    let id0 = e.rows[q];
                    ids.push(ChunkId { chunk_idx: id0.chunk_idx + off, df_idx: id0.df_idx });
                    q += 1;
                }
                proof {
                    lemma_combine_entry_pre(
                        ot0,
                        ostore,
                        store_ext,
                        slen0,
                        n as int,
                        off as int,
                        olen as int,
                        seedg,
                        sdom,
                        odom,
                        p as int,
                        k as int,
                        nparts as int,
                        ids@,
                    );
                }
                let first = ids[0];
                proof {
                    assert(first == ids@[0]);
                    assert(loc_in_store(store_ext, n as int, ids@[0]));
                    assert((ChunkId { chunk_idx: first.chunk_idx, df_idx: first.df_idx })
                        == first);
                    assert(sv(self.materialized_join_cols@) == store_ext);
                    assert(self.n_keys() == n as int);
                }
                let row = self.get_tuple(first.chunk_idx, first.df_idx);
                let h = e.key.hash;
                proof {
                    assert(row@ == tuple_of(store_ext, n as int, ids@[0]));
                    assert(tuple_of(store_ext, n as int, ids@[0]) == tuple_of(
                        ostore,
                        n as int,
                        ev.rows[0],
                    ));
                    assert(tuple_of(ostore, n as int, ev.rows[0]) == tuple_of(
                        ostore,
                        n as int,
                        ev.key.id(),
                    ));
                    assert(h == hash_tuple(seedg, row@));
                    assert forall|x: int| 0 <= x < ids@.len() implies tuple_of(
                        store_ext,
                        n as int,
                        #[trigger] ids@[x],
                    ) == row@ by {
                        assert(tuple_of(store_ext, n as int, ids@[x]) == tuple_of(
                            ostore,
                            n as int,
                            ev.rows[x],
                        ));
                        assert(tuple_of(ostore, n as int, ev.rows[x]) == tuple_of(
                            ostore,
                            n as int,
                            ev.key.id(),
                        ));
                    }
                }
                let ghost idsv = ids@;
                insert_rows(
                    &mut self.hash_tables,
                    &self.materialized_join_cols,
                    h,
                    ids,
                    &row,
                    Ghost(seedg),
                    Ghost(domc),
                );
                proof {
                    assert forall|x: ChunkId| #[trigger] idset(idsv).contains(x) implies exists|
                        i: int,
                    |
                        0 <= i < ev.rows.len() && x == shift_id(#[trigger] ev.rows[i], off as int) by {
                        let q2 = choose|q2: int| 0 <= q2 < idsv.len() && idsv[q2] == x;
                        assert(idsv[q2] == shift_id(ev.rows[q2], off as int));
                    }
                    assert forall|i: int| 0 <= i < ev.rows.len() implies idset(idsv).contains(
                        shift_id(#[trigger] ev.rows[i], off as int),
                    ) by {
                        assert(idsv[i] == shift_id(ev.rows[i], off as int));
                        assert(idsv.contains(idsv[i]));
                    }
                    assert(domc.union(idset(idsv)) =~= sdom.union(
                        merged_ids(ot0, p as int, k + 1, off as int),
                    ));
                }
                k += 1;
            }
            proof {
                assert(merged_ids(ot0, p as int, plen as int, off as int) =~= merged_ids(
                    ot0,
                    p + 1,
                    0,
                    off as int,
                ));
            }
            p += 1;
        }
        proof {
            assert forall|x: ChunkId|
                merged_ids(ot0, nparts as int, 0, off as int).contains(x) implies shifted_dom(
                odom,
                off as int,
            ).contains(x) by {
                let (pp, kk, i) = choose|pp: int, kk: int, i: int|
                    0 <= pp < ot0.len() && 0 <= kk < ot0[pp].len() && 0 <= i
                        < ot0[pp][kk].rows.len() && (pp < nparts as int || (pp == nparts as int
                        && kk < 0)) && x == shift_id(#[trigger] ot0[pp][kk].rows[i], off as int);
                assert(entry_wf(ot0[pp][kk], pp, nparts as int, ostore, n as int, seedg, odom));
                assert(odom.contains(ot0[pp][kk].rows[i]));
            }
            assert forall|x: ChunkId| shifted_dom(odom, off as int).contains(x) implies merged_ids(
                ot0,
                nparts as int,
                0,
                off as int,
            ).contains(x) by {
                let y = choose|y: ChunkId| #[trigger] odom.contains(y) && x == shift_id(
                    y,
                    off as int,
                );
                assert(crate::index::covered(ot0, ostore, n as int, seedg, y));
                let pid = hash_tuple(seedg, tuple_of(ostore, n as int, y)) as int
                    % ot0.len() as int;
                let (kk, ii) = choose|kk: int, ii: int|
                    0 <= kk < ot0[pid].len() && 0 <= ii < ot0[pid][kk].rows.len()
                        && #[trigger] ot0[pid][kk].rows[ii] == y;
                assert(ot0[pid][kk].rows[ii] == y);
            }
            assert(merged_ids(ot0, nparts as int, 0, off as int) =~= shifted_dom(
                odom,
                off as int,
            ));
            lemma_combine_final_wf(
                *self,
                *old(self),
                store0,
                store_ext,
                slen0,
                n as int,
                off as int,
                olen as int,
                seedg,
                sdom,
                odom,
                ostore,
                ot0,
                oframes,
                och0,
            );
        }
    }

    /// Finalizes the sink into the immutable probe operator, transferring the
    /// retained batches, the store and the index.  Valid only for an inner
    /// join: any other kind fails the operation.  The sink is consumed, so it
    /// can never be ingested into again.
    pub fn finalize(self) -> (r: Result<InnerJoinProbe<E>, JoinError>)
        requires
            self.wf(),
        ensures
            r is Ok <==> self.join_type == JoinType::Inner,
            match r {
                Ok(p) => {
                    &&& p.wf()
                    &&& p.chunks == self.chunks
                    &&& p.materialized_join_cols == self.materialized_join_cols
                    &&& p.hash_tables == self.hash_tables
                    &&& p.suffix == self.suffix
                    &&& p.seed == self.seed
                    &&& p.swapped == self.swapped
                    &&& p.join_columns_right == self.join_columns_right
                },
                Err(e) => e == JoinError::UnsupportedJoin,
            },
    {
        match self.join_type {
            JoinType::Inner => {
                let GenericBuild {
                    chunks,
                    materialized_join_cols,
                    suffix,
                    seed,
                    hash_tables,
                    join_columns_left: _,
                    join_columns_right,
                    join_type: _,
                    swapped,
                } = self;
                let p = InnerJoinProbe {
                    chunks,
                    materialized_join_cols,
                    suffix,
                    seed,
                    hash_tables,
                    join_columns_right,
                    swapped,
                };
                Ok(p)
            },
            _ => Err(JoinError::UnsupportedJoin),
        }
    }
}

/// Reads the key tuple at one locator out of a flatly packed store.
pub fn read_tuple(store: &Vec<Vec<u64>>, n: usize, chunk_idx: usize, df_idx: usize) -> (r: Vec<
    u64,
>)
    requires
        n >= 1,
        loc_in_store(sv(store@), n as int, ChunkId { chunk_idx, df_idx }),
    ensures
        r@ == tuple_of(sv(store@), n as int, ChunkId { chunk_idx, df_idx }),
        r@.len() == n,
{
    let ghost id = ChunkId { chunk_idx, df_idx };
    let ghost store_v = sv(store@);
    let total = store.len();
    proof {
        assert(chunk_idx * (n as int) + n <= store_v.len());
        assert(store_v.len() == store@.len());
    }
    let base = chunk_idx * n;
    let mut r: Vec<u64> = Vec::new();
    let mut j: usize = 0;
    while j < n
        invariant
            j <= n,
            n >= 1,
            base == chunk_idx * n,
            base + n <= total,
            total == store@.len(),
            store_v == sv(store@),
            id == (ChunkId { chunk_idx, df_idx }),
            loc_in_store(store_v, n as int, id),
            r@.len() == j,
            forall|jj: int| 0 <= jj < j ==> r@[jj] == tuple_of(store_v, n as int, id)[jj],
        decreases n - j,
    {
        proof {
            assert(crate::index::frag_at(store_v, n as int, chunk_idx as int, j as int)
                == store_v[base + j]);
            assert(store_v[base + j] == store@[base + j]@);
            assert(df_idx < crate::index::frag_at(
                store_v,
                n as int,
                chunk_idx as int,
                j as int,
            ).len());
        }
        let frag = &store[base + j];
        r.push(frag[df_idx]);
        j += 1;
    }
    proof {
        assert(r@ =~= tuple_of(store_v, n as int, id));
    }
    r
}

/// A locator of `other`, re-addressed after `other`'s batches were appended
/// behind `off` batches already retained here.
pub open spec fn shift_id(id: ChunkId, off: int) -> ChunkId {
    ChunkId { chunk_idx: (id.chunk_idx + off) as usize, df_idx: id.df_idx }
}

/// The shifted locators of every row recorded in the entries that precede
/// entry `k` of partition `p` in merge order.
pub open spec fn merged_ids(ot: Seq<Seq<EntryV>>, p: int, k: int, off: int) -> Set<ChunkId> {
    Set::new(
        |x: ChunkId|
            exists|pp: int, kk: int, i: int|
                0 <= pp < ot.len() && 0 <= kk < ot[pp].len() && 0 <= i < ot[pp][kk].rows.len() && (
                pp < p || (pp == p && kk < k)) && x == shift_id(#[trigger] ot[pp][kk].rows[i], off),
    )
}

/// The shifted image of a whole locator set.
pub open spec fn shifted_dom(dom: Set<ChunkId>, off: int) -> Set<ChunkId> {
    Set::new(|x: ChunkId| exists|y: ChunkId| #[trigger] dom.contains(y) && x == shift_id(y, off))
}

/// A shifted locator addresses, in the concatenated store, exactly the
/// fragments the unshifted locator addressed in `other`'s store, so its key
/// tuple is unchanged.
pub proof fn lemma_shift_tuple(
    store0len: int,
    ostore: Seq<Seq<u64>>,
    store_ext: Seq<Seq<u64>>,
    n: int,
    off: int,
    id: ChunkId,
)
    requires
        n >= 1,
        off >= 0,
        store0len == off * n,
        loc_in_store(ostore, n, id),
        store_ext.len() == store0len + ostore.len(),
        forall|g: int| 0 <= g < ostore.len() ==> store_ext[store0len + g] == ostore[g],
        id.chunk_idx + off <= usize::MAX,
    ensures
        loc_in_store(store_ext, n, shift_id(id, off)),
        tuple_of(store_ext, n, shift_id(id, off)) == tuple_of(ostore, n, id),
{
    let s = shift_id(id, off);
    assert(s.chunk_idx == id.chunk_idx + off);
    assert((id.chunk_idx + off) * n == id.chunk_idx * n + off * n) by (nonlinear_arith);
    assert((id.chunk_idx as int) * n >= 0) by (nonlinear_arith)
        requires
            n >= 1,
            id.chunk_idx >= 0,
    ;
    assert forall|j: int| 0 <= j < n implies crate::index::frag_at(
        store_ext,
        n,
        s.chunk_idx as int,
        j,
    ) == crate::index::frag_at(ostore, n, id.chunk_idx as int, j) && id.df_idx
        < crate::index::frag_at(store_ext, n, s.chunk_idx as int, j).len() by {
        assert(crate::index::frag_at(ostore, n, id.chunk_idx as int, j) == ostore[id.chunk_idx * n
            + j]);
        assert(0 <= id.chunk_idx * n + j < ostore.len());
        assert(s.chunk_idx * n + j == store0len + (id.chunk_idx * n + j));
        assert(store_ext[store0len + (id.chunk_idx * n + j)] == ostore[id.chunk_idx * n + j]);
    }
    assert(tuple_of(store_ext, n, s) =~= tuple_of(ostore, n, id));
}

/// The facts `combine` carries through its merge loops: how the already
/// concatenated batches and store relate to the two operands, and `other`'s
/// own invariant over its snapshot.
pub open spec fn combine_loop_inv<E: PhysicalPipedExpr>(
    cur: GenericBuild<E>,
    orig: GenericBuild<E>,
    store0: Seq<Seq<u64>>,
    store_ext: Seq<Seq<u64>>,
    slen0: int,
    n: int,
    off: int,
    olen: int,
    seed: u64,
    sdom: Set<ChunkId>,
    odom: Set<ChunkId>,
    ostore: Seq<Seq<u64>>,
    ot0: Seq<Seq<EntryV>>,
    oframes: Seq<FrameV>,
    och0: Seq<Frame>,
) -> bool {
    &&& n == orig.join_columns_left@.len()
    &&& n >= 1
    &&& orig.join_columns_left@.len() == orig.join_columns_right@.len()
    &&& off == orig.chunks@.len()
    &&& olen == och0.len()
    &&& slen0 == off * n
    &&& slen0 == store0.len()
    &&& store0 == orig.store()
    &&& sdom == orig.dom()
    &&& store_ext == sv(cur.materialized_join_cols@)
    &&& store_ext.len() == slen0 + ostore.len()
    &&& ostore.len() == olen * n
    &&& forall|f: int| 0 <= f < slen0 ==> store_ext[f] == store0[f]
    &&& forall|g: int| 0 <= g < ostore.len() ==> store_ext[slen0 + g] == ostore[g]
    &&& index_wf(ot0, ostore, n, seed, odom)
    &&& odom == frames_dom(oframes)
    &&& oframes.len() == olen
    &&& oframes == och0.map_values(|f: Frame| f@)
    &&& forall|b: int| 0 <= b < oframes.len() ==> (#[trigger] oframes[b]).wf()
    &&& forall|b: int|
        0 <= b < oframes.len() ==> (#[trigger] oframes[b]).names() == oframes[0].names()
    &&& off >= 1 && olen >= 1 ==> oframes[0].names() == orig.frames()[0].names()
    &&& forall|b: int| 0 <= b < orig.frames().len() ==> (#[trigger] orig.frames()[b]).wf()
    &&& forall|b: int|
        0 <= b < orig.frames().len() ==> (#[trigger] orig.frames()[b]).names()
            == orig.frames()[0].names()
    &&& forall|id: ChunkId| #[trigger] sdom.contains(id) ==> id.chunk_idx < off
    &&& forall|id: ChunkId| #[trigger] odom.contains(id) ==> id.chunk_idx < olen
    &&& cur.chunks@ == orig.chunks@ + och0
    &&& cur.chunks@.len() == off + olen
    &&& cur.seed == seed
    &&& seed == orig.seed
    &&& cur.suffix == orig.suffix
    &&& cur.swapped == orig.swapped
    &&& cur.join_type == orig.join_type
    &&& cur.join_columns_left == orig.join_columns_left
    &&& cur.join_columns_right == orig.join_columns_right
}

/// The shifted locators of one of `other`'s entries meet every demand of
/// `insert_rows`: they address the concatenated store, they all bear the
/// entry's key tuple, they are mutually distinct, and none of them was
/// recorded yet.
pub proof fn lemma_combine_entry_pre(
    ot0: Seq<Seq<EntryV>>,
    ostore: Seq<Seq<u64>>,
    store_ext: Seq<Seq<u64>>,
    slen0: int,
    n: int,
    off: int,
    olen: int,
    seed: u64,
    sdom: Set<ChunkId>,
    odom: Set<ChunkId>,
    p: int,
    k: int,
    nparts: int,
    ids: Seq<ChunkId>,
)
    requires
        index_wf(ot0, ostore, n, seed, odom),
        nparts == ot0.len(),
        0 <= p < nparts,
        0 <= k < ot0[p].len(),
        n >= 1,
        off >= 0,
        slen0 == off * n,
        store_ext.len() == slen0 + ostore.len(),
        forall|g: int| 0 <= g < ostore.len() ==> store_ext[slen0 + g] == ostore[g],
        forall|id: ChunkId| #[trigger] sdom.contains(id) ==> id.chunk_idx < off,
        forall|id: ChunkId| #[trigger] odom.contains(id) ==> id.chunk_idx < olen,
        ids.len() == ot0[p][k].rows.len(),
        forall|x: int|
            0 <= x < ids.len() ==> ids[x] == shift_id(#[trigger] ot0[p][k].rows[x], off),
        forall|x: int|
            0 <= x < ot0[p][k].rows.len() ==> (#[trigger] ot0[p][k].rows[x]).chunk_idx + off
                <= usize::MAX,
        off + olen <= usize::MAX,
    ensures
        ids.len() >= 1,
        forall|x: int| 0 <= x < ids.len() ==> loc_in_store(store_ext, n, #[trigger] ids[x]),
        forall|x: int|
            0 <= x < ids.len() ==> tuple_of(store_ext, n, #[trigger] ids[x]) == tuple_of(
                ostore,
                n,
                ot0[p][k].rows[x],
            ),
        forall|x: int|
            0 <= x < ids.len() ==> !sdom.union(merged_ids(ot0, p, k, off)).contains(
                #[trigger] ids[x],
            ),
        forall|x: int, y: int| 0 <= x < y < ids.len() ==> ids[x] != ids[y],
{
    let e = ot0[p][k];
    assert(entry_wf(e, p, nparts, ostore, n, seed, odom));
    assert forall|x: int| 0 <= x < ids.len() implies loc_in_store(store_ext, n, #[trigger] ids[x])
        && tuple_of(store_ext, n, ids[x]) == tuple_of(ostore, n, e.rows[x]) by {
        assert(odom.contains(e.rows[x]));
        assert(loc_in_store(ostore, n, e.rows[x]));
        lemma_shift_tuple(slen0, ostore, store_ext, n, off, e.rows[x]);
    }
    assert forall|x: int, y: int| 0 <= x < y < ids.len() implies ids[x] != ids[y] by {
        assert(e.rows[x] != e.rows[y]);
        assert(odom.contains(e.rows[x]));
        assert(odom.contains(e.rows[y]));
        assert(ids[x].chunk_idx == e.rows[x].chunk_idx + off);
        assert(ids[y].chunk_idx == e.rows[y].chunk_idx + off);
    }
    assert forall|x: int| 0 <= x < ids.len() implies !sdom.union(merged_ids(ot0, p, k, off))
        .contains(#[trigger] ids[x]) by {
        assert(odom.contains(e.rows[x]));
        assert(ids[x].chunk_idx == e.rows[x].chunk_idx + off);
        if sdom.contains(ids[x]) {
            assert(ids[x].chunk_idx < off);
            assert(false);
        }
        if merged_ids(ot0, p, k, off).contains(ids[x]) {
            let (pp, kk, i) = choose|pp: int, kk: int, i: int|
                0 <= pp < ot0.len() && 0 <= kk < ot0[pp].len() && 0 <= i
                    < ot0[pp][kk].rows.len() && (pp < p || (pp == p && kk < k)) && ids[x]
                    == shift_id(#[trigger] ot0[pp][kk].rows[i], off);
            let e2 = ot0[pp][kk];
            assert(entry_wf(e2, pp, nparts, ostore, n, seed, odom));
            assert(odom.contains(e2.rows[i]));
            assert(e2.rows[i].chunk_idx < olen);
            assert(shift_id(e2.rows[i], off).chunk_idx == e2.rows[i].chunk_idx + off);
            assert(e2.rows[i] == e.rows[x]);
            let y = e.rows[x];
            assert(tuple_of(ostore, n, y) == tuple_of(ostore, n, e.key.id()));
            assert(tuple_of(ostore, n, y) == tuple_of(ostore, n, e2.key.id()));
            assert(e.key.hash == hash_tuple(seed, tuple_of(ostore, n, e.key.id())));
            assert(e2.key.hash == hash_tuple(seed, tuple_of(ostore, n, e2.key.id())));
            assert(e.key.hash == e2.key.hash);
            assert(pp == e2.key.hash as int % nparts);
            assert(p == e.key.hash as int % nparts);
            assert(pp == p);
            assert(kk < k);
            assert(tuple_of(ostore, n, (ot0[p][kk]).key.id()) != tuple_of(
                ostore,
                n,
                (ot0[p][k]).key.id(),
            ));
            assert(false);
        }
    }
}

/// After every entry of `other` was merged, the sink is well-formed again:
/// its batches, store and recorded rows are exactly the concatenation of the
/// two operands'.
pub proof fn lemma_combine_final_wf<E: PhysicalPipedExpr>(
    cur: GenericBuild<E>,
    orig: GenericBuild<E>,
    store0: Seq<Seq<u64>>,
    store_ext: Seq<Seq<u64>>,
    slen0: int,
    n: int,
    off: int,
    olen: int,
    seed: u64,
    sdom: Set<ChunkId>,
    odom: Set<ChunkId>,
    ostore: Seq<Seq<u64>>,
    ot0: Seq<Seq<EntryV>>,
    oframes: Seq<FrameV>,
    och0: Seq<Frame>,
)
    requires
        combine_loop_inv(
            cur,
            orig,
            store0,
            store_ext,
            slen0,
            n,
            off,
            olen,
            seed,
            sdom,
            odom,
            ostore,
            ot0,
            oframes,
            och0,
        ),
        cur.hash_tables@.len() >= 1,
        off + olen <= usize::MAX,
        index_wf(
            tv(cur.hash_tables@),
            store_ext,
            n,
            seed,
            sdom.union(shifted_dom(odom, off)),
        ),
    ensures
        cur.wf(),
        cur.store() == store0 + ostore,
{
    assert(cur.store() =~= store0 + ostore);
    assert(cur.frames() =~= orig.frames() + oframes);
    assert((off + olen) * n == off * n + olen * n) by (nonlinear_arith);
    assert(cur.materialized_join_cols@.len() == cur.chunks@.len() * cur.n_keys());
    assert forall|b: int| 0 <= b < cur.frames().len() implies (#[trigger] cur.frames()[b]).wf()
        && cur.frames()[b].names() == cur.frames()[0].names() by {
        if b < off {
            assert(cur.frames()[b] == orig.frames()[b]);
            assert(cur.frames()[0] == orig.frames()[0]);
        } else {
            assert(cur.frames()[b] == oframes[b - off]);
            assert(oframes[b - off].names() == oframes[0].names());
            if off >= 1 {
                assert(cur.frames()[0] == orig.frames()[0]);
                assert(oframes[0].names() == orig.frames()[0].names());
            } else {
                assert(cur.frames()[0] == oframes[0]);
            }
        }
    }
    assert forall|x: ChunkId| #[trigger] frames_dom(cur.frames()).contains(x) implies sdom.union(
        shifted_dom(odom, off),
    ).contains(x) by {
        if x.chunk_idx < off {
            assert(orig.frames()[x.chunk_idx as int] == cur.frames()[x.chunk_idx as int]);
            assert(sdom.contains(x));
        } else {
            let y = ChunkId { chunk_idx: (x.chunk_idx - off) as usize, df_idx: x.df_idx };
            assert(cur.frames()[x.chunk_idx as int] == oframes[x.chunk_idx - off]);
            assert(odom.contains(y));
            assert(shift_id(y, off) == x);
            assert(shifted_dom(odom, off).contains(x));
        }
    }
    assert forall|x: ChunkId|
        sdom.union(shifted_dom(odom, off)).contains(x) implies #[trigger] frames_dom(
        cur.frames(),
    ).contains(x) by {
        if sdom.contains(x) {
            assert(x.chunk_idx < off);
            assert(cur.frames()[x.chunk_idx as int] == orig.frames()[x.chunk_idx as int]);
        } else {
            let y = choose|y: ChunkId| #[trigger] odom.contains(y) && x == shift_id(y, off);
            assert(y.chunk_idx < olen);
            assert(x.chunk_idx == y.chunk_idx + off);
            assert(cur.frames()[x.chunk_idx as int] == oframes[y.chunk_idx as int]);
        }
    }
    assert(frames_dom(cur.frames()) =~= sdom.union(shifted_dom(odom, off)));
    assert(index_wf(cur.tables(), cur.store(), cur.n_keys(), cur.seed, cur.dom()));
}

/// The locators of the first `upto` rows of batch `chunk`.
pub open spec fn prefix_ids(chunk: int, upto: int) -> Set<ChunkId> {
    Set::new(|id: ChunkId| id.chunk_idx == chunk && (id.df_idx as int) < upto)
}

/// A fresh partition array: one empty table per partition.
pub fn empty_tables(n_partitions: usize) -> (r: Vec<Vec<Entry>>)
    ensures
        r@.len() == n_partitions,
        forall|p: int| 0 <= p < r@.len() ==> (#[trigger] r@[p])@.len() == 0,
{
    let mut r: Vec<Vec<Entry>> = Vec::new();
    let mut i: usize = 0;
    while i < n_partitions
        invariant
            i <= n_partitions,
            r@.len() == i,
            forall|p: int| 0 <= p < i ==> (#[trigger] r@[p])@.len() == 0,
        decreases n_partitions - i,
    {
        r.push(Vec::new());
        i += 1;
    }
    r
}

/// An empty sink with at least one partition and one key is well-formed.
proof fn lemma_empty_sink_wf<E: PhysicalPipedExpr>(s: GenericBuild<E>)
    requires
        s.chunks@.len() == 0,
        s.materialized_join_cols@.len() == 0,
        s.hash_tables@.len() >= 1,
        s.join_columns_left@.len() == s.join_columns_right@.len(),
        s.n_keys() >= 1,
        forall|p: int| 0 <= p < s.hash_tables@.len() ==> (#[trigger] s.hash_tables@[p])@.len() == 0,
    ensures
        s.wf(),
{
    assert forall|id: ChunkId| #[trigger] s.dom().contains(id) implies false by {
        assert(id.chunk_idx < s.frames().len());
    }
    assert(index_wf(s.tables(), s.store(), s.n_keys(), s.seed, s.dom()));
}

} // verus!
