//! The probe operator: the finalized, read-only form of the build sink.  It
//! scans probe-side batches against the built index and emits the joined
//! rows.

use vstd::prelude::*;

use crate::expr::JoinError;
use crate::expr::PhysicalPipedExpr;
use crate::expr::all_eval;
use crate::frame::ColV;
use crate::frame::Column;
use crate::frame::Frame;
use crate::frame::FrameV;
use crate::frame::bytes_eq;
use crate::frame::clone_frames;
use crate::frame::copy_vec;
use crate::frame::find_col;
use crate::hashing::hash_row;
use crate::hashing::hash_to_partition;
use crate::hashing::hash_tuple;
use crate::index::ChunkId;
use crate::index::Entry;
use crate::index::EntryV;
use crate::index::clone_store;
use crate::index::clone_tables;
use crate::index::entry_wf;
use crate::index::find_entry;
use crate::index::frames_dom;
use crate::index::index_wf;
use crate::index::lemma_matches_entry;
use crate::index::lemma_matches_none;
use crate::index::loc_in_store;
use crate::index::matches_of;
use crate::index::sv;
use crate::index::tuple_of;
use crate::index::tv;

verus! {

/// The probe-side key columns an evaluation yields, in key order.
pub open spec fn right_cols<E: PhysicalPipedExpr>(exprs: Seq<E>, c: FrameV) -> Seq<ColV> {
    Seq::new(exprs.len(), |j: int| exprs[j].eval_model(c)->Some_0)
}

/// The key tuple of probe row `i`, read across the evaluated key columns.
pub open spec fn probe_tuple(cols: Seq<ColV>, i: int) -> Seq<u64> {
    Seq::new(cols.len(), |j: int| cols[j].values[i])
}

/// The build-side halves of the joined pairs for the first `upto` probe
/// rows, in scan order: each probe row contributes every build row recorded
/// under its key.
pub open spec fn pairs_left(
    tables: Seq<Seq<EntryV>>,
    store: Seq<Seq<u64>>,
    n: int,
    seed: u64,
    cols: Seq<ColV>,
    upto: int,
) -> Seq<ChunkId>
    decreases upto,
{
    if upto <= 0 {
        Seq::empty()
    } else {
        pairs_left(tables, store, n, seed, cols, upto - 1) + matches_of(
            tables,
            store,
            n,
            seed,
            probe_tuple(cols, upto - 1),
        )
    }
}

/// The probe-side halves of the joined pairs: the probe row index, repeated
/// once per matching build row.
pub open spec fn pairs_right(
    tables: Seq<Seq<EntryV>>,
    store: Seq<Seq<u64>>,
    n: int,
    seed: u64,
    cols: Seq<ColV>,
    upto: int,
) -> Seq<int>
    decreases upto,
{
    if upto <= 0 {
        Seq::empty()
    } else {
        pairs_right(tables, store, n, seed, cols, upto - 1) + Seq::new(
            matches_of(tables, store, n, seed, probe_tuple(cols, upto - 1)).len(),
            |x: int| upto - 1,
        )
    }
}

/// The build-side rows at the given locators, gathered into one frame with
/// the build side's schema.
pub open spec fn gather_build(frames: Seq<FrameV>, ids: Seq<ChunkId>) -> FrameV {
    FrameV {
        cols: Seq::new(
            if frames.len() == 0 {
                0
            } else {
                frames[0].cols.len()
            },
            |c: int|
                ColV {
                    name: frames[0].cols[c].name,
                    values: Seq::new(
                        ids.len(),
                        |x: int|
                            frames[ids[x].chunk_idx as int].cols[c].values[ids[x].df_idx as int],
                    ),
                },
        ),
        height: ids.len() as nat,
    }
}

/// The frame's rows at the given indices, in order, possibly repeated.
pub open spec fn take_rows(f: FrameV, rows: Seq<int>) -> FrameV {
    FrameV {
        cols: f.cols.map_values(
            |c: ColV|
                ColV { name: c.name, values: Seq::new(rows.len(), |x: int| c.values[rows[x]]) },
        ),
        height: rows.len() as nat,
    }
}

/// Whether column `i` is a probe-side join-key column: the first column some
/// key name selects.
pub open spec fn dropped_col(cols: Seq<ColV>, keynames: Seq<Seq<u8>>, i: int) -> bool {
    exists|j: int| 0 <= j < keynames.len() && find_col(cols, #[trigger] keynames[j]) == Some(i)
}

/// The columns that survive the key-column drop, from position `i` on.
pub open spec fn keep_cols(cols: Seq<ColV>, keynames: Seq<Seq<u8>>, i: int) -> Seq<ColV>
    decreases cols.len() - i,
{
    if i < 0 || i >= cols.len() {
        Seq::empty()
    } else if dropped_col(cols, keynames, i) {
        keep_cols(cols, keynames, i + 1)
    } else {
        seq![cols[i]] + keep_cols(cols, keynames, i + 1)
    }
}

/// The probe-side frame with its join-key columns dropped: they are
/// redundant with the build side's key columns in the output.
pub open spec fn drop_key_cols(f: FrameV, keynames: Seq<Seq<u8>>) -> FrameV {
    FrameV { cols: keep_cols(f.cols, keynames, 0), height: f.height }
}

/// Whether some column bears the name.
pub open spec fn has_name(cols: Seq<ColV>, name: Seq<u8>) -> bool {
    exists|i: int| 0 <= i < cols.len() && (#[trigger] cols[i]).name == name
}

/// `b` with the configured suffix appended to each of its column names that
/// collides with one of `a`'s.
pub open spec fn suffixed(a: FrameV, b: FrameV, suffix: Seq<u8>) -> FrameV {
    FrameV {
        cols: b.cols.map_values(
            |c: ColV|
                ColV {
                    name: if has_name(a.cols, c.name) {
                        c.name + suffix
                    } else {
                        c.name
                    },
                    values: c.values,
                },
        ),
        height: b.height,
    }
}

/// Two frames of equal height, side by side.
pub open spec fn hstack(a: FrameV, b: FrameV) -> FrameV {
    FrameV { cols: a.cols + b.cols, height: a.height }
}

/// Row indices as mathematical integers.
pub open spec fn to_ints(s: Seq<usize>) -> Seq<int> {
    s.map_values(|u: usize| u as int)
}

/// The probe side of the join: shares the finalized build-side structures
/// and holds the probe-side key expressions and output configuration.
pub struct InnerJoinProbe<E: PhysicalPipedExpr> {
    /// The retained build-side batches, gathered from during output.
    pub chunks: Vec<Frame>,
    /// The flatly packed build-side key fragments, addressed per batch.
    pub materialized_join_cols: Vec<Vec<u64>>,
    /// Appended to probe-side output names that collide with build-side ones.
    pub suffix: Vec<u8>,
    /// The hash seed shared with the sinks that built the index.
    pub seed: u64,
    /// The partitioned key index over the build side.
    pub hash_tables: Vec<Vec<Entry>>,
    /// The probe-side join-key expressions.
    pub join_columns_right: Vec<E>,
    /// Whether the physical build side is the user's right side, so that the
    /// output column order must be given back swapped.
    pub swapped: bool,
}

impl<E: PhysicalPipedExpr> InnerJoinProbe<E> {
    pub open spec fn n_keys(self) -> int {
        self.join_columns_right@.len() as int
    }

    pub open spec fn frames(self) -> Seq<FrameV> {
        self.chunks@.map_values(|f: Frame| f@)
    }

    pub open spec fn dom(self) -> Set<ChunkId> {
        frames_dom(self.frames())
    }

    pub open spec fn store(self) -> Seq<Seq<u64>> {
        sv(self.materialized_join_cols@)
    }

    pub open spec fn tables(self) -> Seq<Seq<EntryV>> {
        tv(self.hash_tables@)
    }

    pub open spec fn wf(self) -> bool {
        &&& self.n_keys() >= 1
        &&& self.hash_tables@.len() >= 1
        &&& self.materialized_join_cols@.len() == self.chunks@.len() * self.n_keys()
        &&& forall|b: int| 0 <= b < self.frames().len() ==> (#[trigger] self.frames()[b]).wf()
        &&& forall|b: int|
            0 <= b < self.frames().len() ==> (#[trigger] self.frames()[b]).names()
                == self.frames()[0].names()
        &&& index_wf(self.tables(), self.store(), self.n_keys(), self.seed, self.dom())
    }

    /// The build-side rows this operator yields for key tuple `t`.
    pub open spec fn key_matches(self, t: Seq<u64>) -> Seq<ChunkId> {
        matches_of(self.tables(), self.store(), self.n_keys(), self.seed, t)
    }

    pub fn number_of_keys(&self) -> (r: usize)
        ensures
            r == self.join_columns_right@.len(),
    {
        self.join_columns_right.len()
    }

    /// Evaluates the probe-side key expressions against a batch, yielding
    /// one normalized key column per configured key, or the evaluation
    /// failure, with no state touched.
    pub fn set_join_series(&self, chunk: &Frame) -> (r: Result<Vec<Column>, JoinError>)
        requires
            chunk.wf(),
        ensures
            match r {
                Ok(cols) => {
                    &&& cols@.len() == self.join_columns_right@.len()
                    &&& all_eval(self.join_columns_right@, chunk@)
                    &&& forall|j: int|
                        0 <= j < cols@.len() ==> (#[trigger] cols@[j])@
                            == self.join_columns_right@[j].eval_model(chunk@)->Some_0
                    &&& forall|j: int|
                        0 <= j < cols@.len() ==> (#[trigger] cols@[j])@.values.len()
                            == chunk@.height
                },
                Err(_) => !all_eval(self.join_columns_right@, chunk@),
            },
    {
        let mut cols: Vec<Column> = Vec::new();
        let mut j: usize = 0;
        while j < self.join_columns_right.len()
            invariant
                j <= self.join_columns_right@.len(),
                cols@.len() == j,
                chunk.wf(),
                forall|jj: int|
                    0 <= jj < j ==> (#[trigger] self.join_columns_right@[jj].eval_model(chunk@))
                        is Some,
                forall|jj: int|
                    0 <= jj < j ==> (#[trigger] cols@[jj])@
                        == self.join_columns_right@[jj].eval_model(chunk@)->Some_0,
                forall|jj: int|
                    0 <= jj < j ==> (#[trigger] cols@[jj])@.values.len() == chunk@.height,
            decreases self.join_columns_right@.len() - j,
        {
            match self.join_columns_right[j].evaluate(chunk) {
                Ok(c) => {
                    cols.push(c);
                },
                Err(e) => {
                    proof {
                        assert(self.join_columns_right@[j as int].eval_model(chunk@) is None);
                        assert(!all_eval(self.join_columns_right@, chunk@));
                    }
                    return Err(e);
                },
            }
            j += 1;
        }
        Ok(cols)
    }

    /// Probes one batch against the built index and emits exactly one output
    /// batch: every probe row is hashed with the shared seed and looked up by
    /// hash-then-verify equality against the build-side key store; a hit
    /// contributes one joined row per recorded build row, a miss contributes
    /// none.  The build rows and the probe rows (their join-key columns
    /// dropped) are gathered and concatenated per the swap flag, colliding
    /// names suffixed.  On evaluation failure the error is propagated.
    pub fn execute(&mut self, chunk: &Frame) -> (r: Result<Frame, JoinError>)
        requires
            old(self).wf(),
            chunk.wf(),
        ensures
            *final(self) == *old(self),
            r is Ok <==> all_eval(old(self).join_columns_right@, chunk@),
            match r {
                Ok(out) => {
                    &&& out@ == join_output(*old(self), chunk@)
                    &&& out@.wf()
                },
                Err(_) => true,
            },
    {
        let cols = match self.set_join_series(chunk) {
            Ok(c) => c,
            Err(e) => {
                return Err(e);
            },
        };
        let nc = chunk.cols.len();
        let n = self.join_columns_right.len();
        let height = chunk.height;
        let ghost rcols = right_cols(self.join_columns_right@, chunk@);
        let ghost keynames = rcols.map_values(|c: ColV| c.name);
        proof {
            assert forall|j: int| 0 <= j < n implies (#[trigger] cols@[j])@ == rcols[j] by {}
        }
        let mut key_idx: Vec<usize> = Vec::new();
        let mut j: usize = 0;
        while j < n
            invariant
                j <= n,
                n == cols@.len(),
                rcols.len() == n,
                keynames == rcols.map_values(|c: ColV| c.name),
                forall|jj: int| 0 <= jj < n ==> (#[trigger] cols@[jj])@ == rcols[jj],
                forall|u: usize|
                    #[trigger] key_idx@.contains(u) <==> exists|jj: int|
                        0 <= jj < j && find_col(chunk@.cols, #[trigger] keynames[jj]) == Some(
                            u as int,
                        ),
            decreases n - j,
        {
            let ghost k0 = key_idx@;
            let found = chunk.find_idx_by_name(&cols[j].name);
            proof {
                assert(cols@[j as int]@.name == keynames[j as int]);
            }
            match found {
                Some(ix) => {
                    key_idx.push(ix);
                    proof {
                        assert(find_col(chunk@.cols, keynames[j as int]) == Some(ix as int));
                        assert forall|u: usize| #[trigger] key_idx@.contains(u) implies exists|
                            jj: int,
                        |
                            0 <= jj < j + 1 && find_col(chunk@.cols, #[trigger] keynames[jj])
                                == Some(u as int) by {
                            let q = choose|q: int| 0 <= q < key_idx@.len() && key_idx@[q] == u;
                            if q < k0.len() {
                                assert(k0[q] == u);
                                assert(k0.contains(u));
                            } else {
                                assert(u == ix);
                                assert(find_col(chunk@.cols, keynames[j as int]) == Some(
                                    u as int,
                                ));
                            }
                        }
                        assert forall|u: usize|
                            (exists|jj: int|
                                0 <= jj < j + 1 && find_col(chunk@.cols, #[trigger] keynames[jj])
                                    == Some(u as int)) implies #[trigger] key_idx@.contains(
                            u,
                        ) by {
                            let jj = choose|jj: int|
                                0 <= jj < j + 1 && find_col(chunk@.cols, #[trigger] keynames[jj])
                                    == Some(u as int);
                            if jj < j {
                                assert(k0.contains(u));
                                let q = choose|q: int| 0 <= q < k0.len() && k0[q] == u;
                                assert(key_idx@[q] == u);
                            } else {
                                assert(u == ix);
                                assert(key_idx@[key_idx@.len() - 1] == u);
                            }
                        }
                    }
                },
                None => {
                    proof {
                        assert(find_col(chunk@.cols, keynames[j as int]) is None);
                        assert forall|u: usize|
                            (exists|jj: int|
                                0 <= jj < j + 1 && find_col(chunk@.cols, #[trigger] keynames[jj])
                                    == Some(u as int)) implies #[trigger] key_idx@.contains(
                            u,
                        ) by {
                            let jj = choose|jj: int|
                                0 <= jj < j + 1 && find_col(chunk@.cols, #[trigger] keynames[jj])
                                    == Some(u as int);
                            assert(jj < j);
                        }
                    }
                },
            }
            j += 1;
        }
        let ghost tabv = self.tables();
        let ghost storev = self.store();
        let ghost seedg = self.seed;
        let ghost domg = self.dom();
        proof {
            assert forall|jj: int| 0 <= jj < n implies (#[trigger] rcols[jj]).values.len()
                == chunk@.height by {
                assert(cols@[jj]@ == rcols[jj]);
                assert(cols@[jj]@.values.len() == chunk@.height);
            }
        }
        let mut lids: Vec<ChunkId> = Vec::new();
        let mut rids: Vec<usize> = Vec::new();
        let mut i: usize = 0;
        while i < height
            invariant
                i <= height,
                self.wf(),
                tabv == self.tables(),
                storev == self.store(),
                seedg == self.seed,
                domg == self.dom(),
                n == self.join_columns_right@.len(),
                n >= 1,
                n == cols@.len(),
                rcols.len() == n,
                height == chunk@.height,
                chunk.wf(),
                forall|jj: int| 0 <= jj < n ==> (#[trigger] cols@[jj])@ == rcols[jj],
                forall|jj: int| 0 <= jj < n ==> (#[trigger] rcols[jj]).values.len()
                    == chunk@.height,
                lids@ == pairs_left(tabv, storev, n as int, seedg, rcols, i as int),
                to_ints(rids@) == pairs_right(tabv, storev, n as int, seedg, rcols, i as int),
                lids@.len() == rids@.len(),
                forall|x: int| 0 <= x < lids@.len() ==> domg.contains(#[trigger] lids@[x]),
                forall|x: int| 0 <= x < rids@.len() ==> (#[trigger] rids@[x]) < height,
            decreases height - i,
        {
            let mut tuple_buf: Vec<u64> = Vec::new();
            let mut jj: usize = 0;
            while jj < n
                invariant
                    jj <= n,
                    n == cols@.len(),
                    rcols.len() == n,
                    i < height,
                    height == chunk@.height,
                    forall|q: int| 0 <= q < n ==> (#[trigger] cols@[q])@ == rcols[q],
                    forall|q: int| 0 <= q < n ==> (#[trigger] rcols[q]).values.len()
                        == chunk@.height,
                    tuple_buf@.len() == jj,
                    forall|q: int| 0 <= q < jj ==> tuple_buf@[q] == rcols[q].values[i as int],
                decreases n - jj,
            {
                proof {
                    assert(cols@[jj as int]@ == rcols[jj as int]);
                }
                tuple_buf.push(cols[jj].values[i]);
                jj += 1;
            }
            let ghost t = probe_tuple(rcols, i as int);
            proof {
                assert(tuple_buf@ =~= t);
            }
            let h = hash_row(self.seed, &tuple_buf);
            let p = hash_to_partition(h, self.hash_tables.len());
            proof {
                assert forall|k: int|
                    0 <= k < self.hash_tables@[p as int]@.len() implies loc_in_store(
                    sv(self.materialized_join_cols@),
                    tuple_buf@.len() as int,
                    (#[trigger] self.hash_tables@[p as int]@[k]).key.id(),
                ) by {
                    assert(entry_wf(
                        tabv[p as int][k],
                        p as int,
                        tabv.len() as int,
                        storev,
                        n as int,
                        seedg,
                        domg,
                    ));
                    assert(domg.contains(tabv[p as int][k].key.id()));
                }
            }
            let found = find_entry(&self.hash_tables[p], h, &self.materialized_join_cols, &tuple_buf);
            let ghost lpre = lids@;
            let ghost rpre = rids@;
            match found {
                Some(k) => {
                    proof {
                        assert(tuple_of(storev, n as int, tabv[p as int][k as int].key.id())
                            == t);
                        lemma_matches_entry(tabv, storev, n as int, seedg, domg, t, k as int);
                        assert(entry_wf(
                            tabv[p as int][k as int],
                            p as int,
                            tabv.len() as int,
                            storev,
                            n as int,
                            seedg,
                            domg,
                        ));
                    }
                    let part = &self.hash_tables[p];
                    let e = &part[k];
                    let mut q: usize = 0;
                    while q < e.rows.len()
                        invariant
                            q <= e.rows@.len(),
                            i < height,
                            (p as int) < tabv.len(),
                            (k as int) < tabv[p as int].len(),
                            e.rows@ == tabv[p as int][k as int].rows,
                            forall|x: int|
                                0 <= x < e.rows@.len() ==> domg.contains(#[trigger] e.rows@[x]),
                            lids@ == lpre + e.rows@.take(q as int),
                            rids@ == rpre + Seq::new(q as nat, |x: int| i),
                            lids@.len() == rids@.len(),
                            lpre.len() == rpre.len(),
                            forall|x: int|
                                0 <= x < lpre.len() ==> domg.contains(#[trigger] lpre[x]),
                            forall|x: int| 0 <= x < rpre.len() ==> (#[trigger] rpre[x]) < height,
                        decreases e.rows@.len() - q,
                    {
                        lids.push(e.rows[q]);
                        rids.push(i);
                        proof {
                            assert(lpre + e.rows@.take(q + 1) =~= (lpre + e.rows@.take(
                                q as int,
                            )).push(e.rows@[q as int]));
                            assert(rpre + Seq::new((q + 1) as nat, |x: int| i) =~= (rpre
                                + Seq::new(q as nat, |x: int| i)).push(i));
                        }
                        q += 1;
                    }
                    proof {
                        assert(e.rows@.take(e.rows@.len() as int) =~= e.rows@);
                        assert(lids@ == lpre + matches_of(tabv, storev, n as int, seedg, t));
                        assert(lids@ == pairs_left(tabv, storev, n as int, seedg, rcols, i + 1));
                        assert(to_ints(rids@) =~= pairs_right(
                            tabv,
                            storev,
                            n as int,
                            seedg,
                            rcols,
                            i + 1,
                        ));
                        assert forall|x: int| 0 <= x < lids@.len() implies domg.contains(
                            #[trigger] lids@[x],
                        ) by {
                            if x >= lpre.len() {
                                assert(lids@[x] == e.rows@[x - lpre.len()]);
                            }
                        }
                    }
                },
                None => {
                    proof {
                        assert(h == hash_tuple(seedg, t));
                        assert forall|k: int|
                            0 <= k < tabv[hash_tuple(seedg, t) as int % tabv.len() as int].len()
                                implies !((#[trigger] tabv[hash_tuple(seedg, t) as int
                            % tabv.len() as int][k]).key.hash == hash_tuple(seedg, t)
                            && tuple_of(
                            storev,
                            n as int,
                            tabv[hash_tuple(seedg, t) as int % tabv.len() as int][k].key.id(),
                        ) == t) by {
                            assert(p as int == hash_tuple(seedg, t) as int % tabv.len() as int);
                        }
                        lemma_matches_none(tabv, storev, n as int, seedg, domg, t);
                        assert(lids@ =~= pairs_left(tabv, storev, n as int, seedg, rcols, i + 1));
                        assert(to_ints(rids@) =~= pairs_right(
                            tabv,
                            storev,
                            n as int,
                            seedg,
                            rcols,
                            i + 1,
                        ));
                    }
                },
            }
            i += 1;
        }
        proof {
            assert forall|x: int| 0 <= x < lids@.len() implies frames_dom(
                self.chunks@.map_values(|f: Frame| f@),
            ).contains(#[trigger] lids@[x]) by {
                assert(domg.contains(lids@[x]));
            }
            assert forall|b: int| 0 <= b < self.chunks@.len() implies (
            #[trigger] self.chunks@[b])@.wf() && self.chunks@[b]@.names() == self.chunks@.map_values(
                |f: Frame| f@,
            )[0].names() by {
                assert(self.frames()[b] == self.chunks@[b]@);
                assert(self.frames()[b].wf());
                assert(self.frames()[b].names() == self.frames()[0].names());
            }
            assert(chunk@.cols.len() == nc as int);
            assert(keynames.len() == n);
            assert forall|ci: int|
                0 <= ci < chunk@.cols.len() implies (key_idx@.contains(ci as usize)
                <==> dropped_col(chunk@.cols, keynames, ci)) by {
                assert((ci as usize) as int == ci);
                assert(key_idx@.contains(ci as usize) <==> exists|jj: int|
                    0 <= jj < n && find_col(chunk@.cols, #[trigger] keynames[jj]) == Some(
                        (ci as usize) as int,
                    ));
            }
        }
        let left_g = gather_rows(&self.chunks, &lids);
        let right_g = drop_and_take(chunk, &key_idx, &rids, Ghost(keynames));
        proof {
            assert(left_g@.height == lids@.len());
            assert(right_g@.height == rids@.len());
        }
        let out = if self.swapped {
            finish_join(right_g, left_g, &self.suffix)
        } else {
            finish_join(left_g, right_g, &self.suffix)
        };
        proof {
            assert(out@ == join_output(*old(self), chunk@));
        }
        Ok(out)
    }

    /// A clone for one probe thread: it shares (here: copies) the build-side
    /// structures and behaves exactly like its template.
    pub fn split(&self, _thread_no: usize) -> (r: Self)
        ensures
            r.frames() == self.frames(),
            r.store() == self.store(),
            r.tables() == self.tables(),
            r.suffix@ == self.suffix@,
            r.seed == self.seed,
            r.swapped == self.swapped,
            r.join_columns_right@.len() == self.join_columns_right@.len(),
            forall|j: int, c: FrameV|
                0 <= j < r.join_columns_right@.len() ==> #[trigger] r.join_columns_right@[j].eval_model(
                    c,
                ) == self.join_columns_right@[j].eval_model(c),
            self.wf() ==> r.wf(),
{
        let r = InnerJoinProbe {
            chunks: clone_frames(&self.chunks),
            materialized_join_cols: clone_store(&self.materialized_join_cols),
            suffix: copy_vec(&self.suffix),
            seed: self.seed,
            hash_tables: clone_tables(&self.hash_tables),
            join_columns_right: crate::expr::duplicate_exprs(&self.join_columns_right),
            swapped: self.swapped,
        };
        proof {
            assert(r.frames() == self.frames());
            assert(r.store().len() == self.store().len());
            assert(r.materialized_join_cols@.len() == self.materialized_join_cols@.len());
            assert(r.hash_tables@.len() == tv(r.hash_tables@).len());
            assert(self.hash_tables@.len() == tv(self.hash_tables@).len());
        }
        r
    }
}

/// The one output batch a probe-side input batch yields: the gathered build
/// rows beside the gathered probe rows (key columns dropped), in the order
/// the swap flag dictates, with colliding names of the second frame
/// suffixed.
pub open spec fn join_output<E: PhysicalPipedExpr>(probe: InnerJoinProbe<E>, chunk: FrameV) -> FrameV {
    let rcols = right_cols(probe.join_columns_right@, chunk);
    let keynames = rcols.map_values(|c: ColV| c.name);
    let lids = pairs_left(
        probe.tables(),
        probe.store(),
        probe.n_keys(),
        probe.seed,
        rcols,
        chunk.height as int,
    );
    let rids = pairs_right(
        probe.tables(),
        probe.store(),
        probe.n_keys(),
        probe.seed,
        rcols,
        chunk.height as int,
    );
    let left_g = gather_build(probe.frames(), lids);
    let right_g = take_rows(drop_key_cols(chunk, keynames), rids);
    if probe.swapped {
        hstack(right_g, suffixed(right_g, left_g, probe.suffix@))
    } else {
        hstack(left_g, suffixed(left_g, right_g, probe.suffix@))
    }
}

/// Whether a list of column positions holds `x`.
pub fn contains_idx(v: &Vec<usize>, x: usize) -> (r: bool)
    ensures
        r == v@.contains(x),
{
    let mut i: usize = 0;
    while i < v.len()
        invariant
            i <= v@.len(),
            forall|q: int| 0 <= q < i ==> v@[q] != x,
        decreases v@.len() - i,
    {
        if v[i] == x {
            return true;
        }
        i += 1;
    }
    false
}

/// Whether some column bears the name.
pub fn col_names_contain(cols: &Vec<Column>, name: &Vec<u8>) -> (r: bool)
    ensures
        r == has_name(cols@.map_values(|c: Column| c@), name@),
{
    let ghost colsv = cols@.map_values(|c: Column| c@);
    let mut i: usize = 0;
    while i < cols.len()
        invariant
            i <= cols@.len(),
            colsv == cols@.map_values(|c: Column| c@),
            forall|q: int| 0 <= q < i ==> (#[trigger] colsv[q]).name != name@,
        decreases cols@.len() - i,
    {
        if bytes_eq(&cols[i].name, name) {
            assert(colsv[i as int].name == name@);
            return true;
        }
        i += 1;
    }
    false
}

/// A column name with the suffix appended.
pub fn append_suffix(name: &Vec<u8>, suffix: &Vec<u8>) -> (r: Vec<u8>)
    ensures
        r@ == name@ + suffix@,
{
    let mut r = copy_vec(name);
    let mut i: usize = 0;
    while i < suffix.len()
        invariant
            i <= suffix@.len(),
            r@ == name@ + suffix@.take(i as int),
        decreases suffix@.len() - i,
    {
        r.push(suffix[i]);
        proof {
            assert(name@ + suffix@.take(i + 1) =~= (name@ + suffix@.take(i as int)).push(
                suffix@[i as int],
            ));
        }
        i += 1;
    }
    proof {
        assert(suffix@.take(suffix@.len() as int) =~= suffix@);
    }
    r
}

/// Gathers the build-side rows at the recorded locators into one frame.
pub fn gather_rows(chunks: &Vec<Frame>, ids: &Vec<ChunkId>) -> (r: Frame)
    requires
        forall|b: int|
            0 <= b < chunks@.len() ==> (#[trigger] chunks@[b])@.wf(),
        forall|b: int|
            0 <= b < chunks@.len() ==> (#[trigger] chunks@[b])@.names()
                == chunks@.map_values(|f: Frame| f@)[0].names(),
        forall|x: int|
            0 <= x < ids@.len() ==> frames_dom(chunks@.map_values(|f: Frame| f@)).contains(
                #[trigger] ids@[x],
            ),
    ensures
        r@ == gather_build(chunks@.map_values(|f: Frame| f@), ids@),
        r@.wf(),
{
    let ghost frames = chunks@.map_values(|f: Frame| f@);
    let ncols: usize = if chunks.len() == 0 {
        0
    } else {
        chunks[0].cols.len()
    };
    proof {
        assert forall|b: int, c: int|
            0 <= b < frames.len() && 0 <= c < ncols implies (#[trigger] frames[b].cols[c]).values.len()
            == frames[b].height && frames[b].cols.len() == ncols by {
            assert(frames[b].names() == frames[0].names());
            assert(frames[b].names().len() == frames[b].cols.len());
            assert(frames[b].wf());
        }
    }
    let mut cols: Vec<Column> = Vec::new();
    let mut c: usize = 0;
    while c < ncols
        invariant
            c <= ncols,
            frames == chunks@.map_values(|f: Frame| f@),
            chunks@.len() >= 1 ==> ncols == frames[0].cols.len(),
            chunks@.len() == 0 ==> ncols == 0,
            forall|b: int, cc: int|
                0 <= b < frames.len() && 0 <= cc < ncols
                    ==> (#[trigger] frames[b].cols[cc]).values.len() == frames[b].height
                    && frames[b].cols.len() == ncols,
            forall|x: int|
                0 <= x < ids@.len() ==> frames_dom(frames).contains(#[trigger] ids@[x]),
            cols@.len() == c,
            forall|cc: int|
                0 <= cc < c ==> (#[trigger] cols@[cc])@ == gather_build(frames, ids@).cols[cc],
        decreases ncols - c,
    {
        let name = copy_vec(&chunks[0].cols[c].name);
        let mut values: Vec<u64> = Vec::new();
        let mut x: usize = 0;
        while x < ids.len()
            invariant
                x <= ids@.len(),
                c < ncols,
                frames == chunks@.map_values(|f: Frame| f@),
                forall|b: int, cc: int|
                    0 <= b < frames.len() && 0 <= cc < ncols
                        ==> (#[trigger] frames[b].cols[cc]).values.len() == frames[b].height
                        && frames[b].cols.len() == ncols,
                forall|q: int|
                    0 <= q < ids@.len() ==> frames_dom(frames).contains(#[trigger] ids@[q]),
                values@.len() == x,
                forall|q: int|
                    0 <= q < x ==> values@[q] == frames[ids@[q].chunk_idx as int].cols[c as int].values[ids@[q].df_idx as int],
            decreases ids@.len() - x,
        {
            let id = ids[x];
            proof {
                assert(frames_dom(frames).contains(ids@[x as int]));
                assert(frames[id.chunk_idx as int].cols[c as int].values.len() == frames[
                    id.chunk_idx as int].height);
            }
            values.push(chunks[id.chunk_idx].cols[c].values[id.df_idx]);
            x += 1;
        }
        cols.push(Column { name, values });
        proof {
            assert(cols@[c as int]@.values =~= gather_build(frames, ids@).cols[c as int].values);
            assert(cols@[c as int]@ == gather_build(frames, ids@).cols[c as int]);
        }
        c += 1;
    }
    let r = Frame { cols, height: ids.len() };
    proof {
        assert(r@.cols =~= gather_build(frames, ids@).cols);
    }
    r
}

/// Drops the probe-side join-key columns (those a key name selects first)
/// and gathers the remaining columns' cells at the matched row indices.
pub fn drop_and_take(
    chunk: &Frame,
    key_idx: &Vec<usize>,
    rids: &Vec<usize>,
    Ghost(keynames): Ghost<Seq<Seq<u8>>>,
) -> (r: Frame)
    requires
        chunk.wf(),
        forall|ci: int|
            0 <= ci < chunk@.cols.len() ==> (key_idx@.contains(ci as usize) <==> dropped_col(
                chunk@.cols,
                keynames,
                ci,
            )),
        forall|x: int| 0 <= x < rids@.len() ==> (#[trigger] rids@[x]) < chunk@.height,
    ensures
        r@ == take_rows(drop_key_cols(chunk@, keynames), to_ints(rids@)),
        r@.wf(),
{
    let ghost colsv = chunk@.cols;
    let mut out: Vec<Column> = Vec::new();
    let ghost mut kept: Seq<ColV> = Seq::empty();
    let mut ci: usize = 0;
    proof {
        assert(kept + keep_cols(colsv, keynames, 0) =~= keep_cols(colsv, keynames, 0));
    }
    while ci < chunk.cols.len()
        invariant
            ci <= chunk@.cols.len(),
            chunk.wf(),
            colsv == chunk@.cols,
            forall|cc: int|
                0 <= cc < chunk@.cols.len() ==> (key_idx@.contains(cc as usize) <==> dropped_col(
                    colsv,
                    keynames,
                    cc,
                )),
            forall|x: int| 0 <= x < rids@.len() ==> (#[trigger] rids@[x]) < chunk@.height,
            kept + keep_cols(colsv, keynames, ci as int) == keep_cols(colsv, keynames, 0),
            forall|q: int| 0 <= q < kept.len() ==> (#[trigger] kept[q]).values.len()
                == chunk@.height,
            out@.len() == kept.len(),
            forall|q: int|
                0 <= q < out@.len() ==> (#[trigger] out@[q])@ == (ColV {
                    name: kept[q].name,
                    values: Seq::new(rids@.len() as nat, |x: int| kept[q].values[rids@[x] as int]),
                }),
        decreases chunk@.cols.len() - ci,
    {
        let ghost kpre = kept;
        if !contains_idx(key_idx, ci) {
            proof {
                assert(!dropped_col(colsv, keynames, ci as int));
                assert(keep_cols(colsv, keynames, ci as int) == seq![colsv[ci as int]]
                    + keep_cols(colsv, keynames, ci + 1));
            }
            let src = &chunk.cols[ci];
            let name = copy_vec(&src.name);
            let mut values: Vec<u64> = Vec::new();
            let mut x: usize = 0;
            while x < rids.len()
                invariant
                    x <= rids@.len(),
                    ci < chunk@.cols.len(),
                    chunk.wf(),
                    colsv == chunk@.cols,
                    src@ == colsv[ci as int],
                    forall|q: int| 0 <= q < rids@.len() ==> (#[trigger] rids@[q]) < chunk@.height,
                    values@.len() == x,
                    forall|q: int|
                        0 <= q < x ==> values@[q] == colsv[ci as int].values[rids@[q] as int],
                decreases rids@.len() - x,
            {
                proof {
                    assert(rids@[x as int] < chunk@.height);
                    assert(colsv[ci as int].values.len() == chunk@.height);
                    assert(src.values@ == colsv[ci as int].values);
                }
                values.push(src.values[rids[x]]);
                x += 1;
            }
            out.push(Column { name, values });
            proof {
                kept = kpre.push(colsv[ci as int]);
                assert(kpre + (seq![colsv[ci as int]] + keep_cols(colsv, keynames, ci + 1)) =~= kept
                    + keep_cols(colsv, keynames, ci + 1));
                assert(out@[out@.len() - 1]@.values =~= Seq::new(
                    rids@.len() as nat,
                    |x: int| kept[kept.len() - 1].values[rids@[x] as int],
                ));
            }
        } else {
            proof {
                assert(dropped_col(colsv, keynames, ci as int));
                assert(keep_cols(colsv, keynames, ci as int) == keep_cols(
                    colsv,
                    keynames,
                    ci + 1,
                ));
            }
        }
        ci += 1;
    }
    proof {
        assert(keep_cols(colsv, keynames, chunk@.cols.len() as int) =~= Seq::<ColV>::empty());
        assert(kept + Seq::<ColV>::empty() =~= kept);
        assert(kept == keep_cols(colsv, keynames, 0));
    }
    let r = Frame { cols: out, height: rids.len() };
    proof {
        assert forall|q: int| 0 <= q < r@.cols.len() implies r@.cols[q] == take_rows(
            drop_key_cols(chunk@, keynames),
            to_ints(rids@),
        ).cols[q] by {
            assert(r@.cols[q] == out@[q]@);
            assert(take_rows(drop_key_cols(chunk@, keynames), to_ints(rids@)).cols[q].values
                =~= Seq::new(rids@.len() as nat, |x: int| kept[q].values[rids@[x] as int]));
        }
        assert(r@.cols =~= take_rows(drop_key_cols(chunk@, keynames), to_ints(rids@)).cols);
    }
    r
}

/// Concatenates the two gathered frames, appending the suffix to each of
/// `b`'s column names that collides with one of `a`'s.
pub fn finish_join(a: Frame, b: Frame, suffix: &Vec<u8>) -> (r: Frame)
    requires
        a.wf(),
        b.wf(),
        a@.height == b@.height,
    ensures
        r@ == hstack(a@, suffixed(a@, b@, suffix@)),
        r@.wf(),
{
    let ghost av = a@;
    let ghost bv = b@;
    let mut renamed: Vec<Column> = Vec::new();
    let mut i: usize = 0;
    while i < b.cols.len()
        invariant
            i <= b.cols@.len(),
            av == a@,
            bv == b@,
            renamed@.len() == i,
            forall|q: int|
                0 <= q < i ==> (#[trigger] renamed@[q])@ == suffixed(av, bv, suffix@).cols[q],
        decreases b.cols@.len() - i,
    {
        let src = &b.cols[i];
        let name = if col_names_contain(&a.cols, &src.name) {
            proof {
                assert(has_name(av.cols, bv.cols[i as int].name));
            }
            append_suffix(&src.name, suffix)
        } else {
            proof {
                assert(!has_name(av.cols, bv.cols[i as int].name));
            }
            copy_vec(&src.name)
        };
        renamed.push(Column { name, values: copy_vec(&src.values) });
        i += 1;
    }
    let mut out = a;
    let mut k: usize = 0;
    let rlen = renamed.len();
    let mut rv = renamed;
    while k < rlen
        invariant
            k <= rlen,
            rlen == suffixed(av, bv, suffix@).cols.len(),
            rv@.len() == rlen - k,
            forall|q: int|
                0 <= q < rv@.len() ==> (#[trigger] rv@[q])@ == suffixed(av, bv, suffix@).cols[q + k],
            out.cols@.len() == av.cols.len() + k,
            out.height as nat == av.height,
            forall|q: int| 0 <= q < av.cols.len() ==> (#[trigger] out.cols@[q])@ == av.cols[q],
            forall|q: int|
                av.cols.len() <= q < out.cols@.len() ==> (#[trigger] out.cols@[q])@ == suffixed(
                    av,
                    bv,
                    suffix@,
                ).cols[q - av.cols.len()],
        decreases rlen - k,
    {
        let c = rv.remove(0);
        out.cols.push(c);
        k += 1;
    }
    proof {
        assert(out@.cols =~= hstack(av, suffixed(av, bv, suffix@)).cols);
        assert forall|q: int| 0 <= q < out@.cols.len() implies (#[trigger] out@.cols[q]).values.len()
            == out@.height by {
            if q < av.cols.len() {
                assert(av.cols[q].values.len() == av.height);
            } else {
                assert(bv.cols[q - av.cols.len()].values.len() == bv.height);
            }
        }
    }
    out
}

} // verus!
