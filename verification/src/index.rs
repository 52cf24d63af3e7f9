//! The partitioned key index: an array of per-partition entry lists, each
//! entry mapping one deduplicated key (by hash, then verified value equality)
//! to the row locators sharing that key.
//!
//! Entries address key values through the flatly packed materialized store:
//! for `n` join keys, the fragments of batch `b` occupy store positions
//! `[b*n, b*n + n)`, and a locator's key tuple is read by indexing each of
//! those fragments at its row index.

use vstd::prelude::*;

use crate::frame::FrameV;
use crate::hashing::hash_to_partition;
use crate::hashing::hash_tuple;

verus! {

/// The locators of every row the given batches hold.
pub open spec fn frames_dom(frames: Seq<FrameV>) -> Set<ChunkId> {
    Set::new(
        |id: ChunkId|
            id.chunk_idx < frames.len() && (id.df_idx as nat) < frames[id.chunk_idx as int].height,
    )
}

/// A row locator: one row within the retained batches, as (batch, row).
#[derive(Clone, Copy, PartialEq, Eq, Structural, Debug)]
pub struct ChunkId {
    pub chunk_idx: usize,
    pub df_idx: usize,
}

/// A deduplicated key: its combined hash and the locator of one row bearing
/// it, from which the actual key values are re-derived for comparison.
#[derive(Clone, Copy, PartialEq, Eq, Structural, Debug)]
pub struct Key {
    pub hash: u64,
    pub chunk_idx: usize,
    pub df_idx: usize,
}

impl Key {
    pub fn new(hash: u64, chunk_idx: usize, df_idx: usize) -> (k: Key)
        ensures
            k == (Key { hash, chunk_idx, df_idx }),
    {
        Key { hash, chunk_idx, df_idx }
    }

    /// The locator of the row this key was taken from.
    pub open spec fn id(self) -> ChunkId {
        ChunkId { chunk_idx: self.chunk_idx, df_idx: self.df_idx }
    }
}

/// One index entry: a key and the locators of every row sharing its value.
pub struct Entry {
    pub key: Key,
    pub rows: Vec<ChunkId>,
}

/// Mathematical value of an entry.
pub struct EntryV {
    pub key: Key,
    pub rows: Seq<ChunkId>,
}

impl View for Entry {
    type V = EntryV;

    open spec fn view(&self) -> EntryV {
        EntryV { key: self.key, rows: self.rows@ }
    }
}

/// Mathematical value of the materialized store.
pub open spec fn sv(store: Seq<Vec<u64>>) -> Seq<Seq<u64>> {
    store.map_values(|f: Vec<u64>| f@)
}

/// Mathematical value of the partitioned index.
pub open spec fn tv(tables: Seq<Vec<Entry>>) -> Seq<Seq<EntryV>> {
    tables.map_values(|p: Vec<Entry>| p@.map_values(|e: Entry| e@))
}

/// The store fragment holding key position `j` of batch `c`.
pub open spec fn frag_at(store: Seq<Seq<u64>>, n: int, c: int, j: int) -> Seq<u64> {
    store[c * n + j]
}

/// The locator addresses `n` existing fragments, and a row within each.
pub open spec fn loc_in_store(store: Seq<Seq<u64>>, n: int, id: ChunkId) -> bool {
    &&& id.chunk_idx * n + n <= store.len()
    &&& forall|j: int| 0 <= j < n ==> id.df_idx < frag_at(store, n, id.chunk_idx as int, j).len()
}

/// The key tuple of the row a locator addresses.
pub open spec fn tuple_of(store: Seq<Seq<u64>>, n: int, id: ChunkId) -> Seq<u64> {
    Seq::new(n as nat, |j: int| frag_at(store, n, id.chunk_idx as int, j)[id.df_idx as int])
}

/// Every locator of the domain addresses rows the store holds.
pub open spec fn dom_ok(store: Seq<Seq<u64>>, n: int, dom: Set<ChunkId>) -> bool {
    forall|id: ChunkId| #[trigger] dom.contains(id) ==> loc_in_store(store, n, id)
}

/// Well-formedness of one entry sitting in partition `p`.
pub open spec fn entry_wf(
    e: EntryV,
    p: int,
    nparts: int,
    store: Seq<Seq<u64>>,
    n: int,
    seed: u64,
    dom: Set<ChunkId>,
) -> bool {
    &&& dom.contains(e.key.id())
    &&& e.key.hash == hash_tuple(seed, tuple_of(store, n, e.key.id()))
    &&& p == e.key.hash as int % nparts
    &&& e.rows.len() >= 1
    &&& forall|i: int| 0 <= i < e.rows.len() ==> dom.contains(#[trigger] e.rows[i])
    &&& forall|i: int|
        0 <= i < e.rows.len() ==> tuple_of(store, n, #[trigger] e.rows[i]) == tuple_of(
            store,
            n,
            e.key.id(),
        )
    &&& forall|i: int, j: int|
        0 <= i < j < e.rows.len() ==> #[trigger] e.rows[i] != #[trigger] e.rows[j]
}

/// The locator's row is recorded somewhere in its hash's partition.
pub open spec fn covered(
    tables: Seq<Seq<EntryV>>,
    store: Seq<Seq<u64>>,
    n: int,
    seed: u64,
    id: ChunkId,
) -> bool {
    let p = hash_tuple(seed, tuple_of(store, n, id)) as int % tables.len() as int;
    exists|k: int, i: int|
        0 <= k < tables[p].len() && 0 <= i < tables[p][k].rows.len() && #[trigger] tables[p][k].rows[i]
            == id
}

/// The index invariant: every entry is internally consistent and routed to
/// the partition its hash selects, no two entries of a partition share a key
/// tuple, and every row of the domain is recorded.
pub open spec fn index_wf(
    tables: Seq<Seq<EntryV>>,
    store: Seq<Seq<u64>>,
    n: int,
    seed: u64,
    dom: Set<ChunkId>,
) -> bool {
    &&& tables.len() >= 1
    &&& n >= 1
    &&& dom_ok(store, n, dom)
    &&& forall|p: int, k: int|
        0 <= p < tables.len() && 0 <= k < tables[p].len() ==> entry_wf(
            #[trigger] tables[p][k],
            p,
            tables.len() as int,
            store,
            n,
            seed,
            dom,
        )
    &&& forall|p: int, k1: int, k2: int|
        0 <= p < tables.len() && 0 <= k1 < k2 < tables[p].len() ==> tuple_of(
            store,
            n,
            (#[trigger] tables[p][k1]).key.id(),
        ) != tuple_of(store, n, (#[trigger] tables[p][k2]).key.id())
    &&& forall|id: ChunkId| #[trigger] dom.contains(id) ==> covered(tables, store, n, seed, id)
}

/// Whether some entry of a partition bears the key tuple `t`.
pub open spec fn part_has_tuple(
    part: Seq<EntryV>,
    store: Seq<Seq<u64>>,
    n: int,
    t: Seq<u64>,
) -> bool {
    exists|k: int| 0 <= k < part.len() && tuple_of(store, n, (#[trigger] part[k]).key.id()) == t
}

/// The recorded rows of the entry bearing `t` in a partition, or no rows.
pub open spec fn part_entry_rows(
    part: Seq<EntryV>,
    store: Seq<Seq<u64>>,
    n: int,
    t: Seq<u64>,
) -> Seq<ChunkId> {
    if part_has_tuple(part, store, n, t) {
        let k = choose|k: int|
            0 <= k < part.len() && tuple_of(store, n, (#[trigger] part[k]).key.id()) == t;
        part[k].rows
    } else {
        Seq::empty()
    }
}

/// What probing the index with key tuple `t` yields: the locators of the
/// build rows recorded under `t`.
pub open spec fn matches_of(
    tables: Seq<Seq<EntryV>>,
    store: Seq<Seq<u64>>,
    n: int,
    seed: u64,
    t: Seq<u64>,
) -> Seq<ChunkId> {
    part_entry_rows(tables[hash_tuple(seed, t) as int % tables.len() as int], store, n, t)
}

/// The lookup result for `t` is exact: it lists, without duplicates, exactly
/// the rows of the domain whose key tuple equals `t`.
pub open spec fn matches_exact_for(
    tables: Seq<Seq<EntryV>>,
    store: Seq<Seq<u64>>,
    n: int,
    seed: u64,
    dom: Set<ChunkId>,
    t: Seq<u64>,
) -> bool {
    let m = matches_of(tables, store, n, seed, t);
    &&& forall|i: int|
        0 <= i < m.len() ==> dom.contains(#[trigger] m[i]) && tuple_of(store, n, m[i]) == t
    &&& forall|id: ChunkId|
        #[trigger] dom.contains(id) && tuple_of(store, n, id) == t ==> m.contains(id)
    &&& forall|i: int, j: int| 0 <= i < j < m.len() ==> #[trigger] m[i] != #[trigger] m[j]
}

/// On a well-formed index a lookup is exact for every key tuple: rows with
/// equal hash but different key values never surface for one another, rows
/// sharing the key are all found, each exactly once.
pub proof fn lemma_matches_exact(
    tables: Seq<Seq<EntryV>>,
    store: Seq<Seq<u64>>,
    n: int,
    seed: u64,
    dom: Set<ChunkId>,
    t: Seq<u64>,
)
    requires
        index_wf(tables, store, n, seed, dom),
    ensures
        matches_exact_for(tables, store, n, seed, dom, t),
{
    let p = hash_tuple(seed, t) as int % tables.len() as int;
    assert(0 <= p < tables.len());
    let part = tables[p];
    let m = matches_of(tables, store, n, seed, t);
    if part_has_tuple(part, store, n, t) {
        let k = choose|k: int|
            0 <= k < part.len() && tuple_of(store, n, (#[trigger] part[k]).key.id()) == t;
        assert(entry_wf(tables[p][k], p, tables.len() as int, store, n, seed, dom));
        assert(m == part[k].rows);
        assert forall|id: ChunkId|
            #[trigger] dom.contains(id) && tuple_of(store, n, id) == t implies m.contains(id) by {
            assert(covered(tables, store, n, seed, id));
            let (k2, i2) = choose|k2: int, i2: int|
                0 <= k2 < tables[p].len() && 0 <= i2 < tables[p][k2].rows.len()
                    && #[trigger] tables[p][k2].rows[i2] == id;
            assert(entry_wf(tables[p][k2], p, tables.len() as int, store, n, seed, dom));
            assert(tuple_of(store, n, tables[p][k2].key.id()) == t);
            if k2 != k {
                if k2 < k {
                    assert(tuple_of(store, n, (tables[p][k2]).key.id()) != tuple_of(
                        store,
                        n,
                        (tables[p][k]).key.id(),
                    ));
                } else {
                    assert(tuple_of(store, n, (tables[p][k]).key.id()) != tuple_of(
                        store,
                        n,
                        (tables[p][k2]).key.id(),
                    ));
                }
            }
            assert(k2 == k);
            assert(m[i2] == id);
        }
    } else {
        assert(m.len() == 0);
        assert forall|id: ChunkId|
            #[trigger] dom.contains(id) && tuple_of(store, n, id) == t implies m.contains(id) by {
            assert(covered(tables, store, n, seed, id));
            let (k2, i2) = choose|k2: int, i2: int|
                0 <= k2 < tables[p].len() && 0 <= i2 < tables[p][k2].rows.len()
                    && #[trigger] tables[p][k2].rows[i2] == id;
            assert(entry_wf(tables[p][k2], p, tables.len() as int, store, n, seed, dom));
            assert(tuple_of(store, n, (#[trigger] tables[p][k2]).key.id()) == t);
            assert(part_has_tuple(part, store, n, t));
        }
    }
}

/// When partition entry `k` bears tuple `t`, the lookup result for `t` is
/// exactly that entry's recorded rows.
pub proof fn lemma_matches_entry(
    tables: Seq<Seq<EntryV>>,
    store: Seq<Seq<u64>>,
    n: int,
    seed: u64,
    dom: Set<ChunkId>,
    t: Seq<u64>,
    k: int,
)
    requires
        index_wf(tables, store, n, seed, dom),
        0 <= k < tables[hash_tuple(seed, t) as int % tables.len() as int].len(),
        tuple_of(
            store,
            n,
            tables[hash_tuple(seed, t) as int % tables.len() as int][k].key.id(),
        ) == t,
    ensures
        matches_of(tables, store, n, seed, t) == tables[hash_tuple(seed, t) as int
            % tables.len() as int][k].rows,
{
    let p = hash_tuple(seed, t) as int % tables.len() as int;
    let part = tables[p];
    assert(part_has_tuple(part, store, n, t));
    let k2 = choose|k2: int|
        0 <= k2 < part.len() && tuple_of(store, n, (#[trigger] part[k2]).key.id()) == t;
    if k2 != k {
        if k2 < k {
            assert(tuple_of(store, n, (tables[p][k2]).key.id()) != tuple_of(
                store,
                n,
                (tables[p][k]).key.id(),
            ));
        } else {
            assert(tuple_of(store, n, (tables[p][k]).key.id()) != tuple_of(
                store,
                n,
                (tables[p][k2]).key.id(),
            ));
        }
    }
    assert(k2 == k);
}

/// When no entry of the tuple's partition has its hash and its value, the
/// lookup result for that tuple is empty.
pub proof fn lemma_matches_none(
    tables: Seq<Seq<EntryV>>,
    store: Seq<Seq<u64>>,
    n: int,
    seed: u64,
    dom: Set<ChunkId>,
    t: Seq<u64>,
)
    requires
        index_wf(tables, store, n, seed, dom),
        forall|k: int|
            0 <= k < tables[hash_tuple(seed, t) as int % tables.len() as int].len() ==> !((
            #[trigger] tables[hash_tuple(seed, t) as int % tables.len() as int][k]).key.hash
                == hash_tuple(seed, t) && tuple_of(
                store,
                n,
                tables[hash_tuple(seed, t) as int % tables.len() as int][k].key.id(),
            ) == t),
    ensures
        matches_of(tables, store, n, seed, t) == Seq::<ChunkId>::empty(),
{
    let p = hash_tuple(seed, t) as int % tables.len() as int;
    let part = tables[p];
    if part_has_tuple(part, store, n, t) {
        let k = choose|k: int|
            0 <= k < part.len() && tuple_of(store, n, (#[trigger] part[k]).key.id()) == t;
        assert(entry_wf(tables[p][k], p, tables.len() as int, store, n, seed, dom));
        assert(tables[p][k].key.hash == hash_tuple(seed, t));
        assert(false);
    }
}

/// Hash-then-verify comparison of one index key against the key values of
/// the row at hand: the hashes must agree and then every key cell must agree,
/// never the hash alone.
pub fn compare_fn(
    key: &Key,
    h: u64,
    join_columns_all_chunks: &Vec<Vec<u64>>,
    current_row: &Vec<u64>,
) -> (r: bool)
    requires
        current_row@.len() >= 1,
        loc_in_store(sv(join_columns_all_chunks@), current_row@.len() as int, key.id()),
    ensures
        r == (key.hash == h && tuple_of(
            sv(join_columns_all_chunks@),
            current_row@.len() as int,
            key.id(),
        ) == current_row@),
{
    let ghost store = sv(join_columns_all_chunks@);
    let ghost nn = current_row@.len() as int;
    if key.hash != h {
        return false;
    }
    let n = current_row.len();
    let total = join_columns_all_chunks.len();
    proof {
        assert(key.chunk_idx * nn + nn <= store.len());
        assert(store.len() == join_columns_all_chunks@.len());
    }
    let base = key.chunk_idx * n;
    let mut j: usize = 0;
    while j < n
        invariant
            j <= n,
            n == current_row@.len(),
            n >= 1,
            nn == n as int,
            store == sv(join_columns_all_chunks@),
            loc_in_store(store, nn, key.id()),
            base == key.chunk_idx * n,
            base + n <= total,
            store.len() == join_columns_all_chunks@.len(),
            total == store.len(),
            forall|jj: int|
                0 <= jj < j ==> tuple_of(store, nn, key.id())[jj] == current_row@[jj],
        decreases n - j,
    {
        proof {
            assert(frag_at(store, nn, key.chunk_idx as int, j as int) == store[base + j]);
            assert(store[base + j] == join_columns_all_chunks@[base + j]@);
            assert(key.df_idx < frag_at(store, nn, key.chunk_idx as int, j as int).len());
        }
        let frag = &join_columns_all_chunks[base + j];
        let v = frag[key.df_idx];
        proof {
            assert(tuple_of(store, nn, key.id())[j as int] == frag_at(
                store,
                nn,
                key.chunk_idx as int,
                j as int,
            )[key.df_idx as int]);
        }
        if v != current_row[j] {
            proof {
                assert(tuple_of(store, nn, key.id())[j as int] != current_row@[j as int]);
                assert(tuple_of(store, nn, key.id()) != current_row@);
            }
            return false;
        }
        j += 1;
    }
    proof {
        assert(tuple_of(store, nn, key.id()) =~= current_row@);
    }
    true
}

/// Scans one partition for the entry whose key hash is `h` and whose key
/// values equal the row at hand.
pub fn find_entry(part: &Vec<Entry>, h: u64, store: &Vec<Vec<u64>>, row: &Vec<u64>) -> (r: Option<
    usize,
>)
    requires
        row@.len() >= 1,
        forall|k: int|
            0 <= k < part@.len() ==> loc_in_store(
                sv(store@),
                row@.len() as int,
                (#[trigger] part@[k]).key.id(),
            ),
    ensures
        match r {
            Some(k) => {
                &&& (k as int) < part@.len()
                &&& part@[k as int].key.hash == h
                &&& tuple_of(sv(store@), row@.len() as int, part@[k as int].key.id()) == row@
            },
            None => forall|k: int|
                0 <= k < part@.len() ==> !((#[trigger] part@[k]).key.hash == h && tuple_of(
                    sv(store@),
                    row@.len() as int,
                    part@[k].key.id(),
                ) == row@),
        },
{
    let mut k: usize = 0;
    while k < part.len()
        invariant
            k <= part@.len(),
            row@.len() >= 1,
            forall|kk: int|
                0 <= kk < part@.len() ==> loc_in_store(
                    sv(store@),
                    row@.len() as int,
                    (#[trigger] part@[kk]).key.id(),
                ),
            forall|kk: int|
                0 <= kk < k ==> !((#[trigger] part@[kk]).key.hash == h && tuple_of(
                    sv(store@),
                    row@.len() as int,
                    part@[kk].key.id(),
                ) == row@),
        decreases part@.len() - k,
    {
        if compare_fn(&part[k].key, h, store, row) {
            return Some(k);
        }
        k += 1;
    }
    None
}

/// The set of locators a sequence lists.
pub open spec fn idset(ids: Seq<ChunkId>) -> Set<ChunkId> {
    Set::new(|x: ChunkId| ids.contains(x))
}

/// Entry well-formedness only ever asks that locators lie in the domain, so
/// it survives any widening of the domain.
pub proof fn lemma_entry_wf_mono(
    e: EntryV,
    p: int,
    nparts: int,
    store: Seq<Seq<u64>>,
    n: int,
    seed: u64,
    dom: Set<ChunkId>,
    dom2: Set<ChunkId>,
)
    requires
        entry_wf(e, p, nparts, store, n, seed, dom),
        forall|id: ChunkId| #[trigger] dom.contains(id) ==> dom2.contains(id),
    ensures
        entry_wf(e, p, nparts, store, n, seed, dom2),
{
}

/// Records the rows `ids`, all bearing the key tuple `row` whose hash is
/// `h`, under that key: when the key's partition already holds an entry for
/// it (found by hash, then verified value equality), the locators are
/// appended to that entry's list; otherwise a new entry keyed by the first
/// locator is inserted.
pub fn insert_rows(
    tables: &mut Vec<Vec<Entry>>,
    store: &Vec<Vec<u64>>,
    h: u64,
    ids: Vec<ChunkId>,
    row: &Vec<u64>,
    Ghost(seed): Ghost<u64>,
    Ghost(dom): Ghost<Set<ChunkId>>,
)
    requires
        index_wf(tv(old(tables)@), sv(store@), row@.len() as int, seed, dom),
        row@.len() >= 1,
        ids@.len() >= 1,
        h == hash_tuple(seed, row@),
        forall|i: int|
            0 <= i < ids@.len() ==> loc_in_store(sv(store@), row@.len() as int, #[trigger] ids@[i]),
        forall|i: int|
            0 <= i < ids@.len() ==> tuple_of(sv(store@), row@.len() as int, #[trigger] ids@[i])
                == row@,
        forall|i: int| 0 <= i < ids@.len() ==> !dom.contains(#[trigger] ids@[i]),
        forall|i: int, j: int| 0 <= i < j < ids@.len() ==> ids@[i] != ids@[j],
    ensures
        final(tables)@.len() == old(tables)@.len(),
        index_wf(
            tv(final(tables)@),
            sv(store@),
            row@.len() as int,
            seed,
            dom.union(idset(ids@)),
        ),
{
    let ghost n = row@.len() as int;
    let ghost store_v = sv(store@);
    let ghost t0 = tv(old(tables)@);
    let ghost dom2 = dom.union(idset(ids@));
    let ghost idsv = ids@;
    let nparts = tables.len();
    let p = hash_to_partition(h, nparts);
    proof {
        assert forall|k: int| 0 <= k < tables@[p as int]@.len() implies loc_in_store(
            sv(store@),
            row@.len() as int,
            (#[trigger] tables@[p as int]@[k]).key.id(),
        ) by {
            assert(entry_wf(t0[p as int][k], p as int, t0.len() as int, store_v, n, seed, dom));
            assert(t0[p as int][k].key == tables@[p as int]@[k].key);
            assert(dom.contains(tables@[p as int]@[k].key.id()));
        }
    }
    let found = find_entry(&tables[p], h, store, row);
    match found {
        Some(k) => {
            let mut part: Vec<Entry> = tables.remove(p);
            let mut e: Entry = part.remove(k);
            let ghost e0 = e@;
            proof {
                assert(e0 == t0[p as int][k as int]);
                assert(entry_wf(e0, p as int, t0.len() as int, store_v, n, seed, dom));
            }
            let mut q: usize = 0;
            while q < ids.len()
                invariant
                    q <= ids@.len(),
                    ids@ == idsv,
                    e.key == e0.key,
                    e.rows@ == e0.rows + idsv.take(q as int),
                decreases ids@.len() - q,
            {
                e.rows.push(ids[q]);
                proof {
                    assert(e0.rows + idsv.take(q + 1) =~= (e0.rows + idsv.take(q as int)).push(
                        idsv[q as int],
                    ));
                }
                q += 1;
            }
            proof {
                assert(idsv.take(idsv.len() as int) =~= idsv);
                assert(e@.rows == e0.rows + idsv);
            }
            part.insert(k, e);
            tables.insert(p, part);
            proof {
                let tn = tv(tables@);
                let len0 = e0.rows.len() as int;
                assert(tables@ =~= old(tables)@.update(p as int, tables@[p as int]));
                assert(tables@[p as int]@ =~= old(tables)@[p as int]@.update(k as int, e));
                assert(tn.len() == t0.len());
                assert forall|pp: int| 0 <= pp < tn.len() && pp != p as int implies tn[pp] == t0[pp] by {
                    assert(tables@[pp] == old(tables)@[pp]);
                }
                assert(tn[p as int].len() == t0[p as int].len());
                assert forall|kk: int|
                    0 <= kk < tn[p as int].len() && kk != k as int implies tn[p as int][kk]
                    == t0[p as int][kk] by {
                    assert(tables@[p as int]@[kk] == old(tables)@[p as int]@[kk]);
                }
                assert(tn[p as int][k as int].key == e0.key);
                assert(tn[p as int][k as int].rows == e0.rows + idsv);
                lemma_insert_rows_wf_common(
                    t0,
                    tn,
                    store_v,
                    n,
                    seed,
                    dom,
                    idsv,
                    row@,
                    h,
                    p as int,
                    k as int,
                    len0,
                );
            }
        },
        None => {
            let key = Key::new(h, ids[0].chunk_idx, ids[0].df_idx);
            let e = Entry { key, rows: ids };
            let mut part: Vec<Entry> = tables.remove(p);
            let ghost part0 = part@.map_values(|x: Entry| x@);
            part.push(e);
            tables.insert(p, part);
            proof {
                let tn = tv(tables@);
                assert(tables@ =~= old(tables)@.update(p as int, tables@[p as int]));
                assert(tn.len() == t0.len());
                assert forall|pp: int| 0 <= pp < tn.len() && pp != p as int implies tn[pp] == t0[pp] by {
                    assert(tables@[pp] == old(tables)@[pp]);
                }
                assert(part0 =~= t0[p as int]);
                let kk0 = t0[p as int].len() as int;
                assert(tn[p as int].len() == kk0 + 1);
                assert forall|kk: int| 0 <= kk < kk0 implies tn[p as int][kk] == t0[p as int][kk] by {
                    assert(tables@[p as int]@[kk] == old(tables)@[p as int]@[kk]);
                }
                assert(tn[p as int][kk0].key == (Key {
                    hash: h,
                    chunk_idx: idsv[0].chunk_idx,
                    df_idx: idsv[0].df_idx,
                }));
                assert(tn[p as int][kk0].rows == idsv);
                assert(tn[p as int][kk0].key.id() == idsv[0]);
                lemma_insert_rows_wf_new(t0, tn, store_v, n, seed, dom, idsv, row@, h, p as int);
            }
        },
    }
}

/// Fragments are only ever appended, so an existing locator reads the same
/// fragments, hence the same key tuple, out of an extended store.
pub proof fn lemma_store_extend(store0: Seq<Seq<u64>>, store1: Seq<Seq<u64>>, n: int, id: ChunkId)
    requires
        n >= 1,
        loc_in_store(store0, n, id),
        store0.len() <= store1.len(),
        forall|f: int| 0 <= f < store0.len() ==> store1[f] == store0[f],
    ensures
        loc_in_store(store1, n, id),
        tuple_of(store1, n, id) == tuple_of(store0, n, id),
{
    assert((id.chunk_idx as int) * n >= 0) by (nonlinear_arith)
        requires
            n >= 1,
            id.chunk_idx >= 0,
    ;
    assert forall|j: int| 0 <= j < n implies id.df_idx < frag_at(
        store1,
        n,
        id.chunk_idx as int,
        j,
    ).len() && frag_at(store1, n, id.chunk_idx as int, j) == frag_at(
        store0,
        n,
        id.chunk_idx as int,
        j,
    ) by {
        assert(frag_at(store0, n, id.chunk_idx as int, j) == store0[id.chunk_idx * n + j]);
        assert(0 <= id.chunk_idx * n + j < store0.len());
    }
    assert(tuple_of(store1, n, id) =~= tuple_of(store0, n, id));
}

/// Extending the store below new batches leaves a well-formed index
/// well-formed: every recorded locator keeps its fragments and its tuple.
pub proof fn lemma_index_wf_store_extend(
    tables: Seq<Seq<EntryV>>,
    store0: Seq<Seq<u64>>,
    store1: Seq<Seq<u64>>,
    n: int,
    seed: u64,
    dom: Set<ChunkId>,
)
    requires
        index_wf(tables, store0, n, seed, dom),
        store0.len() <= store1.len(),
        forall|f: int| 0 <= f < store0.len() ==> store1[f] == store0[f],
    ensures
        index_wf(tables, store1, n, seed, dom),
        forall|id: ChunkId| #[trigger] dom.contains(id) ==> tuple_of(store1, n, id) == tuple_of(
            store0,
            n,
            id,
        ),
{
    assert forall|id: ChunkId| #[trigger] dom.contains(id) implies loc_in_store(store1, n, id)
        && tuple_of(store1, n, id) == tuple_of(store0, n, id) by {
        assert(loc_in_store(store0, n, id));
        lemma_store_extend(store0, store1, n, id);
    }
    assert forall|p: int, k: int|
        0 <= p < tables.len() && 0 <= k < tables[p].len() implies entry_wf(
        #[trigger] tables[p][k],
        p,
        tables.len() as int,
        store1,
        n,
        seed,
        dom,
    ) by {
        assert(entry_wf(tables[p][k], p, tables.len() as int, store0, n, seed, dom));
        let e = tables[p][k];
        assert(dom.contains(e.key.id()));
        assert forall|i: int| 0 <= i < e.rows.len() implies tuple_of(
            store1,
            n,
            #[trigger] e.rows[i],
        ) == tuple_of(store1, n, e.key.id()) by {
            assert(dom.contains(e.rows[i]));
        }
    }
    assert forall|p: int, k1: int, k2: int|
        0 <= p < tables.len() && 0 <= k1 < k2 < tables[p].len() implies tuple_of(
        store1,
        n,
        (#[trigger] tables[p][k1]).key.id(),
    ) != tuple_of(store1, n, (#[trigger] tables[p][k2]).key.id()) by {
        assert(entry_wf(tables[p][k1], p, tables.len() as int, store0, n, seed, dom));
        assert(entry_wf(tables[p][k2], p, tables.len() as int, store0, n, seed, dom));
        assert(tuple_of(store0, n, (tables[p][k1]).key.id()) != tuple_of(
            store0,
            n,
            (tables[p][k2]).key.id(),
        ));
    }
    assert forall|id: ChunkId| #[trigger] dom.contains(id) implies covered(
        tables,
        store1,
        n,
        seed,
        id,
    ) by {
        assert(covered(tables, store0, n, seed, id));
        let p = hash_tuple(seed, tuple_of(store0, n, id)) as int % tables.len() as int;
        let (kk, ii) = choose|kk: int, ii: int|
            0 <= kk < tables[p].len() && 0 <= ii < tables[p][kk].rows.len()
                && #[trigger] tables[p][kk].rows[ii] == id;
        assert(tuple_of(store1, n, id) == tuple_of(store0, n, id));
        assert(tables[p][kk].rows[ii] == id);
    }
}

/// Copies the materialized store.
pub fn clone_store(v: &Vec<Vec<u64>>) -> (r: Vec<Vec<u64>>)
    ensures
        sv(r@) == sv(v@),
{
    let mut r: Vec<Vec<u64>> = Vec::new();
    let mut i: usize = 0;
    while i < v.len()
        invariant
            i <= v@.len(),
            r@.len() == i,
            forall|j: int| 0 <= j < i ==> (#[trigger] r@[j])@ == v@[j]@,
        decreases v@.len() - i,
    {
        r.push(crate::frame::copy_vec(&v[i]));
        i += 1;
    }
    proof {
        assert(sv(r@) =~= sv(v@));
    }
    r
}

/// Copies one index entry.
pub fn clone_entry(e: &Entry) -> (r: Entry)
    ensures
        r@ == e@,
{
    Entry { key: e.key, rows: crate::frame::copy_vec(&e.rows) }
}

/// Copies the partitioned index.
pub fn clone_tables(v: &Vec<Vec<Entry>>) -> (r: Vec<Vec<Entry>>)
    ensures
        tv(r@) == tv(v@),
{
    let mut r: Vec<Vec<Entry>> = Vec::new();
    let mut i: usize = 0;
    while i < v.len()
        invariant
            i <= v@.len(),
            r@.len() == i,
            forall|j: int|
                0 <= j < i ==> (#[trigger] r@[j])@.map_values(|e: Entry| e@) == v@[j]@.map_values(
                    |e: Entry| e@,
                ),
        decreases v@.len() - i,
    {
        let part = &v[i];
        let mut np: Vec<Entry> = Vec::new();
        let mut k: usize = 0;
        while k < part.len()
            invariant
                k <= part@.len(),
                np@.len() == k,
                forall|j: int| 0 <= j < k ==> (#[trigger] np@[j])@ == part@[j]@,
            decreases part@.len() - k,
        {
            np.push(clone_entry(&part[k]));
            k += 1;
        }
        proof {
            assert(np@.map_values(|e: Entry| e@) =~= part@.map_values(|e: Entry| e@));
        }
        r.push(np);
        i += 1;
    }
    proof {
        assert(tv(r@) =~= tv(v@));
    }
    r
}

/// Appending locators of a fresh key occurrence to its existing entry keeps
/// the index well-formed, with the domain widened by those locators.
proof fn lemma_insert_rows_wf_common(
    t0: Seq<Seq<EntryV>>,
    tn: Seq<Seq<EntryV>>,
    store: Seq<Seq<u64>>,
    n: int,
    seed: u64,
    dom: Set<ChunkId>,
    ids: Seq<ChunkId>,
    row: Seq<u64>,
    h: u64,
    p: int,
    k: int,
    len0: int,
)
    requires
        index_wf(t0, store, n, seed, dom),
        0 <= p < t0.len(),
        0 <= k < t0[p].len(),
        p == h as int % t0.len() as int,
        h == hash_tuple(seed, row),
        t0[p][k].key.hash == h,
        tuple_of(store, n, t0[p][k].key.id()) == row,
        ids.len() >= 1,
        forall|i: int| 0 <= i < ids.len() ==> loc_in_store(store, n, #[trigger] ids[i]),
        forall|i: int| 0 <= i < ids.len() ==> tuple_of(store, n, #[trigger] ids[i]) == row,
        forall|i: int| 0 <= i < ids.len() ==> !dom.contains(#[trigger] ids[i]),
        forall|i: int, j: int| 0 <= i < j < ids.len() ==> ids[i] != ids[j],
        len0 == t0[p][k].rows.len(),
        tn.len() == t0.len(),
        forall|pp: int| 0 <= pp < tn.len() && pp != p ==> tn[pp] == t0[pp],
        tn[p].len() == t0[p].len(),
        forall|kk: int| 0 <= kk < tn[p].len() && kk != k ==> tn[p][kk] == t0[p][kk],
        tn[p][k].key == t0[p][k].key,
        tn[p][k].rows == t0[p][k].rows + ids,
    ensures
        index_wf(tn, store, n, seed, dom.union(idset(ids))),
{
    let dom2 = dom.union(idset(ids));
    assert forall|id: ChunkId| #[trigger] dom2.contains(id) implies loc_in_store(store, n, id) by {
        if !dom.contains(id) {
            assert(ids.contains(id));
            let i = choose|i: int| 0 <= i < ids.len() && ids[i] == id;
            assert(loc_in_store(store, n, ids[i]));
        }
    }
    assert forall|pp: int, kk: int|
        0 <= pp < tn.len() && 0 <= kk < tn[pp].len() implies entry_wf(
        #[trigger] tn[pp][kk],
        pp,
        tn.len() as int,
        store,
        n,
        seed,
        dom2,
    ) by {
        assert(entry_wf(t0[pp][kk], pp, t0.len() as int, store, n, seed, dom));
        if pp != p || kk != k {
            assert(tn[pp][kk] == t0[pp][kk]);
            lemma_entry_wf_mono(t0[pp][kk], pp, t0.len() as int, store, n, seed, dom, dom2);
        } else {
            let e0 = t0[p][k];
            let en = tn[p][k];
            assert(tuple_of(store, n, en.key.id()) == row);
            assert forall|i: int| 0 <= i < en.rows.len() implies dom2.contains(
                #[trigger] en.rows[i],
            ) && tuple_of(store, n, en.rows[i]) == tuple_of(store, n, en.key.id()) by {
                if i < len0 {
                    assert(en.rows[i] == e0.rows[i]);
                    assert(dom.contains(e0.rows[i]));
                    assert(tuple_of(store, n, e0.rows[i]) == tuple_of(store, n, e0.key.id()));
                } else {
                    assert(en.rows[i] == ids[i - len0]);
                    assert(ids.contains(ids[i - len0]));
                    assert(tuple_of(store, n, ids[i - len0]) == row);
                }
            }
            assert forall|i: int, j: int| 0 <= i < j < en.rows.len() implies #[trigger] en.rows[i]
                != #[trigger] en.rows[j] by {
                if j < len0 {
                    assert(en.rows[i] == e0.rows[i]);
                    assert(en.rows[j] == e0.rows[j]);
                } else if i < len0 {
                    assert(en.rows[i] == e0.rows[i]);
                    assert(en.rows[j] == ids[j - len0]);
                    assert(dom.contains(e0.rows[i]));
                    assert(!dom.contains(ids[j - len0]));
                } else {
                    assert(en.rows[i] == ids[i - len0]);
                    assert(en.rows[j] == ids[j - len0]);
                }
            }
            assert(entry_wf(en, pp, tn.len() as int, store, n, seed, dom2));
        }
    }
    assert forall|pp: int, k1: int, k2: int|
        0 <= pp < tn.len() && 0 <= k1 < k2 < tn[pp].len() implies tuple_of(
        store,
        n,
        (#[trigger] tn[pp][k1]).key.id(),
    ) != tuple_of(store, n, (#[trigger] tn[pp][k2]).key.id()) by {
        assert(tn[pp][k1].key == t0[pp][k1].key);
        assert(tn[pp][k2].key == t0[pp][k2].key);
        assert(tuple_of(store, n, (t0[pp][k1]).key.id()) != tuple_of(
            store,
            n,
            (t0[pp][k2]).key.id(),
        ));
    }
    assert forall|id: ChunkId| #[trigger] dom2.contains(id) implies covered(
        tn,
        store,
        n,
        seed,
        id,
    ) by {
        if dom.contains(id) {
            assert(covered(t0, store, n, seed, id));
            let pid = hash_tuple(seed, tuple_of(store, n, id)) as int % t0.len() as int;
            let (kk, ii) = choose|kk: int, ii: int|
                0 <= kk < t0[pid].len() && 0 <= ii < t0[pid][kk].rows.len()
                    && #[trigger] t0[pid][kk].rows[ii] == id;
            if pid == p && kk == k {
                assert(tn[p][k].rows[ii] == t0[p][k].rows[ii]);
            } else {
                assert(tn[pid][kk] == t0[pid][kk]);
            }
            assert(tn[pid][kk].rows[ii] == id);
        } else {
            assert(ids.contains(id));
            let i = choose|i: int| 0 <= i < ids.len() && ids[i] == id;
            assert(tuple_of(store, n, id) == row);
            assert(tn[p][k].rows[len0 + i] == ids[i]);
        }
    }
}

/// Inserting a new entry for a key the partition did not yet hold keeps the
/// index well-formed, with the domain widened by the entry's locators.
proof fn lemma_insert_rows_wf_new(
    t0: Seq<Seq<EntryV>>,
    tn: Seq<Seq<EntryV>>,
    store: Seq<Seq<u64>>,
    n: int,
    seed: u64,
    dom: Set<ChunkId>,
    ids: Seq<ChunkId>,
    row: Seq<u64>,
    h: u64,
    p: int,
)
    requires
        index_wf(t0, store, n, seed, dom),
        0 <= p < t0.len(),
        p == h as int % t0.len() as int,
        h == hash_tuple(seed, row),
        forall|kk: int|
            0 <= kk < t0[p].len() ==> !((#[trigger] t0[p][kk]).key.hash == h && tuple_of(
                store,
                n,
                t0[p][kk].key.id(),
            ) == row),
        ids.len() >= 1,
        forall|i: int| 0 <= i < ids.len() ==> loc_in_store(store, n, #[trigger] ids[i]),
        forall|i: int| 0 <= i < ids.len() ==> tuple_of(store, n, #[trigger] ids[i]) == row,
        forall|i: int| 0 <= i < ids.len() ==> !dom.contains(#[trigger] ids[i]),
        forall|i: int, j: int| 0 <= i < j < ids.len() ==> ids[i] != ids[j],
        tn.len() == t0.len(),
        forall|pp: int| 0 <= pp < tn.len() && pp != p ==> tn[pp] == t0[pp],
        tn[p].len() == t0[p].len() + 1,
        forall|kk: int| 0 <= kk < t0[p].len() ==> tn[p][kk] == t0[p][kk],
        tn[p][t0[p].len() as int].key.hash == h,
        tn[p][t0[p].len() as int].key.id() == ids[0],
        tn[p][t0[p].len() as int].rows == ids,
    ensures
        index_wf(tn, store, n, seed, dom.union(idset(ids))),
{
    let dom2 = dom.union(idset(ids));
    let kk0 = t0[p].len() as int;
    assert forall|id: ChunkId| #[trigger] dom2.contains(id) implies loc_in_store(store, n, id) by {
        if !dom.contains(id) {
            assert(ids.contains(id));
            let i = choose|i: int| 0 <= i < ids.len() && ids[i] == id;
            assert(loc_in_store(store, n, ids[i]));
        }
    }
    assert(ids.contains(ids[0]));
    assert(tuple_of(store, n, tn[p][kk0].key.id()) == row);
    assert forall|pp: int, kk: int|
        0 <= pp < tn.len() && 0 <= kk < tn[pp].len() implies entry_wf(
        #[trigger] tn[pp][kk],
        pp,
        tn.len() as int,
        store,
        n,
        seed,
        dom2,
    ) by {
        if pp != p || kk < kk0 {
            assert(tn[pp][kk] == t0[pp][kk]);
            assert(entry_wf(t0[pp][kk], pp, t0.len() as int, store, n, seed, dom));
            lemma_entry_wf_mono(t0[pp][kk], pp, t0.len() as int, store, n, seed, dom, dom2);
        } else {
            let en = tn[p][kk0];
            assert forall|i: int| 0 <= i < en.rows.len() implies dom2.contains(
                #[trigger] en.rows[i],
            ) && tuple_of(store, n, en.rows[i]) == tuple_of(store, n, en.key.id()) by {
                assert(en.rows[i] == ids[i]);
                assert(ids.contains(ids[i]));
                assert(tuple_of(store, n, ids[i]) == row);
            }
            assert(entry_wf(en, pp, tn.len() as int, store, n, seed, dom2));
        }
    }
    assert forall|pp: int, k1: int, k2: int|
        0 <= pp < tn.len() && 0 <= k1 < k2 < tn[pp].len() implies tuple_of(
        store,
        n,
        (#[trigger] tn[pp][k1]).key.id(),
    ) != tuple_of(store, n, (#[trigger] tn[pp][k2]).key.id()) by {
        if pp == p && k2 == kk0 {
            assert(tn[pp][k1] == t0[pp][k1]);
            assert(entry_wf(t0[p][k1], p, t0.len() as int, store, n, seed, dom));
            if tuple_of(store, n, t0[p][k1].key.id()) == row {
                assert(t0[p][k1].key.hash == hash_tuple(seed, row));
                assert(false);
            }
            assert(tuple_of(store, n, tn[pp][k2].key.id()) == row);
        } else {
            assert(tn[pp][k1] == t0[pp][k1]);
            assert(tn[pp][k2] == t0[pp][k2]);
            assert(tuple_of(store, n, (t0[pp][k1]).key.id()) != tuple_of(
                store,
                n,
                (t0[pp][k2]).key.id(),
            ));
        }
    }
    assert forall|id: ChunkId| #[trigger] dom2.contains(id) implies covered(
        tn,
        store,
        n,
        seed,
        id,
    ) by {
        if dom.contains(id) {
            assert(covered(t0, store, n, seed, id));
            let pid = hash_tuple(seed, tuple_of(store, n, id)) as int % t0.len() as int;
            let (kk, ii) = choose|kk: int, ii: int|
                0 <= kk < t0[pid].len() && 0 <= ii < t0[pid][kk].rows.len()
                    && #[trigger] t0[pid][kk].rows[ii] == id;
            assert(tn[pid][kk] == t0[pid][kk]);
            assert(tn[pid][kk].rows[ii] == id);
        } else {
            assert(ids.contains(id));
            let i = choose|i: int| 0 <= i < ids.len() && ids[i] == id;
            assert(tuple_of(store, n, id) == row);
            assert(tn[p][kk0].rows[i] == ids[i]);
        }
    }
}

} // verus!
