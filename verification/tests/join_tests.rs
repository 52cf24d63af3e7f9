use inner_join::Column;
use inner_join::Frame;
use inner_join::GenericBuild;
use inner_join::InnerJoinProbe;
use inner_join::JoinError;
use inner_join::JoinType;
use inner_join::NamedColumnExpr;

const SEED: u64 = 0x9e3779b97f4a7c15;
const PARTITIONS: usize = 4;

fn frame(names: &[&[u8]], rows: &[&[u64]]) -> Frame {
    let mut cols = Vec::new();
    for c in 0..names.len() {
        let mut values = Vec::new();
        for r in rows {
            values.push(r[c]);
        }
        cols.push(Column { name: names[c].to_vec(), values });
    }
    Frame { cols, height: rows.len() }
}

fn exprs(names: &[&[u8]]) -> Vec<NamedColumnExpr> {
    names.iter().map(|n| NamedColumnExpr { name: n.to_vec() }).collect()
}

fn build_sink(keys: &[&[u8]], swapped: bool) -> GenericBuild<NamedColumnExpr> {
    GenericBuild::new(
        b"_right".to_vec(),
        JoinType::Inner,
        swapped,
        exprs(keys),
        exprs(keys),
        PARTITIONS,
        SEED,
    )
}

fn rows_of(f: &Frame) -> Vec<Vec<u64>> {
    let mut out = Vec::new();
    for i in 0..f.height {
        out.push(f.cols.iter().map(|c| c.values[i]).collect());
    }
    out
}

fn names_of(f: &Frame) -> Vec<Vec<u8>> {
    f.cols.iter().map(|c| c.name.clone()).collect()
}

/// Each output row as (column name, value) pairs sorted by name, so results
/// can be compared modulo column order.
fn named_rows(f: &Frame) -> Vec<Vec<(Vec<u8>, u64)>> {
    let mut out = Vec::new();
    for i in 0..f.height {
        let mut row: Vec<(Vec<u8>, u64)> =
            f.cols.iter().map(|c| (c.name.clone(), c.values[i])).collect();
        row.sort();
        out.push(row);
    }
    out.sort();
    out
}

fn join_once(
    build: &[Frame],
    probe_batch: &Frame,
    keys: &[&[u8]],
    swapped: bool,
) -> Frame {
    let mut sink = build_sink(keys, swapped);
    for b in build {
        sink.sink(clone_frame(b)).unwrap();
    }
    let mut probe = sink.finalize().unwrap();
    probe.execute(probe_batch).unwrap()
}

fn clone_frame(f: &Frame) -> Frame {
    Frame {
        cols: f
            .cols
            .iter()
            .map(|c| Column { name: c.name.clone(), values: c.values.clone() })
            .collect(),
        height: f.height,
    }
}

#[test]
fn end_to_end_example() {
    // build side: [{id:1,x:'a'}, {id:1,x:'b'}, {id:2,x:'c'}]
    let build = frame(&[b"id", b"x"], &[&[1, 97], &[1, 98], &[2, 99]]);
    // probe side: [{id:1,y:10}, {id:3,y:99}]
    let probe = frame(&[b"id", b"y"], &[&[1, 10], &[3, 99]]);
    let out = join_once(&[build], &probe, &[b"id"], false);
    assert_eq!(names_of(&out), vec![b"id".to_vec(), b"x".to_vec(), b"y".to_vec()]);
    let mut rows = rows_of(&out);
    rows.sort();
    assert_eq!(rows, vec![vec![1, 97, 10], vec![1, 98, 10]]);
}

#[test]
fn hash_collision_keeps_keys_apart() {
    // With the rotate-and-xor row hash, the two-key tuples (1, 0) and
    // (0, 128) collide: rot7(1) == 128, so both rows hash identically while
    // their key values differ.
    let build = frame(&[b"a", b"b", b"tag"], &[&[1, 0, 111], &[0, 128, 222]]);
    let probe = frame(&[b"a", b"b", b"p"], &[&[1, 0, 5]]);
    let out = join_once(&[build], &probe, &[b"a", b"b"], false);
    // only the genuinely equal row joins, never its hash twin
    assert_eq!(rows_of(&out), vec![vec![1, 0, 111, 5]]);

    let build2 = frame(&[b"a", b"b", b"tag"], &[&[1, 0, 111], &[0, 128, 222]]);
    let probe2 = frame(&[b"a", b"b", b"p"], &[&[0, 128, 6]]);
    let out2 = join_once(&[build2], &probe2, &[b"a", b"b"], false);
    assert_eq!(rows_of(&out2), vec![vec![0, 128, 222, 6]]);
}

#[test]
fn fan_out_multiplicity() {
    // three build rows share key 7: one probe row with key 7 yields exactly
    // three joined rows, one per distinct build row
    let build = frame(&[b"k", b"v"], &[&[7, 1], &[7, 2], &[7, 3], &[8, 4]]);
    let probe = frame(&[b"k", b"p"], &[&[7, 50]]);
    let out = join_once(&[build], &probe, &[b"k"], false);
    let mut rows = rows_of(&out);
    rows.sort();
    assert_eq!(rows, vec![vec![7, 1, 50], vec![7, 2, 50], vec![7, 3, 50]]);
}

#[test]
fn no_match_rows_excluded() {
    let build = frame(&[b"k", b"v"], &[&[1, 10], &[2, 20]]);
    let probe = frame(&[b"k", b"p"], &[&[3, 30], &[4, 40]]);
    let out = join_once(&[build], &probe, &[b"k"], false);
    assert_eq!(out.height, 0);
    assert_eq!(rows_of(&out), Vec::<Vec<u64>>::new());
}

#[test]
fn empty_probe_batch_yields_empty_output() {
    let build = frame(&[b"k", b"v"], &[&[1, 10]]);
    let probe = frame(&[b"k", b"p"], &[]);
    let out = join_once(&[build], &probe, &[b"k"], false);
    assert_eq!(out.height, 0);
    assert_eq!(names_of(&out), vec![b"k".to_vec(), b"v".to_vec(), b"p".to_vec()]);
}

#[test]
fn split_combine_equivalence() {
    let b1 = frame(&[b"id", b"v"], &[&[1, 10]]);
    let b2 = frame(&[b"id", b"v"], &[&[1, 20], &[2, 30]]);
    let b3 = frame(&[b"id", b"v"], &[&[3, 40]]);
    let probe = frame(&[b"id", b"p"], &[&[1, 7], &[2, 8], &[9, 9]]);

    // one sink, fed sequentially
    let sequential = join_once(
        &[clone_frame(&b1), clone_frame(&b2), clone_frame(&b3)],
        &probe,
        &[b"id"],
        false,
    );

    // two split sinks fed disjoint parts, combined back into one
    let base = build_sink(&[b"id"], false);
    let mut s0 = base.split(0);
    let mut s1 = base.split(1);
    s0.sink(b1).unwrap();
    s1.sink(b2).unwrap();
    s1.sink(b3).unwrap();
    s0.combine(s1);
    let mut p = s0.finalize().unwrap();
    let combined = p.execute(&probe).unwrap();

    assert_eq!(named_rows(&sequential), named_rows(&combined));
    // with an in-order partitioning the outputs agree row for row
    assert_eq!(rows_of(&sequential), rows_of(&combined));
}

#[test]
fn combine_merges_shared_keys_across_sinks() {
    // the same key fed to two different sinks must end up in one entry
    let b1 = frame(&[b"id", b"v"], &[&[5, 100]]);
    let b2 = frame(&[b"id", b"v"], &[&[5, 200]]);
    let probe = frame(&[b"id", b"p"], &[&[5, 1]]);
    let base = build_sink(&[b"id"], false);
    let mut s0 = base.split(0);
    let mut s1 = base.split(1);
    s0.sink(b1).unwrap();
    s1.sink(b2).unwrap();
    s0.combine(s1);
    let mut p = s0.finalize().unwrap();
    let out = p.execute(&probe).unwrap();
    let mut rows = rows_of(&out);
    rows.sort();
    assert_eq!(rows, vec![vec![5, 100, 1], vec![5, 200, 1]]);
}

#[test]
fn multi_key_combine() {
    // combining sinks must compare the full key tuple, not a truncated one:
    // rows agreeing on the first key but not the second stay apart
    let b1 = frame(&[b"k1", b"k2", b"v"], &[&[1, 1, 10], &[1, 2, 20]]);
    let b2 = frame(&[b"k1", b"k2", b"v"], &[&[1, 1, 30], &[2, 1, 40]]);
    let probe = frame(&[b"k1", b"k2", b"p"], &[&[1, 1, 5], &[1, 2, 6]]);
    let base = build_sink(&[b"k1", b"k2"], false);
    let mut s0 = base.split(0);
    let mut s1 = base.split(1);
    s0.sink(b1).unwrap();
    s1.sink(b2).unwrap();
    s0.combine(s1);
    let mut p = s0.finalize().unwrap();
    let out = p.execute(&probe).unwrap();
    let mut rows = rows_of(&out);
    rows.sort();
    assert_eq!(
        rows,
        vec![vec![1, 1, 10, 5], vec![1, 1, 30, 5], vec![1, 2, 20, 6]]
    );
}

#[test]
fn swap_invariance() {
    let a = frame(&[b"id", b"u"], &[&[1, 5], &[2, 6]]);
    let b = frame(&[b"id", b"w"], &[&[1, 7]]);
    // A as build side, B probed
    let ab = join_once(&[clone_frame(&a)], &b, &[b"id"], false);
    // B as build side, A probed, with the swap flag restoring the order
    let ba = join_once(&[clone_frame(&b)], &a, &[b"id"], true);
    assert_eq!(named_rows(&ab), named_rows(&ba));
    assert_eq!(named_rows(&ab).len(), 1);
}

#[test]
fn column_drop_and_suffix() {
    // the probe side's join-key column is dropped; its non-key column that
    // collides with a build-side name gets the suffix
    let build = frame(&[b"id", b"x"], &[&[1, 10]]);
    let probe = frame(&[b"id", b"x", b"y"], &[&[1, 20, 30]]);
    let out = join_once(&[build], &probe, &[b"id"], false);
    assert_eq!(
        names_of(&out),
        vec![b"id".to_vec(), b"x".to_vec(), b"x_right".to_vec(), b"y".to_vec()]
    );
    assert_eq!(rows_of(&out), vec![vec![1, 10, 20, 30]]);
}

#[test]
fn unsupported_join_kind_fails_finalize() {
    let sink: GenericBuild<NamedColumnExpr> = GenericBuild::new(
        b"_right".to_vec(),
        JoinType::Left,
        false,
        exprs(&[b"id"]),
        exprs(&[b"id"]),
        PARTITIONS,
        SEED,
    );
    match sink.finalize() {
        Err(JoinError::UnsupportedJoin) => {},
        _ => panic!("finalizing a non-inner join must fail"),
    }
}

#[test]
fn evaluation_error_propagates_and_leaves_state_clean() {
    let mut sink = build_sink(&[b"missing"], false);
    let batch = frame(&[b"id", b"v"], &[&[1, 10]]);
    match sink.sink(batch) {
        Err(JoinError::Evaluation) => {},
        _ => panic!("a missing key column must fail evaluation"),
    }
    // the failed batch was not indexed: a later probe sees an empty build side
    let mut probe: InnerJoinProbe<NamedColumnExpr> = sink.finalize().unwrap();
    let out = probe.execute(&frame(&[b"missing", b"p"], &[&[1, 2]])).unwrap();
    assert_eq!(out.height, 0);
}

#[test]
fn probe_side_evaluation_error() {
    let build = frame(&[b"id", b"v"], &[&[1, 10]]);
    let mut sink = build_sink(&[b"id"], false);
    sink.sink(build).unwrap();
    let mut probe = sink.finalize().unwrap();
    let bad = frame(&[b"other", b"p"], &[&[1, 2]]);
    match probe.execute(&bad) {
        Err(JoinError::Evaluation) => {},
        _ => panic!("a probe batch without the key column must fail"),
    }
}

#[test]
fn row_hash_formula() {
    // the combined hash folds each cell in by a 7-bit rotate and xor
    let seed = 3u64;
    let one = inner_join::hashing::hash_row(seed, &vec![9]);
    assert_eq!(one, ((seed << 7) | (seed >> 57)) ^ 9);
    let h1 = ((seed << 7) | (seed >> 57)) ^ 4;
    let two = inner_join::hashing::hash_row(seed, &vec![4, 11]);
    assert_eq!(two, ((h1 << 7) | (h1 >> 57)) ^ 11);
    // empty tuple hashes to the seed itself
    assert_eq!(inner_join::hashing::hash_row(seed, &vec![]), seed);
}

#[test]
fn partition_is_hash_mod_count() {
    assert_eq!(inner_join::hashing::hash_to_partition(13, 4), 1);
    assert_eq!(inner_join::hashing::hash_to_partition(13, 1), 0);
    assert_eq!(inner_join::hashing::hash_to_partition(u64::MAX, 7), (u64::MAX % 7) as usize);
}

#[test]
fn first_column_wins_name_lookup() {
    let f = frame(&[b"a", b"b", b"a"], &[&[1, 2, 3]]);
    assert_eq!(f.find_idx_by_name(&b"a".to_vec()), Some(0));
    assert_eq!(f.find_idx_by_name(&b"b".to_vec()), Some(1));
    assert_eq!(f.find_idx_by_name(&b"c".to_vec()), None);
}

#[test]
fn probe_split_behaves_like_template() {
    let build = frame(&[b"id", b"v"], &[&[1, 10], &[2, 20]]);
    let probe_batch = frame(&[b"id", b"p"], &[&[2, 5]]);
    let mut sink = build_sink(&[b"id"], false);
    sink.sink(build).unwrap();
    let template = sink.finalize().unwrap();
    let mut clone0 = template.split(0);
    let mut clone1 = template.split(1);
    let out0 = clone0.execute(&probe_batch).unwrap();
    let out1 = clone1.execute(&probe_batch).unwrap();
    assert_eq!(rows_of(&out0), rows_of(&out1));
    assert_eq!(rows_of(&out0), vec![vec![2, 20, 5]]);
}
