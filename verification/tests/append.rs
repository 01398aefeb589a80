use std::collections::{HashMap, HashSet};

use obsidian::obsidian::{get_one, single_byte_splits, Scan};
use obsidian::range::{Bound, Range};
use obsidian::rtest::cycles::{find_cycle, small_cycle, strongly_connected_components};
use obsidian::rtest::graph::{keys_of, put_edge, Graph};
use obsidian::rtest::workload_append::{
    decode_list, find_results, gen_graph, EdgeType, EventSeq, HistoryError, HistoryItem, ListId,
    ListItem, Reply, TxResult, Txid, WorkloadAppend, WriteResult,
};
use obsidian::types::data::{Mutation, Precondition, Record, Timestamp};
use obsidian::types::{ColoGroupId, KeyspaceId, ShardId, TabletId};
use obsidian::util::bytes::{append_bytes, same_bytes, sub_bytes};
use obsidian::util::ordmap::OrdMap;
use obsidian::util::varint::{read_varint, write_varint};

fn edges(list: &[(u64, u64)]) -> HashMap<u64, HashMap<u64, char>> {
    let mut m = HashMap::new();
    for (src, dst) in list {
        put_edge(&mut m, *src, 'e', *dst);
    }
    m
}

#[test]
fn graphs_keep_one_edge_between_two_vertices() {
    let mut g = Graph::new();
    g.insert(1, 'a', 2);
    g.insert(1, 'b', 3);
    g.insert(1, 'c', 2);
    assert_eq!((g.num_vertices(), g.num_edges()), (3, 2));
    assert_eq!(g.edge(&1, &2), Some(&'c'));
    assert_eq!(g.edge(&2, &1), None);
    let mut out = g.out_edges(&1);
    out.sort();
    assert_eq!(out, vec![(2, &'c'), (3, &'b')]);
    let mut vertices = g.vertices();
    vertices.sort();
    assert_eq!(vertices, vec![1, 2, 3]);
    assert_eq!(vertices.iter().map(|v| g.out_edges(v).len()).sum::<usize>(), g.num_edges());
    assert_eq!(g.out_edges(&9), vec![]);
    let mut keys = keys_of(&g.edges);
    keys.sort();
    assert_eq!(keys, vec![1, 2, 3]);
}

#[test]
fn components_are_what_reaches_itself() {
    let g = edges(&[(1, 2), (2, 3), (3, 1), (3, 4), (4, 5), (5, 4), (6, 1)]);
    let mut components = strongly_connected_components(&g);
    for c in &mut components {
        c.sort();
    }
    components.sort();
    assert_eq!(components, vec![vec![1, 2, 3], vec![4, 5]]);
    let cycle = small_cycle(&components[1], &g);
    assert_eq!(cycle.len(), 3);
    assert_eq!(cycle[0], cycle[2]);
}

#[test]
fn the_smallest_cycle_is_found() {
    assert_eq!(find_cycle(&edges(&[(1, 2), (2, 3), (1, 3)])), None);
    let cycle = find_cycle(&edges(&[(1, 2), (2, 3), (3, 1), (4, 5), (5, 4)])).unwrap();
    let mut vertices: Vec<u64> = cycle.iter().map(|(v, _)| *v).collect();
    vertices.sort();
    vertices.dedup();
    assert_eq!(vertices, vec![4, 5]);
}

fn append_and_read() -> Vec<Vec<(EventSeq, HistoryItem)>> {
    let (a, b, r) = (Txid(1), Txid(2), Txid(3));
    let list = ListId(0);
    vec![
        vec![
            (EventSeq(10), HistoryItem::StartAppend(a, list)),
            (EventSeq(11), HistoryItem::Commit(a, Timestamp(100), list)),
            (EventSeq(12), HistoryItem::StartAppend(b, list)),
            (EventSeq(13), HistoryItem::Commit(b, Timestamp(200), list)),
        ],
        vec![
            (EventSeq(14), HistoryItem::StartRead(r)),
            (EventSeq(15), HistoryItem::FinishRead(r, Timestamp(300), list, vec![a, b])),
        ],
    ]
}

#[test]
fn good_histories_have_no_cycle() {
    let graph = gen_graph(&append_and_read()).unwrap();
    assert_eq!(graph[&2][&1], EdgeType::SameKeyTimestamp);
    assert_eq!(graph[&3][&2], EdgeType::WriteRead);
    assert_eq!(graph.get(&1), None);
    assert!(find_cycle(&graph).is_none());
}

#[test]
fn stale_reads_make_a_cycle() {
    let (a, r, s) = (Txid(1), Txid(3), Txid(4));
    let list = ListId(0);
    let histories = vec![vec![
        (EventSeq(10), HistoryItem::StartAppend(a, list)),
        (EventSeq(11), HistoryItem::Commit(a, Timestamp(100), list)),
        (EventSeq(12), HistoryItem::StartRead(r)),
        (EventSeq(13), HistoryItem::FinishRead(r, Timestamp(300), list, vec![a])),
        (EventSeq(14), HistoryItem::StartRead(s)),
        (EventSeq(15), HistoryItem::FinishRead(s, Timestamp(400), list, vec![])),
    ]];
    let graph = gen_graph(&histories).unwrap();
    let cycle = find_cycle(&graph).unwrap();
    assert!(cycle.iter().any(|(_, edge)| *edge == EdgeType::ReadWrite));
}

#[test]
fn reads_of_what_nobody_wrote_are_errors() {
    let list = ListId(0);
    let garbage = vec![vec![
        (EventSeq(1), HistoryItem::StartRead(Txid(3))),
        (EventSeq(2), HistoryItem::FinishRead(Txid(3), Timestamp(3), list, vec![Txid(99)])),
    ]];
    assert!(matches!(gen_graph(&garbage), Err(HistoryError::GarbageRead)));
    let mut lost = append_and_read();
    lost[1][1].1 =
        HistoryItem::FinishRead(Txid(3), Timestamp(300), list, vec![Txid(2), Txid(1), Txid(2)]);
    lost[1].push((EventSeq(16), HistoryItem::StartRead(Txid(4))));
    lost[1].push((
        EventSeq(17),
        HistoryItem::FinishRead(Txid(4), Timestamp(400), list, vec![Txid(1)]),
    ));
    assert!(matches!(gen_graph(&lost), Err(HistoryError::LostOrDuplicateWrite)));
}

#[test]
fn results_are_read_off_histories() {
    let all: HashSet<u64> = HashSet::from([1, 3]);
    let results = find_results(&all, &append_and_read());
    assert_eq!(results.len(), 2);
    assert_eq!(
        results[&1],
        TxResult::Append(Txid(1), ListId(0), WriteResult::Commit(Timestamp(100))),
    );
    assert_eq!(
        results[&3],
        TxResult::Read(Timestamp(300), ListId(0), vec![Txid(1), Txid(2)]),
    );
}

#[test]
fn appends_go_to_the_end_of_a_list() {
    let mut w = WorkloadAppend::new();
    assert_eq!((w.new_txid(), w.next_seq()), (Txid(0), EventSeq(1)));
    let (preconds, muts) = w.append(Txid(9), ListId(0x0102), Timestamp(7), &None);
    assert_eq!(
        preconds,
        vec![Precondition::NotChangedSince(
            w.list_keyspace_id,
            vec![2, 1, 0, 0, 0, 0, 0, 0],
            Timestamp(7),
        )],
    );
    let list_key = (w.list_keyspace_id, ListId(0x0102).to_key());
    let one = vec![0, 0, 0, 0, 0, 0, 0, 1];
    assert_eq!(muts.get(&list_key), Some(&Mutation::Put(one.clone())));
    let (_, muts) = w.append(Txid(9), ListId(0x0102), Timestamp(7), &Some(one));
    assert_eq!(
        muts.get(&list_key),
        Some(&Mutation::Put(vec![0, 0, 0, 0, 0, 0, 0, 2])),
    );
    let item_key = (w.list_item_keyspace_id, ListItem(ListId(0x0102), 2).to_key());
    assert_eq!(muts.get(&item_key), Some(&Mutation::Put(Txid(9).encode())));
    assert_eq!(
        decode_list(&vec![Txid(4).encode(), Txid(0x0506).encode()]),
        Some(vec![Txid(4), Txid(0x0506)]),
    );
    assert_eq!(decode_list(&vec![vec![1]]), None);
    assert_eq!(Txid::decode(&[0, 0, 0, 0, 0, 0, 1, 2]), Some(Txid(258)));
    assert_eq!(Txid::decode(&[1, 2]), None);
}

#[test]
fn lists_are_chosen_at_random() {
    let w = WorkloadAppend::new();
    let chosen: HashSet<u64> = (0..1000).map(|_| w.choose_list().0).collect();
    assert!(chosen.len() > 1);
    assert!(chosen.iter().all(|list| *list < 100));
}

#[test]
fn replies_end_transactions() {
    let mut w = WorkloadAppend::new();
    let (txid, (_, item)) = w.start(true, ListId(2));
    assert!(matches!(item, HistoryItem::StartAppend(t, ListId(2)) if t == txid));
    let (event, goes_on) = w.finish_append(txid, ListId(2), Reply::Done(Timestamp(5)));
    assert!(matches!(event, Some((_, HistoryItem::Commit(_, Timestamp(5), ListId(2))))));
    assert!(goes_on);
    let (event, goes_on) = w.finish_append(txid, ListId(2), Reply::TimedOut);
    assert!(event.is_none() && !goes_on);
    let (event, goes_on) = w.finish_read(txid, ListId(2), Reply::Failed);
    assert!(matches!(event, Some((_, HistoryItem::Abort(_)))));
    assert!(goes_on);
    let (event, goes_on) = w.finish_read(txid, ListId(2), Reply::TimedOut);
    assert!(event.is_none() && !goes_on);
}

#[test]
fn scans_go_on_until_nothing_is_left() {
    let mut scan = Scan::new(Range::all());
    assert_eq!(scan.next_range(), Some(&Range::all()));
    scan.advance(Some(Range::prefix(vec![1])));
    assert_eq!(scan.next_range(), Some(&Range::prefix(vec![1])));
    scan.advance(None);
    assert_eq!(scan.next_range(), None);
    let key = (KeyspaceId(ColoGroupId(1), 1), vec![1]);
    let mut records = OrdMap::new();
    assert!(get_one(&records, &key).is_none());
    records.insert(
        key.clone(),
        Record { key: key.clone(), ts: Timestamp(1), value: vec![7] },
    );
    assert_eq!(get_one(&records, &key).map(|record| record.value[0]), Some(7));
    assert_eq!(
        single_byte_splits(3),
        vec![Bound::Before(vec![0]), Bound::Before(vec![1]), Bound::Before(vec![2])],
    );
}

#[test]
fn numbers_are_written_in_sevens_of_bits() {
    for (n, expected) in [
        (0u64, vec![0u8]),
        (127, vec![127]),
        (128, vec![0x80, 1]),
        (300, vec![0xac, 2]),
    ] {
        let mut out = vec![9];
        write_varint(&mut out, n);
        assert_eq!(out[1..], expected[..]);
        assert_eq!(read_varint(&out, 1), Some((n, out.len())));
    }
    let mut out = vec![];
    write_varint(&mut out, u64::MAX);
    assert_eq!(out.len(), 10);
    assert_eq!(read_varint(&out, 0), Some((u64::MAX, 10)));
    assert_eq!(read_varint(&out[..9], 0), None);
    assert_eq!(read_varint(&[], 0), None);
}

#[test]
fn ids_are_encoded_big_endian() {
    let id = TabletId(ShardId(0x0102), 0x0304);
    assert_eq!(id.encode_fixed(), vec![0, 0, 1, 2, 0, 0, 0, 0, 0, 0, 3, 4]);
    let mut out = vec![1];
    append_bytes(&mut out, &[2, 3]);
    assert_eq!(sub_bytes(&out, 1, 3), vec![2, 3]);
    assert!(same_bytes(&out, &[1, 2, 3]));
    assert!(!same_bytes(&out, &[1, 2]));
    let pending = KeyspaceId(ColoGroupId(1), 5).pending().unwrap();
    assert_eq!(pending.pending(), None);
}
