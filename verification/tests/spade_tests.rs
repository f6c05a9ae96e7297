use spade::engine::Spade;
use spade::events::EventSet;
use spade::joins::{join_itemset, join_temporal};
use spade::records::Record;

const DATA: &[(u32, i32, u8)] = &[
    (0, 1, 0b10000000),
    (0, 2, 0b11000000),
    (1, 1, 0b01000000),
    (1, 1, 0b00100000),
    (2, 1, 0b11100000),
    (2, 2, 0b01100000),
];

fn dataset(rows: &[(u32, i32, u8)]) -> Vec<(Record, EventSet)> {
    rows.iter()
        .map(|&(sid, eid, byte)| (Record::new(sid, eid), EventSet::from_bytes(&[byte])))
        .collect()
}

fn singleton(e: usize) -> Vec<EventSet> {
    let mut es = EventSet::new();
    es.insert(e);
    vec![es]
}

fn score(pattern: &Vec<EventSet>) -> usize {
    pattern
        .iter()
        .map(|es| es.events().len())
        .fold(1usize, |acc, n| acc.saturating_mul(n))
}

#[test]
fn test_collect_into_spade() {
    let spade = Spade::construct(dataset(&DATA[..5]));
    assert_eq!(
        spade.frontier_list(&singleton(0)).unwrap(),
        vec![Record::new(0, 1), Record::new(0, 2), Record::new(2, 1)]
    );
}

#[test]
fn canonical_initial_frontier() {
    let spade = Spade::construct(dataset(DATA));
    assert_eq!(
        spade.frontier_list(&singleton(0)).unwrap(),
        vec![Record::new(0, 1), Record::new(0, 2), Record::new(2, 1)]
    );
    assert_eq!(
        spade.frontier_list(&singleton(1)).unwrap(),
        vec![
            Record::new(0, 2),
            Record::new(1, 1),
            Record::new(2, 1),
            Record::new(2, 2)
        ]
    );
    assert_eq!(
        spade.frontier_list(&singleton(2)).unwrap(),
        vec![Record::new(1, 1), Record::new(2, 1), Record::new(2, 2)]
    );
    assert_eq!(spade.frontier_len(), 3);
    assert_eq!(spade.store_len(), 3);
}

#[test]
fn canonical_expansion_and_report() {
    let mut spade = Spade::construct(dataset(DATA));
    for _ in 0..4 {
        spade.next(0);
    }
    // "{0} then later {1}" is witnessed at (0,2) and (2,2).
    let extended = vec![singleton(0).pop().unwrap(), singleton(1).pop().unwrap()];
    assert_eq!(
        spade.store_list(&extended).unwrap(),
        vec![Record::new(0, 2), Record::new(2, 2)]
    );
    // "{0} and {1} together" is witnessed at (0,2) and (2,1).
    let mut both = EventSet::new();
    both.insert(0);
    both.insert(1);
    assert_eq!(
        spade.store_list(&vec![both]).unwrap(),
        vec![Record::new(0, 2), Record::new(2, 1)]
    );
    let report = spade.report();
    assert!(!report.is_empty());
    assert_eq!(report.len(), spade.store_len());
    for w in report.windows(2) {
        let (sa, sb) = (score(&w[0].0), score(&w[1].0));
        assert!(sa > sb || (sa == sb && w[0].1 >= w[1].1));
    }
    // Support counts id-list records, so {1}, seen twice in sid 2, scores 4.
    let line = report
        .iter()
        .find(|(p, _)| p.len() == 1 && p[0].events() == vec![1])
        .unwrap();
    assert_eq!(line.1, 4);
}

#[test]
fn empty_dataset_empty_report() {
    let spade = Spade::construct(Vec::new());
    assert_eq!(spade.frontier_len(), 0);
    assert_eq!(spade.store_len(), 0);
    assert!(spade.report().is_empty());
    let mut spade = spade;
    spade.next(0);
    assert_eq!(spade.frontier_len(), 0);
    assert!(spade.report().is_empty());
}

#[test]
fn single_record_level_empties_frontier() {
    let mut spade = Spade::construct(dataset(&[(0, 1, 0b10000000)]));
    assert_eq!(
        spade.store_list(&singleton(0)).unwrap(),
        vec![Record::new(0, 1)]
    );
    assert_eq!(spade.store_len(), 1);
    spade.next(0);
    // The self-pair's temporal join is empty, so nothing survives pruning.
    assert_eq!(spade.frontier_len(), 0);
    assert_eq!(spade.store_len(), 1);
    assert_eq!(
        spade.store_list(&singleton(0)).unwrap(),
        vec![Record::new(0, 1)]
    );
}

#[test]
fn duplicate_records_are_deduplicated() {
    let spade = Spade::construct(dataset(&[(1, 1, 0b00010000), (1, 1, 0b00010000)]));
    assert_eq!(
        spade.frontier_list(&singleton(3)).unwrap(),
        vec![Record::new(1, 1)]
    );
}

#[test]
fn min_sup_at_maximum_empties_frontier() {
    let mut spade = Spade::construct(dataset(DATA));
    // The longest id-list, for {1}, has four records.
    spade.next(4);
    assert_eq!(spade.frontier_len(), 0);
    assert_eq!(spade.store_len(), 3);
}

#[test]
fn construct_twice_is_idempotent() {
    let once = Spade::construct(dataset(DATA));
    let mut doubled: Vec<(u32, i32, u8)> = DATA.to_vec();
    doubled.extend_from_slice(DATA);
    let twice = Spade::construct(dataset(&doubled));
    assert_eq!(once.frontier_len(), twice.frontier_len());
    for e in 0..3usize {
        assert_eq!(
            once.frontier_list(&singleton(e)).unwrap(),
            twice.frontier_list(&singleton(e)).unwrap()
        );
    }
}

#[test]
fn joins_are_deterministic() {
    let a = vec![Record::new(0, 1), Record::new(2, 1), Record::new(3, 5)];
    let b = vec![
        Record::new(0, 1),
        Record::new(0, 2),
        Record::new(2, 1),
        Record::new(4, 1),
    ];
    assert_eq!(
        join_temporal(&a, &b),
        vec![Record::new(0, 2)]
    );
    assert_eq!(join_temporal(&a, &b), join_temporal(&a, &b));
    assert_eq!(
        join_itemset(&a, &b),
        vec![Record::new(0, 1), Record::new(2, 1)]
    );
    assert_eq!(join_itemset(&a, &b), join_itemset(&a, &b));
}

#[test]
fn insert_appends_without_sorting() {
    let mut spade = Spade::new();
    let mut es = EventSet::new();
    es.insert(7);
    spade.insert(Record::new(0, 2), es);
    let mut es = EventSet::new();
    es.insert(7);
    spade.insert(Record::new(0, 1), es);
    assert_eq!(
        spade.frontier_list(&singleton(7)).unwrap(),
        vec![Record::new(0, 2), Record::new(0, 1)]
    );
    assert_eq!(spade.store_len(), 0);
}

#[test]
fn event_sets_enumerate_in_ascending_order() {
    let mut es = EventSet::new();
    es.insert(5);
    es.insert(2);
    es.insert(9);
    es.insert(2);
    assert_eq!(es.events(), vec![2, 5, 9]);
    let from_byte = EventSet::from_bytes(&[0b10100000]);
    assert_eq!(from_byte.events(), vec![0, 2]);
}

#[test]
fn debug_render_empty_below_threshold() {
    let spade = Spade::construct(dataset(DATA));
    assert_eq!(spade.debug_render(), String::new());
}

#[test]
fn debug_render_lists_heavy_patterns() {
    let mut rows: Vec<(u32, i32, u8)> = Vec::new();
    for sid in 0..30u32 {
        rows.push((sid, 1, 0b10000000));
    }
    let spade = Spade::construct(dataset(&rows));
    assert_eq!(spade.debug_render(), "Pattern: [0], Support: 30\n");
}

#[test]
fn debug_render_orders_lines_by_pattern() {
    let mut rows: Vec<(u32, i32, u8)> = Vec::new();
    for sid in 0..31u32 {
        rows.push((sid, 1, 0b01000000));
        rows.push((sid, 2, 0b10000000));
    }
    let spade = Spade::construct(dataset(&rows));
    assert_eq!(
        spade.debug_render(),
        "Pattern: [0], Support: 31\nPattern: [1], Support: 31\n"
    );
}
