use blit::cache::list::{LruList, Node, Value, NO_SLOT};

enum Expected {
    Value { value: u32, prev: usize, next: usize },
    Empty { next: usize },
}

fn assert_lru(lru: &LruList<u32>, least: usize, most: usize, free: usize, nodes: &[Expected]) {
    assert_eq!(lru.least_recent(), least, "least recent");
    assert_eq!(lru.most_recent(), most, "most recent");
    assert_eq!(lru.free_first(), free, "free first");
    assert_eq!(lru.slots(), nodes.len(), "slot count");
    for (index, expected) in nodes.iter().enumerate() {
        let expected = match *expected {
            Expected::Value { value, prev, next } => Node::Value(Value { value, prev, next }),
            Expected::Empty { next } => Node::Empty { next },
        };
        assert!(*lru.node(index) == expected, "node {index}: {:?} != {:?}", lru.node(index), expected);
    }
}

use Expected::{Empty, Value as V};

#[test]
fn basic() {
    let mut lru = LruList::<u32>::new(5);

    lru.insert(0).unwrap();
    assert_lru(&lru, 0, 0, NO_SLOT, &[V { value: 0, prev: NO_SLOT, next: NO_SLOT }]);

    lru.insert(1).unwrap();
    assert_lru(
        &lru,
        0,
        1,
        NO_SLOT,
        &[V { value: 0, prev: NO_SLOT, next: 1 }, V { value: 1, prev: 0, next: NO_SLOT }],
    );

    lru.insert(2).unwrap();
    assert_lru(
        &lru,
        0,
        2,
        NO_SLOT,
        &[
            V { value: 0, prev: NO_SLOT, next: 1 },
            V { value: 1, prev: 0, next: 2 },
            V { value: 2, prev: 1, next: NO_SLOT },
        ],
    );

    lru.promote(0);
    assert_lru(
        &lru,
        1,
        0,
        NO_SLOT,
        &[
            V { value: 0, prev: 2, next: NO_SLOT },
            V { value: 1, prev: NO_SLOT, next: 2 },
            V { value: 2, prev: 1, next: 0 },
        ],
    );

    assert_eq!(lru.pop(), Some(1));
    assert_lru(
        &lru,
        2,
        0,
        1,
        &[
            V { value: 0, prev: 2, next: NO_SLOT },
            Empty { next: NO_SLOT },
            V { value: 2, prev: NO_SLOT, next: 0 },
        ],
    );

    assert_eq!(lru.pop(), Some(2));
    assert_lru(
        &lru,
        0,
        0,
        2,
        &[
            V { value: 0, prev: NO_SLOT, next: NO_SLOT },
            Empty { next: NO_SLOT },
            Empty { next: 1 },
        ],
    );

    assert_eq!(lru.pop(), Some(0));
    assert_lru(
        &lru,
        NO_SLOT,
        NO_SLOT,
        0,
        &[Empty { next: 2 }, Empty { next: NO_SLOT }, Empty { next: 1 }],
    );

    lru.insert(0).unwrap();
    assert_lru(
        &lru,
        0,
        0,
        2,
        &[
            V { value: 0, prev: NO_SLOT, next: NO_SLOT },
            Empty { next: NO_SLOT },
            Empty { next: 1 },
        ],
    );

    lru.promote(0);
    assert_lru(
        &lru,
        0,
        0,
        2,
        &[
            V { value: 0, prev: NO_SLOT, next: NO_SLOT },
            Empty { next: NO_SLOT },
            Empty { next: 1 },
        ],
    );
}

#[test]
fn reuse_only_free_slot() {
    let mut lru = LruList::<u32>::new(2);
    lru.insert(0).unwrap();
    lru.insert(1).unwrap();
    assert_eq!(lru.remove(0), Some(0));
    lru.insert(2).unwrap();

    assert_lru(
        &lru,
        1,
        0,
        NO_SLOT,
        &[V { value: 2, prev: 1, next: NO_SLOT }, V { value: 1, prev: NO_SLOT, next: 0 }],
    );
}

#[test]
fn promote_middle() {
    let mut lru = LruList::<u32>::new(3);
    lru.insert(0).unwrap();
    lru.insert(1).unwrap();
    lru.insert(2).unwrap();
    lru.promote(1);

    assert_lru(
        &lru,
        0,
        1,
        NO_SLOT,
        &[
            V { value: 0, prev: NO_SLOT, next: 2 },
            V { value: 1, prev: 2, next: NO_SLOT },
            V { value: 2, prev: 0, next: 1 },
        ],
    );
}

#[test]
fn remove() {
    let mut lru = LruList::<u32>::new(5);
    lru.insert(0).unwrap();
    lru.insert(1).unwrap();
    lru.insert(2).unwrap();

    assert_eq!(lru.remove(1), Some(1));
    assert_lru(
        &lru,
        0,
        2,
        1,
        &[
            V { value: 0, prev: NO_SLOT, next: 2 },
            Empty { next: NO_SLOT },
            V { value: 2, prev: 0, next: NO_SLOT },
        ],
    );

    assert_eq!(lru.remove(0), Some(0));
    assert_lru(
        &lru,
        2,
        2,
        0,
        &[
            Empty { next: 1 },
            Empty { next: NO_SLOT },
            V { value: 2, prev: NO_SLOT, next: NO_SLOT },
        ],
    );
}

#[test]
fn retain() {
    let mut lru = LruList::<u32>::new(5);
    lru.insert(0).unwrap();
    lru.insert(1).unwrap();
    lru.insert(2).unwrap();

    lru.retain(|index, _| index % 2 != 0);

    assert_lru(
        &lru,
        1,
        1,
        2,
        &[Empty { next: NO_SLOT }, V { value: 1, prev: NO_SLOT, next: NO_SLOT }, Empty { next: 0 }],
    );
}

#[test]
fn full_list_hands_value_back() {
    let mut lru = LruList::<u32>::new(1);
    lru.insert(7).unwrap();
    assert_eq!(lru.insert(8).err(), Some(8));
    assert_eq!(*lru.get(0), 7);
    assert_eq!(lru.remove(3), None);
}
