use roar::create_frequency_table;
use roar::decompress;
use roar::CodeTable;
use roar::BTree;
use roar::Heap;
use roar::Node;

fn setup() -> Heap {
    let mut heap = Heap::default();

    let n1 = Node::new(0, None, None, None, false);
    let n2 = Node::new(1, None, None, None, false);
    let n3 = Node::new(2, None, None, None, false);

    heap.insert(n1);
    heap.insert(n2);
    heap.insert(n3);

    heap
}

#[test]
fn test_get_parent_idx() {
    let heap = setup();

    assert_eq!(heap.get_parent_idx(0), None);
    assert_eq!(heap.get_parent_idx(1), Some(0));
    assert_eq!(heap.get_parent_idx(4), Some(1));
}

#[test]
fn test_get_left_child_idx() {
    let heap = setup();

    assert_eq!(heap.left_child_idx(0), Some(1));
    assert_eq!(heap.left_child_idx(1), None);
}

#[test]
fn test_get_right_child_idx() {
    let heap = setup();

    assert_eq!(heap.right_child_idx(0), Some(2));
    assert_eq!(heap.right_child_idx(2), None);
}

#[test]
fn test_insert() {
    let mut heap = setup();

    heap.insert(Node::new(3, None, None, None, false));

    assert_eq!(heap.elems.len(), 4);
    assert_eq!(heap.elems.last().unwrap().weight(), 3)
}

#[test]
fn test_delete() {
    let mut heap = setup();

    let root = heap.delete();

    assert_eq!(heap.elems.len(), 2);
    assert_eq!(root.weight(), 0);

    assert_eq!(heap.elems.first().unwrap().weight(), 1)
}

#[test]
fn test_formulate_table() {
    let table = create_frequency_table(&String::from("aaabbc"));

    assert_eq!(table.get("a").unwrap(), 3);
    assert_eq!(table.get("b").unwrap(), 2);
    assert_eq!(table.get("c").unwrap(), 1);
}

#[test]
fn test_creating_btree_from_heap() {
    let mut heap = Heap::default();
    let n1 = Node::new(0, None, None, None, false);
    let n2 = Node::new(1, None, None, None, false);
    let n3 = Node::new(2, None, None, None, false);

    heap.insert(n1);
    heap.insert(n2);
    heap.insert(n3);

    let btree = BTree::new(&mut heap);

    assert_eq!(btree.root.weight(), 3)
}

#[test]
fn delete_returns_lightest_node() {
    let mut heap = Heap::default();
    for w in [5usize, 3, 8, 1, 9, 2] {
        heap.insert(Node::new(w, None, None, None, false));
    }
    assert_eq!(heap.delete().weight(), 1);
}

#[test]
fn frequency_table_misses_absent_letters() {
    let table = create_frequency_table("aaabbc");
    assert_eq!(table.get("d"), None);
    assert_eq!(table.get(""), None);
}

#[test]
fn btree_root_weighs_the_whole_input() {
    let mut heap = Heap::default();
    for w in [7usize, 1, 4, 4, 10] {
        heap.insert(Node::new(w, None, None, None, false));
    }
    let btree = BTree::new(&mut heap);
    assert_eq!(btree.root.weight(), 26);
    assert_eq!(heap.size(), 0);
}

#[test]
fn decompress_walks_the_bits_greedily() {
    let mut table = CodeTable::new();
    assert!(table.add(&"00".to_string(), &"a".to_string()));
    assert!(table.add(&"01".to_string(), &"b".to_string()));
    assert!(table.add(&"10".to_string(), &"c".to_string()));
    // 0b00011000: the codes of a, b, c, a fill the byte exactly
    assert_eq!(decompress(&vec![0b0001_1000u8], &table), "abca");
    // trailing bits that complete no code are dropped
    assert_eq!(decompress(&vec![0b0001_1011u8], &table), "abc");
}

#[test]
fn a_code_word_cannot_be_added_twice() {
    let mut table = CodeTable::new();
    assert!(table.add(&"0".to_string(), &"a".to_string()));
    assert!(!table.add(&"0".to_string(), &"b".to_string()));
    assert_eq!(decompress(&vec![0b0000_0000u8], &table), "aaaaaaaa");
}
