use cs_course::labyrinth::Husband;
use cs_course::cache::Cache;
use cs_course::linked_list::SinglyLinkedList;
use cs_course::graph::{Graph, SubGraph};
use cs_course::trees::{traverse_preorder, du_sort, Node, File};
use cs_course::filters::{remove_even, remove_duplicate, natural_join};
use cs_course::segments::{chunk_at, segment_path};
use cs_course::split_order::{parent_bucket, bucket_key, regular_key};

#[test]
fn husband_follows_the_cycle() {
    let mut h = Husband::seeking(7);
    {
        let mut s = h.has_devised_a_strategy();
        assert_eq!(s.next(), Some(7));
    }
    h.carefully_checks_whos_inside(7, 3);
    assert_eq!(h.has_devised_a_strategy().next(), Some(3));
    h.carefully_checks_whos_inside(3, 7);
    assert_eq!(h.has_devised_a_strategy().next(), Some(3));
}

#[test]
fn labyrinth_permutation_cycle() {
    // rooms[i] holds the wife with id rooms[i]; the husband of wife 0 follows 0 -> 2 -> 4 -> 0.
    let rooms = [2usize, 3, 4, 1, 0];
    let mut h = Husband::seeking(0);
    let mut visited = Vec::new();
    for _ in 0..5 {
        let room = h.has_devised_a_strategy().next().unwrap();
        visited.push(room);
        let wife = rooms[room];
        if wife == 0 {
            break;
        }
        h.carefully_checks_whos_inside(room, wife);
    }
    assert_eq!(visited, vec![0, 2, 4]);
}

#[test]
fn cache_computes_once_per_key() {
    let mut cache: Cache<u32, String> = Cache::new();
    let mut calls = 0;
    let a = cache.get_or_insert_with(1, |k| {
        calls += 1;
        format!("v{}", k)
    });
    assert_eq!(a, "v1".to_string());
    let b = cache.get_or_insert_with(1, |_| {
        calls += 1;
        "other".to_string()
    });
    assert_eq!(b, "v1".to_string());
    let c = cache.get_or_insert_with(2, |k| {
        calls += 1;
        format!("w{}", k)
    });
    assert_eq!(c, "w2".to_string());
    assert_eq!(calls, 2);
    let d: Cache<u8, u8> = Cache::default();
    drop(d);
}

#[test]
fn linked_list_push_pop() {
    let mut l: SinglyLinkedList<i32> = SinglyLinkedList::new();
    l.push_back(2);
    l.push_front(1);
    l.push_back(3);
    assert_eq!(l.length(), 3);
    assert_eq!(l.pop_back(), Some(3));
    assert_eq!(l.pop_front(), Some(1));
    assert_eq!(l.pop_front(), Some(2));
    assert_eq!(l.pop_front(), None);
    assert_eq!(l.pop_back(), None);
    assert_eq!(l.length(), 0);
}

#[test]
fn linked_list_vec_round_trip() {
    let l = SinglyLinkedList::from_vec(vec![4, 5, 6]);
    assert_eq!(l.into_vec(), vec![4, 5, 6]);
    let e: SinglyLinkedList<u8> = SinglyLinkedList::default();
    assert_eq!(e.into_vec(), Vec::<u8>::new());
}

#[test]
fn linked_list_map_and_pair_map() {
    let l = SinglyLinkedList::from_vec(vec![1, 2]).map(|x| x + 1);
    assert_eq!(l.into_vec(), vec![2, 3]);
    let p = SinglyLinkedList::from_vec(vec![1, 2, 3, 4]).pair_map(|x, y| x + y);
    assert_eq!(p.into_vec(), vec![3, 5, 7]);
    let q = SinglyLinkedList::from_vec(vec![9]).pair_map(|x, y| x + y);
    assert_eq!(q.into_vec(), Vec::<i32>::new());
}

#[test]
fn linked_list_flatten() {
    let inner = vec![
        SinglyLinkedList::from_vec(vec![1, 2, 3]),
        SinglyLinkedList::from_vec(vec![4, 5, 6]),
        SinglyLinkedList::from_vec(vec![7, 8]),
    ];
    let outer = SinglyLinkedList::from_vec(inner);
    assert_eq!(outer.flatten().into_vec(), vec![1, 2, 3, 4, 5, 6, 7, 8]);
}

#[test]
fn graph_edges() {
    let mut g = Graph::new();
    let a = g.new_node(1);
    let b = g.new_node(2);
    assert!(matches!(g.add_edge(a, b), Ok(true)));
    assert!(matches!(g.add_edge(a, b), Ok(false)));
    assert!(matches!(g.add_edge(a, 9), Err(_)));
    assert!(matches!(g.remove_edge(a, b), Ok(true)));
    assert!(matches!(g.remove_edge(a, b), Ok(false)));
    assert!(matches!(g.remove_edge(9, a), Err(_)));
    assert!(matches!(g.clear_edges(b), Ok(())));
    assert!(matches!(g.clear_edges(5), Err(_)));
}

#[test]
fn graph_cycles() {
    let mut g = Graph::new();
    let n: Vec<usize> = (0..4).map(|i| g.new_node(i)).collect();
    let _ = g.add_edge(n[0], n[1]);
    let _ = g.add_edge(n[1], n[2]);
    let _ = g.add_edge(n[2], n[0]);
    let _ = g.add_edge(n[2], n[3]);
    let mut sub = SubGraph::new();
    assert!(sub.add_node(n[0]));
    assert!(!sub.add_node(n[0]));
    assert!(sub.add_node(n[1]));
    assert!(!sub.detect_cycle(&g));
    assert!(sub.add_node(n[2]));
    assert!(sub.detect_cycle(&g));
    assert!(sub.remove_node(n[1]));
    assert!(!sub.remove_node(n[1]));
    assert!(!sub.detect_cycle(&g));
    let _ = g.add_edge(n[3], n[3]);
    let mut only3 = SubGraph::new();
    only3.add_node(n[3]);
    assert!(only3.detect_cycle(&g));
    let _ = g.remove_edge(n[3], n[3]);
    assert!(!only3.detect_cycle(&g));
}

#[test]
fn preorder_example() {
    let tree = Node::NonLeaf((
        1,
        vec![
            Node::NonLeaf((2, vec![Node::Leaf(5), Node::Leaf(6)])),
            Node::Leaf(3),
            Node::NonLeaf((4, vec![Node::Leaf(7), Node::Leaf(8), Node::Leaf(9)])),
        ],
    ));
    assert_eq!(traverse_preorder(tree), vec![1, 2, 5, 6, 3, 4, 7, 8, 9]);
    assert_eq!(traverse_preorder(Node::Leaf("x")), vec!["x"]);
}

#[test]
fn du_sort_example() {
    let root = File::Directory(
        "root".to_string(),
        vec![
            File::Directory(
                "a".to_string(),
                vec![File::Data("a1".to_string(), 1), File::Data("a2".to_string(), 3)],
            ),
            File::Directory(
                "b".to_string(),
                vec![File::Data("b1".to_string(), 3), File::Data("b2".to_string(), 15)],
            ),
            File::Data("c".to_string(), 8),
        ],
    );
    assert_eq!(
        du_sort(&root),
        vec![("a1", 1), ("a2", 3), ("b1", 3), ("a", 4), ("c", 8), ("b2", 15), ("b", 18), ("root", 30)]
    );
}

#[test]
fn remove_even_example() {
    let mut v = vec![1, 2, 3, 4, 5];
    remove_even(&mut v);
    assert_eq!(v, vec![1, 3, 5]);
    let mut w = vec![-3, -2, 0, 7];
    remove_even(&mut w);
    assert_eq!(w, vec![-3, 7]);
}

#[test]
fn remove_duplicate_example() {
    let mut v = vec![1, 2, 1, 1, 3, 7, 5, 7];
    remove_duplicate(&mut v);
    assert_eq!(v, vec![1, 2, 3, 7, 5]);
    let mut e: Vec<i64> = vec![];
    remove_duplicate(&mut e);
    assert_eq!(e, Vec::<i64>::new());
}

fn table(rows: &[&[&str]]) -> Vec<Vec<String>> {
    rows.iter().map(|r| r.iter().map(|c| c.to_string()).collect()).collect()
}

#[test]
fn natural_join_example() {
    let t1 = table(&[&["20230001", "Jack"], &["20231234", "Mike"]]);
    let t2 = table(&[&["20230001", "CS"], &["20230001", "EE"], &["20231234", "ME"]]);
    assert_eq!(
        natural_join(t1, t2),
        table(&[
            &["20230001", "Jack", "CS"],
            &["20230001", "Jack", "EE"],
            &["20231234", "Mike", "ME"]
        ])
    );
    assert_eq!(natural_join(table(&[&["1", "a"]]), vec![]), Vec::<Vec<String>>::new());
}

#[test]
fn natural_join_keeps_all_cells() {
    let t1 = table(&[&["1", "a", "b"]]);
    let t2 = table(&[&["1", "x", "y"], &["2", "z", "w"]]);
    assert_eq!(natural_join(t1, t2), table(&[&["1", "a", "b", "x", "y"]]));
    let t1 = table(&[&["1"], &["2", "p"]]);
    let t2 = table(&[&["2"], &["1", "q"]]);
    assert_eq!(natural_join(t1, t2), table(&[&["1", "q"], &["2", "p"]]));
}

#[test]
fn segment_paths() {
    assert_eq!(segment_path(0), vec![0]);
    assert_eq!(segment_path(5), vec![5]);
    assert_eq!(segment_path(1024), vec![0, 1]);
    assert_eq!(segment_path(0b111011 << 10 | 3), vec![3, 59]);
    let p = segment_path(3 * 1024 * 1024 + 2 * 1024 + 1);
    assert_eq!(p, vec![1, 2, 3]);
    assert_eq!(chunk_at(&p, 1), 1);
    assert_eq!(chunk_at(&p, 3), 3);
    assert_eq!(chunk_at(&p, 4), 0);
}

#[test]
fn split_order_keys() {
    assert_eq!(parent_bucket(1), 0);
    assert_eq!(parent_bucket(6), 2);
    assert_eq!(parent_bucket(8), 0);
    assert_eq!(parent_bucket(13), 5);
    for i in [0usize, 1, 2, 3, 6, 1000, 123456789] {
        assert_eq!(bucket_key(i), i.reverse_bits());
        assert_eq!(regular_key(i), i.reverse_bits() | 1);
        if i > 0 {
            assert_eq!(parent_bucket(i), i ^ (1 << i.ilog2()));
        }
    }
    assert_eq!(regular_key(0), 1);
    assert_eq!(bucket_key(0), 0);
}
