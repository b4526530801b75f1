use snake::compile::get;
use snake::graph::Graph;
use snake::list::List;
use snake::vecmap::VecMap;
use snake::vecset::VecSet;

#[test]
fn lists_find_the_nearest_binding() {
    let l: List<(String, u32)> = List::empty().cons((String::from("x"), 1)).cons((String::from("y"), 2));
    let l = l.cons((String::from("x"), 3));
    assert_eq!(l.lookup(String::from("x")), Some(3));
    assert_eq!(l.lookup(String::from("y")), Some(2));
    assert_eq!(l.lookup(String::from("z")), None);
}

#[test]
fn shared_lists_see_the_same_elements() {
    let l: List<(String, u32)> = List::empty().cons((String::from("a"), 7));
    let m = l.share();
    assert_eq!(m.lookup(String::from("a")), Some(7));
    let mut it = List::from_vec(vec![1u32, 2, 3]);
    assert_eq!(it.next(), Some(3));
    assert_eq!(it.next(), Some(2));
    assert_eq!(it.next(), Some(1));
    assert_eq!(it.next(), None);
}

#[test]
fn pushing_puts_in_front() {
    let mut l: List<u32> = List::empty();
    l._push(1);
    l._push(2);
    let mut it = l._iter();
    assert_eq!(it.next(), Some(2));
    assert_eq!(it.next(), Some(1));
}

#[test]
fn get_finds_the_last_binding() {
    let env = vec![(String::from("x"), 1u32), (String::from("y"), 2), (String::from("x"), 3)];
    assert_eq!(get(&env, &String::from("x")), Some(3));
    assert_eq!(get(&env, &String::from("q")), None);
}

#[test]
fn sets_hold_each_element_once() {
    let mut s: VecSet<String> = VecSet::new();
    assert!(s.insert(String::from("a")));
    assert!(!s.insert(String::from("a")));
    assert!(s.insert(String::from("b")));
    assert_eq!(s.len(), 2);
    assert!(s.remove(&String::from("a")));
    assert!(!s.contains(&String::from("a")));
    let mut t = VecSet::from_vec(vec![String::from("b"), String::from("c"), String::from("c")]);
    assert_eq!(t.len(), 2);
    t.difference_with(&s);
    assert_eq!(t.items().clone(), vec![String::from("c")]);
    t.union_with(&s);
    assert_eq!(t.len(), 2);
}

#[test]
fn maps_replace_bindings() {
    let mut m: VecMap<String, u32> = VecMap::new();
    m.insert(String::from("a"), 1);
    m.insert(String::from("b"), 2);
    m.insert(String::from("a"), 3);
    assert_eq!(m.len(), 2);
    assert_eq!(m.get(&String::from("a")), Some(&3));
    assert!(!m.contains_key(&String::from("c")));
    let mut n: VecMap<String, u32> = VecMap::new();
    n.insert(String::from("c"), 4);
    n.insert(String::from("a"), 5);
    m.extend(&n);
    assert_eq!(m.get(&String::from("a")), Some(&5));
    assert_eq!(m.len(), 3);
}

#[test]
fn graphs_are_undirected() {
    let mut g: Graph<String> = Graph::new();
    g.insert_edge(String::from("a"), String::from("b"));
    g.insert_vertex(String::from("c"));
    assert_eq!(g.num_vertices(), 3);
    assert!(g.contains_edge(&String::from("b"), &String::from("a")));
    assert!(!g.contains_edge(&String::from("a"), &String::from("c")));
    assert_eq!(g.neighbors(&String::from("a")).unwrap().len(), 1);
    assert!(g.neighbors(&String::from("z")).is_none());
}

#[test]
fn removing_a_vertex_removes_its_edges() {
    let mut g: Graph<String> = Graph::new();
    g.insert_edge(String::from("a"), String::from("b"));
    g.insert_edge(String::from("b"), String::from("c"));
    assert!(g.remove_vertex(&String::from("b")));
    assert!(!g.remove_vertex(&String::from("b")));
    assert_eq!(g.num_vertices(), 2);
    assert_eq!(g.neighbors(&String::from("a")).unwrap().len(), 0);
    let mut vs = g.vertices();
    vs.sort();
    assert_eq!(vs, vec![String::from("a"), String::from("c")]);
}

#[test]
fn vertex_counts_follow_insertions_and_removals() {
    let mut g: Graph<String> = Graph::new();
    assert_eq!(g.num_vertices(), 0);
    g.insert_vertex(String::from("a"));
    assert_eq!(g.num_vertices(), 1);
    g.insert_vertex(String::from("a"));
    assert_eq!(g.num_vertices(), 1);
    g.insert_edge(String::from("a"), String::from("b"));
    assert_eq!(g.num_vertices(), 2);
    assert!(g.remove_vertex(&String::from("a")));
    assert_eq!(g.num_vertices(), 1);
    assert!(!g.remove_vertex(&String::from("a")));
    assert_eq!(g.num_vertices(), 1);
}
