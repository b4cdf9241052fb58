use kill_tree::{build, plan, Error, ProcessInfo};

fn info(process_id: u32, parent_process_id: u32) -> ProcessInfo {
    ProcessInfo { process_id, parent_process_id, name: None }
}

fn named(process_id: u32, parent_process_id: u32, name: &str) -> ProcessInfo {
    ProcessInfo { process_id, parent_process_id, name: Some(name.to_string()) }
}

#[test]
fn subtree_of_the_example_table() {
    let snapshot = vec![info(10, 1), info(11, 10), info(12, 10), info(13, 11)];
    let tree = build(&snapshot, 10).unwrap();
    assert_eq!(tree.len(), 4);
    for process_id in [10, 11, 12, 13] {
        assert!(tree.contains(process_id));
        assert_eq!(tree.get(process_id).unwrap().process_id, process_id);
    }
    assert!(!tree.contains(1));
    assert_eq!(tree.get(1), None);
    assert_eq!(tree.order(), &vec![10, 11, 12, 13]);
    assert_eq!(plan(&tree), vec![13, 12, 11, 10]);
    assert_eq!(tree.into_discovery(), vec![10, 11, 12, 13]);
}

#[test]
fn plan_reversed_is_the_discovery_order() {
    let snapshot = vec![info(10, 1), info(11, 10), info(12, 10), info(13, 11)];
    let tree = build(&snapshot, 10).unwrap();
    let mut targets = plan(&tree);
    targets.reverse();
    assert_eq!(&targets, tree.order());
}

#[test]
fn discovery_is_breadth_first() {
    // 2 has the children 3 and 4; 3 has the child 5; 4 has the child 6.
    let snapshot = vec![info(6, 4), info(5, 3), info(3, 2), info(4, 2), info(2, 1)];
    let tree = build(&snapshot, 2).unwrap();
    assert_eq!(tree.order(), &vec![2, 3, 4, 5, 6]);
    assert_eq!(plan(&tree), vec![6, 5, 4, 3, 2]);
}

#[test]
fn children_come_in_the_order_of_their_lines() {
    let snapshot = vec![info(2, 1), info(9, 2), info(3, 2), info(7, 2)];
    let tree = build(&snapshot, 2).unwrap();
    assert_eq!(tree.order(), &vec![2, 9, 3, 7]);
}

#[test]
fn same_members_whatever_the_order_of_the_lines() {
    let forward = vec![info(10, 1), info(11, 10), info(12, 10), info(13, 11), info(20, 1)];
    let backward = vec![info(20, 1), info(13, 11), info(12, 10), info(11, 10), info(10, 1)];
    let first = build(&forward, 10).unwrap();
    let second = build(&backward, 10).unwrap();
    assert_eq!(first.order(), &vec![10, 11, 12, 13]);
    assert_eq!(second.order(), &vec![10, 12, 11, 13]);
    let mut a = first.into_discovery();
    let mut b = second.into_discovery();
    a.sort();
    b.sort();
    assert_eq!(a, b);
}

#[test]
fn root_without_children() {
    let snapshot = vec![info(10, 1), info(11, 1)];
    let tree = build(&snapshot, 10).unwrap();
    assert_eq!(tree.len(), 1);
    assert_eq!(tree.order(), &vec![10]);
    assert_eq!(plan(&tree), vec![10]);
}

#[test]
fn unrelated_processes_stay_out() {
    let snapshot = vec![info(10, 1), info(11, 10), info(20, 1), info(21, 20), info(22, 21)];
    let tree = build(&snapshot, 10).unwrap();
    assert_eq!(tree.order(), &vec![10, 11]);
    assert!(!tree.contains(20));
    assert!(!tree.contains(21));
    assert!(!tree.contains(22));
}

#[test]
fn missing_root() {
    let snapshot = vec![info(10, 1), info(11, 10)];
    assert_eq!(build(&snapshot, 12).err(), Some(Error::RootNotFound { process_id: 12 }));
    assert_eq!(build(&snapshot, 1).err(), Some(Error::RootNotFound { process_id: 1 }));
    let empty: Vec<ProcessInfo> = Vec::new();
    assert_eq!(build(&empty, 10).err(), Some(Error::RootNotFound { process_id: 10 }));
}

#[test]
fn looping_parent_links_are_followed_once() {
    let snapshot = vec![info(10, 12), info(11, 10), info(12, 11)];
    let tree = build(&snapshot, 10).unwrap();
    assert_eq!(tree.order(), &vec![10, 11, 12]);
    assert_eq!(plan(&tree), vec![12, 11, 10]);
    let tree = build(&snapshot, 12).unwrap();
    assert_eq!(tree.order(), &vec![12, 10, 11]);
}

#[test]
fn process_that_is_its_own_parent() {
    let snapshot = vec![info(10, 10), info(11, 10)];
    let tree = build(&snapshot, 10).unwrap();
    assert_eq!(tree.order(), &vec![10, 11]);
}

#[test]
fn id_listed_twice_is_taken_once() {
    let snapshot = vec![
        named(10, 1, "server"),
        named(11, 10, "worker"),
        named(11, 10, "stale"),
        named(12, 11, "helper"),
        named(10, 12, "late"),
    ];
    let tree = build(&snapshot, 10).unwrap();
    assert_eq!(tree.order(), &vec![10, 11, 12]);
    assert_eq!(tree.len(), 3);
    assert_eq!(tree.get(10), Some(&named(10, 1, "server")));
    assert_eq!(tree.get(11), Some(&named(11, 10, "worker")));
    assert_eq!(tree.get(12), Some(&named(12, 11, "helper")));
}

#[test]
fn records_keep_their_names() {
    let snapshot = vec![named(10, 1, "node"), info(11, 10)];
    let tree = build(&snapshot, 10).unwrap();
    assert_eq!(tree.get(10).unwrap().name.as_deref(), Some("node"));
    assert_eq!(tree.get(11).unwrap().name, None);
    assert_eq!(tree.get(10).unwrap().clone(), snapshot[0]);
}

#[test]
fn deep_chain() {
    let mut snapshot: Vec<ProcessInfo> = Vec::new();
    for process_id in 100..1100 {
        snapshot.push(info(process_id, process_id - 1));
    }
    let tree = build(&snapshot, 100).unwrap();
    assert_eq!(tree.len(), 1000);
    let targets = plan(&tree);
    assert_eq!(targets[0], 1099);
    assert_eq!(targets[999], 100);
}
