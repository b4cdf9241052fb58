//! The subtree of a process: in which order its members are discovered, that
//! they are exactly the descendants, and in which order they are killed.

use crate::error::Error;
use crate::process::{
    children_of, first_listing, in_subtree, is_child, is_listed, is_path, lemma_children_of,
    lemma_first_listing, record_of, ProcessInfo,
};
use std::collections::HashMap;
use vstd::prelude::*;
use vstd::seq_lib::*;
use vstd::set_lib::*;

verus! {

broadcast use vstd::std_specs::hash::group_hash_axioms;

/// `order` with the ids of `found` added at its end, one after the other,
/// each only if it is not there yet.
pub open spec fn absorb(order: Seq<u32>, found: Seq<u32>) -> Seq<u32>
    decreases found.len(),
{
    if found.len() == 0 {
        order
    } else {
        let before = absorb(order, found.drop_last());
        if before.contains(found.last()) {
            before
        } else {
            before.push(found.last())
        }
    }
}

/// Breadth-first discovery, resumed. The ids before position `next` have
/// had their children added already; the others wait in line. Each step
/// takes the id at `next` and adds those of its children that are new.
/// The walk ends when nobody waits. (Nothing can wait at a position beyond
/// the length of the snapshot, since no id enters twice.)
pub open spec fn explore(snapshot: Seq<ProcessInfo>, order: Seq<u32>, next: nat) -> Seq<u32>
    decreases snapshot.len() + 1 - next,
{
    if next >= order.len() || next > snapshot.len() {
        order
    } else {
        explore(snapshot, absorb(order, children_of(snapshot, order[next as int])), next + 1)
    }
}

/// The order in which the subtree of `root` is discovered: `root` first,
/// then its children in the order of their lines, then theirs, level by
/// level. An id that was seen before is not taken again, so a loop among
/// the parent links does no harm.
pub open spec fn discovery_order(snapshot: Seq<ProcessInfo>, root: u32) -> Seq<u32> {
    explore(snapshot, seq![root], 0)
}

/// The subtree of `root` as a map from each member to its line.
pub open spec fn subtree_map(snapshot: Seq<ProcessInfo>, root: u32) -> Map<u32, ProcessInfo> {
    Map::new(
        |process_id: u32| discovery_order(snapshot, root).contains(process_id),
        |process_id: u32| record_of(snapshot, process_id),
    )
}

/// The order in which a discovered subtree is killed: the last discovered
/// first, the root last.
pub open spec fn kill_order(discovery: Seq<u32>) -> Seq<u32> {
    discovery.reverse()
}

/// What `absorb` keeps and what it adds.
proof fn lemma_absorb(order: Seq<u32>, found: Seq<u32>)
    ensures
        order.len() <= absorb(order, found).len(),
        forall|i: int| 0 <= i < order.len() ==> absorb(order, found)[i] == order[i],
        forall|i: int|
            order.len() <= i < absorb(order, found).len() ==> found.contains(
                #[trigger] absorb(order, found)[i],
            ),
        forall|id: u32| #[trigger]
            absorb(order, found).contains(id) <==> order.contains(id) || found.contains(id),
        order.no_duplicates() ==> absorb(order, found).no_duplicates(),
    decreases found.len(),
{
    if found.len() > 0 {
        let rest = found.drop_last();
        let last = found.last();
        let before = absorb(order, rest);
        let after = absorb(order, found);
        lemma_absorb(order, rest);
        assert(rest.push(last) =~= found);
        assert forall|id: u32| #[trigger] found.contains(id) <==> rest.contains(id) || id == last by {
            lemma_seq_contains_after_push(rest, last, id);
        }
        assert forall|id: u32| #[trigger]
            after.contains(id) <==> order.contains(id) || found.contains(id) by {
            lemma_seq_contains_after_push(before, last, id);
        }
        assert forall|i: int| order.len() <= i < after.len() implies found.contains(
            #[trigger] after[i],
        ) by {
            if i < before.len() {
                assert(rest.contains(before[i]));
            }
        }
        if order.no_duplicates() && !before.contains(last) {
            assert forall|i: int, j: int|
                0 <= i < after.len() && 0 <= j < after.len() && i != j implies after[i]
                != after[j] by {
                if i < before.len() && j == before.len() {
                    assert(before.contains(before[i]));
                }
                if j < before.len() && i == before.len() {
                    assert(before.contains(before[j]));
                }
            }
        }
    }
}

/// A child of a member of the subtree is a member.
proof fn lemma_child_in_subtree(snapshot: Seq<ProcessInfo>, root: u32, parent: u32, child: u32)
    requires
        in_subtree(snapshot, root, parent),
        is_child(snapshot, parent, child),
    ensures
        in_subtree(snapshot, root, child),
{
    let path = choose|path: Seq<u32>| #[trigger] is_path(snapshot, path, root, parent);
    let longer = path.push(child);
    assert forall|k: int| 0 < k < longer.len() implies is_child(
        snapshot,
        longer[k - 1],
        #[trigger] longer[k],
    ) by {
        if k < path.len() {
            assert(is_child(snapshot, path[k - 1], path[k]));
        }
    }
    assert(is_path(snapshot, longer, root, child));
}

/// A sequence without repetitions is no longer than a sequence that holds
/// all of its items.
proof fn lemma_no_longer_than_pool(order: Seq<u32>, pool: Seq<u32>)
    requires
        order.no_duplicates(),
        forall|i: int| 0 <= i < order.len() ==> pool.contains(#[trigger] order[i]),
    ensures
        order.len() <= pool.len(),
{
    order.unique_seq_to_set();
    pool.lemma_cardinality_of_set();
    seq_to_set_is_finite(pool);
    assert forall|id: u32| order.to_set().contains(id) implies pool.to_set().contains(id) by {
        let i = choose|i: int| 0 <= i < order.len() && order[i] == id;
        assert(pool.contains(order[i]));
    }
    lemma_len_subset(order.to_set(), pool.to_set());
}

/// The ids that a snapshot lists, line by line.
spec fn listed_ids(snapshot: Seq<ProcessInfo>) -> Seq<u32> {
    Seq::new(snapshot.len(), |i: int| snapshot[i].process_id)
}

/// What holds of a walk at every step: it started at the root, took
/// nothing twice and nothing from outside the subtree, and missed no child
/// of an id whose turn is over.
spec fn exploring(snapshot: Seq<ProcessInfo>, root: u32, order: Seq<u32>, next: nat) -> bool {
    &&& order.len() > 0
    &&& order[0] == root
    &&& next <= order.len()
    &&& order.no_duplicates()
    &&& forall|i: int| 0 <= i < order.len() ==> in_subtree(snapshot, root, #[trigger] order[i])
    &&& forall|i: int| 0 < i < order.len() ==> is_listed(snapshot, #[trigger] order[i])
    &&& forall|i: int, child: u32|
        0 <= i < next && is_child(snapshot, #[trigger] order[i], child) ==> #[trigger] order.contains(
            child,
        )
}

/// A walk never holds more ids than the snapshot has lines, the root aside.
proof fn lemma_walk_is_short(snapshot: Seq<ProcessInfo>, root: u32, order: Seq<u32>, next: nat)
    requires
        exploring(snapshot, root, order, next),
    ensures
        order.len() <= snapshot.len() + 1,
{
    let pool = listed_ids(snapshot).push(root);
    assert forall|i: int| 0 <= i < order.len() implies pool.contains(#[trigger] order[i]) by {
        if i == 0 {
            assert(pool[snapshot.len() as int] == root);
        } else {
            let at = choose|at: int|
                0 <= at < snapshot.len() && (#[trigger] snapshot[at]).process_id == order[i];
            assert(pool[at] == order[i]);
        }
    }
    lemma_no_longer_than_pool(order, pool);
}

/// The walk starts in good order.
proof fn lemma_walk_begins(snapshot: Seq<ProcessInfo>, root: u32)
    ensures
        exploring(snapshot, root, seq![root], 0),
{
    let start = seq![root];
    assert(is_path(snapshot, start, root, root));
    assert(in_subtree(snapshot, root, start[0]));
}

/// One step keeps the walk in good order.
proof fn lemma_walk_step(snapshot: Seq<ProcessInfo>, root: u32, order: Seq<u32>, next: nat)
    requires
        exploring(snapshot, root, order, next),
        next < order.len(),
    ensures
        exploring(
            snapshot,
            root,
            absorb(order, children_of(snapshot, order[next as int])),
            next + 1,
        ),
{
    let parent = order[next as int];
    let found = children_of(snapshot, parent);
    let after = absorb(order, found);
    lemma_absorb(order, found);
    lemma_children_of(snapshot, parent);
    assert forall|i: int| 0 <= i < after.len() implies in_subtree(
        snapshot,
        root,
        #[trigger] after[i],
    ) by {
        if i >= order.len() {
            assert(found.contains(after[i]));
            assert(in_subtree(snapshot, root, order[next as int]));
            lemma_child_in_subtree(snapshot, root, parent, after[i]);
        } else {
            assert(after[i] == order[i]);
        }
    }
    assert forall|i: int| 0 < i < after.len() implies is_listed(snapshot, #[trigger] after[i]) by {
        if i >= order.len() {
            assert(found.contains(after[i]));
            assert(is_child(snapshot, parent, after[i]));
        } else {
            assert(after[i] == order[i]);
        }
    }
    assert forall|i: int, child: u32|
        0 <= i < next + 1 && is_child(snapshot, #[trigger] after[i], child) implies #[trigger] after.contains(
        child,
    ) by {
        assert(after[i] == order[i]);
        if i < next {
            assert(order.contains(child));
        } else {
            assert(found.contains(child));
        }
    }
}

/// The walk ends in good order, with nobody left waiting.
proof fn lemma_walk_ends(snapshot: Seq<ProcessInfo>, root: u32, order: Seq<u32>, next: nat)
    requires
        exploring(snapshot, root, order, next),
    ensures
        exploring(
            snapshot,
            root,
            explore(snapshot, order, next),
            explore(snapshot, order, next).len(),
        ),
    decreases snapshot.len() + 1 - next,
{
    lemma_walk_is_short(snapshot, root, order, next);
    if next < order.len() {
        lemma_walk_step(snapshot, root, order, next);
        lemma_walk_ends(
            snapshot,
            root,
            absorb(order, children_of(snapshot, order[next as int])),
            next + 1,
        );
    }
}

/// A finished walk holds every id that a path from the root leads to.
proof fn lemma_path_stays_inside(
    snapshot: Seq<ProcessInfo>,
    root: u32,
    order: Seq<u32>,
    path: Seq<u32>,
    k: int,
)
    requires
        exploring(snapshot, root, order, order.len()),
        0 <= k < path.len(),
        is_path(snapshot, path, root, path[path.len() - 1]),
    ensures
        order.contains(path[k]),
    decreases k,
{
    if k == 0 {
        assert(order[0] == path[0]);
    } else {
        lemma_path_stays_inside(snapshot, root, order, path, k - 1);
        let i = choose|i: int| 0 <= i < order.len() && order[i] == path[k - 1];
        assert(is_child(snapshot, path[k - 1], path[k]));
        assert(is_child(snapshot, order[i], path[k]));
    }
}

/// The discovery of a subtree finds exactly the subtree: the root comes
/// first, no id comes twice, and an id is found if and only if a path of
/// parent links leads from the root to it. The last clause does not
/// mention the order of the lines in the snapshot: whatever the order in
/// which the members are met, the same members are found.
pub proof fn lemma_discovery_is_subtree(snapshot: Seq<ProcessInfo>, root: u32)
    ensures
        discovery_order(snapshot, root).len() > 0,
        discovery_order(snapshot, root)[0] == root,
        discovery_order(snapshot, root).no_duplicates(),
        forall|process_id: u32| #[trigger]
            discovery_order(snapshot, root).contains(process_id) <==> in_subtree(
                snapshot,
                root,
                process_id,
            ),
{
    let order = discovery_order(snapshot, root);
    lemma_walk_begins(snapshot, root);
    lemma_walk_ends(snapshot, root, seq![root], 0);
    assert forall|process_id: u32| #[trigger]
        order.contains(process_id) <==> in_subtree(snapshot, root, process_id) by {
        if order.contains(process_id) {
            let i = choose|i: int| 0 <= i < order.len() && order[i] == process_id;
            assert(in_subtree(snapshot, root, order[i]));
        }
        if in_subtree(snapshot, root, process_id) {
            let path = choose|path: Seq<u32>| #[trigger] is_path(snapshot, path, root, process_id);
            lemma_path_stays_inside(snapshot, root, order, path, path.len() - 1);
        }
    }
}

/// What can be reached along the parent links of one snapshot can be
/// reached in any snapshot that has the same links.
proof fn lemma_subtree_follows_links(
    first: Seq<ProcessInfo>,
    second: Seq<ProcessInfo>,
    root: u32,
    process_id: u32,
)
    requires
        forall|parent: u32, child: u32|
            is_child(first, parent, child) ==> is_child(second, parent, child),
        in_subtree(first, root, process_id),
    ensures
        in_subtree(second, root, process_id),
{
    let path = choose|path: Seq<u32>| #[trigger] is_path(first, path, root, process_id);
    assert forall|k: int| 0 < k < path.len() implies is_child(
        second,
        path[k - 1],
        #[trigger] path[k],
    ) by {
        assert(is_child(first, path[k - 1], path[k]));
    }
    assert(is_path(second, path, root, process_id));
}

/// A line of one snapshot that the other holds too gives the same link there.
proof fn lemma_links_of_shared_lines(first: Seq<ProcessInfo>, second: Seq<ProcessInfo>)
    requires
        forall|line: ProcessInfo| first.contains(line) ==> second.contains(line),
    ensures
        forall|parent: u32, child: u32|
            is_child(first, parent, child) ==> is_child(second, parent, child),
{
    assert forall|parent: u32, child: u32| is_child(first, parent, child) implies is_child(
        second,
        parent,
        child,
    ) by {
        let i = choose|i: int|
            0 <= i < first.len() && (#[trigger] first[i]).process_id == child
                && first[i].parent_process_id == parent;
        assert(first.contains(first[i]));
        let j = choose|j: int| 0 <= j < second.len() && second[j] == first[i];
        assert(second[j].process_id == child);
    }
}

/// The members of a subtree do not depend on the order of the lines: two
/// snapshots that hold the same lines, in whatever order, give the same
/// members for every root, though they may discover them in another order.
pub proof fn lemma_members_ignore_line_order(
    first: Seq<ProcessInfo>,
    second: Seq<ProcessInfo>,
    root: u32,
)
    requires
        forall|line: ProcessInfo| first.contains(line) <==> second.contains(line),
    ensures
        forall|process_id: u32|
            discovery_order(first, root).contains(process_id) <==> discovery_order(
                second,
                root,
            ).contains(process_id),
{
    lemma_discovery_is_subtree(first, root);
    lemma_discovery_is_subtree(second, root);
    lemma_links_of_shared_lines(first, second);
    lemma_links_of_shared_lines(second, first);
    assert forall|process_id: u32|
        discovery_order(first, root).contains(process_id) <==> discovery_order(
            second,
            root,
        ).contains(process_id) by {
        if in_subtree(first, root, process_id) {
            lemma_subtree_follows_links(first, second, root, process_id);
        }
        if in_subtree(second, root, process_id) {
            lemma_subtree_follows_links(second, first, root, process_id);
        }
    }
}

/// Reversing the kill order gives the discovery order back.
pub proof fn lemma_kill_order_reversed(discovery: Seq<u32>)
    ensures
        kill_order(discovery).len() == discovery.len(),
        forall|i: int|
            0 <= i < discovery.len() ==> #[trigger] kill_order(discovery)[i] == discovery[discovery.len()
                - 1 - i],
        kill_order(kill_order(discovery)) == discovery,
{
    assert(kill_order(kill_order(discovery)) =~= discovery);
}

/// The members of one subtree, each with its line of the snapshot, in the
/// order in which they were discovered. No id occurs twice in that order,
/// and the ids in it are exactly those that have a line here.
#[derive(Debug)]
pub struct ProcessMap {
    order: Vec<u32>,
    records: HashMap<u32, ProcessInfo>,
}

impl View for ProcessMap {
    type V = Map<u32, ProcessInfo>;

    closed spec fn view(&self) -> Map<u32, ProcessInfo> {
        self.records@
    }
}

impl ProcessMap {
    #[verifier::type_invariant]
    spec fn well_formed(&self) -> bool {
        &&& self.order@.len() > 0
        &&& self.order@.no_duplicates()
        &&& forall|process_id: u32|
            self.records@.contains_key(process_id) <==> self.order@.contains(process_id)
    }

    /// The members in the order of their discovery, the root first.
    pub closed spec fn discovery(&self) -> Seq<u32> {
        self.order@
    }

    /// The number of members.
    pub fn len(&self) -> (len: usize)
        ensures
            len == self.discovery().len(),
            len == self@.dom().len(),
    {
        proof {
            use_type_invariant(self);
            self.order@.unique_seq_to_set();
            assert(self.records@.dom() =~= self.order@.to_set());
        }
        self.order.len()
    }

    /// Whether `process_id` is a member.
    pub fn contains(&self, process_id: u32) -> (member: bool)
        ensures
            member == self@.contains_key(process_id),
            member == self.discovery().contains(process_id),
    {
        proof {
            use_type_invariant(self);
        }
        self.records.contains_key(&process_id)
    }

    /// The line of a member.
    pub fn get(&self, process_id: u32) -> (record: Option<&ProcessInfo>)
        ensures
            match record {
                Some(record) => self@.contains_key(process_id) && *record == self@[process_id],
                None => !self@.contains_key(process_id),
            },
    {
        self.records.get(&process_id)
    }

    /// The members in the order of their discovery.
    pub fn order(&self) -> (order: &Vec<u32>)
        ensures
            order@ == self.discovery(),
    {
        &self.order
    }

    /// Gives up the map for the order of discovery.
    pub fn into_discovery(self) -> (order: Vec<u32>)
        ensures
            order@ == self.discovery(),
    {
        self.order
    }
}

/// What the two indexes over a snapshot hold: under each parent its
/// children in the order of their lines, and under each id the position of
/// its first line.
spec fn indexed(
    snapshot: Seq<ProcessInfo>,
    children: Map<u32, Vec<u32>>,
    listing: Map<u32, usize>,
) -> bool {
    &&& forall|id: u32| #[trigger]
        children_of(snapshot, id) == if children.contains_key(id) {
            children[id]@
        } else {
            Seq::<u32>::empty()
        }
    &&& forall|id: u32| #[trigger]
        first_listing(snapshot, id) == if listing.contains_key(id) {
            Some(listing[id] as int)
        } else {
            None
        }
}

/// Indexes the snapshot by parent and by process id in one pass.
fn index_snapshot(snapshot: &Vec<ProcessInfo>) -> (index: (
    HashMap<u32, Vec<u32>>,
    HashMap<u32, usize>,
))
    ensures
        indexed(snapshot@, index.0@, index.1@),
{
    let mut children: HashMap<u32, Vec<u32>> = HashMap::new();
    let mut listing: HashMap<u32, usize> = HashMap::new();
    let mut i: usize = 0;
    while i < snapshot.len()
        invariant
            0 <= i <= snapshot.len(),
            indexed(snapshot@.take(i as int), children@, listing@),
        decreases snapshot.len() - i,
    {
        let process_id: u32 = snapshot[i].process_id;
        let parent: u32 = snapshot[i].parent_process_id;
        let ghost seen = snapshot@.take(i as int);
        let ghost now = snapshot@.take(i + 1);
        let ghost children_before = children@;
        let ghost listing_before = listing@;
        if !listing.contains_key(&process_id) {
            listing.insert(process_id, i);
        }
        let mut kids: Vec<u32> = match children.remove(&parent) {
            Some(kids) => kids,
            None => Vec::new(),
        };
        kids.push(process_id);
        children.insert(parent, kids);
        proof {
            assert(now.drop_last() =~= seen);
            assert(now.last() == snapshot@[i as int]);
            assert forall|id: u32| #[trigger]
                children_of(now, id) == if children@.contains_key(id) {
                    children@[id]@
                } else {
                    Seq::<u32>::empty()
                } by {
                assert(children_of(seen, id) == if children_before.contains_key(id) {
                    children_before[id]@
                } else {
                    Seq::<u32>::empty()
                });
            }
            assert forall|id: u32| #[trigger]
                first_listing(now, id) == if listing@.contains_key(id) {
                    Some(listing@[id] as int)
                } else {
                    None
                } by {
                assert(first_listing(seen, id) == if listing_before.contains_key(id) {
                    Some(listing_before[id] as int)
                } else {
                    None
                });
            }
        }
        i = i + 1;
    }
    proof {
        assert(snapshot@.take(snapshot.len() as int) =~= snapshot@);
    }
    (children, listing)
}

/// Builds the subtree of `root` from a snapshot.
///
/// Fails with `RootNotFound` exactly when the snapshot has no line for
/// `root`. Otherwise the members are `root` and every id that parent links
/// lead to from it, each once, in breadth-first order, and each is mapped
/// to the first line that names it. Stale or looping parent links are
/// followed at most once.
pub fn build(snapshot: &Vec<ProcessInfo>, root: u32) -> (tree: Result<ProcessMap, Error>)
    ensures
        match tree {
            Ok(tree) => {
                &&& is_listed(snapshot@, root)
                &&& tree.discovery() == discovery_order(snapshot@, root)
                &&& tree@ == subtree_map(snapshot@, root)
                &&& forall|process_id: u32|
                    tree@.contains_key(process_id) <==> in_subtree(snapshot@, root, process_id)
            },
            Err(error) => {
                &&& !is_listed(snapshot@, root)
                &&& error == Error::RootNotFound { process_id: root }
            },
        },
{
    let (children, listing) = index_snapshot(snapshot);
    proof {
        lemma_first_listing(snapshot@, root);
        lemma_walk_begins(snapshot@, root);
        lemma_discovery_is_subtree(snapshot@, root);
    }
    let root_at: usize = match listing.get(&root) {
        Some(at) => *at,
        None => {
            return Err(Error::RootNotFound { process_id: root });
        },
    };
    let mut records: HashMap<u32, ProcessInfo> = HashMap::new();
    let mut order: Vec<u32> = Vec::new();
    records.insert(root, snapshot[root_at].clone());
    order.push(root);
    assert(order@ =~= seq![root]);
    let mut head: usize = 0;
    while head < order.len()
        invariant
            indexed(snapshot@, children@, listing@),
            exploring(snapshot@, root, order@, head as nat),
            explore(snapshot@, order@, head as nat) == discovery_order(snapshot@, root),
            forall|id: u32| records@.contains_key(id) <==> order@.contains(id),
            forall|id: u32| records@.contains_key(id) ==> records@[id] == record_of(snapshot@, id),
        decreases snapshot.len() + 1 - head,
    {
        let parent: u32 = order[head];
        let ghost before = order@;
        let ghost found = children_of(snapshot@, parent);
        proof {
            lemma_walk_is_short(snapshot@, root, before, head as nat);
            lemma_children_of(snapshot@, parent);
        }
        match children.get(&parent) {
            Some(kids) => {
                let mut k: usize = 0;
                while k < kids.len()
                    invariant
                        0 <= k <= kids.len(),
                        kids@ == found,
                        found == children_of(snapshot@, parent),
                        indexed(snapshot@, children@, listing@),
                        order@ == absorb(before, found.take(k as int)),
                        forall|child: u32| #[trigger]
                            found.contains(child) <==> is_child(snapshot@, parent, child),
                        forall|id: u32| records@.contains_key(id) <==> order@.contains(id),
                        forall|id: u32|
                            records@.contains_key(id) ==> records@[id] == record_of(
                                snapshot@,
                                id,
                            ),
                    decreases kids.len() - k,
                {
                    let kid: u32 = kids[k];
                    proof {
                        assert(found.take(k + 1).drop_last() =~= found.take(k as int));
                        assert(found.take(k + 1).last() == kid);
                        assert(found.contains(kid));
                        assert(is_child(snapshot@, parent, kid));
                        let at = choose|at: int|
                            0 <= at < snapshot@.len() && (#[trigger] snapshot@[at]).process_id
                                == kid && snapshot@[at].parent_process_id == parent;
                        assert(is_listed(snapshot@, kid));
                        lemma_first_listing(snapshot@, kid);
                        assert(first_listing(snapshot@, kid) is Some);
                    }
                    if !records.contains_key(&kid) {
                        let at: usize = *listing.get(&kid).unwrap();
                        records.insert(kid, snapshot[at].clone());
                        order.push(kid);
                        proof {
                            assert forall|id: u32| records@.contains_key(id) <==> order@.contains(
                                id,
                            ) by {
                                lemma_seq_contains_after_push(
                                    absorb(before, found.take(k as int)),
                                    kid,
                                    id,
                                );
                            }
                        }
                    }
                    k = k + 1;
                }
                proof {
                    assert(found.take(kids.len() as int) =~= found);
                }
            },
            None => {
                proof {
                    assert(found =~= Seq::<u32>::empty());
                }
            },
        }
        proof {
            assert(order@ == absorb(before, found));
            lemma_walk_step(snapshot@, root, before, head as nat);
        }
        head = head + 1;
    }
    proof {
        assert(order@ == discovery_order(snapshot@, root));
        assert(records@ =~= subtree_map(snapshot@, root));
    }
    Ok(ProcessMap { order, records })
}

/// Plans the killing of a subtree: its members from the last discovered to
/// the first, so that a process is signalled only after all that descend
/// from it. The plan holds the members of the tree, each once, and nothing
/// else; it is never empty, since a subtree holds at least its root.
pub fn plan(tree: &ProcessMap) -> (targets: Vec<u32>)
    ensures
        targets@ == kill_order(tree.discovery()),
        targets@.len() > 0,
        targets@.no_duplicates(),
        forall|process_id: u32| targets@.contains(process_id) <==> tree@.contains_key(process_id),
{
    proof {
        use_type_invariant(tree);
    }
    let len: usize = tree.order.len();
    let mut targets: Vec<u32> = Vec::new();
    let mut i: usize = len;
    while i > 0
        invariant
            len == tree.order@.len(),
            0 <= i <= len,
            targets@.len() == len - i,
            forall|j: int| 0 <= j < targets@.len() ==> targets@[j] == tree.order@[len - 1 - j],
        decreases i,
    {
        i = i - 1;
        targets.push(tree.order[i]);
    }
    proof {
        assert(targets@ =~= tree.order@.reverse());
        assert forall|process_id: u32|
            targets@.contains(process_id) <==> tree.order@.contains(process_id) by {
            if targets@.contains(process_id) {
                let j = choose|j: int| 0 <= j < targets@.len() && targets@[j] == process_id;
                assert(tree.order@[len - 1 - j] == process_id);
            }
            if tree.order@.contains(process_id) {
                let j = choose|j: int| 0 <= j < tree.order@.len() && tree.order@[j] == process_id;
                assert(targets@[len - 1 - j] == process_id);
            }
        }
    }
    targets
}

} // verus!
