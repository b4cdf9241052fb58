//! The process table as it was read at one moment, and what can be said of
//! the parent links in it.

use vstd::prelude::*;

verus! {

/// One line of the process table.
#[derive(Debug, PartialEq, Eq)]
pub struct ProcessInfo {
    pub process_id: u32,
    pub parent_process_id: u32,
    /// The name of the program, where the platform gives one. It serves
    /// diagnostics only and takes no part in any decision.
    pub name: Option<String>,
}

impl Clone for ProcessInfo {
    fn clone(&self) -> (copy: Self)
        ensures
            copy == *self,
    {
        let name: Option<String> = match &self.name {
            Some(name) => Some(name.clone()),
            None => None,
        };
        ProcessInfo {
            process_id: self.process_id,
            parent_process_id: self.parent_process_id,
            name,
        }
    }
}

/// Whether the snapshot has a line for `process_id`.
pub open spec fn is_listed(snapshot: Seq<ProcessInfo>, process_id: u32) -> bool {
    exists|i: int|
        0 <= i < snapshot.len() && (#[trigger] snapshot[i]).process_id == process_id
}

/// Whether the snapshot has a line that gives `child` the parent `parent`.
pub open spec fn is_child(snapshot: Seq<ProcessInfo>, parent: u32, child: u32) -> bool {
    exists|i: int|
        0 <= i < snapshot.len() && (#[trigger] snapshot[i]).process_id == child
            && snapshot[i].parent_process_id == parent
}

/// Whether `path` leads from `from` to `to` along parent links: it starts
/// at `from`, ends at `to`, and each further id is a child of the one
/// before it.
pub open spec fn is_path(snapshot: Seq<ProcessInfo>, path: Seq<u32>, from: u32, to: u32) -> bool {
    &&& path.len() > 0
    &&& path[0] == from
    &&& path[path.len() - 1] == to
    &&& forall|k: int| 0 < k < path.len() ==> is_child(snapshot, path[k - 1], #[trigger] path[k])
}

/// Whether `process_id` is `root` or one of its descendants, however deep.
pub open spec fn in_subtree(snapshot: Seq<ProcessInfo>, root: u32, process_id: u32) -> bool {
    exists|path: Seq<u32>| #[trigger] is_path(snapshot, path, root, process_id)
}

/// The ids that the snapshot lists as children of `parent`, in the order of
/// their lines.
pub open spec fn children_of(snapshot: Seq<ProcessInfo>, parent: u32) -> Seq<u32>
    decreases snapshot.len(),
{
    if snapshot.len() == 0 {
        Seq::empty()
    } else {
        let before = children_of(snapshot.drop_last(), parent);
        if snapshot.last().parent_process_id == parent {
            before.push(snapshot.last().process_id)
        } else {
            before
        }
    }
}

/// The position of the first line for `process_id`.
pub open spec fn first_listing(snapshot: Seq<ProcessInfo>, process_id: u32) -> Option<int>
    decreases snapshot.len(),
{
    if snapshot.len() == 0 {
        None
    } else {
        match first_listing(snapshot.drop_last(), process_id) {
            Some(i) => Some(i),
            None => if snapshot.last().process_id == process_id {
                Some(snapshot.len() - 1)
            } else {
                None
            },
        }
    }
}

/// The line that stands for `process_id`: the first one that names it.
pub open spec fn record_of(snapshot: Seq<ProcessInfo>, process_id: u32) -> ProcessInfo
    recommends
        is_listed(snapshot, process_id),
{
    snapshot[first_listing(snapshot, process_id).unwrap()]
}

/// `children_of` holds exactly the children.
pub proof fn lemma_children_of(snapshot: Seq<ProcessInfo>, parent: u32)
    ensures
        forall|child: u32| #[trigger]
            children_of(snapshot, parent).contains(child) <==> is_child(snapshot, parent, child),
    decreases snapshot.len(),
{
    if snapshot.len() == 0 {
        assert forall|child: u32| #[trigger]
            children_of(snapshot, parent).contains(child) <==> is_child(
                snapshot,
                parent,
                child,
            ) by {}
    } else {
        let rest = snapshot.drop_last();
        let last = snapshot.last();
        let before = children_of(rest, parent);
        lemma_children_of(rest, parent);
        assert forall|child: u32| #[trigger]
            children_of(snapshot, parent).contains(child) <==> is_child(
                snapshot,
                parent,
                child,
            ) by {
            vstd::seq_lib::lemma_seq_contains_after_push(before, last.process_id, child);
            if is_child(snapshot, parent, child) {
                let i = choose|i: int|
                    0 <= i < snapshot.len() && (#[trigger] snapshot[i]).process_id == child
                        && snapshot[i].parent_process_id == parent;
                if i < rest.len() {
                    assert(rest[i] == snapshot[i]);
                    assert(is_child(rest, parent, child));
                }
            }
            if before.contains(child) {
                assert(is_child(rest, parent, child));
                let i = choose|i: int|
                    0 <= i < rest.len() && (#[trigger] rest[i]).process_id == child
                        && rest[i].parent_process_id == parent;
                assert(snapshot[i] == rest[i]);
            }
            if last.parent_process_id == parent && last.process_id == child {
                assert(snapshot[snapshot.len() - 1] == last);
            }
        }
    }
}

/// `first_listing` finds a line exactly for the ids that are listed, and
/// the line it finds is the first for that id.
pub proof fn lemma_first_listing(snapshot: Seq<ProcessInfo>, process_id: u32)
    ensures
        first_listing(snapshot, process_id) is Some <==> is_listed(snapshot, process_id),
        match first_listing(snapshot, process_id) {
            Some(i) => {
                &&& 0 <= i < snapshot.len()
                &&& snapshot[i].process_id == process_id
                &&& forall|j: int| 0 <= j < i ==> (#[trigger] snapshot[j]).process_id != process_id
            },
            None => true,
        },
    decreases snapshot.len(),
{
    if snapshot.len() > 0 {
        let rest = snapshot.drop_last();
        lemma_first_listing(rest, process_id);
        assert forall|j: int| 0 <= j < rest.len() implies rest[j] == snapshot[j] by {}
        if is_listed(snapshot, process_id) {
            let i = choose|i: int|
                0 <= i < snapshot.len() && (#[trigger] snapshot[i]).process_id == process_id;
            if i < rest.len() {
                assert(rest[i].process_id == process_id);
            }
        }
        if is_listed(rest, process_id) {
            let i = choose|i: int|
                0 <= i < rest.len() && (#[trigger] rest[i]).process_id == process_id;
            assert(snapshot[i].process_id == process_id);
        }
        if snapshot.last().process_id == process_id {
            assert(snapshot[snapshot.len() - 1].process_id == process_id);
        }
    }
}

} // verus!
