//! Routes through a snapshot, and what one batch of items contributes.
//!
//! A route names an entry below a directory by the positions of the items
//! that lead to it, one position per directory level. Routes say which entries
//! a walk may yield, without saying how the walk proceeds.

use vstd::prelude::*;
use crate::snapshot::{items_of, SnapshotModel};
use crate::text::is_hidden;
use crate::walker::{
    absorb_item, absorb_items, EntryKind, EntryModel, ItemModel, Node, PendingModel, SkipReason,
    SkippedModel, WalkerModel,
};

verus! {

/// An item is visible unless hidden entries are left out and its name is hidden.
pub open spec fn visible(hide: bool, item: ItemModel) -> bool {
    !(hide && is_hidden(item.name))
}

/// The classification under which an item is yielded.
pub open spec fn kind_of(node: Node) -> EntryKind {
    match node {
        Node::Directory { .. } => EntryKind::Directory,
        Node::Link { .. } => EntryKind::Directory,
        _ => EntryKind::File,
    }
}

/// The directory to which an item leads, or -1 where it leads to none.
pub open spec fn target_of(node: Node) -> int {
    match node {
        Node::Directory { id } => id as int,
        Node::Link { id } => id as int,
        _ => -1,
    }
}

/// The route leads from directory `d` to an entry that a walk may yield:
/// every position names an item of a directory that can be read, every item on
/// the route is visible, all but the last lead to a directory, and the last
/// is not unreadable.
pub open spec fn admissible(m: SnapshotModel, hide: bool, d: int, route: Seq<int>) -> bool
    decreases route.len(),
{
    if route.len() == 0 {
        false
    } else if !(0 <= route[0] < items_of(m, d).len()) {
        false
    } else {
        let item = items_of(m, d)[route[0]];
        if !visible(hide, item) {
            false
        } else if route.len() == 1 {
            !(item.node is Unreadable)
        } else {
            (item.node is Directory || item.node is Link) && admissible(
                m,
                hide,
                target_of(item.node),
                route.skip(1),
            )
        }
    }
}

/// No item on the route is a link.
pub open spec fn link_free(m: SnapshotModel, d: int, route: Seq<int>) -> bool
    decreases route.len(),
{
    if route.len() == 0 {
        true
    } else {
        let item = items_of(m, d)[route[0]];
        !(item.node is Link) && link_free(m, target_of(item.node), route.skip(1))
    }
}

/// The names of the items on the route, in order.
pub open spec fn route_path(m: SnapshotModel, d: int, route: Seq<int>) -> Seq<Seq<char>>
    decreases route.len(),
{
    if route.len() == 0 {
        Seq::empty()
    } else {
        let item = items_of(m, d)[route[0]];
        seq![item.name] + route_path(m, target_of(item.node), route.skip(1))
    }
}

/// The classification of the last item on the route.
pub open spec fn route_kind(m: SnapshotModel, d: int, route: Seq<int>) -> EntryKind
    decreases route.len(),
{
    if route.len() == 0 {
        EntryKind::Directory
    } else {
        let item = items_of(m, d)[route[0]];
        if route.len() == 1 {
            kind_of(item.node)
        } else {
            route_kind(m, target_of(item.node), route.skip(1))
        }
    }
}

/// The entry is the one to which the route leads from the directory `d`,
/// which lies at `base`.
pub open spec fn reached_by(
    m: SnapshotModel,
    hide: bool,
    base: Seq<Seq<char>>,
    d: int,
    route: Seq<int>,
    e: EntryModel,
) -> bool {
    &&& admissible(m, hide, d, route)
    &&& e.path == base + route_path(m, d, route)
    &&& e.kind == route_kind(m, d, route)
}

/// The entries hold one with this path and this classification.
pub open spec fn yields(entries: Seq<EntryModel>, path: Seq<Seq<char>>, kind: EntryKind) -> bool {
    exists|i: int|
        0 <= i < entries.len() && (#[trigger] entries[i]).path == path && entries[i].kind == kind
}

/// The log holds a record that the entry at `path` was passed over for
/// `reason`.
pub open spec fn recorded(skipped: Seq<SkippedModel>, path: Seq<Seq<char>>, reason: SkipReason)
    -> bool {
    exists|i: int|
        0 <= i < skipped.len() && (#[trigger] skipped[i]).path == path && skipped[i].reason
            == reason
}

/// The directory `id` is pending in `w`.
pub open spec fn is_pending(w: WalkerModel, id: int) -> bool {
    exists|j: int| 0 <= j < w.pending.len() && (#[trigger] w.pending[j]).id == id
}

/// The entry `e` is what item `k` of the directory at `dir` yields.
pub open spec fn entry_from(
    dir: Seq<Seq<char>>,
    items: Seq<ItemModel>,
    hide: bool,
    k: int,
    e: EntryModel,
) -> bool {
    &&& 0 <= k < items.len()
    &&& visible(hide, items[k])
    &&& !(items[k].node is Unreadable)
    &&& e.path == dir.push(items[k].name)
    &&& e.kind == kind_of(items[k].node)
}

/// The pending directory `p` is what item `k` of the directory at `dir`
/// schedules.
pub open spec fn pending_from(
    dir: Seq<Seq<char>>,
    items: Seq<ItemModel>,
    hide: bool,
    k: int,
    p: PendingModel,
) -> bool {
    &&& 0 <= k < items.len()
    &&& visible(hide, items[k])
    &&& (items[k].node is Directory || items[k].node is Link)
    &&& p.path == dir.push(items[k].name)
    &&& p.id == target_of(items[k].node)
}

/// Some item of the directory at `dir` yields the entry `e`.
pub open spec fn yielded_by_some(
    dir: Seq<Seq<char>>,
    items: Seq<ItemModel>,
    hide: bool,
    e: EntryModel,
) -> bool {
    exists|k: int| entry_from(dir, items, hide, k, e)
}

/// Some item of the directory at `dir` schedules the pending directory `p`.
pub open spec fn scheduled_by_some(
    dir: Seq<Seq<char>>,
    items: Seq<ItemModel>,
    hide: bool,
    p: PendingModel,
) -> bool {
    exists|k: int| pending_from(dir, items, hide, k, p)
}

/// Whatever a batch of items yields or schedules comes from one of its
/// items, and what was pending before stays pending, in place.
pub proof fn lemma_absorb_sound(r: WalkerModel, dir: Seq<Seq<char>>, items: Seq<ItemModel>)
    ensures
        ({
            let a = absorb_items(r, dir, items);
            let hide = r.ignore_hidden;
            &&& a.walker.ignore_hidden == hide
            &&& a.walker.pending.len() >= r.pending.len()
            &&& forall|j: int| 0 <= j < r.pending.len() ==> a.walker.pending[j] == r.pending[j]
            &&& a.walker.skipped.len() >= r.skipped.len()
            &&& forall|j: int| 0 <= j < r.skipped.len() ==> a.walker.skipped[j] == r.skipped[j]
            &&& r.visited.subset_of(a.walker.visited)
            &&& forall|id: u64|
                a.walker.visited.contains(id) && !r.visited.contains(id) ==> is_pending(
                    a.walker,
                    id as int,
                )
            &&& forall|j: int|
                r.pending.len() <= j < a.walker.pending.len() ==> scheduled_by_some(
                    dir,
                    items,
                    hide,
                    #[trigger] a.walker.pending[j],
                )
            &&& forall|i: int|
                0 <= i < a.entries.len() ==> yielded_by_some(dir, items, hide, #[trigger] a.entries[i])
        }),
    decreases items.len(),
{
    if items.len() > 0 {
        let hide = r.ignore_hidden;
        let front = items.drop_last();
        let b = absorb_items(r, dir, front);
        let item = items.last();
        let last = absorb_item(b.walker, dir, item);
        let a = absorb_items(r, dir, items);
        lemma_absorb_sound(r, dir, front);
        assert forall|j: int| 0 <= j < r.pending.len() implies a.walker.pending[j]
            == r.pending[j] by {
            assert(b.walker.pending[j] == r.pending[j]);
        }
        assert forall|j: int| 0 <= j < r.skipped.len() implies a.walker.skipped[j]
            == r.skipped[j] by {
            assert(b.walker.skipped[j] == r.skipped[j]);
        }
        assert forall|id: u64|
            a.walker.visited.contains(id) && !r.visited.contains(id) implies is_pending(
            a.walker,
            id as int,
        ) by {
            if b.walker.visited.contains(id) {
                assert(is_pending(b.walker, id as int));
                let j = choose|j: int|
                    0 <= j < b.walker.pending.len() && (#[trigger] b.walker.pending[j]).id == id;
                assert(a.walker.pending[j] == b.walker.pending[j]);
            } else {
                assert(a.walker.pending[b.walker.pending.len() as int].id == id);
            }
        }
        assert forall|j: int| r.pending.len() <= j < a.walker.pending.len() implies scheduled_by_some(
            dir,
            items,
            hide,
            #[trigger] a.walker.pending[j],
        ) by {
            if j < b.walker.pending.len() {
                assert(a.walker.pending[j] == b.walker.pending[j]);
                assert(scheduled_by_some(dir, front, hide, b.walker.pending[j]));
                let k = choose|k: int| pending_from(dir, front, hide, k, b.walker.pending[j]);
                assert(front[k] == items[k]);
                assert(pending_from(dir, items, hide, k, a.walker.pending[j]));
            } else {
                assert(pending_from(dir, items, hide, items.len() - 1, a.walker.pending[j]));
            }
        }
        assert forall|i: int| 0 <= i < a.entries.len() implies yielded_by_some(
            dir,
            items,
            hide,
            #[trigger] a.entries[i],
        ) by {
            if i < b.entries.len() {
                assert(a.entries[i] == b.entries[i]);
                assert(yielded_by_some(dir, front, hide, b.entries[i]));
                let k = choose|k: int| entry_from(dir, front, hide, k, b.entries[i]);
                assert(front[k] == items[k]);
                assert(entry_from(dir, items, hide, k, a.entries[i]));
            } else {
                assert(a.entries[i] == last.entries[i - b.entries.len()]);
                assert(entry_from(dir, items, hide, items.len() - 1, a.entries[i]));
            }
        }
    }
}

/// Every visible item of a batch that is a file or a directory is yielded,
/// and every visible directory is scheduled.
pub proof fn lemma_absorb_complete(
    r: WalkerModel,
    dir: Seq<Seq<char>>,
    items: Seq<ItemModel>,
    k: int,
)
    requires
        0 <= k < items.len(),
        visible(r.ignore_hidden, items[k]),
        items[k].node is File || items[k].node is Directory,
    ensures
        ({
            let a = absorb_items(r, dir, items);
            &&& exists|i: int|
                0 <= i < a.entries.len() && entry_from(
                    dir,
                    items,
                    r.ignore_hidden,
                    k,
                    #[trigger] a.entries[i],
                )
            &&& items[k].node is Directory ==> exists|j: int|
                0 <= j < a.walker.pending.len() && pending_from(
                    dir,
                    items,
                    r.ignore_hidden,
                    k,
                    #[trigger] a.walker.pending[j],
                )
        }),
    decreases items.len(),
{
    let hide = r.ignore_hidden;
    let front = items.drop_last();
    let b = absorb_items(r, dir, front);
    let item = items.last();
    let last = absorb_item(b.walker, dir, item);
    let a = absorb_items(r, dir, items);
    lemma_absorb_sound(r, dir, front);
    if k < items.len() - 1 {
        lemma_absorb_complete(r, dir, front, k);
        assert(front[k] == items[k]);
        let i = choose|i: int|
            0 <= i < b.entries.len() && entry_from(dir, front, hide, k, #[trigger] b.entries[i]);
        assert(a.entries[i] == b.entries[i]);
        assert(entry_from(dir, items, hide, k, a.entries[i]));
        if items[k].node is Directory {
            let j = choose|j: int|
                0 <= j < b.walker.pending.len() && pending_from(
                    dir,
                    front,
                    hide,
                    k,
                    #[trigger] b.walker.pending[j],
                );
            assert(a.walker.pending[j] == b.walker.pending[j]);
            assert(pending_from(dir, items, hide, k, a.walker.pending[j]));
        }
    } else {
        let i = b.entries.len() as int;
        assert(a.entries[i] == last.entries[0]);
        assert(entry_from(dir, items, hide, k, a.entries[i]));
        if items[k].node is Directory {
            let j = b.walker.pending.len() as int;
            assert(pending_from(dir, items, hide, k, a.walker.pending[j]));
        }
    }
}

/// Every visible item of a batch is accounted for: a file or a directory
/// is yielded, an unreadable item is recorded, a link is yielded or recorded
/// as a cycle; and the target of a directory or a link counts as visited
/// afterwards.
pub proof fn lemma_absorb_accounts(
    r: WalkerModel,
    dir: Seq<Seq<char>>,
    items: Seq<ItemModel>,
    k: int,
)
    requires
        0 <= k < items.len(),
        visible(r.ignore_hidden, items[k]),
    ensures
        ({
            let a = absorb_items(r, dir, items);
            let path = dir.push(items[k].name);
            match items[k].node {
                Node::File => yields(a.entries, path, EntryKind::File),
                Node::Directory { id } => yields(a.entries, path, EntryKind::Directory)
                    && a.walker.visited.contains(id),
                Node::Link { id } => (yields(a.entries, path, EntryKind::Directory) || recorded(
                    a.walker.skipped,
                    path,
                    SkipReason::SymlinkCycle,
                )) && a.walker.visited.contains(id),
                Node::Unreadable => recorded(a.walker.skipped, path, SkipReason::PermissionDenied),
            }
        }),
    decreases items.len(),
{
    let front = items.drop_last();
    let b = absorb_items(r, dir, front);
    let item = items.last();
    let last = absorb_item(b.walker, dir, item);
    let a = absorb_items(r, dir, items);
    let path = dir.push(items[k].name);
    lemma_absorb_sound(r, dir, front);
    assert(a.walker == last.walker);
    assert(b.walker.visited.subset_of(a.walker.visited));
    assert(a.walker.skipped.len() >= b.walker.skipped.len());
    assert forall|i: int| 0 <= i < b.walker.skipped.len() implies a.walker.skipped[i]
        == b.walker.skipped[i] by {}
    let node = items[k].node;
    let kind = kind_of(node);
    let reason = if node is Link {
        SkipReason::SymlinkCycle
    } else {
        SkipReason::PermissionDenied
    };
    assert(a.entries == b.entries + last.entries);
    if k < items.len() - 1 {
        lemma_absorb_accounts(r, dir, front, k);
        assert(front[k] == items[k]);
        if yields(b.entries, path, kind) {
            let i = choose|i: int|
                0 <= i < b.entries.len() && (#[trigger] b.entries[i]).path == path
                    && b.entries[i].kind == kind;
            assert(a.entries[i] == b.entries[i]);
            assert(yields(a.entries, path, kind));
        }
        if recorded(b.walker.skipped, path, reason) {
            let i = choose|i: int|
                0 <= i < b.walker.skipped.len() && (#[trigger] b.walker.skipped[i]).path == path
                    && b.walker.skipped[i].reason == reason;
            assert(a.walker.skipped[i] == b.walker.skipped[i]);
            assert(recorded(a.walker.skipped, path, reason));
        }
    } else {
        assert(item == items[k]);
        let i = b.entries.len() as int;
        let j = b.walker.skipped.len() as int;
        match node {
            Node::File => {
                assert(a.entries[i] == last.entries[0]);
                assert(yields(a.entries, path, kind));
            },
            Node::Directory { id } => {
                assert(a.entries[i] == last.entries[0]);
                assert(yields(a.entries, path, kind));
            },
            Node::Link { id } => {
                if b.walker.visited.contains(id) {
                    assert(a.walker.skipped[j].path == path);
                    assert(recorded(a.walker.skipped, path, reason));
                } else {
                    assert(a.entries[i] == last.entries[0]);
                    assert(yields(a.entries, path, kind));
                }
            },
            Node::Unreadable => {
                assert(a.walker.skipped[j].path == path);
                assert(recorded(a.walker.skipped, path, reason));
            },
        }
    }
}

} // verus!
