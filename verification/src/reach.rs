//! Which directories a walk reaches when links are in play, and what it
//! does with their items.
//!
//! A link is followed only while its target has not been scheduled, so not
//! every path through a link is walked. Every directory that can be reached
//! at all is nevertheless listed once at least, and each of its visible items
//! is either yielded or recorded as passed over.

use vstd::prelude::*;
use crate::routes::{
    is_pending, lemma_absorb_accounts, lemma_absorb_sound, pending_from, recorded, route_path,
    scheduled_by_some, target_of, visible, yields,
};
use crate::snapshot::{item_fits, items_of, listing_at, well_formed, SnapshotModel};
use crate::traversal::{
    in_range, lemma_step_progress, run, stack_weight, unvisited, walk, TraversalModel,
};
use crate::walker::{
    initial, step, EntryKind, EntryModel, ItemModel, ListingModel, Node, PendingModel, RootProbe,
    SkipReason, TraverseError, WalkerModel,
};

verus! {

/// The positions `q` lead from the directory `from` to the directory `d`,
/// each through a visible item that is a directory or a link.
pub open spec fn leads_to(m: SnapshotModel, hide: bool, from: int, q: Seq<int>, d: int) -> bool
    decreases q.len(),
{
    if q.len() == 0 {
        from == d
    } else if !(0 <= q[0] < items_of(m, from).len()) {
        false
    } else {
        let item = items_of(m, from)[q[0]];
        visible(hide, item) && (item.node is Directory || item.node is Link) && leads_to(
            m,
            hide,
            target_of(item.node),
            q.skip(1),
            d,
        )
    }
}

/// No link among the items at the positions `q` points at a directory in
/// `visited`.
pub open spec fn fresh(m: SnapshotModel, visited: Set<u64>, from: int, q: Seq<int>) -> bool
    decreases q.len(),
{
    if q.len() == 0 {
        true
    } else {
        let item = items_of(m, from)[q[0]];
        (item.node is Link ==> !visited.contains(item.node->Link_id)) && fresh(
            m,
            visited,
            target_of(item.node),
            q.skip(1),
        )
    }
}

/// The positions `q` lead from `from` to `d` and no link on the way points
/// at a directory in `visited`.
pub open spec fn fresh_route(
    m: SnapshotModel,
    hide: bool,
    visited: Set<u64>,
    from: int,
    q: Seq<int>,
    d: int,
) -> bool {
    leads_to(m, hide, from, q, d) && fresh(m, visited, from, q)
}

/// Some pending directory of `w` has a fresh route to `d`.
pub open spec fn anchored(m: SnapshotModel, w: WalkerModel, d: int) -> bool {
    exists|j: int, q: Seq<int>|
        0 <= j < w.pending.len() && #[trigger] fresh_route(
            m,
            w.ignore_hidden,
            w.visited,
            w.pending[j].id as int,
            q,
            d,
        )
}

/// The traversal accounts for the item of the directory at `p`: a file or
/// a directory is yielded, a link is yielded or recorded as a cycle, an
/// unreadable item is recorded.
pub open spec fn item_accounted(t: TraversalModel, p: Seq<Seq<char>>, item: ItemModel) -> bool {
    let path = p.push(item.name);
    match item.node {
        Node::File => yields(t.entries, path, EntryKind::File),
        Node::Directory { .. } => yields(t.entries, path, EntryKind::Directory),
        Node::Link { .. } => yields(t.entries, path, EntryKind::Directory) || recorded(
            t.skipped,
            path,
            SkipReason::SymlinkCycle,
        ),
        Node::Unreadable => recorded(t.skipped, path, SkipReason::PermissionDenied),
    }
}

/// The traversal accounts for the directory `d` under the path `p`: where
/// `d` may not be read, that is recorded; otherwise every visible item of `d`
/// is accounted for.
pub open spec fn accounted(
    m: SnapshotModel,
    hide: bool,
    t: TraversalModel,
    d: int,
    p: Seq<Seq<char>>,
) -> bool {
    if 0 <= d < m.dirs.len() && m.dirs[d] is Denied {
        recorded(t.skipped, p, SkipReason::PermissionDenied)
    } else {
        forall|k: int|
            0 <= k < items_of(m, d).len() && visible(hide, #[trigger] items_of(m, d)[k])
                ==> item_accounted(t, p, items_of(m, d)[k])
    }
}

/// The traversal accounts for `d` under the path to which `q` leads from
/// the pending directory `base`.
pub open spec fn listed_below(
    m: SnapshotModel,
    hide: bool,
    t: TraversalModel,
    base: PendingModel,
    q: Seq<int>,
    d: int,
) -> bool {
    leads_to(m, hide, base.id as int, q, d) && accounted(
        m,
        hide,
        t,
        d,
        base.path + route_path(m, base.id as int, q),
    )
}

/// The traversal accounts for `d` under a path that begins at a pending
/// directory of `w`.
pub open spec fn listed_from_pending(
    m: SnapshotModel,
    w: WalkerModel,
    t: TraversalModel,
    d: int,
) -> bool {
    exists|j: int, q: Seq<int>|
        0 <= j < w.pending.len() && #[trigger] listed_below(
            m,
            w.ignore_hidden,
            t,
            w.pending[j],
            q,
            d,
        )
}

/// The traversal accounts for `d` under the path of a route from `root`.
pub open spec fn listed(m: SnapshotModel, hide: bool, root: int, t: TraversalModel, d: int) -> bool {
    exists|q: Seq<int>| #[trigger]
        leads_to(m, hide, root, q, d) && accounted(m, hide, t, d, route_path(m, root, q))
}

proof fn lemma_yields_more(
    front: Seq<EntryModel>,
    later: Seq<EntryModel>,
    path: Seq<Seq<char>>,
    kind: EntryKind,
)
    requires
        yields(front, path, kind) || yields(later, path, kind),
    ensures
        yields(front + later, path, kind),
{
    let all = front + later;
    if yields(front, path, kind) {
        let i = choose|i: int|
            0 <= i < front.len() && (#[trigger] front[i]).path == path && front[i].kind == kind;
        assert(all[i] == front[i]);
    } else {
        let i = choose|i: int|
            0 <= i < later.len() && (#[trigger] later[i]).path == path && later[i].kind == kind;
        assert(all[front.len() + i] == later[i]);
    }
}

/// What a walker has recorded stays recorded to the end of the walk.
proof fn lemma_run_keeps_records(
    m: SnapshotModel,
    w: WalkerModel,
    path: Seq<Seq<char>>,
    reason: SkipReason,
)
    requires
        well_formed(m),
        in_range(m, w),
        recorded(w.skipped, path, reason),
    ensures
        recorded(run(m, w).skipped, path, reason),
    decreases unvisited(m.dirs.len(), w.visited), stack_weight(m, w.pending),
{
    if w.pending.len() > 0 {
        let top = w.pending.last();
        let listing = listing_at(m, top.id);
        let s = step(w, listing);
        let rest = WalkerModel { pending: w.pending.drop_last(), ..w };
        lemma_step_progress(m, w);
        let i = choose|i: int|
            0 <= i < w.skipped.len() && (#[trigger] w.skipped[i]).path == path
                && w.skipped[i].reason == reason;
        if let ListingModel::Items(items) = listing {
            lemma_absorb_sound(rest, top.path, items);
        }
        assert(s.walker.skipped[i] == w.skipped[i]);
        lemma_run_keeps_records(m, s.walker, path, reason);
    }
}

/// A route that begins with the item at position `k`.
proof fn lemma_route_front(m: SnapshotModel, hide: bool, from: int, k: int, tail: Seq<int>, d: int)
    requires
        0 <= k < items_of(m, from).len(),
    ensures
        leads_to(m, hide, from, seq![k] + tail, d) == (visible(hide, items_of(m, from)[k]) && (
        items_of(m, from)[k].node is Directory || items_of(m, from)[k].node is Link) && leads_to(
            m,
            hide,
            target_of(items_of(m, from)[k].node),
            tail,
            d,
        )),
        route_path(m, from, seq![k] + tail) == seq![items_of(m, from)[k].name] + route_path(
            m,
            target_of(items_of(m, from)[k].node),
            tail,
        ),
{
    let route = seq![k] + tail;
    assert(route.skip(1) =~= tail);
    assert(route[0] == k);
}

/// When a walker moves on and every directory it visited anew is pending,
/// a route that was fresh before is fresh still, or a pending directory has a
/// fresh route to the same end.
proof fn lemma_reanchor(
    m: SnapshotModel,
    before: Set<u64>,
    s: WalkerModel,
    from: int,
    q: Seq<int>,
    d: int,
)
    requires
        fresh_route(m, s.ignore_hidden, before, from, q, d),
        forall|id: u64| s.visited.contains(id) && !before.contains(id) ==> is_pending(s, id as int),
    ensures
        fresh(m, s.visited, from, q) || anchored(m, s, d),
    decreases q.len(),
{
    if q.len() > 0 {
        let item = items_of(m, from)[q[0]];
        let t = target_of(item.node);
        lemma_reanchor(m, before, s, t, q.skip(1), d);
        if !anchored(m, s, d) {
            if item.node is Link && s.visited.contains(item.node->Link_id) {
                let id = item.node->Link_id;
                assert(is_pending(s, id as int));
                let j = choose|j: int| 0 <= j < s.pending.len() && (#[trigger] s.pending[j]).id == id;
                assert(fresh_route(m, s.ignore_hidden, s.visited, s.pending[j].id as int, q.skip(1), d));
            }
        }
    }
}

/// The walk from `w` accounts for every directory to which a fresh route
/// leads from a directory that is pending in `w`.
proof fn lemma_run_lists(m: SnapshotModel, w: WalkerModel, j: int, q: Seq<int>, d: int)
    requires
        well_formed(m),
        in_range(m, w),
        0 <= j < w.pending.len(),
        fresh_route(m, w.ignore_hidden, w.visited, w.pending[j].id as int, q, d),
    ensures
        listed_from_pending(m, w, run(m, w), d),
    decreases unvisited(m.dirs.len(), w.visited), stack_weight(m, w.pending),
{
    let hide = w.ignore_hidden;
    let top = w.pending.last();
    let last = w.pending.len() - 1;
    let listing = listing_at(m, top.id);
    let s = step(w, listing);
    let rest = WalkerModel { pending: w.pending.drop_last(), ..w };
    lemma_step_progress(m, w);
    let t = run(m, w);
    let later = run(m, s.walker);
    assert(w.pending[last].id < m.dirs.len());
    assert(t.entries == s.entries + later.entries);
    assert(t.skipped == later.skipped);
    if let ListingModel::Items(items) = listing {
        lemma_absorb_sound(rest, top.path, items);
    }
    assert forall|a: int| 0 <= a < last implies s.walker.pending[a] == w.pending[a] by {
        assert(rest.pending[a] == w.pending[a]);
    }
    if j == last && q.len() == 0 {
        let p = top.path;
        assert(top.path + route_path(m, top.id as int, q) =~= p);
        match listing {
            ListingModel::Denied => {
                let i = rest.skipped.len() as int;
                assert(s.walker.skipped[i].path == p);
                assert(recorded(s.walker.skipped, p, SkipReason::PermissionDenied));
                lemma_run_keeps_records(m, s.walker, p, SkipReason::PermissionDenied);
            },
            ListingModel::Items(items) => {
                assert forall|k: int|
                    0 <= k < items_of(m, d).len() && visible(
                        hide,
                        #[trigger] items_of(m, d)[k],
                    ) implies item_accounted(t, p, items_of(m, d)[k]) by {
                    let item = items[k];
                    let path = p.push(item.name);
                    assert(items == items_of(m, d));
                    lemma_absorb_accounts(rest, p, items, k);
                    match item.node {
                        Node::File => {
                            lemma_yields_more(s.entries, later.entries, path, EntryKind::File);
                        },
                        Node::Directory { .. } => {
                            lemma_yields_more(s.entries, later.entries, path, EntryKind::Directory);
                        },
                        Node::Link { .. } => {
                            if yields(s.entries, path, EntryKind::Directory) {
                                lemma_yields_more(
                                    s.entries,
                                    later.entries,
                                    path,
                                    EntryKind::Directory,
                                );
                            } else {
                                lemma_run_keeps_records(
                                    m,
                                    s.walker,
                                    path,
                                    SkipReason::SymlinkCycle,
                                );
                            }
                        },
                        Node::Unreadable => {
                            lemma_run_keeps_records(
                                m,
                                s.walker,
                                path,
                                SkipReason::PermissionDenied,
                            );
                        },
                    }
                }
            },
        }
        assert(listed_below(m, hide, t, w.pending[last], q, d));
    } else {
        // The route is taken up again from a directory that is pending after the step.
        if j < last {
            lemma_reanchor(m, w.visited, s.walker, w.pending[j].id as int, q, d);
            if fresh(m, s.walker.visited, w.pending[j].id as int, q) {
                assert(fresh_route(m, hide, s.walker.visited, s.walker.pending[j].id as int, q, d));
            }
        } else {
            let k = q[0];
            let items = items_of(m, top.id as int);
            let item = items[k];
            let target = target_of(item.node);
            assert(listing == ListingModel::Items(items));
            lemma_absorb_accounts(rest, top.path, items, k);
            assert(item_fits(m, top.id as int, item));
            let id = target as u64;
            assert(s.walker.visited.contains(id));
            if item.node is Directory {
                crate::routes::lemma_absorb_complete(rest, top.path, items, k);
                let a = choose|a: int|
                    0 <= a < s.walker.pending.len() && pending_from(
                        top.path,
                        items,
                        hide,
                        k,
                        #[trigger] s.walker.pending[a],
                    );
                assert(s.walker.pending[a].id == id);
            }
            assert(is_pending(s.walker, target));
            let a = choose|a: int|
                0 <= a < s.walker.pending.len() && (#[trigger] s.walker.pending[a]).id == target;
            lemma_reanchor(m, w.visited, s.walker, target, q.skip(1), d);
            if fresh(m, s.walker.visited, target, q.skip(1)) {
                assert(fresh_route(
                    m,
                    hide,
                    s.walker.visited,
                    s.walker.pending[a].id as int,
                    q.skip(1),
                    d,
                ));
            }
        }
        assert(anchored(m, s.walker, d));
        let (j1, q1) = choose|j1: int, q1: Seq<int>|
            0 <= j1 < s.walker.pending.len() && #[trigger] fresh_route(
                m,
                hide,
                s.walker.visited,
                s.walker.pending[j1].id as int,
                q1,
                d,
            );
        lemma_run_lists(m, s.walker, j1, q1, d);
        let (j2, q2) = choose|j2: int, q2: Seq<int>|
            0 <= j2 < s.walker.pending.len() && #[trigger] listed_below(
                m,
                hide,
                later,
                s.walker.pending[j2],
                q2,
                d,
            );
        let base = s.walker.pending[j2];
        let p = base.path + route_path(m, base.id as int, q2);
        // What the rest of the walk accounts for, the whole walk accounts for.
        assert(accounted(m, hide, t, d, p)) by {
            if 0 <= d < m.dirs.len() && m.dirs[d] is Denied {
            } else {
                assert forall|k: int|
                    0 <= k < items_of(m, d).len() && visible(
                        hide,
                        #[trigger] items_of(m, d)[k],
                    ) implies item_accounted(t, p, items_of(m, d)[k]) by {
                    let item = items_of(m, d)[k];
                    let path = p.push(item.name);
                    assert(item_accounted(later, p, item));
                    if !(item.node is Unreadable) && yields(
                        later.entries,
                        path,
                        crate::routes::kind_of(item.node),
                    ) {
                        lemma_yields_more(
                            s.entries,
                            later.entries,
                            path,
                            crate::routes::kind_of(item.node),
                        );
                    }
                }
            }
        }
        if j2 < last {
            assert(listed_below(m, hide, t, w.pending[j2], q2, d));
        } else {
            let items = listing->Items_0;
            assert(scheduled_by_some(top.path, items, hide, base));
            let k = choose|k: int| pending_from(top.path, items, hide, k, base);
            assert(items == items_of(m, top.id as int));
            lemma_route_front(m, hide, top.id as int, k, q2, d);
            assert(top.path + route_path(m, top.id as int, seq![k] + q2) =~= p);
            assert(listed_below(m, hide, t, w.pending[last], seq![k] + q2, d));
        }
    }
}

/// A route from `from` to `d` is fresh with respect to the root alone, or
/// a fresh route leads to `d` from the root.
proof fn lemma_fresh_from_root(
    m: SnapshotModel,
    hide: bool,
    root: u64,
    from: int,
    q: Seq<int>,
    d: int,
)
    requires
        leads_to(m, hide, from, q, d),
    ensures
        fresh(m, Set::<u64>::empty().insert(root), from, q) || exists|q2: Seq<int>| #[trigger]
            fresh_route(m, hide, Set::<u64>::empty().insert(root), root as int, q2, d),
    decreases q.len(),
{
    if q.len() > 0 {
        let item = items_of(m, from)[q[0]];
        let visited = Set::<u64>::empty().insert(root);
        lemma_fresh_from_root(m, hide, root, target_of(item.node), q.skip(1), d);
        if fresh(m, visited, target_of(item.node), q.skip(1)) {
            if item.node is Link && item.node->Link_id == root {
                assert(fresh_route(m, hide, visited, root as int, q.skip(1), d));
            }
        }
    }
}

/// A walk accounts for every directory that can be reached from the root
/// over visible directories and links, the root included: it lists the
/// directory under the path of some route to it, yields each visible file and
/// directory in it, yields each visible link in it or records it as a cycle,
/// and records each unreadable item and the directory itself where it may not
/// be read.
pub proof fn law_reachable_directories_listed(
    m: SnapshotModel,
    root: RootProbe,
    hide: bool,
    t: TraversalModel,
    q: Seq<int>,
    d: int,
)
    requires
        well_formed(m),
        walk(m, root, hide) == Ok::<TraversalModel, TraverseError>(t),
        leads_to(m, hide, root->Directory_id as int, q, d),
    ensures
        listed(m, hide, root->Directory_id as int, t, d),
{
    let id = root->Directory_id;
    let w = initial(id, hide);
    let visited = Set::<u64>::empty().insert(id);
    assert(w.pending[0].id == id);
    lemma_fresh_from_root(m, hide, id, id as int, q, d);
    let q1 = if fresh(m, visited, id as int, q) {
        q
    } else {
        choose|q2: Seq<int>| #[trigger] fresh_route(m, hide, visited, id as int, q2, d)
    };
    lemma_run_lists(m, w, 0, q1, d);
    let (j2, q2) = choose|j2: int, q2: Seq<int>|
        0 <= j2 < w.pending.len() && #[trigger] listed_below(m, hide, t, w.pending[j2], q2, d);
    assert(w.pending[j2].path + route_path(m, id as int, q2) =~= route_path(m, id as int, q2));
}

} // verus!
