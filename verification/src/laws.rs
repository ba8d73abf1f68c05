//! What holds of every complete walk over a well-formed snapshot.

use vstd::prelude::*;
use crate::routes::{
    admissible, entry_from, lemma_absorb_complete, lemma_absorb_sound, link_free, pending_from,
    reached_by, route_kind, route_path, scheduled_by_some, target_of, visible, yielded_by_some,
    yields,
};
use crate::snapshot::{items_of, listing_at, well_formed, SnapshotModel};
use crate::text::is_hidden;
use crate::traversal::{
    in_range, lemma_step_progress, run, stack_weight, unvisited, walk, TraversalModel,
};
use crate::walker::{
    initial, step, EntryModel, ListingModel, RootProbe, TraverseError, WalkerModel,
};

verus! {

/// Some route from some pending directory of `w` leads to the entry `e`.
pub open spec fn reached_from_pending(m: SnapshotModel, w: WalkerModel, e: EntryModel) -> bool {
    exists|j: int, route: Seq<int>|
        0 <= j < w.pending.len() && #[trigger] reached_by(
            m,
            w.ignore_hidden,
            w.pending[j].path,
            w.pending[j].id as int,
            route,
            e,
        )
}

/// A route of one position.
proof fn lemma_route_single(m: SnapshotModel, hide: bool, d: int, k: int)
    requires
        0 <= k < items_of(m, d).len(),
    ensures
        route_path(m, d, seq![k]) == seq![items_of(m, d)[k].name],
        route_kind(m, d, seq![k]) == crate::routes::kind_of(items_of(m, d)[k].node),
        admissible(m, hide, d, seq![k]) == (visible(hide, items_of(m, d)[k]) && !(items_of(
            m,
            d,
        )[k].node is Unreadable)),
        link_free(m, d, seq![k]) == !(items_of(m, d)[k].node is Link),
{
    let route = seq![k];
    let item = items_of(m, d)[k];
    assert(route.skip(1) =~= Seq::<int>::empty());
    assert(route_path(m, target_of(item.node), route.skip(1)) =~= Seq::<Seq<char>>::empty());
    assert(route_path(m, d, route) =~= seq![item.name]);
    assert(link_free(m, target_of(item.node), route.skip(1)));
}

/// A route that goes on below its first position.
proof fn lemma_route_longer(m: SnapshotModel, hide: bool, d: int, k: int, tail: Seq<int>)
    requires
        0 <= k < items_of(m, d).len(),
        tail.len() > 0,
    ensures
        route_path(m, d, seq![k] + tail) == seq![items_of(m, d)[k].name] + route_path(
            m,
            target_of(items_of(m, d)[k].node),
            tail,
        ),
        route_kind(m, d, seq![k] + tail) == route_kind(m, target_of(items_of(m, d)[k].node), tail),
        admissible(m, hide, d, seq![k] + tail) == (visible(hide, items_of(m, d)[k]) && (items_of(
            m,
            d,
        )[k].node is Directory || items_of(m, d)[k].node is Link) && admissible(
            m,
            hide,
            target_of(items_of(m, d)[k].node),
            tail,
        )),
        link_free(m, d, seq![k] + tail) == (!(items_of(m, d)[k].node is Link) && link_free(
            m,
            target_of(items_of(m, d)[k].node),
            tail,
        )),
{
    let route = seq![k] + tail;
    assert(route.skip(1) =~= tail);
    assert(route[0] == k);
}

/// Every entry that the walk from `w` yields is reached by a route from a
/// directory that is pending in `w`.
pub proof fn lemma_run_sound(m: SnapshotModel, w: WalkerModel, i: int)
    requires
        well_formed(m),
        in_range(m, w),
        0 <= i < run(m, w).entries.len(),
    ensures
        reached_from_pending(m, w, run(m, w).entries[i]),
    decreases unvisited(m.dirs.len(), w.visited), stack_weight(m, w.pending),
{
    if w.pending.len() > 0 {
        let top = w.pending.last();
        let d = top.id as int;
        let hide = w.ignore_hidden;
        let listing = listing_at(m, top.id);
        let s = step(w, listing);
        let rest = WalkerModel { pending: w.pending.drop_last(), ..w };
        let e = run(m, w).entries[i];
        let last = w.pending.len() - 1;
        lemma_step_progress(m, w);
        assert(w.pending[last].id < m.dirs.len());
        match listing {
            ListingModel::Denied => {
                assert(s.entries.len() == 0);
                assert(run(m, w).entries =~= run(m, s.walker).entries);
                lemma_run_sound(m, s.walker, i);
                let (j, route) = choose|j: int, route: Seq<int>|
                    0 <= j < s.walker.pending.len() && #[trigger] reached_by(
                        m,
                        hide,
                        s.walker.pending[j].path,
                        s.walker.pending[j].id as int,
                        route,
                        e,
                    );
                assert(s.walker.pending[j] == w.pending[j]);
                assert(reached_by(m, hide, w.pending[j].path, w.pending[j].id as int, route, e));
            },
            ListingModel::Items(items) => {
                assert(items == items_of(m, d));
                lemma_absorb_sound(rest, top.path, items);
                if i < s.entries.len() {
                    assert(e == s.entries[i]);
                    assert(yielded_by_some(top.path, items, hide, s.entries[i]));
                    let k = choose|k: int| entry_from(top.path, items, hide, k, e);
                    lemma_route_single(m, hide, d, k);
                    assert(e.path =~= top.path + route_path(m, d, seq![k]));
                    assert(reached_by(m, hide, w.pending[last].path, d, seq![k], e));
                } else {
                    let i2 = i - s.entries.len();
                    assert(e == run(m, s.walker).entries[i2]);
                    lemma_run_sound(m, s.walker, i2);
                    let (j, tail) = choose|j: int, tail: Seq<int>|
                        0 <= j < s.walker.pending.len() && #[trigger] reached_by(
                            m,
                            hide,
                            s.walker.pending[j].path,
                            s.walker.pending[j].id as int,
                            tail,
                            e,
                        );
                    if j < rest.pending.len() {
                        assert(rest.pending[j] == w.pending[j]);
                        assert(s.walker.pending[j] == w.pending[j]);
                        assert(reached_by(
                            m,
                            hide,
                            w.pending[j].path,
                            w.pending[j].id as int,
                            tail,
                            e,
                        ));
                    } else {
                        let p = s.walker.pending[j];
                        assert(scheduled_by_some(top.path, items, hide, p));
                        let k = choose|k: int| pending_from(top.path, items, hide, k, p);
                        lemma_route_longer(m, hide, d, k, tail);
                        assert(e.path =~= top.path + route_path(m, d, seq![k] + tail));
                        assert(reached_by(m, hide, w.pending[last].path, d, seq![k] + tail, e));
                    }
                }
            },
        }
    }
}

/// The walk from `w` yields the entry of every route without links that
/// starts at a directory pending in `w`.
pub proof fn lemma_run_complete(m: SnapshotModel, w: WalkerModel, j: int, route: Seq<int>)
    requires
        well_formed(m),
        in_range(m, w),
        0 <= j < w.pending.len(),
        admissible(m, w.ignore_hidden, w.pending[j].id as int, route),
        link_free(m, w.pending[j].id as int, route),
    ensures
        yields(
            run(m, w).entries,
            w.pending[j].path + route_path(m, w.pending[j].id as int, route),
            route_kind(m, w.pending[j].id as int, route),
        ),
    decreases unvisited(m.dirs.len(), w.visited), stack_weight(m, w.pending),
{
    let top = w.pending.last();
    let d = top.id as int;
    let hide = w.ignore_hidden;
    let listing = listing_at(m, top.id);
    let s = step(w, listing);
    let rest = WalkerModel { pending: w.pending.drop_last(), ..w };
    let last = w.pending.len() - 1;
    lemma_step_progress(m, w);
    let all = run(m, w).entries;
    let later = run(m, s.walker).entries;
    let path = w.pending[j].path + route_path(m, w.pending[j].id as int, route);
    let kind = route_kind(m, w.pending[j].id as int, route);
    assert(w.pending[last].id < m.dirs.len());
    assert(all == s.entries + later);
    if let ListingModel::Items(items) = listing {
        lemma_absorb_sound(rest, top.path, items);
    }
    if j < last {
        assert(rest.pending[j] == w.pending[j]);
        assert(s.walker.pending[j] == w.pending[j]);
        lemma_run_complete(m, s.walker, j, route);
        let i = choose|i: int|
            0 <= i < later.len() && (#[trigger] later[i]).path == path && later[i].kind == kind;
        assert(all[s.entries.len() + i] == later[i]);
    } else {
        let k = route[0];
        let items = items_of(m, d);
        assert(listing == ListingModel::Items(items));
        let item = items[k];
        assert(route =~= seq![k] + route.skip(1));
        if route.len() == 1 {
            lemma_route_single(m, hide, d, k);
            lemma_absorb_complete(rest, top.path, items, k);
            let i = choose|i: int|
                0 <= i < s.entries.len() && entry_from(
                    top.path,
                    items,
                    hide,
                    k,
                    #[trigger] s.entries[i],
                );
            assert(all[i] == s.entries[i]);
            assert(all[i].path =~= path);
        } else {
            let tail = route.skip(1);
            lemma_route_longer(m, hide, d, k, tail);
            lemma_absorb_complete(rest, top.path, items, k);
            let j2 = choose|j2: int|
                0 <= j2 < s.walker.pending.len() && pending_from(
                    top.path,
                    items,
                    hide,
                    k,
                    #[trigger] s.walker.pending[j2],
                );
            lemma_run_complete(m, s.walker, j2, tail);
            let p = s.walker.pending[j2];
            let path2 = p.path + route_path(m, p.id as int, tail);
            assert(path2 =~= path);
            let i = choose|i: int|
                0 <= i < later.len() && (#[trigger] later[i]).path == path2 && later[i].kind
                    == kind;
            assert(all[s.entries.len() + i] == later[i]);
        }
    }
}

/// Some route from the directory `root` leads to the entry `e`.
pub open spec fn on_some_route(m: SnapshotModel, hide: bool, root: int, e: EntryModel) -> bool {
    exists|route: Seq<int>| #[trigger] reached_by(m, hide, Seq::empty(), root, route, e)
}

/// No component of the path is hidden.
pub open spec fn free_of_hidden(path: Seq<Seq<char>>) -> bool {
    forall|c: int| 0 <= c < path.len() ==> !is_hidden(#[trigger] path[c])
}

/// The snapshot holds no link.
pub open spec fn without_links(m: SnapshotModel) -> bool {
    forall|d: int, k: int|
        0 <= d < m.dirs.len() && 0 <= k < items_of(m, d).len() ==> !((#[trigger] items_of(
            m,
            d,
        )[k]).node is Link)
}

/// The walk of `m` from `root` succeeded and gave `t`.
pub open spec fn walked(m: SnapshotModel, root: RootProbe, hide: bool, t: TraversalModel) -> bool {
    &&& well_formed(m)
    &&& walk(m, root, hide) == Ok::<TraversalModel, TraverseError>(t)
}

/// The names on a route that is admissible while hidden entries are left
/// out are free of hidden names.
proof fn lemma_route_free_of_hidden(m: SnapshotModel, d: int, route: Seq<int>)
    requires
        admissible(m, true, d, route),
    ensures
        free_of_hidden(route_path(m, d, route)),
    decreases route.len(),
{
    let item = items_of(m, d)[route[0]];
    let below = route_path(m, target_of(item.node), route.skip(1));
    if route.len() > 1 {
        lemma_route_free_of_hidden(m, target_of(item.node), route.skip(1));
    } else {
        assert(route.skip(1).len() == 0);
        assert(below.len() == 0);
    }
    let path = route_path(m, d, route);
    assert forall|c: int| 0 <= c < path.len() implies !is_hidden(#[trigger] path[c]) by {
        if c > 0 {
            assert(path[c] == below[c - 1]);
        }
    }
}

/// In a snapshot without links, every admissible route is free of links.
proof fn lemma_route_link_free(m: SnapshotModel, hide: bool, d: int, route: Seq<int>)
    requires
        well_formed(m),
        without_links(m),
        admissible(m, hide, d, route),
    ensures
        link_free(m, d, route),
    decreases route.len(),
{
    let item = items_of(m, d)[route[0]];
    assert(0 <= d < m.dirs.len());
    if route.len() > 1 {
        lemma_route_link_free(m, hide, target_of(item.node), route.skip(1));
    } else {
        assert(link_free(m, target_of(item.node), route.skip(1)));
    }
}

/// Every entry that a walk yields exists: a route leads to it from the root
/// through directories that can be read, over visible items only, and the
/// entry carries the names on that route and the classification of its last
/// item.
pub proof fn law_yielded_entries_exist(
    m: SnapshotModel,
    root: RootProbe,
    hide: bool,
    t: TraversalModel,
    i: int,
)
    requires
        walked(m, root, hide, t),
        0 <= i < t.entries.len(),
    ensures
        on_some_route(m, hide, root->Directory_id as int, t.entries[i]),
{
    let id = root->Directory_id;
    let w = initial(id, hide);
    assert(w.pending[0].id == id);
    lemma_run_sound(m, w, i);
    let (j, route) = choose|j: int, route: Seq<int>|
        0 <= j < w.pending.len() && #[trigger] reached_by(
            m,
            hide,
            w.pending[j].path,
            w.pending[j].id as int,
            route,
            t.entries[i],
        );
    assert(reached_by(m, hide, Seq::empty(), id as int, route, t.entries[i]));
}

/// A walk that leaves hidden entries out yields no entry whose path has a
/// hidden component.
pub proof fn law_hidden_entries_left_out(
    m: SnapshotModel,
    root: RootProbe,
    t: TraversalModel,
    i: int,
)
    requires
        walked(m, root, true, t),
        0 <= i < t.entries.len(),
    ensures
        free_of_hidden(t.entries[i].path),
{
    law_yielded_entries_exist(m, root, true, t, i);
    let d = root->Directory_id as int;
    let e = t.entries[i];
    let route = choose|route: Seq<int>| #[trigger] reached_by(m, true, Seq::empty(), d, route, e);
    lemma_route_free_of_hidden(m, d, route);
    assert(e.path =~= route_path(m, d, route));
}

/// A walk yields every entry to which a route without links leads from the
/// root through directories that can be read, over visible items only.
pub proof fn law_reachable_entries_yielded(
    m: SnapshotModel,
    root: RootProbe,
    hide: bool,
    t: TraversalModel,
    route: Seq<int>,
)
    requires
        walked(m, root, hide, t),
        admissible(m, hide, root->Directory_id as int, route),
        link_free(m, root->Directory_id as int, route),
    ensures
        yields(
            t.entries,
            route_path(m, root->Directory_id as int, route),
            route_kind(m, root->Directory_id as int, route),
        ),
{
    let id = root->Directory_id;
    let w = initial(id, hide);
    assert(w.pending[0].id == id);
    lemma_run_complete(m, w, 0, route);
    assert(w.pending[0].path + route_path(m, id as int, route) =~= route_path(m, id as int, route));
}

/// Over a snapshot without links a walk yields exactly the entries to which
/// a route leads from the root: with hidden entries left out, all that are
/// reachable over visible items; otherwise all that are reachable.
pub proof fn law_exact_without_links(
    m: SnapshotModel,
    root: RootProbe,
    hide: bool,
    t: TraversalModel,
    e: EntryModel,
)
    requires
        walked(m, root, hide, t),
        without_links(m),
    ensures
        yields(t.entries, e.path, e.kind) <==> on_some_route(m, hide, root->Directory_id as int, e),
{
    let d = root->Directory_id as int;
    if yields(t.entries, e.path, e.kind) {
        let i = choose|i: int|
            0 <= i < t.entries.len() && (#[trigger] t.entries[i]).path == e.path
                && t.entries[i].kind == e.kind;
        law_yielded_entries_exist(m, root, hide, t, i);
        let route = choose|route: Seq<int>| #[trigger]
            reached_by(m, hide, Seq::empty(), d, route, t.entries[i]);
        assert(reached_by(m, hide, Seq::empty(), d, route, e));
    }
    if on_some_route(m, hide, d, e) {
        let route = choose|route: Seq<int>| #[trigger]
            reached_by(m, hide, Seq::empty(), d, route, e);
        lemma_route_link_free(m, hide, d, route);
        law_reachable_entries_yielded(m, root, hide, t, route);
        assert(e.path =~= route_path(m, d, route));
    }
}

/// A walk is a function of the snapshot, the root and the filter: walking an
/// unchanged snapshot again gives the same entries in the same order, and the
/// same entries passed over.
pub proof fn law_walk_repeatable(
    m: SnapshotModel,
    root: RootProbe,
    hide: bool,
    first: TraversalModel,
    second: TraversalModel,
)
    requires
        walked(m, root, hide, first),
        walked(m, root, hide, second),
    ensures
        first == second,
{
}

} // verus!
