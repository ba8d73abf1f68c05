//! The complete walk over a snapshot, and why it always ends.

use vstd::prelude::*;
use crate::snapshot::{items_of, listing_at, well_formed, Snapshot, SnapshotModel};
use crate::walker::{
    absorb_item, absorb_items, entry_models, initial, skipped_models, step, Entry, EntryModel,
    Listing, ListingModel, Node, PendingModel, RootProbe, Skipped, SkippedModel, TraverseError,
    Walker, WalkerModel,
};

verus! {

/// What a complete walk gives: the entries in the order in which they were
/// yielded, and the entries that were passed over.
#[derive(Debug)]
pub struct Traversal {
    pub entries: Vec<Entry>,
    pub skipped: Vec<Skipped>,
}

/// The mathematical value of a [`Traversal`].
pub struct TraversalModel {
    pub entries: Seq<EntryModel>,
    pub skipped: Seq<SkippedModel>,
}

impl View for Traversal {
    type V = TraversalModel;

    open spec fn view(&self) -> TraversalModel {
        TraversalModel {
            entries: entry_models(self.entries@),
            skipped: skipped_models(self.skipped@),
        }
    }
}

/// How many of the directories numbered below `n` are not in `visited`.
pub open spec fn unvisited(n: nat, visited: Set<u64>) -> nat
    decreases n,
{
    if n == 0 {
        0
    } else {
        let rest = unvisited((n - 1) as nat, visited);
        if visited.contains((n - 1) as u64) {
            rest
        } else {
            rest + 1
        }
    }
}

/// The number of directories in the subtree of directory `d`, itself
/// included, counted along directory items only.
pub open spec fn weight(m: SnapshotModel, d: int) -> nat
    decreases m.dirs.len() - d, items_of(m, d).len() + 1,
{
    1 + items_weight(m, d, items_of(m, d).len())
}

/// The weights of the directories among the first `k` items of directory `d`,
/// added up.
pub open spec fn items_weight(m: SnapshotModel, d: int, k: nat) -> nat
    decreases m.dirs.len() - d, k,
{
    if k == 0 || k > items_of(m, d).len() {
        0
    } else {
        let rest = items_weight(m, d, (k - 1) as nat);
        match items_of(m, d)[k - 1].node {
            Node::Directory { id } => if d < id < m.dirs.len() {
                rest + weight(m, id as int)
            } else {
                rest
            },
            _ => rest,
        }
    }
}

/// The weights of the pending directories, added up.
pub open spec fn stack_weight(m: SnapshotModel, pending: Seq<PendingModel>) -> nat
    decreases pending.len(),
{
    if pending.len() == 0 {
        0
    } else {
        stack_weight(m, pending.drop_last()) + weight(m, pending.last().id as int)
    }
}

/// Every pending directory of `w` is a directory of `m`.
pub open spec fn in_range(m: SnapshotModel, w: WalkerModel) -> bool {
    forall|j: int| 0 <= j < w.pending.len() ==> (#[trigger] w.pending[j]).id < m.dirs.len()
}

proof fn lemma_unvisited_monotone(n: nat, a: Set<u64>, b: Set<u64>)
    requires
        a.subset_of(b),
    ensures
        unvisited(n, b) <= unvisited(n, a),
    decreases n,
{
    if n > 0 {
        lemma_unvisited_monotone((n - 1) as nat, a, b);
    }
}

proof fn lemma_unvisited_insert(n: nat, visited: Set<u64>, id: u64)
    requires
        id < n <= u64::MAX,
        !visited.contains(id),
    ensures
        unvisited(n, visited.insert(id)) < unvisited(n, visited),
    decreases n,
{
    if id == n - 1 {
        lemma_unvisited_monotone((n - 1) as nat, visited, visited.insert(id));
    } else {
        lemma_unvisited_insert((n - 1) as nat, visited, id);
    }
}

proof fn lemma_stack_weight_push(m: SnapshotModel, pending: Seq<PendingModel>, last: PendingModel)
    ensures
        stack_weight(m, pending.push(last)) == stack_weight(m, pending) + weight(m, last.id as int),
{
    assert(pending.push(last).drop_last() =~= pending);
}

/// Absorbing the first `k` items of directory `d` never loses a visited
/// directory, and where it visits no new one, the pending directories gain
/// no more weight than the directories among those items have.
proof fn lemma_absorb_progress(
    m: SnapshotModel,
    r: WalkerModel,
    d: int,
    path: Seq<Seq<char>>,
    k: nat,
)
    requires
        well_formed(m),
        in_range(m, r),
        0 <= d < m.dirs.len(),
        k <= items_of(m, d).len(),
    ensures
        ({
            let a = absorb_items(r, path, items_of(m, d).take(k as int)).walker;
            let n = m.dirs.len();
            &&& in_range(m, a)
            &&& a.ignore_hidden == r.ignore_hidden
            &&& r.visited.subset_of(a.visited)
            &&& unvisited(n, a.visited) <= unvisited(n, r.visited)
            &&& unvisited(n, a.visited) == unvisited(n, r.visited) ==> stack_weight(m, a.pending)
                <= stack_weight(m, r.pending) + items_weight(m, d, k)
        }),
    decreases k,
{
    let items = items_of(m, d);
    let n = m.dirs.len();
    if k > 0 {
        lemma_absorb_progress(m, r, d, path, (k - 1) as nat);
        assert(items.take(k as int).drop_last() =~= items.take(k - 1));
        assert(items.take(k as int).last() == items[k - 1]);
        let b = absorb_items(r, path, items.take(k - 1)).walker;
        let item = items[k - 1];
        let a = absorb_item(b, path, item).walker;
        assert(a == absorb_items(r, path, items.take(k as int)).walker);
        assert(crate::snapshot::item_fits(m, d, item));
        lemma_unvisited_monotone(n, b.visited, a.visited);
        if a.pending != b.pending {
            let id = match item.node {
                Node::Directory { id } => id,
                Node::Link { id } => id,
                _ => 0u64,
            };
            let last = PendingModel { path: path.push(item.name), id };
            assert(a.pending == b.pending.push(last));
            lemma_stack_weight_push(m, b.pending, last);
            if item.node is Link {
                lemma_unvisited_insert(n, b.visited, id);
            }
        }
    }
}

/// A step of a walk over a well-formed snapshot brings the walk closer to
/// its end: it visits a new directory, or else the pending directories lose
/// weight.
pub proof fn lemma_step_progress(m: SnapshotModel, w: WalkerModel)
    requires
        well_formed(m),
        in_range(m, w),
        w.pending.len() > 0,
    ensures
        ({
            let s = step(w, listing_at(m, w.pending.last().id)).walker;
            let n = m.dirs.len();
            &&& in_range(m, s)
            &&& s.ignore_hidden == w.ignore_hidden
            &&& unvisited(n, s.visited) < unvisited(n, w.visited) || (unvisited(n, s.visited)
                == unvisited(n, w.visited) && stack_weight(m, s.pending) < stack_weight(
                m,
                w.pending,
            ))
        }),
{
    let top = w.pending.last();
    let d = top.id as int;
    let rest = WalkerModel { pending: w.pending.drop_last(), ..w };
    assert(w.pending[w.pending.len() - 1].id < m.dirs.len());
    assert(in_range(m, rest)) by {
        assert forall|j: int| 0 <= j < rest.pending.len() implies (#[trigger] rest.pending[j]).id
            < m.dirs.len() by {
            assert(rest.pending[j] == w.pending[j]);
        }
    }
    match m.dirs[d] {
        ListingModel::Denied => {},
        ListingModel::Items(items) => {
            assert(items == items_of(m, d));
            assert(items.take(items.len() as int) =~= items);
            lemma_absorb_progress(m, rest, d, top.path, items.len());
        },
    }
}

/// The complete walk from the state `w`: steps are taken, each on the
/// listing that the snapshot holds for the directory wanted, until nothing is
/// pending.
pub open spec fn run(m: SnapshotModel, w: WalkerModel) -> TraversalModel
    decreases unvisited(m.dirs.len(), w.visited), stack_weight(m, w.pending),
    when well_formed(m) && in_range(m, w)
    via run_decreases
{
    if w.pending.len() == 0 {
        TraversalModel { entries: Seq::empty(), skipped: w.skipped }
    } else {
        let s = step(w, listing_at(m, w.pending.last().id));
        let rest = run(m, s.walker);
        TraversalModel { entries: s.entries + rest.entries, skipped: rest.skipped }
    }
}

#[via_fn]
proof fn run_decreases(m: SnapshotModel, w: WalkerModel) {
    if w.pending.len() > 0 {
        lemma_step_progress(m, w);
    }
}

/// What a walk of the snapshot `m` gives: an error unless the root is a
/// directory that the snapshot holds, else the complete walk from there.
pub open spec fn walk(m: SnapshotModel, root: RootProbe, ignore_hidden: bool) -> Result<
    TraversalModel,
    TraverseError,
> {
    match root {
        RootProbe::Directory { id } => if id < m.dirs.len() {
            Ok(run(m, initial(id, ignore_hidden)))
        } else {
            Err(TraverseError::InvalidRoot)
        },
        _ => Err(TraverseError::InvalidRoot),
    }
}

/// Walks the snapshot from `root` to the end. The walk is refused unless
/// `root` is a directory that the snapshot holds; otherwise it always ends,
/// whatever links the snapshot holds, and gives exactly what [`walk`] says.
pub fn traverse(snapshot: &Snapshot, root: RootProbe, ignore_hidden: bool) -> (result: Result<
    Traversal,
    TraverseError,
>)
    requires
        snapshot.wf(),
    ensures
        match result {
            Ok(traversal) => walk(snapshot@, root, ignore_hidden) == Ok::<
                TraversalModel,
                TraverseError,
            >(traversal@),
            Err(error) => walk(snapshot@, root, ignore_hidden) == Err::<
                TraversalModel,
                TraverseError,
            >(error),
        },
{
    let id = match root {
        RootProbe::Directory { id } => id,
        _ => {
            return Err(TraverseError::InvalidRoot);
        },
    };
    if snapshot.listing(id).is_none() {
        return Err(TraverseError::InvalidRoot);
    }
    let mut walker = match Walker::begin(root, ignore_hidden) {
        Ok(walker) => walker,
        Err(error) => {
            return Err(error);
        },
    };
    let ghost m = snapshot@;
    let ghost start = walker@;
    let mut entries: Vec<Entry> = Vec::new();
    proof {
        assert(start.pending[0].id == id);
        assert(entry_models(entries@) + run(m, start).entries =~= run(m, start).entries);
    }
    while !walker.is_done()
        invariant
            m == snapshot@,
            well_formed(m),
            in_range(m, walker@),
            run(m, start).entries == entry_models(entries@) + run(m, walker@).entries,
            run(m, start).skipped == run(m, walker@).skipped,
        decreases unvisited(m.dirs.len(), walker@.visited), stack_weight(m, walker@.pending),
    {
        let ghost before = walker@;
        let ghost gathered = entries@;
        proof {
            lemma_step_progress(m, before);
        }
        let mut batch = match walker.next_id() {
            Some(next) => match snapshot.listing(next) {
                Some(listing) => walker.feed(listing),
                None => walker.feed(&Listing::Denied),
            },
            None => Vec::new(),
        };
        let ghost yielded = batch@;
        entries.append(&mut batch);
        proof {
            let s = step(before, listing_at(m, before.pending.last().id));
            assert(walker@ == s.walker);
            assert(entry_models(yielded) == s.entries);
            assert(entry_models(entries@) =~= entry_models(gathered) + s.entries);
            assert(run(m, before).entries == s.entries + run(m, s.walker).entries);
            assert(entry_models(entries@) + run(m, walker@).entries =~= entry_models(gathered) + (
            s.entries + run(m, s.walker).entries));
        }
    }
    let skipped = walker.into_skipped();
    Ok(Traversal { entries, skipped })
}

} // verus!
