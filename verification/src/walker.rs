//! The directory walk as a state machine.
//!
//! A [`Walker`] never touches the file system. It names the directory whose
//! listing it wants next; the caller reads that directory and feeds the
//! listing back; the walker answers with the entries that the listing
//! contributes. The walk is over when no directory is pending. Because the
//! caller pulls one listing at a time, it can stop early at no cost.

use vstd::prelude::*;
use crate::text::{copy_texts, is_hidden, is_hidden_name, lemma_texts_push, texts};

verus! {

/// What a discovered entry is.
#[derive(Clone, Copy, Debug, PartialEq, Eq, Structural)]
pub enum EntryKind {
    File,
    Directory,
}

/// A discovered entry: its path below the root of the walk, one component
/// per directory level, and its classification.
#[derive(Debug, PartialEq, Eq)]
pub struct Entry {
    pub path: Vec<String>,
    pub kind: EntryKind,
}

/// The mathematical value of an [`Entry`].
pub struct EntryModel {
    pub path: Seq<Seq<char>>,
    pub kind: EntryKind,
}

impl View for Entry {
    type V = EntryModel;

    open spec fn view(&self) -> EntryModel {
        EntryModel { path: texts(self.path@), kind: self.kind }
    }
}

/// The values of a list of entries, in order.
pub open spec fn entry_models(entries: Seq<Entry>) -> Seq<EntryModel> {
    entries.map_values(|e: Entry| e@)
}

/// What a directory listing says of one of its items. A directory carries
/// the identity of the concrete directory; a link is a symbolic link that
/// resolves to a directory and carries the identity of its target. A
/// symbolic link to anything else is a file. An item whose nature the
/// process is not allowed to learn is unreadable.
#[derive(Clone, Copy, Debug, PartialEq, Eq, Structural)]
pub enum Node {
    File,
    Directory { id: u64 },
    Link { id: u64 },
    Unreadable,
}

/// What a directory entry is by itself, before any link is followed.
#[derive(Clone, Copy, Debug, PartialEq, Eq, Structural)]
pub enum Seen {
    /// Neither a directory nor a symbolic link.
    File,
    Directory,
    Symlink,
    /// The process may not learn what the entry is.
    Unknown,
}

/// What following a symbolic link gives.
#[derive(Clone, Copy, Debug, PartialEq, Eq, Structural)]
pub enum Resolved {
    Directory,
    /// Something that is no directory.
    Other,
    /// Nothing: the link dangles.
    Broken,
    /// The process may not follow the link.
    Denied,
}

/// How an entry is classified for the walk. `id` is the identity of the
/// concrete directory that the entry is or resolves to, where one could be
/// established. A directory or a link to one whose identity is unknown cannot
/// be told from those already visited, and counts as unreadable.
pub open spec fn classified(seen: Seen, resolved: Resolved, id: Option<u64>) -> Node {
    match seen {
        Seen::File => Node::File,
        Seen::Unknown => Node::Unreadable,
        Seen::Directory => match id {
            Some(id) => Node::Directory { id },
            None => Node::Unreadable,
        },
        Seen::Symlink => match resolved {
            Resolved::Directory => match id {
                Some(id) => Node::Link { id },
                None => Node::Unreadable,
            },
            Resolved::Denied => Node::Unreadable,
            _ => Node::File,
        },
    }
}

/// Classifies an entry for the walk. `resolved` counts only for a symbolic
/// link, `id` only for a directory and for a link to one.
pub fn classify(seen: Seen, resolved: Resolved, id: Option<u64>) -> (node: Node)
    ensures
        node == classified(seen, resolved, id),
{
    match seen {
        Seen::File => Node::File,
        Seen::Unknown => Node::Unreadable,
        Seen::Directory => match id {
            Some(id) => Node::Directory { id },
            None => Node::Unreadable,
        },
        Seen::Symlink => match resolved {
            Resolved::Directory => match id {
                Some(id) => Node::Link { id },
                None => Node::Unreadable,
            },
            Resolved::Denied => Node::Unreadable,
            _ => Node::File,
        },
    }
}

/// One item of a directory listing. An item of which not even the name
/// could be read is listed with an empty name, as unreadable.
#[derive(Debug)]
pub struct Item {
    pub name: String,
    pub node: Node,
}

/// The mathematical value of an [`Item`].
pub struct ItemModel {
    pub name: Seq<char>,
    pub node: Node,
}

impl View for Item {
    type V = ItemModel;

    open spec fn view(&self) -> ItemModel {
        ItemModel { name: self.name@, node: self.node }
    }
}

/// The values of a list of items, in order.
pub open spec fn item_models(items: Seq<Item>) -> Seq<ItemModel> {
    items.map_values(|i: Item| i@)
}

/// The outcome of reading one directory.
#[derive(Debug)]
pub enum Listing {
    /// The process may not read the directory.
    Denied,
    /// The items of the directory, in the order in which they were read.
    Items(Vec<Item>),
}

/// The mathematical value of a [`Listing`].
pub enum ListingModel {
    Denied,
    Items(Seq<ItemModel>),
}

impl View for Listing {
    type V = ListingModel;

    open spec fn view(&self) -> ListingModel {
        match self {
            Listing::Denied => ListingModel::Denied,
            Listing::Items(items) => ListingModel::Items(item_models(items@)),
        }
    }
}

/// Why the walk passed over an entry without failing.
#[derive(Clone, Copy, Debug, PartialEq, Eq, Structural)]
pub enum SkipReason {
    /// The process may not read the entry.
    PermissionDenied,
    /// The entry is a link to a directory that the walk has already scheduled.
    SymlinkCycle,
}

/// An entry that the walk passed over, and why.
#[derive(Debug, PartialEq, Eq)]
pub struct Skipped {
    pub path: Vec<String>,
    pub reason: SkipReason,
}

/// The mathematical value of a [`Skipped`].
pub struct SkippedModel {
    pub path: Seq<Seq<char>>,
    pub reason: SkipReason,
}

impl View for Skipped {
    type V = SkippedModel;

    open spec fn view(&self) -> SkippedModel {
        SkippedModel { path: texts(self.path@), reason: self.reason }
    }
}

/// The values of a list of skipped entries, in order.
pub open spec fn skipped_models(skipped: Seq<Skipped>) -> Seq<SkippedModel> {
    skipped.map_values(|s: Skipped| s@)
}

/// A directory that is scheduled and not yet listed.
pub struct Pending {
    pub path: Vec<String>,
    pub id: u64,
}

/// The mathematical value of a [`Pending`].
pub struct PendingModel {
    pub path: Seq<Seq<char>>,
    pub id: u64,
}

impl View for Pending {
    type V = PendingModel;

    open spec fn view(&self) -> PendingModel {
        PendingModel { path: texts(self.path@), id: self.id }
    }
}

/// The values of a list of pending directories, in order.
pub open spec fn pending_models(pending: Seq<Pending>) -> Seq<PendingModel> {
    pending.map_values(|p: Pending| p@)
}

/// What the caller learned of the root before the walk.
#[derive(Clone, Copy, Debug, PartialEq, Eq, Structural)]
pub enum RootProbe {
    /// Nothing exists at the root path.
    Missing,
    /// The root path names something that is not a directory.
    NotADirectory,
    /// The root is a directory with this identity.
    Directory { id: u64 },
}

/// The one failure that ends a walk before it yields anything.
#[derive(Clone, Copy, Debug, PartialEq, Eq, Structural)]
pub enum TraverseError {
    InvalidRoot,
}

/// The state of a walk: the filter policy, the directories still to list
/// (the last one is listed next), the identities of all directories that
/// were ever scheduled, and the entries passed over so far.
pub struct WalkerModel {
    pub ignore_hidden: bool,
    pub pending: Seq<PendingModel>,
    pub visited: Set<u64>,
    pub skipped: Seq<SkippedModel>,
}

/// A state change together with the entries it yields.
pub struct Absorbed {
    pub walker: WalkerModel,
    pub entries: Seq<EntryModel>,
}

/// The state in which a walk of the directory `root` begins.
pub open spec fn initial(root: u64, ignore_hidden: bool) -> WalkerModel {
    WalkerModel {
        ignore_hidden,
        pending: seq![PendingModel { path: Seq::empty(), id: root }],
        visited: Set::empty().insert(root),
        skipped: Seq::empty(),
    }
}

/// The walker `w` with one more pending directory, whose identity counts as
/// visited from now on.
pub open spec fn schedule(w: WalkerModel, path: Seq<Seq<char>>, id: u64) -> WalkerModel {
    WalkerModel {
        pending: w.pending.push(PendingModel { path, id }),
        visited: w.visited.insert(id),
        ..w
    }
}

/// The walker `w` with one more skipped entry.
pub open spec fn pass_over(w: WalkerModel, path: Seq<Seq<char>>, reason: SkipReason) -> WalkerModel {
    WalkerModel { skipped: w.skipped.push(SkippedModel { path, reason }), ..w }
}

/// What one item of the directory at `dir` does to a walk.
///
/// A hidden item is dropped without trace when hidden entries are ignored,
/// and with it everything below it. An unreadable item is passed over. A file
/// is yielded. A directory is yielded and scheduled. A link is treated as a
/// directory unless its target was scheduled before, in which case it is
/// passed over.
pub open spec fn absorb_item(w: WalkerModel, dir: Seq<Seq<char>>, item: ItemModel) -> Absorbed {
    let path = dir.push(item.name);
    if w.ignore_hidden && is_hidden(item.name) {
        Absorbed { walker: w, entries: Seq::empty() }
    } else {
        match item.node {
            Node::File => Absorbed {
                walker: w,
                entries: seq![EntryModel { path, kind: EntryKind::File }],
            },
            Node::Unreadable => Absorbed {
                walker: pass_over(w, path, SkipReason::PermissionDenied),
                entries: Seq::empty(),
            },
            Node::Directory { id } => Absorbed {
                walker: schedule(w, path, id),
                entries: seq![EntryModel { path, kind: EntryKind::Directory }],
            },
            Node::Link { id } => if w.visited.contains(id) {
                Absorbed {
                    walker: pass_over(w, path, SkipReason::SymlinkCycle),
                    entries: Seq::empty(),
                }
            } else {
                Absorbed {
                    walker: schedule(w, path, id),
                    entries: seq![EntryModel { path, kind: EntryKind::Directory }],
                }
            },
        }
    }
}

/// What the items of the directory at `dir` do to a walk, taken in order.
pub open spec fn absorb_items(w: WalkerModel, dir: Seq<Seq<char>>, items: Seq<ItemModel>) -> Absorbed
    decreases items.len(),
{
    if items.len() == 0 {
        Absorbed { walker: w, entries: Seq::empty() }
    } else {
        let before = absorb_items(w, dir, items.drop_last());
        let last = absorb_item(before.walker, dir, items.last());
        Absorbed { walker: last.walker, entries: before.entries + last.entries }
    }
}

/// One step of a walk: the last pending directory leaves the schedule and
/// its listing is absorbed. A directory that may not be read is passed over.
/// A walk with nothing pending stays as it is.
pub open spec fn step(w: WalkerModel, listing: ListingModel) -> Absorbed {
    if w.pending.len() == 0 {
        Absorbed { walker: w, entries: Seq::empty() }
    } else {
        let top = w.pending.last();
        let rest = WalkerModel { pending: w.pending.drop_last(), ..w };
        match listing {
            ListingModel::Denied => Absorbed {
                walker: pass_over(rest, top.path, SkipReason::PermissionDenied),
                entries: Seq::empty(),
            },
            ListingModel::Items(items) => absorb_items(rest, top.path, items),
        }
    }
}

/// A walk in progress.
pub struct Walker {
    ignore_hidden: bool,
    pending: Vec<Pending>,
    visited: Vec<u64>,
    skipped: Vec<Skipped>,
}

impl View for Walker {
    type V = WalkerModel;

    closed spec fn view(&self) -> WalkerModel {
        WalkerModel {
            ignore_hidden: self.ignore_hidden,
            pending: pending_models(self.pending@),
            visited: self.visited@.to_set(),
            skipped: skipped_models(self.skipped@),
        }
    }
}

/// Tells whether `id` occurs in `ids`.
fn holds(ids: &Vec<u64>, id: u64) -> (found: bool)
    ensures
        found == ids@.to_set().contains(id),
{
    let mut i: usize = 0;
    while i < ids.len()
        invariant
            i <= ids.len(),
            forall|k: int| 0 <= k < i ==> ids@[k] != id,
        decreases ids.len() - i,
    {
        if ids[i] == id {
            return true;
        }
        i += 1;
    }
    false
}

/// The path of the item `name` in the directory at `dir`.
fn child_path(dir: &Vec<String>, name: &String) -> (path: Vec<String>)
    ensures
        texts(path@) == texts(dir@).push(name@),
{
    let mut path = copy_texts(dir);
    let ghost before = path@;
    path.push(name.clone());
    proof {
        lemma_texts_push(before, *name);
    }
    path
}

impl Walker {
    /// Begins a walk at a root of which the caller learned `root`. The walk
    /// is refused, before anything is yielded, unless the root is a directory.
    pub fn begin(root: RootProbe, ignore_hidden: bool) -> (started: Result<Walker, TraverseError>)
        ensures
            match root {
                RootProbe::Directory { id } => started is Ok && started->Ok_0@ == initial(
                    id,
                    ignore_hidden,
                ),
                _ => started == Err::<Walker, TraverseError>(TraverseError::InvalidRoot),
            },
    {
        match root {
            RootProbe::Directory { id } => {
                let mut pending: Vec<Pending> = Vec::new();
                pending.push(Pending { path: Vec::new(), id });
                let mut visited: Vec<u64> = Vec::new();
                visited.push(id);
                let walker = Walker { ignore_hidden, pending, visited, skipped: Vec::new() };
                proof {
                    let model = initial(id, ignore_hidden);
                    assert(walker@.pending =~= model.pending) by {
                        assert(texts(walker.pending@[0].path@) =~= Seq::<Seq<char>>::empty());
                    }
                    assert(walker@.visited =~= model.visited) by {
                        assert(walker.visited@[0] == id);
                    }
                    assert(walker@.skipped =~= model.skipped);
                }
                Ok(walker)
            },
            _ => Err(TraverseError::InvalidRoot),
        }
    }

    /// Tells whether the walk is over.
    pub fn is_done(&self) -> (done: bool)
        ensures
            done == (self@.pending.len() == 0),
    {
        self.pending.len() == 0
    }

    /// Tells whether hidden entries are left out of this walk.
    pub fn ignores_hidden(&self) -> (flag: bool)
        ensures
            flag == self@.ignore_hidden,
    {
        self.ignore_hidden
    }

    /// The path of the directory whose listing the walk wants next, if any.
    pub fn next_directory(&self) -> (next: Option<Vec<String>>)
        ensures
            self@.pending.len() == 0 ==> next is None,
            self@.pending.len() > 0 ==> next is Some && texts(next->Some_0@)
                == self@.pending.last().path,
    {
        if self.pending.len() == 0 {
            None
        } else {
            Some(copy_texts(&self.pending[self.pending.len() - 1].path))
        }
    }

    /// The identity of the directory whose listing the walk wants next, if any.
    pub fn next_id(&self) -> (next: Option<u64>)
        ensures
            self@.pending.len() == 0 ==> next is None,
            self@.pending.len() > 0 ==> next == Some(self@.pending.last().id),
    {
        if self.pending.len() == 0 {
            None
        } else {
            Some(self.pending[self.pending.len() - 1].id)
        }
    }

    /// Schedules the directory at `path` and marks its identity as visited.
    fn push_pending(&mut self, path: Vec<String>, id: u64)
        ensures
            final(self)@ == schedule(old(self)@, texts(path@), id),
    {
        if !holds(&self.visited, id) {
            self.visited.push(id);
        }
        self.pending.push(Pending { path, id });
        proof {
            let model = schedule(old(self)@, texts(path@), id);
            assert(self@.pending =~= model.pending);
            assert(self@.visited =~= model.visited) by {
                assert forall|x: u64| self.visited@.contains(x) <==> (old(self).visited@.contains(x)
                    || x == id) by {
                    if old(self).visited@.contains(id) {
                    } else {
                        assert(self.visited@ == old(self).visited@.push(id));
                        if old(self).visited@.contains(x) {
                            let k = choose|k: int|
                                0 <= k < old(self).visited@.len() && old(self).visited@[k] == x;
                            assert(self.visited@[k] == x);
                        }
                        if x == id {
                            assert(self.visited@[old(self).visited@.len() as int] == x);
                        }
                    }
                }
            }
        }
    }

    /// Records that the entry at `path` was passed over.
    fn push_skipped(&mut self, path: Vec<String>, reason: SkipReason)
        ensures
            final(self)@ == pass_over(old(self)@, texts(path@), reason),
    {
        self.skipped.push(Skipped { path, reason });
        proof {
            assert(self@.skipped =~= pass_over(old(self)@, texts(path@), reason).skipped);
        }
    }

    /// Absorbs one item of the directory at `dir`, appending what it yields.
    fn absorb(&mut self, dir: &Vec<String>, item: &Item, entries: &mut Vec<Entry>)
        ensures
            final(self)@ == absorb_item(old(self)@, texts(dir@), item@).walker,
            entry_models(final(entries)@) == entry_models(old(entries)@) + absorb_item(
                old(self)@,
                texts(dir@),
                item@,
            ).entries,
    {
        let ghost wanted = absorb_item(old(self)@, texts(dir@), item@);
        if self.ignore_hidden && is_hidden_name(item.name.as_str()) {
            proof {
                assert(entry_models(entries@) =~= entry_models(old(entries)@) + wanted.entries);
            }
            return ;
        }
        let path = child_path(dir, &item.name);
        match item.node {
            Node::File => {
                entries.push(Entry { path, kind: EntryKind::File });
            },
            Node::Unreadable => {
                self.push_skipped(path, SkipReason::PermissionDenied);
            },
            Node::Directory { id } => {
                entries.push(Entry { path: copy_texts(&path), kind: EntryKind::Directory });
                self.push_pending(path, id);
            },
            Node::Link { id } => {
                if holds(&self.visited, id) {
                    self.push_skipped(path, SkipReason::SymlinkCycle);
                } else {
                    entries.push(Entry { path: copy_texts(&path), kind: EntryKind::Directory });
                    self.push_pending(path, id);
                }
            },
        }
        proof {
            assert(entry_models(entries@) =~= entry_models(old(entries)@) + wanted.entries);
        }
    }

    /// Takes the listing of the directory that the walk wanted next and
    /// returns the entries that it contributes, in the order of the listing.
    /// Fed to a finished walk, a listing changes nothing and yields nothing.
    pub fn feed(&mut self, listing: &Listing) -> (entries: Vec<Entry>)
        ensures
            final(self)@ == step(old(self)@, listing@).walker,
            entry_models(entries@) == step(old(self)@, listing@).entries,
    {
        let mut entries: Vec<Entry> = Vec::new();
        assert(entry_models(entries@) =~= Seq::<EntryModel>::empty());
        if self.pending.len() == 0 {
            return entries;
        }
        let top = self.pending.pop().unwrap();
        let ghost rest = self@;
        proof {
            let model = old(self)@;
            assert(rest.pending =~= model.pending.drop_last());
            assert(rest == WalkerModel { pending: model.pending.drop_last(), ..model });
            assert(top@ == model.pending.last());
        }
        match listing {
            Listing::Denied => {
                self.push_skipped(top.path, SkipReason::PermissionDenied);
            },
            Listing::Items(items) => {
                let mut i: usize = 0;
                while i < items.len()
                    invariant
                        i <= items.len(),
                        self@ == absorb_items(
                            rest,
                            texts(top.path@),
                            item_models(items@).take(i as int),
                        ).walker,
                        entry_models(entries@) == absorb_items(
                            rest,
                            texts(top.path@),
                            item_models(items@).take(i as int),
                        ).entries,
                    decreases items.len() - i,
                {
                    proof {
                        let all = item_models(items@);
                        assert(all.take(i + 1).drop_last() =~= all.take(i as int));
                        assert(all.take(i + 1).last() == items@[i as int]@);
                    }
                    self.absorb(&top.path, &items[i], &mut entries);
                    i += 1;
                }
                proof {
                    let all = item_models(items@);
                    assert(all.take(items.len() as int) =~= all);
                }
            },
        }
        entries
    }

    /// Ends the walk and hands out the entries passed over, oldest first.
    pub fn into_skipped(self) -> (log: Vec<Skipped>)
        ensures
            skipped_models(log@) == self@.skipped,
    {
        self.skipped
    }

    /// The entries passed over so far, oldest first.
    pub fn skipped(&self) -> (log: &Vec<Skipped>)
        ensures
            skipped_models(log@) == self@.skipped,
    {
        &self.skipped
    }
}

} // verus!
