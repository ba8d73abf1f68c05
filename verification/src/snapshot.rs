//! A file-system snapshot held in memory, and the complete walk over it.
//!
//! A [`Snapshot`] records, for each concrete directory, what reading it
//! gives. Directories are numbered in the order in which they are created, so
//! a directory always has a larger number than the directory that contains
//! it; links may point anywhere, also upwards.

use vstd::prelude::*;
use crate::walker::{item_models, Item, ItemModel, Listing, ListingModel, Node};

verus! {

/// The mathematical value of a [`Snapshot`]: the listing of each directory,
/// by the directory's number.
pub struct SnapshotModel {
    pub dirs: Seq<ListingModel>,
}

/// The items that reading directory `d` gives; none where the directory may
/// not be read or does not exist.
pub open spec fn items_of(m: SnapshotModel, d: int) -> Seq<ItemModel> {
    if 0 <= d < m.dirs.len() {
        match m.dirs[d] {
            ListingModel::Items(items) => items,
            ListingModel::Denied => Seq::empty(),
        }
    } else {
        Seq::empty()
    }
}

/// What reading the directory `id` gives. A directory that the snapshot does
/// not hold cannot be read.
pub open spec fn listing_at(m: SnapshotModel, id: u64) -> ListingModel {
    if id < m.dirs.len() {
        m.dirs[id as int]
    } else {
        ListingModel::Denied
    }
}

/// An item of directory `d` fits the snapshot when a directory in it is
/// younger than `d`, and a link in it points at a directory that exists.
pub open spec fn item_fits(m: SnapshotModel, d: int, item: ItemModel) -> bool {
    match item.node {
        Node::Directory { id } => d < id < m.dirs.len(),
        Node::Link { id } => id < m.dirs.len(),
        _ => true,
    }
}

/// A snapshot is well formed when it holds a directory 0 and every item fits.
pub open spec fn well_formed(m: SnapshotModel) -> bool {
    &&& 1 <= m.dirs.len() <= u64::MAX
    &&& forall|d: int, k: int|
        0 <= d < m.dirs.len() && 0 <= k < items_of(m, d).len() ==> item_fits(
            m,
            d,
            #[trigger] items_of(m, d)[k],
        )
}

/// The snapshot `m` with `item` appended to directory `d`.
pub open spec fn with_item(m: SnapshotModel, d: int, item: ItemModel) -> SnapshotModel {
    SnapshotModel { dirs: m.dirs.update(d, ListingModel::Items(items_of(m, d).push(item))) }
}

/// The snapshot `m` with one more directory, empty and readable.
pub open spec fn with_directory(m: SnapshotModel) -> SnapshotModel {
    SnapshotModel { dirs: m.dirs.push(ListingModel::Items(Seq::empty())) }
}

/// A file-system snapshot.
pub struct Snapshot {
    dirs: Vec<Listing>,
}

impl View for Snapshot {
    type V = SnapshotModel;

    closed spec fn view(&self) -> SnapshotModel {
        SnapshotModel { dirs: self.dirs@.map_values(|l: Listing| l@) }
    }
}

impl Snapshot {
    /// The validity of a snapshot: its value is well formed.
    pub open spec fn wf(&self) -> bool {
        well_formed(self@)
    }

    /// A snapshot that holds one empty, readable directory, numbered 0.
    pub fn new() -> (snapshot: Snapshot)
        ensures
            snapshot.wf(),
            snapshot@.dirs == seq![ListingModel::Items(Seq::empty())],
    {
        let mut dirs: Vec<Listing> = Vec::new();
        dirs.push(Listing::Items(Vec::new()));
        let snapshot = Snapshot { dirs };
        proof {
            assert(item_models(Seq::<Item>::empty()) =~= Seq::<ItemModel>::empty());
            assert(snapshot@.dirs =~= seq![ListingModel::Items(Seq::empty())]);
        }
        snapshot
    }

    /// The number of directories in the snapshot.
    pub fn directories(&self) -> (count: usize)
        ensures
            count == self@.dirs.len(),
    {
        self.dirs.len()
    }

    /// Appends `item` to directory `dir`, if that directory exists and may be
    /// read.
    fn add_item(&mut self, dir: u64, item: Item) -> (added: bool)
        requires
            old(self).wf(),
            item_fits(old(self)@, dir as int, item@),
        ensures
            final(self).wf(),
            added == (listing_at(old(self)@, dir) is Items),
            added ==> final(self)@ == with_item(old(self)@, dir as int, item@),
            !added ==> final(self)@ == old(self)@,
    {
        if dir >= self.dirs.len() as u64 {
            return false;
        }
        let ghost before = self@;
        let ghost model = item@;
        let added = match &mut self.dirs[dir as usize] {
            Listing::Items(items) => {
                items.push(item);
                true
            },
            Listing::Denied => false,
        };
        proof {
            if added {
                let after = before.dirs.update(
                    dir as int,
                    ListingModel::Items(items_of(before, dir as int).push(model)),
                );
                let old_items = old(self).dirs@[dir as int]->Items_0;
                let new_items = self.dirs@[dir as int]->Items_0;
                assert(self.dirs@.len() == old(self).dirs@.len());
                assert(self.dirs@[dir as int] is Items);
                assert(new_items@ == old_items@.push(item));
                assert(item_models(new_items@) =~= item_models(old_items@).push(model));
                assert forall|d: int| 0 <= d < self.dirs@.len() && d != dir implies self.dirs@[d]
                    == old(self).dirs@[d] by {}
                assert(self@.dirs =~= after);
                assert forall|d: int, k: int|
                    0 <= d < self@.dirs.len() && 0 <= k < items_of(self@, d).len() implies item_fits(
                    self@,
                    d,
                    #[trigger] items_of(self@, d)[k],
                ) by {
                    if d == dir && k == items_of(before, d).len() {
                    } else {
                        assert(items_of(self@, d)[k] == items_of(before, d)[k]);
                    }
                }
            } else {
                assert(self@.dirs =~= before.dirs);
            }
        }
        added
    }

    /// What reading directory `dir` gives, if the snapshot holds it.
    pub fn listing(&self, dir: u64) -> (found: Option<&Listing>)
        ensures
            found is Some == (dir < self@.dirs.len()),
            found is Some ==> found->Some_0@ == self@.dirs[dir as int],
    {
        if dir >= self.dirs.len() as u64 {
            None
        } else {
            Some(&self.dirs[dir as usize])
        }
    }

    /// Tells whether directory `dir` exists and may be read.
    pub fn is_readable(&self, dir: u64) -> (readable: bool)
        ensures
            readable == (listing_at(self@, dir) is Items),
    {
        if dir >= self.dirs.len() as u64 {
            false
        } else {
            match &self.dirs[dir as usize] {
                Listing::Items(_) => true,
                Listing::Denied => false,
            }
        }
    }

    /// Adds a file named `name` to directory `dir`. Nothing is added, and
    /// `false` returned, unless `dir` exists and may be read.
    pub fn add_file(&mut self, dir: u64, name: &str) -> (added: bool)
        requires
            old(self).wf(),
        ensures
            final(self).wf(),
            added == (listing_at(old(self)@, dir) is Items),
            added ==> final(self)@ == with_item(
                old(self)@,
                dir as int,
                ItemModel { name: name@, node: Node::File },
            ),
            !added ==> final(self)@ == old(self)@,
    {
        self.add_item(dir, Item { name: name.to_owned(), node: Node::File })
    }

    /// Adds an item named `name` to directory `dir` of which the process may
    /// learn nothing. Nothing is added, and `false` returned, unless `dir`
    /// exists and may be read.
    pub fn add_unreadable(&mut self, dir: u64, name: &str) -> (added: bool)
        requires
            old(self).wf(),
        ensures
            final(self).wf(),
            added == (listing_at(old(self)@, dir) is Items),
            added ==> final(self)@ == with_item(
                old(self)@,
                dir as int,
                ItemModel { name: name@, node: Node::Unreadable },
            ),
            !added ==> final(self)@ == old(self)@,
    {
        self.add_item(dir, Item { name: name.to_owned(), node: Node::Unreadable })
    }

    /// Adds to directory `dir` a symbolic link named `name` that resolves to
    /// directory `target`. Nothing is added, and `false` returned, unless
    /// `target` exists and `dir` exists and may be read.
    pub fn add_link(&mut self, dir: u64, name: &str, target: u64) -> (added: bool)
        requires
            old(self).wf(),
        ensures
            final(self).wf(),
            added == (listing_at(old(self)@, dir) is Items && target < old(self)@.dirs.len()),
            added ==> final(self)@ == with_item(
                old(self)@,
                dir as int,
                ItemModel { name: name@, node: Node::Link { id: target } },
            ),
            !added ==> final(self)@ == old(self)@,
    {
        if target >= self.dirs.len() as u64 {
            return false;
        }
        self.add_item(dir, Item { name: name.to_owned(), node: Node::Link { id: target } })
    }

    /// Creates a new empty directory and adds it under the name `name` to
    /// directory `dir`. Returns the number of the new directory. Nothing is
    /// created, and `None` returned, unless `dir` exists and may be read.
    pub fn add_directory(&mut self, dir: u64, name: &str) -> (created: Option<u64>)
        requires
            old(self).wf(),
        ensures
            final(self).wf(),
            created is Some == (listing_at(old(self)@, dir) is Items),
            created is Some ==> created->Some_0 == old(self)@.dirs.len() && final(self)@
                == with_item(
                with_directory(old(self)@),
                dir as int,
                ItemModel { name: name@, node: Node::Directory { id: created->Some_0 } },
            ),
            created is None ==> final(self)@ == old(self)@,
    {
        if !self.is_readable(dir) {
            return None;
        }
        let id = self.dirs.len() as u64;
        let ghost before = self@;
        self.dirs.push(Listing::Items(Vec::new()));
        proof {
            assert(item_models(Seq::<Item>::empty()) =~= Seq::<ItemModel>::empty());
            assert(self@.dirs =~= with_directory(before).dirs);
            assert forall|d: int, k: int|
                0 <= d < self@.dirs.len() && 0 <= k < items_of(self@, d).len() implies item_fits(
                self@,
                d,
                #[trigger] items_of(self@, d)[k],
            ) by {
                if d < before.dirs.len() {
                    assert(self@.dirs[d] == before.dirs[d]);
                    assert(items_of(self@, d)[k] == items_of(before, d)[k]);
                    assert(item_fits(before, d, items_of(before, d)[k]));
                } else {
                    assert(self@.dirs[d] == ListingModel::Items(Seq::empty()));
                }
            }
            assert(self.dirs.len() <= usize::MAX && self.dirs.len() == self.dirs@.len());
            assert(well_formed(self@));
        }
        let added = self.add_item(
            dir,
            Item { name: name.to_owned(), node: Node::Directory { id } },
        );
        assert(added);
        Some(id)
    }

    /// Forbids the reading of directory `dir`, whose items are thereby lost
    /// to every later walk. Returns `false` where `dir` does not exist.
    pub fn deny(&mut self, dir: u64) -> (denied: bool)
        requires
            old(self).wf(),
        ensures
            final(self).wf(),
            denied == (dir < old(self)@.dirs.len()),
            denied ==> final(self)@.dirs == old(self)@.dirs.update(dir as int, ListingModel::Denied),
            !denied ==> final(self)@ == old(self)@,
    {
        if dir >= self.dirs.len() as u64 {
            return false;
        }
        let ghost before = self@;
        self.dirs.set(dir as usize, Listing::Denied);
        proof {
            assert(self@.dirs =~= before.dirs.update(dir as int, ListingModel::Denied));
            assert forall|d: int, k: int|
                0 <= d < self@.dirs.len() && 0 <= k < items_of(self@, d).len() implies item_fits(
                self@,
                d,
                #[trigger] items_of(self@, d)[k],
            ) by {
                assert(items_of(self@, d)[k] == items_of(before, d)[k]);
            }
        }
        true
    }
}

} // verus!
