//! Building the index from what the items directory and the tags directory
//! hold. Reading the directories is left to the caller; what is read is
//! handed over as plain entries.

use crate::index::{AppState, IndexError, ItemView, StateView};
use crate::path::{child_text, is_canonical_path, is_entry_name};
use vstd::prelude::*;

verus! {

/// One entry of a directory that was read.
#[derive(Clone, Debug, PartialEq, Eq)]
pub struct DirEntry {
    /// The entry's name in its directory.
    pub file_name: String,
    /// The canonical path that the entry leads to.
    pub canonical: String,
    /// Whether that path is a directory.
    pub is_dir: bool,
}

/// A `DirEntry` as a value.
pub struct EntryView {
    pub file_name: Seq<char>,
    pub canonical: Seq<char>,
    pub is_dir: bool,
}

impl View for DirEntry {
    type V = EntryView;

    open spec fn view(&self) -> EntryView {
        EntryView { file_name: self.file_name@, canonical: self.canonical@, is_dir: self.is_dir }
    }
}

/// The entries of a list, as values.
pub open spec fn entry_views(entries: Seq<DirEntry>) -> Seq<EntryView> {
    entries.map_values(|e: DirEntry| e@)
}

/// The entry of the items directory that cannot become an item, and why.
#[derive(Clone, Copy, Debug, PartialEq, Eq)]
pub struct ScanError {
    /// The position of the entry in what was read.
    pub entry: usize,
    /// Why it cannot become an item.
    pub reason: IndexError,
}

/// A directory below the tags root that is still to be read.
#[derive(Clone, Debug, PartialEq, Eq)]
pub struct PendingDir {
    /// The canonical path of the directory.
    pub path: String,
    /// The display name of the tag that the directory is: its path relative
    /// to the tags root. Empty for the tags root itself, which is no tag.
    pub name: String,
}

/// A `PendingDir` as a value.
pub struct DirView {
    pub path: Seq<char>,
    pub name: Seq<char>,
}

impl View for PendingDir {
    type V = DirView;

    open spec fn view(&self) -> DirView {
        DirView { path: self.path@, name: self.name@ }
    }
}

/// What an entry found below the tags root is taken for.
#[derive(Clone, Copy, Debug, PartialEq, Eq)]
pub enum EntryKind {
    /// A link to an item, in the directory of a tag: the item carries the tag.
    Member,
    /// A directory that is not known yet: a new tag, to be read in turn.
    SubTag,
    /// Anything else. It is passed over.
    Ignored,
}

/// The display name of a tag named `file_name` inside the tag named
/// `parent`: the two with a separator between them, or `file_name` alone
/// directly below the tags root.
pub open spec fn nested_name(parent: Seq<char>, file_name: Seq<char>) -> Seq<char> {
    if parent.len() == 0 {
        file_name
    } else {
        parent + seq!['/'] + file_name
    }
}

impl StateView {
    /// The state after every entry of the items directory became an item,
    /// in the order in which the entries were read.
    pub open spec fn with_items(self, entries: Seq<EntryView>) -> StateView
        decreases entries.len(),
    {
        if entries.len() == 0 {
            self
        } else {
            self.with_items(entries.drop_last()).with_item(
                entries.last().canonical,
                entries.last().file_name,
            )
        }
    }

    /// What the entry `e`, found in the directory `dir`, is taken for. An
    /// entry that leads to an item is a membership if `dir` is a tag and the
    /// entry's name is a proper one. Any other directory is a new tag,
    /// unless it is one already or its path is not canonical.
    pub open spec fn classify(self, dir: Seq<char>, e: EntryView) -> EntryKind {
        if self.items.contains_key(e.canonical) {
            if self.check_link(dir, e.canonical, e.file_name) is Ok {
                EntryKind::Member
            } else {
                EntryKind::Ignored
            }
        } else if e.is_dir && self.check_tag(e.canonical) is Ok {
            EntryKind::SubTag
        } else {
            EntryKind::Ignored
        }
    }

    /// The state after the entry `e` of the directory `dir` was seen.
    pub open spec fn scan_entry(self, dir: DirView, e: EntryView) -> StateView {
        match self.classify(dir.path, e) {
            EntryKind::Member => self.linked(
                dir.path,
                e.canonical,
                child_text(dir.path, e.file_name),
            ),
            EntryKind::SubTag => self.with_tag(e.canonical, nested_name(dir.name, e.file_name)),
            EntryKind::Ignored => self,
        }
    }

    /// The state after all of `entries`, read from `dir`, were seen in order.
    pub open spec fn scan_dir(self, dir: DirView, entries: Seq<EntryView>) -> StateView
        decreases entries.len(),
    {
        if entries.len() == 0 {
            self
        } else {
            self.scan_dir(dir, entries.drop_last()).scan_entry(dir, entries.last())
        }
    }

    /// The directories among `entries` that became tags, in order: those
    /// that are to be read next.
    pub open spec fn found_dirs(self, dir: DirView, entries: Seq<EntryView>) -> Seq<DirView>
        decreases entries.len(),
    {
        if entries.len() == 0 {
            Seq::empty()
        } else {
            let before = self.found_dirs(dir, entries.drop_last());
            let e = entries.last();
            if self.scan_dir(dir, entries.drop_last()).classify(dir.path, e) is SubTag {
                before.push(DirView { path: e.canonical, name: nested_name(dir.name, e.file_name) })
            } else {
                before
            }
        }
    }
}

/// The display name of a tag named `file_name` inside the tag named `parent`.
pub fn nested_tag_name(parent: &str, file_name: &str) -> (name: String)
    ensures
        name@ == nested_name(parent@, file_name@),
{
    let mut name = String::from_str(parent);
    if parent.unicode_len() != 0 {
        proof {
            reveal_strlit("/");
        }
        name.append("/");
        name.append(file_name);
        name
    } else {
        assert(name@ + file_name@ == file_name@);
        name.append(file_name);
        name
    }
}

impl AppState {
    /// Why `entry` cannot become an item, if it cannot.
    fn check_entry(&self, entry: &DirEntry) -> (done: Result<(), IndexError>)
        ensures
            done == self@.check_item(entry.canonical@, entry.file_name@),
    {
        if !is_canonical_path(entry.canonical.as_str()) {
            Err(IndexError::NotCanonical)
        } else if !is_entry_name(entry.file_name.as_str()) {
            Err(IndexError::BadName)
        } else if self.has_tag(entry.canonical.as_str()) {
            Err(IndexError::IsTag)
        } else {
            Ok(())
        }
    }

    /// What `entry`, found in the directory `dir`, is taken for.
    pub fn classify(&self, dir: &str, entry: &DirEntry) -> (kind: EntryKind)
        ensures
            kind == self@.classify(dir@, entry@),
    {
        if self.has_item(entry.canonical.as_str()) {
            if self.has_tag(dir) && is_entry_name(entry.file_name.as_str()) {
                EntryKind::Member
            } else {
                EntryKind::Ignored
            }
        } else if entry.is_dir && is_canonical_path(entry.canonical.as_str()) && !self.has_tag(
            entry.canonical.as_str(),
        ) {
            EntryKind::SubTag
        } else {
            EntryKind::Ignored
        }
    }
}

/// Adds the entries of the items directory to the index: each becomes an
/// item under its canonical path, with its file name as display name,
/// whatever kind of file it is. If one of them cannot become an item,
/// nothing is added and the first such entry is reported.
pub fn scan_items(state: &mut AppState, entries: &Vec<DirEntry>) -> (done: Result<(), ScanError>)
    requires
        old(state).wf(),
    ensures
        final(state).wf(),
        match done {
            Ok(()) => {
                &&& forall|j: int|
                    0 <= j < entries.len() ==> old(state)@.check_item(
                        (#[trigger] entries[j]).canonical@,
                        entries[j].file_name@,
                    ) is Ok
                &&& final(state)@ == old(state)@.with_items(entry_views(entries@))
            },
            Err(e) => {
                &&& e.entry < entries.len()
                &&& forall|j: int|
                    0 <= j < e.entry ==> old(state)@.check_item(
                        (#[trigger] entries[j]).canonical@,
                        entries[j].file_name@,
                    ) is Ok
                &&& old(state)@.check_item(
                    entries[e.entry as int].canonical@,
                    entries[e.entry as int].file_name@,
                ) == Err::<(), IndexError>(e.reason)
                &&& final(state)@ == old(state)@
            },
        },
{
    let mut j: usize = 0;
    while j < entries.len()
        invariant
            j <= entries.len(),
            *state == *old(state),
            state.wf(),
            forall|i: int|
                0 <= i < j ==> state@.check_item(
                    (#[trigger] entries[i]).canonical@,
                    entries[i].file_name@,
                ) is Ok,
        decreases entries.len() - j,
    {
        match state.check_entry(&entries[j]) {
            Ok(()) => {},
            Err(reason) => {
                return Err(ScanError { entry: j, reason });
            },
        }
        j = j + 1;
    }
    let ghost views = entry_views(entries@);
    let mut k: usize = 0;
    proof {
        assert(views.take(0) == Seq::<EntryView>::empty());
    }
    while k < entries.len()
        invariant
            k <= entries.len(),
            views == entry_views(entries@),
            state.wf(),
            state@.tags == old(state)@.tags,
            state@ == old(state)@.with_items(views.take(k as int)),
            forall|i: int|
                0 <= i < entries.len() ==> old(state)@.check_item(
                    (#[trigger] entries[i]).canonical@,
                    entries[i].file_name@,
                ) is Ok,
        decreases entries.len() - k,
    {
        let entry = &entries[k];
        proof {
            assert(old(state)@.check_item(
                entries[k as int].canonical@,
                entries[k as int].file_name@,
            ) is Ok);
            assert(views.take(k + 1).drop_last() == views.take(k as int));
            assert(views.take(k + 1).last() == entries[k as int]@);
        }
        let added = state.add_item(entry.canonical.as_str(), entry.file_name.as_str());
        k = k + 1;
    }
    proof {
        assert(views.take(views.len() as int) == views);
    }
    Ok(())
}

/// The directories below the tags root that are still to be read.
pub struct TagScan {
    pending: Vec<PendingDir>,
}

/// The directories of a list, as values.
pub open spec fn dir_views(dirs: Seq<PendingDir>) -> Seq<DirView> {
    dirs.map_values(|d: PendingDir| d@)
}

impl View for TagScan {
    type V = Seq<DirView>;

    closed spec fn view(&self) -> Seq<DirView> {
        dir_views(self.pending@)
    }
}

impl TagScan {
    /// A scan that has the tags root, with the canonical path `root`, to read.
    pub fn new(root: &str) -> (scan: TagScan)
        ensures
            scan@ == seq![DirView { path: root@, name: Seq::<char>::empty() }],
    {
        let mut pending: Vec<PendingDir> = Vec::new();
        pending.push(PendingDir { path: String::from_str(root), name: String::new() });
        let scan = TagScan { pending };
        assert(scan@ =~= seq![DirView { path: root@, name: Seq::<char>::empty() }]);
        scan
    }

    /// The directory to read next: the one found last. `None` when the scan
    /// is over.
    pub fn next_dir(&mut self) -> (dir: Option<PendingDir>)
        ensures
            old(self)@.len() == 0 ==> dir is None && final(self)@ == old(self)@,
            old(self)@.len() > 0 ==> dir is Some && dir->0@ == old(self)@.last() && final(self)@
                == old(self)@.drop_last(),
    {
        let dir = self.pending.pop();
        proof {
            if old(self)@.len() > 0 {
                assert(self@ =~= old(self)@.drop_last());
            }
        }
        dir
    }
}

/// Takes in what the directory `dir` below the tags root holds. A link to an
/// item makes the item carry the tag that `dir` is; a directory that is not
/// a tag yet becomes one and is put down to be read; the rest is passed over.
/// The items must have been scanned before.
pub fn scan_tags(
    state: &mut AppState,
    scan: &mut TagScan,
    dir: &PendingDir,
    entries: &Vec<DirEntry>,
)
    requires
        old(state).wf(),
    ensures
        final(state).wf(),
        final(state)@ == old(state)@.scan_dir(dir@, entry_views(entries@)),
        final(scan)@ == old(scan)@ + old(state)@.found_dirs(dir@, entry_views(entries@)),
{
    let ghost views = entry_views(entries@);
    let ghost start = old(state)@;
    let mut k: usize = 0;
    proof {
        assert(views.take(0) == Seq::<EntryView>::empty());
        assert(scan@ + Seq::<DirView>::empty() == scan@);
    }
    while k < entries.len()
        invariant
            k <= entries.len(),
            views == entry_views(entries@),
            state.wf(),
            state@ == start.scan_dir(dir@, views.take(k as int)),
            scan@ == old(scan)@ + start.found_dirs(dir@, views.take(k as int)),
        decreases entries.len() - k,
    {
        let entry = &entries[k];
        proof {
            assert(views.take(k + 1).drop_last() == views.take(k as int));
            assert(views.take(k + 1).last() == entry@);
        }
        match state.classify(dir.path.as_str(), entry) {
            EntryKind::Member => {
                let linked = state.link(
                    dir.path.as_str(),
                    entry.canonical.as_str(),
                    entry.file_name.as_str(),
                );
            },
            EntryKind::SubTag => {
                let name = nested_tag_name(dir.name.as_str(), entry.file_name.as_str());
                let added = state.add_tag(entry.canonical.as_str(), name.as_str());
                let ghost before = scan.pending@;
                scan.pending.push(PendingDir { path: entry.canonical.clone(), name });
                proof {
                    let found = DirView {
                        path: entry.canonical@,
                        name: nested_name(dir.name@, entry.file_name@),
                    };
                    assert(scan@ =~= dir_views(before).push(found));
                    assert((old(scan)@ + start.found_dirs(dir@, views.take(k as int))).push(found)
                        =~= old(scan)@ + start.found_dirs(dir@, views.take(k as int)).push(found));
                }
            },
            EntryKind::Ignored => {},
        }
        k = k + 1;
    }
    proof {
        assert(views.take(views.len() as int) == views);
    }
}

/// The name that the last of `entries` with the path `id` gives, or
/// `default` where there is none.
pub open spec fn last_name(entries: Seq<EntryView>, id: Seq<char>, default: Seq<char>) -> Seq<char>
    decreases entries.len(),
{
    if entries.len() == 0 {
        default
    } else if entries.last().canonical == id {
        entries.last().file_name
    } else {
        last_name(entries.drop_last(), id, default)
    }
}

/// One of `entries` has the path `id`.
pub open spec fn mentions(entries: Seq<EntryView>, id: Seq<char>) -> bool {
    exists|j: int| 0 <= j < entries.len() && (#[trigger] entries[j]).canonical == id
}

/// What a scan of the items directory leaves: the items that were there and
/// those that were read, each named by the last entry that leads to it; an
/// item that was there keeps its tags, a new one has none. Nothing else
/// changes.
pub proof fn lemma_with_items(s: StateView, entries: Seq<EntryView>)
    ensures
        s.with_items(entries).tags == s.tags,
        s.with_items(entries).visible == s.visible,
        s.with_items(entries).selected == s.selected,
        s.with_items(entries).tags_root == s.tags_root,
        forall|id: Seq<char>| #[trigger]
            s.with_items(entries).items.contains_key(id) <==> s.items.contains_key(id) || mentions(
                entries,
                id,
            ),
        forall|id: Seq<char>| #[trigger]
            s.with_items(entries).items.contains_key(id) ==> s.with_items(entries).items[id] == (
            ItemView {
                name: last_name(entries, id, s.items[id].name),
                tags: if s.items.contains_key(id) {
                    s.items[id].tags
                } else {
                    Set::empty()
                },
            }),
    decreases entries.len(),
{
    if entries.len() > 0 {
        let init = entries.drop_last();
        let e = entries.last();
        lemma_with_items(s, init);
        let m = s.with_items(init);
        let r = s.with_items(entries);
        assert(r == m.with_item(e.canonical, e.file_name));
        assert forall|id: Seq<char>| #[trigger]
            r.items.contains_key(id) <==> s.items.contains_key(id) || mentions(entries, id) by {
            if mentions(init, id) {
                let j = choose|j: int| 0 <= j < init.len() && (#[trigger] init[j]).canonical == id;
                assert(entries[j].canonical == id);
            }
            if id == e.canonical {
                assert(entries[entries.len() - 1].canonical == id);
            }
            if mentions(entries, id) && id != e.canonical {
                let j = choose|j: int|
                    0 <= j < entries.len() && (#[trigger] entries[j]).canonical == id;
                assert(init[j].canonical == id);
            }
        }
        assert forall|id: Seq<char>| #[trigger] r.items.contains_key(id) implies r.items[id] == (
        ItemView {
            name: last_name(entries, id, s.items[id].name),
            tags: if s.items.contains_key(id) {
                s.items[id].tags
            } else {
                Set::empty()
            },
        }) by {
            if id == e.canonical {
                if m.items.contains_key(id) {
                    assert(m.items[id].tags == if s.items.contains_key(id) {
                        s.items[id].tags
                    } else {
                        Set::empty()
                    });
                } else {
                    assert(!s.items.contains_key(id));
                }
            } else {
                assert(m.items.contains_key(id));
            }
        }
    }
}

/// The name that the last entry gives does not depend on a default that
/// these entries gave themselves.
proof fn lemma_last_name_twice(entries: Seq<EntryView>, id: Seq<char>, default: Seq<char>)
    ensures
        last_name(entries, id, last_name(entries, id, default)) == last_name(entries, id, default),
    decreases entries.len(),
{
    if entries.len() > 0 && entries.last().canonical != id {
        lemma_last_name_skip(entries.drop_last(), id, default, last_name(entries, id, default));
        lemma_last_name_twice(entries.drop_last(), id, default);
    }
}

/// Where an entry has the path, the default does not matter.
proof fn lemma_last_name_skip(
    entries: Seq<EntryView>,
    id: Seq<char>,
    d1: Seq<char>,
    d2: Seq<char>,
)
    ensures
        mentions(entries, id) ==> last_name(entries, id, d1) == last_name(entries, id, d2),
        !mentions(entries, id) ==> last_name(entries, id, d1) == d1,
    decreases entries.len(),
{
    if entries.len() > 0 {
        let init = entries.drop_last();
        lemma_last_name_skip(init, id, d1, d2);
        if entries.last().canonical == id {
            assert(entries[entries.len() - 1].canonical == id);
        } else {
            if mentions(init, id) {
                let j = choose|j: int| 0 <= j < init.len() && (#[trigger] init[j]).canonical == id;
                assert(entries[j].canonical == id);
            }
            if mentions(entries, id) {
                let j = choose|j: int|
                    0 <= j < entries.len() && (#[trigger] entries[j]).canonical == id;
                assert(init[j].canonical == id);
            }
        }
    }
}

/// Scanning the items directory a second time, when it holds what it held,
/// changes nothing in the index.
pub proof fn lemma_rescan_items(s: StateView, entries: Seq<EntryView>)
    ensures
        s.with_items(entries).with_items(entries) == s.with_items(entries),
{
    let r = s.with_items(entries);
    let r2 = r.with_items(entries);
    lemma_with_items(s, entries);
    lemma_with_items(r, entries);
    assert forall|id: Seq<char>| r2.items.contains_key(id) implies #[trigger] r2.items[id]
        == r.items[id] by {
        assert(r.items.contains_key(id));
        lemma_last_name_skip(entries, id, s.items[id].name, r.items[id].name);
        lemma_last_name_twice(entries, id, s.items[id].name);
    }
    assert(r2.items =~= r.items);
}

/// Seeing an entry below the tags root a second time changes nothing.
pub proof fn lemma_rescan_entry(s: StateView, dir: DirView, e: EntryView)
    ensures
        s.scan_entry(dir, e).scan_entry(dir, e) == s.scan_entry(dir, e),
{
    let r = s.scan_entry(dir, e);
    let r2 = r.scan_entry(dir, e);
    match s.classify(dir.path, e) {
        EntryKind::Member => {
            assert(r.items.dom() =~= s.items.dom());
            assert(r.tags.dom() =~= s.tags.dom());
            assert(r.classify(dir.path, e) is Member);
            let link = child_text(dir.path, e.file_name);
            assert(r.items[e.canonical].tags.insert(dir.path) =~= r.items[e.canonical].tags);
            assert(r.tags[dir.path].items.insert(e.canonical, link) =~= r.tags[dir.path].items);
            assert(r2.items =~= r.items);
            assert(r2.tags =~= r.tags);
        },
        EntryKind::SubTag => {
            assert(r.classify(dir.path, e) is Ignored);
        },
        EntryKind::Ignored => {},
    }
}

/// No two of `entries` lead to the same path.
pub open spec fn distinct_paths(entries: Seq<EntryView>) -> bool {
    forall|j: int, k: int|
        0 <= j < k < entries.len() ==> (#[trigger] entries[j]).canonical != (
        #[trigger] entries[k]).canonical
}

/// Where all entries with the path `id` give one name, that is the name
/// that the last of them gives.
proof fn lemma_last_name_agreed(
    entries: Seq<EntryView>,
    id: Seq<char>,
    default: Seq<char>,
    j: int,
)
    requires
        0 <= j < entries.len(),
        entries[j].canonical == id,
        forall|k: int|
            0 <= k < entries.len() && (#[trigger] entries[k]).canonical == id
                ==> entries[k].file_name == entries[j].file_name,
    ensures
        last_name(entries, id, default) == entries[j].file_name,
    decreases entries.len(),
{
    let last = entries.len() - 1;
    if entries[last].canonical != id {
        let init = entries.drop_last();
        assert forall|k: int|
            0 <= k < init.len() && (#[trigger] init[k]).canonical == id implies init[k].file_name
            == init[j].file_name by {
            assert(init[k] == entries[k]);
        }
        lemma_last_name_agreed(init, id, default, j);
    }
}

/// The index that a scan of the items directory leaves does not depend on
/// the order in which the directory was read, as long as no two entries
/// lead to the same path.
pub proof fn lemma_scan_items_any_order(s: StateView, a: Seq<EntryView>, b: Seq<EntryView>)
    requires
        distinct_paths(a),
        distinct_paths(b),
        forall|e: EntryView| a.contains(e) <==> b.contains(e),
    ensures
        s.with_items(a) == s.with_items(b),
{
    let ra = s.with_items(a);
    let rb = s.with_items(b);
    lemma_with_items(s, a);
    lemma_with_items(s, b);
    assert forall|id: Seq<char>| mentions(a, id) implies mentions(b, id) && last_name(
        a,
        id,
        s.items[id].name,
    ) == last_name(b, id, s.items[id].name) by {
        let j = choose|j: int| 0 <= j < a.len() && (#[trigger] a[j]).canonical == id;
        assert(a.contains(a[j]));
        assert(b.contains(a[j]));
        let k = choose|k: int| 0 <= k < b.len() && b[k] == a[j];
        assert(b[k].canonical == id);
        lemma_last_name_agreed(a, id, s.items[id].name, j);
        lemma_last_name_agreed(b, id, s.items[id].name, k);
    }
    assert forall|id: Seq<char>| mentions(b, id) implies mentions(a, id) by {
        let k = choose|k: int| 0 <= k < b.len() && (#[trigger] b[k]).canonical == id;
        assert(b.contains(b[k]));
        assert(a.contains(b[k]));
        let j = choose|j: int| 0 <= j < a.len() && a[j] == b[k];
        assert(a[j].canonical == id);
    }
    assert forall|id: Seq<char>| ra.items.contains_key(id) implies #[trigger] ra.items[id]
        == rb.items[id] by {
        assert(rb.items.contains_key(id));
        if !mentions(a, id) {
            lemma_last_name_skip(a, id, s.items[id].name, s.items[id].name);
            lemma_last_name_skip(b, id, s.items[id].name, s.items[id].name);
        }
    }
    assert(ra.items =~= rb.items);
}

} // verus!
