//! The index: items, tags, which item carries which tag, and the selection.

use crate::path::{
    child_path, child_text, components, entry_name, is_canonical, is_canonical_path, is_entry_name,
    is_entry_of, is_name, lemma_child_canonical, lemma_child_is_entry,
};
use crate::store::{
    item_map_get, item_map_insert, item_map_keys, item_map_new, item_map_remove, items_in,
    link_map_get, link_map_insert, link_map_new, link_map_remove, links_in, lists,
    path_set_contains, path_set_insert, path_set_list, path_set_new, path_set_remove, paths_in,
    tag_map_get, tag_map_insert, tag_map_keys, tag_map_new, tag_map_remove, tags_in, texts,
};
use hashbrown::{HashMap, HashSet};
use vstd::prelude::*;

verus! {

/// What an item is, as a value: its display name and the tags it carries.
pub struct ItemView {
    pub name: Seq<char>,
    pub tags: Set<Seq<char>>,
}

/// What a tag is, as a value: its display name and, for each item that
/// carries it, the path of the link that says so.
pub struct TagView {
    pub name: Seq<char>,
    pub items: Map<Seq<char>, Seq<char>>,
}

/// A file that can be tagged.
pub struct Item {
    name: String,
    tags: HashSet<String>,
}

/// A directory of links.
pub struct Tag {
    name: String,
    items: HashMap<String, String>,
}

impl View for Item {
    type V = ItemView;

    closed spec fn view(&self) -> ItemView {
        ItemView { name: self.name@, tags: paths_in(self.tags) }
    }
}

impl View for Tag {
    type V = TagView;

    closed spec fn view(&self) -> TagView {
        TagView { name: self.name@, items: links_in(self.items) }
    }
}

/// Why the index refused a change.
#[derive(Clone, Copy, Debug, PartialEq, Eq)]
pub enum IndexError {
    /// A path that should identify an item or a tag is not canonical.
    NotCanonical,
    /// A display name or link name cannot name a directory entry.
    BadName,
    /// The path is already registered as a tag.
    IsTag,
    /// The path is already registered as an item.
    IsItem,
    /// A tag with this path exists already.
    TagExists,
    /// No tag has this path.
    UnknownTag,
    /// No item has this path.
    UnknownItem,
    /// The item does not carry the tag.
    NotTagged,
    /// The item carries the tag already.
    AlreadyTagged,
    /// The link does not lie where the item's link in the tag belongs.
    MisplacedLink,
    /// The target of the link does not lead from the tag to the item.
    WrongTarget,
    /// A tag was given no name.
    EmptyName,
}

/// The whole state as a value.
pub struct StateView {
    /// All items, by canonical path.
    pub items: Map<Seq<char>, ItemView>,
    /// All tags, by canonical path.
    pub tags: Map<Seq<char>, TagView>,
    /// The items that are shown.
    pub visible: Set<Seq<char>>,
    /// The items that are selected.
    pub selected: Set<Seq<char>>,
    /// The directory below which the tags live, as the user gave it.
    pub tags_root: Seq<char>,
}

impl StateView {
    /// The state with nothing in it.
    pub open spec fn empty(tags_root: Seq<char>) -> StateView {
        StateView {
            items: Map::empty(),
            tags: Map::empty(),
            visible: Set::empty(),
            selected: Set::empty(),
            tags_root,
        }
    }

    /// The tag `tag` exists and lists `item` as a member.
    pub open spec fn tagged(self, tag: Seq<char>, item: Seq<char>) -> bool {
        self.tags.contains_key(tag) && self.tags[tag].items.contains_key(item)
    }

    /// An item carries a tag exactly when the tag lists the item.
    pub open spec fn mirrored(self) -> bool {
        &&& forall|i: Seq<char>, t: Seq<char>|
            #![trigger self.items[i].tags.contains(t)]
            self.items.contains_key(i) && self.items[i].tags.contains(t)
                ==> self.tags.contains_key(t) && self.tags[t].items.contains_key(i)
        &&& forall|t: Seq<char>, i: Seq<char>|
            #![trigger self.tags[t].items.contains_key(i)]
            self.tags.contains_key(t) && self.tags[t].items.contains_key(i)
                ==> self.items.contains_key(i) && self.items[i].tags.contains(t)
    }

    /// Every link lies directly inside the directory of its tag.
    pub open spec fn links_placed(self) -> bool {
        forall|t: Seq<char>, i: Seq<char>|
            #![trigger self.tags[t].items[i]]
            self.tags.contains_key(t) && self.tags[t].items.contains_key(i) ==> is_entry_of(
                t,
                self.tags[t].items[i],
            )
    }

    /// Every item and every tag is known by a canonical path.
    pub open spec fn canonical(self) -> bool {
        &&& forall|i: Seq<char>| #[trigger] self.items.contains_key(i) ==> is_canonical(i)
        &&& forall|t: Seq<char>| #[trigger] self.tags.contains_key(t) ==> is_canonical(t)
    }

    /// No path is both an item and a tag.
    pub open spec fn disjoint(self) -> bool {
        forall|p: Seq<char>| #[trigger] self.items.contains_key(p) ==> !self.tags.contains_key(p)
    }

    /// Every item's display name can name a link.
    pub open spec fn named(self) -> bool {
        forall|i: Seq<char>| #[trigger] self.items.contains_key(i) ==> is_name(self.items[i].name)
    }

    /// Only items are selected or shown.
    pub open spec fn marks_known(self) -> bool {
        &&& forall|i: Seq<char>| #[trigger] self.selected.contains(i) ==> self.items.contains_key(i)
        &&& forall|i: Seq<char>| #[trigger] self.visible.contains(i) ==> self.items.contains_key(i)
    }

    /// The state is consistent.
    pub open spec fn wf(self) -> bool {
        &&& self.mirrored()
        &&& self.links_placed()
        &&& self.canonical()
        &&& self.disjoint()
        &&& self.named()
        &&& self.marks_known()
    }

    /// Whether an item may be registered under `id` with the name `name`.
    pub open spec fn check_item(self, id: Seq<char>, name: Seq<char>) -> Result<(), IndexError> {
        if !is_canonical(id) {
            Err(IndexError::NotCanonical)
        } else if !is_name(name) {
            Err(IndexError::BadName)
        } else if self.tags.contains_key(id) {
            Err(IndexError::IsTag)
        } else {
            Ok(())
        }
    }

    /// The state with the item `id` named `name`. An item that was there
    /// keeps its tags.
    pub open spec fn with_item(self, id: Seq<char>, name: Seq<char>) -> StateView {
        let tags = if self.items.contains_key(id) {
            self.items[id].tags
        } else {
            Set::empty()
        };
        StateView { items: self.items.insert(id, ItemView { name, tags }), ..self }
    }

    /// Whether a new tag may be registered under `id`.
    pub open spec fn check_tag(self, id: Seq<char>) -> Result<(), IndexError> {
        if !is_canonical(id) {
            Err(IndexError::NotCanonical)
        } else if self.items.contains_key(id) {
            Err(IndexError::IsItem)
        } else if self.tags.contains_key(id) {
            Err(IndexError::TagExists)
        } else {
            Ok(())
        }
    }

    /// The state with a new tag `id`, named `name`, that no item carries.
    pub open spec fn with_tag(self, id: Seq<char>, name: Seq<char>) -> StateView {
        StateView { tags: self.tags.insert(id, TagView { name, items: Map::empty() }), ..self }
    }

    /// Whether `item` can be recorded as carrying `tag` by a link named `name`.
    pub open spec fn check_link(self, tag: Seq<char>, item: Seq<char>, name: Seq<char>) -> Result<
        (),
        IndexError,
    > {
        if !self.tags.contains_key(tag) {
            Err(IndexError::UnknownTag)
        } else if !self.items.contains_key(item) {
            Err(IndexError::UnknownItem)
        } else if !is_name(name) {
            Err(IndexError::BadName)
        } else {
            Ok(())
        }
    }

    /// The state in which `item` carries `tag` through the link `link`.
    pub open spec fn linked(self, tag: Seq<char>, item: Seq<char>, link: Seq<char>) -> StateView {
        StateView {
            items: self.items.insert(
                item,
                ItemView { tags: self.items[item].tags.insert(tag), ..self.items[item] },
            ),
            tags: self.tags.insert(
                tag,
                TagView { items: self.tags[tag].items.insert(item, link), ..self.tags[tag] },
            ),
            ..self
        }
    }

    /// Whether the membership of `item` in `tag` can be taken back.
    pub open spec fn check_unlink(self, tag: Seq<char>, item: Seq<char>) -> Result<(), IndexError> {
        if !self.tags.contains_key(tag) {
            Err(IndexError::UnknownTag)
        } else if !self.tags[tag].items.contains_key(item) {
            Err(IndexError::NotTagged)
        } else {
            Ok(())
        }
    }

    /// The state in which `item` does not carry `tag`.
    pub open spec fn unlinked(self, tag: Seq<char>, item: Seq<char>) -> StateView {
        StateView {
            items: self.items.insert(
                item,
                ItemView { tags: self.items[item].tags.remove(tag), ..self.items[item] },
            ),
            tags: self.tags.insert(
                tag,
                TagView { items: self.tags[tag].items.remove(item), ..self.tags[tag] },
            ),
            ..self
        }
    }

    /// The selection after `id` was toggled: a selected item is deselected,
    /// a known item that was not selected is selected, anything else is left out.
    pub open spec fn selection_toggled(self, id: Seq<char>) -> Set<Seq<char>> {
        if self.selected.contains(id) {
            self.selected.remove(id)
        } else if self.items.contains_key(id) {
            self.selected.insert(id)
        } else {
            self.selected
        }
    }
}

/// Registering an item keeps the state consistent.
pub proof fn lemma_with_item_wf(s: StateView, id: Seq<char>, name: Seq<char>)
    requires
        s.wf(),
        s.check_item(id, name) is Ok,
    ensures
        s.with_item(id, name).wf(),
{
    let n = s.with_item(id, name);
    assert(n.mirrored()) by {
        assert forall|i: Seq<char>, t: Seq<char>|
            #![trigger n.items[i].tags.contains(t)]
            n.items.contains_key(i) && n.items[i].tags.contains(t) implies n.tags.contains_key(t)
            && n.tags[t].items.contains_key(i) by {
            assert(s.items.contains_key(i) && s.items[i].tags.contains(t));
        }
        assert forall|t: Seq<char>, i: Seq<char>|
            #![trigger n.tags[t].items.contains_key(i)]
            n.tags.contains_key(t) && n.tags[t].items.contains_key(i) implies n.items.contains_key(
                i,
            ) && n.items[i].tags.contains(t) by {
            assert(s.tags[t].items.contains_key(i));
        }
    }
}

/// Registering a tag keeps the state consistent.
pub proof fn lemma_with_tag_wf(s: StateView, id: Seq<char>, name: Seq<char>)
    requires
        s.wf(),
        s.check_tag(id) is Ok,
    ensures
        s.with_tag(id, name).wf(),
{
    let n = s.with_tag(id, name);
    assert(n.mirrored()) by {
        assert forall|i: Seq<char>, t: Seq<char>|
            #![trigger n.items[i].tags.contains(t)]
            n.items.contains_key(i) && n.items[i].tags.contains(t) implies n.tags.contains_key(t)
            && n.tags[t].items.contains_key(i) by {
            assert(s.items[i].tags.contains(t));
        }
        assert forall|t: Seq<char>, i: Seq<char>|
            #![trigger n.tags[t].items.contains_key(i)]
            n.tags.contains_key(t) && n.tags[t].items.contains_key(i) implies n.items.contains_key(
                i,
            ) && n.items[i].tags.contains(t) by {
            assert(t != id);
            assert(s.tags[t].items.contains_key(i));
        }
    }
    assert(n.links_placed()) by {
        assert forall|t: Seq<char>, i: Seq<char>|
            #![trigger n.tags[t].items[i]]
            n.tags.contains_key(t) && n.tags[t].items.contains_key(i) implies is_entry_of(
                t,
                n.tags[t].items[i],
            ) by {
            assert(t != id);
            assert(is_entry_of(t, s.tags[t].items[i]));
        }
    }
}

/// Recording a membership keeps the state consistent.
pub proof fn lemma_linked_wf(s: StateView, tag: Seq<char>, item: Seq<char>, name: Seq<char>)
    requires
        s.wf(),
        s.check_link(tag, item, name) is Ok,
    ensures
        s.linked(tag, item, child_text(tag, name)).wf(),
{
    let n = s.linked(tag, item, child_text(tag, name));
    lemma_child_is_entry(tag, name);
    assert(n.mirrored()) by {
        assert forall|i: Seq<char>, t: Seq<char>|
            #![trigger n.items[i].tags.contains(t)]
            n.items.contains_key(i) && n.items[i].tags.contains(t) implies n.tags.contains_key(t)
            && n.tags[t].items.contains_key(i) by {
            if !(i == item && t == tag) {
                assert(s.items[i].tags.contains(t));
            }
        }
        assert forall|t: Seq<char>, i: Seq<char>|
            #![trigger n.tags[t].items.contains_key(i)]
            n.tags.contains_key(t) && n.tags[t].items.contains_key(i) implies n.items.contains_key(
                i,
            ) && n.items[i].tags.contains(t) by {
            if !(i == item && t == tag) {
                assert(s.tags[t].items.contains_key(i));
            }
        }
    }
    assert(n.links_placed()) by {
        assert forall|t: Seq<char>, i: Seq<char>|
            #![trigger n.tags[t].items[i]]
            n.tags.contains_key(t) && n.tags[t].items.contains_key(i) implies is_entry_of(
                t,
                n.tags[t].items[i],
            ) by {
            if !(i == item && t == tag) {
                assert(is_entry_of(t, s.tags[t].items[i]));
            }
        }
    }
}

/// Taking a membership back keeps the state consistent.
pub proof fn lemma_unlinked_wf(s: StateView, tag: Seq<char>, item: Seq<char>)
    requires
        s.wf(),
        s.check_unlink(tag, item) is Ok,
    ensures
        s.items.contains_key(item),
        s.unlinked(tag, item).wf(),
{
    let n = s.unlinked(tag, item);
    assert(s.tags[tag].items.contains_key(item));
    assert(n.mirrored()) by {
        assert forall|i: Seq<char>, t: Seq<char>|
            #![trigger n.items[i].tags.contains(t)]
            n.items.contains_key(i) && n.items[i].tags.contains(t) implies n.tags.contains_key(t)
            && n.tags[t].items.contains_key(i) by {
            assert(s.items[i].tags.contains(t));
        }
        assert forall|t: Seq<char>, i: Seq<char>|
            #![trigger n.tags[t].items.contains_key(i)]
            n.tags.contains_key(t) && n.tags[t].items.contains_key(i) implies n.items.contains_key(
                i,
            ) && n.items[i].tags.contains(t) by {
            assert(s.tags[t].items.contains_key(i));
        }
    }
    assert(n.links_placed()) by {
        assert forall|t: Seq<char>, i: Seq<char>|
            #![trigger n.tags[t].items[i]]
            n.tags.contains_key(t) && n.tags[t].items.contains_key(i) implies is_entry_of(
                t,
                n.tags[t].items[i],
            ) by {
            assert(s.tags[t].items.contains_key(i));
            assert(is_entry_of(t, s.tags[t].items[i]));
        }
    }
}

/// In a consistent state every link has a canonical path: that of its tag's
/// directory, with the link's name added.
pub proof fn lemma_links_canonical(s: StateView, tag: Seq<char>, item: Seq<char>)
    requires
        s.wf(),
        s.tagged(tag, item),
    ensures
        is_canonical(s.tags[tag].items[item]),
        components(s.tags[tag].items[item]) == components(tag).push(
            entry_name(tag, s.tags[tag].items[item]),
        ),
{
    let link = s.tags[tag].items[item];
    assert(is_entry_of(tag, link));
    assert(s.tags.contains_key(tag));
    lemma_child_canonical(tag, entry_name(tag, link));
}

/// Items, tags, their membership, and what is shown and selected.
pub struct AppState {
    /// all items, by canonical path
    items_all: HashMap<String, Item>,
    /// the items that are shown
    items_vis: HashSet<String>,
    /// all tags, by canonical path
    tags: HashMap<String, Tag>,
    /// the directory that holds the tags
    tags_path: String,
    /// the items that are selected
    sel: HashSet<String>,
}

impl View for AppState {
    type V = StateView;

    closed spec fn view(&self) -> StateView {
        StateView {
            items: items_in(self.items_all),
            tags: tags_in(self.tags),
            visible: paths_in(self.items_vis),
            selected: paths_in(self.sel),
            tags_root: self.tags_path@,
        }
    }
}

impl AppState {
    /// The state is consistent.
    pub open spec fn wf(&self) -> bool {
        self@.wf()
    }

    /// A state without items or tags, for tags below `tags_path`.
    pub fn new(tags_path: &str) -> (state: AppState)
        ensures
            state.wf(),
            state@ == StateView::empty(tags_path@),
    {
        AppState {
            items_all: item_map_new(),
            items_vis: path_set_new(),
            tags: tag_map_new(),
            tags_path: String::from_str(tags_path),
            sel: path_set_new(),
        }
    }

    /// The directory that holds the tags.
    pub fn tags_path(&self) -> (path: String)
        ensures
            path@ == self@.tags_root,
    {
        self.tags_path.clone()
    }

    /// Names the directory that holds the tags.
    pub fn set_tags_path(&mut self, tags_path: &str)
        ensures
            final(self)@ == (StateView { tags_root: tags_path@, ..old(self)@ }),
            old(self).wf() ==> final(self).wf(),
    {
        self.tags_path = String::from_str(tags_path);
    }

    /// Whether `id` is an item.
    pub fn has_item(&self, id: &str) -> (known: bool)
        ensures
            known == self@.items.contains_key(id@),
    {
        item_map_get(&self.items_all, id).is_some()
    }

    /// Whether `id` is a tag.
    pub fn has_tag(&self, id: &str) -> (known: bool)
        ensures
            known == self@.tags.contains_key(id@),
    {
        tag_map_get(&self.tags, id).is_some()
    }

    /// The display name of the item `id`.
    pub fn item_name(&self, id: &str) -> (name: Option<String>)
        ensures
            name is Some <==> self@.items.contains_key(id@),
            name matches Some(n) ==> n@ == self@.items[id@].name,
    {
        match item_map_get(&self.items_all, id) {
            Some(item) => Some(item.name.clone()),
            None => None,
        }
    }

    /// The display name of the tag `id`.
    pub fn tag_name(&self, id: &str) -> (name: Option<String>)
        ensures
            name is Some <==> self@.tags.contains_key(id@),
            name matches Some(n) ==> n@ == self@.tags[id@].name,
    {
        match tag_map_get(&self.tags, id) {
            Some(tag) => Some(tag.name.clone()),
            None => None,
        }
    }

    /// Whether the item `item` records that it carries `tag`.
    pub fn item_has_tag(&self, item: &str, tag: &str) -> (carries: bool)
        ensures
            carries == (self@.items.contains_key(item@) && self@.items[item@].tags.contains(tag@)),
    {
        match item_map_get(&self.items_all, item) {
            Some(it) => path_set_contains(&it.tags, tag),
            None => false,
        }
    }

    /// The link through which `item` carries `tag`, if it does.
    pub fn link_of(&self, tag: &str, item: &str) -> (link: Option<String>)
        ensures
            link is Some <==> self@.tagged(tag@, item@),
            link matches Some(l) ==> l@ == self@.tags[tag@].items[item@],
    {
        match tag_map_get(&self.tags, tag) {
            Some(t) => match link_map_get(&t.items, item) {
                Some(l) => Some(l.clone()),
                None => None,
            },
            None => None,
        }
    }

    /// Whether `tag` lists `item` as a member.
    pub fn is_tagged(&self, tag: &str, item: &str) -> (member: bool)
        ensures
            member == self@.tagged(tag@, item@),
    {
        match tag_map_get(&self.tags, tag) {
            Some(t) => link_map_get(&t.items, item).is_some(),
            None => false,
        }
    }

    /// Whether the item `id` is selected.
    pub fn is_selected(&self, id: &str) -> (selected: bool)
        ensures
            selected == self@.selected.contains(id@),
    {
        path_set_contains(&self.sel, id)
    }

    /// Whether the item `id` is shown.
    pub fn is_visible(&self, id: &str) -> (shown: bool)
        ensures
            shown == self@.visible.contains(id@),
    {
        path_set_contains(&self.items_vis, id)
    }

    /// The paths of all items, each once, in no particular order.
    pub fn items(&self) -> (list: Vec<String>)
        ensures
            lists(list@, self@.items.dom()),
    {
        item_map_keys(&self.items_all)
    }

    /// The paths of all tags, each once, in no particular order.
    pub fn tags(&self) -> (list: Vec<String>)
        ensures
            lists(list@, self@.tags.dom()),
    {
        tag_map_keys(&self.tags)
    }

    /// The paths of the selected items, each once, in no particular order.
    pub fn selection(&self) -> (list: Vec<String>)
        ensures
            lists(list@, self@.selected),
    {
        path_set_list(&self.sel)
    }

    /// The paths of the items that are shown, each once, in no particular order.
    pub fn visible(&self) -> (list: Vec<String>)
        ensures
            lists(list@, self@.visible),
    {
        path_set_list(&self.items_vis)
    }

    /// Registers the file `id` as an item with the display name `name`, or
    /// renames the item if it is registered already; its tags stay.
    pub fn add_item(&mut self, id: &str, name: &str) -> (done: Result<(), IndexError>)
        requires
            old(self).wf(),
        ensures
            final(self).wf(),
            done == old(self)@.check_item(id@, name@),
            done is Ok ==> final(self)@ == old(self)@.with_item(id@, name@),
            done is Err ==> final(self)@ == old(self)@,
    {
        if !is_canonical_path(id) {
            return Err(IndexError::NotCanonical);
        }
        if !is_entry_name(name) {
            return Err(IndexError::BadName);
        }
        if tag_map_get(&self.tags, id).is_some() {
            return Err(IndexError::IsTag);
        }
        let tags = match item_map_remove(&mut self.items_all, id) {
            Some(before) => before.tags,
            None => path_set_new(),
        };
        let item = Item { name: String::from_str(name), tags };
        item_map_insert(&mut self.items_all, String::from_str(id), item);
        proof {
            lemma_with_item_wf(old(self)@, id@, name@);
            assert(self@.items =~= old(self)@.with_item(id@, name@).items);
        }
        Ok(())
    }

    /// Registers the directory `id` as a new tag with the display name
    /// `name`. No item carries it yet.
    pub fn add_tag(&mut self, id: &str, name: &str) -> (done: Result<(), IndexError>)
        requires
            old(self).wf(),
        ensures
            final(self).wf(),
            done == old(self)@.check_tag(id@),
            done is Ok ==> final(self)@ == old(self)@.with_tag(id@, name@),
            done is Err ==> final(self)@ == old(self)@,
    {
        if !is_canonical_path(id) {
            return Err(IndexError::NotCanonical);
        }
        if item_map_get(&self.items_all, id).is_some() {
            return Err(IndexError::IsItem);
        }
        if tag_map_get(&self.tags, id).is_some() {
            return Err(IndexError::TagExists);
        }
        let tag = Tag { name: String::from_str(name), items: link_map_new() };
        tag_map_insert(&mut self.tags, String::from_str(id), tag);
        proof {
            lemma_with_tag_wf(old(self)@, id@, name@);
        }
        Ok(())
    }

    /// Records that `item` carries `tag` through the link named `name` in the
    /// tag's directory. A link recorded before for the pair is forgotten.
    pub fn link(&mut self, tag: &str, item: &str, name: &str) -> (done: Result<(), IndexError>)
        requires
            old(self).wf(),
        ensures
            final(self).wf(),
            done == old(self)@.check_link(tag@, item@, name@),
            done is Ok ==> final(self)@ == old(self)@.linked(
                tag@,
                item@,
                child_text(tag@, name@),
            ),
            done is Err ==> final(self)@ == old(self)@,
    {
        if tag_map_get(&self.tags, tag).is_none() {
            return Err(IndexError::UnknownTag);
        }
        if item_map_get(&self.items_all, item).is_none() {
            return Err(IndexError::UnknownItem);
        }
        if !is_entry_name(name) {
            return Err(IndexError::BadName);
        }
        let link = child_path(tag, name);
        let mut t = tag_map_remove(&mut self.tags, tag).unwrap();
        link_map_insert(&mut t.items, String::from_str(item), link);
        tag_map_insert(&mut self.tags, String::from_str(tag), t);
        let mut it = item_map_remove(&mut self.items_all, item).unwrap();
        path_set_insert(&mut it.tags, String::from_str(tag));
        item_map_insert(&mut self.items_all, String::from_str(item), it);
        proof {
            let goal = old(self)@.linked(tag@, item@, child_text(tag@, name@));
            lemma_linked_wf(old(self)@, tag@, item@, name@);
            assert(self@.items =~= goal.items);
            assert(self@.tags =~= goal.tags);
        }
        Ok(())
    }

    /// Records that `item` no longer carries `tag`.
    pub fn unlink(&mut self, tag: &str, item: &str) -> (done: Result<(), IndexError>)
        requires
            old(self).wf(),
        ensures
            final(self).wf(),
            done == old(self)@.check_unlink(tag@, item@),
            done is Ok ==> final(self)@ == old(self)@.unlinked(tag@, item@),
            done is Err ==> final(self)@ == old(self)@,
    {
        match tag_map_get(&self.tags, tag) {
            None => {
                return Err(IndexError::UnknownTag);
            },
            Some(t) => {
                if link_map_get(&t.items, item).is_none() {
                    return Err(IndexError::NotTagged);
                }
            },
        }
        proof {
            lemma_unlinked_wf(old(self)@, tag@, item@);
        }
        let mut t = tag_map_remove(&mut self.tags, tag).unwrap();
        link_map_remove(&mut t.items, item);
        tag_map_insert(&mut self.tags, String::from_str(tag), t);
        let mut it = item_map_remove(&mut self.items_all, item).unwrap();
        path_set_remove(&mut it.tags, tag);
        item_map_insert(&mut self.items_all, String::from_str(item), it);
        proof {
            let goal = old(self)@.unlinked(tag@, item@);
            assert(self@.items =~= goal.items);
            assert(self@.tags =~= goal.tags);
        }
        Ok(())
    }

    /// Selects the item `id` if it is not selected, deselects it if it is.
    /// A path that is not an item is never selected. Says whether `id` is
    /// selected afterwards.
    pub fn toggle_sel(&mut self, id: &str) -> (selected: bool)
        requires
            old(self).wf(),
        ensures
            final(self).wf(),
            final(self)@ == (StateView {
                selected: old(self)@.selection_toggled(id@),
                ..old(self)@
            }),
            selected == final(self)@.selected.contains(id@),
    {
        let selected = if path_set_contains(&self.sel, id) {
            path_set_remove(&mut self.sel, id);
            false
        } else if item_map_get(&self.items_all, id).is_some() {
            path_set_insert(&mut self.sel, String::from_str(id));
            true
        } else {
            false
        };
        proof {
            assert(self@.items == old(self)@.items);
            assert(self@.tags == old(self)@.tags);
            assert forall|i: Seq<char>| #[trigger]
                self@.selected.contains(i) implies self@.items.contains_key(i) by {
                if i != id@ {
                    assert(old(self)@.selected.contains(i));
                }
            }
        }
        selected
    }

    /// Shows every item.
    pub fn itemview_filter_reset(&mut self)
        requires
            old(self).wf(),
        ensures
            final(self).wf(),
            final(self)@ == (StateView { visible: old(self)@.items.dom(), ..old(self)@ }),
    {
        let keys = item_map_keys(&self.items_all);
        let ghost known = old(self)@.items.dom();
        let mut k: usize = 0;
        proof {
            assert forall|p: Seq<char>| #[trigger]
                paths_in(self.items_vis).contains(p) implies known.contains(p) by {
                assert(old(self)@.visible.contains(p));
            }
        }
        while k < keys.len()
            invariant
                k <= keys.len(),
                lists(keys@, known),
                self.items_all == old(self).items_all,
                self.tags == old(self).tags,
                self.sel == old(self).sel,
                self.tags_path == old(self).tags_path,
                forall|j: int|
                    0 <= j < k ==> paths_in(self.items_vis).contains(#[trigger] keys[j]@),
                forall|p: Seq<char>| #[trigger]
                    paths_in(self.items_vis).contains(p) ==> known.contains(p),
            decreases keys.len() - k,
        {
            proof {
                assert(texts(keys@)[k as int] == keys[k as int]@);
                assert(texts(keys@).to_set().contains(texts(keys@)[k as int]));
            }
            path_set_insert(&mut self.items_vis, keys[k].clone());
            k = k + 1;
        }
        proof {
            assert forall|p: Seq<char>| known.contains(p) implies paths_in(
                self.items_vis,
            ).contains(p) by {
                assert(texts(keys@).to_set().contains(p));
                assert(texts(keys@).contains(p));
                let j = choose|j: int| 0 <= j < texts(keys@).len() && texts(keys@)[j] == p;
                assert(keys[j]@ == p);
            }
            assert(self@.visible =~= known);
            assert(self@.items == old(self)@.items);
            assert(self@.tags == old(self)@.tags);
        }
    }

    /// Deselects every item.
    pub fn clear_selection(&mut self)
        requires
            old(self).wf(),
        ensures
            final(self).wf(),
            final(self)@ == (StateView { selected: Set::empty(), ..old(self)@ }),
    {
        self.sel = path_set_new();
    }
}

} // verus!
