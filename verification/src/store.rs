//! The hash tables that the index is kept in. They come from `hashbrown`;
//! what this crate assumes of them is stated here and nowhere else.

use crate::index::{Item, ItemView, Tag, TagView};
use hashbrown::{HashMap, HashSet};
use vstd::prelude::*;

verus! {

/// `hashbrown::hash_map::DefaultHashBuilder`, the hasher of the tables:
/// nothing is known of it.
#[verifier::external_type_specification]
#[verifier::external_body]
pub struct ExDefaultHashBuilder(hashbrown::hash_map::DefaultHashBuilder);

/// `hashbrown::HashSet`: a value of it is known only by what the functions
/// below say of it.
#[verifier::external_type_specification]
#[verifier::external_body]
#[verifier::reject_recursive_types(T)]
#[verifier::reject_recursive_types(S)]
pub struct ExHashSet<T, S>(hashbrown::HashSet<T, S>);

/// `hashbrown::HashMap`: a value of it is known only by what the functions
/// below say of it.
#[verifier::external_type_specification]
#[verifier::external_body]
#[verifier::reject_recursive_types(K)]
#[verifier::reject_recursive_types(V)]
#[verifier::reject_recursive_types(S)]
pub struct ExHashMap<K, V, S>(hashbrown::HashMap<K, V, S>);

/// The paths that a set of paths holds.
pub uninterp spec fn paths_in(set: HashSet<String>) -> Set<Seq<char>>;

/// What a table of links holds: for each item path, the path of its link.
pub uninterp spec fn links_in(table: HashMap<String, String>) -> Map<Seq<char>, Seq<char>>;

/// What a table of items holds: for each item path, the item.
pub uninterp spec fn items_in(table: HashMap<String, Item>) -> Map<Seq<char>, ItemView>;

/// What a table of tags holds: for each tag path, the tag.
pub uninterp spec fn tags_in(table: HashMap<String, Tag>) -> Map<Seq<char>, TagView>;

/// The texts of a list of strings.
pub open spec fn texts(list: Seq<String>) -> Seq<Seq<char>> {
    list.map_values(|s: String| s@)
}

/// `list` names each member of `set` once, and nothing else.
pub open spec fn lists(list: Seq<String>, set: Set<Seq<char>>) -> bool {
    &&& texts(list).no_duplicates()
    &&& texts(list).to_set() == set
}

/// `hashbrown::HashSet::new`: the new set is empty.
#[verifier::external_body]
pub(crate) fn path_set_new() -> (set: HashSet<String>)
    ensures
        paths_in(set) == Set::<Seq<char>>::empty(),
{
    HashSet::new()
}

/// `hashbrown::HashSet::contains`: whether a string with the text of `path`
/// is in the set.
#[verifier::external_body]
pub(crate) fn path_set_contains(set: &HashSet<String>, path: &str) -> (found: bool)
    ensures
        found == paths_in(*set).contains(path@),
{
    set.contains(path)
}

/// `hashbrown::HashSet::insert`: afterwards the set holds `path` too; the
/// result says whether it was new.
#[verifier::external_body]
pub(crate) fn path_set_insert(set: &mut HashSet<String>, path: String) -> (fresh: bool)
    ensures
        paths_in(*final(set)) == paths_in(*old(set)).insert(path@),
        fresh == !paths_in(*old(set)).contains(path@),
{
    set.insert(path)
}

/// `hashbrown::HashSet::remove`: afterwards the set does not hold `path`;
/// the result says whether it did before.
#[verifier::external_body]
pub(crate) fn path_set_remove(set: &mut HashSet<String>, path: &str) -> (found: bool)
    ensures
        paths_in(*final(set)) == paths_in(*old(set)).remove(path@),
        found == paths_in(*old(set)).contains(path@),
{
    set.remove(path)
}

/// `hashbrown::HashSet::iter`, each member cloned: the members, each once,
/// in an order that nothing is said about.
#[verifier::external_body]
pub(crate) fn path_set_list(set: &HashSet<String>) -> (list: Vec<String>)
    ensures
        lists(list@, paths_in(*set)),
{
    set.iter().cloned().collect()
}

/// `hashbrown::HashMap::new`: the new table is empty.
#[verifier::external_body]
pub(crate) fn link_map_new() -> (table: HashMap<String, String>)
    ensures
        (links_in(table) == Map::<Seq<char>, Seq<char>>::empty()),
{
    HashMap::new()
}

/// `hashbrown::HashMap::get`: the link stored for `item`, if there is one.
#[verifier::external_body]
pub(crate) fn link_map_get<'a>(
    table: &'a HashMap<String, String>,
    item: &str,
) -> (link: Option<&'a String>)
    ensures
        link is Some <==> links_in(*table).contains_key(item@),
        link matches Some(l) ==> l@ == links_in(*table)[item@],
{
    table.get(item)
}

/// `hashbrown::HashMap::insert`: afterwards `item` has the link `link`; the
/// result is the link that it had before, if any.
#[verifier::external_body]
pub(crate) fn link_map_insert(
    table: &mut HashMap<String, String>,
    item: String,
    link: String,
) -> (before: Option<String>)
    ensures
        links_in(*final(table)) == links_in(*old(table)).insert(item@, link@),
        before is Some <==> links_in(*old(table)).contains_key(item@),
        before matches Some(l) ==> l@ == links_in(*old(table))[item@],
{
    table.insert(item, link)
}

/// `hashbrown::HashMap::remove`: afterwards `item` has no link; the result
/// is the link that it had before, if any.
#[verifier::external_body]
pub(crate) fn link_map_remove(
    table: &mut HashMap<String, String>,
    item: &str,
) -> (before: Option<String>)
    ensures
        links_in(*final(table)) == links_in(*old(table)).remove(item@),
        before is Some <==> links_in(*old(table)).contains_key(item@),
        before matches Some(l) ==> l@ == links_in(*old(table))[item@],
{
    table.remove(item)
}

/// `hashbrown::HashMap::new`: the new table is empty.
#[verifier::external_body]
pub(crate) fn item_map_new() -> (table: HashMap<String, Item>)
    ensures
        (items_in(table) == Map::<Seq<char>, ItemView>::empty()),
{
    HashMap::new()
}

/// `hashbrown::HashMap::get`: the item stored under `path`, if there is one.
#[verifier::external_body]
pub(crate) fn item_map_get<'a>(
    table: &'a HashMap<String, Item>,
    path: &str,
) -> (item: Option<&'a Item>)
    ensures
        item is Some <==> items_in(*table).contains_key(path@),
        item matches Some(i) ==> i@ == items_in(*table)[path@],
{
    table.get(path)
}

/// `hashbrown::HashMap::insert`: afterwards `item` is stored under `path`;
/// the result is the item that was stored there before, if any.
#[verifier::external_body]
pub(crate) fn item_map_insert(
    table: &mut HashMap<String, Item>,
    path: String,
    item: Item,
) -> (before: Option<Item>)
    ensures
        items_in(*final(table)) == items_in(*old(table)).insert(path@, item@),
        before is Some <==> items_in(*old(table)).contains_key(path@),
        before matches Some(i) ==> i@ == items_in(*old(table))[path@],
{
    table.insert(path, item)
}

/// `hashbrown::HashMap::remove`: afterwards nothing is stored under `path`;
/// the result is the item that was stored there before, if any.
#[verifier::external_body]
pub(crate) fn item_map_remove(
    table: &mut HashMap<String, Item>,
    path: &str,
) -> (before: Option<Item>)
    ensures
        items_in(*final(table)) == items_in(*old(table)).remove(path@),
        before is Some <==> items_in(*old(table)).contains_key(path@),
        before matches Some(i) ==> i@ == items_in(*old(table))[path@],
{
    table.remove(path)
}

/// `hashbrown::HashMap::keys`, each key cloned: the paths under which an
/// item is stored, each once, in an order that nothing is said about.
#[verifier::external_body]
pub(crate) fn item_map_keys(table: &HashMap<String, Item>) -> (list: Vec<String>)
    ensures
        lists(list@, items_in(*table).dom()),
{
    table.keys().cloned().collect()
}

/// `hashbrown::HashMap::new`: the new table is empty.
#[verifier::external_body]
pub(crate) fn tag_map_new() -> (table: HashMap<String, Tag>)
    ensures
        (tags_in(table) == Map::<Seq<char>, TagView>::empty()),
{
    HashMap::new()
}

/// `hashbrown::HashMap::get`: the tag stored under `path`, if there is one.
#[verifier::external_body]
pub(crate) fn tag_map_get<'a>(table: &'a HashMap<String, Tag>, path: &str) -> (tag: Option<&'a Tag>)
    ensures
        tag is Some <==> tags_in(*table).contains_key(path@),
        tag matches Some(t) ==> t@ == tags_in(*table)[path@],
{
    table.get(path)
}

/// `hashbrown::HashMap::insert`: afterwards `tag` is stored under `path`;
/// the result is the tag that was stored there before, if any.
#[verifier::external_body]
pub(crate) fn tag_map_insert(
    table: &mut HashMap<String, Tag>,
    path: String,
    tag: Tag,
) -> (before: Option<Tag>)
    ensures
        tags_in(*final(table)) == tags_in(*old(table)).insert(path@, tag@),
        before is Some <==> tags_in(*old(table)).contains_key(path@),
        before matches Some(t) ==> t@ == tags_in(*old(table))[path@],
{
    table.insert(path, tag)
}

/// `hashbrown::HashMap::remove`: afterwards nothing is stored under `path`;
/// the result is the tag that was stored there before, if any.
#[verifier::external_body]
pub(crate) fn tag_map_remove(table: &mut HashMap<String, Tag>, path: &str) -> (before: Option<Tag>)
    ensures
        tags_in(*final(table)) == tags_in(*old(table)).remove(path@),
        before is Some <==> tags_in(*old(table)).contains_key(path@),
        before matches Some(t) ==> t@ == tags_in(*old(table))[path@],
{
    table.remove(path)
}

/// `hashbrown::HashMap::keys`, each key cloned: the paths under which a tag
/// is stored, each once, in an order that nothing is said about.
#[verifier::external_body]
pub(crate) fn tag_map_keys(table: &HashMap<String, Tag>) -> (list: Vec<String>)
    ensures
        lists(list@, tags_in(*table).dom()),
{
    table.keys().cloned().collect()
}

/// A list of the members of a set holds a text exactly when the set does.
pub proof fn lemma_lists_member(list: Seq<String>, set: Set<Seq<char>>, p: Seq<char>)
    requires
        lists(list, set),
    ensures
        set.contains(p) <==> exists|j: int| 0 <= j < list.len() && (#[trigger] list[j])@ == p,
{
    if set.contains(p) {
        assert(texts(list).contains(p));
        let j = choose|j: int| 0 <= j < texts(list).len() && texts(list)[j] == p;
        assert(list[j]@ == p);
    }
    if exists|j: int| 0 <= j < list.len() && (#[trigger] list[j])@ == p {
        let j = choose|j: int| 0 <= j < list.len() && (#[trigger] list[j])@ == p;
        assert(texts(list)[j] == p);
        assert(texts(list).to_set().contains(p));
    }
}

} // verus!
