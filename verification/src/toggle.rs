//! Toggling a tag over the selection: what has to happen on disk, and what
//! the index records once it has happened.

use crate::index::{
    lemma_linked_wf, lemma_unlinked_wf, AppState, IndexError, StateView,
};
use crate::path::{
    child_path, child_text, entry_name, is_entry_of, lemma_child_is_entry,
    lemma_relative_resolves, relative_text, resolve_text, tag_target_path,
};
use crate::select::CheckState;
use crate::store::{lemma_lists_member, lists, texts};
use vstd::prelude::*;

verus! {

/// One change to the links of a tag, for one item.
#[derive(Clone, Debug, PartialEq, Eq)]
pub enum LinkAction {
    /// Create the symbolic link `link` with the relative target `target`.
    Create { item: String, link: String, target: String },
    /// Delete the symbolic link `link`.
    Remove { item: String, link: String },
}

/// A `LinkAction` as a value.
pub enum ActionView {
    Create { item: Seq<char>, link: Seq<char>, target: Seq<char> },
    Remove { item: Seq<char>, link: Seq<char> },
}

impl ActionView {
    /// The item that the action is about.
    pub open spec fn subject(self) -> Seq<char> {
        match self {
            ActionView::Create { item, .. } => item,
            ActionView::Remove { item, .. } => item,
        }
    }
}

impl View for LinkAction {
    type V = ActionView;

    open spec fn view(&self) -> ActionView {
        match self {
            LinkAction::Create { item, link, target } => ActionView::Create {
                item: item@,
                link: link@,
                target: target@,
            },
            LinkAction::Remove { item, link } => ActionView::Remove { item: item@, link: link@ },
        }
    }
}

/// What a toggle of a tag over the selection asks for.
#[derive(Clone, Debug, PartialEq, Eq)]
pub enum Toggle {
    /// There is no such tag.
    UnknownTag,
    /// Some selected items carry the tag and some do not: nothing is to be done.
    Mixed,
    /// One action for each selected item.
    Apply(Vec<LinkAction>),
}

/// The actions of a list, as values.
pub open spec fn action_views(actions: Seq<LinkAction>) -> Seq<ActionView> {
    actions.map_values(|a: LinkAction| a@)
}

impl StateView {
    /// What a toggle of `tag` does for `item`: it removes the item's link
    /// where the item carries the tag, and else creates a link in the tag's
    /// directory, named like the item, that leads to the item.
    pub open spec fn action_for(self, tag: Seq<char>, item: Seq<char>) -> ActionView {
        if self.tagged(tag, item) {
            ActionView::Remove { item, link: self.tags[tag].items[item] }
        } else {
            ActionView::Create {
                item,
                link: child_text(tag, self.items[item].name),
                target: relative_text(tag, item),
            }
        }
    }

    /// `actions` holds, for each selected item once, what a toggle of `tag`
    /// does for it, and nothing else.
    pub open spec fn plans(self, tag: Seq<char>, actions: Seq<ActionView>) -> bool {
        &&& forall|j: int|
            0 <= j < actions.len() ==> self.selected.contains((#[trigger] actions[j]).subject())
                && actions[j] == self.action_for(tag, actions[j].subject())
        &&& forall|i: Seq<char>|
            self.selected.contains(i) ==> exists|j: int|
                0 <= j < actions.len() && (#[trigger] actions[j]).subject() == i
        &&& forall|j: int, k: int|
            0 <= j < k < actions.len() ==> (#[trigger] actions[j]).subject() != (
            #[trigger] actions[k]).subject()
    }

    /// Whether `action`, done on disk for `tag`, can be recorded: the tag and
    /// the item must be known, the item must stand to the tag as the action
    /// supposes, and the link must be the one that belongs to the pair.
    pub open spec fn check_action(self, tag: Seq<char>, action: ActionView) -> Result<
        (),
        IndexError,
    > {
        match action {
            ActionView::Create { item, link, target } => {
                if !self.tags.contains_key(tag) {
                    Err(IndexError::UnknownTag)
                } else if !self.items.contains_key(item) {
                    Err(IndexError::UnknownItem)
                } else if self.tags[tag].items.contains_key(item) {
                    Err(IndexError::AlreadyTagged)
                } else if link != child_text(tag, self.items[item].name) {
                    Err(IndexError::MisplacedLink)
                } else if target != relative_text(tag, item) {
                    Err(IndexError::WrongTarget)
                } else {
                    Ok(())
                }
            },
            ActionView::Remove { item, link } => {
                if !self.tags.contains_key(tag) {
                    Err(IndexError::UnknownTag)
                } else if !self.tags[tag].items.contains_key(item) {
                    Err(IndexError::NotTagged)
                } else if link != self.tags[tag].items[item] {
                    Err(IndexError::MisplacedLink)
                } else {
                    Ok(())
                }
            },
        }
    }

    /// The state after `action` was done for `tag`.
    pub open spec fn applied(self, tag: Seq<char>, action: ActionView) -> StateView {
        match action {
            ActionView::Create { item, link, .. } => self.linked(tag, item, link),
            ActionView::Remove { item, .. } => self.unlinked(tag, item),
        }
    }
}

impl StateView {
    /// The state after `actions` were done for `tag`, one after the other.
    pub open spec fn applied_all(self, tag: Seq<char>, actions: Seq<ActionView>) -> StateView
        decreases actions.len(),
    {
        if actions.len() == 0 {
            self
        } else {
            self.applied_all(tag, actions.drop_last()).applied(tag, actions.last())
        }
    }

    /// Each of `actions` can be recorded for `tag` when its turn comes.
    pub open spec fn accepts_all(self, tag: Seq<char>, actions: Seq<ActionView>) -> bool
        decreases actions.len(),
    {
        actions.len() == 0 || {
            &&& self.accepts_all(tag, actions.drop_last())
            &&& self.applied_all(tag, actions.drop_last()).check_action(tag, actions.last()) is Ok
        }
    }
}

/// `item` is the subject of one of the first `n` actions.
spec fn handled(actions: Seq<ActionView>, n: int, item: Seq<char>) -> bool {
    exists|j: int| 0 <= j < n && (#[trigger] actions[j]).subject() == item
}

/// What holds once the first `n` actions of a plan were recorded.
spec fn progress(s: StateView, tag: Seq<char>, actions: Seq<ActionView>, n: int) -> bool {
    let r = s.applied_all(tag, actions.take(n));
    &&& s.accepts_all(tag, actions.take(n))
    &&& r.wf()
    &&& r.selected == s.selected
    &&& r.visible == s.visible
    &&& r.tags_root == s.tags_root
    &&& r.items.dom() == s.items.dom()
    &&& r.tags.dom() == s.tags.dom()
    &&& forall|i: Seq<char>| #[trigger]
        s.items.contains_key(i) ==> r.items[i].name == s.items[i].name
    &&& forall|t: Seq<char>| #[trigger]
        s.tags.contains_key(t) ==> r.tags[t].name == s.tags[t].name && (t != tag ==> r.tags[t]
            == s.tags[t])
    &&& forall|i: Seq<char>|
        handled(actions, n, i) ==> (#[trigger] r.tagged(tag, i) <==> !s.tagged(tag, i))
    &&& forall|i: Seq<char>|
        !handled(actions, n, i) ==> (#[trigger] r.tagged(tag, i) <==> s.tagged(tag, i))
            && r.tags[tag].items[i] == s.tags[tag].items[i]
}

proof fn lemma_progress(s: StateView, tag: Seq<char>, actions: Seq<ActionView>, n: int)
    requires
        s.wf(),
        s.tags.contains_key(tag),
        s.plans(tag, actions),
        0 <= n <= actions.len(),
    ensures
        progress(s, tag, actions, n),
    decreases n,
{
    if n == 0 {
        assert(actions.take(0).len() == 0);
        assert forall|i: Seq<char>| !handled(actions, 0, i) by {}
    } else {
        lemma_progress(s, tag, actions, n - 1);
        let before = actions.take(n - 1);
        let now = actions.take(n);
        assert(now.drop_last() == before);
        let a = actions[n - 1];
        assert(now.last() == a);
        let item = a.subject();
        let m = s.applied_all(tag, before);
        let r = s.applied_all(tag, now);
        assert(r == m.applied(tag, a));
        assert(s.selected.contains(item));
        assert(s.items.contains_key(item));
        assert(!handled(actions, n - 1, item)) by {
            if handled(actions, n - 1, item) {
                let j = choose|j: int| 0 <= j < n - 1 && (#[trigger] actions[j]).subject() == item;
                assert(actions[j].subject() != actions[n - 1].subject());
            }
        }
        assert(m.tagged(tag, item) <==> s.tagged(tag, item));
        assert(m.tags[tag].items[item] == s.tags[tag].items[item]);
        assert(a == s.action_for(tag, item));
        assert(a == m.action_for(tag, item));
        assert(m.check_action(tag, a) is Ok);
        if m.tagged(tag, item) {
            lemma_unlinked_wf(m, tag, item);
        } else {
            lemma_linked_wf(m, tag, item, m.items[item].name);
        }
        assert(r.items.dom() =~= s.items.dom());
        assert(r.tags.dom() =~= s.tags.dom());
        assert forall|i: Seq<char>| handled(actions, n, i) implies (#[trigger] r.tagged(tag, i)
            <==> !s.tagged(tag, i)) by {
            if i != item {
                let j = choose|j: int| 0 <= j < n && (#[trigger] actions[j]).subject() == i;
                assert(j < n - 1);
                assert(handled(actions, n - 1, i));
                assert(m.tagged(tag, i) <==> !s.tagged(tag, i));
            }
        }
        assert forall|i: Seq<char>| !handled(actions, n, i) implies (#[trigger] r.tagged(tag, i)
            <==> s.tagged(tag, i)) && r.tags[tag].items[i] == s.tags[tag].items[i] by {
            assert(i != item);
            assert(!handled(actions, n - 1, i)) by {
                if handled(actions, n - 1, i) {
                    let j = choose|j: int|
                        0 <= j < n - 1 && (#[trigger] actions[j]).subject() == i;
                    assert(0 <= j < n);
                }
            }
            assert(m.tagged(tag, i) <==> s.tagged(tag, i));
        }
    }
}

/// The actions that a toggle plans for a tag can all be recorded, one after
/// the other, and the state stays consistent. Afterwards every selected
/// item carries the tag if it did not before, and does not if it did; the
/// other items, the other tags, the names and the selection are as before.
pub proof fn lemma_toggle_flips(s: StateView, tag: Seq<char>, actions: Seq<ActionView>)
    requires
        s.wf(),
        s.tags.contains_key(tag),
        s.plans(tag, actions),
    ensures
        s.accepts_all(tag, actions),
        s.applied_all(tag, actions).wf(),
        s.applied_all(tag, actions).selected == s.selected,
        s.applied_all(tag, actions).items.dom() == s.items.dom(),
        s.applied_all(tag, actions).tags.dom() == s.tags.dom(),
        forall|i: Seq<char>|
            s.selected.contains(i) ==> (#[trigger] s.applied_all(tag, actions).tagged(tag, i)
                <==> !s.tagged(tag, i)),
        forall|i: Seq<char>|
            !s.selected.contains(i) ==> (#[trigger] s.applied_all(tag, actions).tagged(tag, i)
                <==> s.tagged(tag, i)),
        forall|t: Seq<char>|
            s.tags.contains_key(t) && t != tag ==> #[trigger] s.applied_all(tag, actions).tags[t]
                == s.tags[t],
{
    lemma_progress(s, tag, actions, actions.len() as int);
    assert(actions.take(actions.len() as int) == actions);
    let r = s.applied_all(tag, actions);
    let n = actions.len() as int;
    assert forall|i: Seq<char>| s.selected.contains(i) implies (#[trigger] r.tagged(tag, i)
        <==> !s.tagged(tag, i)) by {
        let j = choose|j: int| 0 <= j < actions.len() && (#[trigger] actions[j]).subject() == i;
        assert(handled(actions, n, i));
    }
    assert forall|i: Seq<char>| !s.selected.contains(i) implies (#[trigger] r.tagged(tag, i)
        <==> s.tagged(tag, i)) by {
        if handled(actions, n, i) {
            let j = choose|j: int| 0 <= j < n && (#[trigger] actions[j]).subject() == i;
            assert(s.selected.contains(actions[j].subject()));
        }
    }
}

impl AppState {
    /// What a toggle of `tag` does for `item`. `None` says that the tag or
    /// the item is not known.
    pub fn plan_for(&self, tag: &str, item: &str) -> (action: Option<LinkAction>)
        requires
            self.wf(),
        ensures
            action is Some <==> self@.tags.contains_key(tag@) && self@.items.contains_key(item@),
            action matches Some(a) ==> a@ == self@.action_for(tag@, item@),
    {
        if !self.has_tag(tag) {
            return None;
        }
        let name = match self.item_name(item) {
            Some(name) => name,
            None => {
                return None;
            },
        };
        match self.link_of(tag, item) {
            Some(link) => Some(LinkAction::Remove { item: String::from_str(item), link }),
            None => {
                let link = child_path(tag, name.as_str());
                let target = tag_target_path(tag, item).unwrap();
                Some(LinkAction::Create { item: String::from_str(item), link, target })
            },
        }
    }

    /// Decides what a toggle of `tag` over the selection has to do on disk.
    /// Where the selected items disagree about the tag, nothing: the toggle
    /// is called off. Else one action for each selected item, removals if
    /// all carry the tag, creations if none does. The index is not changed:
    /// each action is recorded with `commit` once it has been done.
    pub fn toggle_tag(&self, tag: &str) -> (plan: Toggle)
        requires
            self.wf(),
        ensures
            plan is UnknownTag <==> !self@.tags.contains_key(tag@),
            plan is Mixed <==> self@.tags.contains_key(tag@) && self@.tag_state(tag@) is Mixed,
            plan matches Toggle::Apply(actions) ==> self@.plans(tag@, action_views(actions@)),
    {
        if !self.has_tag(tag) {
            return Toggle::UnknownTag;
        }
        match self.tag_state(tag) {
            CheckState::Mixed => {
                return Toggle::Mixed;
            },
            _ => {},
        }
        let sel = self.selection();
        let mut actions: Vec<LinkAction> = Vec::new();
        let mut k: usize = 0;
        while k < sel.len()
            invariant
                k <= sel.len(),
                self.wf(),
                self@.tags.contains_key(tag@),
                lists(sel@, self@.selected),
                actions.len() == k,
                forall|j: int|
                    0 <= j < k ==> (#[trigger] actions[j])@ == self@.action_for(tag@, sel[j]@)
                        && actions[j]@.subject() == sel[j]@,
            decreases sel.len() - k,
        {
            proof {
                lemma_lists_member(sel@, self@.selected, sel[k as int]@);
            }
            let action = self.plan_for(tag, sel[k].as_str()).unwrap();
            actions.push(action);
            k = k + 1;
        }
        proof {
            let s = self@;
            let views = action_views(actions@);
            assert forall|j: int| 0 <= j < views.len() implies s.selected.contains(
                (#[trigger] views[j]).subject(),
            ) && views[j] == s.action_for(tag@, views[j].subject()) by {
                assert(views[j] == actions[j]@);
                lemma_lists_member(sel@, s.selected, sel[j]@);
            }
            assert forall|i: Seq<char>| s.selected.contains(i) implies exists|j: int|
                0 <= j < views.len() && (#[trigger] views[j]).subject() == i by {
                lemma_lists_member(sel@, s.selected, i);
                let j = choose|j: int| 0 <= j < sel.len() && (#[trigger] sel[j])@ == i;
                assert(views[j] == actions[j]@);
                assert(views[j].subject() == i);
            }
            assert forall|j: int, k: int| 0 <= j < k < views.len() implies (
            #[trigger] views[j]).subject() != (#[trigger] views[k]).subject() by {
                assert(views[j] == actions[j]@);
                assert(views[k] == actions[k]@);
                assert(texts(sel@)[j] == sel[j]@);
                assert(texts(sel@)[k] == sel[k]@);
            }
        }
        Toggle::Apply(actions)
    }

    /// Records an action of a toggle of `tag` that has been done on disk.
    /// An action that does not fit the index is refused and changes nothing.
    pub fn commit(&mut self, tag: &str, action: &LinkAction) -> (done: Result<(), IndexError>)
        requires
            old(self).wf(),
        ensures
            final(self).wf(),
            done == old(self)@.check_action(tag@, action@),
            done is Ok ==> final(self)@ == old(self)@.applied(tag@, action@),
            done is Err ==> final(self)@ == old(self)@,
    {
        match action {
            LinkAction::Create { item, link, target } => {
                if !self.has_tag(tag) {
                    return Err(IndexError::UnknownTag);
                }
                let name = match self.item_name(item.as_str()) {
                    Some(name) => name,
                    None => {
                        return Err(IndexError::UnknownItem);
                    },
                };
                if self.is_tagged(tag, item.as_str()) {
                    return Err(IndexError::AlreadyTagged);
                }
                let expected = child_path(tag, name.as_str());
                if *link != expected {
                    return Err(IndexError::MisplacedLink);
                }
                let leads = tag_target_path(tag, item.as_str()).unwrap();
                if *target != leads {
                    return Err(IndexError::WrongTarget);
                }
                self.link(tag, item.as_str(), name.as_str())
            },
            LinkAction::Remove { item, link } => {
                if !self.has_tag(tag) {
                    return Err(IndexError::UnknownTag);
                }
                match self.link_of(tag, item.as_str()) {
                    None => {
                        return Err(IndexError::NotTagged);
                    },
                    Some(stored) => {
                        if *link != stored {
                            return Err(IndexError::MisplacedLink);
                        }
                    },
                }
                self.unlink(tag, item.as_str())
            },
        }
    }
}

/// With one item selected, a tag is on or off, never mixed.
pub proof fn lemma_single_selection(s: StateView, tag: Seq<char>, item: Seq<char>)
    requires
        s.selected == set![item],
    ensures
        s.tag_state(tag) == if s.tagged(tag, item) {
            CheckState::On
        } else {
            CheckState::Off
        },
{
    assert(s.selected.contains(item));
    if s.tagged(tag, item) {
        assert(s.some_on(tag));
        assert(!s.some_off(tag));
    } else {
        assert(!s.some_on(tag));
    }
}

/// A plan for a selection of one item is the one action for that item.
pub proof fn lemma_single_plan(
    s: StateView,
    tag: Seq<char>,
    item: Seq<char>,
    actions: Seq<ActionView>,
)
    requires
        s.selected == set![item],
        s.plans(tag, actions),
    ensures
        actions == seq![s.action_for(tag, item)],
{
    assert(s.selected.contains(item));
    let j = choose|j: int| 0 <= j < actions.len() && (#[trigger] actions[j]).subject() == item;
    if actions.len() > 1 {
        assert(s.selected.contains(actions[0].subject()));
        assert(s.selected.contains(actions[1].subject()));
        assert(actions[0].subject() != actions[1].subject());
    }
    assert(actions[0] == s.action_for(tag, item));
    assert(actions =~= seq![s.action_for(tag, item)]);
}

/// Toggling a tag for an item that does not carry it, and toggling it
/// again, leaves the item's tags and the tag's links as they were: the first
/// toggle creates the link and records it, the second removes that same
/// link, and the state is the one before.
pub proof fn lemma_toggle_round_trip(s: StateView, tag: Seq<char>, item: Seq<char>)
    requires
        s.wf(),
        s.tags.contains_key(tag),
        s.items.contains_key(item),
        !s.tagged(tag, item),
    ensures
        ({
            let on = s.action_for(tag, item);
            let mid = s.applied(tag, on);
            let off = mid.action_for(tag, item);
            &&& on is Create
            &&& s.check_action(tag, on) is Ok
            &&& mid.wf()
            &&& mid.tagged(tag, item)
            &&& mid.items[item].tags.contains(tag)
            &&& off == (ActionView::Remove { item, link: on->Create_link })
            &&& mid.check_action(tag, off) is Ok
            &&& mid.applied(tag, off) == s
        }),
{
    let on = s.action_for(tag, item);
    let mid = s.applied(tag, on);
    let off = mid.action_for(tag, item);
    let back = mid.applied(tag, off);
    lemma_linked_wf(s, tag, item, s.items[item].name);
    assert(!s.items[item].tags.contains(tag));
    assert(mid.items[item].tags.remove(tag) =~= s.items[item].tags);
    assert(mid.tags[tag].items.remove(item) =~= s.tags[tag].items);
    assert(back.items =~= s.items);
    assert(back.tags =~= s.tags);
}

/// With one item selected that does not carry the tag, two toggles in a row
/// restore the state: the first finds the tag off and turns it on, the
/// second finds it on and turns it off, and nothing else has changed.
pub proof fn lemma_toggle_twice(
    s: StateView,
    tag: Seq<char>,
    item: Seq<char>,
    first: Seq<ActionView>,
    second: Seq<ActionView>,
)
    requires
        s.wf(),
        s.tags.contains_key(tag),
        s.selected == set![item],
        !s.tagged(tag, item),
        s.plans(tag, first),
        s.applied_all(tag, first).plans(tag, second),
    ensures
        s.tag_state(tag) is Off,
        s.accepts_all(tag, first),
        s.applied_all(tag, first).tag_state(tag) is On,
        s.applied_all(tag, first).accepts_all(tag, second),
        s.applied_all(tag, first).applied_all(tag, second) == s,
{
    assert(s.selected.contains(item));
    let on = s.action_for(tag, item);
    let mid = s.applied(tag, on);
    let off = mid.action_for(tag, item);
    lemma_single_selection(s, tag, item);
    lemma_single_plan(s, tag, item, first);
    lemma_toggle_round_trip(s, tag, item);
    assert(seq![on].drop_last().len() == 0);
    assert(seq![on].last() == on);
    assert(s.applied_all(tag, seq![on].drop_last()) == s);
    assert(s.applied_all(tag, seq![on]) == mid);
    lemma_single_selection(mid, tag, item);
    lemma_single_plan(mid, tag, item, second);
    assert(seq![off].drop_last().len() == 0);
    assert(seq![off].last() == off);
    assert(mid.applied_all(tag, seq![off].drop_last()) == mid);
    assert(mid.applied_all(tag, seq![off]) == mid.applied(tag, off));
    lemma_toggle_flips(s, tag, first);
    lemma_toggle_flips(mid, tag, second);
}

/// The link that a toggle creates for an item lies directly in the tag's
/// directory, under the item's display name, and its target, followed from
/// that directory, leads to the item.
pub proof fn lemma_created_link_leads_to_item(s: StateView, tag: Seq<char>, item: Seq<char>)
    requires
        s.wf(),
        s.tags.contains_key(tag),
        s.items.contains_key(item),
        !s.tagged(tag, item),
    ensures
        s.action_for(tag, item) is Create,
        is_entry_of(tag, s.action_for(tag, item)->Create_link),
        entry_name(tag, s.action_for(tag, item)->Create_link) == s.items[item].name,
        resolve_text(tag, s.action_for(tag, item)->target) == item,
{
    lemma_child_is_entry(tag, s.items[item].name);
    lemma_relative_resolves(tag, item);
}

} // verus!
