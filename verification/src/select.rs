//! What the selection says of a tag, and the labels that show it.

use crate::index::{AppState, StateView};
use crate::store::{lemma_lists_member, lists};
use vstd::prelude::*;

verus! {

/// The state of a check box.
#[derive(Clone, Copy, Debug, PartialEq, Eq)]
pub enum CheckState {
    /// No selected item carries the tag; for an item: not selected.
    Off,
    /// Every selected item carries the tag, and there is one; for an item: selected.
    On,
    /// Some selected items carry the tag and some do not.
    Mixed,
}

impl StateView {
    /// Some selected item carries `tag`.
    pub open spec fn some_on(self, tag: Seq<char>) -> bool {
        exists|i: Seq<char>| self.selected.contains(i) && #[trigger] self.tagged(tag, i)
    }

    /// Some selected item does not carry `tag`.
    pub open spec fn some_off(self, tag: Seq<char>) -> bool {
        exists|i: Seq<char>| self.selected.contains(i) && !(#[trigger] self.tagged(tag, i))
    }

    /// How `tag` stands to the selection.
    pub open spec fn tag_state(self, tag: Seq<char>) -> CheckState {
        if !self.some_on(tag) {
            CheckState::Off
        } else if !self.some_off(tag) {
            CheckState::On
        } else {
            CheckState::Mixed
        }
    }

    /// Whether the item `id` is selected, as a check box.
    pub open spec fn item_state(self, id: Seq<char>) -> CheckState {
        if self.selected.contains(id) {
            CheckState::On
        } else {
            CheckState::Off
        }
    }
}

/// One line of a list on the screen.
#[derive(Clone, Debug, PartialEq, Eq)]
pub struct Row {
    /// What the line shows.
    pub label: String,
    /// The path of the item or tag that the line stands for.
    pub id: String,
}

/// The paths that the rows stand for.
pub open spec fn row_ids(rows: Seq<Row>) -> Seq<String> {
    rows.map_values(|r: Row| r.id)
}

/// The three characters that draw a check box.
pub open spec fn mark(state: CheckState) -> Seq<char> {
    match state {
        CheckState::Off => seq!['[', ' ', ']'],
        CheckState::On => seq!['[', 'X', ']'],
        CheckState::Mixed => seq!['[', '?', ']'],
    }
}

/// A check box, a blank, and a name.
pub open spec fn label(state: CheckState, name: Seq<char>) -> Seq<char> {
    mark(state) + seq![' '] + name
}

/// The line that shows `name` with a check box in the state `state`.
pub fn label_text(state: CheckState, name: &str) -> (text: String)
    ensures
        text@ == label(state, name@),
{
    proof {
        reveal_strlit("[ ] ");
        reveal_strlit("[X] ");
        reveal_strlit("[?] ");
    }
    let mut text = match state {
        CheckState::Off => String::from_str("[ ] "),
        CheckState::On => String::from_str("[X] "),
        CheckState::Mixed => String::from_str("[?] "),
    };
    assert(text@ == mark(state) + seq![' ']);
    text.append(name);
    text
}

impl AppState {
    /// How `tag` stands to the selection: off when no selected item carries
    /// it (so also when nothing is selected), on when all do, mixed otherwise.
    pub fn tag_state(&self, tag: &str) -> (state: CheckState)
        ensures
            state == self@.tag_state(tag@),
    {
        let sel = self.selection();
        let mut on = false;
        let mut off = false;
        let mut k: usize = 0;
        while k < sel.len()
            invariant
                k <= sel.len(),
                on <==> exists|j: int| 0 <= j < k && self@.tagged(tag@, (#[trigger] sel[j])@),
                off <==> exists|j: int| 0 <= j < k && !self@.tagged(tag@, (#[trigger] sel[j])@),
            decreases sel.len() - k,
        {
            let member = self.is_tagged(tag, sel[k].as_str());
            proof {
                if member {
                    assert(self@.tagged(tag@, sel[k as int]@));
                } else {
                    assert(!self@.tagged(tag@, sel[k as int]@));
                }
            }
            if member {
                on = true;
            } else {
                off = true;
            }
            k = k + 1;
        }
        proof {
            let s = self@;
            if on {
                let j = choose|j: int| 0 <= j < sel.len() && s.tagged(tag@, (#[trigger] sel[j])@);
                lemma_lists_member(sel@, s.selected, sel[j]@);
                assert(s.selected.contains(sel[j]@) && s.tagged(tag@, sel[j]@));
            }
            if s.some_on(tag@) {
                let i = choose|i: Seq<char>| s.selected.contains(i) && #[trigger] s.tagged(tag@, i);
                lemma_lists_member(sel@, s.selected, i);
            }
            if off {
                let j = choose|j: int| 0 <= j < sel.len() && !s.tagged(tag@, (#[trigger] sel[j])@);
                lemma_lists_member(sel@, s.selected, sel[j]@);
                assert(s.selected.contains(sel[j]@) && !s.tagged(tag@, sel[j]@));
            }
            if s.some_off(tag@) {
                let i = choose|i: Seq<char>|
                    s.selected.contains(i) && !(#[trigger] s.tagged(tag@, i));
                lemma_lists_member(sel@, s.selected, i);
            }
        }
        if !on {
            CheckState::Off
        } else if !off {
            CheckState::On
        } else {
            CheckState::Mixed
        }
    }

    /// The line that shows the item `id`: checked when it is selected.
    pub fn item_label(&self, id: &str) -> (text: Option<String>)
        ensures
            text is Some <==> self@.items.contains_key(id@),
            text matches Some(t) ==> t@ == label(self@.item_state(id@), self@.items[id@].name),
    {
        match self.item_name(id) {
            Some(name) => {
                let state = if self.is_selected(id) {
                    CheckState::On
                } else {
                    CheckState::Off
                };
                Some(label_text(state, name.as_str()))
            },
            None => None,
        }
    }

    /// The line that shows the tag `id`, with its state for the selection.
    pub fn tag_label(&self, id: &str) -> (text: Option<String>)
        ensures
            text is Some <==> self@.tags.contains_key(id@),
            text matches Some(t) ==> t@ == label(self@.tag_state(id@), self@.tags[id@].name),
    {
        match self.tag_name(id) {
            Some(name) => Some(label_text(self.tag_state(id), name.as_str())),
            None => None,
        }
    }
}

impl AppState {
    /// The lines of the items list: one for each item that is shown, with
    /// the item's display name, in no particular order.
    pub fn item_rows(&self) -> (rows: Vec<Row>)
        requires
            self.wf(),
        ensures
            lists(row_ids(rows@), self@.visible),
            forall|j: int|
                0 <= j < rows.len() ==> (#[trigger] rows[j]).label@
                    == self@.items[rows[j].id@].name,
    {
        let ids = self.visible();
        let mut rows: Vec<Row> = Vec::new();
        let mut k: usize = 0;
        while k < ids.len()
            invariant
                k <= ids.len(),
                self.wf(),
                lists(ids@, self@.visible),
                rows.len() == k,
                forall|j: int| 0 <= j < k ==> (#[trigger] rows[j]).id == ids[j],
                forall|j: int|
                    0 <= j < k ==> (#[trigger] rows[j]).label@ == self@.items[rows[j].id@].name,
            decreases ids.len() - k,
        {
            proof {
                lemma_lists_member(ids@, self@.visible, ids[k as int]@);
            }
            let label = self.item_name(ids[k].as_str()).unwrap();
            rows.push(Row { label, id: ids[k].clone() });
            k = k + 1;
        }
        assert(row_ids(rows@) =~= ids@);
        rows
    }

    /// The lines of the tags list: one for each tag, with the tag's display
    /// name, in no particular order.
    pub fn tag_rows(&self) -> (rows: Vec<Row>)
        ensures
            lists(row_ids(rows@), self@.tags.dom()),
            forall|j: int|
                0 <= j < rows.len() ==> (#[trigger] rows[j]).label@ == self@.tags[rows[j].id@].name,
    {
        let ids = self.tags();
        let mut rows: Vec<Row> = Vec::new();
        let mut k: usize = 0;
        while k < ids.len()
            invariant
                k <= ids.len(),
                lists(ids@, self@.tags.dom()),
                rows.len() == k,
                forall|j: int| 0 <= j < k ==> (#[trigger] rows[j]).id == ids[j],
                forall|j: int|
                    0 <= j < k ==> (#[trigger] rows[j]).label@ == self@.tags[rows[j].id@].name,
            decreases ids.len() - k,
        {
            proof {
                lemma_lists_member(ids@, self@.tags.dom(), ids[k as int]@);
            }
            let label = self.tag_name(ids[k].as_str()).unwrap();
            rows.push(Row { label, id: ids[k].clone() });
            k = k + 1;
        }
        assert(row_ids(rows@) =~= ids@);
        rows
    }
}

} // verus!
