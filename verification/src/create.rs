//! Making a new tag.

use crate::index::{AppState, IndexError, StateView};
use crate::scan::{nested_name, nested_tag_name};
use vstd::prelude::*;

verus! {

impl StateView {
    /// The directory to create for a new tag named `name`: the name below
    /// the tags root. There is none for an empty name.
    pub open spec fn new_tag_dir(self, name: Seq<char>) -> Option<Seq<char>> {
        if name.len() == 0 {
            None
        } else {
            Some(nested_name(self.tags_root, name))
        }
    }

    /// Whether a tag named `name` may be registered under `id`.
    pub open spec fn check_new_tag(self, id: Seq<char>, name: Seq<char>) -> Result<(), IndexError> {
        if name.len() == 0 {
            Err(IndexError::EmptyName)
        } else {
            self.check_tag(id)
        }
    }
}

impl AppState {
    /// The directory to create for a new tag named `name`, with every
    /// directory on the way to it. `None` for an empty name: then nothing is
    /// to be created.
    pub fn new_tag_dir(&self, name: &str) -> (dir: Option<String>)
        ensures
            dir is Some <==> self@.new_tag_dir(name@) is Some,
            dir matches Some(d) ==> d@ == self@.new_tag_dir(name@)->0,
    {
        if name.unicode_len() == 0 {
            None
        } else {
            let root = self.tags_path();
            Some(nested_tag_name(root.as_str(), name))
        }
    }

    /// Registers the tag named `name` whose directory was created and has
    /// the canonical path `id`. No item carries it. An empty name, a path
    /// that is not canonical, and a path that is an item or a tag already
    /// are refused, and nothing changes.
    pub fn create_tag(&mut self, id: &str, name: &str) -> (done: Result<(), IndexError>)
        requires
            old(self).wf(),
        ensures
            final(self).wf(),
            done == old(self)@.check_new_tag(id@, name@),
            done is Ok ==> final(self)@ == old(self)@.with_tag(id@, name@),
            done is Err ==> final(self)@ == old(self)@,
    {
        if name.unicode_len() == 0 {
            return Err(IndexError::EmptyName);
        }
        self.add_tag(id, name)
    }
}

} // verus!
