//! Selection state of an editing session: which view is open and which
//! bone is selected, both by string key. Keys are not enforced unique,
//! so a lookup means "first match in sequence order", and renaming a
//! key updates nothing else.

use vstd::prelude::*;
use crate::schema::{SchemaBone, SchemaView};
use crate::text::bytes_eq;

verus! {

/// Selection state: the open view's name, the selected bone's label,
/// and the image tab asked to be opened, if any.
pub struct UiState {
    pub view: Option<Vec<u8>>,
    pub bone: Option<Vec<u8>>,
    pub open_tab: Option<Vec<u8>>,
}

impl Default for UiState {
    fn default() -> (r: Self)
        ensures
            r.view is None,
            r.bone is None,
            r.open_tab is None,
    {
        UiState { view: None, bone: None, open_tab: None }
    }
}

impl UiState {
    /// Opens a view: remembers its name and clears the bone selection.
    pub fn open_view(&mut self, view: &SchemaView)
        ensures
            final(self).view matches Some(n) && n@ == view@.name,
            final(self).bone is None,
            final(self).open_tab == old(self).open_tab,
    {
        self.view = Some(crate::text::copy_bytes(&view.name));
        self.bone = None;
    }

    /// Whether the given view is the open one: an exact name match.
    pub fn is_open_view(&self, view: &SchemaView) -> (r: bool)
        ensures
            r == match self.view {
                Some(n) => n@ == view@.name,
                None => false,
            },
    {
        match &self.view {
            Some(n) => bytes_eq(n, &view.name),
            None => false,
        }
    }

    /// Selects a bone by its label.
    pub fn select_bone(&mut self, bone: &SchemaBone)
        ensures
            final(self).bone matches Some(l) && l@ == bone@.label,
            final(self).view == old(self).view,
            final(self).open_tab == old(self).open_tab,
    {
        self.bone = Some(crate::text::copy_bytes(&bone.label));
    }

    /// Whether the given bone is the selected one: an exact label match.
    pub fn is_selected_bone(&self, bone: &SchemaBone) -> (r: bool)
        ensures
            r == match self.bone {
                Some(l) => l@ == bone@.label,
                None => false,
            },
    {
        match &self.bone {
            Some(l) => bytes_eq(l, &bone.label),
            None => false,
        }
    }
}

} // verus!
