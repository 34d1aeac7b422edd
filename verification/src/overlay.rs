//! The search overlay's response to the keyboard: editing the query, moving the
//! selection through the results, and closing or opening the selected result.
//! Drawing the window and opening files is the caller's part.
use vstd::prelude::*;
use crate::text::{chars_of, slice_chars, string_of};

verus! {

/// What the overlay holds between messages.
pub struct OverlayState {
    pub query: String,
    pub selected_index: usize,
    pub filter: usize,
}

/// What the window does after a key.
#[derive(Debug, Clone, Copy, PartialEq, Eq, Structural)]
pub enum OverlayAction {
    Stay,
    Close,
    OpenAndClose(usize),
}

pub const VK_BACK: u32 = 0x08;
pub const VK_RETURN: u32 = 0x0D;
pub const VK_ESCAPE: u32 = 0x1B;
pub const VK_UP: u32 = 0x26;
pub const VK_DOWN: u32 = 0x28;
pub const VK_DELETE: u32 = 0x2E;

/// The action of a key: Escape closes; Enter opens the selected result, when there is
/// one, and closes; any other key keeps the window.
pub open spec fn key_action(vk: u32, selected: usize, result_count: usize) -> OverlayAction {
    if vk == VK_ESCAPE {
        OverlayAction::Close
    } else if vk == VK_RETURN {
        if result_count > 0 && selected < result_count {
            OverlayAction::OpenAndClose(selected)
        } else {
            OverlayAction::Close
        }
    } else {
        OverlayAction::Stay
    }
}

/// The selection after a key: Up moves it back unless it is first, Down forward unless
/// it is on the last result.
pub open spec fn key_selection(vk: u32, selected: usize, result_count: usize) -> usize {
    if vk == VK_UP && selected > 0 {
        (selected - 1) as usize
    } else if vk == VK_DOWN && selected + 1 < result_count {
        (selected + 1) as usize
    } else {
        selected
    }
}

/// The query after a key: Backspace and Delete drop its last character.
pub open spec fn key_query(vk: u32, q: Seq<char>) -> Seq<char> {
    if (vk == VK_BACK || vk == VK_DELETE) && q.len() > 0 {
        q.drop_last()
    } else {
        q
    }
}

/// The query after a typed character: printable ASCII and the space are added.
pub open spec fn typed_query(code: u8, q: Seq<char>) -> Seq<char> {
    if (0x21 <= code && code <= 0x7E) || code == 0x20 {
        q.push(code as char)
    } else {
        q
    }
}

impl OverlayState {
    pub fn new() -> (s: OverlayState)
        ensures
            s.query@ == Seq::<char>::empty(),
            s.selected_index == 0,
            s.filter == 0,
    {
        OverlayState { query: String::new(), selected_index: 0, filter: 0 }
    }

    /// Handles a key press while `result_count` results are shown: see `key_action`,
    /// `key_selection` and `key_query`. Only Enter, Escape, the arrows, Backspace and
    /// Delete do anything.
    pub fn key_down(&mut self, vk: u32, result_count: usize) -> (a: OverlayAction)
        ensures
            a == key_action(vk, old(self).selected_index, result_count),
            final(self).selected_index == key_selection(vk, old(self).selected_index, result_count),
            final(self).query@ == key_query(vk, old(self).query@),
            final(self).filter == old(self).filter,
    {
        if vk == VK_ESCAPE {
            return OverlayAction::Close;
        }
        if vk == VK_RETURN {
            if result_count > 0 && self.selected_index < result_count {
                return OverlayAction::OpenAndClose(self.selected_index);
            }
            return OverlayAction::Close;
        }
        if vk == VK_UP {
            if self.selected_index > 0 {
                self.selected_index = self.selected_index - 1;
            }
        } else if vk == VK_DOWN {
            if self.selected_index < usize::MAX && self.selected_index + 1 < result_count {
                self.selected_index = self.selected_index + 1;
            }
        } else if vk == VK_BACK || vk == VK_DELETE {
            let q = chars_of(self.query.as_str());
            if q.len() > 0 {
                let shorter = slice_chars(&q, 0, q.len() - 1);
                assert(shorter@ =~= q@.drop_last());
                self.query = string_of(&shorter);
            }
        }
        OverlayAction::Stay
    }

    /// Handles a typed character: see `typed_query`.
    pub fn typed(&mut self, code: u8)
        ensures
            final(self).query@ == typed_query(code, old(self).query@),
            final(self).selected_index == old(self).selected_index,
            final(self).filter == old(self).filter,
    {
        if (0x21 <= code && code <= 0x7E) || code == 0x20 {
            let mut q = chars_of(self.query.as_str());
            q.push(code as char);
            self.query = string_of(&q);
        }
    }
}

} // verus!
