use vstd::prelude::*;

verus! {

/// The four ways the selection can be moved.
#[derive(Clone, Copy, Debug, PartialEq, Eq)]
pub enum CursorDirection {
    Up,
    Down,
    PageUp,
    PageDown,
}

/// How many positions a page move covers.
pub const PAGE_SIZE: usize = 10;

/// Where a cursor at `n` lands after moving in direction `d`, saturating at the
/// bounds of `usize`.
pub open spec fn moved(d: CursorDirection, n: usize) -> usize {
    match d {
        CursorDirection::Up => if n >= 1 { (n - 1) as usize } else { 0 },
        CursorDirection::Down => if n < usize::MAX { (n + 1) as usize } else { n },
        CursorDirection::PageUp => if n >= PAGE_SIZE { (n - PAGE_SIZE) as usize } else { 0 },
        CursorDirection::PageDown => if n <= usize::MAX - PAGE_SIZE {
            (n + PAGE_SIZE) as usize
        } else {
            usize::MAX
        },
    }
}

impl CursorDirection {
    pub fn move_cursor(&self, n: usize) -> (r: usize)
        ensures
            r == moved(*self, n),
    {
        match self {
            CursorDirection::Up => n.saturating_sub(1),
            CursorDirection::Down => n.saturating_add(1),
            CursorDirection::PageUp => n.saturating_sub(PAGE_SIZE),
            CursorDirection::PageDown => n.saturating_add(PAGE_SIZE),
        }
    }
}

/// A key press, as far as the mark pane tells keys apart.
#[derive(Clone, Copy, Debug, PartialEq, Eq)]
pub enum Key {
    Char(char),
    Ctrl(char),
    Up,
    Down,
    PageUp,
    PageDown,
    Other,
}

} // verus!
