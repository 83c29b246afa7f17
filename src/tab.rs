//! The tabs of the terminal front-end.

use vstd::prelude::*;

verus! {

/// A tab of the terminal front-end.
#[derive(PartialEq, Eq, Structural, Clone, Copy, Debug)]
pub enum Tab {
    Cli,
    Editor,
}

/// The tab to the right of `t`; the tabs wrap around.
pub open spec fn tab_after(t: Tab) -> Tab {
    match t {
        Tab::Cli => Tab::Editor,
        Tab::Editor => Tab::Cli,
    }
}

impl Tab {
    /// The tab to the right (the tabs wrap around).
    pub fn next(self) -> (r: Self)
        ensures
            r == tab_after(self),
    {
        match self {
            Tab::Cli => Tab::Editor,
            Tab::Editor => Tab::Cli,
        }
    }

    /// The tab to the left (the tabs wrap around).
    pub fn previous(self) -> (r: Self)
        ensures
            tab_after(r) == self,
    {
        match self {
            Tab::Cli => Tab::Editor,
            Tab::Editor => Tab::Cli,
        }
    }

    /// The tab's title.
    pub fn title(self) -> (r: &'static str)
        ensures
            self == Tab::Cli ==> r@ == "CLI"@,
            self == Tab::Editor ==> r@ == "Editor"@,
    {
        match self {
            Tab::Cli => "CLI",
            Tab::Editor => "Editor",
        }
    }
}

} // verus!
