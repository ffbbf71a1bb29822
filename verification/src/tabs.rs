//! The main view's tabs.

use vstd::prelude::*;

verus! {

/// One of the main view's tabs.
#[derive(Debug, Clone, PartialEq, Eq)]
pub enum Tab {
    Table,
    Graph,
    Viewer,
}

impl Default for Tab {
    /// The table is shown first.
    fn default() -> (r: Self)
        ensures
            r == Tab::Table,
    {
        Tab::Table
    }
}

/// The fixed collection of tabs.
pub struct Tabs;

impl Tabs {
    /// Every tab, in display order.
    pub fn all() -> (r: Vec<Tab>)
        ensures
            r@ == seq![Tab::Table, Tab::Graph, Tab::Viewer],
    {
        let mut v: Vec<Tab> = Vec::new();
        v.push(Tab::Table);
        v.push(Tab::Graph);
        v.push(Tab::Viewer);
        proof {
            assert(v@ =~= seq![Tab::Table, Tab::Graph, Tab::Viewer]);
        }
        v
    }
}

} // verus!
