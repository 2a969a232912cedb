use vstd::prelude::*;

verus! {

/// Configuration for how a tree expands its arrays/objects by default.
#[derive(Debug, Clone, Copy, PartialEq, Eq, Hash)]
pub enum DefaultExpand<'a> {
    /// Expand all arrays and objects.
    All,
    /// Collapse all arrays and objects.
    Collapsed,
    /// Expand arrays and objects according to how many levels deep they are nested:
    /// `ToLevel(0)` expands the root array/object only, `ToLevel(1)` also its direct children, and so on.
    ToLevel(u8),
    /// Expand the arrays and objects that enclose an object key or a non-recursive value
    /// matching the search string, ignoring ASCII letter case. An empty search string expands nothing.
    SearchResults(&'a str),
    /// As [`DefaultExpand::SearchResults`], but an empty search string expands all arrays and objects.
    SearchResultsOrAll(&'a str),
}

impl<'a> Default for DefaultExpand<'a> {
    fn default() -> (res: Self)
        ensures
            res == DefaultExpand::<'a>::Collapsed,
    {
        DefaultExpand::Collapsed
    }
}

} // verus!
