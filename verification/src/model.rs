//! Targets, filters and conditions, with the mathematical value of each.

use vstd::prelude::*;

verus! {

/// A named archive destination and the roots that are walked for it.
pub struct Target {
    /// The directory inside the archive under which the roots' files land.
    pub name: String,
    /// The roots, absolute and canonical, in the order they are walked.
    pub paths: Vec<String>,
}

/// An exclusion rule.
pub struct Filter {
    pub name: String,
    /// Names of the targets the filter applies to; `"global"` stands for all.
    pub scopes: Vec<String>,
    /// Paths, relative to an entry's parent, at which the filter triggers.
    pub targets: Vec<String>,
    /// Checks made, in order, once the filter has triggered.
    pub conditions: Vec<Condition>,
}

/// One existence check, relative to the parent of the entry under test.
pub struct Condition {
    /// When set, the condition holds where the path is absent.
    pub not: bool,
    pub path: String,
}

/// The value of a [`Target`].
pub struct TargetView {
    pub name: Seq<char>,
    pub paths: Seq<Seq<char>>,
}

/// The value of a [`Filter`].
pub struct FilterView {
    pub name: Seq<char>,
    pub scopes: Seq<Seq<char>>,
    pub targets: Seq<Seq<char>>,
    pub conditions: Seq<ConditionView>,
}

/// The value of a [`Condition`].
pub struct ConditionView {
    pub not: bool,
    pub path: Seq<char>,
}

impl View for Condition {
    type V = ConditionView;

    open spec fn view(&self) -> ConditionView {
        ConditionView { not: self.not, path: self.path@ }
    }
}

impl View for Filter {
    type V = FilterView;

    open spec fn view(&self) -> FilterView {
        FilterView {
            name: self.name@,
            scopes: self.scopes.deep_view(),
            targets: self.targets.deep_view(),
            conditions: condition_views(self.conditions@),
        }
    }
}

impl View for Target {
    type V = TargetView;

    open spec fn view(&self) -> TargetView {
        TargetView { name: self.name@, paths: self.paths.deep_view() }
    }
}

/// The values of a list of conditions, in order.
pub open spec fn condition_views(conditions: Seq<Condition>) -> Seq<ConditionView> {
    Seq::new(conditions.len(), |i: int| conditions[i]@)
}

/// The values of a list of borrowed filters, in order.
pub open spec fn filter_views(filters: Seq<&Filter>) -> Seq<FilterView> {
    Seq::new(filters.len(), |i: int| filters[i]@)
}

/// The set of the strings that a list holds.
pub open spec fn string_set(items: Seq<String>) -> Set<Seq<char>> {
    Set::new(|s: Seq<char>| exists|i: int| 0 <= i < items.len() && items[i]@ == s)
}

/// Whether `items` holds a string equal to `needle`.
pub fn contains_string(items: &Vec<String>, needle: &String) -> (found: bool)
    ensures
        found == string_set(items@).contains(needle@),
        found == items.deep_view().contains(needle@),
{
    let mut i: usize = 0;
    while i < items.len()
        invariant
            i <= items.len(),
            forall|j: int| 0 <= j < i ==> items@[j]@ != needle@,
        decreases items.len() - i,
    {
        if items[i] == *needle {
            assert(items.deep_view()[i as int] == needle@);
            return true;
        }
        i += 1;
    }
    assert forall|j: int| 0 <= j < items.deep_view().len() implies items.deep_view()[j]
        != needle@ by {
        assert(items.deep_view()[j] == items@[j]@);
    }
    false
}

} // verus!
