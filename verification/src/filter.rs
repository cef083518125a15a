//! The exclusion decision.
//!
//! A filter triggers at an entry when one of its trigger paths, taken
//! relative to the entry's parent, names the entry itself. A triggered
//! filter excludes the entry as soon as one of its conditions holds. A
//! condition looks up its path relative to that same parent and holds when
//! the outcome differs from its `not` flag.
//!
//! The disk enters as `present`: the paths that are known to exist. The
//! functions here say which paths they look up, so a caller may probe only
//! those.

use crate::model::condition_views;
use crate::model::contains_string;
use crate::model::string_set;
use crate::model::Condition;
use crate::model::ConditionView;
use crate::model::Filter;
use crate::model::FilterView;
use crate::model::filter_views;
use crate::paths::join;
use crate::paths::parent_of;
use crate::paths::path_join;
use crate::paths::path_parent;
use crate::paths::path_same;
use crate::paths::same;
use vstd::prelude::*;

verus! {

/// A filter applies to a target when its scopes name the target or hold the
/// word `global`.
pub open spec fn applies_to(filter: FilterView, target_name: Seq<char>) -> bool {
    filter.scopes.contains(target_name) || filter.scopes.contains("global"@)
}

/// The filters that apply to a target, in declaration order.
pub open spec fn scoped(filters: Seq<Filter>, target_name: Seq<char>) -> Seq<Filter> {
    filters.filter(|f: Filter| applies_to(f@, target_name))
}

/// The filters that a list of borrows points to.
pub open spec fn referents(filters: Seq<&Filter>) -> Seq<Filter> {
    filters.map_values(|f: &Filter| *f)
}

/// Whether one of the filter's trigger paths, joined to the parent of
/// `path`, is `path`. An entry without a parent triggers nothing.
pub open spec fn triggers_at(filter: FilterView, path: Seq<char>) -> bool {
    match path_parent(path) {
        Some(parent) => exists|i: int|
            0 <= i < filter.targets.len() && path_same(
                path_join(parent, #[trigger] filter.targets[i]),
                path,
            ),
        None => false,
    }
}

/// The path that a condition looks up for an entry whose parent is `parent`.
pub open spec fn probe(parent: Seq<char>, condition: ConditionView) -> Seq<char> {
    path_join(parent, condition.path)
}

/// A condition holds when its path is present and it is plain, or absent
/// and it is negated.
pub open spec fn holds(condition: ConditionView, found: bool) -> bool {
    (found && !condition.not) || (!found && condition.not)
}

/// Whether some condition of the filter holds for an entry whose parent is
/// `parent`.
pub open spec fn some_condition_holds(
    filter: FilterView,
    parent: Seq<char>,
    present: Set<Seq<char>>,
) -> bool {
    exists|i: int|
        0 <= i < filter.conditions.len() && holds(
            #[trigger] filter.conditions[i],
            present.contains(probe(parent, filter.conditions[i])),
        )
}

/// Whether the filter excludes the entry at `path`, on a disk where exactly
/// the paths in `present` exist.
pub open spec fn excludes(filter: FilterView, path: Seq<char>, present: Set<Seq<char>>) -> bool {
    triggers_at(filter, path) && some_condition_holds(
        filter,
        path_parent(path).unwrap(),
        present,
    )
}

/// Whether any of the filters excludes the entry at `path`.
pub open spec fn any_excludes(
    filters: Seq<FilterView>,
    path: Seq<char>,
    present: Set<Seq<char>>,
) -> bool {
    exists|i: int| 0 <= i < filters.len() && excludes(#[trigger] filters[i], path, present)
}

/// What is decided once the lookups are made: `probes[i]` is the path that
/// condition `i` looks up. Conditions past the end of `probes` are not
/// consulted.
pub open spec fn verdict(
    triggered: bool,
    conditions: Seq<ConditionView>,
    probes: Seq<Seq<char>>,
    present: Set<Seq<char>>,
) -> bool {
    triggered && exists|i: int|
        0 <= i < conditions.len() && i < probes.len() && holds(
            #[trigger] conditions[i],
            present.contains(probes[i]),
        )
}

/// The paths that the filters look up to decide on the entry at `path`:
/// the condition paths of each filter that triggers there.
pub open spec fn looked_up(filters: Seq<FilterView>, path: Seq<char>) -> Set<Seq<char>> {
    Set::new(
        |p: Seq<char>|
            exists|i: int, j: int|
                0 <= i < filters.len() && triggers_at(filters[i], path) && 0 <= j
                    < filters[i].conditions.len() && p == probe(
                    path_parent(path).unwrap(),
                    #[trigger] filters[i].conditions[j],
                ),
    )
}

/// Selects the filters that apply to the target named `target_name`, keeping
/// their order.
pub fn get_filters<'a>(target_name: &'a str, filters: &'a [Filter]) -> (active: Vec<&'a Filter>)
    ensures
        referents(active@) == scoped(filters@, target_name@),
{
    let target_name = target_name.to_owned();
    let global = "global".to_owned();
    let mut active: Vec<&'a Filter> = Vec::new();
    let ghost applies = |f: Filter| applies_to(f@, target_name@);
    let mut i: usize = 0;
    proof {
        reveal(Seq::filter);
        assert(filters@.take(0).filter(applies) =~= Seq::<Filter>::empty());
        assert(referents(active@) =~= Seq::<Filter>::empty());
    }
    while i < filters.len()
        invariant
            i <= filters.len(),
            global@ == "global"@,
            applies == (|f: Filter| applies_to(f@, target_name@)),
            referents(active@) == filters@.take(i as int).filter(applies),
        decreases filters.len() - i,
    {
        let filter = &filters[i];
        let keep = contains_string(&filter.scopes, &target_name) || contains_string(
            &filter.scopes,
            &global,
        );
        proof {
            let before = filters@.take(i as int);
            assert(filters@.take(i + 1) =~= before.push(*filter));
            before.lemma_filter_push(*filter, applies);
            assert(keep == applies(*filter));
            if keep {
                assert(referents(active@.push(filter)) =~= referents(active@).push(*filter));
            }
        }
        if keep {
            active.push(filter);
        }
        i += 1;
    }
    proof {
        assert(filters@.take(filters.len() as int) =~= filters@);
    }
    active
}

/// Whether a condition holds of the outcome of its lookup.
pub fn condition_holds(condition: &Condition, found: bool) -> (satisfied: bool)
    ensures
        satisfied == holds(condition@, found),
{
    (found && !condition.not) || (!found && condition.not)
}

/// Decides exclusion from what the lookups gave: whether the filter
/// triggered, its conditions, the path each condition looks up, and the
/// paths that exist.
pub fn excluded_after(
    triggered: bool,
    conditions: &Vec<Condition>,
    probes: &Vec<String>,
    present: &Vec<String>,
) -> (excluded: bool)
    ensures
        excluded == verdict(
            triggered,
            condition_views(conditions@),
            probes.deep_view(),
            string_set(present@),
        ),
{
    let ghost views = condition_views(conditions@);
    if !triggered {
        return false;
    }
    let mut i: usize = 0;
    while i < conditions.len() && i < probes.len()
        invariant
            i <= conditions.len(),
            i <= probes.len(),
            triggered,
            views == condition_views(conditions@),
            forall|j: int|
                0 <= j < i ==> !holds(
                    #[trigger] views[j],
                    string_set(present@).contains(probes.deep_view()[j]),
                ),
        decreases conditions.len() - i,
    {
        let found = contains_string(present, &probes[i]);
        assert(probes.deep_view()[i as int] == probes@[i as int]@);
        if condition_holds(&conditions[i], found) {
            assert(holds(
                views[i as int],
                string_set(present@).contains(probes.deep_view()[i as int]),
            ));
            return true;
        }
        i += 1;
    }
    false
}

/// Whether the filter triggers at `path`.
pub fn matches_trigger(filter: &Filter, path: &str) -> (triggered: bool)
    ensures
        triggered == triggers_at(filter@, path@),
{
    let parent = match parent_of(path) {
        Some(parent) => parent,
        None => {
            return false;
        },
    };
    let mut i: usize = 0;
    while i < filter.targets.len()
        invariant
            i <= filter.targets.len(),
            path_parent(path@) == Some(parent@),
            forall|j: int|
                0 <= j < i ==> !path_same(
                    path_join(parent@, #[trigger] filter@.targets[j]),
                    path@,
                ),
        decreases filter.targets.len() - i,
    {
        let candidate = join(parent.as_str(), filter.targets[i].as_str());
        assert(filter@.targets[i as int] == filter.targets@[i as int]@);
        if same(candidate.as_str(), path) {
            return true;
        }
        i += 1;
    }
    false
}

/// The path that each condition of the filter looks up for the entry at
/// `path`, in the order of the conditions. An entry without a parent has
/// nothing to look up.
pub fn condition_paths(filter: &Filter, path: &str) -> (probes: Vec<String>)
    ensures
        match path_parent(path@) {
            Some(parent) => probes.deep_view() == filter@.conditions.map_values(
                |c: ConditionView| probe(parent, c),
            ),
            None => probes@.len() == 0,
        },
{
    let mut probes: Vec<String> = Vec::new();
    let parent = match parent_of(path) {
        Some(parent) => parent,
        None => {
            return probes;
        },
    };
    let mut i: usize = 0;
    while i < filter.conditions.len()
        invariant
            i <= filter.conditions.len(),
            probes@.len() == i,
            forall|j: int|
                0 <= j < i ==> (#[trigger] probes@[j])@ == probe(parent@, filter@.conditions[j]),
        decreases filter.conditions.len() - i,
    {
        let looked_up = join(parent.as_str(), filter.conditions[i].path.as_str());
        probes.push(looked_up);
        i += 1;
    }
    assert(probes.deep_view() =~= filter@.conditions.map_values(
        |c: ConditionView| probe(parent@, c),
    ));
    probes
}

/// Decides whether the filter excludes the entry at `path`, where `present`
/// lists the paths that exist. Only the paths of
/// [`condition_paths`] are looked up in it.
pub fn is_filterable(filter: &Filter, path: &str, present: &Vec<String>) -> (excluded: bool)
    ensures
        excluded == excludes(filter@, path@, string_set(present@)),
{
    if !matches_trigger(filter, path) {
        return false;
    }
    let probes = condition_paths(filter, path);
    let excluded = excluded_after(true, &filter.conditions, &probes, present);
    proof {
        let parent = path_parent(path@).unwrap();
        let set = string_set(present@);
        let views = filter@.conditions;
        if excluded {
            let i = choose|i: int|
                0 <= i < views.len() && i < probes.deep_view().len() && holds(
                    #[trigger] views[i],
                    set.contains(probes.deep_view()[i]),
                );
            assert(holds(
                filter@.conditions[i],
                set.contains(probe(parent, filter@.conditions[i])),
            ));
        }
        if some_condition_holds(filter@, parent, set) {
            let i = choose|i: int|
                0 <= i < filter@.conditions.len() && holds(
                    #[trigger] filter@.conditions[i],
                    set.contains(probe(parent, filter@.conditions[i])),
                );
            assert(holds(views[i], set.contains(probes.deep_view()[i])));
        }
    }
    excluded
}

/// Finds the first of the filters, in their order, that excludes the entry
/// at `path`, and returns its position; `None` where none excludes it.
pub fn first_excluding(filters: &Vec<&Filter>, path: &str, present: &Vec<String>) -> (position:
    Option<usize>)
    ensures
        match position {
            Some(i) => i < filters@.len() && excludes(
                filter_views(filters@)[i as int],
                path@,
                string_set(present@),
            ) && forall|j: int|
                0 <= j < i ==> !excludes(
                    #[trigger] filter_views(filters@)[j],
                    path@,
                    string_set(present@),
                ),
            None => !any_excludes(filter_views(filters@), path@, string_set(present@)),
        },
{
    let mut i: usize = 0;
    while i < filters.len()
        invariant
            i <= filters.len(),
            forall|j: int|
                0 <= j < i ==> !excludes(
                    #[trigger] filter_views(filters@)[j],
                    path@,
                    string_set(present@),
                ),
        decreases filters.len() - i,
    {
        if is_filterable(filters[i], path, present) {
            return Some(i);
        }
        i += 1;
    }
    None
}

/// Decides whether any of the filters excludes the entry at `path`. The
/// filters are asked in order and the first that excludes settles it.
pub fn excluded_by_any(filters: &Vec<&Filter>, path: &str, present: &Vec<String>) -> (excluded:
    bool)
    ensures
        excluded == any_excludes(filter_views(filters@), path@, string_set(present@)),
{
    first_excluding(filters, path, present).is_some()
}

/// Lists the paths that have to be probed on disk before
/// [`excluded_by_any`] can decide on the entry at `path`. No other path
/// bears on the decision.
pub fn probe_paths(filters: &Vec<&Filter>, path: &str) -> (probes: Vec<String>)
    ensures
        string_set(probes@) == looked_up(filter_views(filters@), path@),
{
    let mut probes: Vec<String> = Vec::new();
    let ghost views = filter_views(filters@);
    let mut i: usize = 0;
    assert(string_set(probes@) =~= looked_up(views.take(0), path@));
    while i < filters.len()
        invariant
            i <= filters.len(),
            views == filter_views(filters@),
            string_set(probes@) == looked_up(views.take(i as int), path@),
        decreases filters.len() - i,
    {
        let ghost before = probes@;
        let ghost seen = views.take(i as int);
        let ghost wider = views.take(i + 1);
        let filter = filters[i];
        assert(wider[i as int] == filter@);
        if matches_trigger(filter, path) {
            let mut more = condition_paths(filter, path);
            let ghost added = more@;
            let ghost parent = path_parent(path@).unwrap();
            proof {
                assert(more.deep_view().len() == filter@.conditions.len());
                assert forall|b: int| 0 <= b < added.len() implies (#[trigger] added[b])@
                    == probe(parent, filter@.conditions[b]) by {
                    assert(more.deep_view()[b] == added[b]@);
                }
            }
            probes.append(&mut more);
            proof {
                assert forall|p: Seq<char>|
                    string_set(probes@).contains(p) == looked_up(wider, path@).contains(p) by {
                    if string_set(probes@).contains(p) {
                        let k = choose|k: int| 0 <= k < probes@.len() && probes@[k]@ == p;
                        if k < before.len() {
                            assert(before[k]@ == p);
                            assert(string_set(before).contains(p));
                            let (a, b) = choose|a: int, b: int|
                                0 <= a < seen.len() && triggers_at(seen[a], path@) && 0 <= b
                                    < seen[a].conditions.len() && p == probe(
                                    parent,
                                    #[trigger] seen[a].conditions[b],
                                );
                            assert(p == probe(parent, wider[a].conditions[b]));
                        } else {
                            let b = k - before.len();
                            assert(added[b]@ == p);
                            assert(p == probe(parent, wider[i as int].conditions[b]));
                        }
                    }
                    if looked_up(wider, path@).contains(p) {
                        let (a, b) = choose|a: int, b: int|
                            0 <= a < wider.len() && triggers_at(wider[a], path@) && 0 <= b
                                < wider[a].conditions.len() && p == probe(
                                parent,
                                #[trigger] wider[a].conditions[b],
                            );
                        if a < i {
                            assert(p == probe(parent, seen[a].conditions[b]));
                            assert(looked_up(seen, path@).contains(p));
                            let k = choose|k: int| 0 <= k < before.len() && before[k]@ == p;
                            assert(probes@[k]@ == p);
                        } else {
                            assert(added[b]@ == p);
                            assert(probes@[before.len() + b]@ == p);
                        }
                    }
                }
                assert(string_set(probes@) =~= looked_up(wider, path@));
            }
        } else {
            proof {
                assert forall|p: Seq<char>|
                    looked_up(seen, path@).contains(p) == looked_up(wider, path@).contains(p) by {
                    if looked_up(seen, path@).contains(p) {
                        let (a, b) = choose|a: int, b: int|
                            0 <= a < seen.len() && triggers_at(seen[a], path@) && 0 <= b
                                < seen[a].conditions.len() && p == probe(
                                path_parent(path@).unwrap(),
                                #[trigger] seen[a].conditions[b],
                            );
                        assert(p == probe(path_parent(path@).unwrap(), wider[a].conditions[b]));
                    }
                    if looked_up(wider, path@).contains(p) {
                        let (a, b) = choose|a: int, b: int|
                            0 <= a < wider.len() && triggers_at(wider[a], path@) && 0 <= b
                                < wider[a].conditions.len() && p == probe(
                                path_parent(path@).unwrap(),
                                #[trigger] wider[a].conditions[b],
                            );
                        assert(p == probe(path_parent(path@).unwrap(), seen[a].conditions[b]));
                    }
                }
                assert(looked_up(seen, path@) =~= looked_up(wider, path@));
            }
        }
        i += 1;
    }
    assert(views.take(filters.len() as int) =~= views);
    probes
}

/// The decision reads the disk only at the condition paths taken relative
/// to the entry's parent: two disks that agree on whether each of those
/// paths exists give the same decision, whatever else differs between them.
pub proof fn lemma_decision_reads_condition_paths_only(
    filter: FilterView,
    path: Seq<char>,
    first: Set<Seq<char>>,
    second: Set<Seq<char>>,
)
    requires
        path_parent(path) is Some ==> forall|i: int|
            0 <= i < filter.conditions.len() ==> first.contains(
                probe(path_parent(path).unwrap(), #[trigger] filter.conditions[i]),
            ) == second.contains(probe(path_parent(path).unwrap(), filter.conditions[i])),
    ensures
        excludes(filter, path, first) == excludes(filter, path, second),
{
    if triggers_at(filter, path) {
        let parent = path_parent(path).unwrap();
        if some_condition_holds(filter, parent, first) {
            let i = choose|i: int|
                0 <= i < filter.conditions.len() && holds(
                    #[trigger] filter.conditions[i],
                    first.contains(probe(parent, filter.conditions[i])),
                );
            assert(holds(
                filter.conditions[i],
                second.contains(probe(parent, filter.conditions[i])),
            ));
        }
        if some_condition_holds(filter, parent, second) {
            let i = choose|i: int|
                0 <= i < filter.conditions.len() && holds(
                    #[trigger] filter.conditions[i],
                    second.contains(probe(parent, filter.conditions[i])),
                );
            assert(holds(
                filter.conditions[i],
                first.contains(probe(parent, filter.conditions[i])),
            ));
        }
    }
}

/// A filter without conditions excludes nothing, on any disk, whether or
/// not it triggers.
pub proof fn lemma_no_conditions_exclude_nothing(
    filter: FilterView,
    path: Seq<char>,
    present: Set<Seq<char>>,
)
    requires
        filter.conditions.len() == 0,
    ensures
        !excludes(filter, path, present),
{
}

/// A triggered filter with a single condition excludes the entry exactly
/// when the condition's path is absent from the parent, if the condition is
/// negated, and exactly when it is present there, if it is not.
pub proof fn lemma_single_condition_decides(
    filter: FilterView,
    path: Seq<char>,
    present: Set<Seq<char>>,
)
    requires
        triggers_at(filter, path),
        filter.conditions.len() == 1,
    ensures
        filter.conditions[0].not ==> (excludes(filter, path, present) <==> !present.contains(
            probe(path_parent(path).unwrap(), filter.conditions[0]),
        )),
        !filter.conditions[0].not ==> (excludes(filter, path, present) <==> present.contains(
            probe(path_parent(path).unwrap(), filter.conditions[0]),
        )),
{
    let parent = path_parent(path).unwrap();
    let found = present.contains(probe(parent, filter.conditions[0]));
    if holds(filter.conditions[0], found) {
        assert(some_condition_holds(filter, parent, present));
    }
}

/// The decision of a list of filters reads the disk only at the paths
/// that [`looked_up`] names: two disks that agree on those give the same
/// decision.
pub proof fn lemma_decision_reads_looked_up_paths_only(
    filters: Seq<FilterView>,
    path: Seq<char>,
    first: Set<Seq<char>>,
    second: Set<Seq<char>>,
)
    requires
        forall|p: Seq<char>| #[trigger]
            looked_up(filters, path).contains(p) ==> first.contains(p) == second.contains(p),
    ensures
        any_excludes(filters, path, first) == any_excludes(filters, path, second),
{
    assert forall|i: int| 0 <= i < filters.len() implies excludes(
        #[trigger] filters[i],
        path,
        first,
    ) == excludes(filters[i], path, second) by {
        if triggers_at(filters[i], path) {
            assert forall|j: int| 0 <= j < filters[i].conditions.len() implies first.contains(
                probe(path_parent(path).unwrap(), #[trigger] filters[i].conditions[j]),
            ) == second.contains(probe(path_parent(path).unwrap(), filters[i].conditions[j])) by {
                assert(looked_up(filters, path).contains(
                    probe(path_parent(path).unwrap(), filters[i].conditions[j]),
                ));
            }
            lemma_decision_reads_condition_paths_only(filters[i], path, first, second);
        }
    }
}

} // verus!
