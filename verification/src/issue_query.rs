//! Queries over the issues of the store: filtering and text search.
use crate::inputs::IssueFilters;
use crate::store::Issue;
use crate::text::{contains_substr, has_substr, lowercase_of, same_str, to_lowercase};
use vstd::prelude::*;

verus! {

/// The issue passes every filter that is given: same status, owner,
/// priority and type.
pub open spec fn issue_passes(i: Issue, f: IssueFilters) -> bool {
    &&& (f.status matches Some(s) ==> i.status@ == s@)
    &&& (f.owner matches Some(o) ==> (i.owner matches Some(w) && w@ == o@))
    &&& (f.priority matches Some(p) ==> i.priority == p)
    &&& (f.issue_type matches Some(t) ==> i.issue_type@ == t@)
}

/// The issue's lowercased title or description contains the lowercased query.
pub open spec fn issue_text_match(i: Issue, query: Seq<char>) -> bool {
    has_substr(lowercase_of(i.title@), lowercase_of(query)) || has_substr(
        lowercase_of(
            match i.description {
                Some(d) => d@,
                None => Seq::empty(),
            },
        ),
        lowercase_of(query),
    )
}

/// Whether an optional text filter is absent or equals the value.
fn text_filter_ok(filter: &Option<String>, value: &str) -> (r: bool)
    ensures
        r == (filter matches Some(s) ==> value@ == s@),
{
    match filter {
        Some(s) => same_str(value, s.as_str()),
        None => true,
    }
}

/// Whether the issue passes the filters.
pub fn passes_filters(issue: &Issue, filters: &IssueFilters) -> (r: bool)
    ensures
        r == issue_passes(*issue, *filters),
{
    let owner_ok = match &filters.owner {
        Some(o) => match &issue.owner {
            Some(w) => same_str(w.as_str(), o.as_str()),
            None => false,
        },
        None => true,
    };
    let priority_ok = match filters.priority {
        Some(p) => issue.priority == p,
        None => true,
    };
    text_filter_ok(&filters.status, issue.status.as_str()) && owner_ok && priority_ok && text_filter_ok(
        &filters.issue_type,
        issue.issue_type.as_str(),
    )
}

/// The positions of the issues that pass the filters, in order.
pub fn filter_issues(issues: &Vec<Issue>, filters: &IssueFilters) -> (r: Vec<usize>)
    ensures
        forall|a: int, b: int| 0 <= a < b < r@.len() ==> r@[a] < r@[b],
        forall|k: int| 0 <= k < r@.len() ==> #[trigger] r@[k] < issues@.len(),
        forall|i: usize| i < issues@.len() ==> (#[trigger] r@.contains(i) <==> issue_passes(issues@[i as int], *filters)),
{
    let mut r: Vec<usize> = Vec::new();
    let mut i: usize = 0;
    while i < issues.len()
        invariant
            i <= issues.len(),
            forall|a: int, b: int| 0 <= a < b < r@.len() ==> r@[a] < r@[b],
            forall|k: int| 0 <= k < r@.len() ==> #[trigger] r@[k] < i,
            forall|j: usize| j < i ==> (#[trigger] r@.contains(j) <==> issue_passes(issues@[j as int], *filters)),
        decreases issues.len() - i,
    {
        let ghost before = r@;
        if passes_filters(&issues[i], filters) {
            r.push(i);
            proof {
                assert forall|j: usize| j < i + 1 implies (#[trigger] r@.contains(j) <==> issue_passes(
                    issues@[j as int],
                    *filters,
                )) by {
                    crate::sorting::lemma_push_contains(before, i, j);
                }
            }
        } else {
            proof {
                assert forall|j: usize| j < i + 1 implies (#[trigger] r@.contains(j) <==> issue_passes(
                    issues@[j as int],
                    *filters,
                )) by {
                    if r@.contains(j) {
                        let k = choose|k: int| 0 <= k < r@.len() && r@[k] == j;
                    }
                }
            }
        }
        i = i + 1;
    }
    r
}

/// The positions of the issues that pass the filters and whose title or
/// description contains the query, ignoring case, in order.
pub fn search_issues(issues: &Vec<Issue>, query: &str, filters: &IssueFilters) -> (r: Vec<usize>)
    ensures
        forall|a: int, b: int| 0 <= a < b < r@.len() ==> r@[a] < r@[b],
        forall|k: int| 0 <= k < r@.len() ==> #[trigger] r@[k] < issues@.len(),
        forall|i: usize|
            i < issues@.len() ==> (#[trigger] r@.contains(i) <==> issue_passes(issues@[i as int], *filters)
                && issue_text_match(issues@[i as int], query@)),
{
    let needle = to_lowercase(query);
    let mut r: Vec<usize> = Vec::new();
    let mut i: usize = 0;
    while i < issues.len()
        invariant
            i <= issues.len(),
            needle@ == lowercase_of(query@),
            forall|a: int, b: int| 0 <= a < b < r@.len() ==> r@[a] < r@[b],
            forall|k: int| 0 <= k < r@.len() ==> #[trigger] r@[k] < i,
            forall|j: usize|
                j < i ==> (#[trigger] r@.contains(j) <==> issue_passes(issues@[j as int], *filters) && issue_text_match(
                    issues@[j as int],
                    query@,
                )),
        decreases issues.len() - i,
    {
        let issue = &issues[i];
        let description: &str = match &issue.description {
            Some(d) => d.as_str(),
            None => "",
        };
        proof {
            reveal_strlit("");
            assert(description@ == match issue.description {
                Some(d) => d@,
                None => Seq::<char>::empty(),
            });
        }
        let keep = passes_filters(issue, filters) && (contains_substr(
            to_lowercase(issue.title.as_str()).as_str(),
            needle.as_str(),
        ) || contains_substr(to_lowercase(description).as_str(), needle.as_str()));
        assert(keep == (issue_passes(issues@[i as int], *filters) && issue_text_match(issues@[i as int], query@)));
        let ghost before = r@;
        if keep {
            r.push(i);
            proof {
                assert forall|j: usize| j < i + 1 implies (#[trigger] r@.contains(j) <==> issue_passes(
                    issues@[j as int],
                    *filters,
                ) && issue_text_match(issues@[j as int], query@)) by {
                    crate::sorting::lemma_push_contains(before, i, j);
                }
            }
        } else {
            proof {
                assert forall|j: usize| j < i + 1 implies (#[trigger] r@.contains(j) <==> issue_passes(
                    issues@[j as int],
                    *filters,
                ) && issue_text_match(issues@[j as int], query@)) by {
                    if r@.contains(j) {
                        let k = choose|k: int| 0 <= k < r@.len() && r@[k] == j;
                    }
                }
            }
        }
        i = i + 1;
    }
    r
}

} // verus!
