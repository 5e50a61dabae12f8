//! The filter evaluator: which checkouts of a working set are kept.
//!
//! A requested filter is a list of predicates joined by logical or. No list,
//! or an empty list, keeps the working set as it is. A checkout whose
//! inspection failed can prove no predicate and is dropped.

use vstd::prelude::*;

use crate::registry::RepositoryEntry;
use crate::state::{EntryState, Inspection};

verus! {

/// A named predicate over a checkout's observed state.
#[derive(Clone, Copy, Debug, PartialEq, Eq, Structural)]
pub enum Filter {
    /// The repository has uncommitted or staged changes.
    Dirty,
    /// The current branch has a tracking branch.
    Tracking,
}

/// Whether one predicate holds of what inspection observed. A failed query
/// proves nothing.
pub open spec fn filter_matches(f: Filter, insp: Inspection) -> bool {
    match f {
        Filter::Dirty => match insp.state {
            Some(s) => s.is_dirty_spec(),
            None => false,
        },
        Filter::Tracking => insp.tracking == Some(true),
    }
}

/// Whether at least one of the requested predicates holds.
pub open spec fn matches_any(filters: Seq<Filter>, insp: Inspection) -> bool {
    exists|i: int| 0 <= i < filters.len() && filter_matches(#[trigger] filters[i], insp)
}

/// The paths kept by filtering: those whose inspection satisfies at least
/// one predicate, in their original order.
pub open spec fn apply_spec(
    paths: Seq<Seq<Seq<char>>>,
    insps: Seq<Inspection>,
    filters: Seq<Filter>,
) -> Seq<Seq<Seq<char>>>
    decreases paths.len(),
{
    if paths.len() == 0 || insps.len() == 0 {
        Seq::empty()
    } else {
        apply_spec(paths.drop_last(), insps.drop_last(), filters) + if matches_any(
            filters,
            insps.last(),
        ) {
            seq![paths.last()]
        } else {
            Seq::empty()
        }
    }
}

/// `a` is `b` with zero or more elements dropped, order kept.
pub open spec fn is_subsequence<T>(a: Seq<T>, b: Seq<T>) -> bool
    decreases b.len(),
{
    if a.len() == 0 {
        true
    } else if b.len() == 0 {
        false
    } else {
        (a.last() == b.last() && is_subsequence(a.drop_last(), b.drop_last())) || is_subsequence(
            a,
            b.drop_last(),
        )
    }
}

/// Every sequence is a subsequence of itself.
pub proof fn lemma_subsequence_refl<T>(a: Seq<T>)
    ensures
        is_subsequence(a, a),
    decreases a.len(),
{
    if a.len() > 0 {
        lemma_subsequence_refl(a.drop_last());
    }
}

/// Filtering only removes: the kept paths are a subsequence of the input, in
/// the same relative order, with nothing added.
pub proof fn lemma_apply_subsequence(
    paths: Seq<Seq<Seq<char>>>,
    insps: Seq<Inspection>,
    filters: Seq<Filter>,
)
    ensures
        is_subsequence(apply_spec(paths, insps, filters), paths),
    decreases paths.len(),
{
    if paths.len() == 0 || insps.len() == 0 {
    } else {
        lemma_apply_subsequence(paths.drop_last(), insps.drop_last(), filters);
        let rest = apply_spec(paths.drop_last(), insps.drop_last(), filters);
        if matches_any(filters, insps.last()) {
            let whole = rest + seq![paths.last()];
            assert(whole.last() == paths.last());
            assert(whole.drop_last() =~= rest);
        } else {
            assert(rest + Seq::<Seq<Seq<char>>>::empty() =~= rest);
        }
    }
}

/// Exec mirror of `filter_matches`.
pub fn filter_holds(f: &Filter, insp: &Inspection) -> (r: bool)
    ensures
        r == filter_matches(*f, *insp),
{
    match f {
        Filter::Dirty => match &insp.state {
            Some(s) => s.contains_state(EntryState::Dirty),
            None => false,
        },
        Filter::Tracking => match insp.tracking {
            Some(t) => t,
            None => false,
        },
    }
}

/// Whether at least one requested predicate holds of the inspection.
pub fn any_filter_holds(filters: &Vec<Filter>, insp: &Inspection) -> (r: bool)
    ensures
        r == matches_any(filters@, *insp),
{
    let mut i: usize = 0;
    while i < filters.len()
        invariant
            i <= filters.len(),
            forall|j: int| 0 <= j < i ==> !filter_matches(#[trigger] filters@[j], *insp),
        decreases filters.len() - i,
    {
        if filter_holds(&filters[i], insp) {
            return true;
        }
        i = i + 1;
    }
    false
}

/// A copy of the working set with the same paths.
fn duplicate_entries(ws: &Vec<RepositoryEntry>) -> (r: Vec<RepositoryEntry>)
    ensures
        r.deep_view() == ws.deep_view(),
{
    let mut out: Vec<RepositoryEntry> = Vec::new();
    let mut i: usize = 0;
    while i < ws.len()
        invariant
            i <= ws.len(),
            out@.len() == i as int,
            forall|j: int| 0 <= j < i ==> #[trigger] out.deep_view()[j] == ws.deep_view()[j],
        decreases ws.len() - i,
    {
        let ghost prev = out@;
        let ghost pdv = out.deep_view();
        out.push(RepositoryEntry { path: ws[i].path.duplicate() });
        proof {
            crate::paths::lemma_deep_view_after_push(prev, out@);
            assert(out.deep_view() == pdv.push(out@.last().deep_view()));
            assert forall|j: int| 0 <= j < i + 1 implies #[trigger] out.deep_view()[j]
                == ws.deep_view()[j] by {
                if j < i {
                    assert(out.deep_view()[j] == pdv[j]);
                } else {
                    assert(out.deep_view()[j] == out@.last().deep_view());
                    assert(out@.last().deep_view() == ws@[i as int].path@);
                    assert(ws.deep_view()[i as int] == ws@[i as int].path@);
                }
            }
        }
        i = i + 1;
    }
    proof {
        assert(out.deep_view() =~= ws.deep_view());
    }
    out
}

/// Filter the working set. No filter list, and an empty filter list, both
/// return the working set unchanged. Otherwise exactly the checkouts whose
/// inspection satisfies at least one predicate are kept, in their input
/// order; a checkout whose inspection failed is dropped. `inspections[i]` is
/// what inspecting `ws[i]` yielded.
pub fn apply(
    ws: &Vec<RepositoryEntry>,
    filters: Option<&Vec<Filter>>,
    inspections: &Vec<Inspection>,
) -> (r: Vec<RepositoryEntry>)
    requires
        inspections@.len() == ws@.len(),
    ensures
        match filters {
            None => r.deep_view() == ws.deep_view(),
            Some(fs) => if fs@.len() == 0 {
                r.deep_view() == ws.deep_view()
            } else {
                r.deep_view() == apply_spec(ws.deep_view(), inspections@, fs@)
            },
        },
{
    let fs = match filters {
        None => {
            return duplicate_entries(ws);
        },
        Some(fs) => fs,
    };
    if fs.len() == 0 {
        return duplicate_entries(ws);
    }
    let mut out: Vec<RepositoryEntry> = Vec::new();
    let mut i: usize = 0;
    proof {
        assert(ws.deep_view().take(0) =~= Seq::<Seq<Seq<char>>>::empty());
        assert(inspections@.take(0) =~= Seq::<Inspection>::empty());
    }
    while i < ws.len()
        invariant
            i <= ws.len(),
            ws.deep_view().len() == ws@.len(),
            inspections@.len() == ws@.len(),
            out.deep_view() == apply_spec(
                ws.deep_view().take(i as int),
                inspections@.take(i as int),
                fs@,
            ),
        decreases ws.len() - i,
    {
        let ghost wdv = ws.deep_view();
        let ghost idv = inspections@;
        proof {
            assert(wdv.take(i as int + 1).drop_last() =~= wdv.take(i as int));
            assert(idv.take(i as int + 1).drop_last() =~= idv.take(i as int));
            assert(wdv.take(i as int + 1).last() == wdv[i as int]);
            assert(idv.take(i as int + 1).last() == idv[i as int]);
        }
        if any_filter_holds(fs, &inspections[i]) {
            let ghost prev = out@;
            out.push(RepositoryEntry { path: ws[i].path.duplicate() });
            proof {
                crate::paths::lemma_deep_view_after_push(prev, out@);
                assert(ws.deep_view()[i as int] == ws@[i as int].path@);
                assert(out.deep_view() =~= apply_spec(
                    wdv.take(i as int + 1),
                    idv.take(i as int + 1),
                    fs@,
                ));
            }
        } else {
            proof {
                assert(out.deep_view() =~= apply_spec(
                    wdv.take(i as int + 1),
                    idv.take(i as int + 1),
                    fs@,
                ));
            }
        }
        i = i + 1;
    }
    proof {
        assert(ws.deep_view().take(ws@.len() as int) =~= ws.deep_view());
        assert(inspections@.take(ws@.len() as int) =~= inspections@);
    }
    out
}

} // verus!
