//! The two request paths over a reaction table: toggling one reaction, and
//! reporting every target of the universe with its count.

use vstd::prelude::*;

use crate::store::{group_targets, present_ids, toggled, Presence, ReactionStore, Triple};
use crate::text::{blank, is_blank};
use crate::validate::{toggle_validation, validate_toggle, ClientError};

verus! {

/// The count reported for one target: how many identities reacted with it,
/// and whether the caller is one of them.
pub struct TargetSummary {
    pub target: String,
    pub count: usize,
    pub reacted: bool,
}

impl View for TargetSummary {
    type V = (Seq<char>, nat, bool);

    open spec fn view(&self) -> (Seq<char>, nat, bool) {
        (self.target@, self.count as nat, self.reacted)
    }
}

/// What is reported for `target` on `slug` to the identity `uid`.
pub open spec fn summary_of(s: Set<Triple>, slug: Seq<char>, uid: Seq<char>, target: Seq<char>) -> (
    Seq<char>,
    nat,
    bool,
) {
    (target, present_ids(s, slug, target).len(), s.contains((slug, target, uid)))
}

/// What is reported for `slug` to `uid`: one summary per target of the
/// universe, in its order. Rows for targets outside the universe are not
/// reported.
pub open spec fn report_of(s: Set<Triple>, slug: Seq<char>, uid: Seq<char>, universe: Seq<Seq<char>>) -> Seq<
    (Seq<char>, nat, bool),
> {
    universe.map_values(|t: Seq<char>| summary_of(s, slug, uid, t))
}

pub open spec fn summaries_view(v: Seq<TargetSummary>) -> Seq<(Seq<char>, nat, bool)> {
    v.map_values(|x: TargetSummary| x@)
}

/// The count and reacted flag that `groups` gives `target`: those of the last
/// group for it, or zero and not reacted when there is none.
pub open spec fn overlay(groups: Seq<(Seq<char>, nat, bool)>, target: Seq<char>) -> (nat, bool)
    decreases groups.len(),
{
    if groups.len() == 0 {
        (0, false)
    } else if groups.last().0 == target {
        (groups.last().1, groups.last().2)
    } else {
        overlay(groups.drop_last(), target)
    }
}

/// Every target of the universe, seeded at zero and not reacted, then
/// overlaid with the group for it; groups for other targets are dropped.
pub open spec fn merged(universe: Seq<Seq<char>>, groups: Seq<(Seq<char>, nat, bool)>) -> Seq<
    (Seq<char>, nat, bool),
> {
    universe.map_values(|t: Seq<char>| (t, overlay(groups, t).0, overlay(groups, t).1))
}

/// With each target at most once in `groups`, the overlay for a target is
/// its group, or zero when it has none.
proof fn lemma_overlay_unique(groups: Seq<(Seq<char>, nat, bool)>, target: Seq<char>)
    requires
        groups.map_values(|g: (Seq<char>, nat, bool)| g.0).no_duplicates(),
    ensures
        forall|k: int|
            0 <= k < groups.len() && groups[k].0 == target ==> overlay(groups, target) == (
                groups[k].1,
                groups[k].2,
            ),
        (forall|k: int| 0 <= k < groups.len() ==> groups[k].0 != target) ==> overlay(
            groups,
            target,
        ) == (0nat, false),
    decreases groups.len(),
{
    if groups.len() > 0 {
        let init = groups.drop_last();
        let keys = groups.map_values(|g: (Seq<char>, nat, bool)| g.0);
        assert(init.map_values(|g: (Seq<char>, nat, bool)| g.0) =~= keys.drop_last());
        lemma_overlay_unique(init, target);
        assert forall|k: int| 0 <= k < groups.len() && groups[k].0 == target implies overlay(
            groups,
            target,
        ) == (groups[k].1, groups[k].2) by {
            if k < groups.len() - 1 {
                assert(keys[k] != keys[groups.len() - 1]);
                assert(init[k] == groups[k]);
            }
        }
        if forall|k: int| 0 <= k < groups.len() ==> groups[k].0 != target {
            assert(groups[groups.len() - 1].0 != target);
            assert forall|k: int| 0 <= k < init.len() implies init[k].0 != target by {
                assert(init[k] == groups[k]);
            }
        }
    }
}

/// Seeds every target of `universe` at zero and not reacted, then overlays
/// the count and flag of each group whose target is in the universe.
pub fn merge_counts(universe: &Vec<String>, groups: &Vec<TargetSummary>) -> (r: Vec<TargetSummary>)
    ensures
        summaries_view(r@) == merged(universe.deep_view(), summaries_view(groups@)),
{
    let ghost gv = summaries_view(groups@);
    let mut r: Vec<TargetSummary> = Vec::new();
    let mut i: usize = 0;
    while i < universe.len()
        invariant
            gv == summaries_view(groups@),
            i <= universe@.len(),
            summaries_view(r@) =~= merged(universe.deep_view().take(i as int), gv),
        decreases universe@.len() - i,
    {
        let t = &universe[i];
        let mut count: usize = 0;
        let mut reacted = false;
        let mut j: usize = 0;
        assert(gv.take(0) =~= Seq::<(Seq<char>, nat, bool)>::empty());
        while j < groups.len()
            invariant
                gv == summaries_view(groups@),
                j <= groups@.len(),
                (count as nat, reacted) == overlay(gv.take(j as int), t@),
            decreases groups@.len() - j,
        {
            assert(gv.take(j + 1).drop_last() =~= gv.take(j as int));
            if groups[j].target == *t {
                count = groups[j].count;
                reacted = groups[j].reacted;
            }
            j = j + 1;
        }
        assert(gv.take(j as int) =~= gv);
        let ghost prev = r@;
        let target = t.clone();
        r.push(TargetSummary { target, count, reacted });
        proof {
            let u = universe.deep_view();
            assert(u.take(i + 1) =~= u.take(i as int).push(u[i as int]));
            assert(summaries_view(r@) =~= summaries_view(prev).push(r@.last()@));
        }
        i = i + 1;
    }
    assert(universe.deep_view().take(i as int) =~= universe.deep_view());
    r
}

/// Reports every target of `universe` for `slug`, with the number of
/// identities that reacted with it and whether `uid` did.
pub fn aggregate(store: &ReactionStore, slug: &str, uid: &str, universe: &Vec<String>) -> (r: Vec<
    TargetSummary,
>)
    requires
        store.wf(),
    ensures
        summaries_view(r@) == report_of(store@, slug@, uid@, universe.deep_view()),
        forall|k: int| 0 <= k < r@.len() ==> (#[trigger] r@[k]).reacted ==> r@[k].count >= 1,
{
    let groups = store.group(slug, uid);
    let r = merge_counts(universe, &groups);
    proof {
        let gv = summaries_view(groups@);
        assert(gv.map_values(|g: (Seq<char>, nat, bool)| g.0) =~= group_targets(groups@));
        assert forall|t: Seq<char>| overlay(gv, t) == (
            present_ids(store@, slug@, t).len(),
            store@.contains((slug@, t, uid@)),
        ) by {
            lemma_overlay_unique(gv, t);
            if group_targets(groups@).contains(t) {
                let k = choose|k: int|
                    0 <= k < group_targets(groups@).len() && group_targets(groups@)[k] == t;
                assert(groups@[k]@ == gv[k]);
            } else {
                assert forall|k: int| 0 <= k < gv.len() implies gv[k].0 != t by {
                    assert(group_targets(groups@)[k] == gv[k].0);
                }
                assert(!exists|u: Seq<char>| #[trigger] store@.contains((slug@, t, u)));
                assert(present_ids(store@, slug@, t) =~= Set::<Seq<char>>::empty());
            }
        }
        assert(merged(universe.deep_view(), gv) =~= report_of(
            store@,
            slug@,
            uid@,
            universe.deep_view(),
        ));
        assert forall|k: int| 0 <= k < r@.len() implies (#[trigger] r@[k]).reacted ==> r@[k].count
            >= 1 by {
            let t = universe.deep_view()[k];
            assert(summaries_view(r@)[k] == r@[k]@);
            if r@[k].reacted {
                store.lemma_reacted_is_counted(slug@, t, uid@);
            }
        }
    }
    r
}

/// The read path: the report for `slug` to `uid`; a missing or blank slug is
/// a client error.
pub fn get_reactions(store: &ReactionStore, slug: Option<&str>, uid: &str, universe: &Vec<String>) -> (r: Result<
    Vec<TargetSummary>,
    ClientError,
>)
    requires
        store.wf(),
    ensures
        slug is None ==> r == Err::<Vec<TargetSummary>, ClientError>(ClientError::MissingSlug),
        slug is Some && is_blank(slug->0@) ==> r == Err::<Vec<TargetSummary>, ClientError>(
            ClientError::SlugBlank,
        ),
        slug is Some && !is_blank(slug->0@) ==> r is Ok && summaries_view(r->Ok_0@) == report_of(
            store@,
            slug->0@,
            uid@,
            universe.deep_view(),
        ),
{
    match slug {
        Some(s) => {
            if blank(s) {
                Err(ClientError::SlugBlank)
            } else {
                Ok(aggregate(store, s, uid, universe))
            }
        },
        None => Err(ClientError::MissingSlug),
    }
}

/// The write path: validates the request, then flips the caller's reaction
/// in one step. Returns whether the reaction is stored afterwards; a rejected
/// request leaves the table unchanged.
pub fn toggle_reaction(store: &mut ReactionStore, slug: &str, target: &str, uid: &str) -> (r: Result<
    Presence,
    ClientError,
>)
    requires
        old(store).wf(),
    ensures
        final(store).wf(),
        match toggle_validation(slug@, target@) {
            Err(e) => r == Err::<Presence, ClientError>(e) && final(store)@ == old(store)@,
            Ok(_) => r is Ok && final(store)@ == toggled(old(store)@, (slug@, target@, uid@)) && (
            r->Ok_0 == Presence::Present) == final(store)@.contains((slug@, target@, uid@)),
        },
{
    match validate_toggle(slug, target) {
        Err(e) => Err(e),
        Ok(()) => Ok(store.toggle(slug, target, uid)),
    }
}

/// With no reactions stored, every target of the universe is reported with a
/// count of zero and not reacted.
pub proof fn lemma_empty_report(slug: Seq<char>, uid: Seq<char>, universe: Seq<Seq<char>>)
    ensures
        report_of(Set::empty(), slug, uid, universe) == universe.map_values(
            |t: Seq<char>| (t, 0nat, false),
        ),
{
    assert forall|i: int| 0 <= i < universe.len() implies present_ids(Set::empty(), slug, universe[i])
        == Set::<Seq<char>>::empty() by {
        assert(present_ids(Set::empty(), slug, universe[i]) =~= Set::<Seq<char>>::empty());
    }
    assert(report_of(Set::empty(), slug, uid, universe) =~= universe.map_values(
        |t: Seq<char>| (t, 0nat, false),
    ));
}

} // verus!
