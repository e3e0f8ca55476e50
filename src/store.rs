//! The reaction table: at most one row per (slug, target, identity), flipped
//! by toggles and counted per target.

use vstd::prelude::*;
use vstd::seq_lib::seq_to_set_is_finite;
use vstd::set_lib::{lemma_len_subset, lemma_set_empty_equivalency_len};

use crate::engine::TargetSummary;
use crate::validate::contains_string;

verus! {

/// A reaction row as (slug, target, identity).
pub type Triple = (Seq<char>, Seq<char>, Seq<char>);

/// One row: the identity `uid` has reacted with `target` to `slug`.
pub struct Reaction {
    pub slug: String,
    pub target: String,
    pub uid: String,
}

impl View for Reaction {
    type V = Triple;

    open spec fn view(&self) -> Triple {
        (self.slug@, self.target@, self.uid@)
    }
}

/// Whether a (slug, target, identity) row is stored.
#[derive(Debug, Clone, Copy, PartialEq, Eq, Structural)]
pub enum Presence {
    Absent,
    Present,
}

/// A failed write to the table.
#[derive(Debug, Clone, Copy, PartialEq, Eq, Structural)]
pub enum StoreError {
    /// The row to insert is already stored.
    ConstraintViolation,
}

/// The table after toggling `t`: removed when stored, added otherwise.
pub open spec fn toggled(s: Set<Triple>, t: Triple) -> Set<Triple> {
    if s.contains(t) {
        s.remove(t)
    } else {
        s.insert(t)
    }
}

/// The identities that have reacted with `target` to `slug`.
pub open spec fn present_ids(s: Set<Triple>, slug: Seq<char>, target: Seq<char>) -> Set<Seq<char>> {
    Set::new(|u: Seq<char>| s.contains((slug, target, u)))
}

/// Removing one element of a sequence without duplicates removes exactly that
/// element from its set.
proof fn lemma_remove_unique<A>(s: Seq<A>, i: int)
    requires
        s.no_duplicates(),
        0 <= i < s.len(),
    ensures
        s.remove(i).no_duplicates(),
        s.remove(i).to_set() =~= s.to_set().remove(s[i]),
{
    let r = s.remove(i);
    assert forall|x: A| r.contains(x) implies s.contains(x) && x != s[i] by {
        let j = choose|j: int| 0 <= j < r.len() && r[j] == x;
        if j < i {
            assert(s[j] == x);
        } else {
            assert(s[j + 1] == x);
        }
    }
    assert forall|x: A| s.contains(x) && x != s[i] implies r.contains(x) by {
        let j = choose|j: int| 0 <= j < s.len() && s[j] == x;
        if j < i {
            assert(r[j] == x);
        } else {
            assert(r[j - 1] == x);
        }
    }
}

/// A reaction table: the stored rows, each (slug, target, identity) at most
/// once.
pub struct ReactionStore {
    rows: Vec<Reaction>,
}

impl View for ReactionStore {
    type V = Set<Triple>;

    closed spec fn view(&self) -> Set<Triple> {
        self.rows_view().to_set()
    }
}

impl ReactionStore {
    pub closed spec fn rows_view(&self) -> Seq<Triple> {
        self.rows@.map_values(|r: Reaction| r@)
    }

    /// No row is stored twice.
    pub closed spec fn wf(&self) -> bool {
        self.rows_view().no_duplicates()
    }

    /// The table holds finitely many rows.
    pub proof fn lemma_view_finite(&self)
        ensures
            self@.finite(),
    {
        seq_to_set_is_finite(self.rows_view());
    }

    /// The identities that reacted with `target` to `slug` are finitely many.
    pub proof fn lemma_present_ids_finite(&self, slug: Seq<char>, target: Seq<char>)
        ensures
            present_ids(self@, slug, target).finite(),
    {
        let uids = self.rows_view().map_values(|t: Triple| t.2).to_set();
        seq_to_set_is_finite(self.rows_view().map_values(|t: Triple| t.2));
        assert forall|u: Seq<char>| present_ids(self@, slug, target).contains(u) implies uids.contains(
            u,
        ) by {
            let j = choose|j: int|
                0 <= j < self.rows_view().len() && self.rows_view()[j] == (slug, target, u);
            assert(self.rows_view().map_values(|t: Triple| t.2)[j] == u);
        }
        lemma_len_subset(present_ids(self@, slug, target), uids);
    }

    /// An identity that has reacted is counted: the count for its pair is at
    /// least one.
    pub proof fn lemma_reacted_is_counted(&self, slug: Seq<char>, target: Seq<char>, uid: Seq<char>)
        requires
            self@.contains((slug, target, uid)),
        ensures
            present_ids(self@, slug, target).len() >= 1,
    {
        self.lemma_present_ids_finite(slug, target);
        assert(present_ids(self@, slug, target).contains(uid));
        lemma_set_empty_equivalency_len(present_ids(self@, slug, target));
    }

    /// An empty table.
    pub fn new() -> (r: ReactionStore)
        ensures
            r.wf(),
            r@ == Set::<Triple>::empty(),
    {
        let r = ReactionStore { rows: Vec::new() };
        assert(r@ =~= Set::<Triple>::empty());
        r
    }

    /// Index of the row (slug, target, uid), if stored.
    fn position(&self, slug: &String, target: &String, uid: &String) -> (r: Option<usize>)
        ensures
            match r {
                Some(i) => i < self.rows@.len() && self.rows_view()[i as int] == (
                    slug@,
                    target@,
                    uid@,
                ),
                None => !self.rows_view().contains((slug@, target@, uid@)),
            },
    {
        let mut i: usize = 0;
        while i < self.rows.len()
            invariant
                i <= self.rows@.len(),
                forall|j: int| 0 <= j < i ==> self.rows_view()[j] != (slug@, target@, uid@),
            decreases self.rows@.len() - i,
        {
            let row = &self.rows[i];
            if row.slug == *slug && row.target == *target && row.uid == *uid {
                return Some(i);
            }
            i = i + 1;
        }
        None
    }

    /// Whether the row (slug, target, uid) is stored.
    pub fn has_reaction(&self, slug: &str, target: &str, uid: &str) -> (r: bool)
        ensures
            r == self@.contains((slug@, target@, uid@)),
    {
        self.position(&slug.to_owned(), &target.to_owned(), &uid.to_owned()).is_some()
    }

    /// Stores the row (slug, target, uid); fails when it is already stored,
    /// leaving the table as it was.
    pub fn insert(&mut self, slug: &str, target: &str, uid: &str) -> (r: Result<(), StoreError>)
        requires
            old(self).wf(),
        ensures
            final(self).wf(),
            old(self)@.contains((slug@, target@, uid@)) ==> r == Err::<(), StoreError>(
                StoreError::ConstraintViolation,
            ) && final(self)@ == old(self)@,
            !old(self)@.contains((slug@, target@, uid@)) ==> r is Ok && final(self)@ == old(
                self,
            )@.insert((slug@, target@, uid@)),
    {
        let slug = slug.to_owned();
        let target = target.to_owned();
        let uid = uid.to_owned();
        match self.position(&slug, &target, &uid) {
            Some(_) => Err(StoreError::ConstraintViolation),
            None => {
                self.push_row(Reaction { slug, target, uid });
                Ok(())
            },
        }
    }

    fn push_row(&mut self, row: Reaction)
        requires
            old(self).wf(),
            !old(self).rows_view().contains(row@),
        ensures
            final(self).wf(),
            final(self)@ == old(self)@.insert(row@),
    {
        let ghost t = row@;
        self.rows.push(row);
        proof {
            let before = old(self).rows_view();
            assert(self.rows_view() =~= before.push(t));
            assert forall|i: int, j: int|
                0 <= i < self.rows_view().len() && 0 <= j < self.rows_view().len() && i != j
                    implies self.rows_view()[i] != self.rows_view()[j] by {
                if i < before.len() && j < before.len() {
                } else if i < before.len() {
                    assert(before.contains(before[i]));
                } else {
                    assert(before.contains(before[j]));
                }
            }
            assert(self@ =~= old(self)@.insert(t)) by {
                assert forall|x: Triple| self.rows_view().contains(x) implies x == t
                    || before.contains(x) by {
                    let k = choose|k: int|
                        0 <= k < self.rows_view().len() && self.rows_view()[k] == x;
                    if k < before.len() {
                        assert(before[k] == x);
                    }
                }
                assert forall|x: Triple| before.contains(x) implies self.rows_view().contains(
                    x,
                ) by {
                    let k = choose|k: int| 0 <= k < before.len() && before[k] == x;
                    assert(self.rows_view()[k] == x);
                }
                assert(self.rows_view()[before.len() as int] == t);
            }
        }
    }

    fn remove_row(&mut self, i: usize)
        requires
            old(self).wf(),
            i < old(self).rows@.len(),
        ensures
            final(self).wf(),
            final(self)@ == old(self)@.remove(old(self).rows_view()[i as int]),
    {
        self.rows.remove(i);
        proof {
            assert(self.rows_view() =~= old(self).rows_view().remove(i as int));
            lemma_remove_unique(old(self).rows_view(), i as int);
        }
    }

    /// Removes the row (slug, target, uid); nothing changes when it is absent.
    pub fn delete(&mut self, slug: &str, target: &str, uid: &str)
        requires
            old(self).wf(),
        ensures
            final(self).wf(),
            final(self)@ == old(self)@.remove((slug@, target@, uid@)),
    {
        match self.position(&slug.to_owned(), &target.to_owned(), &uid.to_owned()) {
            Some(i) => self.remove_row(i),
            None => {
                assert(self@ =~= old(self)@.remove((slug@, target@, uid@)));
            },
        }
    }

    /// Flips the row (slug, target, uid) in one step: removes it when stored,
    /// stores it otherwise. Returns whether it is stored afterwards.
    pub fn toggle(&mut self, slug: &str, target: &str, uid: &str) -> (r: Presence)
        requires
            old(self).wf(),
        ensures
            final(self).wf(),
            final(self)@ == toggled(old(self)@, (slug@, target@, uid@)),
            (r == Presence::Present) == final(self)@.contains((slug@, target@, uid@)),
            (r == Presence::Present) == !old(self)@.contains((slug@, target@, uid@)),
    {
        let slug = slug.to_owned();
        let target = target.to_owned();
        let uid = uid.to_owned();
        match self.position(&slug, &target, &uid) {
            Some(i) => {
                self.remove_row(i);
                Presence::Absent
            },
            None => {
                self.push_row(Reaction { slug, target, uid });
                Presence::Present
            },
        }
    }

    /// The number of identities that reacted with `target` to `slug`, and
    /// whether `uid` is one of them.
    pub fn count(&self, slug: &str, target: &str, uid: &str) -> (r: (usize, bool))
        requires
            self.wf(),
        ensures
            r.0 == present_ids(self@, slug@, target@).len(),
            r.1 == self@.contains((slug@, target@, uid@)),
    {
        let slug = slug.to_owned();
        let target = target.to_owned();
        let uid = uid.to_owned();
        let ghost rv = self.rows_view();
        let ghost mut ids: Seq<Seq<char>> = Seq::empty();
        let mut n: usize = 0;
        let mut reacted = false;
        let mut i: usize = 0;
        while i < self.rows.len()
            invariant
                rv == self.rows_view(),
                rv.no_duplicates(),
                i <= rv.len(),
                n == ids.len(),
                n <= i,
                ids.no_duplicates(),
                forall|u: Seq<char>|
                    ids.contains(u) <==> exists|j: int|
                        0 <= j < i && #[trigger] rv[j] == (slug@, target@, u),
                reacted == exists|j: int| 0 <= j < i && #[trigger] rv[j] == (slug@, target@, uid@),
            decreases rv.len() - i,
        {
            let row = &self.rows[i];
            assert(rv[i as int] == row@);
            if row.slug == slug && row.target == target {
                let ghost u = row.uid@;
                proof {
                    if ids.contains(u) {
                        let j = choose|j: int| 0 <= j < i && #[trigger] rv[j] == (slug@, target@, u);
                        assert(rv[j] == rv[i as int]);
                    }
                    assert forall|a: int, b: int|
                        0 <= a < ids.push(u).len() && 0 <= b < ids.push(u).len() && a != b
                            implies ids.push(u)[a] != ids.push(u)[b] by {
                        if a < ids.len() && b < ids.len() {
                        } else if a < ids.len() {
                            assert(ids.contains(ids[a]));
                        } else {
                            assert(ids.contains(ids[b]));
                        }
                    }
                    assert forall|v: Seq<char>|
                        ids.push(u).contains(v) <==> exists|j: int|
                            0 <= j < i + 1 && #[trigger] rv[j] == (slug@, target@, v) by {
                        if ids.push(u).contains(v) {
                            let k = choose|k: int| 0 <= k < ids.push(u).len() && ids.push(u)[k] == v;
                            if k < ids.len() {
                                assert(ids.contains(v));
                            } else {
                                assert(rv[i as int] == (slug@, target@, v));
                            }
                        }
                        if exists|j: int| 0 <= j < i + 1 && #[trigger] rv[j] == (slug@, target@, v) {
                            let j = choose|j: int| 0 <= j < i + 1 && #[trigger] rv[j] == (slug@, target@, v);
                            if j < i {
                                assert(ids.contains(v));
                                let k = choose|k: int| 0 <= k < ids.len() && ids[k] == v;
                                assert(ids.push(u)[k] == v);
                            } else {
                                assert(ids.push(u)[ids.len() as int] == v);
                            }
                        }
                    }
                    ids = ids.push(u);
                }
                n = n + 1;
                if row.uid == uid {
                    reacted = true;
                }
            }
            i = i + 1;
        }
        proof {
            assert(ids.to_set() =~= present_ids(self@, slug@, target@)) by {
                assert forall|u: Seq<char>| #[trigger] ids.to_set().contains(u) implies self@.contains(
                    (slug@, target@, u),
                ) by {
                    let j = choose|j: int| 0 <= j < i && #[trigger] rv[j] == (slug@, target@, u);
                    assert(rv.contains(rv[j]));
                }
                assert forall|u: Seq<char>| #[trigger] self@.contains((slug@, target@, u)) implies ids.contains(u) by {
                    let j = choose|j: int| 0 <= j < rv.len() && rv[j] == (slug@, target@, u);
                    assert(rv[j] == (slug@, target@, u));
                }
            }
            ids.unique_seq_to_set();
        }
        (n, reacted)
    }

    /// The store's grouped query for `slug`: one summary per target that some
    /// identity reacted with, each target once, with its number of identities
    /// and whether `uid` is among them.
    pub fn group(&self, slug: &str, uid: &str) -> (r: Vec<TargetSummary>)
        requires
            self.wf(),
        ensures
            group_targets(r@).no_duplicates(),
            forall|t: Seq<char>|
                group_targets(r@).contains(t) <==> exists|u: Seq<char>|
                    #[trigger] self@.contains((slug@, t, u)),
            forall|k: int|
                0 <= k < r@.len() ==> (#[trigger] r@[k])@ == (
                    r@[k].target@,
                    present_ids(self@, slug@, r@[k].target@).len(),
                    self@.contains((slug@, r@[k].target@, uid@)),
                ),
    {
        let slug_s = slug.to_owned();
        let ghost rv = self.rows_view();
        let mut r: Vec<TargetSummary> = Vec::new();
        let mut seen: Vec<String> = Vec::new();
        let mut i: usize = 0;
        while i < self.rows.len()
            invariant
                self.wf(),
                rv == self.rows_view(),
                slug_s@ == slug@,
                i <= rv.len(),
                seen.deep_view() == group_targets(r@),
                group_targets(r@).no_duplicates(),
                forall|t: Seq<char>|
                    group_targets(r@).contains(t) <==> exists|j: int|
                        0 <= j < i && #[trigger] rv[j] == (slug@, t, rv[j].2),
                forall|k: int|
                    0 <= k < r@.len() ==> (#[trigger] r@[k])@ == (
                        r@[k].target@,
                        present_ids(self@, slug@, r@[k].target@).len(),
                        self@.contains((slug@, r@[k].target@, uid@)),
                    ),
            decreases rv.len() - i,
        {
            let row = &self.rows[i];
            assert(rv[i as int] == row@);
            let ghost prev = r@;
            if row.slug == slug_s && !contains_string(&seen, &row.target) {
                let (count, reacted) = self.count(slug, row.target.as_str(), uid);
                let target = row.target.clone();
                seen.push(row.target.clone());
                r.push(TargetSummary { target, count, reacted });
                proof {
                    let t = row.target@;
                    assert(group_targets(r@) =~= group_targets(prev).push(t));
                    assert(seen.deep_view() =~= group_targets(prev).push(t));
                    assert forall|a: int, b: int|
                        0 <= a < group_targets(r@).len() && 0 <= b < group_targets(r@).len()
                            && a != b implies group_targets(r@)[a] != group_targets(r@)[b] by {
                        if a < prev.len() && b < prev.len() {
                        } else if a < prev.len() {
                            assert(group_targets(prev).contains(group_targets(prev)[a]));
                        } else {
                            assert(group_targets(prev).contains(group_targets(prev)[b]));
                        }
                    }
                    assert forall|x: Seq<char>|
                        group_targets(r@).contains(x) <==> exists|j: int|
                            0 <= j < i + 1 && #[trigger] rv[j] == (slug@, x, rv[j].2) by {
                        if group_targets(r@).contains(x) {
                            let k = choose|k: int|
                                0 <= k < group_targets(r@).len() && group_targets(r@)[k] == x;
                            if k < prev.len() {
                                assert(group_targets(prev)[k] == x);
                                assert(group_targets(prev).contains(x));
                            } else {
                                assert(rv[i as int] == (slug@, x, rv[i as int].2));
                            }
                        }
                        if exists|j: int| 0 <= j < i + 1 && #[trigger] rv[j] == (slug@, x, rv[j].2) {
                            let j = choose|j: int|
                                0 <= j < i + 1 && #[trigger] rv[j] == (slug@, x, rv[j].2);
                            if j < i {
                                assert(group_targets(prev).contains(x));
                                let k = choose|k: int|
                                    0 <= k < group_targets(prev).len() && group_targets(prev)[k] == x;
                                assert(group_targets(r@)[k] == x);
                            } else {
                                assert(group_targets(r@)[prev.len() as int] == x);
                            }
                        }
                    }
                    assert forall|k: int| 0 <= k < r@.len() implies (#[trigger] r@[k])@ == (
                        r@[k].target@,
                        present_ids(self@, slug@, r@[k].target@).len(),
                        self@.contains((slug@, r@[k].target@, uid@)),
                    ) by {
                        if k < prev.len() {
                            assert(r@[k] == prev[k]);
                        }
                    }
                }
            } else {
                proof {
                    assert forall|x: Seq<char>|
                        group_targets(r@).contains(x) <==> exists|j: int|
                            0 <= j < i + 1 && #[trigger] rv[j] == (slug@, x, rv[j].2) by {
                        if exists|j: int| 0 <= j < i + 1 && #[trigger] rv[j] == (slug@, x, rv[j].2) {
                            let j = choose|j: int|
                                0 <= j < i + 1 && #[trigger] rv[j] == (slug@, x, rv[j].2);
                            if j == i {
                                assert(seen.deep_view().contains(x));
                            }
                        }
                    }
                }
            }
            i = i + 1;
        }
        proof {
            assert forall|t: Seq<char>|
                group_targets(r@).contains(t) <==> exists|u: Seq<char>|
                    #[trigger] self@.contains((slug@, t, u)) by {
                if group_targets(r@).contains(t) {
                    let j = choose|j: int| 0 <= j < i && #[trigger] rv[j] == (slug@, t, rv[j].2);
                    assert(rv.contains(rv[j]));
                    assert(self@.contains((slug@, t, rv[j].2)));
                }
                if exists|u: Seq<char>| #[trigger] self@.contains((slug@, t, u)) {
                    let u = choose|u: Seq<char>| #[trigger] self@.contains((slug@, t, u));
                    let j = choose|j: int| 0 <= j < rv.len() && rv[j] == (slug@, t, u);
                    assert(rv[j] == (slug@, t, rv[j].2));
                }
            }
        }
        r
    }
}


/// The targets of a list of summaries, in order.
pub open spec fn group_targets(v: Seq<TargetSummary>) -> Seq<Seq<char>> {
    v.map_values(|x: TargetSummary| x.target@)
}

/// The table after applying the toggles `ops` to `s`, first to last.
pub open spec fn apply_toggles(s: Set<Triple>, ops: Seq<Triple>) -> Set<Triple>
    decreases ops.len(),
{
    if ops.len() == 0 {
        s
    } else {
        toggled(apply_toggles(s, ops.drop_last()), ops.last())
    }
}

/// How many of the toggles `ops` are on `t`.
pub open spec fn occurrences(ops: Seq<Triple>, t: Triple) -> nat
    decreases ops.len(),
{
    if ops.len() == 0 {
        0
    } else {
        occurrences(ops.drop_last(), t) + if ops.last() == t {
            1nat
        } else {
            0nat
        }
    }
}

/// After any sequence of toggles, in any interleaving with toggles of other
/// rows, a row is stored exactly when it was stored before and toggled an
/// even number of times, or absent before and toggled an odd number of times.
pub proof fn lemma_presence_after_toggles(s: Set<Triple>, ops: Seq<Triple>, t: Triple)
    ensures
        apply_toggles(s, ops).contains(t) == (s.contains(t) != (occurrences(ops, t) % 2 == 1)),
    decreases ops.len(),
{
    if ops.len() > 0 {
        lemma_presence_after_toggles(s, ops.drop_last(), t);
    }
}

/// Toggling one row `n` times, starting from absent, leaves it stored exactly
/// when `n` is odd.
pub proof fn lemma_toggle_parity(s: Set<Triple>, t: Triple, n: nat)
    requires
        !s.contains(t),
    ensures
        apply_toggles(s, Seq::new(n, |i: int| t)).contains(t) == (n % 2 == 1),
{
    lemma_occurrences_of_repeat(t, n);
    lemma_presence_after_toggles(s, Seq::new(n, |i: int| t), t);
}

proof fn lemma_occurrences_of_repeat(t: Triple, n: nat)
    ensures
        occurrences(Seq::new(n, |i: int| t), t) == n,
    decreases n,
{
    if n > 0 {
        assert(Seq::new(n, |i: int| t).drop_last() =~= Seq::new((n - 1) as nat, |i: int| t));
        lemma_occurrences_of_repeat(t, (n - 1) as nat);
    }
}

/// Concurrent toggles converge: whatever the order in which `n` toggles of
/// one row are interleaved with toggles of other rows, the row ends stored
/// exactly when `n` is odd, if it started absent.
pub proof fn lemma_concurrent_toggles_converge(s: Set<Triple>, ops: Seq<Triple>, t: Triple, n: nat)
    requires
        !s.contains(t),
        occurrences(ops, t) == n,
    ensures
        apply_toggles(s, ops).contains(t) == (n % 2 == 1),
{
    lemma_presence_after_toggles(s, ops, t);
}

/// The order of toggles does not matter: two sequences that toggle every row
/// the same number of times leave the same table.
pub proof fn lemma_toggle_order_irrelevant(s: Set<Triple>, a: Seq<Triple>, b: Seq<Triple>)
    requires
        forall|t: Triple| occurrences(a, t) == occurrences(b, t),
    ensures
        apply_toggles(s, a) == apply_toggles(s, b),
{
    assert forall|t: Triple| apply_toggles(s, a).contains(t) == apply_toggles(s, b).contains(t) by {
        lemma_presence_after_toggles(s, a, t);
        lemma_presence_after_toggles(s, b, t);
    }
    assert(apply_toggles(s, a) =~= apply_toggles(s, b));
}

/// Starting from an empty table, the identities counted for (slug, target)
/// are exactly those that toggled that pair an odd number of times, whatever
/// the order of the toggles across identities.
pub proof fn lemma_count_is_odd_togglers(ops: Seq<Triple>, slug: Seq<char>, target: Seq<char>)
    ensures
        present_ids(apply_toggles(Set::empty(), ops), slug, target) == Set::new(
            |u: Seq<char>| occurrences(ops, (slug, target, u)) % 2 == 1,
        ),
{
    assert forall|u: Seq<char>|
        present_ids(apply_toggles(Set::empty(), ops), slug, target).contains(u) == (occurrences(
            ops,
            (slug, target, u),
        ) % 2 == 1) by {
        lemma_presence_after_toggles(Set::empty(), ops, (slug, target, u));
    }
    assert(present_ids(apply_toggles(Set::empty(), ops), slug, target) =~= Set::new(
        |u: Seq<char>| occurrences(ops, (slug, target, u)) % 2 == 1,
    ));
}

} // verus!
