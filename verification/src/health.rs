//! Backend health: each backend has a score between `HEALTH_MIN` and
//! `HEALTH_MAX` that each probe moves up or down by one; the score decides
//! whether the backend stays among those requests are sent to.

use vstd::prelude::*;

verus! {

/// The score of a backend that has answered every recent probe.
pub const HEALTH_MAX: isize = 3;

/// The lowest score.
pub const HEALTH_MIN: isize = -2;

/// The score after a probe that the backend answered (`up`) or did not.
pub open spec fn next_score(score: isize, up: bool) -> isize {
    if up {
        if score >= HEALTH_MAX {
            HEALTH_MAX
        } else {
            (score + 1) as isize
        }
    } else {
        if score <= HEALTH_MIN {
            HEALTH_MIN
        } else {
            (score - 1) as isize
        }
    }
}

/// Whether a backend with the new `score` after a probe with result `up`
/// receives requests: above 0 after an answered probe, above -1 after a
/// missed one.
pub open spec fn in_rotation(score: isize, up: bool) -> bool {
    if up {
        score > 0
    } else {
        score > -1
    }
}

/// The scores and the live backends after probing `backends` in order with
/// results `probes`, starting from `scores`.
pub open spec fn probe_round(
    scores: Map<Seq<char>, isize>,
    backends: Seq<Seq<char>>,
    probes: Seq<bool>,
) -> (Map<Seq<char>, isize>, Seq<Seq<char>>)
    decreases backends.len(),
{
    if backends.len() == 0 || probes.len() == 0 {
        (scores, Seq::empty())
    } else {
        let (before, live) = probe_round(scores, backends.drop_last(), probes.drop_last());
        let b = backends.last();
        let up = probes.last();
        let s = next_score(before[b], up);
        (before.insert(b, s), if in_rotation(s, up) {
            live.push(b)
        } else {
            live
        })
    }
}

/// Every score of `scores` is between `HEALTH_MIN` and `HEALTH_MAX`.
pub open spec fn scores_bounded(scores: Map<Seq<char>, isize>) -> bool {
    forall|k: Seq<char>| #[trigger] scores.contains_key(k) ==> HEALTH_MIN <= scores[k] <= HEALTH_MAX
}

/// Every one of `backends` at the full score.
pub open spec fn initial_scores(backends: Seq<String>) -> Map<Seq<char>, isize> {
    Map::new(
        |k: Seq<char>| exists|i: int| 0 <= i < backends.len() && backends[i]@ == k,
        |k: Seq<char>| HEALTH_MAX,
    )
}

proof fn lemma_initial_scores_push(backends: Seq<String>, i: int)
    requires
        0 <= i < backends.len(),
    ensures
        initial_scores(backends.take(i + 1)) == (if initial_scores(backends.take(i)).contains_key(
            backends[i]@,
        ) {
            initial_scores(backends.take(i))
        } else {
            initial_scores(backends.take(i)).insert(backends[i]@, HEALTH_MAX)
        }),
{
    let a = backends.take(i);
    let b = backends.take(i + 1);
    assert(b[i] == backends[i]);
    assert forall|k: Seq<char>| #[trigger] initial_scores(b).contains_key(k) == (
    initial_scores(a).contains_key(k) || k == backends[i]@) by {
        if initial_scores(a).contains_key(k) {
            let j = choose|j: int| 0 <= j < a.len() && a[j]@ == k;
            assert(b[j] == a[j]);
        }
        if initial_scores(b).contains_key(k) && k != backends[i]@ {
            let j = choose|j: int| 0 <= j < b.len() && b[j]@ == k;
            assert(a[j] == b[j]);
        }
    }
    if initial_scores(a).contains_key(backends[i]@) {
        assert(initial_scores(b) =~= initial_scores(a));
    } else {
        assert(initial_scores(b) =~= initial_scores(a).insert(backends[i]@, HEALTH_MAX));
    }
}

/// What to tell about a route after a round of probes.
#[derive(Debug, Clone, Copy, PartialEq, Eq, Structural)]
pub enum HealthReport {
    /// No backend is live.
    AllDown,
    /// Some backend is live again after none was.
    Recovered,
    /// Some backend is live, as before.
    Steady,
}

/// The report for a round that leaves `live` backends live, after a round
/// that left `previous` live.
pub fn report(live: usize, previous: usize) -> (r: HealthReport)
    ensures
        r == (if live == 0 {
            HealthReport::AllDown
        } else if previous == 0 {
            HealthReport::Recovered
        } else {
            HealthReport::Steady
        }),
{
    if live == 0 {
        HealthReport::AllDown
    } else if previous == 0 {
        HealthReport::Recovered
    } else {
        HealthReport::Steady
    }
}

/// The score of every backend of a route.
#[derive(Debug)]
pub struct HealthTable {
    backends: Vec<String>,
    names: Vec<String>,
    scores: Vec<isize>,
}

impl View for HealthTable {
    /// Backend address to score.
    type V = Map<Seq<char>, isize>;

    closed spec fn view(&self) -> Map<Seq<char>, isize> {
        Map::new(
            |k: Seq<char>| exists|i: int| 0 <= i < self.names@.len() && self.names@[i]@ == k,
            |k: Seq<char>|
                self.scores@[choose|i: int| 0 <= i < self.names@.len() && self.names@[i]@ == k],
        )
    }
}

impl HealthTable {
    /// One entry per backend, every score within bounds.
    pub closed spec fn wf(&self) -> bool {
        &&& self.names@.len() == self.scores@.len()
        &&& forall|i: int, j: int|
            0 <= i < j < self.names@.len() ==> self.names@[i]@ != self.names@[j]@
        &&& forall|i: int| 0 <= i < self.scores@.len() ==> HEALTH_MIN <= #[trigger] self.scores@[i] <= HEALTH_MAX
    }

    /// The backends probed each round, in order.
    pub closed spec fn backends(&self) -> Seq<String> {
        self.backends@
    }

    /// The backends probed each round, in order.
    pub fn backend_list(&self) -> (r: &Vec<String>)
        ensures
            r@ == self.backends(),
    {
        &self.backends
    }

    /// Well formed, and every probed backend has a score.
    pub closed spec fn inv(&self) -> bool {
        &&& self.wf()
        &&& forall|i: int| 0 <= i < self.backends@.len() ==> self@.contains_key(#[trigger] self.backends@[i]@)
    }

    proof fn lemma_wf_bounded(&self)
        requires
            self.wf(),
        ensures
            scores_bounded(self@),
    {
        assert forall|k: Seq<char>| #[trigger] self@.contains_key(k) implies HEALTH_MIN <= self@[k]
            <= HEALTH_MAX by {
            let j = choose|j: int| 0 <= j < self.names@.len() && self.names@[j]@ == k;
            assert(HEALTH_MIN <= self.scores@[j] <= HEALTH_MAX);
        }
    }

    /// The position of `name`, if listed.
    fn position(&self, name: &String) -> (r: Option<usize>)
        requires
            self.wf(),
        ensures
            r matches Some(i) ==> i < self.names@.len() && self.names@[i as int]@ == name@,
            r is None ==> forall|i: int| 0 <= i < self.names@.len() ==> self.names@[i]@ != name@,
    {
        let mut i: usize = 0;
        while i < self.names.len()
            invariant
                i <= self.names@.len(),
                forall|t: int| 0 <= t < i ==> self.names@[t]@ != name@,
            decreases self.names@.len() - i,
        {
            if self.names[i] == *name {
                return Some(i);
            }
            i = i + 1;
        }
        None
    }

    /// Adds `backend` at the full score, unless it is listed already.
    fn add(&mut self, backend: &String)
        requires
            old(self).wf(),
        ensures
            final(self).wf(),
            final(self)@ == (if old(self)@.contains_key(backend@) {
                old(self)@
            } else {
                old(self)@.insert(backend@, HEALTH_MAX)
            }),
    {
        match self.position(backend) {
            Some(i) => {
                proof {
                    assert(self@.contains_key(backend@)) by {
                        assert(self.names@[i as int]@ == backend@);
                    }
                }
            },
            None => {
                let ghost old_view = self@;
                let ghost old_names = self.names@;
                let ghost old_scores = self.scores@;
                self.names.push(backend.clone());
                self.scores.push(HEALTH_MAX);
                proof {
                    let n = old_names.len() as int;
                    assert(self.names@[n]@ == backend@);
                    assert(!old_view.contains_key(backend@));
                    assert forall|k: Seq<char>| #[trigger] self@.contains_key(k) == old_view.insert(
                        backend@,
                        HEALTH_MAX,
                    ).contains_key(k) by {
                        if k == backend@ {
                            assert(self.names@[n]@ == k);
                        } else if self@.contains_key(k) {
                            let j = choose|j: int| 0 <= j < self.names@.len() && self.names@[j]@ == k;
                            assert(j < n);
                            assert(old_names[j]@ == k);
                        } else if old_view.contains_key(k) {
                            let j = choose|j: int| 0 <= j < old_names.len() && old_names[j]@ == k;
                            assert(self.names@[j]@ == k);
                        }
                    }
                    assert forall|k: Seq<char>| #[trigger] self@.contains_key(k) implies self@[k]
                        == old_view.insert(backend@, HEALTH_MAX)[k] by {
                        let j = choose|j: int| 0 <= j < self.names@.len() && self.names@[j]@ == k;
                        if k == backend@ {
                            assert(j == n);
                        } else {
                            assert(j < n);
                            let j2 = choose|j: int| 0 <= j < old_names.len() && old_names[j]@ == k;
                            assert(old_names[j]@ == k);
                            assert(j2 == j);
                            assert(self.scores@[j] == old_scores[j]);
                        }
                    }
                    assert(self@ =~= old_view.insert(backend@, HEALTH_MAX));
                }
            },
        }
    }

    /// Every backend of `backends` at the full score.
    pub fn new(backends: Vec<String>) -> (r: Self)
        ensures
            r.inv(),
            r.backends() == backends@,
            r@ == initial_scores(backends@),
            scores_bounded(r@),
    {
        let mut t = HealthTable { backends: Vec::new(), names: Vec::new(), scores: Vec::new() };
        let mut i: usize = 0;
        proof {
            assert(t@ =~= initial_scores(backends@.take(0)));
        }
        while i < backends.len()
            invariant
                i <= backends@.len(),
                t.wf(),
                t@ == initial_scores(backends@.take(i as int)),
            decreases backends@.len() - i,
        {
            t.add(&backends[i]);
            proof {
                lemma_initial_scores_push(backends@, i as int);
            }
            i = i + 1;
        }
        proof {
            assert(backends@.take(backends@.len() as int) =~= backends@);
            assert forall|j: int| 0 <= j < backends@.len() implies t@.contains_key(
                #[trigger] backends@[j]@,
            ) by {
                assert(initial_scores(backends@).contains_key(backends@[j]@));
            }
        }
        t.backends = backends;
        proof {
            t.lemma_wf_bounded();
        }
        t
    }

    /// Records a probe of `backend`: its score moves up by one if it
    /// answered, down by one if not, within bounds. Returns whether it
    /// receives requests now.
    pub fn record(&mut self, backend: &String, up: bool) -> (r: bool)
        requires
            old(self).wf(),
            old(self)@.contains_key(backend@),
        ensures
            final(self).wf(),
            final(self).backends() == old(self).backends(),
            final(self)@ == old(self)@.insert(backend@, next_score(old(self)@[backend@], up)),
            r == in_rotation(final(self)@[backend@], up),
            scores_bounded(final(self)@),
    {
        let i = match self.position(backend) {
            Some(i) => i,
            None => {
                proof {
                    let j = choose|j: int| 0 <= j < self.names@.len() && self.names@[j]@ == backend@;
                }
                return false;
            },
        };
        let ghost old_view = self@;
        let ghost old_scores = self.scores@;
        proof {
            assert(old_view[backend@] == old_scores[i as int]) by {
                let j = choose|j: int| 0 <= j < self.names@.len() && self.names@[j]@ == backend@;
                assert(j == i);
            }
        }
        let s = self.scores[i];
        let n = if up {
            if s >= HEALTH_MAX {
                HEALTH_MAX
            } else {
                s + 1
            }
        } else {
            if s <= HEALTH_MIN {
                HEALTH_MIN
            } else {
                s - 1
            }
        };
        self.scores.set(i, n);
        proof {
            assert forall|k: Seq<char>| #[trigger] self@.contains_key(k) == old_view.insert(backend@, n).contains_key(k) by {}
            assert forall|k: Seq<char>| #[trigger] self@.contains_key(k) implies self@[k] == old_view.insert(backend@, n)[k] by {
                let j = choose|j: int| 0 <= j < self.names@.len() && self.names@[j]@ == k;
                if k == backend@ {
                    assert(j == i);
                } else {
                    assert(j != i);
                    let j2 = choose|j: int| 0 <= j < old(self).names@.len() && old(self).names@[j]@ == k;
                    assert(j2 == j);
                }
            }
            assert(self@ =~= old_view.insert(backend@, n));
            self.lemma_wf_bounded();
        }
        if up {
            n > 0
        } else {
            n > -1
        }
    }
    /// A round of probes: `probes[i]` tells whether the `i`-th backend
    /// answered. Updates the scores in order and returns the backends that
    /// receive requests now, in order.
    pub fn check_round(&mut self, probes: &Vec<bool>) -> (live: Vec<String>)
        requires
            old(self).inv(),
            probes@.len() == old(self).backends().len(),
        ensures
            final(self).inv(),
            final(self).backends() == old(self).backends(),
            (final(self)@, live@.map_values(|s: String| s@)) == probe_round(
                old(self)@,
                old(self).backends().map_values(|s: String| s@),
                probes@,
            ),
            scores_bounded(final(self)@),
    {
        let ghost start = self@;
        let ghost bs = self.backends@.map_values(|s: String| s@);
        let mut live: Vec<String> = Vec::new();
        let mut i: usize = 0;
        proof {
            assert(bs.take(0) =~= Seq::<Seq<char>>::empty());
            assert(live@.map_values(|s: String| s@) =~= Seq::<Seq<char>>::empty());
        }
        while i < self.backends.len()
            invariant
                i <= self.backends@.len(),
                self.inv(),
                probes@.len() == self.backends@.len(),
                self.backends@ == old(self).backends(),
                bs == self.backends@.map_values(|s: String| s@),
                start == old(self)@,
                (self@, live@.map_values(|s: String| s@)) == probe_round(
                    start,
                    bs.take(i as int),
                    probes@.take(i as int),
                ),
            decreases self.backends@.len() - i,
        {
            let name = self.backends[i].clone();
            let up = probes[i];
            let ghost before = live@.map_values(|s: String| s@);
            proof {
                assert(self@.contains_key(self.backends@[i as int]@));
            }
            let keep = self.record(&name, up);
            if keep {
                live.push(name.clone());
            }
            proof {
                assert(bs.take(i + 1).drop_last() =~= bs.take(i as int));
                assert(probes@.take(i + 1).drop_last() =~= probes@.take(i as int));
                assert(bs.take(i + 1).last() == name@);
                assert(probes@.take(i + 1).last() == up);
                if keep {
                    assert(live@.map_values(|s: String| s@) =~= before.push(name@));
                } else {
                    assert(live@.map_values(|s: String| s@) =~= before);
                }
                assert forall|j: int| 0 <= j < self.backends@.len() implies self@.contains_key(
                    #[trigger] self.backends@[j]@,
                ) by {}
            }
            i = i + 1;
        }
        proof {
            assert(bs.take(i as int) =~= bs);
            assert(probes@.take(i as int) =~= probes@);
            self.lemma_wf_bounded();
        }
        live
    }
}

/// Scores stay between `HEALTH_MIN` and `HEALTH_MAX` whatever the probes say.
pub proof fn law_scores_stay_bounded(score: isize, up: bool)
    requires
        HEALTH_MIN <= score <= HEALTH_MAX,
    ensures
        HEALTH_MIN <= next_score(score, up) <= HEALTH_MAX,
{
}

/// After an answered probe a backend receives requests unless its score was
/// negative; after a missed probe it keeps receiving them only if its score
/// was positive.
pub proof fn law_rotation_after_probe(score: isize, up: bool)
    requires
        HEALTH_MIN <= score <= HEALTH_MAX,
    ensures
        in_rotation(next_score(score, up), up) == (if up {
            score >= 0
        } else {
            score >= 1
        }),
{
}

/// Only backends of the route are ever live, and a backend answering its
/// probe with a non-negative score before the round is live after it.
pub proof fn law_live_backends_are_route_backends(
    scores: Map<Seq<char>, isize>,
    backends: Seq<Seq<char>>,
    probes: Seq<bool>,
    x: Seq<char>,
)
    requires
        probe_round(scores, backends, probes).1.contains(x),
    ensures
        backends.contains(x),
    decreases backends.len(),
{
    if backends.len() > 0 && probes.len() > 0 {
        let (before, live) = probe_round(scores, backends.drop_last(), probes.drop_last());
        if live.contains(x) {
            law_live_backends_are_route_backends(scores, backends.drop_last(), probes.drop_last(), x);
            let k = choose|k: int| 0 <= k < backends.drop_last().len() && backends.drop_last()[k] == x;
            assert(backends[k] == x);
        } else {
            assert(backends[backends.len() - 1] == x);
        }
    }
}

/// Three answered probes in a row put a backend in rotation, and four
/// missed probes in a row take it out, whatever its score was before.
pub proof fn law_three_answers_restore_four_misses_remove(score: isize)
    requires
        HEALTH_MIN <= score <= HEALTH_MAX,
    ensures
        in_rotation(next_score(next_score(next_score(score, true), true), true), true),
        !in_rotation(
            next_score(next_score(next_score(next_score(score, false), false), false), false),
            false,
        ),
{
}

/// In a round over distinct backends, each backend's score moves by its own
/// probe alone, it is live after the round exactly when `in_rotation` says
/// so, and scores of other names are untouched.
pub proof fn law_round_per_backend(
    scores: Map<Seq<char>, isize>,
    backends: Seq<Seq<char>>,
    probes: Seq<bool>,
    k: Seq<char>,
)
    requires
        backends.no_duplicates(),
        probes.len() == backends.len(),
    ensures
        forall|i: int|
            #![trigger backends[i]]
            0 <= i < backends.len() ==> {
                &&& probe_round(scores, backends, probes).0.contains_key(backends[i])
                &&& probe_round(scores, backends, probes).0[backends[i]] == next_score(
                    scores[backends[i]],
                    probes[i],
                )
                &&& probe_round(scores, backends, probes).1.contains(backends[i]) == in_rotation(
                    next_score(scores[backends[i]], probes[i]),
                    probes[i],
                )
            },
        !backends.contains(k) ==> probe_round(scores, backends, probes).0.contains_key(k)
            == scores.contains_key(k) && probe_round(scores, backends, probes).0[k] == scores[k],
        !backends.contains(k) ==> !probe_round(scores, backends, probes).1.contains(k),
    decreases backends.len(),
{
    if backends.len() > 0 {
        let n = backends.len() - 1;
        let bs = backends.drop_last();
        let ps = probes.drop_last();
        let b = backends[n];
        let (before, live) = probe_round(scores, bs, ps);
        assert(bs.no_duplicates()) by {
            assert forall|i: int, j: int| 0 <= i < bs.len() && 0 <= j < bs.len() && i != j implies bs[i]
                != bs[j] by {
                assert(bs[i] == backends[i] && bs[j] == backends[j]);
            }
        }
        law_round_per_backend(scores, bs, ps, k);
        assert(!bs.contains(b)) by {
            if bs.contains(b) {
                let j = choose|j: int| 0 <= j < bs.len() && bs[j] == b;
                assert(backends[j] == b);
            }
        }
        law_round_per_backend(scores, bs, ps, b);
        assert forall|i: int|
            #![trigger backends[i]]
            0 <= i < backends.len() implies {
                &&& probe_round(scores, backends, probes).0.contains_key(backends[i])
                &&& probe_round(scores, backends, probes).0[backends[i]] == next_score(
                    scores[backends[i]],
                    probes[i],
                )
                &&& probe_round(scores, backends, probes).1.contains(backends[i]) == in_rotation(
                    next_score(scores[backends[i]], probes[i]),
                    probes[i],
                )
            } by {
            if i < n {
                assert(bs[i] == backends[i]);
                assert(ps[i] == probes[i]);
                assert(backends[i] != b);
                let s = next_score(before[b], probes.last());
                if in_rotation(s, probes.last()) {
                    assert(live.push(b).contains(backends[i]) == live.contains(backends[i])) by {
                        if live.push(b).contains(backends[i]) {
                            let j = choose|j: int| 0 <= j < live.push(b).len() && live.push(b)[j] == backends[i];
                            assert(j < live.len());
                            assert(live[j] == backends[i]);
                        }
                        if live.contains(backends[i]) {
                            let j = choose|j: int| 0 <= j < live.len() && live[j] == backends[i];
                            assert(live.push(b)[j] == backends[i]);
                        }
                    }
                }
            } else {
                let s = next_score(before[b], probes.last());
                if in_rotation(s, probes.last()) {
                    assert(live.push(b)[live.len() as int] == b);
                }
            }
        }
        if !backends.contains(k) {
            assert(!bs.contains(k)) by {
                if bs.contains(k) {
                    let j = choose|j: int| 0 <= j < bs.len() && bs[j] == k;
                    assert(backends[j] == k);
                }
            }
            assert(k != b) by {
                assert(backends[n] == b);
            }
            let s = next_score(before[b], probes.last());
            if in_rotation(s, probes.last()) {
                assert(!live.push(b).contains(k)) by {
                    if live.push(b).contains(k) {
                        let j = choose|j: int| 0 <= j < live.push(b).len() && live.push(b)[j] == k;
                        assert(j < live.len());
                        assert(live[j] == k);
                    }
                }
            }
        }
    }
}

/// The backends, in their order, whose own probe moves their starting
/// score to one that `in_rotation` accepts.
pub open spec fn rotation_filter(
    scores: Map<Seq<char>, isize>,
    backends: Seq<Seq<char>>,
    probes: Seq<bool>,
) -> Seq<Seq<char>>
    decreases backends.len(),
{
    if backends.len() == 0 || probes.len() == 0 {
        Seq::empty()
    } else {
        let rest = rotation_filter(scores, backends.drop_last(), probes.drop_last());
        let b = backends.last();
        let up = probes.last();
        if in_rotation(next_score(scores[b], up), up) {
            rest.push(b)
        } else {
            rest
        }
    }
}

/// After a round over distinct backends, the live backends are exactly
/// those, in configured order, whose probe puts them in rotation.
pub proof fn law_live_list_is_ordered_filter(
    scores: Map<Seq<char>, isize>,
    backends: Seq<Seq<char>>,
    probes: Seq<bool>,
)
    requires
        backends.no_duplicates(),
        probes.len() == backends.len(),
    ensures
        probe_round(scores, backends, probes).1 == rotation_filter(scores, backends, probes),
    decreases backends.len(),
{
    if backends.len() > 0 {
        let n = backends.len() - 1;
        let bs = backends.drop_last();
        let ps = probes.drop_last();
        let b = backends[n];
        assert(bs.no_duplicates()) by {
            assert forall|i: int, j: int| 0 <= i < bs.len() && 0 <= j < bs.len() && i != j implies bs[i]
                != bs[j] by {
                assert(bs[i] == backends[i] && bs[j] == backends[j]);
            }
        }
        assert(!bs.contains(b)) by {
            if bs.contains(b) {
                let j = choose|j: int| 0 <= j < bs.len() && bs[j] == b;
                assert(backends[j] == b);
            }
        }
        law_live_list_is_ordered_filter(scores, bs, ps);
        law_round_per_backend(scores, bs, ps, b);
    }
}

/// A round over distinct backends that all have scores within bounds leaves
/// them all with scores within bounds.
pub proof fn lemma_round_keeps_scores(
    scores: Map<Seq<char>, isize>,
    backends: Seq<Seq<char>>,
    probes: Seq<bool>,
)
    requires
        backends.no_duplicates(),
        probes.len() == backends.len(),
        scores_bounded(scores),
        forall|i: int| 0 <= i < backends.len() ==> scores.contains_key(#[trigger] backends[i]),
    ensures
        scores_bounded(probe_round(scores, backends, probes).0),
        forall|i: int|
            0 <= i < backends.len() ==> probe_round(scores, backends, probes).0.contains_key(
                #[trigger] backends[i],
            ),
{
    let m = probe_round(scores, backends, probes).0;
    law_round_per_backend(scores, backends, probes, Seq::empty());
    assert forall|k: Seq<char>| #[trigger] m.contains_key(k) implies HEALTH_MIN <= m[k] <= HEALTH_MAX by {
        law_round_per_backend(scores, backends, probes, k);
        if backends.contains(k) {
            let i = choose|i: int| 0 <= i < backends.len() && backends[i] == k;
            law_scores_stay_bounded(scores[k], probes[i]);
        }
    }
}

/// Over rounds on distinct backends whose scores start within bounds: a
/// backend whose probe is answered in three rounds in a row is live after
/// the third; one whose probe is missed in four rounds in a row is not live
/// after the fourth; one missed probe keeps a backend with a positive score
/// live, and one answered probe does not make a backend with a negative
/// score live.
pub proof fn law_live_after_consecutive_probes(
    scores: Map<Seq<char>, isize>,
    backends: Seq<Seq<char>>,
    p1: Seq<bool>,
    p2: Seq<bool>,
    p3: Seq<bool>,
    p4: Seq<bool>,
    i: int,
)
    requires
        backends.no_duplicates(),
        0 <= i < backends.len(),
        p1.len() == backends.len() && p2.len() == backends.len() && p3.len() == backends.len()
            && p4.len() == backends.len(),
        scores_bounded(scores),
        forall|j: int| 0 <= j < backends.len() ==> scores.contains_key(#[trigger] backends[j]),
    ensures
        ({
            let r1 = probe_round(scores, backends, p1);
            let r2 = probe_round(r1.0, backends, p2);
            let r3 = probe_round(r2.0, backends, p3);
            let r4 = probe_round(r3.0, backends, p4);
            &&& (p1[i] && p2[i] && p3[i]) ==> r3.1.contains(backends[i])
            &&& (!p1[i] && !p2[i] && !p3[i] && !p4[i]) ==> !r4.1.contains(backends[i])
            &&& (!p1[i] && scores[backends[i]] >= 1) ==> r1.1.contains(backends[i])
            &&& (p1[i] && scores[backends[i]] <= -1) ==> !r1.1.contains(backends[i])
        }),
{
    let b = backends[i];
    let r1 = probe_round(scores, backends, p1);
    lemma_round_keeps_scores(scores, backends, p1);
    law_round_per_backend(scores, backends, p1, b);
    let r2 = probe_round(r1.0, backends, p2);
    lemma_round_keeps_scores(r1.0, backends, p2);
    law_round_per_backend(r1.0, backends, p2, b);
    let r3 = probe_round(r2.0, backends, p3);
    lemma_round_keeps_scores(r2.0, backends, p3);
    law_round_per_backend(r2.0, backends, p3, b);
    let r4 = probe_round(r3.0, backends, p4);
    law_round_per_backend(r3.0, backends, p4, b);
    assert(scores.contains_key(b));
    law_three_answers_restore_four_misses_remove(scores[b]);
    law_rotation_after_probe(scores[b], p1[i]);
}

} // verus!
