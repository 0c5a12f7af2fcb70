//! The order in which providers are tried, and when the next one gets its turn.

use vstd::prelude::*;

use crate::answer::Response;
#[allow(unused_imports)]
use crate::answer::ResponseView;
#[allow(unused_imports)]
use crate::chunk::Batch;
use crate::error::Error;
#[allow(unused_imports)]
use crate::error::ErrorView;
#[allow(unused_imports)]
use crate::merge::{outcome, Outcome};
use crate::provider::{Endpoint, Provider};
#[allow(unused_imports)]
use crate::provider::{provider_views, ProviderView};
use crate::question::Question;
#[allow(unused_imports)]
use crate::question::QuestionView;
use crate::sorted::SortedMap;

verus! {

/// The most labels that a classifier takes in one dimension. A choice with more
/// options needs a provider with a key.
pub const MAX_LABELS: usize = 100;

/// The places of `n` providers, starting at `first` and going round.
pub open spec fn rotation(n: nat, first: int) -> Seq<int> {
    Seq::new(n, |i: int| (first + i) % (n as int))
}

/// Whether the provider at place `i` is a classifier.
pub open spec fn is_classifier(providers: Seq<ProviderView>, i: int) -> bool {
    providers[i].kind == Endpoint::Classifier
}

/// The places in `order` that hold a classifier, or those that do not, in the
/// order in which they stand there.
pub open spec fn picked(order: Seq<int>, providers: Seq<ProviderView>, classifier: bool) -> Seq<int>
    decreases order.len(),
{
    if order.len() == 0 {
        Seq::empty()
    } else {
        let before = picked(order.drop_last(), providers, classifier);
        if is_classifier(providers, order.last()) == classifier {
            before.push(order.last())
        } else {
            before
        }
    }
}

/// Whether the question has more options than a classifier takes.
pub open spec fn is_oversized(question: QuestionView) -> bool {
    match question {
        QuestionView::Choice { criteria, .. } => criteria.len() > MAX_LABELS,
        QuestionView::Noul { .. } => false,
    }
}

/// Whether one of the questions has more options than a classifier takes.
pub open spec fn has_oversized(questions: Batch) -> bool {
    exists|i: int| 0 <= i < questions.len() && is_oversized((#[trigger] questions[i]).1)
}

/// Whether there is no provider but classifiers.
pub open spec fn only_classifiers(providers: Seq<ProviderView>) -> bool {
    forall|i: int| 0 <= i < providers.len() ==> is_classifier(providers, i)
}

/// The order in which the providers are tried for `questions`: round from the
/// active one. A choice with too many options for a classifier moves classifiers
/// behind the others, and is refused where there are no others.
pub open spec fn plan(
    providers: Seq<ProviderView>,
    active: int,
    questions: Batch,
) -> Result<Seq<int>, ErrorView> {
    let order = rotation(providers.len(), active);
    if !has_oversized(questions) {
        Ok(order)
    } else if only_classifiers(providers) {
        Err(
            ErrorView::Status(
                400,
                "a choice with more than 100 options requires OPENROUTER_API_KEY or TYPESAFE_API_KEY (classifier.dev caps a dimension at 100 labels)"@,
            ),
        )
    } else {
        Ok(picked(order, providers, false) + picked(order, providers, true))
    }
}

/// What an order of machine integers stands for.
pub open spec fn places(order: Seq<usize>) -> Seq<int> {
    order.map_values(|i: usize| i as int)
}

fn find_oversized(questions: &SortedMap<Question>) -> (b: bool)
    ensures
        b == has_oversized(questions@),
{
    let mut i: usize = 0;
    while i < questions.len()
        invariant
            i <= questions@.len(),
            forall|j: int| 0 <= j < i ==> !is_oversized((#[trigger] questions@[j]).1),
        decreases questions@.len() - i,
    {
        match questions.value(i) {
            Question::Choice { criteria, .. } => {
                if criteria.len() > MAX_LABELS {
                    assert(is_oversized(questions@[i as int].1));
                    return true;
                }
            },
            Question::Noul { .. } => {},
        }
        i = i + 1;
    }
    false
}

fn rotate(n: usize, first: usize) -> (r: Vec<usize>)
    requires
        first < n,
    ensures
        places(r@) == rotation(n as nat, first as int),
{
    let mut r: Vec<usize> = Vec::new();
    let mut i: usize = 0;
    while i < n
        invariant
            first < n,
            i <= n,
            r@.len() == i,
            forall|j: int| 0 <= j < i ==> #[trigger] r@[j] == (first + j) % (n as int),
        decreases n - i,
    {
        let place: usize = if i < n - first {
            first + i
        } else {
            i - (n - first)
        };
        proof {
            let sum: int = first + i;
            if i < n - first {
                vstd::arithmetic::div_mod::lemma_small_mod(sum as nat, n as nat);
            } else {
                vstd::arithmetic::div_mod::lemma_small_mod((sum - n) as nat, n as nat);
                vstd::arithmetic::div_mod::lemma_mod_add_multiples_vanish(sum - n, n as int);
            }
        }
        r.push(place);
        i = i + 1;
    }
    assert(places(r@) =~= rotation(n as nat, first as int));
    r
}

fn pick(order: &Vec<usize>, providers: &Vec<Provider>, classifier: bool) -> (r: Vec<usize>)
    requires
        forall|i: int| 0 <= i < order@.len() ==> #[trigger] order@[i] < providers@.len(),
    ensures
        places(r@) == picked(places(order@), provider_views(providers@), classifier),
{
    let ghost o = places(order@);
    let ghost p = provider_views(providers@);
    let mut r: Vec<usize> = Vec::new();
    let mut i: usize = 0;
    assert(places(r@) =~= picked(o.take(0), p, classifier));
    while i < order.len()
        invariant
            forall|j: int| 0 <= j < order@.len() ==> #[trigger] order@[j] < providers@.len(),
            o == places(order@),
            p == provider_views(providers@),
            i <= order@.len(),
            places(r@) == picked(o.take(i as int), p, classifier),
        decreases order@.len() - i,
    {
        let place: usize = order[i];
        assert(o.take(i + 1).drop_last() =~= o.take(i as int));
        assert(o.take(i + 1).last() == place);
        assert(p[place as int] == providers@[place as int]@);
        let ghost before = r@;
        if (providers[place].kind == Endpoint::Classifier) == classifier {
            r.push(place);
            assert(places(r@) =~= places(before).push(place as int));
        }
        i = i + 1;
    }
    assert(o.take(i as int) =~= o);
    r
}

/// The providers to try for one call, and the one whose turn it is.
#[derive(Debug)]
pub struct Failover {
    order: Vec<usize>,
    next: usize,
}

/// What a [`Failover`] holds.
pub struct FailoverView {
    pub order: Seq<int>,
    pub next: int,
}

/// One try of a call: the place of the provider, and whether its requests may be
/// repeated.
#[derive(Clone, Copy, Debug, PartialEq, Eq, Structural)]
pub struct Attempt {
    pub provider: usize,
    pub retry: bool,
}

/// What to do after a provider had its turn.
#[derive(Debug)]
pub enum Step {
    /// The next provider gets its turn.
    Again(Failover),
    /// The call is over. A fallback that succeeded becomes the active provider.
    Done { outcome: Result<Response, Error>, active: Option<usize> },
}

/// What a [`Step`] holds.
#[verifier::ext_equal]
pub enum StepView {
    Again(FailoverView),
    Done { outcome: Outcome, active: Option<int> },
}

impl View for Step {
    type V = StepView;

    open spec fn view(&self) -> StepView {
        match self {
            Step::Again(f) => StepView::Again(f@),
            Step::Done { outcome: o, active } => StepView::Done {
                outcome: outcome(*o),
                active: match active {
                    Some(i) => Some(*i as int),
                    None => None,
                },
            },
        }
    }
}

impl FailoverView {
    /// One of the providers has its turn.
    pub open spec fn wf(self) -> bool {
        0 <= self.next < self.order.len()
    }

    /// Whether the requests of this turn may be repeated. The first provider is
    /// not asked twice while there is another.
    pub open spec fn may_retry(self) -> bool {
        self.next > 0 || self.order.len() == 1
    }

    /// What follows when the provider whose turn it is comes to `outcome`.
    pub open spec fn step(self, outcome: Outcome) -> StepView {
        if self.next + 1 < self.order.len() && (outcome matches Err(e) && e.can_failover()) {
            StepView::Again(FailoverView { next: self.next + 1, ..self })
        } else {
            StepView::Done {
                outcome,
                active: if self.next > 0 && outcome is Ok {
                    Some(self.order[self.next])
                } else {
                    None
                },
            }
        }
    }
}

impl View for Failover {
    type V = FailoverView;

    closed spec fn view(&self) -> FailoverView {
        FailoverView { order: places(self.order@), next: self.next as int }
    }
}

impl Failover {
    /// One of the providers has its turn.
    #[verifier::type_invariant]
    pub open spec fn wf(self) -> bool {
        self@.wf()
    }

    /// Plans a call that puts `questions` to the providers, the active one first.
    pub fn plan(
        providers: &Vec<Provider>,
        active: usize,
        questions: &SortedMap<Question>,
    ) -> (r: Result<Failover, Error>)
        requires
            active < providers@.len(),
        ensures
            match r {
                Ok(f) => plan(provider_views(providers@), active as int, questions@) == Ok::<
                    Seq<int>,
                    ErrorView,
                >(f@.order) && f@.next == 0 && f@.wf(),
                Err(e) => plan(provider_views(providers@), active as int, questions@) == Err::<
                    Seq<int>,
                    ErrorView,
                >(e@),
            },
    {
        let ghost p = provider_views(providers@);
        let order = rotate(providers.len(), active);
        let ghost o = places(order@);
        proof {
            lemma_rotation(providers@.len(), active as int);
            lemma_picked(o, p);
            assert forall|i: int| 0 <= i < order@.len() implies #[trigger] order@[i]
                < providers@.len() by {
                assert(o[i] == order@[i] as int);
            }
        }
        if !find_oversized(questions) {
            return Ok(Failover { order, next: 0 });
        }
        let mut all: Vec<usize> = pick(&order, providers, false);
        let mut classifiers: Vec<usize> = pick(&order, providers, true);
        if all.len() == 0 {
            proof {
                assert forall|i: int| 0 <= i < p.len() implies is_classifier(p, i) by {
                    assert(o.contains(i));
                    if !is_classifier(p, i) {
                        assert(picked(o, p, false).contains(i));
                    }
                }
            }
            return Err(
                Error::Status(
                    400,
                    "a choice with more than 100 options requires OPENROUTER_API_KEY or TYPESAFE_API_KEY (classifier.dev caps a dimension at 100 labels)".to_owned(),
                ),
            );
        }
        proof {
            let i = picked(o, p, false)[0];
            assert(picked(o, p, false).contains(i));
            assert(!is_classifier(p, i));
            assert(0 <= i < p.len());
        }
        let ghost front = all@;
        let ghost back = classifiers@;
        all.append(&mut classifiers);
        assert(places(all@) =~= places(front) + places(back));
        Ok(Failover { order: all, next: 0 })
    }

    /// The provider whose turn it is.
    pub fn attempt(&self) -> (r: Attempt)
        ensures
            r.provider == self@.order[self@.next],
            r.retry == self@.may_retry(),
    {
        proof {
            use_type_invariant(self);
        }
        Attempt { provider: self.order[self.next], retry: self.next > 0 || self.order.len() == 1 }
    }

    /// Takes what the provider whose turn it was came to, and ends the call or
    /// passes the turn on.
    pub fn step(self, outcome: Result<Response, Error>) -> (r: Step)
        ensures
            r@ == self@.step(crate::merge::outcome(outcome)),
    {
        proof {
            use_type_invariant(&self);
        }
        let curable = match &outcome {
            Ok(_) => false,
            Err(e) => e.can_failover(),
        };
        if curable && self.next < self.order.len() - 1 {
            Step::Again(Failover { order: self.order, next: self.next + 1 })
        } else {
            let active: Option<usize> = if self.next > 0 && outcome.is_ok() {
                Some(self.order[self.next])
            } else {
                None
            };
            Step::Done { outcome, active }
        }
    }
}

/// Going round reaches every place once.
proof fn lemma_rotation(n: nat, first: int)
    requires
        0 <= first < n,
    ensures
        rotation(n, first).len() == n,
        rotation(n, first).no_duplicates(),
        forall|i: int| 0 <= i < n ==> 0 <= #[trigger] rotation(n, first)[i] < n,
        forall|place: int| 0 <= place < n ==> #[trigger] rotation(n, first).contains(place),
        rotation(n, first)[0] == first,
{
    let r = rotation(n, first);
    let m = n as int;
    assert forall|i: int| 0 <= i < n implies 0 <= #[trigger] r[i] < n && r[i] == (if first + i < n {
        first + i
    } else {
        first + i - n
    }) by {
        if first + i < n {
            vstd::arithmetic::div_mod::lemma_small_mod((first + i) as nat, n);
        } else {
            vstd::arithmetic::div_mod::lemma_small_mod((first + i - n) as nat, n);
            vstd::arithmetic::div_mod::lemma_mod_add_multiples_vanish(first + i - n, m);
        }
    }
    assert forall|place: int| 0 <= place < n implies #[trigger] r.contains(place) by {
        let i = if place >= first {
            place - first
        } else {
            place - first + n
        };
        assert(r[i] == place);
    }
}

/// Picking classifiers and picking the others splits an order in two.
proof fn lemma_picked(order: Seq<int>, p: Seq<ProviderView>)
    ensures
        picked(order, p, true).len() + picked(order, p, false).len() == order.len(),
        forall|c: bool, place: int| #[trigger]
            picked(order, p, c).contains(place) <==> order.contains(place) && is_classifier(
                p,
                place,
            ) == c,
        order.no_duplicates() ==> picked(order, p, true).no_duplicates() && picked(
            order,
            p,
            false,
        ).no_duplicates(),
    decreases order.len(),
{
    if order.len() > 0 {
        let rest = order.drop_last();
        let last = order.last();
        lemma_picked(rest, p);
        assert forall|c: bool, place: int| #[trigger]
            picked(order, p, c).contains(place) <==> order.contains(place) && is_classifier(
                p,
                place,
            ) == c by {
            let before = picked(rest, p, c);
            let after = picked(order, p, c);
            assert(before.contains(place) <==> rest.contains(place) && is_classifier(p, place)
                == c);
            assert(order =~= rest.push(last));
            if order.contains(place) {
                let i = choose|i: int| 0 <= i < order.len() && order[i] == place;
                if i < rest.len() {
                    assert(rest[i] == place);
                }
            }
            if rest.contains(place) {
                let i = choose|i: int| 0 <= i < rest.len() && rest[i] == place;
                assert(order[i] == place);
            }
            assert(order[order.len() - 1] == last);
            if is_classifier(p, last) == c {
                assert(after == before.push(last));
                assert(after[before.len() as int] == last);
                if before.contains(place) {
                    let i = choose|i: int| 0 <= i < before.len() && before[i] == place;
                    assert(after[i] == place);
                }
                if after.contains(place) {
                    let i = choose|i: int| 0 <= i < after.len() && after[i] == place;
                    if i < before.len() {
                        assert(before[i] == place);
                    }
                }
            }
        }
        if order.no_duplicates() {
            assert(rest.no_duplicates());
            assert(!rest.contains(last)) by {
                if rest.contains(last) {
                    let i = choose|i: int| 0 <= i < rest.len() && rest[i] == last;
                    assert(order[i] == order[order.len() - 1]);
                }
            }
            assert(!picked(rest, p, true).contains(last));
            assert(!picked(rest, p, false).contains(last));
        }
    }
}

/// A plan tries every provider exactly once.
pub proof fn plan_tries_each_provider_once(
    providers: Seq<ProviderView>,
    active: int,
    questions: Batch,
)
    requires
        0 <= active < providers.len(),
    ensures
        plan(providers, active, questions) matches Ok(order) ==> {
            &&& order.len() == providers.len()
            &&& order.no_duplicates()
            &&& forall|i: int| 0 <= i < order.len() ==> 0 <= #[trigger] order[i] < providers.len()
            &&& forall|place: int| 0 <= place < providers.len() ==> #[trigger] order.contains(place)
        },
{
    let o = rotation(providers.len(), active);
    lemma_rotation(providers.len(), active);
    lemma_picked(o, providers);
    if let Ok(order) = plan(providers, active, questions) {
        if has_oversized(questions) {
            let front = picked(o, providers, false);
            let back = picked(o, providers, true);
            assert forall|i: int| 0 <= i < order.len() implies 0 <= #[trigger] order[i]
                < providers.len() by {
                if i < front.len() {
                    assert(front.contains(order[i]));
                } else {
                    assert(back[i - front.len()] == order[i]);
                    assert(back.contains(order[i]));
                }
            }
            assert forall|place: int| 0 <= place < providers.len() implies #[trigger] order.contains(
                place,
            ) by {
                assert(o.contains(place));
                if is_classifier(providers, place) {
                    assert(back.contains(place));
                    let i = choose|i: int| 0 <= i < back.len() && back[i] == place;
                    assert(order[front.len() + i] == place);
                } else {
                    assert(front.contains(place));
                    let i = choose|i: int| 0 <= i < front.len() && front[i] == place;
                    assert(order[i] == place);
                }
            }
            assert forall|i: int, j: int|
                0 <= i < order.len() && 0 <= j < order.len() && i != j implies order[i]
                != order[j] by {
                let x = if i < front.len() {
                    front.contains(order[i])
                } else {
                    back[i - front.len()] == order[i] && back.contains(order[i])
                };
                let y = if j < front.len() {
                    front.contains(order[j])
                } else {
                    back[j - front.len()] == order[j] && back.contains(order[j])
                };
                assert(x && y);
            }
        }
    }
}

/// Without an oversized choice the active provider is tried first.
pub proof fn active_provider_goes_first(
    providers: Seq<ProviderView>,
    active: int,
    questions: Batch,
)
    requires
        0 <= active < providers.len(),
        !has_oversized(questions),
    ensures
        plan(providers, active, questions) matches Ok(order) && order[0] == active,
{
    lemma_rotation(providers.len(), active);
}

/// An oversized choice is never put to a classifier while a provider with a key
/// is left.
pub proof fn oversized_choice_goes_to_keys_first(
    providers: Seq<ProviderView>,
    active: int,
    questions: Batch,
    i: int,
    j: int,
)
    requires
        0 <= active < providers.len(),
        has_oversized(questions),
        plan(providers, active, questions) matches Ok(order) && 0 <= i < j < order.len()
            && is_classifier(providers, order[i]),
    ensures
        is_classifier(providers, plan(providers, active, questions)->Ok_0[j]),
        !is_classifier(providers, plan(providers, active, questions)->Ok_0[0]),
{
    let o = rotation(providers.len(), active);
    lemma_rotation(providers.len(), active);
    lemma_picked(o, providers);
    let front = picked(o, providers, false);
    let back = picked(o, providers, true);
    let order = plan(providers, active, questions)->Ok_0;
    if i < front.len() {
        assert(front.contains(order[i]));
    }
    assert(back[j - front.len()] == order[j]);
    assert(back.contains(order[j]));
    let k = choose|k: int| 0 <= k < providers.len() && !is_classifier(providers, k);
    assert(o.contains(k));
    assert(front.contains(k));
    assert(order[0] == front[0]);
    assert(front.contains(front[0]));
}

/// The turn that decides a call, where `outcomes[i]` is what the provider with
/// turn `i` comes to.
pub open spec fn deciding_turn(f: FailoverView, outcomes: Seq<Outcome>) -> int
    decreases f.order.len() - f.next,
{
    match f.step(outcomes[f.next]) {
        StepView::Again(after) => deciding_turn(after, outcomes),
        StepView::Done { .. } => f.next,
    }
}

/// A call is decided by the first provider that succeeds or finds fault with the
/// request, or by the last: all before it came to errors that another provider
/// may cure.
pub proof fn first_settled_outcome_decides(f: FailoverView, outcomes: Seq<Outcome>)
    requires
        f.wf(),
        outcomes.len() == f.order.len(),
    ensures
        f.next <= deciding_turn(f, outcomes) < f.order.len(),
        forall|i: int|
            f.next <= i < deciding_turn(f, outcomes) ==> ((#[trigger] outcomes[i]) matches Err(e)
                && e.can_failover()),
        deciding_turn(f, outcomes) + 1 < f.order.len() ==> !(outcomes[deciding_turn(
            f,
            outcomes,
        )] matches Err(e) && e.can_failover()),
    decreases f.order.len() - f.next,
{
    if let StepView::Again(after) = f.step(outcomes[f.next]) {
        first_settled_outcome_decides(after, outcomes);
    }
}

/// The outcome of the deciding turn is the outcome of the call, and the provider
/// that answered becomes the active one exactly when it is a fallback.
pub proof fn deciding_turn_ends_call(f: FailoverView, outcomes: Seq<Outcome>)
    requires
        f.wf(),
        outcomes.len() == f.order.len(),
    ensures
        ({
            let turn = deciding_turn(f, outcomes);
            FailoverView { next: turn, ..f }.step(outcomes[turn]) == (StepView::Done {
                outcome: outcomes[turn],
                active: if turn > 0 && outcomes[turn] is Ok {
                    Some(f.order[turn])
                } else {
                    None
                },
            })
        }),
    decreases f.order.len() - f.next,
{
    if let StepView::Again(after) = f.step(outcomes[f.next]) {
        deciding_turn_ends_call(after, outcomes);
        first_settled_outcome_decides(after, outcomes);
        assert(FailoverView { next: deciding_turn(f, outcomes), ..after } == (FailoverView {
            next: deciding_turn(f, outcomes),
            ..f
        }));
    } else {
        assert(FailoverView { next: f.next, ..f } == f);
    }
}

proof fn lemma_no_oversized(questions: Batch)
    ensures
        (forall|i: int|
            0 <= i < questions.len() ==> ((#[trigger] questions[i]).1 matches QuestionView::Choice {
                criteria,
                ..
            } ==> criteria.len() <= 100)) <==> !has_oversized(questions),
{
    if has_oversized(questions) {
        let i = choose|i: int|
            0 <= i < questions.len() && is_oversized((#[trigger] questions[i]).1);
        assert(is_oversized(questions[i].1));
    } else {
        assert forall|i: int| 0 <= i < questions.len() implies ((
        #[trigger] questions[i]).1 matches QuestionView::Choice { criteria, .. } ==> criteria.len()
            <= 100) by {
            assert(!is_oversized(questions[i].1));
        }
    }
}

/// Where no choice has more than 100 options, a call is never refused, and the providers
/// are tried in turn from the active one on, round to the one before it.
pub proof fn choices_up_to_100_options_go_round(
    providers: Seq<ProviderView>,
    active: int,
    questions: Batch,
)
    requires
        0 <= active < providers.len(),
        forall|i: int|
            0 <= i < questions.len() ==> ((#[trigger] questions[i]).1 matches QuestionView::Choice {
                criteria,
                ..
            } ==> criteria.len() <= 100),
    ensures
        plan(providers, active, questions) matches Ok(order) && {
            &&& order.len() == providers.len()
            &&& order[0] == active
            &&& forall|i: int|
                0 <= i < order.len() - 1 ==> #[trigger] order[i + 1] == (if order[i] + 1
                    < providers.len() {
                    order[i] + 1
                } else {
                    0
                })
        },
{
    lemma_no_oversized(questions);
    lemma_rotation(providers.len(), active);
    let n = providers.len();
    let r = rotation(n, active);
    assert forall|i: int| 0 <= i < n implies #[trigger] r[i] == from_active(n as int, active, i) by {
        lemma_from_active(n as int, active, i);
    }
    assert forall|i: int| 0 <= i < r.len() - 1 implies #[trigger] r[i + 1] == (if r[i] + 1 < n {
        r[i] + 1
    } else {
        0
    }) by {
        assert(r[i] == from_active(n as int, active, i));
    }
}

spec fn from_active(n: int, active: int, i: int) -> int {
    if active + i < n {
        active + i
    } else {
        active + i - n
    }
}

proof fn lemma_from_active(n: int, active: int, i: int)
    requires
        0 <= active < n,
        0 <= i < n,
    ensures
        (active + i) % n == from_active(n, active, i),
{
    if active + i < n {
        vstd::arithmetic::div_mod::lemma_small_mod((active + i) as nat, n as nat);
    } else {
        vstd::arithmetic::div_mod::lemma_small_mod((active + i - n) as nat, n as nat);
        vstd::arithmetic::div_mod::lemma_mod_add_multiples_vanish(active + i - n, n);
    }
}

/// How many steps round from the active provider the one at `place` is.
pub open spec fn steps_round(n: int, active: int, place: int) -> int {
    if place >= active {
        place - active
    } else {
        place - active + n
    }
}

proof fn lemma_picked_in_order(
    order: Seq<int>,
    p: Seq<ProviderView>,
    classifier: bool,
    n: int,
    active: int,
)
    requires
        forall|i: int, j: int|
            0 <= i < j < order.len() ==> steps_round(n, active, #[trigger] order[i]) < steps_round(
                n,
                active,
                #[trigger] order[j],
            ),
    ensures
        forall|i: int, j: int|
            0 <= i < j < picked(order, p, classifier).len() ==> steps_round(
                n,
                active,
                #[trigger] picked(order, p, classifier)[i],
            ) < steps_round(n, active, #[trigger] picked(order, p, classifier)[j]),
    decreases order.len(),
{
    if order.len() > 0 {
        let rest = order.drop_last();
        let before = picked(rest, p, classifier);
        let after = picked(order, p, classifier);
        assert forall|i: int, j: int| 0 <= i < j < rest.len() implies steps_round(
            n,
            active,
            #[trigger] rest[i],
        ) < steps_round(n, active, #[trigger] rest[j]) by {
            assert(rest[i] == order[i] && rest[j] == order[j]);
        }
        lemma_picked_in_order(rest, p, classifier, n, active);
        lemma_picked(rest, p);
        assert forall|i: int, j: int| 0 <= i < j < after.len() implies steps_round(
            n,
            active,
            #[trigger] after[i],
        ) < steps_round(n, active, #[trigger] after[j]) by {
            assert(after[i] == before[i]);
            if j < before.len() {
                assert(after[j] == before[j]);
            } else {
                assert(before.contains(before[i]));
                assert(rest.contains(before[i]));
                let k = choose|k: int| 0 <= k < rest.len() && rest[k] == before[i];
                assert(order[k] == before[i]);
                assert(after[j] == order[order.len() - 1]);
            }
        }
    }
}

/// A choice with more than 100 options is refused exactly if no provider has a key, with
/// status 400 and the reason. Otherwise every provider is tried, those with a key before
/// those without, and among those of one sort the one first that comes first round from
/// the active provider.
pub proof fn choice_over_100_options_needs_a_key(
    providers: Seq<ProviderView>,
    active: int,
    questions: Batch,
    i: int,
)
    requires
        0 <= active < providers.len(),
        0 <= i < questions.len(),
        questions[i].1 matches QuestionView::Choice { criteria, .. } && criteria.len() > 100,
    ensures
        match plan(providers, active, questions) {
            Err(e) => {
                &&& forall|p: int|
                    0 <= p < providers.len() ==> (#[trigger] providers[p]).kind
                        == Endpoint::Classifier
                &&& e == ErrorView::Status(
                    400,
                    "a choice with more than 100 options requires OPENROUTER_API_KEY or TYPESAFE_API_KEY (classifier.dev caps a dimension at 100 labels)"@,
                )
            },
            Ok(order) => {
                &&& exists|p: int|
                    0 <= p < providers.len() && (#[trigger] providers[p]).kind
                        != Endpoint::Classifier
                &&& order.len() == providers.len()
                &&& forall|p: int| 0 <= p < providers.len() ==> #[trigger] order.contains(p)
                &&& forall|a: int, b: int|
                    #![trigger order[a], order[b]]
                    0 <= a < b < order.len() ==> {
                        let first = providers[order[a]].kind == Endpoint::Classifier;
                        let second = providers[order[b]].kind == Endpoint::Classifier;
                        &&& first ==> second
                        &&& first == second ==> steps_round(
                            providers.len() as int,
                            active,
                            order[a],
                        ) < steps_round(providers.len() as int, active, order[b])
                    }
            },
        },
{
    assert(is_oversized(questions[i].1));
    plan_tries_each_provider_once(providers, active, questions);
    let n = providers.len() as int;
    let o = rotation(providers.len(), active);
    lemma_rotation(providers.len(), active);
    lemma_picked(o, providers);
    assert forall|a: int, b: int| 0 <= a < b < o.len() implies steps_round(
        n,
        active,
        #[trigger] o[a],
    ) < steps_round(n, active, #[trigger] o[b]) by {
        lemma_from_active(n, active, a);
        lemma_from_active(n, active, b);
    }
    lemma_picked_in_order(o, providers, true, n, active);
    lemma_picked_in_order(o, providers, false, n, active);
    if only_classifiers(providers) {
        assert forall|p: int| 0 <= p < providers.len() implies (#[trigger] providers[p]).kind
            == Endpoint::Classifier by {
            assert(is_classifier(providers, p));
        }
    } else {
        let k = choose|k: int| 0 <= k < providers.len() && !is_classifier(providers, k);
        assert(providers[k].kind != Endpoint::Classifier);
        let front = picked(o, providers, false);
        let back = picked(o, providers, true);
        let order = front + back;
        assert forall|a: int, b: int|
            #![trigger order[a], order[b]]
            0 <= a < b < order.len() implies {
            let first = providers[order[a]].kind == Endpoint::Classifier;
            let second = providers[order[b]].kind == Endpoint::Classifier;
            &&& first ==> second
            &&& first == second ==> steps_round(n, active, order[a]) < steps_round(
                n,
                active,
                order[b],
            )
        } by {
            if a < front.len() {
                assert(front.contains(order[a]));
            } else {
                assert(order[a] == back[a - front.len()]);
                assert(back.contains(order[a]));
            }
            if b < front.len() {
                assert(front.contains(order[b]));
            } else {
                assert(order[b] == back[b - front.len()]);
                assert(back.contains(order[b]));
            }
        }
    }
}

/// The next provider gets its turn exactly if there is one and the last came to an error
/// that another may cure. Otherwise that outcome is the outcome of the call, and the
/// provider becomes the active one exactly if it succeeded and was not the first. Only the
/// first of several providers must not repeat its requests.
pub proof fn turns_pass_on_curable_failures(f: FailoverView, outcome: Outcome)
    requires
        0 <= f.next < f.order.len(),
    ensures
        ({
            let curable = outcome matches Err(e) && e.can_failover();
            match f.step(outcome) {
                StepView::Again(after) => {
                    &&& curable
                    &&& after.order == f.order
                    &&& after.next == f.next + 1
                    &&& after.next < f.order.len()
                },
                StepView::Done { outcome: result, active } => {
                    &&& curable ==> f.next == f.order.len() - 1
                    &&& result == outcome
                    &&& outcome is Ok && f.next > 0 ==> active == Some(f.order[f.next])
                    &&& outcome is Err || f.next == 0 ==> active is None
                },
            }
        }),
        f.next == 0 && f.order.len() > 1 ==> !f.may_retry(),
        f.next > 0 || f.order.len() == 1 ==> f.may_retry(),
{
}

/// A step is seen with what comes next, or with the outcome and the active provider.
pub proof fn step_view_shows_all(step: Step)
    ensures
        match step {
            Step::Again(after) => step@ == StepView::Again(after@),
            Step::Done { outcome: o, active } => {
                &&& step@ matches StepView::Done { outcome: result, active: place }
                &&& result == outcome(o)
                &&& active matches Some(a) ==> place == Some(a as int)
                &&& active is None ==> place is None
            },
        },
{
}

} // verus!
