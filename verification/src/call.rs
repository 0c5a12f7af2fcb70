//! A whole call: from the questions to the outcome and the provider that the next
//! call asks first.

use vstd::prelude::*;

use crate::answer::ResponseView;
use crate::chunk::Batch;
use crate::client::ClientView;
use crate::error::ErrorView;
use crate::failover::{
    active_provider_goes_first, deciding_turn, deciding_turn_ends_call,
    first_settled_outcome_decides, has_oversized, plan, plan_tries_each_provider_once,
    FailoverView, StepView,
};
use crate::laws::{
    answers_chunk, asked, cutting_does_not_show, lemma_free, lemma_parts_ascending,
    requests_share_state_and_split_questions, settled_classifier_request_is_answered,
};
use crate::merge::{
    merged_all, merged_with, merging_adds_up_usage, run, waves_do_not_show, MergeView, Outcome,
};
use crate::provider::Endpoint;
use crate::request::{requests_to, DecodedView, RequestView};
use crate::retry::{deciding_event, retries_are_bounded, PostEventView, PostView};
use crate::sorted::ascending;

verus! {

/// What a service does with one request: `events[n]` is what sending it for the time
/// `n` comes to, and `decoded[n]` what the text of that reply decodes to.
pub struct Exchange {
    pub events: Seq<PostEventView>,
    pub decoded: Seq<DecodedView>,
}

/// What all providers do with the requests of one call, by the place of the provider
/// and the number of the request.
pub type Service = Seq<Seq<Exchange>>;

impl Exchange {
    /// Whether the exchange covers every time that the client may send the request,
    /// and replies are decoded as the body of the request asks for.
    pub open spec fn serves(self, request: RequestView, max_retries: nat) -> bool {
        &&& self.events.len() > max_retries
        &&& self.decoded.len() == self.events.len()
        &&& forall|n: int|
            0 <= n < self.decoded.len() ==> (#[trigger] self.decoded[n]).suits(request.body)
    }

    /// The outcome of the request, which `post` sends.
    pub open spec fn outcome(self, request: RequestView, post: PostView) -> Outcome {
        let n = deciding_event(post, self.events) as int;
        match self.events[n].reply() {
            Err(e) => Err(e),
            Ok((status, text)) => request.settled(status, text, self.decoded[n]),
        }
    }
}

/// The requests that put `questions` to the provider at `place`.
pub open spec fn turn_requests(
    client: ClientView,
    state: Seq<char>,
    questions: Batch,
    place: int,
) -> Seq<RequestView> {
    requests_to(client.providers[place], state, client.model, client.question_chunk, questions)
}

/// The outcomes of the requests to the provider at `place`, which does `exchanges`
/// with them.
pub open spec fn turn_outcomes(
    client: ClientView,
    state: Seq<char>,
    questions: Batch,
    place: int,
    retry: bool,
    exchanges: Seq<Exchange>,
) -> Seq<Outcome> {
    let post = PostView { attempt: 0, max_retries: client.max_retries, retry };
    let requests = turn_requests(client, state, questions, place);
    Seq::new(requests.len(), |i: int| exchanges[i].outcome(requests[i], post))
}

/// What the turn of the provider at `place` comes to: its requests go out in waves,
/// and their outcomes are merged.
pub open spec fn turn(
    client: ClientView,
    state: Seq<char>,
    questions: Batch,
    place: int,
    retry: bool,
    exchanges: Seq<Exchange>,
) -> Outcome {
    let outcomes = turn_outcomes(client, state, questions, place, retry, exchanges);
    run(MergeView::start(outcomes.len()), outcomes).0
}

/// A call from the turn that `f` is at to its end: the outcome, and the place of the
/// provider that is active afterwards.
pub open spec fn call_from(
    client: ClientView,
    state: Seq<char>,
    questions: Batch,
    service: Service,
    f: FailoverView,
) -> (Outcome, int)
    decreases f.order.len() - f.next,
{
    let place = f.order[f.next];
    match f.step(turn(client, state, questions, place, f.may_retry(), service[place])) {
        StepView::Again(after) => call_from(client, state, questions, service, after),
        StepView::Done { outcome, active } => (
            outcome,
            match active {
                Some(fallback) => fallback,
                None => client.active,
            },
        ),
    }
}

/// A call that puts `questions` about the state with the JSON text `state` to the
/// providers of `client`: the outcome, and the place of the provider that is active
/// afterwards.
pub open spec fn call(
    client: ClientView,
    state: Seq<char>,
    questions: Batch,
    service: Service,
) -> (Outcome, int) {
    match plan(client.providers, client.active, questions) {
        Err(e) => (Err(e), client.active),
        Ok(order) => call_from(
            client,
            state,
            questions,
            service,
            FailoverView { order, next: 0 },
        ),
    }
}

/// What the turns of a call would come to, in the order of the plan.
pub open spec fn turns(
    client: ClientView,
    state: Seq<char>,
    questions: Batch,
    service: Service,
    order: Seq<int>,
) -> Seq<Outcome> {
    Seq::new(
        order.len(),
        |i: int|
            turn(
                client,
                state,
                questions,
                order[i],
                (FailoverView { order, next: i }).may_retry(),
                service[order[i]],
            ),
    )
}

/// The turn that decides a call with the given plan.
pub open spec fn decider(
    client: ClientView,
    state: Seq<char>,
    questions: Batch,
    service: Service,
    order: Seq<int>,
) -> int {
    deciding_turn(
        FailoverView { order, next: 0 },
        turns(client, state, questions, service, order),
    )
}

proof fn lemma_call_from(
    client: ClientView,
    state: Seq<char>,
    questions: Batch,
    service: Service,
    f: FailoverView,
)
    requires
        f.wf(),
    ensures
        ({
            let outcomes = turns(client, state, questions, service, f.order);
            let last = deciding_turn(f, outcomes);
            call_from(client, state, questions, service, f) == (
                outcomes[last],
                if last > 0 && outcomes[last] is Ok {
                    f.order[last]
                } else {
                    client.active
                },
            )
        }),
    decreases f.order.len() - f.next,
{
    let outcomes = turns(client, state, questions, service, f.order);
    let place = f.order[f.next];
    assert(FailoverView { order: f.order, next: f.next } == f);
    assert(outcomes[f.next] == turn(
        client,
        state,
        questions,
        place,
        f.may_retry(),
        service[place],
    ));
    match f.step(outcomes[f.next]) {
        StepView::Again(after) => {
            lemma_call_from(client, state, questions, service, after);
            assert(call_from(client, state, questions, service, f) == call_from(
                client,
                state,
                questions,
                service,
                after,
            ));
            assert(deciding_turn(f, outcomes) == deciding_turn(after, outcomes));
        },
        StepView::Done { .. } => {
            assert(deciding_turn(f, outcomes) == f.next);
        },
    }
}

/// The outcome of a call is that of one provider: what merging the outcomes of that
/// provider's own requests, in order, comes to. Every provider before it in the plan
/// failed with an error that another may cure, and it succeeded, found fault with the
/// request, or was the last. It is active afterwards if it is a fallback that
/// succeeded, and otherwise the active provider stays.
pub proof fn one_provider_decides_a_call(
    client: ClientView,
    state: Seq<char>,
    questions: Batch,
    service: Service,
)
    requires
        client.wf(),
        plan(client.providers, client.active, questions) is Ok,
    ensures
        ({
            let order = plan(client.providers, client.active, questions)->Ok_0;
            let outcomes = turns(client, state, questions, service, order);
            let last = decider(client, state, questions, service, order);
            let result = call(client, state, questions, service);
            &&& 0 <= last < order.len()
            &&& 0 <= order[last] < client.providers.len()
            &&& result.0 == outcomes[last]
            &&& result.0 == merged_all(
                ResponseView::blank(),
                turn_outcomes(
                    client,
                    state,
                    questions,
                    order[last],
                    last > 0 || order.len() == 1,
                    service[order[last]],
                ),
            )
            &&& forall|i: int|
                0 <= i < last ==> ((#[trigger] outcomes[i]) matches Err(e) && e.can_failover())
            &&& last + 1 < order.len() ==> !(result.0 matches Err(e) && e.can_failover())
            &&& result.1 == (if last > 0 && result.0 is Ok {
                order[last]
            } else {
                client.active
            })
            &&& (ClientView { active: result.1, ..client }).wf()
        }),
{
    let order = plan(client.providers, client.active, questions)->Ok_0;
    let outcomes = turns(client, state, questions, service, order);
    let f = FailoverView { order, next: 0 };
    plan_tries_each_provider_once(client.providers, client.active, questions);
    lemma_call_from(client, state, questions, service, f);
    first_settled_outcome_decides(f, outcomes);
    deciding_turn_ends_call(f, outcomes);
    let last = deciding_turn(f, outcomes);
    waves_do_not_show(
        turn_outcomes(
            client,
            state,
            questions,
            order[last],
            (FailoverView { order, next: last }).may_retry(),
            service[order[last]],
        ),
    );
}

/// A call with an oversized choice and no provider with a key is refused whatever the
/// service does, and the active provider stays.
pub proof fn refused_call_asks_nobody(
    client: ClientView,
    state: Seq<char>,
    questions: Batch,
    service: Service,
)
    requires
        plan(client.providers, client.active, questions) is Err,
    ensures
        call(client, state, questions, service) == (
            Err::<ResponseView, ErrorView>(
                plan(client.providers, client.active, questions)->Err_0,
            ),
            client.active,
        ),
        has_oversized(questions),
{
}

/// A fallback that answered is asked first by the next call, unless that has an
/// oversized choice.
pub proof fn answering_fallback_is_asked_first(
    client: ClientView,
    state: Seq<char>,
    questions: Batch,
    service: Service,
    later: Batch,
)
    requires
        client.wf(),
        plan(client.providers, client.active, questions) is Ok,
        call(client, state, questions, service).0 is Ok,
        decider(
            client,
            state,
            questions,
            service,
            plan(client.providers, client.active, questions)->Ok_0,
        ) > 0,
        !has_oversized(later),
    ensures
        ({
            let order = plan(client.providers, client.active, questions)->Ok_0;
            let active = call(client, state, questions, service).1;
            plan(client.providers, active, later) matches Ok(next) && next[0] == order[decider(
                client,
                state,
                questions,
                service,
                order,
            )]
        }),
{
    one_provider_decides_a_call(client, state, questions, service);
    active_provider_goes_first(
        client.providers,
        call(client, state, questions, service).1,
        later,
    );
}

/// Where each request of a turn is answered under its own keys, the turn succeeds and
/// answers exactly the questions of the call.
pub proof fn turn_answers_the_questions(
    client: ClientView,
    state: Seq<char>,
    questions: Batch,
    place: int,
    retry: bool,
    exchanges: Seq<Exchange>,
)
    requires
        ascending(questions),
        forall|i: int|
            0 <= i < turn_requests(client, state, questions, place).len()
                ==> #[trigger] answers_chunk(
                turn_outcomes(client, state, questions, place, retry, exchanges)[i],
                turn_requests(client, state, questions, place)[i].questions,
            ),
    ensures
        answers_chunk(turn(client, state, questions, place, retry, exchanges), questions),
{
    let requests = turn_requests(client, state, questions, place);
    let outcomes = turn_outcomes(client, state, questions, place, retry, exchanges);
    let cut = asked(requests);
    requests_share_state_and_split_questions(
        client.providers[place],
        state,
        client.model,
        client.question_chunk,
        questions,
    );
    assert forall|i: int| 0 <= i < cut.len() implies #[trigger] answers_chunk(
        outcomes[i],
        cut[i],
    ) by {
        assert(answers_chunk(outcomes[i], requests[i].questions));
    }
    cutting_does_not_show(questions, cut, outcomes);
    waves_do_not_show(outcomes);
}

proof fn lemma_all_succeeded(merged: ResponseView, outcomes: Seq<Outcome>)
    requires
        merged_all(merged, outcomes) is Ok,
    ensures
        forall|i: int| 0 <= i < outcomes.len() ==> (#[trigger] outcomes[i]) is Ok,
    decreases outcomes.len(),
{
    if outcomes.len() > 0 {
        let rest = outcomes.drop_first();
        lemma_all_succeeded(merged_with(merged, outcomes[0]->Ok_0)->Ok_0, rest);
        assert forall|i: int| 0 <= i < outcomes.len() implies (#[trigger] outcomes[i]) is Ok by {
            if i > 0 {
                assert(rest[i - 1] == outcomes[i]);
            }
        }
    }
}

proof fn lemma_classifier_turn(
    client: ClientView,
    state: Seq<char>,
    questions: Batch,
    place: int,
    retry: bool,
    exchanges: Seq<Exchange>,
)
    requires
        ascending(questions),
        client.providers[place].kind == Endpoint::Classifier,
        forall|i: int|
            0 <= i < turn_requests(client, state, questions, place).len()
                ==> (#[trigger] exchanges[i]).serves(
                turn_requests(client, state, questions, place)[i],
                client.max_retries,
            ),
        turn(client, state, questions, place, retry, exchanges) is Ok,
    ensures
        answers_chunk(turn(client, state, questions, place, retry, exchanges), questions),
        turn(client, state, questions, place, retry, exchanges)->Ok_0.usage
            == ResponseView::blank().usage,
{
    let requests = turn_requests(client, state, questions, place);
    let outcomes = turn_outcomes(client, state, questions, place, retry, exchanges);
    let post = PostView { attempt: 0, max_retries: client.max_retries, retry };
    let cut = asked(requests);
    requests_share_state_and_split_questions(
        client.providers[place],
        state,
        client.model,
        client.question_chunk,
        questions,
    );
    waves_do_not_show(outcomes);
    lemma_all_succeeded(ResponseView::blank(), outcomes);
    assert forall|i: int| 0 <= i < outcomes.len() implies #[trigger] answers_chunk(
        outcomes[i],
        requests[i].questions,
    ) && (outcomes[i]->Ok_0.usage == ResponseView::blank().usage) by {
        let x = exchanges[i];
        assert(x.serves(requests[i], client.max_retries));
        retries_are_bounded(post, x.events);
        let n = deciding_event(post, x.events) as int;
        assert(x.decoded[n].suits(requests[i].body));
        lemma_parts_ascending(cut, i);
        assert(cut[i] == requests[i].questions);
        assert(outcomes[i] is Ok);
        assert(outcomes[i] == x.outcome(requests[i], post));
        let (status, text) = x.events[n].reply()->Ok_0;
        settled_classifier_request_is_answered(requests[i], status, text, x.decoded[n]);
    }
    turn_answers_the_questions(client, state, questions, place, retry, exchanges);
    assert forall|i: int| 0 <= i < outcomes.len() implies ((#[trigger] outcomes[i]) matches Ok(r)
        && r.usage == ResponseView::blank().usage) by {
        assert(answers_chunk(outcomes[i], requests[i].questions));
    }
    lemma_free(outcomes);
    merging_adds_up_usage(ResponseView::blank(), outcomes);
}

/// A call that a classifier decides with success answers exactly the questions that
/// were asked, and costs no tokens.
pub proof fn classifier_call_answers_the_questions(
    client: ClientView,
    state: Seq<char>,
    questions: Batch,
    service: Service,
)
    requires
        client.wf(),
        ascending(questions),
        plan(client.providers, client.active, questions) is Ok,
        call(client, state, questions, service).0 is Ok,
        ({
            let order = plan(client.providers, client.active, questions)->Ok_0;
            let place = order[decider(client, state, questions, service, order)];
            &&& client.providers[place].kind == Endpoint::Classifier
            &&& forall|i: int|
                0 <= i < turn_requests(client, state, questions, place).len()
                    ==> (#[trigger] service[place][i]).serves(
                    turn_requests(client, state, questions, place)[i],
                    client.max_retries,
                )
        }),
    ensures
        answers_chunk(call(client, state, questions, service).0, questions),
        call(client, state, questions, service).0->Ok_0.usage == ResponseView::blank().usage,
{
    one_provider_decides_a_call(client, state, questions, service);
    let order = plan(client.providers, client.active, questions)->Ok_0;
    let last = decider(client, state, questions, service, order);
    lemma_classifier_turn(
        client,
        state,
        questions,
        order[last],
        (FailoverView { order, next: last }).may_retry(),
        service[order[last]],
    );
}

} // verus!
