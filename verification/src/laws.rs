//! What holds of a whole call, across the parts of the library.

use vstd::prelude::*;

use crate::answer::{answered, ClassifierResponseView, ResponseView};
use crate::chunk::{
    combined_chars, dimension_cut, dimension_cut_keeps_questions, dimension_cut_within_caps, joined,
    keyed_cut, keyed_cut_keeps_questions, Batch, MAX_COMBINED_INSTRUCTIONS, MAX_DIMENSIONS,
};
use crate::error::ErrorView;
use crate::failover::{has_oversized, is_oversized, MAX_LABELS};
use crate::merge::{
    merged_all, merged_with, merging_adds_up_usage, merging_joins_answers, total_input,
    total_output, Outcome,
};
use crate::order::{key_before, key_order_irreflexive};
use crate::provider::{Endpoint, ProviderView};
use crate::question::{QuestionView, MAX_INPUT_CHARS, MAX_INSTRUCTIONS};
use crate::request::{
    dimensions_of, requests_to, BodyView, DecodedView, DimensionView, RequestView,
};
use crate::sorted::{as_map, ascending, has_key, lemma_value_at};
use crate::text::capped;

verus! {

/// A classifier's reply that is accepted answers every question of the request
/// under its own key and in its own kind, answers nothing else, and costs no
/// tokens.
pub proof fn accepted_reply_answers_the_questions(
    reply: ClassifierResponseView,
    questions: Batch,
    key: Seq<char>,
)
    requires
        ascending(questions),
        reply.response(questions) is Ok,
    ensures
        reply.response(questions)->Ok_0.answers.dom().contains(key) <==> has_key(questions, key),
        has_key(questions, key) ==> (as_map(questions)[key] is Noul <==> reply.response(
            questions,
        )->Ok_0.answers[key] is Noul),
        has_key(questions, key) ==> (as_map(questions)[key] is Choice <==> reply.response(
            questions,
        )->Ok_0.answers[key] is Choice),
        reply.response(questions)->Ok_0.usage == ResponseView::blank().usage,
{
    let s = answered(questions, reply.results[0]);
    assert(ascending(s)) by {
        assert forall|i: int, j: int| 0 <= i < j < s.len() implies key_before(
            #[trigger] s[i].0,
            #[trigger] s[j].0,
        ) by {
            assert(key_before(questions[i].0, questions[j].0));
        }
    }
    if has_key(s, key) {
        let i = choose|i: int| 0 <= i < s.len() && #[trigger] s[i].0 == key;
        assert(questions[i].0 == key);
    }
    if has_key(questions, key) {
        let i = choose|i: int| 0 <= i < questions.len() && #[trigger] questions[i].0 == key;
        assert(s[i].0 == key);
        lemma_value_at(s, i);
        lemma_value_at(questions, i);
    }
}

/// A classifier request that succeeds had status 200 and answers every one of its
/// questions, and nothing else, without cost.
pub proof fn settled_classifier_request_is_answered(
    request: RequestView,
    status: u16,
    text: Seq<char>,
    decoded: DecodedView,
)
    requires
        request.body is Classifier,
        decoded.suits(request.body),
        ascending(request.questions),
        request.settled(status, text, decoded) is Ok,
    ensures
        status == 200,
        answers_chunk(request.settled(status, text, decoded), request.questions),
        request.settled(status, text, decoded)->Ok_0.usage == ResponseView::blank().usage,
{
    if let DecodedView::Classifier(reply) = decoded {
        accepted_reply_answers_the_questions(reply, request.questions, Seq::empty());
        assert forall|key: Seq<char>| #[trigger]
            reply.response(request.questions)->Ok_0.answers.dom().contains(key) <==> has_key(
                request.questions,
                key,
            ) by {
            accepted_reply_answers_the_questions(reply, request.questions, key);
        }
    }
}

proof fn lemma_joined_keys(cut: Seq<Batch>, key: Seq<char>)
    requires
        cut.len() > 0,
    ensures
        has_key(joined(cut), key) <==> has_key(cut[0], key) || has_key(
            joined(cut.drop_first()),
            key,
        ),
{
    let all = joined(cut);
    let rest = joined(cut.drop_first());
    assert(all == cut[0] + rest);
    if has_key(all, key) {
        let i = choose|i: int| 0 <= i < all.len() && #[trigger] all[i].0 == key;
        if i < cut[0].len() {
            assert(cut[0][i].0 == key);
        } else {
            assert(rest[i - cut[0].len()].0 == key);
        }
    }
    if has_key(cut[0], key) {
        let i = choose|i: int| 0 <= i < cut[0].len() && #[trigger] cut[0][i].0 == key;
        assert(all[i].0 == key);
    }
    if has_key(rest, key) {
        let i = choose|i: int| 0 <= i < rest.len() && #[trigger] rest[i].0 == key;
        assert(all[i + cut[0].len()].0 == key);
    }
}

proof fn lemma_split_ascending(a: Batch, b: Batch)
    requires
        ascending(a + b),
    ensures
        ascending(a),
        ascending(b),
        forall|key: Seq<char>| !(#[trigger] has_key(a, key) && #[trigger] has_key(b, key)),
{
    let all = a + b;
    assert forall|i: int, j: int| 0 <= i < j < a.len() implies key_before(
        #[trigger] a[i].0,
        #[trigger] a[j].0,
    ) by {
        assert(key_before(all[i].0, all[j].0));
    }
    assert forall|i: int, j: int| 0 <= i < j < b.len() implies key_before(
        #[trigger] b[i].0,
        #[trigger] b[j].0,
    ) by {
        assert(key_before(all[a.len() + i].0, all[a.len() + j].0));
    }
    assert forall|key: Seq<char>| !(#[trigger] has_key(a, key) && #[trigger] has_key(b, key)) by {
        if has_key(a, key) && has_key(b, key) {
            let i = choose|i: int| 0 <= i < a.len() && #[trigger] a[i].0 == key;
            let j = choose|j: int| 0 <= j < b.len() && #[trigger] b[j].0 == key;
            assert(key_before(all[i].0, all[a.len() + j].0));
            key_order_irreflexive(key);
        }
    }
}

/// Whether the outcome is a response to exactly the questions of the chunk.
pub open spec fn answers_chunk(outcome: Outcome, chunk: Batch) -> bool {
    outcome matches Ok(response) && forall|key: Seq<char>| #[trigger]
        response.answers.dom().contains(key) <==> has_key(chunk, key)
}

proof fn lemma_chunks_merge(merged: ResponseView, cut: Seq<Batch>, outcomes: Seq<Outcome>)
    requires
        outcomes.len() == cut.len(),
        ascending(joined(cut)),
        forall|i: int| 0 <= i < cut.len() ==> #[trigger] answers_chunk(outcomes[i], cut[i]),
        forall|key: Seq<char>|
            !(#[trigger] merged.answers.dom().contains(key) && has_key(joined(cut), key)),
    ensures
        merged_all(merged, outcomes) is Ok,
        forall|key: Seq<char>| #[trigger]
            merged_all(merged, outcomes)->Ok_0.answers.dom().contains(key)
                <==> merged.answers.dom().contains(key) || has_key(joined(cut), key),
    decreases cut.len(),
{
    if cut.len() > 0 {
        let later = cut.drop_first();
        let later_outcomes = outcomes.drop_first();
        assert(joined(cut) == cut[0] + joined(later));
        lemma_split_ascending(cut[0], joined(later));
        assert(answers_chunk(outcomes[0], cut[0]));
        let first = outcomes[0]->Ok_0;
        assert forall|key: Seq<char>| #[trigger]
            has_key(joined(cut), key) <==> has_key(cut[0], key) || has_key(joined(later), key) by {
            lemma_joined_keys(cut, key);
        }
        assert(merged.answers.dom().disjoint(first.answers.dom())) by {
            assert forall|key: Seq<char>|
                merged.answers.dom().contains(key) implies !first.answers.dom().contains(key) by {
                if first.answers.dom().contains(key) {
                    assert(has_key(cut[0], key));
                    assert(has_key(joined(cut), key));
                }
            }
        }
        let m = merged_with(merged, first)->Ok_0;
        assert(merged_with(merged, first) == Ok::<ResponseView, ErrorView>(m));
        assert forall|key: Seq<char>|
            !(#[trigger] m.answers.dom().contains(key) && has_key(joined(later), key)) by {
            if m.answers.dom().contains(key) && has_key(joined(later), key) {
                assert(has_key(joined(cut), key));
                if first.answers.dom().contains(key) {
                    assert(has_key(cut[0], key));
                }
            }
        }
        assert forall|i: int| 0 <= i < later.len() implies #[trigger] answers_chunk(
            later_outcomes[i],
            later[i],
        ) by {
            assert(answers_chunk(outcomes[i + 1], cut[i + 1]));
        }
        lemma_chunks_merge(m, later, later_outcomes);
        assert(merged_all(merged, outcomes) == merged_all(m, later_outcomes));
        assert forall|key: Seq<char>| #[trigger]
            merged_all(merged, outcomes)->Ok_0.answers.dom().contains(key)
                <==> merged.answers.dom().contains(key) || has_key(joined(cut), key) by {
            assert(m.answers.dom().contains(key) <==> merged.answers.dom().contains(key)
                || first.answers.dom().contains(key));
            assert(first.answers.dom().contains(key) <==> has_key(cut[0], key));
        }
    }
}

/// However a batch is cut: where each chunk is answered under its own keys, the
/// batch succeeds, and the merged response answers exactly the questions that
/// were asked, each as its chunk did.
pub proof fn cutting_does_not_show(questions: Batch, cut: Seq<Batch>, outcomes: Seq<Outcome>)
    requires
        ascending(questions),
        joined(cut) == questions,
        outcomes.len() == cut.len(),
        forall|i: int| 0 <= i < cut.len() ==> #[trigger] answers_chunk(outcomes[i], cut[i]),
    ensures
        answers_chunk(merged_all(ResponseView::blank(), outcomes), questions),
        forall|i: int, key: Seq<char>|
            0 <= i < outcomes.len() && (#[trigger] outcomes[i])->Ok_0.answers.dom().contains(key)
                ==> merged_all(ResponseView::blank(), outcomes)->Ok_0.answers[key]
                == #[trigger] outcomes[i]->Ok_0.answers[key],
{
    lemma_chunks_merge(ResponseView::blank(), cut, outcomes);
    assert forall|i: int, key: Seq<char>|
        0 <= i < outcomes.len() && (#[trigger] outcomes[i])->Ok_0.answers.dom().contains(
            key,
        ) implies merged_all(ResponseView::blank(), outcomes)->Ok_0.answers[key]
        == #[trigger] outcomes[i]->Ok_0.answers[key] by {
        merging_joins_answers(ResponseView::blank(), outcomes, key);
    }
}

/// What the classifier requests of a batch come to, where `replies[i]` is the reply
/// to chunk `i`.
pub open spec fn classified(cut: Seq<Batch>, replies: Seq<ClassifierResponseView>) -> Seq<Outcome> {
    Seq::new(cut.len(), |i: int| replies[i].response(cut[i]))
}

/// The parts of an ordered batch are ordered.
pub proof fn lemma_parts_ascending(cut: Seq<Batch>, i: int)
    requires
        ascending(joined(cut)),
        0 <= i < cut.len(),
    ensures
        ascending(cut[i]),
    decreases cut.len(),
{
    lemma_split_ascending(cut[0], joined(cut.drop_first()));
    if i > 0 {
        lemma_parts_ascending(cut.drop_first(), i - 1);
        assert(cut.drop_first()[i - 1] == cut[i]);
    }
}

/// Outcomes that cost nothing cost nothing together.
pub proof fn lemma_free(outcomes: Seq<Outcome>)
    requires
        forall|i: int|
            0 <= i < outcomes.len() ==> ((#[trigger] outcomes[i]) matches Ok(r) && r.usage
                == ResponseView::blank().usage),
    ensures
        total_input(outcomes) == 0,
        total_output(outcomes) == 0,
    decreases outcomes.len(),
{
    if outcomes.len() > 0 {
        let rest = outcomes.drop_first();
        assert forall|i: int| 0 <= i < rest.len() implies ((#[trigger] rest[i]) matches Ok(r)
            && r.usage == ResponseView::blank().usage) by {
            assert(rest[i] == outcomes[i + 1]);
        }
        assert(outcomes[0] is Ok);
        lemma_free(rest);
    }
}

/// Where a classifier's reply to every chunk of a batch is accepted, the batch
/// succeeds: chunks never answer a key twice, the merged response answers exactly
/// the questions that were asked, and it costs no tokens.
pub proof fn classifier_answers_every_question(
    questions: Batch,
    replies: Seq<ClassifierResponseView>,
)
    requires
        ascending(questions),
        replies.len() == dimension_cut(questions).len(),
        forall|i: int|
            0 <= i < replies.len() ==> (#[trigger] replies[i]).response(
                dimension_cut(questions)[i],
            ) is Ok,
    ensures
        answers_chunk(
            merged_all(ResponseView::blank(), classified(dimension_cut(questions), replies)),
            questions,
        ),
        merged_all(
            ResponseView::blank(),
            classified(dimension_cut(questions), replies),
        )->Ok_0.usage == ResponseView::blank().usage,
{
    let cut = dimension_cut(questions);
    let outcomes = classified(cut, replies);
    dimension_cut_keeps_questions(questions);
    assert forall|i: int| 0 <= i < cut.len() implies #[trigger] answers_chunk(
        outcomes[i],
        cut[i],
    ) by {
        lemma_parts_ascending(cut, i);
        assert(replies[i].response(cut[i]) is Ok);
        assert forall|key: Seq<char>| #[trigger]
            outcomes[i]->Ok_0.answers.dom().contains(key) <==> has_key(cut[i], key) by {
            accepted_reply_answers_the_questions(replies[i], cut[i], key);
        }
    }
    cutting_does_not_show(questions, cut, outcomes);
    assert forall|i: int| 0 <= i < outcomes.len() implies ((#[trigger] outcomes[i]) matches Ok(r)
        && r.usage == ResponseView::blank().usage) by {
        assert(replies[i].response(cut[i]) is Ok);
        lemma_parts_ascending(cut, i);
        accepted_reply_answers_the_questions(replies[i], cut[i], Seq::empty());
    }
    lemma_free(outcomes);
    merging_adds_up_usage(ResponseView::blank(), outcomes);
}

/// The questions of the requests.
pub open spec fn asked(requests: Seq<RequestView>) -> Seq<Batch> {
    requests.map_values(|r: RequestView| r.questions)
}

/// The requests of a batch ask every question once, in order. Each goes to the
/// provider with its own credential and carries the same state: a provider with a
/// key gets it whole and with the model, a classifier gets its capped text as the
/// single input.
pub proof fn requests_share_state_and_split_questions(
    provider: ProviderView,
    state: Seq<char>,
    model: Seq<char>,
    limit: Option<usize>,
    questions: Batch,
)
    ensures
        joined(asked(requests_to(provider, state, model, limit, questions))) == questions,
        forall|i: int|
            0 <= i < requests_to(provider, state, model, limit, questions).len() ==> {
                let request = #[trigger] requests_to(provider, state, model, limit, questions)[i];
                &&& request.url == provider.url && request.auth == provider.auth
                &&& if provider.kind == Endpoint::Classifier {
                    request.body matches BodyView::Classifier { items, .. } && items == seq![
                        capped(state, MAX_INPUT_CHARS as nat),
                    ]
                } else {
                    request.body == (BodyView::Keyed { state, model })
                }
            },
{
    let requests = requests_to(provider, state, model, limit, questions);
    if provider.kind == Endpoint::Classifier {
        dimension_cut_keeps_questions(questions);
        assert(asked(requests) =~= dimension_cut(questions));
    } else {
        keyed_cut_keeps_questions(questions, limit);
        assert(asked(requests) =~= keyed_cut(questions, limit));
    }
}

/// The characters of instructions that the dimensions take together.
pub open spec fn instructed(dimensions: Seq<(Seq<char>, DimensionView)>) -> nat
    decreases dimensions.len(),
{
    if dimensions.len() == 0 {
        0
    } else {
        instructed(dimensions.drop_last()) + dimensions.last().1.instructions.len()
    }
}

/// Whether a request keeps to what a classifier takes: one input, its dimensions,
/// their labels and their instructions, each within its cap.
pub open spec fn within_caps(request: RequestView) -> bool {
    request.body matches BodyView::Classifier { items, dimensions, .. } && {
        &&& items.len() == 1 && items[0].len() <= MAX_INPUT_CHARS
        &&& 1 <= dimensions.len() <= MAX_DIMENSIONS
        &&& forall|i: int|
            0 <= i < dimensions.len() ==> (#[trigger] dimensions[i]).1.instructions.len()
                <= MAX_INSTRUCTIONS && dimensions[i].1.labels.len() <= MAX_LABELS
        &&& instructed(dimensions) <= MAX_COMBINED_INSTRUCTIONS
    }
}

proof fn lemma_instructed(questions: Batch)
    ensures
        instructed(dimensions_of(questions)) == combined_chars(questions),
    decreases questions.len(),
{
    if questions.len() > 0 {
        lemma_instructed(questions.drop_last());
        assert(dimensions_of(questions).drop_last() =~= dimensions_of(questions.drop_last()));
    }
}

proof fn lemma_part_of_joined(cut: Seq<Batch>, i: int, j: int) -> (k: int)
    requires
        0 <= i < cut.len(),
        0 <= j < cut[i].len(),
    ensures
        0 <= k < joined(cut).len(),
        joined(cut)[k] == cut[i][j],
    decreases cut.len(),
{
    if i == 0 {
        j
    } else {
        let later = cut.drop_first();
        assert(later[i - 1] == cut[i]);
        lemma_part_of_joined(later, i - 1, j) + cut[0].len()
    }
}

/// Without an oversized choice, every request to a classifier keeps to all that the
/// service takes, however large the state and the batch are.
pub proof fn classifier_requests_keep_within_caps(
    provider: ProviderView,
    state: Seq<char>,
    model: Seq<char>,
    limit: Option<usize>,
    questions: Batch,
    i: int,
)
    requires
        provider.kind == Endpoint::Classifier,
        !has_oversized(questions),
        0 <= i < requests_to(provider, state, model, limit, questions).len(),
    ensures
        within_caps(requests_to(provider, state, model, limit, questions)[i]),
{
    let cut = dimension_cut(questions);
    let chunk = cut[i];
    let dimensions = dimensions_of(chunk);
    dimension_cut_keeps_questions(questions);
    dimension_cut_within_caps(questions, i);
    lemma_instructed(chunk);
    assert forall|j: int| 0 <= j < dimensions.len() implies (
    #[trigger] dimensions[j]).1.instructions.len() <= MAX_INSTRUCTIONS
        && dimensions[j].1.labels.len() <= MAX_LABELS by {
        let k = lemma_part_of_joined(cut, i, j);
        assert(questions[k] == chunk[j]);
        assert(!is_oversized(questions[k].1));
        match chunk[j].1 {
            QuestionView::Noul { .. } => {},
            QuestionView::Choice { criteria, .. } => {
                assert(chunk[j].1.labels().len() == criteria.len());
            },
        }
    }
}

} // verus!
