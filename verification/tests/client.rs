use std::collections::BTreeMap;

use jegrep::answer::{
    Answer, ClassifierAnswer, ClassifierResponse, ClassifierResult, Response, Usage,
};
use jegrep::chunk::{dimension_chunks, MAX_DIMENSIONS};
use jegrep::client::Client;
use jegrep::error::Error;
use jegrep::failover::{Step, MAX_LABELS};
use jegrep::json::Json;
use jegrep::merge::Merge;
use jegrep::provider::{providers, Endpoint, Provider};
use jegrep::question::{
    labels_of, question_text, state_text, NoulCriteria, Question, MAX_INPUT_CHARS,
    MAX_INSTRUCTIONS,
};
use jegrep::request::{Body, Decoded, Request};
use jegrep::retry::{PostEvent, PostStep};
use jegrep::score::Score;
use jegrep::sorted::SortedMap;
use serde_json::Value;

fn json(text: &str) -> Value {
    serde_json::from_str(text).unwrap()
}

fn score(value: &Value) -> Score {
    Score { bits: value.as_f64().unwrap().to_bits() }
}

fn number(score: Score) -> f64 {
    f64::from_bits(score.bits)
}

fn decode_answer(value: &Value) -> Answer {
    match value["type"].as_str().unwrap() {
        "noul" => Answer::Noul { noul: score(&value["noul"]) },
        other => panic!("unexpected answer kind {other}"),
    }
}

fn decode_keyed(body: &Value) -> Response {
    let mut answers = SortedMap::new();
    for (key, answer) in body["answers"].as_object().unwrap() {
        answers.insert(key.clone(), decode_answer(answer));
    }
    Response {
        model: body["model"].as_str().unwrap().to_owned(),
        answers,
        usage: Usage {
            input_tokens: body["usage"]["input_tokens"].as_u64().unwrap(),
            output_tokens: body["usage"]["output_tokens"].as_u64().unwrap(),
        },
    }
}

fn decode_classifier(body: &Value) -> ClassifierResponse {
    let mut results = Vec::new();
    for result in body["results"].as_array().unwrap() {
        let mut dimensions = SortedMap::new();
        for (key, dimension) in result["dimensions"].as_object().unwrap() {
            let mut scores = SortedMap::new();
            for (label, share) in dimension["scores"].as_object().unwrap() {
                scores.insert(label.clone(), Some(score(share)));
            }
            let answer = ClassifierAnswer {
                label: dimension["label"].as_str().map(str::to_owned),
                confidence: Some(score(&dimension["confidence"])),
                scores: Some(scores),
            };
            dimensions.insert(key.clone(), answer);
        }
        results.push(ClassifierResult { dimensions });
    }
    ClassifierResponse { model: body["model"].as_str().unwrap().to_owned(), results }
}

fn json_of(value: &Json) -> Value {
    match value {
        Json::Null => Value::Null,
        Json::String(s) => Value::String(s.clone()),
        Json::Other(other) => other.as_json().clone(),
    }
}

fn object(entries: Vec<(&str, Value)>) -> Value {
    Value::Object(entries.into_iter().map(|(k, v)| (k.to_owned(), v)).collect())
}

fn question_json(question: &Question) -> Value {
    match question {
        Question::Noul { instructions, criteria } => {
            let mut entries =
                vec![("type", Value::from("noul")), ("instructions", json_of(instructions))];
            if let Some(c) = criteria {
                let yes = Value::from(c.yes.clone());
                entries.push(("criteria", object(vec![("true", yes), ("false", Value::from(c.no.clone()))])));
            }
            object(entries)
        },
        Question::Choice { instructions, criteria } => {
            let options = (0..criteria.len())
                .map(|i| (criteria.key(i).clone(), json_of(criteria.value(i))))
                .collect();
            object(vec![
                ("type", Value::from("choice")),
                ("instructions", json_of(instructions)),
                ("criteria", Value::Object(options)),
            ])
        },
    }
}

fn questions_json(questions: &SortedMap<Question>) -> Value {
    let entries =
        (0..questions.len()).map(|i| (questions.key(i).clone(), question_json(questions.value(i))));
    Value::Object(entries.collect())
}

fn body_json(request: &Request) -> Value {
    match &request.body {
        Body::Keyed { state, model } => object(vec![
            ("state", state.clone()),
            ("model", Value::from(model.clone())),
            ("questions", questions_json(&request.questions)),
        ]),
        Body::Classifier { items, tier, dimensions } => {
            let entries = (0..dimensions.len()).map(|i| {
                let dimension = dimensions.value(i);
                let entry = object(vec![
                    ("labels", Value::from(dimension.labels.clone())),
                    ("instructions", Value::from(dimension.instructions.clone())),
                ]);
                (dimensions.key(i).clone(), entry)
            });
            object(vec![
                ("items", Value::from(items.clone())),
                ("tier", Value::from(tier.clone())),
                ("dimensions", Value::Object(entries.collect())),
            ])
        },
    }
}

/// A service that answers a request for the given address and credential.
type Service<'a> = &'a mut dyn FnMut(&str, &str, &Value) -> (u16, String);

/// How many requests were sent, and how many were in flight at most.
#[derive(Default)]
struct Traffic {
    sent: usize,
    peak: usize,
}

fn exchange(client: &Client, retry: bool, request: &Request, service: Service) -> Result<Response, Error> {
    let mut post = client.post(retry);
    let (status, text) = loop {
        let (status, text) = service(&request.url, &request.auth, &body_json(request));
        match post.step(PostEvent::Replied { status, text }) {
            PostStep::Again { .. } => {},
            PostStep::Done(reply) => break reply?,
        }
    };
    let decoded = if status == 200 {
        let body = json(&text);
        Ok(match request.body {
            Body::Keyed { .. } => Decoded::Keyed(decode_keyed(&body)),
            Body::Classifier { .. } => Decoded::Classifier(decode_classifier(&body)),
        })
    } else {
        Err("no answer".into())
    };
    request.settle(status, &text, decoded)
}

fn batch(
    client: &Client,
    retry: bool,
    requests: &[Request],
    service: Service,
    traffic: &mut Traffic,
) -> Result<Response, Error> {
    let mut merge = Merge::new(requests.len());
    let mut next = 0;
    while !merge.is_complete() {
        let n = merge.launch();
        traffic.sent += n;
        traffic.peak = traffic.peak.max(n);
        let responses: Vec<Result<Response, Error>> = requests[next..next + n]
            .iter()
            .map(|request| exchange(client, retry, request, &mut *service))
            .collect();
        next += n;
        for response in responses {
            merge.land(response);
        }
        for _ in 0..n {
            assert!(merge.can_absorb());
            merge = merge.absorb()?;
        }
    }
    Ok(merge.finish())
}

fn system_one(
    client: &mut Client,
    state: &Value,
    questions: &SortedMap<Question>,
    service: Service,
) -> (Result<Response, Error>, Traffic) {
    let mut traffic = Traffic::default();
    let mut turn = match client.system_one(questions) {
        Ok(turn) => turn,
        Err(e) => return (Err(e), traffic),
    };
    loop {
        let attempt = turn.attempt();
        let requests = client.send(attempt.provider, state, questions);
        let outcome = batch(client, attempt.retry, &requests, &mut *service, &mut traffic);
        match turn.step(outcome) {
            Step::Again(next) => turn = next,
            Step::Done { outcome, active } => {
                if let Some(active) = active {
                    client.settle(active);
                }
                return (outcome, traffic);
            },
        }
    }
}

fn client(providers: Vec<Provider>, question_chunk: Option<usize>) -> Client {
    Client { providers, active: 0, model: "jev-latest".into(), max_retries: 0, question_chunk }
}

fn provider(url: &str, auth: &str, kind: Endpoint) -> Provider {
    Provider { url: url.into(), auth: auth.into(), kind }
}

fn noul_questions(count: usize) -> SortedMap<Question> {
    let mut questions = SortedMap::new();
    for i in 0..count {
        questions.insert(
            format!("q{i}"),
            Question::Noul {
                instructions: Json::String(format!("Question {i}")),
                criteria: None,
            },
        );
    }
    questions
}

fn options(names: Vec<String>) -> SortedMap<Json> {
    let mut criteria = SortedMap::new();
    for name in names {
        criteria.insert(name, Json::Null);
    }
    criteria
}

/// The reply of a provider with a key: every question is answered with 0.75.
fn keyed_reply(request: &Value) -> String {
    let keys = request["questions"].as_object().unwrap().keys();
    let answers: Vec<(String, Value)> =
        keys.map(|k| (k.clone(), json(r#"{"type": "noul", "noul": 0.75}"#))).collect();
    let n = answers.len();
    object(vec![
        ("model", Value::from("jev-latest")),
        ("answers", Value::Object(answers.into_iter().collect())),
        (
            "usage",
            object(vec![
                ("input_tokens", Value::from(100 + n * 10)),
                ("output_tokens", Value::from(n)),
            ]),
        ),
    ])
    .to_string()
}

/// The reply of a classifier: every dimension gets the same shares of yes and no.
fn classifier_reply(request: &Value) -> String {
    let keys = request["dimensions"].as_object().unwrap().keys();
    let dimension = r#"{"label": "yes", "confidence": 0.9, "scores": {"yes": 0.9, "no": 0.1}, "ms": 1}"#;
    let dimensions: Vec<(String, Value)> = keys.map(|k| (k.clone(), json(dimension))).collect();
    let n = dimensions.len();
    let dimensions = dimensions.into_iter().collect();
    object(vec![
        ("tier", Value::from("fast")),
        ("model", Value::from("jev-test")),
        ("results", Value::Array(vec![object(vec![("dimensions", Value::Object(dimensions))])])),
        ("usage", object(vec![("classifications", Value::from(n)), ("ms", Value::from(1))])),
    ])
    .to_string()
}

#[test]
fn provider_selection() {
    let both = |name: &str| -> Result<String, String> { Ok(name.to_owned()) };
    let auto = providers(None, both).unwrap();
    assert_eq!(auto[0].kind, Endpoint::Classifier);
    assert_eq!(auto[1].url, Endpoint::Openrouter.url());
    assert_eq!(auto[1].auth, "Bearer OPENROUTER_API_KEY");
    assert_eq!(auto[2].auth, "Bearer TYPESAFE_API_KEY");
    // Pinned keyed providers keep their pair as failover; classifier.dev is
    // dropped from the chain because the pin was explicit.
    let explicit = providers(Some(Endpoint::Typesafe), both).unwrap();
    assert_eq!(explicit[0].kind, Endpoint::Typesafe);
    assert_eq!(explicit[1].kind, Endpoint::Openrouter);
    let pinned = providers(Some(Endpoint::Classifier), both).unwrap();
    assert_eq!(pinned.len(), 1);
    assert_eq!(pinned[0].kind, Endpoint::Classifier);
    // classifier.dev needs no key: it is always available by default.
    let only_typesafe = |name: &str| -> Result<String, String> {
        if name == "TYPESAFE_API_KEY" {
            Ok("direct-key".into())
        } else {
            Err("missing".into())
        }
    };
    let chain = providers(None, only_typesafe).unwrap();
    assert_eq!(chain[0].kind, Endpoint::Classifier);
    assert_eq!(chain[1].url, Endpoint::Typesafe.url());
    assert!(providers(Some(Endpoint::Openrouter), only_typesafe).is_err());
    assert_eq!(
        providers(None, |_: &str| Err("missing".into())).unwrap()[0].kind,
        Endpoint::Classifier
    );
}

#[test]
fn failover_uses_matching_key_and_sticks_to_successful_provider() {
    for status in [401, 402, 403, 408, 429, 500, 529] {
        let mut client = client(
            vec![
                provider("primary", "Bearer primary", Endpoint::Openrouter),
                provider("fallback", "Bearer fallback", Endpoint::Typesafe),
            ],
            None,
        );
        let mut calls: Vec<String> = Vec::new();
        for _ in 0..2 {
            let mut service = |url: &str, auth: &str, request: &Value| {
                assert_eq!(auth, format!("Bearer {url}"));
                assert_eq!(request["model"], "jev-latest");
                calls.push(url.to_owned());
                let body = r#"{"model":"jev-latest","answers":{},"usage":{"input_tokens":1,"output_tokens":0}}"#;
                (if url == "primary" { status } else { 200 }, body.to_owned())
            };
            let (outcome, _) =
                system_one(&mut client, &Value::Null, &SortedMap::new(), &mut service);
            outcome.unwrap();
        }
        assert_eq!(client.active, 1);
        assert_eq!(calls, vec!["primary", "fallback", "fallback"]);
    }
}

#[test]
fn request_errors_do_not_fail_over() {
    assert!(!Error::Status(400, String::new()).can_failover());
    assert!(!Error::Status(422, String::new()).can_failover());
    assert!(Error::Transport("connection closed".into()).can_failover());
    assert!(Error::Decode("invalid JSON".into()).can_failover());
}

#[test]
fn question_chunks_preserve_state_merge_usage_and_bound_concurrency() {
    let mut client =
        client(vec![provider("primary", "Bearer primary", Endpoint::Openrouter)], Some(2));
    let state = json(r#"{"content": "the same state in every request"}"#);
    let questions = noul_questions(7);
    let mut requests: Vec<Value> = Vec::new();
    let mut service = |_: &str, _: &str, request: &Value| {
        requests.push(request.clone());
        (200, keyed_reply(request))
    };
    let (outcome, traffic) = system_one(&mut client, &state, &questions, &mut service);
    let response = outcome.unwrap();
    assert_eq!(requests.len(), 4);
    assert_eq!(traffic.sent, 4);
    assert_eq!(traffic.peak, 2);
    let mut seen = BTreeMap::new();
    for request in requests {
        assert_eq!(request["state"], state);
        assert_eq!(request["model"], "jev-latest");
        let subset = request["questions"].as_object().unwrap();
        assert!((1..=2).contains(&subset.len()));
        for (key, value) in subset {
            assert!(seen.insert(key.clone(), value.clone()).is_none());
        }
    }
    assert_eq!(serde_json::to_value(&seen).unwrap(), questions_json(&questions));
    assert_eq!(response.model, "jev-latest");
    assert_eq!(response.answers.len(), 7);
    for i in 0..questions.len() {
        assert_eq!(response.noul(questions.key(i)).map(number), Some(0.75));
    }
    assert_eq!(response.usage.input_tokens, 470);
    assert_eq!(response.usage.output_tokens, 7);
}

#[test]
fn default_small_choice_and_mixed_batches_are_not_split() {
    let choice = Question::Choice {
        instructions: Json::String("Choose a file".into()),
        criteria: options((0..6).map(|i| format!("option{i}")).collect()),
    };
    let mut mixed = noul_questions(4);
    mixed.insert("choose".into(), choice.clone());
    let mut only_choice = SortedMap::new();
    only_choice.insert("choose".into(), choice);
    for (questions, chunk) in [
        (noul_questions(5), None),
        (noul_questions(2), Some(2)),
        (only_choice, Some(1)),
        (mixed, Some(1)),
    ] {
        let mut client =
            client(vec![provider("primary", "Bearer primary", Endpoint::Openrouter)], chunk);
        let mut requests: Vec<Value> = Vec::new();
        let mut service = |_: &str, _: &str, request: &Value| {
            requests.push(request.clone());
            (200, keyed_reply(request))
        };
        system_one(&mut client, &Value::Null, &questions, &mut service).0.unwrap();
        assert_eq!(requests.len(), 1);
        assert_eq!(requests[0]["questions"], questions_json(&questions));
    }
}

#[test]
fn question_chunk_error_is_propagated_without_sending_later_waves() {
    let mut client =
        client(vec![provider("primary", "Bearer primary", Endpoint::Openrouter)], Some(1));
    let mut count = 0;
    let mut service = |_: &str, _: &str, request: &Value| {
        count += 1;
        let refused = request["questions"].get("q0").is_some();
        (if refused { 400 } else { 200 }, keyed_reply(request))
    };
    let (result, traffic) =
        system_one(&mut client, &Value::Null, &noul_questions(5), &mut service);
    assert!(matches!(result, Err(Error::Status(400, _))));
    assert_eq!(count, 2);
    assert_eq!(traffic.sent, 2);
}

#[test]
fn question_chunks_keep_provider_failover() {
    let mut client = client(
        vec![
            provider("primary", "Bearer primary", Endpoint::Openrouter),
            provider("fallback", "Bearer fallback", Endpoint::Typesafe),
        ],
        Some(1),
    );
    let mut primary = 0;
    let mut fallback = 0;
    let mut service = |url: &str, _: &str, request: &Value| {
        if url == "primary" {
            primary += 1;
            (401, keyed_reply(request))
        } else {
            fallback += 1;
            (200, keyed_reply(request))
        }
    };
    let (outcome, _) = system_one(&mut client, &Value::Null, &noul_questions(3), &mut service);
    let response = outcome.unwrap();
    assert_eq!(response.answers.len(), 3);
    assert_eq!(response.usage.input_tokens, 330);
    assert_eq!(response.usage.output_tokens, 3);
    assert_eq!(client.active, 1);
    assert_eq!(primary, 2);
    assert_eq!(fallback, 3);
}

#[test]
fn classifier_translation_folds_criteria_and_chunks_dimensions() {
    let noul = Question::Noul {
        instructions: Json::String("Is this relevant?".into()),
        criteria: Some(NoulCriteria { yes: "has it".into(), no: "lacks it".into() }),
    };
    let text = question_text(&noul);
    assert!(text.starts_with("Is this relevant?"));
    assert!(text.contains("\"yes\" means: has it"));
    assert!(text.contains("\"no\" means: lacks it"));
    assert_eq!(labels_of(&noul), vec!["yes", "no"]);

    let mut criteria = SortedMap::new();
    criteria.insert("a".to_string(), Json::Null);
    criteria.insert("b".to_string(), Json::String("bee".into()));
    let choice = Question::Choice { instructions: Json::String("Pick one".into()), criteria };
    let text = question_text(&choice);
    assert!(text.contains("Pick one"));
    assert!(text.contains("\n- a"));
    assert!(text.contains("\n- b: bee"));
    assert_eq!(labels_of(&choice), vec!["a", "b"]);

    // Instructions are capped per dimension...
    let huge = Question::Noul {
        instructions: Json::String("x".repeat(MAX_INSTRUCTIONS + 500)),
        criteria: None,
    };
    assert_eq!(question_text(&huge).chars().count(), MAX_INSTRUCTIONS);
    // ...and the combined instruction budget forces extra chunks: 25 × 4,000
    // characters at a 15,000-character cap means three dimensions per chunk.
    let mut questions = SortedMap::new();
    for i in 0..MAX_DIMENSIONS + 5 {
        questions.insert(format!("q{i:02}"), huge.clone());
    }
    let chunks = dimension_chunks(&questions);
    assert_eq!(chunks.len(), 9);
    assert!(chunks.iter().all(|c| c.len() <= MAX_DIMENSIONS));
    // The dimension cap alone splits 25 small questions 20 + 5.
    let mut small = SortedMap::new();
    for i in 0..MAX_DIMENSIONS + 5 {
        small.insert(format!("q{i:02}"), noul.clone());
    }
    let chunks = dimension_chunks(&small);
    assert_eq!(chunks.len(), 2);
    assert_eq!(chunks[0].len(), MAX_DIMENSIONS);
    assert_eq!(chunks[1].len(), 5);

    // The serialized state is capped at the API's input limit.
    let state = object(vec![("content", Value::from("y".repeat(MAX_INPUT_CHARS + 100)))]);
    assert_eq!(state_text(&state).chars().count(), MAX_INPUT_CHARS);
}

#[test]
fn classifier_endpoint_maps_dimensions_and_merges_chunks() {
    let mut client = client(vec![provider("classifier", "", Endpoint::Classifier)], None);
    let questions = noul_questions(25);
    let mut requests: Vec<Value> = Vec::new();
    let mut service = |_: &str, _: &str, request: &Value| {
        requests.push(request.clone());
        (200, classifier_reply(request))
    };
    let (outcome, _) = system_one(&mut client, &Value::Null, &questions, &mut service);
    let response = outcome.unwrap();
    assert_eq!(requests.len(), 2);
    let mut seen = BTreeMap::new();
    for request in &requests {
        assert_eq!(request["items"].as_array().unwrap().len(), 1);
        assert_eq!(request["tier"], "fast");
        let dimensions = request["dimensions"].as_object().unwrap();
        assert!(dimensions.len() <= MAX_DIMENSIONS);
        for (key, dimension) in dimensions {
            assert_eq!(dimension["labels"], json(r#"["yes", "no"]"#));
            assert!(seen.insert(key.clone(), dimension.clone()).is_none());
        }
    }
    assert_eq!(seen.len(), 25);
    assert_eq!(response.model, "jev-test");
    assert_eq!(response.answers.len(), 25);
    for i in 0..questions.len() {
        assert_eq!(response.noul(questions.key(i)).map(number), Some(0.9));
    }
    // classifier.dev is free: usage stays at zero tokens.
    assert_eq!(response.usage.input_tokens, 0);
    assert_eq!(response.usage.output_tokens, 0);
}

#[test]
fn classifier_endpoint_maps_choice_to_scores() {
    let mut questions = SortedMap::new();
    questions.insert(
        "where".into(),
        Question::Choice {
            instructions: Json::String("Which range?".into()),
            criteria: options(["r0", "r1", "r2"].iter().map(|o| (*o).to_string()).collect()),
        },
    );
    let mut client = client(vec![provider("classifier", "", Endpoint::Classifier)], None);
    let mut requests: Vec<Value> = Vec::new();
    let mut service = |_: &str, _: &str, request: &Value| {
        requests.push(request.clone());
        (200, classifier_reply(request))
    };
    let (outcome, _) = system_one(&mut client, &Value::Null, &questions, &mut service);
    let response = outcome.unwrap();
    assert_eq!(requests[0]["dimensions"]["where"]["labels"], json(r#"["r0", "r1", "r2"]"#));
    let Some(Answer::Choice { choice, probabilities, confidence }) = response.answers.get("where")
    else {
        panic!("expected a choice answer");
    };
    assert_eq!(choice, "yes");
    assert_eq!(probabilities.get("yes").copied().map(number), Some(0.9));
    assert!(probabilities.get("r1").is_none());
    assert_eq!(number(*confidence), 0.9);
}

#[test]
fn classifier_fails_over_to_keyed_provider() {
    let mut client = client(
        vec![
            provider("classifier", "", Endpoint::Classifier),
            provider("fallback", "Bearer fallback", Endpoint::Typesafe),
        ],
        None,
    );
    let mut classified = 0;
    let mut keyed = 0;
    let mut service = |url: &str, auth: &str, request: &Value| {
        if url == "classifier" {
            classified += 1;
            (502, classifier_reply(request))
        } else {
            keyed += 1;
            assert_eq!(auth, "Bearer fallback");
            let body = r#"{"model":"jev-latest","answers":{},"usage":{"input_tokens":1,"output_tokens":0}}"#;
            (200, body.to_owned())
        }
    };
    let (outcome, _) = system_one(&mut client, &Value::Null, &noul_questions(2), &mut service);
    outcome.unwrap();
    // The provider with a key answers with an empty answer set; the point is that
    // the chain moved off the failing classifier provider and stuck there.
    assert_eq!(client.active, 1);
    assert_eq!(classified, 1);
    assert_eq!(keyed, 1);
}

#[test]
fn choice_over_classifier_label_cap_needs_a_keyed_provider() {
    let mut questions = SortedMap::new();
    questions.insert(
        "big".into(),
        Question::Choice {
            instructions: Json::String("Pick one".into()),
            criteria: options((0..=MAX_LABELS).map(|i| format!("o{i}")).collect()),
        },
    );
    let mut client = client(vec![provider("http://127.0.0.1:1", "", Endpoint::Classifier)], None);
    let mut service = |_: &str, _: &str, _: &Value| panic!("nothing may be sent");
    let (outcome, _) = system_one(&mut client, &Value::Null, &questions, &mut service);
    assert!(matches!(outcome, Err(Error::Status(400, _))));
}
