use std::collections::BTreeMap;

use jegrep::answer::{
    Answer, ClassifierAnswer, ClassifierResponse, ClassifierResult, Response, Usage,
};
use jegrep::chunk::{dimension_chunks, keyed_chunks};
use jegrep::client::{question_limit, Client, Setting, MAX_RETRIES};
use jegrep::error::{check_status, Error};
use jegrep::failover::{Attempt, Failover, Step};
use jegrep::json::Json;
use jegrep::merge::{merge_response, Merge};
use jegrep::number::{append_decimal, parse_usize};
use jegrep::options::{is_query, positionals, thresholds_valid, Opts};
use jegrep::order::{relate, Relation};
use jegrep::provider::{provider_chain, providers, Endpoint, Provider};
use jegrep::question::{input_text, question_text, state_text, NoulCriteria, Question};
use jegrep::request::{classify, dump, system_one_keyed, Body, Decoded};
use jegrep::retry::{backoff, Failure, Post, PostEvent, PostStep};
use jegrep::score::{Score, HALF_BITS, MINUS_ZERO_BITS, ONE_BITS, ZERO_BITS};
use jegrep::sorted::{Duplicate, SortedMap};
use jegrep::text::{cap, is_white, trim, truncate};
use serde_json::Value;

fn json(text: &str) -> Value {
    serde_json::from_str(text).unwrap()
}

fn score(number: f64) -> Score {
    Score { bits: number.to_bits() }
}

fn noul(instructions: &str) -> Question {
    Question::Noul { instructions: Json::String(instructions.into()), criteria: None }
}

fn batch(entries: Vec<(&str, Question)>) -> SortedMap<Question> {
    let mut questions = SortedMap::new();
    for (key, question) in entries {
        questions.insert(key.to_owned(), question);
    }
    questions
}

fn choice(options: Vec<(&str, Json)>) -> Question {
    let mut criteria = SortedMap::new();
    for (name, description) in options {
        criteria.insert(name.to_owned(), description);
    }
    Question::Choice { instructions: Json::String("Pick one".into()), criteria }
}

fn response(model: &str, keys: &[&str], input: u64, output: u64) -> Response {
    let mut answers = SortedMap::new();
    for key in keys {
        answers.insert((*key).to_owned(), Answer::Noul { noul: score(0.25) });
    }
    Response {
        model: model.into(),
        answers,
        usage: Usage { input_tokens: input, output_tokens: output },
    }
}

fn provider(kind: Endpoint) -> Provider {
    Provider { url: kind.url().into(), auth: String::new(), kind }
}

#[test]
fn whitespace_is_the_unicode_property() {
    for c in '\0'..=char::MAX {
        assert_eq!(is_white(c), c.is_whitespace(), "{c:?}");
    }
}

#[test]
fn trimming_drops_both_ends_only() {
    for text in ["", " ", "\t\n ", "a", " a", "a ", "\u{3000} a b\u{a0}", "\u{200b}a"] {
        assert_eq!(trim(text), text.trim());
    }
}

#[test]
fn truncation_counts_characters_and_marks_the_cut() {
    assert_eq!(truncate("  short \n", 10), "short");
    assert_eq!(truncate("12345", 5), "12345");
    assert_eq!(truncate("123456", 5), "12345\u{2026}");
    assert_eq!(truncate(" \u{e9}\u{e9}\u{e9} ", 2), "\u{e9}\u{e9}\u{2026}");
    assert_eq!(truncate("a", 0), "\u{2026}");
    assert_eq!(truncate("   ", 0), "");
    assert_eq!(cap("\u{e9}abc", 2), "\u{e9}a");
    assert_eq!(cap("ab", 2), "ab");
}

#[test]
fn decimals_are_written_as_numbers() {
    for n in [0, 7, 10, 99, 100, 65_535, 1_234_567_890, u64::MAX] {
        let mut out = String::from("n=");
        append_decimal(&mut out, n);
        assert_eq!(out, format!("n={n}"));
    }
}

#[test]
fn machine_integers_are_read_as_the_standard_library_reads_them() {
    let longest = usize::MAX.to_string();
    let too_long = format!("{longest}0");
    let over = "18446744073709551616";
    for text in [
        "", "+", "-", "0", "00", "7", "+7", "++7", "-7", "-0", " 7", "7 ", "1_000", "0x1", "12a",
        "\u{ff11}", "1+", &longest, &too_long, over, "000000000000000000000000000001",
    ] {
        assert_eq!(parse_usize(text), text.parse::<usize>().ok(), "{text:?}");
    }
}

#[test]
fn keys_are_ordered_as_strings_are() {
    let keys = ["", "a", "ab", "b", "B", "q10", "q2", "\u{e9}", "\u{ffff}", "\u{10000}", "z"];
    for a in keys {
        for b in keys {
            let expected = if a < b {
                Relation::Before
            } else if a == b {
                Relation::Same
            } else {
                Relation::After
            };
            assert_eq!(relate(a, b), expected, "{a:?} {b:?}");
        }
    }
}

#[test]
fn a_sorted_map_behaves_as_an_ordered_map() {
    let mut map: SortedMap<Score> = SortedMap::new();
    let mut model: BTreeMap<String, f64> = BTreeMap::new();
    assert!(map.is_empty());
    for (i, key) in ["q9", "q10", "", "b", "q9", "a", "\u{e9}", "z", "a"].iter().enumerate() {
        let replaced = map.insert((*key).to_owned(), score(i as f64));
        let expected = model.insert((*key).to_owned(), i as f64);
        assert_eq!(replaced.map(|s| f64::from_bits(s.bits)), expected);
    }
    assert_eq!(map.len(), model.len());
    for (i, (key, value)) in model.iter().enumerate() {
        assert_eq!(map.key(i), key);
        assert_eq!(map.value(i).bits, value.to_bits());
        assert_eq!(map.get(key).map(|s| s.bits), Some(value.to_bits()));
    }
    assert!(map.get("missing").is_none());
    let shown: Vec<(&String, u64)> = map.entries().into_iter().map(|(k, s)| (k, s.bits)).collect();
    assert_eq!(shown, model.iter().map(|(k, v)| (k, v.to_bits())).collect::<Vec<_>>());
    let entries: Vec<String> = map.into_entries().into_iter().map(|(k, _)| k).collect();
    assert_eq!(entries, model.into_keys().collect::<Vec<_>>());
}

#[test]
fn scores_hold_the_bits_of_doubles() {
    assert_eq!(ZERO_BITS, 0.0f64.to_bits());
    assert_eq!(HALF_BITS, 0.5f64.to_bits());
    assert_eq!(ONE_BITS, 1.0f64.to_bits());
    assert_eq!(MINUS_ZERO_BITS, (-0.0f64).to_bits());
    for x in [
        0.0, -0.0, 1.0, 0.5, 0.2, f64::MIN_POSITIVE, 5e-324, -5e-324, 1.0 + f64::EPSILON,
        1.0 - f64::EPSILON, -0.1, 2.0, f64::INFINITY, f64::NEG_INFINITY, f64::NAN, -f64::NAN,
    ] {
        assert_eq!(score(x).is_probability(), (0.0..=1.0).contains(&x), "{x}");
    }
}

#[test]
fn json_values_are_told_apart() {
    assert!(matches!(Json::from_json(Value::Null), Json::Null));
    assert!(matches!(Json::from_json(json(r#""a\nb""#)), Json::String(s) if s == "a\nb"));
    assert!(matches!(Json::from_json(json(r#""null""#)), Json::String(s) if s == "null"));
    for text in ["true", "12.5", r#"["a",null]"#, r#"{"a":1}"#] {
        let value = Json::from_json(json(text));
        assert!(matches!(&value, Json::Other(c) if *c.as_json() == json(text)));
        assert_eq!(value.show(), text);
        assert_eq!(value.duplicate().show(), text);
    }
    assert_eq!(Json::Null.show(), "null");
    assert_eq!(Json::String("a\"b".into()).show(), "a\"b");
}

#[test]
fn states_are_serialized_compactly() {
    assert_eq!(state_text(&json(r#"{ "b": [1, 2], "a": "x y" }"#)), r#"{"a":"x y","b":[1,2]}"#);
    assert_eq!(state_text(&json(r#""q\"""#)), r#""q\"""#);
    assert_eq!(state_text(&Value::Null), "null");
    let long = "\u{e9}".repeat(40_000);
    assert_eq!(input_text(&long), "\u{e9}".repeat(32_000));
    assert_eq!(input_text(&"short".to_owned()), "short");
}

#[test]
fn question_texts_fold_criteria_in() {
    let question = Question::Noul {
        instructions: Json::String("Relevant?".into()),
        criteria: Some(NoulCriteria { yes: "has it".into(), no: "lacks it".into() }),
    };
    assert_eq!(
        question_text(&question),
        "Relevant?\n\n\"yes\" means: has it\n\"no\" means: lacks it"
    );
    assert_eq!(question_text(&noul("Relevant?")), "Relevant?");
    let question = Question::Noul { instructions: Json::Null, criteria: None };
    assert_eq!(question_text(&question), "null");
    let question =
        Question::Noul { instructions: Json::from_json(json(r#"{"a": 1}"#)), criteria: None };
    assert_eq!(question_text(&question), r#"{"a":1}"#);
    let question = choice(vec![
        ("c", Json::from_json(json("[1, 2]"))),
        ("b", Json::String("bee".into())),
        ("a", Json::Null),
    ]);
    assert_eq!(question_text(&question), "Pick one\n\nOptions:\n- a\n- b: bee\n- c: [1,2]");
}

#[test]
fn combined_instructions_are_counted_in_bytes() {
    let wide = "\u{e9}".repeat(4_000);
    let questions = batch(vec![("a", noul(&wide)), ("b", noul(&wide)), ("c", noul("x"))]);
    let sizes: Vec<usize> = dimension_chunks(&questions).iter().map(|c| c.len()).collect();
    assert_eq!(sizes, vec![1, 2]);
    assert!(dimension_chunks(&SortedMap::new()).is_empty());
}

#[test]
fn keyed_chunks_are_full_but_for_the_last() {
    let keys = ["a", "b", "c", "d", "e"];
    let questions = batch(keys.iter().map(|k| (*k, noul(k))).collect());
    let chunks = keyed_chunks(&questions, Some(2));
    let shown: Vec<Vec<&str>> =
        chunks.iter().map(|c| (0..c.len()).map(|i| c.key(i).as_str()).collect()).collect();
    assert_eq!(shown, vec![vec!["a", "b"], vec!["c", "d"], vec!["e"]]);
    assert_eq!(keyed_chunks(&questions, Some(5)).len(), 1);
    assert_eq!(keyed_chunks(&questions, None).len(), 1);
    let empty = keyed_chunks(&SortedMap::new(), Some(1));
    assert_eq!(empty.len(), 1);
    assert!(empty[0].is_empty());
}

fn reply(dimensions: Vec<(&str, ClassifierAnswer)>) -> ClassifierResponse {
    let mut map = SortedMap::new();
    for (key, answer) in dimensions {
        map.insert(key.to_owned(), answer);
    }
    ClassifierResponse { model: "m".into(), results: vec![ClassifierResult { dimensions: map }] }
}

fn said(label: Option<&str>, scores: Option<Vec<(&str, Option<f64>)>>) -> ClassifierAnswer {
    ClassifierAnswer {
        label: label.map(str::to_owned),
        confidence: None,
        scores: scores.map(|s| {
            let mut map = SortedMap::new();
            for (label, share) in s {
                map.insert(label.to_owned(), share.map(score));
            }
            map
        }),
    }
}

#[test]
fn classifier_probabilities_fall_back_to_labels_and_even_odds() {
    let cases: Vec<(ClassifierAnswer, f64)> = vec![
        (said(Some("no"), Some(vec![("yes", Some(0.3))])), 0.3),
        (said(Some("yes"), Some(vec![("yes", None)])), 1.0),
        (said(Some("no"), Some(vec![("no", Some(0.7))])), 0.0),
        (said(Some("yes"), None), 1.0),
        (said(Some("no"), None), 0.0),
        (said(Some("maybe"), None), 0.5),
        (said(None, None), 0.5),
    ];
    for (answer, expected) in cases {
        let questions = batch(vec![("q", noul("?"))]);
        let response = reply(vec![("q", answer), ("other", said(None, None))])
            .into_response(&questions)
            .unwrap();
        assert_eq!(response.noul("q").map(|s| f64::from_bits(s.bits)), Some(expected));
        assert_eq!(response.answers.len(), 1);
        assert_eq!(response.model, "m");
        assert!(response.choice("q").is_none());
        assert!(response.noul("other").is_none());
    }
}

#[test]
fn classifier_choices_keep_the_scores_that_are_numbers() {
    let questions = batch(vec![("where", choice(vec![("r0", Json::Null), ("r1", Json::Null)]))]);
    let mut answer = said(Some("r1"), Some(vec![("r1", Some(0.75)), ("r0", None)]));
    answer.confidence = Some(score(0.5));
    let response = reply(vec![("where", answer)]).into_response(&questions).unwrap();
    let (probabilities, confidence) = response.choice("where").unwrap();
    assert_eq!(probabilities.len(), 1);
    assert_eq!(probabilities.get("r1"), Some(&score(0.75)));
    assert_eq!(confidence, score(0.5));
    assert!(response.noul("where").is_none());
    let response = reply(vec![("where", said(None, None))]).into_response(&questions).unwrap();
    let Some(Answer::Choice { choice, probabilities, confidence }) = response.answers.get("where")
    else {
        panic!("expected a choice answer");
    };
    assert_eq!(choice, "");
    assert!(probabilities.is_empty());
    assert_eq!(*confidence, score(0.0));
}

#[test]
fn incomplete_classifier_replies_are_refused() {
    let questions = batch(vec![("b", noul("?")), ("a", noul("?")), ("c", noul("?"))]);
    let empty = ClassifierResponse { model: "m".into(), results: Vec::new() };
    let error = empty.into_response(&questions).unwrap_err();
    assert_eq!(error.message(), "decode: classifier response has no results");
    let error =
        reply(vec![("a", said(None, None))]).into_response(&questions).unwrap_err();
    assert_eq!(error.message(), "decode: classifier response is missing b");
}

#[test]
fn merging_adds_up_and_refuses_repeated_keys() {
    let merged = merge_response(response("", &["b"], 3, 1), response("x", &["a"], 4, 2)).unwrap();
    let merged = merge_response(merged, response("y", &["c"], 5, 0)).unwrap();
    assert_eq!(merged.model, "x");
    assert_eq!(merged.usage, Usage { input_tokens: 12, output_tokens: 3 });
    let keys: Vec<&str> = (0..3).map(|i| merged.answers.key(i).as_str()).collect();
    assert_eq!(keys, vec!["a", "b", "c"]);
    let error = merge_response(merged, response("z", &["d", "c", "b"], 0, 0)).unwrap_err();
    assert_eq!(error.message(), "decode: duplicate answer key across question chunks: b");
    assert!(Usage::default().can_add(&Usage { input_tokens: u64::MAX, output_tokens: 0 }));
    let one = Usage { input_tokens: 0, output_tokens: 1 };
    assert!(!one.can_add(&Usage { input_tokens: 0, output_tokens: u64::MAX }));
}

#[test]
fn batches_go_out_in_waves_of_two() {
    let mut merge = Merge::new(3);
    assert_eq!(merge.launch(), 2);
    merge.land(Ok(response("x", &["a"], 1, 0)));
    merge.land(Ok(response("x", &["b"], 1, 0)));
    merge = merge.absorb().unwrap();
    assert!(!merge.is_complete());
    merge = merge.absorb().unwrap();
    assert_eq!(merge.launch(), 1);
    merge.land(Ok(response("x", &["c"], 1, 0)));
    assert!(merge.can_absorb());
    merge = merge.absorb().unwrap();
    assert!(merge.is_complete());
    assert_eq!(merge.finish().usage.input_tokens, 3);
    let mut merge = Merge::new(2);
    assert_eq!(merge.launch(), 2);
    merge.land(Ok(response("x", &["a"], 1, 0)));
    merge.land(Ok(response("x", &["b"], u64::MAX, 0)));
    assert!(merge.can_absorb());
    merge = merge.absorb().unwrap();
    assert!(!merge.can_absorb());
    let empty = Merge::new(0);
    assert!(empty.is_complete());
    let blank = empty.finish();
    assert_eq!(blank.model, "");
    assert!(blank.answers.is_empty());
    let mut merge = Merge::new(5);
    assert_eq!(merge.launch(), 2);
    merge.land(Err(Error::Status(400, "no".into())));
    merge.land(Err(Error::Decode("later".into())));
    assert!(merge.can_absorb());
    let error = merge.absorb().unwrap_err();
    assert_eq!(error.message(), "HTTP 400: no");
}

#[test]
fn a_key_answered_twice_in_one_wave_ends_the_batch() {
    let mut merge = Merge::new(4);
    assert_eq!(merge.launch(), 2);
    merge.land(Ok(response("x", &["a", "b"], 1, 0)));
    merge.land(Ok(response("x", &["c", "b"], 1, 0)));
    let error = merge.absorb().unwrap().absorb().unwrap_err();
    assert_eq!(error.message(), "decode: duplicate answer key across question chunks: b");
}

#[test]
fn errors_are_told_in_words() {
    assert_eq!(Error::Status(529, "busy".into()).message(), "HTTP 529: busy");
    assert_eq!(Error::Transport("reset".into()).message(), "transport: reset");
    assert_eq!(Error::Decode("bad".into()).message(), "decode: bad");
    for error in [Error::Status(404, "a".into()), Error::Transport("b".into()), Error::Decode("c".into())] {
        assert_eq!(error.clone().message(), error.message());
    }
}

#[test]
fn only_curable_statuses_fail_over() {
    for status in 100..=999u16 {
        let expected = matches!(status, 401 | 402 | 403 | 408 | 429) || (500..600).contains(&status);
        assert_eq!(Error::Status(status, String::new()).can_failover(), expected, "{status}");
    }
}

#[test]
fn replies_without_status_200_are_refused() {
    assert!(check_status(200, "anything").is_ok());
    let error = check_status(204, "  gone \n").unwrap_err();
    assert_eq!(error.message(), "HTTP 204: gone");
    let error = check_status(500, &"x".repeat(301)).unwrap_err();
    assert_eq!(error.message(), format!("HTTP 500: {}\u{2026}", "x".repeat(300)));
}

fn replied(status: u16) -> PostEvent {
    PostEvent::Replied { status, text: "body".into() }
}

#[test]
fn transient_replies_are_retried_within_bounds() {
    for status in [429, 529, 500, 599] {
        let mut post = Post::new(2, true);
        for expected in 1..=2 {
            let PostStep::Again { attempt, notice } = post.step(replied(status)) else {
                panic!("expected a retry");
            };
            assert_eq!(attempt, expected);
            assert_eq!(
                notice.unwrap(),
                format!(
                    "  ! jev: HTTP {status}, backing off (further retries are counted silently; see footer)"
                )
            );
        }
        let PostStep::Done(Ok((status_seen, text))) = post.step(replied(status)) else {
            panic!("expected the end");
        };
        assert_eq!(status_seen, status);
        assert_eq!(text, "body");
    }
}

#[test]
fn other_replies_and_permanent_failures_are_not_retried() {
    for status in [200, 400, 401, 404, 600] {
        assert!(matches!(Post::new(6, true).step(replied(status)), PostStep::Done(Ok(_))));
    }
    assert!(matches!(Post::new(6, false).step(replied(429)), PostStep::Done(Ok((429, _)))));
    assert!(matches!(Post::new(0, true).step(replied(429)), PostStep::Done(Ok((429, _)))));
    for failure in [Failure::BadUri, Failure::Http, Failure::Tls] {
        let event = PostEvent::Failed { failure, message: "why".into() };
        let PostStep::Done(Err(error)) = Post::new(6, true).step(event) else {
            panic!("expected the end");
        };
        assert_eq!(error.message(), "transport: why");
    }
    let event = PostEvent::Failed { failure: Failure::Other, message: "why".into() };
    let PostStep::Again { attempt, notice } = Post::new(6, true).step(event) else {
        panic!("expected a retry");
    };
    assert_eq!(attempt, 1);
    assert!(notice.is_none());
}

#[test]
fn waits_double_and_honour_the_service() {
    let milliseconds = |attempt, after: Option<u64>, seed| {
        backoff(attempt, after.map(|ms| ms * 1_000_000), seed) / 1_000_000
    };
    assert_eq!(milliseconds(0, None, 7), 207);
    assert_eq!(milliseconds(1, None, 0), 400);
    assert_eq!(milliseconds(2, None, 249), 1_049);
    assert_eq!(milliseconds(6, None, 250), 12_800);
    assert_eq!(milliseconds(7, None, 0), 20_000);
    assert_eq!(milliseconds(100, None, 3), 20_000);
    assert_eq!(milliseconds(1, Some(1_500), 10), 1_510);
    assert_eq!(milliseconds(3, Some(1_500), 0), 1_600);
    assert_eq!(milliseconds(1, Some(19_900), 200), 20_000);
    assert_eq!(backoff(1, Some(u64::MAX), 1), 20_000_000_000);
}

#[test]
fn turns_go_round_from_the_active_provider() {
    let chain =
        vec![provider(Endpoint::Classifier), provider(Endpoint::Openrouter), provider(Endpoint::Typesafe)];
    let questions = batch(vec![("a", noul("?"))]);
    let turn = Failover::plan(&chain, 2, &questions).unwrap();
    assert_eq!(turn.attempt(), Attempt { provider: 2, retry: false });
    let Step::Again(turn) = turn.step(Err(Error::Status(500, String::new()))) else {
        panic!("expected another turn");
    };
    assert_eq!(turn.attempt(), Attempt { provider: 0, retry: true });
    let Step::Again(turn) = turn.step(Err(Error::Transport(String::new()))) else {
        panic!("expected another turn");
    };
    assert_eq!(turn.attempt(), Attempt { provider: 1, retry: true });
    let Step::Done { outcome, active } = turn.step(Err(Error::Decode("last".into()))) else {
        panic!("expected the end");
    };
    assert_eq!(outcome.unwrap_err().message(), "decode: last");
    assert_eq!(active, None);
}

#[test]
fn a_first_success_or_a_request_error_ends_the_call() {
    let chain = vec![provider(Endpoint::Openrouter), provider(Endpoint::Typesafe)];
    let questions = batch(vec![("a", noul("?"))]);
    let turn = Failover::plan(&chain, 0, &questions).unwrap();
    let Step::Done { outcome, active } = turn.step(Ok(response("m", &["a"], 0, 0))) else {
        panic!("expected the end");
    };
    assert!(outcome.is_ok());
    assert_eq!(active, None);
    let turn = Failover::plan(&chain, 1, &questions).unwrap();
    let step = turn.step(Err(Error::Status(422, "bad".into())));
    assert!(matches!(step, Step::Done { outcome: Err(Error::Status(422, _)), active: None }));
    let alone = vec![provider(Endpoint::Typesafe)];
    let turn = Failover::plan(&alone, 0, &questions).unwrap();
    assert_eq!(turn.attempt(), Attempt { provider: 0, retry: true });
}

#[test]
fn oversized_choices_go_to_providers_with_keys_first() {
    let mut criteria = SortedMap::new();
    for i in 0..=100 {
        criteria.insert(format!("o{i}"), Json::Null);
    }
    let big = Question::Choice { instructions: Json::Null, criteria };
    let questions = batch(vec![("a", noul("?")), ("big", big)]);
    let chain =
        vec![provider(Endpoint::Classifier), provider(Endpoint::Openrouter), provider(Endpoint::Typesafe)];
    let mut turn = Failover::plan(&chain, 0, &questions).unwrap();
    let mut order = Vec::new();
    loop {
        order.push(turn.attempt().provider);
        match turn.step(Err(Error::Status(500, String::new()))) {
            Step::Again(next) => turn = next,
            Step::Done { .. } => break,
        }
    }
    assert_eq!(order, vec![1, 2, 0]);
    let turn = Failover::plan(&chain, 2, &questions).unwrap();
    assert_eq!(turn.attempt().provider, 2);
    let free = vec![provider(Endpoint::Classifier)];
    let error = Failover::plan(&free, 0, &questions).unwrap_err();
    assert_eq!(
        error.message(),
        "HTTP 400: a choice with more than 100 options requires OPENROUTER_API_KEY or \
         TYPESAFE_API_KEY (classifier.dev caps a dimension at 100 labels)"
    );
}

#[test]
fn chains_follow_the_keys_that_were_found() {
    let found: Result<String, String> = Ok("k".into());
    let missing: Result<String, String> = Err("no key".into());
    let kinds = |preferred, openrouter: &Result<String, String>, typesafe: &Result<String, String>| {
        provider_chain(preferred, openrouter, typesafe)
            .map(|chain| chain.into_iter().map(|p| p.kind).collect::<Vec<_>>())
    };
    let (free, router, direct) = (Endpoint::Classifier, Endpoint::Openrouter, Endpoint::Typesafe);
    assert_eq!(kinds(None, &found, &missing), Ok(vec![free, router]));
    assert_eq!(kinds(None, &missing, &missing), Ok(vec![free]));
    assert_eq!(kinds(Some(router), &found, &missing), Ok(vec![router]));
    assert_eq!(kinds(Some(router), &missing, &found), Err("no key".into()));
    assert_eq!(kinds(Some(direct), &found, &found), Ok(vec![direct, router]));
    assert_eq!(free.key_name(), "");
    let mut asked = Vec::new();
    let pinned = providers(Some(router), |name: &str| {
        asked.push(name.to_owned());
        Err("no key".into())
    });
    assert!(pinned.is_err());
    assert_eq!(asked, vec!["OPENROUTER_API_KEY"]);
}

#[test]
fn clients_are_made_from_a_chain_and_a_setting() {
    let refused = "JEGREP_QUESTION_CHUNK must be a positive integer";
    assert_eq!(question_limit(&Setting::Absent), Ok(None));
    assert_eq!(question_limit(&Setting::Text("12".into())), Ok(Some(12)));
    for setting in [Setting::Garbled, Setting::Text("0".into()), Setting::Text("x".into())] {
        assert_eq!(question_limit(&setting), Err(refused.to_owned()));
    }
    let lookup = |name: &str| -> Result<String, String> { Err(format!("{name} is missing")) };
    let client = Client::new(None, "jev".into(), lookup, &Setting::Absent).unwrap();
    assert_eq!(client.providers.len(), 1);
    assert_eq!(client.active, 0);
    assert_eq!(client.model, "jev");
    assert_eq!(client.max_retries, MAX_RETRIES);
    assert_eq!(MAX_RETRIES, 6);
    assert_eq!(client.question_chunk, None);
    let error =
        Client::new(Some(Endpoint::Typesafe), "jev".into(), lookup, &Setting::Garbled).unwrap_err();
    assert_eq!(error, "TYPESAFE_API_KEY is missing");
    let error = Client::new(None, "jev".into(), lookup, &Setting::Garbled).unwrap_err();
    assert_eq!(error, refused);
}

#[test]
fn requests_carry_state_questions_and_credential() {
    let mut with_key = provider(Endpoint::Typesafe);
    with_key.auth = "Bearer k".into();
    let state = json(r#"{"path": "src", "depth": 2}"#);
    let questions = batch(vec![("b", noul("B?")), ("a", noul("A?"))]);
    let requests = system_one_keyed(&with_key, &state, &"jev".to_owned(), Some(1), &questions);
    assert_eq!(requests.len(), 2);
    for (request, key) in requests.iter().zip(["a", "b"]) {
        assert_eq!(request.url, "https://api.typesafe.ai/v1/systemone");
        assert_eq!(request.auth, "Bearer k");
        assert_eq!(request.questions.key(0), key);
        let Body::Keyed { state: sent, model } = &request.body else {
            panic!("expected a request with a key");
        };
        assert_eq!(*sent, state);
        assert_eq!(model, "jev");
    }
    let requests = classify(&provider(Endpoint::Classifier), &state, &questions);
    assert_eq!(requests.len(), 1);
    let Body::Classifier { items, tier, dimensions } = &requests[0].body else {
        panic!("expected a classifier request");
    };
    assert_eq!(*items, vec![r#"{"depth":2,"path":"src"}"#.to_owned()]);
    assert_eq!(tier, "fast");
    assert_eq!(dimensions.len(), 2);
    assert_eq!(dimensions.key(0), "a");
    assert_eq!(dimensions.value(0).instructions, "A?");
    assert_eq!(dimensions.value(0).labels, vec!["yes", "no"]);
    let error = requests[0].read(Err("not JSON".into())).unwrap_err();
    assert_eq!(error.message(), "decode: not JSON");
    let answered = requests[0].read(Ok(Decoded::Classifier(reply(vec![
        ("a", said(Some("yes"), None)),
        ("b", said(Some("no"), None)),
    ]))));
    assert_eq!(answered.unwrap().noul("b"), Some(score(0.0)));
    let said_yes = || {
        let answers = vec![("a", said(Some("yes"), None)), ("b", said(Some("yes"), None))];
        Ok(Decoded::Classifier(reply(answers)))
    };
    let answered = requests[0].settle(200, "{}", said_yes());
    assert_eq!(answered.unwrap().noul("a"), Some(score(1.0)));
    let error = requests[0].settle(503, " busy ", said_yes()).unwrap_err();
    assert_eq!(error.message(), "HTTP 503: busy");
    let error = requests[0].settle(200, "{", Err("not JSON".into())).unwrap_err();
    assert_eq!(error.message(), "decode: not JSON");
    let requests = system_one_keyed(&with_key, &state, &"jev".to_owned(), None, &questions);
    let answered = requests[0].settle(200, "{}", Ok(Decoded::Keyed(response("m", &["z"], 1, 1))));
    assert_eq!(answered.unwrap().answers.key(0), "z");
}

#[test]
fn dumps_show_the_start_and_the_length() {
    assert_eq!(dump("{}"), "──── request (2 bytes) ────\n{}\n────");
    let long = "x".repeat(6_001);
    assert_eq!(
        dump(&long),
        format!("──── request (6001 bytes) ────\n{}\n…\n────", "x".repeat(6_000))
    );
    let wide = "é".repeat(3_001);
    assert_eq!(dump(&wide), format!("──── request (6002 bytes) ────\n{wide}\n…\n────"));
}

fn opts(n: usize) -> Opts {
    Opts {
        query: "q".into(),
        parallel: n,
        batch: n,
        max_batch: n,
        thresholds: vec![score(0.4)],
        bytes: n,
        ranges: n,
        min_hits: n,
        keywords: vec!["k".into()],
    }
}

#[test]
fn options_are_moved_within_their_bounds() {
    let low = opts(0).bound();
    assert_eq!((low.parallel, low.batch, low.max_batch), (1, 1, 1));
    assert_eq!((low.bytes, low.ranges, low.min_hits), (256, 1, 1));
    let high = opts(1_000).bound();
    assert_eq!((high.parallel, high.batch, high.max_batch), (1_000, 255, 255));
    assert_eq!((high.bytes, high.ranges, high.min_hits), (1_000, 255, 1_000));
    let mut mixed = opts(64);
    mixed.max_batch = 16;
    let mixed = mixed.bound();
    assert_eq!((mixed.batch, mixed.max_batch), (16, 16));
    assert_eq!(mixed.query, "q");
    assert_eq!(mixed.keywords, vec!["k"]);
    assert_eq!(mixed.thresholds, vec![score(0.4)]);
}

#[test]
fn thresholds_must_be_probabilities() {
    let valid = |t: &[f64]| thresholds_valid(&t.iter().map(|x| score(*x)).collect());
    assert!(valid(&[0.4, 0.2]));
    assert!(valid(&[0.0, 1.0]));
    assert!(!valid(&[]));
    assert!(!valid(&[0.4, 1.5]));
    assert!(!valid(&[-0.1]));
    assert!(!valid(&[f64::NAN]));
}

#[test]
fn a_lone_positional_of_a_benchmark_is_its_path() {
    let arg = || Some("src".to_owned());
    assert_eq!(positionals(true, true, arg()), (None, arg()));
    assert_eq!(positionals(true, true, None), (None, None));
    assert_eq!(positionals(true, false, arg()), (arg(), None));
    assert_eq!(positionals(false, true, arg()), (arg(), None));
    assert!(is_query("find it"));
    assert!(!is_query(" \t\u{3000}"));
}

#[test]
fn large_batches_stay_within_what_a_classifier_takes() {
    let mut questions: SortedMap<Question> = SortedMap::new();
    for i in 0..45 {
        let words = if i % 2 == 0 { "Is it?".to_owned() } else { "\u{e9}".repeat(5_000) };
        questions.insert(format!("q{i:02}"), noul(&words));
    }
    let state = Value::String("s".repeat(40_000));
    let requests = classify(&provider(Endpoint::Classifier), &state, &questions);
    let mut asked: Vec<String> = Vec::new();
    for request in &requests {
        let Body::Classifier { items, dimensions, .. } = &request.body else {
            panic!("expected a classifier request");
        };
        assert_eq!(items.len(), 1);
        assert_eq!(items[0].chars().count(), 32_000);
        assert!((1..=20).contains(&dimensions.len()));
        let mut combined = 0;
        for (key, dimension) in dimensions.entries() {
            let length = dimension.instructions.chars().count();
            assert!(length == 6 || length == 4_000);
            assert_eq!(dimension.labels, ["yes", "no"]);
            combined += length;
            asked.push(key.clone());
        }
        assert!(combined <= 15_000);
    }
    assert_eq!(asked, (0..45).map(|i| format!("q{i:02}")).collect::<Vec<_>>());
}
