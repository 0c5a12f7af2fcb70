//! Answers, and how a classifier's reply becomes answers.

use vstd::prelude::*;

#[allow(unused_imports)]
use crate::chunk::Batch;
use crate::error::Error;
#[allow(unused_imports)]
use crate::error::ErrorView;
#[allow(unused_imports)]
use crate::order::key_before;
use crate::order::{relate, Relation};
use crate::question::Question;
#[allow(unused_imports)]
use crate::question::QuestionView;
use crate::score::{Score, HALF_BITS, ONE_BITS, ZERO_BITS};
use crate::sorted::SortedMap;
#[allow(unused_imports)]
use crate::sorted::{as_map, ascending, has_key, lemma_value_at};

verus! {

/// Tokens that requests took.
#[derive(Clone, Copy, Debug, PartialEq, Eq, Structural)]
pub struct Usage {
    pub input_tokens: u64,
    pub output_tokens: u64,
}

impl Usage {
    /// Whether the two usages can be added up.
    pub open spec fn fits(self, other: Usage) -> bool {
        &&& self.input_tokens + other.input_tokens <= u64::MAX
        &&& self.output_tokens + other.output_tokens <= u64::MAX
    }

    /// The tokens of both.
    pub open spec fn plus(self, other: Usage) -> Usage {
        Usage {
            input_tokens: (self.input_tokens + other.input_tokens) as u64,
            output_tokens: (self.output_tokens + other.output_tokens) as u64,
        }
    }

    /// Whether the two usages can be added up.
    pub fn can_add(&self, other: &Usage) -> (b: bool)
        ensures
            b == self.fits(*other),
    {
        self.input_tokens <= u64::MAX - other.input_tokens && self.output_tokens <= u64::MAX
            - other.output_tokens
    }
}

impl Default for Usage {
    fn default() -> (r: Self)
        ensures
            r == (Usage { input_tokens: 0, output_tokens: 0 }),
    {
        Usage { input_tokens: 0, output_tokens: 0 }
    }
}

/// The answer to one question.
#[derive(Debug)]
pub enum Answer {
    Noul { noul: Score },
    Choice { choice: String, probabilities: SortedMap<Score>, confidence: Score },
    Score { score: Score },
}

/// What an [`Answer`] holds.
pub enum AnswerView {
    Noul { noul: Score },
    Choice { choice: Seq<char>, probabilities: Seq<(Seq<char>, Score)>, confidence: Score },
    Score { score: Score },
}

impl View for Answer {
    type V = AnswerView;

    open spec fn view(&self) -> AnswerView {
        match self {
            Answer::Noul { noul } => AnswerView::Noul { noul: *noul },
            Answer::Choice { choice, probabilities, confidence } => AnswerView::Choice {
                choice: choice@,
                probabilities: probabilities@,
                confidence: *confidence,
            },
            Answer::Score { score } => AnswerView::Score { score: *score },
        }
    }
}

/// The answers to a batch of questions, under the keys of the questions.
#[derive(Debug)]
pub struct Response {
    pub model: String,
    pub answers: SortedMap<Answer>,
    pub usage: Usage,
}

/// What a [`Response`] holds.
pub struct ResponseView {
    pub model: Seq<char>,
    pub answers: Map<Seq<char>, AnswerView>,
    pub usage: Usage,
}

impl View for Response {
    type V = ResponseView;

    open spec fn view(&self) -> ResponseView {
        ResponseView { model: self.model@, answers: as_map(self.answers@), usage: self.usage }
    }
}

impl ResponseView {
    /// The response of a call that asked nothing.
    pub open spec fn blank() -> ResponseView {
        ResponseView {
            model: Seq::empty(),
            answers: Map::empty(),
            usage: Usage { input_tokens: 0, output_tokens: 0 },
        }
    }

    /// The probability of yes under `key`, where a yes-or-no answer stands.
    pub open spec fn noul(self, key: Seq<char>) -> Option<Score> {
        if self.answers.dom().contains(key) {
            match self.answers[key] {
                AnswerView::Noul { noul } => Some(noul),
                _ => None,
            }
        } else {
            None
        }
    }

    /// The distribution and the confidence under `key`, where a choice stands.
    pub open spec fn choice(self, key: Seq<char>) -> Option<(Seq<(Seq<char>, Score)>, Score)> {
        if self.answers.dom().contains(key) {
            match self.answers[key] {
                AnswerView::Choice { probabilities, confidence, .. } => Some(
                    (probabilities, confidence),
                ),
                _ => None,
            }
        } else {
            None
        }
    }
}

impl Default for Response {
    fn default() -> (r: Self)
        ensures
            r@ == ResponseView::blank(),
    {
        let r = Response { model: String::new(), answers: SortedMap::new(), usage: Usage::default() };
        assert(as_map(r.answers@) =~= Map::empty());
        r
    }
}

impl Response {
    /// The probability of yes under `key`.
    pub fn noul(&self, key: &str) -> (r: Option<Score>)
        ensures
            r == self@.noul(key@),
    {
        match self.answers.get(key) {
            Some(Answer::Noul { noul }) => Some(*noul),
            _ => None,
        }
    }

    /// The distribution over the options under `key`, and the confidence.
    pub fn choice(&self, key: &str) -> (r: Option<(&SortedMap<Score>, Score)>)
        ensures
            match r {
                Some((probabilities, confidence)) => self@.choice(key@) == Some(
                    (probabilities@, confidence),
                ),
                None => self@.choice(key@) is None,
            },
    {
        match self.answers.get(key) {
            Some(Answer::Choice { probabilities, confidence, .. }) => Some(
                (probabilities, *confidence),
            ),
            _ => None,
        }
    }
}

/// What a classifier says of one dimension.
#[derive(Debug)]
pub struct ClassifierAnswer {
    pub label: Option<String>,
    pub confidence: Option<Score>,
    pub scores: Option<SortedMap<Option<Score>>>,
}

/// What a [`ClassifierAnswer`] holds.
pub struct ClassifierAnswerView {
    pub label: Option<Seq<char>>,
    pub confidence: Option<Score>,
    pub scores: Option<Seq<(Seq<char>, Option<Score>)>>,
}

impl View for ClassifierAnswer {
    type V = ClassifierAnswerView;

    open spec fn view(&self) -> ClassifierAnswerView {
        ClassifierAnswerView {
            label: match self.label {
                Some(l) => Some(l@),
                None => None,
            },
            confidence: self.confidence,
            scores: match self.scores {
                Some(s) => Some(s@),
                None => None,
            },
        }
    }
}

/// The dimensions of one classified input.
#[derive(Debug)]
pub struct ClassifierResult {
    pub dimensions: SortedMap<ClassifierAnswer>,
}

/// A classifier's reply: one result for each input.
#[derive(Debug)]
pub struct ClassifierResponse {
    pub model: String,
    pub results: Vec<ClassifierResult>,
}

/// What a [`ClassifierResponse`] holds.
pub struct ClassifierResponseView {
    pub model: Seq<char>,
    pub results: Seq<Seq<(Seq<char>, ClassifierAnswerView)>>,
}

impl View for ClassifierResponse {
    type V = ClassifierResponseView;

    open spec fn view(&self) -> ClassifierResponseView {
        ClassifierResponseView {
            model: self.model@,
            results: self.results@.map_values(|r: ClassifierResult| r.dimensions@),
        }
    }
}

/// The scores that are numbers, in order.
pub open spec fn given_scores(s: Seq<(Seq<char>, Option<Score>)>) -> Seq<(Seq<char>, Score)>
    decreases s.len(),
{
    if s.len() == 0 {
        Seq::empty()
    } else {
        match s.last().1 {
            Some(v) => given_scores(s.drop_last()).push((s.last().0, v)),
            None => given_scores(s.drop_last()),
        }
    }
}

impl ClassifierAnswerView {
    /// The share of yes, where the classifier gave it as a number.
    pub open spec fn yes_share(self) -> Option<Score> {
        match self.scores {
            Some(s) => if has_key(s, "yes"@) {
                as_map(s)["yes"@]
            } else {
                None
            },
            None => None,
        }
    }

    /// The probability of yes: the share of yes, or certainty by the label, or
    /// even odds.
    pub open spec fn probability(self) -> Score {
        match self.yes_share() {
            Some(p) => p,
            None => match self.label {
                Some(l) => if l == "yes"@ {
                    Score { bits: ONE_BITS }
                } else if l == "no"@ {
                    Score { bits: ZERO_BITS }
                } else {
                    Score { bits: HALF_BITS }
                },
                None => Score { bits: HALF_BITS },
            },
        }
    }

    /// The answer to `question` that this dimension gives.
    pub open spec fn answer(self, question: QuestionView) -> AnswerView {
        match question {
            QuestionView::Noul { .. } => AnswerView::Noul { noul: self.probability() },
            QuestionView::Choice { .. } => AnswerView::Choice {
                choice: match self.label {
                    Some(l) => l,
                    None => Seq::empty(),
                },
                probabilities: match self.scores {
                    Some(s) => given_scores(s),
                    None => Seq::empty(),
                },
                confidence: match self.confidence {
                    Some(c) => c,
                    None => Score { bits: ZERO_BITS },
                },
            },
        }
    }
}

/// The first question, in order, that the dimensions leave out.
pub open spec fn first_missing(
    questions: Batch,
    dimensions: Seq<(Seq<char>, ClassifierAnswerView)>,
) -> Option<Seq<char>>
    decreases questions.len(),
{
    if questions.len() == 0 {
        None
    } else if !has_key(dimensions, questions[0].0) {
        Some(questions[0].0)
    } else {
        first_missing(questions.drop_first(), dimensions)
    }
}

/// The answers that the dimensions give to the questions.
pub open spec fn answered(
    questions: Batch,
    dimensions: Seq<(Seq<char>, ClassifierAnswerView)>,
) -> Seq<(Seq<char>, AnswerView)> {
    questions.map_values(
        |e: (Seq<char>, QuestionView)| (e.0, as_map(dimensions)[e.0].answer(e.1)),
    )
}

impl ClassifierResponseView {
    /// The response to `questions`: the first result must have a dimension for
    /// each of them. A classifier is free of charge, so no tokens are counted.
    pub open spec fn response(self, questions: Batch) -> Result<ResponseView, ErrorView> {
        if self.results.len() == 0 {
            Err(ErrorView::Decode("classifier response has no results"@))
        } else {
            match first_missing(questions, self.results[0]) {
                Some(key) => Err(ErrorView::Decode("classifier response is missing "@ + key)),
                None => Ok(
                    ResponseView {
                        model: self.model,
                        answers: as_map(answered(questions, self.results[0])),
                        usage: Usage { input_tokens: 0, output_tokens: 0 },
                    },
                ),
            }
        }
    }
}

proof fn lemma_first_missing(
    questions: Batch,
    dimensions: Seq<(Seq<char>, ClassifierAnswerView)>,
    i: int,
)
    requires
        0 <= i <= questions.len(),
        forall|j: int| 0 <= j < i ==> has_key(dimensions, (#[trigger] questions[j]).0),
    ensures
        i < questions.len() && !has_key(dimensions, questions[i].0) ==> first_missing(
            questions,
            dimensions,
        ) == Some(questions[i].0),
        i == questions.len() ==> first_missing(questions, dimensions) is None,
    decreases i,
{
    if i > 0 {
        let rest = questions.drop_first();
        assert(has_key(dimensions, questions[0].0));
        assert forall|j: int| 0 <= j < i - 1 implies has_key(
            dimensions,
            (#[trigger] rest[j]).0,
        ) by {
            assert(rest[j] == questions[j + 1]);
        }
        lemma_first_missing(rest, dimensions, i - 1);
    }
}

fn copy_given_scores(scores: &SortedMap<Option<Score>>) -> (r: SortedMap<Score>)
    ensures
        r@ == given_scores(scores@),
{
    let mut r: SortedMap<Score> = SortedMap::new();
    let mut i: usize = 0;
    proof {
        use_type_invariant(scores);
    }
    assert(scores@.take(0) =~= Seq::empty());
    while i < scores.len()
        invariant
            i <= scores@.len(),
            ascending(scores@),
            r@ == given_scores(scores@.take(i as int)),
            forall|j: int, m: int|
                0 <= j < r@.len() && i <= m < scores@.len() ==> key_before(
                    (#[trigger] r@[j]).0,
                    (#[trigger] scores@[m]).0,
                ),
        decreases scores@.len() - i,
    {
        assert(scores@.take(i + 1).drop_last() =~= scores@.take(i as int));
        assert(scores@.take(i + 1).last() == scores@[i as int]);
        match scores.value(i) {
            Some(v) => {
                let ghost earlier = r@;
                r.push(scores.key(i).clone(), *v);
                assert forall|j: int, m: int|
                    0 <= j < r@.len() && i + 1 <= m < scores@.len() implies key_before(
                    (#[trigger] r@[j]).0,
                    (#[trigger] scores@[m]).0,
                ) by {
                    if j < earlier.len() {
                        assert(r@[j] == earlier[j]);
                    } else {
                        assert(key_before(scores@[i as int].0, scores@[m].0));
                    }
                }
            },
            None => {},
        }
        i = i + 1;
    }
    assert(scores@.take(i as int) =~= scores@);
    r
}

impl ClassifierAnswer {
    /// The probability of yes.
    fn read_probability(&self) -> (r: Score)
        ensures
            r == self@.probability(),
    {
        let share: Option<Score> = match &self.scores {
            Some(s) => match s.get("yes") {
                Some(v) => *v,
                None => None,
            },
            None => None,
        };
        match share {
            Some(p) => p,
            None => match &self.label {
                Some(l) => if relate(l.as_str(), "yes") == Relation::Same {
                    Score { bits: ONE_BITS }
                } else if relate(l.as_str(), "no") == Relation::Same {
                    Score { bits: ZERO_BITS }
                } else {
                    Score { bits: HALF_BITS }
                },
                None => Score { bits: HALF_BITS },
            },
        }
    }

    /// The answer to `question` that this dimension gives.
    pub fn read_answer(&self, question: &Question) -> (r: Answer)
        ensures
            r@ == self@.answer(question@),
    {
        match question {
            Question::Noul { .. } => Answer::Noul { noul: self.read_probability() },
            Question::Choice { .. } => Answer::Choice {
                choice: match &self.label {
                    Some(l) => l.clone(),
                    None => String::new(),
                },
                probabilities: match &self.scores {
                    Some(s) => copy_given_scores(s),
                    None => SortedMap::new(),
                },
                confidence: match self.confidence {
                    Some(c) => c,
                    None => Score { bits: ZERO_BITS },
                },
            },
        }
    }
}

impl ClassifierResponse {
    /// The response to `questions` that the first result gives.
    pub fn into_response(self, questions: &SortedMap<Question>) -> (r: Result<Response, Error>)
        ensures
            match r {
                Ok(response) => self@.response(questions@) == Ok::<ResponseView, ErrorView>(
                    response@,
                ),
                Err(e) => self@.response(questions@) == Err::<ResponseView, ErrorView>(e@),
            },
    {
        if self.results.len() == 0 {
            return Err(Error::Decode("classifier response has no results".to_owned()));
        }
        let dimensions = &self.results[0].dimensions;
        let ghost d = self@.results[0];
        assert(d == dimensions@);
        let mut answers: SortedMap<Answer> = SortedMap::new();
        let ghost s = questions@;
        proof {
            use_type_invariant(questions);
        }
        let mut i: usize = 0;
        while i < questions.len()
            invariant
                s == questions@,
                ascending(s),
                d == dimensions@,
                self@.results.len() > 0,
                d == self@.results[0],
                i <= s.len(),
                forall|j: int| 0 <= j < i ==> has_key(d, (#[trigger] s[j]).0),
                answers@ == answered(s, d).take(i as int),
            decreases s.len() - i,
        {
            let key = questions.key(i);
            match dimensions.get(key.as_str()) {
                None => {
                    proof {
                        lemma_first_missing(s, d, i as int);
                    }
                    let mut message = "classifier response is missing ".to_owned();
                    message.append(key.as_str());
                    return Err(Error::Decode(message));
                },
                Some(answer) => {
                    assert forall|j: int| 0 <= j < answers@.len() implies key_before(
                        (#[trigger] answers@[j]).0,
                        s[i as int].0,
                    ) by {
                        assert(answers@[j].0 == s[j].0);
                        assert(key_before(s[j].0, s[i as int].0));
                    }
                    answers.push(key.clone(), answer.read_answer(questions.value(i)));
                    assert(answers@ =~= answered(s, d).take(i + 1));
                },
            }
            i = i + 1;
        }
        proof {
            lemma_first_missing(s, d, i as int);
        }
        assert(answers@ =~= answered(s, d));
        Ok(Response { model: self.model, answers, usage: Usage::default() })
    }
}

/// Tokens add up, where the sums are below two to the power of 64.
pub proof fn usages_add_up(a: Usage, b: Usage)
    ensures
        a.fits(b) <==> a.input_tokens + b.input_tokens < 0x1_0000_0000_0000_0000 && a.output_tokens
            + b.output_tokens < 0x1_0000_0000_0000_0000,
        a.fits(b) ==> a.plus(b).input_tokens == a.input_tokens + b.input_tokens,
        a.fits(b) ==> a.plus(b).output_tokens == a.output_tokens + b.output_tokens,
{
}

/// A blank response names no model, answers nothing and costs nothing.
pub proof fn blank_response_is_empty(key: Seq<char>)
    ensures
        ResponseView::blank().model.len() == 0,
        !ResponseView::blank().answers.dom().contains(key),
        ResponseView::blank().usage.input_tokens == 0,
        ResponseView::blank().usage.output_tokens == 0,
{
}

/// A probability is read where a yes-or-no answer stands under the key, a distribution
/// where a choice does, and each is what the answer says.
pub proof fn answers_are_read_by_kind(response: ResponseView, key: Seq<char>)
    ensures
        !response.answers.dom().contains(key) ==> response.noul(key) is None && response.choice(
            key,
        ) is None,
        response.answers.dom().contains(key) ==> match response.answers[key] {
            AnswerView::Noul { noul } => response.noul(key) == Some(noul) && response.choice(
                key,
            ) is None,
            AnswerView::Choice { probabilities, confidence, .. } => response.noul(key) is None
                && response.choice(key) == Some((probabilities, confidence)),
            AnswerView::Score { .. } => response.noul(key) is None && response.choice(key) is None,
        },
{
}

proof fn lemma_given_scores(s: Seq<(Seq<char>, Option<Score>)>)
    requires
        ascending(s),
    ensures
        ascending(given_scores(s)),
        forall|i: int|
            #![trigger s[i]]
            0 <= i < s.len() && s[i].1 is Some ==> given_scores(s).contains((s[i].0, s[i].1->0)),
        forall|j: int|
            0 <= j < given_scores(s).len() ==> s.contains(
                ((#[trigger] given_scores(s)[j]).0, Some(given_scores(s)[j].1)),
            ),
    decreases s.len(),
{
    if s.len() > 0 {
        let rest = s.drop_last();
        let before = given_scores(rest);
        let given = given_scores(s);
        assert(ascending(rest)) by {
            assert forall|x: int, y: int| 0 <= x < y < rest.len() implies key_before(
                #[trigger] rest[x].0,
                #[trigger] rest[y].0,
            ) by {
                assert(key_before(s[x].0, s[y].0));
            }
        }
        lemma_given_scores(rest);
        assert forall|j: int| 0 <= j < given.len() implies s.contains(
            ((#[trigger] given[j]).0, Some(given[j].1)),
        ) by {
            if j < before.len() {
                assert(given[j] == before[j]);
                let wanted = (before[j].0, Some(before[j].1));
                let i = choose|i: int| 0 <= i < rest.len() && rest[i] == wanted;
                assert(s[i] == wanted);
            } else {
                assert(s[s.len() - 1] == (given[j].0, Some(given[j].1)));
            }
        }
        assert forall|i: int|
            #![trigger s[i]]
            0 <= i < s.len() && s[i].1 is Some implies given.contains((s[i].0, s[i].1->0)) by {
            if i < rest.len() {
                let wanted = (rest[i].0, rest[i].1->0);
                assert(before.contains(wanted));
                let j = choose|j: int| 0 <= j < before.len() && before[j] == wanted;
                assert(given[j] == wanted);
            } else {
                assert(given[before.len() as int] == (s[i].0, s[i].1->0));
            }
        }
        assert forall|x: int, y: int| 0 <= x < y < given.len() implies key_before(
            #[trigger] given[x].0,
            #[trigger] given[y].0,
        ) by {
            assert(given[x] == before[x]);
            if y < before.len() {
                assert(given[y] == before[y]);
            } else {
                let wanted = (before[x].0, Some(before[x].1));
                assert(rest.contains(wanted));
                let i = choose|i: int| 0 <= i < rest.len() && rest[i] == wanted;
                assert(key_before(s[i].0, s[s.len() - 1].0));
            }
        }
    }
}

/// The answer to a choice keeps every score that is a number, under its own label, and no
/// other. It names the label of the reply and its confidence, or an empty label and a
/// confidence of zero where the reply leaves them out.
pub proof fn choice_keeps_every_number(
    reply: ClassifierAnswerView,
    question: QuestionView,
    label: Seq<char>,
)
    requires
        question is Choice,
        reply.scores matches Some(s) ==> ascending(s),
    ensures
        reply.answer(question) matches AnswerView::Choice { choice, probabilities, confidence } && {
            &&& match reply.scores {
                Some(s) => {
                    &&& as_map(probabilities).dom().contains(label) <==> as_map(s).dom().contains(
                        label,
                    ) && as_map(s)[label] is Some
                    &&& as_map(probabilities).dom().contains(label) ==> as_map(s)[label] == Some(
                        as_map(probabilities)[label],
                    )
                    &&& ascending(probabilities)
                },
                None => probabilities.len() == 0,
            }
            &&& reply.label matches Some(l) ==> choice == l
            &&& reply.label is None ==> choice.len() == 0
            &&& reply.confidence matches Some(c) ==> confidence == c
            &&& reply.confidence is None ==> confidence.bits == 0
        },
{
    if let Some(s) = reply.scores {
        let given = given_scores(s);
        lemma_given_scores(s);
        if has_key(given, label) {
            let j = choose|j: int| 0 <= j < given.len() && #[trigger] given[j].0 == label;
            let wanted = (given[j].0, Some(given[j].1));
            assert(s.contains(wanted));
            let i = choose|i: int| 0 <= i < s.len() && s[i] == wanted;
            lemma_value_at(given, j);
            lemma_value_at(s, i);
        }
        if has_key(s, label) && as_map(s)[label] is Some {
            let i = choose|i: int| 0 <= i < s.len() && #[trigger] s[i].0 == label;
            lemma_value_at(s, i);
            let wanted = (s[i].0, s[i].1->0);
            assert(given.contains(wanted));
            let j = choose|j: int| 0 <= j < given.len() && given[j] == wanted;
            assert(given[j].0 == label);
        }
    }
}

/// The answer to a yes-or-no question is the score of yes if that is a number. Without it,
/// the label decides: one for yes, zero for no, and a half for anything else.
pub proof fn yes_or_no_goes_by_score_then_label(reply: ClassifierAnswerView, question: QuestionView)
    requires
        question is Noul,
    ensures
        reply.answer(question) matches AnswerView::Noul { noul } && ({
            let share = match reply.scores {
                Some(s) => if as_map(s).dom().contains("yes"@) {
                    as_map(s)["yes"@]
                } else {
                    None
                },
                None => None,
            };
            &&& share matches Some(p) ==> noul == p
            &&& share is None && reply.label == Some("yes"@) ==> noul.bits == 0x3FF0_0000_0000_0000
            &&& share is None && reply.label == Some("no"@) ==> noul.bits == 0
            &&& share is None && reply.label != Some("yes"@) && reply.label != Some("no"@)
                ==> noul.bits == 0x3FE0_0000_0000_0000
        }),
{
    reveal_strlit("yes");
    reveal_strlit("no");
    assert("yes"@.len() == 3);
    assert("no"@.len() == 2);
}

proof fn lemma_none_missing(
    questions: Batch,
    dimensions: Seq<(Seq<char>, ClassifierAnswerView)>,
)
    ensures
        first_missing(questions, dimensions) is None <==> forall|i: int|
            0 <= i < questions.len() ==> has_key(dimensions, (#[trigger] questions[i]).0),
    decreases questions.len(),
{
    if questions.len() > 0 {
        let rest = questions.drop_first();
        lemma_none_missing(rest, dimensions);
        if first_missing(questions, dimensions) is None {
            assert forall|i: int| 0 <= i < questions.len() implies has_key(
                dimensions,
                (#[trigger] questions[i]).0,
            ) by {
                if i > 0 {
                    assert(rest[i - 1] == questions[i]);
                }
            }
        }
        if forall|i: int|
            0 <= i < questions.len() ==> has_key(dimensions, (#[trigger] questions[i]).0) {
            assert(has_key(dimensions, questions[0].0));
            assert forall|i: int| 0 <= i < rest.len() implies has_key(
                dimensions,
                (#[trigger] rest[i]).0,
            ) by {
                assert(rest[i] == questions[i + 1]);
            }
        }
    }
}

/// A reply without results is refused. Otherwise the first result alone counts: it is
/// accepted exactly if it has every question's key, and then each question is answered by
/// what stands under its own key, with the model of the reply and no tokens.
pub proof fn first_result_answers_by_key(
    reply: ClassifierResponseView,
    questions: Batch,
    i: int,
    j: int,
)
    requires
        ascending(questions),
        reply.results.len() > 0 ==> ascending(reply.results[0]),
    ensures
        reply.results.len() == 0 ==> reply.response(questions) == Err::<ResponseView, ErrorView>(
            ErrorView::Decode("classifier response has no results"@),
        ),
        reply.results.len() > 0 ==> (reply.response(questions) is Ok <==> forall|q: int|
            0 <= q < questions.len() ==> as_map(reply.results[0]).dom().contains(
                (#[trigger] questions[q]).0,
            )),
        reply.response(questions) matches Ok(r) ==> {
            &&& r.model == reply.model
            &&& r.usage.input_tokens == 0 && r.usage.output_tokens == 0
            &&& 0 <= i < questions.len() && 0 <= j < reply.results[0].len() && questions[i].0
                == reply.results[0][j].0 ==> r.answers.dom().contains(questions[i].0)
                && r.answers[questions[i].0] == reply.results[0][j].1.answer(questions[i].1)
        },
{
    if reply.results.len() > 0 {
        let d = reply.results[0];
        lemma_none_missing(questions, d);
        if 0 <= i < questions.len() && 0 <= j < d.len() && questions[i].0 == d[j].0 {
            let all = answered(questions, d);
            assert(ascending(all)) by {
                assert forall|x: int, y: int| 0 <= x < y < all.len() implies key_before(
                    #[trigger] all[x].0,
                    #[trigger] all[y].0,
                ) by {
                    assert(key_before(questions[x].0, questions[y].0));
                }
            }
            lemma_value_at(all, i);
            lemma_value_at(d, j);
            assert(all[i].0 == questions[i].0);
        }
    }
}

/// A reply that leaves questions out is refused with the key of the first of them.
pub proof fn first_question_left_out_is_named(
    reply: ClassifierResponseView,
    questions: Batch,
    i: int,
)
    requires
        reply.results.len() > 0,
        0 <= i < questions.len(),
        !as_map(reply.results[0]).dom().contains(questions[i].0),
        forall|q: int|
            0 <= q < i ==> as_map(reply.results[0]).dom().contains((#[trigger] questions[q]).0),
    ensures
        reply.response(questions) == Err::<ResponseView, ErrorView>(
            ErrorView::Decode("classifier response is missing "@ + questions[i].0),
        ),
{
    assert forall|q: int| 0 <= q < i implies has_key(
        reply.results[0],
        (#[trigger] questions[q]).0,
    ) by {
        assert(as_map(reply.results[0]).dom().contains(questions[q].0));
    }
    lemma_first_missing(questions, reply.results[0], i);
}

/// Answers and responses are seen with all that they hold.
pub proof fn response_view_shows_all(answer: Answer, response: Response)
    ensures
        match answer {
            Answer::Noul { noul } => answer@ matches AnswerView::Noul { noul: n } && n == noul,
            Answer::Choice { choice, probabilities, confidence } => {
                &&& answer@ matches AnswerView::Choice { choice: c, probabilities: p, confidence: f }
                &&& c == choice@
                &&& p == probabilities@
                &&& f == confidence
            },
            Answer::Score { score } => answer@ matches AnswerView::Score { score: s } && s == score,
        },
        response@.model == response.model@,
        response@.answers == as_map(response.answers@),
        response@.usage == response.usage,
{
}

/// A classifier's reply is seen with all that it holds.
pub proof fn reply_view_shows_all(
    answer: ClassifierAnswer,
    reply: ClassifierResponse,
    i: int,
)
    ensures
        answer.label matches Some(l) ==> answer@.label == Some(l@),
        answer.label is None ==> answer@.label is None,
        answer@.confidence == answer.confidence,
        answer.scores matches Some(s) ==> answer@.scores == Some(s@),
        answer.scores is None ==> answer@.scores is None,
        reply@.model == reply.model@,
        reply@.results.len() == reply.results@.len(),
        0 <= i < reply.results@.len() ==> reply@.results[i] == reply.results@[i].dimensions@,
{
}

} // verus!
