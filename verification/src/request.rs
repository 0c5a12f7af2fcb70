//! The requests that a batch of questions becomes, and how replies are read.

use vstd::prelude::*;

use crate::answer::{ClassifierResponse, Response};
#[allow(unused_imports)]
use crate::answer::{ClassifierResponseView, ResponseView};
#[allow(unused_imports)]
use crate::chunk::{batches, dimension_cut, keyed_cut, Batch};
use crate::chunk::{dimension_chunks, keyed_chunks};
use crate::error::{check_status, Error};
#[allow(unused_imports)]
use crate::error::{refusal, ErrorView};
#[allow(unused_imports)]
use crate::json::json_text;
#[allow(unused_imports)]
use crate::merge::{outcome, Outcome};
use crate::number::append_decimal;
#[allow(unused_imports)]
use crate::number::decimal;
#[allow(unused_imports)]
use crate::order::key_before;
use crate::provider::{Endpoint, Provider};
#[allow(unused_imports)]
use crate::provider::ProviderView;
use crate::question::{labels_of, question_text, state_text, Question};
#[allow(unused_imports)]
use crate::question::{QuestionView, MAX_INPUT_CHARS};
use crate::sorted::SortedMap;
#[allow(unused_imports)]
use crate::sorted::ascending;
use crate::text::cap;
#[allow(unused_imports)]
use crate::text::capped;

verus! {

/// The most characters of a request that a dump shows.
pub const MAX_DUMP_CHARS: usize = 6_000;

/// One question as a classifier takes it.
#[derive(Debug)]
pub struct Dimension {
    pub labels: Vec<String>,
    pub instructions: String,
}

/// What a [`Dimension`] holds.
pub struct DimensionView {
    pub labels: Seq<Seq<char>>,
    pub instructions: Seq<char>,
}

impl View for Dimension {
    type V = DimensionView;

    open spec fn view(&self) -> DimensionView {
        DimensionView {
            labels: self.labels@.map_values(|l: String| l@),
            instructions: self.instructions@,
        }
    }
}

/// What a request says besides its questions.
#[derive(Debug)]
pub enum Body {
    /// The state, the model and the questions as they are.
    Keyed { state: serde_json::Value, model: String },
    /// The state as the single input, and each question as a dimension.
    Classifier { items: Vec<String>, tier: String, dimensions: SortedMap<Dimension> },
}

/// What a [`Body`] holds.
pub enum BodyView {
    Keyed { state: Seq<char>, model: Seq<char> },
    Classifier {
        items: Seq<Seq<char>>,
        tier: Seq<char>,
        dimensions: Seq<(Seq<char>, DimensionView)>,
    },
}

impl View for Body {
    type V = BodyView;

    open spec fn view(&self) -> BodyView {
        match self {
            Body::Keyed { state, model } => BodyView::Keyed {
                state: json_text(*state),
                model: model@,
            },
            Body::Classifier { items, tier, dimensions } => BodyView::Classifier {
                items: items@.map_values(|s: String| s@),
                tier: tier@,
                dimensions: dimensions@,
            },
        }
    }
}

/// One request: where it goes, with which credential, and what it says.
#[derive(Debug)]
pub struct Request {
    pub url: String,
    pub auth: String,
    /// The questions that the request asks.
    pub questions: SortedMap<Question>,
    pub body: Body,
}

/// What a [`Request`] holds.
pub struct RequestView {
    pub url: Seq<char>,
    pub auth: Seq<char>,
    pub questions: Batch,
    pub body: BodyView,
}

impl View for Request {
    type V = RequestView;

    open spec fn view(&self) -> RequestView {
        RequestView {
            url: self.url@,
            auth: self.auth@,
            questions: self.questions@,
            body: self.body@,
        }
    }
}

/// What the requests hold.
pub open spec fn request_views(s: Seq<Request>) -> Seq<RequestView> {
    s.map_values(|r: Request| r@)
}

/// The questions as the dimensions of a classifier request.
pub open spec fn dimensions_of(questions: Batch) -> Seq<(Seq<char>, DimensionView)> {
    questions.map_values(
        |e: (Seq<char>, QuestionView)|
            (e.0, DimensionView { labels: e.1.labels(), instructions: e.1.text() }),
    )
}

/// The request that asks a provider with a key the questions of one chunk.
pub open spec fn keyed_request(
    provider: ProviderView,
    state: Seq<char>,
    model: Seq<char>,
    chunk: Batch,
) -> RequestView {
    RequestView {
        url: provider.url,
        auth: provider.auth,
        questions: chunk,
        body: BodyView::Keyed { state, model },
    }
}

/// The request that asks a classifier the questions of one chunk.
pub open spec fn classifier_request(
    provider: ProviderView,
    state: Seq<char>,
    chunk: Batch,
) -> RequestView {
    RequestView {
        url: provider.url,
        auth: provider.auth,
        questions: chunk,
        body: BodyView::Classifier {
            items: seq![capped(state, MAX_INPUT_CHARS as nat)],
            tier: "fast"@,
            dimensions: dimensions_of(chunk),
        },
    }
}

/// All requests that put `questions` about `state` to `provider`.
pub open spec fn requests_to(
    provider: ProviderView,
    state: Seq<char>,
    model: Seq<char>,
    limit: Option<usize>,
    questions: Batch,
) -> Seq<RequestView> {
    if provider.kind == Endpoint::Classifier {
        dimension_cut(questions).map_values(|c: Batch| classifier_request(provider, state, c))
    } else {
        keyed_cut(questions, limit).map_values(|c: Batch| keyed_request(provider, state, model, c))
    }
}

fn dimensions(questions: &SortedMap<Question>) -> (r: SortedMap<Dimension>)
    ensures
        r@ == dimensions_of(questions@),
{
    let mut r: SortedMap<Dimension> = SortedMap::new();
    let ghost s = questions@;
    proof {
        use_type_invariant(questions);
    }
    let mut i: usize = 0;
    assert(r@ =~= dimensions_of(s).take(0));
    while i < questions.len()
        invariant
            s == questions@,
            ascending(s),
            i <= s.len(),
            r@ == dimensions_of(s).take(i as int),
        decreases s.len() - i,
    {
        let question = questions.value(i);
        let shown = labels_of(question);
        let mut labels: Vec<String> = Vec::new();
        let mut j: usize = 0;
        while j < shown.len()
            invariant
                j <= shown@.len(),
                labels@.len() == j,
                forall|k: int| 0 <= k < j ==> (#[trigger] labels@[k])@ == shown@[k]@,
            decreases shown@.len() - j,
        {
            labels.push(shown[j].to_owned());
            j = j + 1;
        }
        assert(labels@.map_values(|l: String| l@) =~= shown@.map_values(|l: &str| l@));
        assert forall|k: int| 0 <= k < r@.len() implies key_before(
            (#[trigger] r@[k]).0,
            s[i as int].0,
        ) by {
            assert(r@[k].0 == s[k].0);
            assert(key_before(s[k].0, s[i as int].0));
        }
        r.push(
            questions.key(i).clone(),
            Dimension { labels, instructions: question_text(question) },
        );
        assert(r@ =~= dimensions_of(s).take(i + 1));
        i = i + 1;
    }
    assert(r@ =~= dimensions_of(s));
    r
}

/// The requests that ask a classifier: the shared state is the single input, and
/// every question an independent dimension.
pub fn classify(
    provider: &Provider,
    state: &serde_json::Value,
    questions: &SortedMap<Question>,
) -> (r: Vec<Request>)
    ensures
        request_views(r@) == dimension_cut(questions@).map_values(
            |c: Batch| classifier_request(provider@, json_text(*state), c),
        ),
{
    let input = state_text(state);
    let chunks = dimension_chunks(questions);
    let ghost cut = batches(chunks@);
    let ghost to_request = |c: Batch| classifier_request(provider@, json_text(*state), c);
    let mut r: Vec<Request> = Vec::new();
    let mut rest = chunks;
    let n: usize = rest.len();
    let mut i: usize = 0;
    while i < n
        invariant
            i <= n,
            n == cut.len(),
            rest@.len() == n - i,
            forall|j: int| 0 <= j < rest@.len() ==> (#[trigger] rest@[j])@ == cut[i + j],
            input@ == capped(json_text(*state), MAX_INPUT_CHARS as nat),
            to_request == (|c: Batch| classifier_request(provider@, json_text(*state), c)),
            r@.len() == i,
            forall|j: int| 0 <= j < i ==> (#[trigger] r@[j])@ == to_request(cut[j]),
        decreases n - i,
    {
        let chunk = rest.remove(0);
        assert(chunk@ == cut[i as int]);
        let mut items: Vec<String> = Vec::new();
        items.push(input.clone());
        assert(items@.map_values(|s: String| s@) =~= seq![input@]);
        let body = Body::Classifier {
            items,
            tier: "fast".to_owned(),
            dimensions: dimensions(&chunk),
        };
        let request = Request {
            url: provider.url.clone(),
            auth: provider.auth.clone(),
            questions: chunk,
            body,
        };
        assert(request@ == to_request(cut[i as int]));
        r.push(request);
        i = i + 1;
    }
    assert(request_views(r@) =~= cut.map_values(to_request));
    r
}

/// The requests that ask a provider with a key, cut into independent chunks where
/// `limit` asks for it.
pub fn system_one_keyed(
    provider: &Provider,
    state: &serde_json::Value,
    model: &String,
    limit: Option<usize>,
    questions: &SortedMap<Question>,
) -> (r: Vec<Request>)
    requires
        limit != Some(0usize),
    ensures
        request_views(r@) == keyed_cut(questions@, limit).map_values(
            |c: Batch| keyed_request(provider@, json_text(*state), model@, c),
        ),
{
    let chunks = keyed_chunks(questions, limit);
    let ghost cut = batches(chunks@);
    let ghost to_request = |c: Batch| keyed_request(provider@, json_text(*state), model@, c);
    let mut r: Vec<Request> = Vec::new();
    let mut rest = chunks;
    let n: usize = rest.len();
    let mut i: usize = 0;
    while i < n
        invariant
            i <= n,
            n == cut.len(),
            rest@.len() == n - i,
            forall|j: int| 0 <= j < rest@.len() ==> (#[trigger] rest@[j])@ == cut[i + j],
            to_request == (|c: Batch| keyed_request(provider@, json_text(*state), model@, c)),
            r@.len() == i,
            forall|j: int| 0 <= j < i ==> (#[trigger] r@[j])@ == to_request(cut[j]),
        decreases n - i,
    {
        let chunk = rest.remove(0);
        assert(chunk@ == cut[i as int]);
        let request = Request {
            url: provider.url.clone(),
            auth: provider.auth.clone(),
            questions: chunk,
            body: Body::Keyed { state: state.clone(), model: model.clone() },
        };
        assert(request@ == to_request(cut[i as int]));
        r.push(request);
        i = i + 1;
    }
    assert(request_views(r@) =~= cut.map_values(to_request));
    r
}

/// What the text of a reply was decoded to.
#[derive(Debug)]
pub enum Decoded {
    Keyed(Response),
    Classifier(ClassifierResponse),
}

/// What decoding a reply comes to.
pub enum DecodedView {
    Keyed(ResponseView),
    Classifier(ClassifierResponseView),
    Failed(Seq<char>),
}

/// What the outcome of decoding holds.
pub open spec fn decoded_view(r: Result<Decoded, String>) -> DecodedView {
    match r {
        Ok(Decoded::Keyed(response)) => DecodedView::Keyed(response@),
        Ok(Decoded::Classifier(response)) => DecodedView::Classifier(response@),
        Err(message) => DecodedView::Failed(message@),
    }
}

impl DecodedView {
    /// Whether the reply was decoded as a request with the given body is answered.
    pub open spec fn suits(self, body: BodyView) -> bool {
        match self {
            DecodedView::Keyed(_) => body is Keyed,
            DecodedView::Classifier(_) => body is Classifier,
            DecodedView::Failed(_) => true,
        }
    }

    /// The outcome of a request for `questions` whose reply was decoded to this.
    pub open spec fn outcome(self, questions: Batch) -> Outcome {
        match self {
            DecodedView::Keyed(response) => Ok(response),
            DecodedView::Classifier(response) => response.response(questions),
            DecodedView::Failed(message) => Err(ErrorView::Decode(message)),
        }
    }
}

impl RequestView {
    /// The outcome of the request when the reply has the given status and text, and
    /// the text was decoded to `decoded`.
    pub open spec fn settled(self, status: u16, text: Seq<char>, decoded: DecodedView) -> Outcome {
        match refusal(status, text) {
            Some(e) => Err(e),
            None => decoded.outcome(self.questions),
        }
    }
}

impl Request {
    /// The outcome of the request, given what the text of its reply was decoded
    /// to.
    pub fn read(&self, decoded: Result<Decoded, String>) -> (r: Result<Response, Error>)
        requires
            decoded_view(decoded).suits(self@.body),
        ensures
            outcome(r) == decoded_view(decoded).outcome(self@.questions),
    {
        match decoded {
            Ok(Decoded::Keyed(response)) => Ok(response),
            Ok(Decoded::Classifier(response)) => response.into_response(&self.questions),
            Err(message) => Err(Error::Decode(message)),
        }
    }

    /// The outcome of the request, given its reply and what the text of the reply
    /// was decoded to. Only a reply with status 200 is read.
    pub fn settle(&self, status: u16, text: &str, decoded: Result<Decoded, String>) -> (r: Result<
        Response,
        Error,
    >)
        requires
            decoded_view(decoded).suits(self@.body),
        ensures
            outcome(r) == self@.settled(status, text@, decoded_view(decoded)),
    {
        match check_status(status, text) {
            Err(e) => Err(e),
            Ok(_) => self.read(decoded),
        }
    }
}

/// A request with the text `pretty` as a dump shows it, shortened but with its
/// full length in bytes.
pub open spec fn dumped(pretty: Seq<char>) -> Seq<char> {
    let bytes = vstd::utf8::encode_utf8(pretty).len();
    "──── request ("@ + decimal(bytes) + " bytes) ────\n"@ + capped(
        pretty,
        MAX_DUMP_CHARS as nat,
    ) + (if bytes > MAX_DUMP_CHARS {
        "\n…"@
    } else {
        Seq::empty()
    }) + "\n────"@
}

/// A request with the text `pretty` as a dump shows it.
pub fn dump(pretty: &str) -> (r: String)
    ensures
        r@ == dumped(pretty@),
{
    let bytes: usize = pretty.as_bytes().len();
    let mut r = "──── request (".to_owned();
    append_decimal(&mut r, bytes as u64);
    r.append(" bytes) ────\n");
    r.append(cap(pretty, MAX_DUMP_CHARS).as_str());
    if bytes > MAX_DUMP_CHARS {
        r.append("\n…");
    }
    r.append("\n────");
    assert(r@ =~= dumped(pretty@));
    r
}

/// A provider with a key gets each chunk of the keyed cut in a request of its own, with its
/// credential, the state and the model as they are.
pub proof fn keyed_requests_carry_the_chunks(
    provider: ProviderView,
    state: Seq<char>,
    model: Seq<char>,
    limit: Option<usize>,
    questions: Batch,
    i: int,
)
    requires
        provider.kind == Endpoint::Openrouter || provider.kind == Endpoint::Typesafe,
    ensures
        requests_to(provider, state, model, limit, questions).len() == keyed_cut(
            questions,
            limit,
        ).len(),
        0 <= i < keyed_cut(questions, limit).len() ==> {
            let request = requests_to(provider, state, model, limit, questions)[i];
            &&& request.url == provider.url
            &&& request.auth == provider.auth
            &&& request.questions == keyed_cut(questions, limit)[i]
            &&& request.body matches BodyView::Keyed { state: sent, model: named }
            &&& sent == state
            &&& named == model
        },
{
}

/// A classifier gets each chunk of the classifier cut in a request of its own. It is asked
/// in the tier `fast`, about the first 32,000 characters of the state as the only input,
/// and has a dimension for each question: under its key, with its labels and its words.
pub proof fn classifier_requests_carry_the_chunks(
    provider: ProviderView,
    state: Seq<char>,
    model: Seq<char>,
    limit: Option<usize>,
    questions: Batch,
    i: int,
)
    requires
        provider.kind == Endpoint::Classifier,
    ensures
        requests_to(provider, state, model, limit, questions).len() == dimension_cut(
            questions,
        ).len(),
        0 <= i < dimension_cut(questions).len() ==> {
            let request = requests_to(provider, state, model, limit, questions)[i];
            let chunk = dimension_cut(questions)[i];
            &&& request.url == provider.url
            &&& request.auth == provider.auth
            &&& request.questions == chunk
            &&& request.body matches BodyView::Classifier { items, tier, dimensions }
            &&& tier == "fast"@
            &&& items.len() == 1
            &&& state.len() <= 32000 ==> items[0] == state
            &&& state.len() > 32000 ==> items[0] == state.subrange(0, 32000)
            &&& dimensions.len() == chunk.len()
            &&& forall|j: int|
                0 <= j < chunk.len() ==> {
                    let dimension = #[trigger] dimensions[j];
                    &&& dimension.0 == chunk[j].0
                    &&& dimension.1.labels == chunk[j].1.labels()
                    &&& dimension.1.instructions == chunk[j].1.text()
                }
        },
{
}

/// A reply with a status other than 200 is an error with that status. With status 200, what
/// the text was decoded to decides: a response is taken as it is, a classifier's reply is
/// held against the questions of the request, and a text that cannot be decoded is an error
/// with the reason.
pub proof fn replies_are_settled_by_status_then_text(
    request: RequestView,
    status: u16,
    text: Seq<char>,
    decoded: DecodedView,
)
    ensures
        status != 200 ==> (request.settled(status, text, decoded) matches Err(e) && (
        e matches ErrorView::Status(code, _) && code == status)),
        request.settled(200, text, decoded) == (match decoded {
            DecodedView::Keyed(response) => Ok(response),
            DecodedView::Classifier(reply) => reply.response(request.questions),
            DecodedView::Failed(message) => Err(ErrorView::Decode(message)),
        }),
        decoded is Keyed ==> decoded.suits(request.body) == (request.body is Keyed),
        decoded is Classifier ==> decoded.suits(request.body) == (request.body is Classifier),
        decoded is Failed ==> decoded.suits(request.body),
{
}

/// A dump shows the length of a request in bytes and its first 6,000 characters, with an
/// ellipsis on a line of its own where there are more bytes than that.
pub proof fn dumps_show_length_and_start(pretty: Seq<char>)
    ensures
        ({
            let bytes = vstd::utf8::encode_utf8(pretty).len();
            let start = if pretty.len() > 6000 {
                pretty.subrange(0, 6000)
            } else {
                pretty
            };
            let more = if bytes > 6000 {
                "\n…"@
            } else {
                Seq::empty()
            };
            dumped(pretty) == "──── request ("@ + decimal(bytes) + " bytes) ────\n"@ + start + more
                + "\n────"@
        }),
{
}

/// Requests are seen with all that they hold, one by one and in order.
pub proof fn request_views_show_all(s: Seq<Request>, i: int, decoded: Result<Decoded, String>)
    ensures
        request_views(s).len() == s.len(),
        0 <= i < s.len() ==> {
            let r = s[i];
            let v = request_views(s)[i];
            &&& v.url == r.url@
            &&& v.auth == r.auth@
            &&& v.questions == r.questions@
            &&& match r.body {
                Body::Keyed { state, model } => {
                    &&& v.body matches BodyView::Keyed { state: sent, model: named }
                    &&& sent == json_text(state)
                    &&& named == model@
                },
                Body::Classifier { items, tier, dimensions } => {
                    &&& v.body matches BodyView::Classifier { items: t, tier: n, dimensions: d }
                    &&& t.len() == items@.len()
                    &&& forall|j: int| 0 <= j < items@.len() ==> #[trigger] t[j] == items@[j]@
                    &&& n == tier@
                    &&& d == dimensions@
                },
            }
        },
        match decoded {
            Ok(Decoded::Keyed(response)) => decoded_view(decoded) == DecodedView::Keyed(response@),
            Ok(Decoded::Classifier(reply)) => decoded_view(decoded) == DecodedView::Classifier(
                reply@,
            ),
            Err(message) => decoded_view(decoded) == DecodedView::Failed(message@),
        },
{
}

/// A dimension is seen with its labels, in order, and its words.
pub proof fn dimension_view_shows_all(dimension: Dimension, i: int)
    ensures
        dimension@.labels.len() == dimension.labels@.len(),
        0 <= i < dimension.labels@.len() ==> dimension@.labels[i] == dimension.labels@[i]@,
        dimension@.instructions == dimension.instructions@,
{
}

} // verus!
