//! The client: its settings, and what it does with a batch of questions.

use vstd::prelude::*;

#[allow(unused_imports)]
use crate::chunk::Batch;
use crate::error::Error;
#[allow(unused_imports)]
use crate::error::ErrorView;
use crate::failover::Failover;
#[allow(unused_imports)]
use crate::failover::{plan, FailoverView};
#[allow(unused_imports)]
use crate::json::json_text;
use crate::number::parse_usize;
#[allow(unused_imports)]
use crate::number::parsed_usize;
#[allow(unused_imports)]
use crate::provider::{asks, chain, chain_view, key_view, provider_views, ProviderView};
use crate::provider::{providers, Endpoint, Provider};
use crate::question::Question;
use crate::request::{classify, system_one_keyed, Request};
#[allow(unused_imports)]
use crate::request::{request_views, requests_to};
use crate::retry::Post;
#[allow(unused_imports)]
use crate::retry::PostView;
use crate::sorted::SortedMap;

verus! {

/// How often a request is sent again at most.
pub const MAX_RETRIES: u32 = 6;

/// A setting that the surroundings may give.
#[derive(Debug)]
pub enum Setting {
    Absent,
    /// Set to something that is no text.
    Garbled,
    Text(String),
}

/// What a [`Setting`] holds.
pub enum SettingView {
    Absent,
    Garbled,
    Text(Seq<char>),
}

impl View for Setting {
    type V = SettingView;

    open spec fn view(&self) -> SettingView {
        match self {
            Setting::Absent => SettingView::Absent,
            Setting::Garbled => SettingView::Garbled,
            Setting::Text(s) => SettingView::Text(s@),
        }
    }
}

impl SettingView {
    /// The most questions of one request that the setting allows: no limit where
    /// it is absent, and otherwise a positive integer.
    pub open spec fn question_limit(self) -> Result<Option<usize>, Seq<char>> {
        let refused = Err("JEGREP_QUESTION_CHUNK must be a positive integer"@);
        match self {
            SettingView::Absent => Ok(None),
            SettingView::Garbled => refused,
            SettingView::Text(s) => match parsed_usize(s) {
                Some(n) => if n > 0 {
                    Ok(Some(n))
                } else {
                    refused
                },
                None => refused,
            },
        }
    }
}

/// Reads the most questions of one request from the setting.
pub fn question_limit(setting: &Setting) -> (r: Result<Option<usize>, String>)
    ensures
        match r {
            Ok(limit) => setting@.question_limit() == Ok::<Option<usize>, Seq<char>>(limit),
            Err(e) => setting@.question_limit() == Err::<Option<usize>, Seq<char>>(e@),
        },
{
    match setting {
        Setting::Absent => Ok(None),
        Setting::Garbled => Err("JEGREP_QUESTION_CHUNK must be a positive integer".to_owned()),
        Setting::Text(s) => {
            let n: usize = match parse_usize(s.as_str()) {
                Some(n) => n,
                None => 0,
            };
            if n > 0 {
                Ok(Some(n))
            } else {
                Err("JEGREP_QUESTION_CHUNK must be a positive integer".to_owned())
            }
        },
    }
}

/// The providers that may be asked, and how they are asked.
#[derive(Debug)]
pub struct Client {
    pub providers: Vec<Provider>,
    /// The place of the provider that answered last.
    pub active: usize,
    pub model: String,
    pub max_retries: u32,
    /// The most yes-or-no questions of one request to a provider with a key. At
    /// most two requests of a call are in flight, so a search that makes `p` calls
    /// at once makes up to `2 * p` requests at once. Choices and mixed batches
    /// stay whole.
    pub question_chunk: Option<usize>,
}

/// What a [`Client`] holds.
pub struct ClientView {
    pub providers: Seq<ProviderView>,
    pub active: int,
    pub model: Seq<char>,
    pub max_retries: nat,
    pub question_chunk: Option<usize>,
}

impl View for Client {
    type V = ClientView;

    open spec fn view(&self) -> ClientView {
        ClientView {
            providers: provider_views(self.providers@),
            active: self.active as int,
            model: self.model@,
            max_retries: self.max_retries as nat,
            question_chunk: self.question_chunk,
        }
    }
}

impl ClientView {
    /// One of the providers is active, and a limit on questions is positive.
    pub open spec fn wf(self) -> bool {
        &&& 0 <= self.active < self.providers.len()
        &&& self.question_chunk != Some(0usize)
    }

    /// The client with the given chain and setting.
    pub open spec fn made(
        chain: Result<Seq<ProviderView>, Seq<char>>,
        model: Seq<char>,
        chunk: SettingView,
    ) -> Result<ClientView, Seq<char>> {
        match chain {
            Err(e) => Err(e),
            Ok(providers) => match chunk.question_limit() {
                Err(e) => Err(e),
                Ok(question_chunk) => Ok(
                    ClientView {
                        providers,
                        active: 0,
                        model,
                        max_retries: MAX_RETRIES as nat,
                        question_chunk,
                    },
                ),
            },
        }
    }
}

/// What the outcome of making a client holds.
pub open spec fn client_view(r: Result<Client, String>) -> Result<ClientView, Seq<char>> {
    match r {
        Ok(client) => Ok(client@),
        Err(e) => Err(e@),
    }
}

impl Client {
    /// A client for a chain of providers that was built before.
    pub fn with_chain(
        chain: Result<Vec<Provider>, String>,
        model: String,
        chunk: &Setting,
    ) -> (r: Result<Client, String>)
        ensures
            client_view(r) == ClientView::made(chain_view(chain), model@, chunk@),
    {
        match chain {
            Err(e) => Err(e),
            Ok(providers) => match question_limit(chunk) {
                Err(e) => Err(e),
                Ok(question_chunk) => Ok(
                    Client { providers, active: 0, model, max_retries: MAX_RETRIES, question_chunk },
                ),
            },
        }
    }

    /// A client that prefers `endpoint`, with keys looked up by `lookup` and the
    /// limit on questions read from `chunk`.
    pub fn new(
        endpoint: Option<Endpoint>,
        model: String,
        lookup: impl FnMut(&str) -> Result<String, String>,
        chunk: &Setting,
    ) -> (r: Result<Client, String>)
        requires
            asks(endpoint, Endpoint::Openrouter, true) ==> call_requires(
                lookup,
                (Endpoint::Openrouter.key(),),
            ),
            asks(endpoint, Endpoint::Typesafe, true) ==> call_requires(
                lookup,
                (Endpoint::Typesafe.key(),),
            ),
        ensures
            r matches Ok(client) ==> client@.wf(),
            exists|openrouter: Result<String, String>, typesafe: Result<String, String>|
                {
                    &&& asks(endpoint, Endpoint::Openrouter, typesafe is Ok) ==> call_ensures(
                        lookup,
                        (Endpoint::Openrouter.key(),),
                        openrouter,
                    )
                    &&& asks(endpoint, Endpoint::Typesafe, openrouter is Ok) ==> call_ensures(
                        lookup,
                        (Endpoint::Typesafe.key(),),
                        typesafe,
                    )
                    &&& client_view(r) == ClientView::made(
                        #[trigger] chain(endpoint, key_view(openrouter), key_view(typesafe)),
                        model@,
                        chunk@,
                    )
                },
    {
        let chain = providers(endpoint, lookup);
        Client::with_chain(chain, model, chunk)
    }

    /// Begins to judge one state against a batch of questions: the providers to
    /// try, in turn. Which requests a turn makes is settled turn by turn, so a
    /// failover may change both the provider and the cut.
    pub fn system_one(&self, questions: &SortedMap<Question>) -> (r: Result<Failover, Error>)
        requires
            self@.wf(),
        ensures
            match r {
                Ok(f) => plan(self@.providers, self@.active, questions@) == Ok::<
                    Seq<int>,
                    ErrorView,
                >(f@.order) && f@.next == 0 && f@.wf(),
                Err(e) => plan(self@.providers, self@.active, questions@) == Err::<
                    Seq<int>,
                    ErrorView,
                >(e@),
            },
    {
        Failover::plan(&self.providers, self.active, questions)
    }

    /// The requests that put the questions to the provider at place `provider`.
    pub fn send(
        &self,
        provider: usize,
        state: &serde_json::Value,
        questions: &SortedMap<Question>,
    ) -> (r: Vec<Request>)
        requires
            self@.wf(),
            provider < self@.providers.len(),
        ensures
            request_views(r@) == requests_to(
                self@.providers[provider as int],
                json_text(*state),
                self@.model,
                self@.question_chunk,
                questions@,
            ),
    {
        let p = &self.providers[provider];
        match p.kind {
            Endpoint::Classifier => classify(p, state, questions),
            _ => system_one_keyed(p, state, &self.model, self.question_chunk, questions),
        }
    }

    /// A physical request of the client that was not sent yet.
    pub fn post(&self, retry: bool) -> (r: Post)
        ensures
            r@ == (PostView { attempt: 0, max_retries: self@.max_retries, retry }),
    {
        Post::new(self.max_retries, retry)
    }

    /// Makes the provider at place `active` the first to be asked by the next
    /// call.
    pub fn settle(&mut self, active: usize)
        requires
            old(self)@.wf(),
            active < old(self)@.providers.len(),
        ensures
            final(self)@ == (ClientView { active: active as int, ..old(self)@ }),
            final(self)@.wf(),
    {
        self.active = active;
    }
}

/// The limit on questions: none where the setting is absent, the number where it spells a
/// positive integer, and otherwise an error.
pub proof fn limit_is_a_positive_integer(text: Seq<char>)
    ensures
        SettingView::Absent.question_limit() == Ok::<Option<usize>, Seq<char>>(None),
        SettingView::Garbled.question_limit() == Err::<Option<usize>, Seq<char>>(
            "JEGREP_QUESTION_CHUNK must be a positive integer"@,
        ),
        parsed_usize(text) matches Some(n) && n > 0 ==> SettingView::Text(text).question_limit()
            == Ok::<Option<usize>, Seq<char>>(parsed_usize(text)),
        parsed_usize(text) is None || parsed_usize(text) == Some(0usize) ==> SettingView::Text(
            text,
        ).question_limit() == Err::<Option<usize>, Seq<char>>(
            "JEGREP_QUESTION_CHUNK must be a positive integer"@,
        ),
{
}

/// A new client has the chain as it is, asks its first provider first, names the model,
/// sends a request again up to six times, and has the limit of the setting. Without a
/// chain, or with a setting that makes no sense, there is none, and the chain is looked at
/// first.
pub proof fn new_client_starts_at_the_first_provider(
    chain: Result<Seq<ProviderView>, Seq<char>>,
    model: Seq<char>,
    chunk: SettingView,
)
    ensures
        match ClientView::made(chain, model, chunk) {
            Ok(client) => {
                &&& chain == Ok::<Seq<ProviderView>, Seq<char>>(client.providers)
                &&& client.active == 0
                &&& client.model == model
                &&& client.max_retries == 6
                &&& chunk.question_limit() == Ok::<Option<usize>, Seq<char>>(client.question_chunk)
            },
            Err(e) => chain == Err::<Seq<ProviderView>, Seq<char>>(e) || (chain is Ok
                && chunk.question_limit() == Err::<Option<usize>, Seq<char>>(e)),
        },
{
}

/// A client and its setting are seen with all that they hold. A client is in order if one
/// of its providers is active and its limit, if it has one, is positive.
pub proof fn client_view_shows_all(
    client: Client,
    setting: Setting,
    made: Result<Client, String>,
    i: int,
)
    ensures
        client@.providers.len() == client.providers@.len(),
        0 <= i < client.providers@.len() ==> client@.providers[i] == client.providers@[i]@,
        client@.active == client.active,
        client@.model == client.model@,
        client@.max_retries == client.max_retries,
        client@.question_chunk == client.question_chunk,
        client@.wf() <==> client.active < client.providers@.len() && (
        client.question_chunk matches Some(n) ==> n > 0),
        setting is Absent ==> setting@ is Absent,
        setting is Garbled ==> setting@ is Garbled,
        setting matches Setting::Text(s) ==> (setting@ matches SettingView::Text(t) && t == s@),
        made matches Ok(c) ==> client_view(made) == Ok::<ClientView, Seq<char>>(c@),
        made matches Err(e) ==> client_view(made) == Err::<ClientView, Seq<char>>(e@),
{
}

} // verus!
