//! Providers of judgments, and the chain in which they are tried.

use vstd::prelude::*;

verus! {

/// A service that answers questions.
#[derive(Clone, Copy, Debug, PartialEq, Eq, Structural)]
pub enum Endpoint {
    /// classifier.dev: free zero-shot classification without a key.
    Classifier,
    Openrouter,
    Typesafe,
}

impl Endpoint {
    /// The name under which the key of the service is looked up; empty where it
    /// needs none.
    pub open spec fn key(self) -> &'static str {
        match self {
            Endpoint::Classifier => "",
            Endpoint::Openrouter => "OPENROUTER_API_KEY",
            Endpoint::Typesafe => "TYPESAFE_API_KEY",
        }
    }

    /// Where requests to the service go.
    pub open spec fn address(self) -> &'static str {
        match self {
            Endpoint::Classifier => "https://classifier.dev/v1/classify",
            Endpoint::Openrouter => "https://openrouter.ai/api/alpha/decisions",
            Endpoint::Typesafe => "https://api.typesafe.ai/v1/systemone",
        }
    }

    /// The name under which the key of the service is looked up; empty where it
    /// needs none.
    pub fn key_name(self) -> (r: &'static str)
        ensures
            r == self.key(),
    {
        match self {
            Endpoint::Classifier => "",
            Endpoint::Openrouter => "OPENROUTER_API_KEY",
            Endpoint::Typesafe => "TYPESAFE_API_KEY",
        }
    }

    /// Where requests to the service go.
    pub fn url(self) -> (r: &'static str)
        ensures
            r == self.address(),
    {
        match self {
            Endpoint::Classifier => "https://classifier.dev/v1/classify",
            Endpoint::Openrouter => "https://openrouter.ai/api/alpha/decisions",
            Endpoint::Typesafe => "https://api.typesafe.ai/v1/systemone",
        }
    }
}

/// A service with its address and the credential sent to it.
#[derive(Debug)]
pub struct Provider {
    pub url: String,
    pub auth: String,
    pub kind: Endpoint,
}

/// What a [`Provider`] holds.
pub struct ProviderView {
    pub url: Seq<char>,
    pub auth: Seq<char>,
    pub kind: Endpoint,
}

impl View for Provider {
    type V = ProviderView;

    open spec fn view(&self) -> ProviderView {
        ProviderView { url: self.url@, auth: self.auth@, kind: self.kind }
    }
}

/// What the providers hold, in order.
pub open spec fn provider_views(s: Seq<Provider>) -> Seq<ProviderView> {
    s.map_values(|p: Provider| p@)
}

/// The outcome of looking up a key: the key, or why there is none.
pub open spec fn key_view(r: Result<String, String>) -> Result<Seq<char>, Seq<char>> {
    match r {
        Ok(k) => Ok(k@),
        Err(e) => Err(e@),
    }
}

/// The service that needs no key.
pub open spec fn free_provider() -> ProviderView {
    ProviderView {
        url: Endpoint::Classifier.address()@,
        auth: Seq::empty(),
        kind: Endpoint::Classifier,
    }
}

/// A service with its key.
pub open spec fn keyed_provider(endpoint: Endpoint, key: Seq<char>) -> ProviderView {
    ProviderView { url: endpoint.address()@, auth: "Bearer "@ + key, kind: endpoint }
}

/// The service as a link of the chain, if its key was found.
pub open spec fn optional_provider(
    endpoint: Endpoint,
    key: Result<Seq<char>, Seq<char>>,
) -> Seq<ProviderView> {
    match key {
        Ok(k) => seq![keyed_provider(endpoint, k)],
        Err(_) => Seq::empty(),
    }
}

/// The chain of providers, given what looking up the two keys yields. By default
/// the free service comes first and the others follow if their keys are there. A
/// pinned service is required and comes first: the free one stands alone, and one
/// of the other two is followed by its pair.
pub open spec fn chain(
    preferred: Option<Endpoint>,
    openrouter: Result<Seq<char>, Seq<char>>,
    typesafe: Result<Seq<char>, Seq<char>>,
) -> Result<Seq<ProviderView>, Seq<char>> {
    match preferred {
        None => Ok(
            seq![free_provider()] + optional_provider(Endpoint::Openrouter, openrouter)
                + optional_provider(Endpoint::Typesafe, typesafe),
        ),
        Some(Endpoint::Classifier) => Ok(seq![free_provider()]),
        Some(Endpoint::Openrouter) => match openrouter {
            Ok(k) => Ok(
                seq![keyed_provider(Endpoint::Openrouter, k)] + optional_provider(
                    Endpoint::Typesafe,
                    typesafe,
                ),
            ),
            Err(e) => Err(e),
        },
        Some(Endpoint::Typesafe) => match typesafe {
            Ok(k) => Ok(
                seq![keyed_provider(Endpoint::Typesafe, k)] + optional_provider(
                    Endpoint::Openrouter,
                    openrouter,
                ),
            ),
            Err(e) => Err(e),
        },
    }
}

/// Whether the key of `endpoint` is looked up, given whether the other service's
/// key was found: always by default and for a pinned service, never where the
/// free one is pinned, and for the pair of a pinned one after its key was found.
pub open spec fn asks(preferred: Option<Endpoint>, endpoint: Endpoint, other_found: bool) -> bool {
    match preferred {
        None => true,
        Some(Endpoint::Classifier) => false,
        Some(p) => p == endpoint || other_found,
    }
}

/// What the outcome of building a chain holds.
pub open spec fn chain_view(r: Result<Vec<Provider>, String>) -> Result<
    Seq<ProviderView>,
    Seq<char>,
> {
    match r {
        Ok(v) => Ok(provider_views(v@)),
        Err(e) => Err(e@),
    }
}

fn with_key(endpoint: Endpoint, key: &String) -> (r: Provider)
    ensures
        r@ == keyed_provider(endpoint, key@),
{
    let mut auth = "Bearer ".to_owned();
    auth.append(key.as_str());
    Provider { url: endpoint.url().to_owned(), auth, kind: endpoint }
}

fn push_found(chain: &mut Vec<Provider>, endpoint: Endpoint, key: &Result<String, String>)
    ensures
        provider_views(final(chain)@) == provider_views(old(chain)@) + optional_provider(
            endpoint,
            key_view(*key),
        ),
{
    match key {
        Ok(k) => {
            chain.push(with_key(endpoint, k));
        },
        Err(_) => {},
    }
    assert(provider_views(chain@) =~= provider_views(old(chain)@) + optional_provider(
        endpoint,
        key_view(*key),
    ));
}

/// The chain that starts with the free service.
fn free_chain() -> (r: Vec<Provider>)
    ensures
        provider_views(r@) == seq![free_provider()],
{
    let mut r: Vec<Provider> = Vec::new();
    r.push(
        Provider {
            url: Endpoint::Classifier.url().to_owned(),
            auth: String::new(),
            kind: Endpoint::Classifier,
        },
    );
    assert(provider_views(r@) =~= seq![free_provider()]);
    r
}

/// The chain of a pinned service whose key was found, and of its pair.
fn pinned_chain(
    pinned: Endpoint,
    key: &String,
    pair: Endpoint,
    pair_key: &Result<String, String>,
) -> (r: Vec<Provider>)
    ensures
        provider_views(r@) == seq![keyed_provider(pinned, key@)] + optional_provider(
            pair,
            key_view(*pair_key),
        ),
{
    let mut r: Vec<Provider> = Vec::new();
    r.push(with_key(pinned, key));
    assert(provider_views(r@) =~= seq![keyed_provider(pinned, key@)]);
    push_found(&mut r, pair, pair_key);
    r
}

/// The chain of providers for keys that were looked up before.
pub fn provider_chain(
    preferred: Option<Endpoint>,
    openrouter: &Result<String, String>,
    typesafe: &Result<String, String>,
) -> (r: Result<Vec<Provider>, String>)
    ensures
        chain_view(r) == chain(preferred, key_view(*openrouter), key_view(*typesafe)),
{
    match preferred {
        None => {
            let mut r = free_chain();
            push_found(&mut r, Endpoint::Openrouter, openrouter);
            push_found(&mut r, Endpoint::Typesafe, typesafe);
            Ok(r)
        },
        Some(Endpoint::Classifier) => Ok(free_chain()),
        Some(Endpoint::Openrouter) => match openrouter {
            Ok(k) => Ok(pinned_chain(Endpoint::Openrouter, k, Endpoint::Typesafe, typesafe)),
            Err(e) => Err(e.clone()),
        },
        Some(Endpoint::Typesafe) => match typesafe {
            Ok(k) => Ok(pinned_chain(Endpoint::Typesafe, k, Endpoint::Openrouter, openrouter)),
            Err(e) => Err(e.clone()),
        },
    }
}

/// Builds the provider chain, looking keys up as they are needed.
pub fn providers(preferred: Option<Endpoint>, mut lookup: impl FnMut(&str) -> Result<String, String>) -> (r:
    Result<Vec<Provider>, String>)
    requires
        asks(preferred, Endpoint::Openrouter, true) ==> call_requires(
            lookup,
            (Endpoint::Openrouter.key(),),
        ),
        asks(preferred, Endpoint::Typesafe, true) ==> call_requires(
            lookup,
            (Endpoint::Typesafe.key(),),
        ),
    ensures
        exists|openrouter: Result<String, String>, typesafe: Result<String, String>|
            {
                &&& asks(preferred, Endpoint::Openrouter, typesafe is Ok) ==> call_ensures(
                    lookup,
                    (Endpoint::Openrouter.key(),),
                    openrouter,
                )
                &&& asks(preferred, Endpoint::Typesafe, openrouter is Ok) ==> call_ensures(
                    lookup,
                    (Endpoint::Typesafe.key(),),
                    typesafe,
                )
                &&& chain_view(r) == #[trigger] chain(
                    preferred,
                    key_view(openrouter),
                    key_view(typesafe),
                )
            },
{
    let openrouter: Result<String, String>;
    let typesafe: Result<String, String>;
    match preferred {
        None => {
            openrouter = lookup(Endpoint::Openrouter.key_name());
            typesafe = lookup(Endpoint::Typesafe.key_name());
        },
        Some(Endpoint::Classifier) => {
            openrouter = Err(String::new());
            typesafe = Err(String::new());
        },
        Some(Endpoint::Openrouter) => {
            openrouter = lookup(Endpoint::Openrouter.key_name());
            typesafe = if openrouter.is_ok() {
                lookup(Endpoint::Typesafe.key_name())
            } else {
                Err(String::new())
            };
        },
        Some(Endpoint::Typesafe) => {
            typesafe = lookup(Endpoint::Typesafe.key_name());
            openrouter = if typesafe.is_ok() {
                lookup(Endpoint::Openrouter.key_name())
            } else {
                Err(String::new())
            };
        },
    }
    provider_chain(preferred, &openrouter, &typesafe)
}

/// Without a preference a chain can always be built, and it starts with the
/// service that needs no key.
pub proof fn default_needs_no_key(
    openrouter: Result<Seq<char>, Seq<char>>,
    typesafe: Result<Seq<char>, Seq<char>>,
)
    ensures
        chain(None, openrouter, typesafe) matches Ok(s) && s.len() > 0 && s[0] == free_provider(),
{
}

/// A pinned service leads the chain or there is no chain, and pinning a service
/// with a key leaves the free one out.
pub proof fn pinned_service_leads(
    pinned: Endpoint,
    openrouter: Result<Seq<char>, Seq<char>>,
    typesafe: Result<Seq<char>, Seq<char>>,
)
    ensures
        chain(Some(pinned), openrouter, typesafe) matches Ok(s) ==> s.len() > 0 && s[0].kind
            == pinned,
        chain(Some(pinned), openrouter, typesafe) matches Ok(s) ==> pinned != Endpoint::Classifier
            ==> forall|i: int| 0 <= i < s.len() ==> (#[trigger] s[i]).kind != Endpoint::Classifier,
        chain(Some(pinned), openrouter, typesafe) is Err <==> (pinned == Endpoint::Openrouter
            && openrouter is Err) || (pinned == Endpoint::Typesafe && typesafe is Err),
{
}

/// The services, by what they are reached with.
pub proof fn services_by_name()
    ensures
        Endpoint::Classifier.key() == "",
        Endpoint::Openrouter.key() == "OPENROUTER_API_KEY",
        Endpoint::Typesafe.key() == "TYPESAFE_API_KEY",
        Endpoint::Classifier.address() == "https://classifier.dev/v1/classify",
        Endpoint::Openrouter.address() == "https://openrouter.ai/api/alpha/decisions",
        Endpoint::Typesafe.address() == "https://api.typesafe.ai/v1/systemone",
{
}

/// Whether `p` is the given service, at its address and with the given key as its
/// credential.
pub open spec fn is_service(p: ProviderView, endpoint: Endpoint, key: Seq<char>) -> bool {
    &&& p.kind == endpoint
    &&& p.url == endpoint.address()@
    &&& p.auth.len() == "Bearer "@.len() + key.len()
    &&& p.auth.take("Bearer "@.len() as int) == "Bearer "@
    &&& p.auth.skip("Bearer "@.len() as int) == key
}

proof fn lemma_is_service(endpoint: Endpoint, key: Seq<char>)
    ensures
        is_service(keyed_provider(endpoint, key), endpoint, key),
{
    let auth = keyed_provider(endpoint, key).auth;
    assert(auth.take("Bearer "@.len() as int) =~= "Bearer "@);
    assert(auth.skip("Bearer "@.len() as int) =~= key);
}

/// A pinned service with a key leads the chain with its own key. The other service with a
/// key follows exactly if its key was found, with that key, and nothing else does. Without
/// the key of the pinned service there is no chain, for the reason that its lookup gave.
pub proof fn pinned_service_is_followed_by_its_pair(
    openrouter: Result<Seq<char>, Seq<char>>,
    typesafe: Result<Seq<char>, Seq<char>>,
    pinned: Endpoint,
)
    requires
        pinned != Endpoint::Classifier,
    ensures
        ({
            let (own, pair, other) = if pinned == Endpoint::Openrouter {
                (openrouter, Endpoint::Typesafe, typesafe)
            } else {
                (typesafe, Endpoint::Openrouter, openrouter)
            };
            match chain(Some(pinned), openrouter, typesafe) {
                Ok(s) => {
                    &&& own is Ok
                    &&& is_service(s[0], pinned, own->Ok_0)
                    &&& other is Ok ==> s.len() == 2 && is_service(s[1], pair, other->Ok_0)
                    &&& other is Err ==> s.len() == 1
                },
                Err(e) => own == Err::<Seq<char>, Seq<char>>(e),
            }
        }),
{
    if let Ok(k) = openrouter {
        lemma_is_service(Endpoint::Openrouter, k);
    }
    if let Ok(k) = typesafe {
        lemma_is_service(Endpoint::Typesafe, k);
    }
}

/// Pinning the free service leaves it alone in the chain, without a credential. Without a
/// preference it leads, and the two others follow, each exactly if its key was found and
/// with that key, Openrouter before Typesafe.
pub proof fn free_service_leads_by_default(
    openrouter: Result<Seq<char>, Seq<char>>,
    typesafe: Result<Seq<char>, Seq<char>>,
)
    ensures
        chain(Some(Endpoint::Classifier), openrouter, typesafe) matches Ok(s) && s.len() == 1
            && s[0].kind == Endpoint::Classifier && s[0].url == Endpoint::Classifier.address()@
            && s[0].auth.len() == 0,
        chain(None, openrouter, typesafe) matches Ok(s) && {
            &&& s.len() == 1 + (if openrouter is Ok { 1int } else { 0 }) + (if typesafe is Ok {
                1int
            } else {
                0
            })
            &&& s[0].kind == Endpoint::Classifier
            &&& s[0].url == Endpoint::Classifier.address()@
            &&& s[0].auth.len() == 0
            &&& openrouter matches Ok(k) ==> is_service(s[1], Endpoint::Openrouter, k)
            &&& typesafe matches Ok(k) ==> is_service(s.last(), Endpoint::Typesafe, k)
        },
{
    if let Ok(k) = openrouter {
        lemma_is_service(Endpoint::Openrouter, k);
    }
    if let Ok(k) = typesafe {
        lemma_is_service(Endpoint::Typesafe, k);
    }
}

/// Which keys are looked up: both without a preference, none where the free service is
/// pinned, and otherwise that of the pinned service, and then that of its pair if the
/// first was found.
pub proof fn keys_are_looked_up_as_needed(pinned: Endpoint, endpoint: Endpoint, other_found: bool)
    ensures
        asks(None, endpoint, other_found),
        !asks(Some(Endpoint::Classifier), endpoint, other_found),
        pinned != Endpoint::Classifier && endpoint == pinned ==> asks(
            Some(pinned),
            endpoint,
            other_found,
        ),
        pinned != Endpoint::Classifier && endpoint != pinned ==> asks(
            Some(pinned),
            endpoint,
            other_found,
        ) == other_found,
{
}

/// Providers are seen with their address, their credential and their sort, one by one and
/// in order.
pub proof fn provider_views_show_all(
    s: Seq<Provider>,
    i: int,
    key: Result<String, String>,
    built: Result<Vec<Provider>, String>,
)
    ensures
        provider_views(s).len() == s.len(),
        0 <= i < s.len() ==> {
            &&& provider_views(s)[i].url == s[i].url@
            &&& provider_views(s)[i].auth == s[i].auth@
            &&& provider_views(s)[i].kind == s[i].kind
        },
        key matches Ok(k) ==> key_view(key) == Ok::<Seq<char>, Seq<char>>(k@),
        key matches Err(e) ==> key_view(key) == Err::<Seq<char>, Seq<char>>(e@),
        built matches Ok(v) ==> chain_view(built) == Ok::<Seq<ProviderView>, Seq<char>>(
            provider_views(v@),
        ),
        built matches Err(e) ==> chain_view(built) == Err::<Seq<ProviderView>, Seq<char>>(e@),
{
}

} // verus!
