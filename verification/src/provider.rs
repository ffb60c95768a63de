//! Where the cluster is found, and which store stands behind it.

use crate::endpoint::{
    endpoint_views, parse_endpoints, read_endpoints, AvalonEndpoint, EndpointView,
};
use crate::error::{error_text, AvalonErrorView, InvalidInput};
use crate::options::StorageOptions;
use crate::text::{
    chars_of, find, find_from, lemma_find_from, lemma_find_is, lemma_occurs_char, occurs_at,
    stands_at,
};
use vstd::prelude::*;

verus! {

/// The URL of the store behind the cluster.
#[derive(Clone, Debug, PartialEq, Eq)]
pub struct InnerUrl {
    /// Its serialization.
    pub text: String,
    pub scheme: String,
    pub authority: String,
}

/// An `InnerUrl` with its texts as sequences of characters.
#[verifier::ext_equal]
pub struct InnerUrlView {
    pub text: Seq<char>,
    pub scheme: Seq<char>,
    pub authority: Seq<char>,
}

impl View for InnerUrl {
    type V = InnerUrlView;

    open spec fn view(&self) -> InnerUrlView {
        InnerUrlView { text: self.text@, scheme: self.scheme@, authority: self.authority@ }
    }
}

impl InnerUrl {
    /// How this URL is written.
    pub fn to_string(&self) -> (r: String)
        ensures
            r@ == self@.text,
    {
        self.text.clone()
    }
}

/// The URL that `input` is, or what is said of it where it is none.
pub uninterp spec fn url_parsed(input: Seq<char>) -> Result<InnerUrlView, Seq<char>>;

/// `url::Url::parse`, with the URL as its serialization, its `scheme` and its `authority`, and an
/// error as it is shown: all of them depend on the text and on nothing else.
#[verifier::external_body]
fn url_parse(input: &str) -> (r: Result<InnerUrl, String>)
    ensures
        match r {
            Ok(url) => url_parsed(input@) == Ok::<InnerUrlView, Seq<char>>(url@),
            Err(error) => url_parsed(input@) == Err::<InnerUrlView, Seq<char>>(error@),
        },
{
    match url::Url::parse(input) {
        Ok(url) => Ok(
            InnerUrl {
                text: url.to_string(),
                scheme: url.scheme().to_string(),
                authority: url.authority().to_string(),
            },
        ),
        Err(error) => Err(error.to_string()),
    }
}

/// Makes stores that read through the cluster.
#[derive(Debug, Default)]
pub struct AvalonObjectStoreProvider;

/// Where the scheme ends of the store behind the cluster: at the first underscore; without one, at
/// the first slash; and without either, at the end.
pub open spec fn scheme_end(rest: Seq<char>) -> int {
    match find_from(rest, "_"@, 0) {
        Some(i) => i,
        None => match find_from(rest, "/"@, 0) {
            Some(i) => i,
            None => rest.len() as int,
        },
    }
}

/// The text of the URL behind an `avalon` URL, or what is wrong with that.
pub open spec fn inner_text(full_url: Seq<char>) -> Result<Seq<char>, Seq<char>> {
    if !occurs_at(full_url, "avalon://"@, 0) {
        Err("The URL scheme must be avalon."@)
    } else {
        let rest = full_url.skip("avalon://"@.len() as int);
        let end = scheme_end(rest);
        if end >= rest.len() {
            Ok(rest + "://"@)
        } else {
            Ok(rest.take(end) + "://"@ + rest.skip(end + 1))
        }
    }
}

/// What becomes of the URL behind an `avalon` URL.
pub open spec fn inner_parsed(parsed: Result<InnerUrlView, Seq<char>>) -> Result<
    InnerUrlView,
    Seq<char>,
> {
    match parsed {
        Ok(url) => Ok(url),
        Err(error) => Err("Unable to reconstruct inner URL: "@ + error),
    }
}

/// The URL behind an `avalon` URL, or what is wrong with that.
pub open spec fn read_inner_url(full_url: Seq<char>) -> Result<InnerUrlView, Seq<char>> {
    match inner_text(full_url) {
        Ok(text) => inner_parsed(url_parsed(text)),
        Err(error) => Err(error),
    }
}

/// The endpoints that are named, or what is wrong with them.
pub open spec fn named_endpoints(
    options: Option<Map<Seq<char>, Seq<char>>>,
    environment: Option<Seq<char>>,
) -> Result<Seq<EndpointView>, Seq<char>> {
    match endpoints_option(options, environment) {
        Some(text) => match read_endpoints(text) {
            Ok(endpoints) => Ok(endpoints),
            Err(error) => Err("Unable to parse avalon endpoints string: "@ + error_text(error)),
        },
        None => Err(no_endpoints()),
    }
}

/// What is said where there is no provider for a scheme.
pub open spec fn no_provider(scheme: Seq<char>) -> Seq<char> {
    "No provider found for inner object store scheme: "@ + scheme
}

/// The text of the endpoints: the option `avalon_endpoints`, and where there is none, the value
/// from the environment.
pub open spec fn endpoints_option(
    options: Option<Map<Seq<char>, Seq<char>>>,
    environment: Option<Seq<char>>,
) -> Option<Seq<char>> {
    if options is Some && options->0.contains_key("avalon_endpoints"@) {
        Some(options->0["avalon_endpoints"@])
    } else {
        environment
    }
}

/// Options as a map, where there are any.
pub open spec fn options_view(options: Option<StorageOptions>) -> Option<
    Map<Seq<char>, Seq<char>>,
> {
    match options {
        Some(options) => Some(options@),
        None => None,
    }
}

/// A text as a sequence of characters, where there is one.
pub open spec fn text_view(text: Option<String>) -> Option<Seq<char>> {
    match text {
        Some(text) => Some(text@),
        None => None,
    }
}

/// What is said where nothing names the endpoints.
pub open spec fn no_endpoints() -> Seq<char> {
    "No avalon_endpoints storage option or AVALON_ENDPOINTS environment variable found."@
}

impl AvalonObjectStoreProvider {
    /// The text of the endpoints, where `environment` is the value of the variable
    /// `AVALON_ENDPOINTS`.
    pub fn get_avalon_endpoints_string(
        storage_options: &Option<StorageOptions>,
        environment: Option<String>,
    ) -> (r: Result<String, InvalidInput>)
        ensures
            match endpoints_option(options_view(*storage_options), text_view(environment)) {
                Some(text) => r matches Ok(s) && s@ == text,
                None => r matches Err(e) && e@ == no_endpoints(),
            },
    {
        if let Some(options) = storage_options {
            if let Some(endpoints_string) = options.get("avalon_endpoints") {
                return Ok(endpoints_string.clone());
            }
        }
        match environment {
            Some(endpoints_string) => Ok(endpoints_string),
            None => Err(
                InvalidInput {
                    message:
                        "No avalon_endpoints storage option or AVALON_ENDPOINTS environment variable found.".to_string(),
                },
            ),
        }
    }

    /// The endpoints, where `environment` is the value of the variable `AVALON_ENDPOINTS`.
    pub fn avalon_endpoints(
        storage_options: &Option<StorageOptions>,
        environment: Option<String>,
    ) -> (r: Result<Vec<AvalonEndpoint>, InvalidInput>)
        ensures
            match named_endpoints(options_view(*storage_options), text_view(environment)) {
                Ok(endpoints) => r matches Ok(v) && endpoint_views(v@) == endpoints,
                Err(error) => r matches Err(e) && e@ == error,
            },
    {
        match Self::get_avalon_endpoints_string(storage_options, environment) {
            Err(e) => Err(e),
            Ok(endpoints_string) => match parse_endpoints(endpoints_string.as_str()) {
                Ok(endpoints) => Ok(endpoints),
                Err(e) => {
                    let mut message = String::new();
                    message.append("Unable to parse avalon endpoints string: ");
                    message.append(e.to_string().as_str());
                    Err(InvalidInput { message })
                },
            },
        }
    }

    /// The URL behind an `avalon` URL, whose serialization is `full_url`. For example,
    /// `avalon://az_container@account/my/path` becomes `az://container@account/my/path`.
    pub fn parse_avalon_url(full_url: &str) -> (r: Result<InnerUrl, InvalidInput>)
        ensures
            match read_inner_url(full_url@) {
                Ok(url) => r matches Ok(inner) && inner@ == url,
                Err(error) => r matches Err(e) && e@ == error,
            },
    {
        match Self::inner_url_text(full_url) {
            Err(e) => Err(e),
            Ok(text) => Self::inner_url(url_parse(text.as_str())),
        }
    }

    /// The text of the URL behind an `avalon` URL.
    pub fn inner_url_text(full_url: &str) -> (r: Result<String, InvalidInput>)
        ensures
            match inner_text(full_url@) {
                Ok(text) => r matches Ok(s) && s@ == text,
                Err(error) => r matches Err(e) && e@ == error,
            },
    {
        proof {
            reveal_strlit("avalon://");
            reveal_strlit("_");
            reveal_strlit("/");
        }
        let full = chars_of(full_url);
        let scheme = chars_of("avalon://");
        if full.len() < scheme.len() || !stands_at(&full, &scheme, 0) {
            return Err(InvalidInput { message: "The URL scheme must be avalon.".to_string() });
        }
        let url = full_url.substring_char(scheme.len(), full.len());
        let chars = chars_of(url);
        assert(url@ =~= full_url@.skip("avalon://"@.len() as int));
        proof {
            lemma_find_from(url@, "_"@, 0);
            lemma_find_from(url@, "/"@, 0);
        }
        let index: usize = match find(&chars, &chars_of("_"), 0) {
            Some(i) => i,
            None => match find(&chars, &chars_of("/"), 0) {
                Some(i) => i,
                None => chars.len(),
            },
        };
        assert(index == scheme_end(url@));
        let mut out = url.substring_char(0, index).to_string();
        out.append("://");
        if index < chars.len() {
            out.append(url.substring_char(index + 1, chars.len()));
        }
        proof {
            if index >= url@.len() {
                assert(out@ =~= url@ + "://"@);
            } else {
                assert(out@ =~= url@.take(index as int) + "://"@ + url@.skip(index + 1));
            }
        }
        Ok(out)
    }

    /// What becomes of the URL behind an `avalon` URL after it was parsed.
    pub fn inner_url(parsed: Result<InnerUrl, String>) -> (r: Result<InnerUrl, InvalidInput>)
        ensures
            match parsed {
                Ok(url) => r matches Ok(inner) && inner@ == url@,
                Err(error) => r matches Err(e) && e@ == "Unable to reconstruct inner URL: "@
                    + error@,
            },
    {
        match parsed {
            Ok(url) => Ok(url),
            Err(error) => {
                let mut message = String::new();
                message.append("Unable to reconstruct inner URL: ");
                message.append(error.as_str());
                Err(InvalidInput { message })
            },
        }
    }

    /// The provider for the scheme of the store behind the cluster, where one was found.
    pub fn require_provider<P>(found: Option<P>, scheme: &str) -> (r: Result<P, InvalidInput>)
        ensures
            match found {
                Some(provider) => r == Ok::<P, InvalidInput>(provider),
                None => r matches Err(e) && e@ == no_provider(scheme@),
            },
    {
        match found {
            Some(provider) => Ok(provider),
            None => {
                let mut message = String::new();
                message.append("No provider found for inner object store scheme: ");
                message.append(scheme);
                Err(InvalidInput { message })
            },
        }
    }

    /// Takes the opening of a store one step further. In turn, the endpoints are read, the cluster
    /// is asked, the inner URL is read, its provider is found, the inner store is made, and the
    /// prefix of that store is told; the first of these that fails ends the opening.
    pub fn new_avalon_store<P, S, E>(
        storage_options: &Option<StorageOptions>,
        outer_url: &str,
        event: OpenEvent<P, S, E>,
    ) -> (r: OpenAction<P, S, E>)
        ensures
            opens(options_view(*storage_options), outer_url@, event, r),
    {
        match event {
            OpenEvent::Started { environment } => {
                match Self::avalon_endpoints(storage_options, environment) {
                    Ok(endpoints) => OpenAction::AskCluster { endpoints },
                    Err(error) => OpenAction::Refuse { error },
                }
            },
            OpenEvent::ClusterKnown => match Self::parse_avalon_url(outer_url) {
                Ok(url) => OpenAction::FindProvider { url },
                Err(error) => OpenAction::Refuse { error },
            },
            OpenEvent::ProviderSought { url, found } => {
                match Self::require_provider(found, url.scheme.as_str()) {
                    Ok(provider) => OpenAction::MakeStore { url, provider },
                    Err(error) => OpenAction::Refuse { error },
                }
            },
            OpenEvent::StoreMade { url, provider, store } => OpenAction::TellPrefix {
                url,
                provider,
                store,
            },
            OpenEvent::PrefixTold { store, prefix } => OpenAction::Done { store, prefix },
            OpenEvent::ClusterUnknown { error } => OpenAction::Fail { error },
            OpenEvent::StoreNotMade { error } => OpenAction::Fail { error },
            OpenEvent::PrefixNotTold { error } => OpenAction::Fail { error },
        }
    }
}

/// What happened while a store was opened. A `P` is a provider of stores, an `S` a store that it
/// made, and an `E` a failure from outside.
pub enum OpenEvent<P, S, E> {
    /// The store is to be opened, with this value of the variable `AVALON_ENDPOINTS`.
    Started { environment: Option<String> },
    /// The endpoints told of the cluster.
    ClusterKnown,
    /// The endpoints did not tell of the cluster.
    ClusterUnknown { error: E },
    /// The provider for the scheme of the inner URL was sought.
    ProviderSought { url: InnerUrl, found: Option<P> },
    /// The provider made the inner store.
    StoreMade { url: InnerUrl, provider: P, store: S },
    /// The provider did not make the inner store.
    StoreNotMade { error: E },
    /// The provider told the prefix of the inner store.
    PrefixTold { store: S, prefix: String },
    /// The provider did not tell the prefix of the inner store.
    PrefixNotTold { error: E },
}

/// What to do next while a store is opened.
pub enum OpenAction<P, S, E> {
    /// Ask these endpoints for the cluster.
    AskCluster { endpoints: Vec<AvalonEndpoint> },
    /// Find the provider for the scheme of this URL.
    FindProvider { url: InnerUrl },
    /// Have the provider make the store at this URL.
    MakeStore { url: InnerUrl, provider: P },
    /// Have the provider tell the prefix for the scheme and the authority of this URL.
    TellPrefix { url: InnerUrl, provider: P, store: S },
    /// The store is open, over this store and with this prefix.
    Done { store: S, prefix: String },
    /// What was given cannot be used.
    Refuse { error: InvalidInput },
    /// Something outside failed.
    Fail { error: E },
}

/// A step of the opening of a store at `outer_url`.
pub open spec fn opens<P, S, E>(
    options: Option<Map<Seq<char>, Seq<char>>>,
    outer_url: Seq<char>,
    event: OpenEvent<P, S, E>,
    r: OpenAction<P, S, E>,
) -> bool {
    match event {
        OpenEvent::Started { environment } => match named_endpoints(
            options,
            text_view(environment),
        ) {
            Ok(named) => r matches OpenAction::AskCluster { endpoints } && endpoint_views(
                endpoints@,
            ) == named,
            Err(e) => r matches OpenAction::Refuse { error } && error@ == e,
        },
        OpenEvent::ClusterKnown => match read_inner_url(outer_url) {
            Ok(inner) => r matches OpenAction::FindProvider { url } && url@ == inner,
            Err(e) => r matches OpenAction::Refuse { error } && error@ == e,
        },
        OpenEvent::ProviderSought { url, found } => match found {
            Some(provider) => r == (OpenAction::<P, S, E>::MakeStore { url, provider }),
            None => r matches OpenAction::Refuse { error } && error@ == no_provider(url@.scheme),
        },
        OpenEvent::StoreMade { url, provider, store } => r == (OpenAction::<P, S, E>::TellPrefix {
            url,
            provider,
            store,
        }),
        OpenEvent::PrefixTold { store, prefix } => r == (OpenAction::<P, S, E>::Done {
            store,
            prefix,
        }),
        OpenEvent::ClusterUnknown { error } => r == (OpenAction::<P, S, E>::Fail { error }),
        OpenEvent::StoreNotMade { error } => r == (OpenAction::<P, S, E>::Fail { error }),
        OpenEvent::PrefixNotTold { error } => r == (OpenAction::<P, S, E>::Fail { error }),
    }
}

/// `event` is one of the answers that `action` can have; nothing follows on the end of an opening.
pub open spec fn open_goes_on<P, S, E>(
    action: OpenAction<P, S, E>,
    event: OpenEvent<P, S, E>,
) -> bool {
    match action {
        OpenAction::AskCluster { endpoints } => event is ClusterKnown || event is ClusterUnknown,
        OpenAction::FindProvider { url } => event matches OpenEvent::ProviderSought { url: u, found }
            && u == url,
        OpenAction::MakeStore { url, provider } => event is StoreNotMade || (
        event matches OpenEvent::StoreMade { url: u, provider: p, store } && u == url && p
            == provider),
        OpenAction::TellPrefix { url, provider, store } => event is PrefixNotTold || (
        event matches OpenEvent::PrefixTold { store: s, prefix } && s == store),
        _ => false,
    }
}

/// The place of an event in an opening.
pub open spec fn open_stage<P, S, E>(event: OpenEvent<P, S, E>) -> int {
    match event {
        OpenEvent::Started { .. } => 0,
        OpenEvent::ClusterKnown => 1,
        OpenEvent::ClusterUnknown { .. } => 1,
        OpenEvent::ProviderSought { .. } => 2,
        OpenEvent::StoreMade { .. } => 3,
        OpenEvent::StoreNotMade { .. } => 3,
        OpenEvent::PrefixTold { .. } => 4,
        OpenEvent::PrefixNotTold { .. } => 4,
    }
}

/// An opening from its start on: these events come in turn, each as an answer to the action before
/// it.
pub open spec fn open_runs<P, S, E>(
    options: Option<Map<Seq<char>, Seq<char>>>,
    outer_url: Seq<char>,
    events: Seq<OpenEvent<P, S, E>>,
    actions: Seq<OpenAction<P, S, E>>,
) -> bool {
    &&& events.len() > 0
    &&& actions.len() == events.len()
    &&& events[0] is Started
    &&& forall|k: int|
        0 <= k < events.len() ==> opens(options, outer_url, #[trigger] events[k], actions[k])
    &&& forall|k: int|
        0 < k < events.len() ==> open_goes_on(actions[k - 1], #[trigger] events[k])
}

/// An opening goes through its stages in order, one event for each, and only its last action can
/// end it. So the endpoints are refused before the cluster is asked, the inner URL is refused only
/// where the cluster is known, its provider is found missing only after that, and the inner store
/// and its prefix fail last. Every later action speaks of the one inner URL.
pub proof fn law_open_goes_in_order<P, S, E>(
    options: Option<Map<Seq<char>, Seq<char>>>,
    outer_url: Seq<char>,
    events: Seq<OpenEvent<P, S, E>>,
    actions: Seq<OpenAction<P, S, E>>,
    k: int,
)
    requires
        open_runs(options, outer_url, events, actions),
        0 <= k < events.len(),
    ensures
        open_stage(events[k]) == k,
        k > 0 ==> !(actions[k - 1] is Done || actions[k - 1] is Refuse || actions[k - 1] is Fail),
        k > 1 ==> events[1] is ClusterKnown,
        events[k] matches OpenEvent::ProviderSought { url, found } ==> read_inner_url(outer_url)
            == Ok::<InnerUrlView, Seq<char>>(url@),
        actions[k] matches OpenAction::MakeStore { url, provider } ==> read_inner_url(outer_url)
            == Ok::<InnerUrlView, Seq<char>>(url@),
        actions[k] matches OpenAction::TellPrefix { url, provider, store } ==> read_inner_url(
            outer_url,
        ) == Ok::<InnerUrlView, Seq<char>>(url@),
    decreases k,
{
    assert(opens(options, outer_url, events[k], actions[k]));
    if k > 0 {
        law_open_goes_in_order(options, outer_url, events, actions, k - 1);
        assert(opens(options, outer_url, events[k - 1], actions[k - 1]));
        assert(open_goes_on(actions[k - 1], events[k]));
    }
}

/// The first underscore behind `avalon://` ends the inner scheme, and stands for its `://`.
pub proof fn law_underscore_ends_scheme(scheme: Seq<char>, rest: Seq<char>)
    requires
        !scheme.contains('_'),
    ensures
        inner_text("avalon://"@ + scheme + "_"@ + rest) == Ok::<Seq<char>, Seq<char>>(
            scheme + "://"@ + rest,
        ),
{
    reveal_strlit("avalon://");
    reveal_strlit("_");
    assert("_"@ =~= seq!['_']);
    let full = "avalon://"@ + scheme + "_"@ + rest;
    assert(full.subrange(0, "avalon://"@.len() as int) =~= "avalon://"@);
    let url = full.skip("avalon://"@.len() as int);
    assert(url =~= scheme + "_"@ + rest);
    lemma_occurs_char(url, '_', scheme.len() as int);
    assert forall|i: int| 0 <= i < scheme.len() implies !#[trigger] occurs_at(url, "_"@, i) by {
        lemma_occurs_char(url, '_', i);
        assert(url[i] == scheme[i]);
    }
    lemma_find_is(url, "_"@, 0, scheme.len() as int);
    assert(url.take(scheme.len() as int) =~= scheme);
    assert(url.skip(scheme.len() as int + 1) =~= rest);
}

/// Where there is no underscore, the first slash behind `avalon://` ends the inner scheme, and
/// stands for its `://`.
pub proof fn law_slash_ends_scheme(scheme: Seq<char>, rest: Seq<char>)
    requires
        !scheme.contains('_'),
        !scheme.contains('/'),
        !rest.contains('_'),
    ensures
        inner_text("avalon://"@ + scheme + "/"@ + rest) == Ok::<Seq<char>, Seq<char>>(
            scheme + "://"@ + rest,
        ),
{
    reveal_strlit("avalon://");
    reveal_strlit("_");
    reveal_strlit("/");
    assert("_"@ =~= seq!['_']);
    assert("/"@ =~= seq!['/']);
    let full = "avalon://"@ + scheme + "/"@ + rest;
    assert(full.subrange(0, "avalon://"@.len() as int) =~= "avalon://"@);
    let url = full.skip("avalon://"@.len() as int);
    assert(url =~= scheme + "/"@ + rest);
    lemma_find_from(url, "_"@, 0);
    if let Some(k) = find_from(url, "_"@, 0) {
        lemma_occurs_char(url, '_', k);
        if k < scheme.len() {
            assert(scheme[k] == '_');
        } else if k > scheme.len() {
            assert(rest[k - scheme.len() - 1] == '_');
        }
    }
    lemma_occurs_char(url, '/', scheme.len() as int);
    assert forall|i: int| 0 <= i < scheme.len() implies !#[trigger] occurs_at(url, "/"@, i) by {
        lemma_occurs_char(url, '/', i);
        assert(url[i] == scheme[i]);
    }
    lemma_find_is(url, "/"@, 0, scheme.len() as int);
    assert(url.take(scheme.len() as int) =~= scheme);
    assert(url.skip(scheme.len() as int + 1) =~= rest);
}

/// Where there is neither an underscore nor a slash, all that stands behind `avalon://` is the
/// inner scheme.
pub proof fn law_bare_scheme(scheme: Seq<char>)
    requires
        !scheme.contains('_'),
        !scheme.contains('/'),
    ensures
        inner_text("avalon://"@ + scheme) == Ok::<Seq<char>, Seq<char>>(scheme + "://"@),
{
    reveal_strlit("avalon://");
    reveal_strlit("_");
    reveal_strlit("/");
    assert("_"@ =~= seq!['_']);
    assert("/"@ =~= seq!['/']);
    let full = "avalon://"@ + scheme;
    assert(full.subrange(0, "avalon://"@.len() as int) =~= "avalon://"@);
    assert(full.skip("avalon://"@.len() as int) =~= scheme);
    lemma_find_from(scheme, "_"@, 0);
    lemma_find_from(scheme, "/"@, 0);
    if let Some(k) = find_from(scheme, "_"@, 0) {
        lemma_occurs_char(scheme, '_', k);
    }
    if let Some(k) = find_from(scheme, "/"@, 0) {
        lemma_occurs_char(scheme, '/', k);
    }
}

} // verus!
