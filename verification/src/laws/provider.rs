//! Opening: where the cluster is found, which URL stands behind it, and in which order.

use crate::endpoint::{endpoint_views, parse_endpoints, AvalonEndpoint};
use crate::error::{AvalonError, InvalidInput};
use crate::options::StorageOptions;
use crate::provider::{
    law_bare_scheme, law_slash_ends_scheme, law_underscore_ends_scheme, url_parsed,
    AvalonObjectStoreProvider, InnerUrl, OpenAction, OpenEvent,
};
use crate::text::occurs_at;
use vstd::prelude::*;

verus! {

/// An option has the value that it was given last, and no other option changes; at first there is
/// none.
pub proof fn law_option_has_last_value(
    options: &mut StorageOptions,
    name: String,
    value: String,
    wanted: &str,
    before: Option<&String>,
    after: Option<&String>,
    none: StorageOptions,
    nothing: Option<&String>,
)
    requires
        call_ensures(StorageOptions::insert, (options, name, value), ()),
        call_ensures(StorageOptions::get, (&*old(options), wanted), before),
        call_ensures(StorageOptions::get, (&*final(options), wanted), after),
        call_ensures(StorageOptions::new, (), none),
        call_ensures(StorageOptions::get, (&none, wanted), nothing),
    ensures
        if wanted@ == name@ {
            after matches Some(v) && v@ == value@
        } else {
            match before {
                Some(b) => after matches Some(v) && v@ == b@,
                None => after is None,
            }
        },
        nothing is None,
{
}

/// The endpoints are named by the option `avalon_endpoints`, and where it is not given by the
/// environment; where neither names them, that is told.
pub proof fn law_option_comes_before_environment(
    options: &Option<StorageOptions>,
    environment: Option<String>,
    key: &str,
    option: Option<&String>,
    r: Result<String, InvalidInput>,
)
    requires
        key@ == "avalon_endpoints"@,
        *options matches Some(given) ==> call_ensures(StorageOptions::get, (&given, key), option),
        *options is None ==> option is None,
        call_ensures(
            AvalonObjectStoreProvider::get_avalon_endpoints_string,
            (options, environment),
            r,
        ),
    ensures
        match (option, environment) {
            (Some(text), _) => r matches Ok(s) && s@ == text@,
            (None, Some(text)) => r matches Ok(s) && s@ == text@,
            (None, None) => r matches Err(e) && e.message@
                == "No avalon_endpoints storage option or AVALON_ENDPOINTS environment variable found."@,
        },
{
}

/// The endpoints are those that their text is read as.
pub proof fn law_endpoints_are_read_from_their_text(
    options: &Option<StorageOptions>,
    environment: Option<String>,
    text: Result<String, InvalidInput>,
    input: &str,
    read: Result<Vec<AvalonEndpoint>, AvalonError>,
    said: String,
    r: Result<Vec<AvalonEndpoint>, InvalidInput>,
)
    requires
        call_ensures(
            AvalonObjectStoreProvider::get_avalon_endpoints_string,
            (options, environment),
            text,
        ),
        text matches Ok(s) ==> input@ == s@,
        text is Ok ==> call_ensures(parse_endpoints, (input,), read),
        text is Ok ==> (read matches Err(e) ==> call_ensures(
            AvalonError::to_string,
            (&e,),
            said,
        )),
        call_ensures(
            AvalonObjectStoreProvider::avalon_endpoints,
            (options, environment),
            r,
        ),
    ensures
        match text {
            Err(refused) => r matches Err(e) && e.message@ == refused.message@,
            Ok(_) => match read {
                Ok(endpoints) => r matches Ok(v) && v.len() == endpoints.len() && forall|i: int|
                    0 <= i < v.len() ==> (#[trigger] v[i]).host@ == endpoints[i].host@ && v[i].port
                        == endpoints[i].port,
                Err(_) => r matches Err(e) && e.message@
                    =~= "Unable to parse avalon endpoints string: "@ + said@,
            },
        },
{
    if let (Ok(endpoints), Ok(v)) = (read, r) {
        if text is Ok {
            let (a, b) = (endpoint_views(v@), endpoint_views(endpoints@));
            assert(a == b);
            assert(a.len() == v.len() && b.len() == endpoints.len());
            assert forall|i: int| 0 <= i < v.len() implies (#[trigger] v[i]).host@
                == endpoints[i].host@ && v[i].port == endpoints[i].port by {
                assert(a[i] == v[i]@ && b[i] == endpoints[i]@);
            }
        }
    }
}

/// A result is the URL that `text` is read as, or tells why it is none.
pub open spec fn is_url_of(text: Seq<char>, r: Result<InnerUrl, InvalidInput>) -> bool {
    match url_parsed(text) {
        Ok(url) => r matches Ok(inner) && inner.text@ == url.text && inner.scheme@ == url.scheme
            && inner.authority@ == url.authority,
        Err(said) => r matches Err(e) && e.message@ =~= "Unable to reconstruct inner URL: "@ + said,
    }
}

/// The inner URL is what stands behind `avalon://`, with `://` in place of the first underscore;
/// and where there is none, in place of the first slash; and where there is none, at the end. A
/// URL that does not begin so is refused.
pub proof fn law_inner_url_is_read(
    full_url: &str,
    scheme: Seq<char>,
    rest: Seq<char>,
    r: Result<InnerUrl, InvalidInput>,
)
    requires
        call_ensures(AvalonObjectStoreProvider::parse_avalon_url, (full_url,), r),
        !scheme.contains('_'),
    ensures
        full_url@ == "avalon://"@ + scheme + "_"@ + rest ==> is_url_of(scheme + "://"@ + rest, r),
        full_url@ == "avalon://"@ + scheme + "/"@ + rest && !scheme.contains('/') && !rest.contains(
            '_',
        ) ==> is_url_of(scheme + "://"@ + rest, r),
        full_url@ == "avalon://"@ + scheme && !scheme.contains('/') ==> is_url_of(
            scheme + "://"@,
            r,
        ),
        !"avalon://"@.is_prefix_of(full_url@) ==> (r matches Err(e) && e.message@
            == "The URL scheme must be avalon."@),
{
    law_underscore_ends_scheme(scheme, rest);
    if !scheme.contains('/') {
        law_bare_scheme(scheme);
        if !rest.contains('_') {
            law_slash_ends_scheme(scheme, rest);
        }
    }
    reveal_strlit("avalon://");
    if occurs_at(full_url@, "avalon://"@, 0) {
        assert("avalon://"@ =~= full_url@.subrange(0, "avalon://"@.len() as int));
        assert("avalon://"@.is_prefix_of(full_url@));
    }
}

/// The text of the inner URL is made in the same way, before it is read as a URL.
pub proof fn law_inner_text_is_made(
    full_url: &str,
    scheme: Seq<char>,
    rest: Seq<char>,
    r: Result<String, InvalidInput>,
)
    requires
        call_ensures(AvalonObjectStoreProvider::inner_url_text, (full_url,), r),
        !scheme.contains('_'),
    ensures
        full_url@ == "avalon://"@ + scheme + "_"@ + rest ==> (r matches Ok(s) && s@ =~= scheme
            + "://"@ + rest),
        full_url@ == "avalon://"@ + scheme + "/"@ + rest && !scheme.contains('/') && !rest.contains(
            '_',
        ) ==> (r matches Ok(s) && s@ =~= scheme + "://"@ + rest),
        full_url@ == "avalon://"@ + scheme && !scheme.contains('/') ==> (r matches Ok(s) && s@
            =~= scheme + "://"@),
        r is Ok <==> "avalon://"@.is_prefix_of(full_url@),
{
    law_underscore_ends_scheme(scheme, rest);
    if !scheme.contains('/') {
        law_bare_scheme(scheme);
        if !rest.contains('_') {
            law_slash_ends_scheme(scheme, rest);
        }
    }
    reveal_strlit("avalon://");
    let mark = "avalon://"@;
    if occurs_at(full_url@, mark, 0) {
        assert(mark =~= full_url@.subrange(0, mark.len() as int));
        assert(mark.is_prefix_of(full_url@));
    }
    if mark.is_prefix_of(full_url@) {
        assert(full_url@.subrange(0, mark.len() as int) =~= mark);
        assert(occurs_at(full_url@, mark, 0));
    }
}

/// A URL that was read is the inner URL as it is; one that was not is told.
pub proof fn law_read_url_is_inner_url(
    parsed: Result<InnerUrl, String>,
    r: Result<InnerUrl, InvalidInput>,
    url: &InnerUrl,
    shown: String,
)
    requires
        call_ensures(AvalonObjectStoreProvider::inner_url, (parsed,), r),
        call_ensures(InnerUrl::to_string, (url,), shown),
    ensures
        match parsed {
            Ok(u) => r matches Ok(inner) && inner.text@ == u.text@ && inner.scheme@ == u.scheme@
                && inner.authority@ == u.authority@,
            Err(said) => r matches Err(e) && e.message@ =~= "Unable to reconstruct inner URL: "@
                + said@,
        },
        shown@ == url.text@,
{
}

/// A provider that was found is given; a scheme without one is told.
pub proof fn law_provider_is_required<P>(
    found: Option<P>,
    scheme: &str,
    r: Result<P, InvalidInput>,
)
    requires
        call_ensures(AvalonObjectStoreProvider::require_provider::<P>, (found, scheme), r),
    ensures
        match found {
            Some(provider) => r == Ok::<P, InvalidInput>(provider),
            None => r matches Err(e) && e.message@
                =~= "No provider found for inner object store scheme: "@ + scheme@,
        },
{
}

/// An opening asks the endpoints that are named for the cluster; once it is known, it seeks the
/// provider of the inner URL; with that it makes the store at this URL; and over that store it has
/// the prefix told. What fails on the way ends it: what cannot be used is refused, and failures
/// from outside are handed on.
pub proof fn law_opening_goes_step_by_step<P, S, E>(
    options: &Option<StorageOptions>,
    outer_url: &str,
    event: OpenEvent<P, S, E>,
    r: OpenAction<P, S, E>,
    environment: Option<String>,
    endpoints: Result<Vec<AvalonEndpoint>, InvalidInput>,
    inner: Result<InnerUrl, InvalidInput>,
)
    requires
        call_ensures(
            AvalonObjectStoreProvider::new_avalon_store::<P, S, E>,
            (options, outer_url, event),
            r,
        ),
        event matches OpenEvent::Started { environment: e } ==> environment == e,
        call_ensures(
            AvalonObjectStoreProvider::avalon_endpoints,
            (options, environment),
            endpoints,
        ),
        call_ensures(AvalonObjectStoreProvider::parse_avalon_url, (outer_url,), inner),
    ensures
        match event {
            OpenEvent::Started { .. } => match endpoints {
                Ok(named) => r matches OpenAction::AskCluster { endpoints: asked } && asked.len()
                    == named.len() && forall|i: int|
                    0 <= i < asked.len() ==> (#[trigger] asked[i]).host@ == named[i].host@
                        && asked[i].port == named[i].port,
                Err(e) => r matches OpenAction::Refuse { error } && error.message@ == e.message@,
            },
            OpenEvent::ClusterKnown => match inner {
                Ok(u) => r matches OpenAction::FindProvider { url } && url.text@ == u.text@
                    && url.scheme@ == u.scheme@ && url.authority@ == u.authority@,
                Err(e) => r matches OpenAction::Refuse { error } && error.message@ == e.message@,
            },
            OpenEvent::ProviderSought { url, found } => match found {
                Some(p) => r matches OpenAction::MakeStore { url: u, provider } && u == url
                    && provider == p,
                None => r matches OpenAction::Refuse { error } && error.message@
                    =~= "No provider found for inner object store scheme: "@ + url.scheme@,
            },
            OpenEvent::StoreMade { url, provider, store } => r matches OpenAction::TellPrefix {
                url: u,
                provider: p,
                store: s,
            } && u == url && p == provider && s == store,
            OpenEvent::PrefixTold { store, prefix } => r matches OpenAction::Done {
                store: s,
                prefix: p,
            } && s == store && p == prefix,
            OpenEvent::ClusterUnknown { error } => r matches OpenAction::Fail { error: e } && e
                == error,
            OpenEvent::StoreNotMade { error } => r matches OpenAction::Fail { error: e } && e
                == error,
            OpenEvent::PrefixNotTold { error } => r matches OpenAction::Fail { error: e } && e
                == error,
        },
{
    if let OpenEvent::Started { environment: e } = event {
        if let (Ok(named), OpenAction::AskCluster { endpoints: asked }) = (endpoints, r) {
            let (a, b) = (endpoint_views(asked@), endpoint_views(named@));
            assert(a == b);
            assert(a.len() == asked.len() && b.len() == named.len());
            assert forall|i: int| 0 <= i < asked.len() implies (#[trigger] asked[i]).host@
                == named[i].host@ && asked[i].port == named[i].port by {
                assert(a[i] == asked[i]@ && b[i] == named[i]@);
            }
        }
    }
}

} // verus!
