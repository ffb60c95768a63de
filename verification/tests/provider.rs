use avalon::options::StorageOptions;
use avalon::provider::{AvalonObjectStoreProvider, InnerUrl, OpenAction, OpenEvent};
use url::Url;

#[test]
fn test_parse_non_avalon_url_as_avalon() {
    let expected = "Invalid user input: The URL scheme must be avalon.";
    assert_eq!(
        expected,
        AvalonObjectStoreProvider::parse_avalon_url(
            Url::parse("s3://mybucket/mypath").unwrap().as_str()
        )
        .unwrap_err()
        .to_string()[..expected.len()]
            .to_string()
    );
}

#[test]
fn test_parse_no_underscore_avalon_url() {
    assert_eq!(
        "file-object-store://tmp/foo".to_string(),
        AvalonObjectStoreProvider::parse_avalon_url(
            Url::parse("avalon://file-object-store/tmp/foo").unwrap().as_str()
        )
        .unwrap()
        .to_string()
    );
}

#[test]
fn test_parse_avalon_url() {
    assert_eq!(
        Url::parse("s3://mybucket/mypath?blah=meh").unwrap().to_string(),
        AvalonObjectStoreProvider::parse_avalon_url(
            Url::parse("avalon://s3_mybucket/mypath?blah=meh").unwrap().as_str()
        )
        .unwrap()
        .to_string()
    );
}

#[test]
fn test_get_avalon_endpoints_string_with_no_endpoints() {
    let storage_options = StorageOptions::new();
    let expected = "Invalid user input: No avalon_endpoints storage option or AVALON_ENDPOINTS environment variable found.".to_string();
    assert_eq!(
        expected,
        AvalonObjectStoreProvider::get_avalon_endpoints_string(&Some(storage_options), None)
            .unwrap_err()
            .to_string()[0..expected.len()]
    );
}

#[test]
fn test_get_avalon_endpoints_string_with_endpoints_in_map() {
    let mut storage_options = StorageOptions::new();
    storage_options.insert(
        "avalon_endpoints".to_string(),
        "localhost:9090,localhost:9091,localhost:9092".to_string(),
    );
    assert_eq!(
        "localhost:9090,localhost:9091,localhost:9092".to_string(),
        AvalonObjectStoreProvider::get_avalon_endpoints_string(&Some(storage_options), None)
            .unwrap()
    );
}

#[test]
fn an_option_comes_before_the_environment() {
    let mut options = StorageOptions::new();
    options.insert("other".to_string(), "x:1".to_string());
    let environment = Some("e:1".to_string());
    assert_eq!(
        Ok("e:1".to_string()),
        AvalonObjectStoreProvider::get_avalon_endpoints_string(&Some(options), environment.clone())
    );
    assert_eq!(
        Ok("e:1".to_string()),
        AvalonObjectStoreProvider::get_avalon_endpoints_string(&None, environment.clone())
    );
    let mut options = StorageOptions::new();
    options.insert("avalon_endpoints".to_string(), "o:1".to_string());
    options.insert("avalon_endpoints".to_string(), "o:2".to_string());
    options.insert("other".to_string(), "x:1".to_string());
    assert_eq!(
        Ok("o:2".to_string()),
        AvalonObjectStoreProvider::get_avalon_endpoints_string(&Some(options), environment)
    );
}

#[test]
fn endpoints_are_read_from_their_text() {
    let endpoints =
        AvalonObjectStoreProvider::avalon_endpoints(&None, Some("a:1,b:2".to_string())).unwrap();
    assert_eq!("a:1", endpoints[0].addr());
    assert_eq!("b:2", endpoints[1].addr());
    let e = AvalonObjectStoreProvider::avalon_endpoints(&None, Some("a".to_string())).unwrap_err();
    assert_eq!(
        "Invalid user input: Unable to parse avalon endpoints string: \
         Unable to parse a as a host:port pair.",
        e.to_string()
    );
    assert!(AvalonObjectStoreProvider::avalon_endpoints(&None, None).is_err());
}

#[test]
fn the_documented_url_is_parsed() {
    assert_eq!(
        Ok(InnerUrl {
            text: "az://container@account/my/path".to_string(),
            scheme: "az".to_string(),
            authority: "container@account".to_string(),
        }),
        AvalonObjectStoreProvider::parse_avalon_url("avalon://az_container@account/my/path")
    );
}

#[test]
fn the_inner_url_is_taken_apart_at_the_first_mark() {
    for (outer, inner) in [
        ("avalon://s3_bucket/my_path", "s3://bucket/my_path"),
        ("avalon://file-object-store/my_path", "file-object-store/my://path"),
        ("avalon://file-object-store", "file-object-store://"),
        ("avalon://file/", "file://"),
        ("avalon://", "://"),
    ] {
        assert_eq!(
            Ok(inner.to_string()),
            AvalonObjectStoreProvider::inner_url_text(outer)
        );
    }
    assert!(AvalonObjectStoreProvider::inner_url_text("avalon:/").is_err());
    assert!(AvalonObjectStoreProvider::inner_url_text("").is_err());
}

#[test]
fn an_inner_url_that_is_none_is_refused() {
    let e = AvalonObjectStoreProvider::parse_avalon_url("avalon://1x_y").unwrap_err();
    let said = Url::parse("1x://y").unwrap_err().to_string();
    assert_eq!(
        format!("Invalid user input: Unable to reconstruct inner URL: {}", said),
        e.to_string()
    );
    assert_eq!(
        "Unable to reconstruct inner URL: no",
        AvalonObjectStoreProvider::inner_url(Err("no".to_string())).unwrap_err().message
    );
    // A URL is given in its serialization.
    assert_eq!(
        Ok(InnerUrl {
            text: "http://example.com/".to_string(),
            scheme: "http".to_string(),
            authority: "example.com".to_string(),
        }),
        AvalonObjectStoreProvider::parse_avalon_url("avalon://HTTP_EXAMPLE.com")
    );
}

#[test]
fn a_provider_must_be_found() {
    assert_eq!(Ok(5), AvalonObjectStoreProvider::require_provider(Some(5), "s3"));
    let e = AvalonObjectStoreProvider::require_provider::<u8>(None, "s3").unwrap_err();
    assert_eq!(
        "Invalid user input: No provider found for inner object store scheme: s3",
        e.to_string()
    );
}

type Event = OpenEvent<&'static str, u8, &'static str>;
type Action = OpenAction<&'static str, u8, &'static str>;

fn step(outer_url: &str, event: Event) -> Action {
    AvalonObjectStoreProvider::new_avalon_store(&None, outer_url, event)
}

fn refused(action: Action) -> String {
    match action {
        OpenAction::Refuse { error } => error.message,
        _ => panic!("the opening is refused"),
    }
}

fn failed(action: Action) -> &'static str {
    match action {
        OpenAction::Fail { error } => error,
        _ => panic!("the opening fails"),
    }
}

#[test]
fn a_store_is_opened_in_order() {
    let outer = "avalon://s3_mybucket/my/path";
    match step(outer, OpenEvent::Started { environment: Some("a:1,b:2".to_string()) }) {
        OpenAction::AskCluster { endpoints } => assert_eq!(2, endpoints.len()),
        _ => panic!("the cluster is asked"),
    }
    let url = match step(outer, OpenEvent::ClusterKnown) {
        OpenAction::FindProvider { url } => url,
        _ => panic!("the provider is sought"),
    };
    assert_eq!("s3", url.scheme);
    assert_eq!("mybucket", url.authority);
    let (url, provider) = match step(outer, OpenEvent::ProviderSought { url, found: Some("p") }) {
        OpenAction::MakeStore { url, provider } => (url, provider),
        _ => panic!("the store is made"),
    };
    assert_eq!("s3://mybucket/my/path", url.text);
    assert_eq!("p", provider);
    let store = match step(outer, OpenEvent::StoreMade { url, provider, store: 7 }) {
        OpenAction::TellPrefix { url, provider, store } => {
            assert_eq!("mybucket", url.authority);
            assert_eq!("p", provider);
            store
        }
        _ => panic!("the prefix is told"),
    };
    match step(outer, OpenEvent::PrefixTold { store, prefix: "s3$mybucket".to_string() }) {
        OpenAction::Done { store, prefix } => {
            assert_eq!(7, store);
            assert_eq!("s3$mybucket", prefix);
        }
        _ => panic!("the store is open"),
    }
}

#[test]
fn the_first_failure_ends_an_opening() {
    // The endpoints are refused before the URL is looked at.
    assert!(refused(step("s3://x", OpenEvent::Started { environment: None }))
        .starts_with("No avalon_endpoints storage option"));
    assert_eq!(
        "Unable to parse avalon endpoints string: Unable to parse a as a host:port pair.",
        refused(step("s3://x", OpenEvent::Started { environment: Some("a".to_string()) }))
    );
    let started = OpenEvent::Started { environment: Some("a:1".to_string()) };
    assert!(matches!(step("s3://x", started), OpenAction::AskCluster { .. }));
    assert_eq!("gone", failed(step("s3://x", OpenEvent::ClusterUnknown { error: "gone" })));
    assert_eq!(
        "The URL scheme must be avalon.",
        refused(step("s3://x", OpenEvent::ClusterKnown))
    );
    let outer = "avalon://s3_x";
    let url = AvalonObjectStoreProvider::parse_avalon_url(outer).unwrap();
    assert_eq!(
        "No provider found for inner object store scheme: s3",
        refused(step(outer, OpenEvent::ProviderSought { url, found: None }))
    );
    assert_eq!("no store", failed(step(outer, OpenEvent::StoreNotMade { error: "no store" })));
    assert_eq!("no prefix", failed(step(outer, OpenEvent::PrefixNotTold { error: "no prefix" })));
}
