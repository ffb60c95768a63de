use avalon::dynamic::{
    cstr, dlerror_text, dynamic_provider_from_string, dynamic_providers_from_string, LoadAction,
    LoadEvent, ProviderLibs,
};

type Event = LoadEvent<&'static str, u8>;

/// One step of a load over an empty table.
fn load_step(path: &str, event: Event) -> LoadAction<&'static str> {
    ProviderLibs::new().load(path, event)
}

#[test]
fn test_cstr() {
    assert_eq!(b"abc\0".to_vec(), cstr("abc").unwrap());
}

#[test]
fn test_dlerror() {
    assert_eq!("unknown dlerror".to_string(), dlerror_text(None));
}

#[test]
fn test_failed_load() {
    let path = "/tmp/dir";
    let expected = format!("dlopen({}) failed: ", path);
    let found = dynamic_providers_from_string("MYSTRING", &format!("myprovider:{}", path));
    assert_eq!(None, found.error);
    assert_eq!(1, found.providers.len());
    assert_eq!("myprovider", found.providers[0].scheme);
    assert_eq!(
        LoadAction::Open { name: b"/tmp/dir\0".to_vec() },
        load_step(&found.providers[0].path, LoadEvent::Started { live: None })
    );
    match load_step(&found.providers[0].path, LoadEvent::NotOpened { message: None }) {
        LoadAction::Fail { error } => assert!(error.to_string().contains(&expected)),
        _ => panic!("the library is not opened"),
    }
}

#[test]
fn a_provider_is_a_scheme_and_a_path() {
    let p = dynamic_provider_from_string("X", "foo:/my/library/path.so").unwrap();
    assert_eq!("foo", p.scheme);
    assert_eq!("/my/library/path.so", p.path);
    let p = dynamic_provider_from_string("X", ":a:b").unwrap();
    assert_eq!("", p.scheme);
    assert_eq!("a:b", p.path);
    let e = dynamic_provider_from_string("X", "foo").unwrap_err();
    assert_eq!("Invalid user input: No colon found in X.", e.to_string());
}

#[test]
fn providers_before_a_bad_one_are_kept() {
    let found = dynamic_providers_from_string("X", ",a:1,,b:2,");
    assert_eq!(None, found.error);
    assert_eq!(2, found.providers.len());
    let found = dynamic_providers_from_string("X", "a:1,bad,b:2");
    assert_eq!("No colon found in X.", found.error.unwrap().message);
    assert_eq!(1, found.providers.len());
    assert_eq!("a", found.providers[0].scheme);
    let found = dynamic_providers_from_string("X", "");
    assert_eq!(None, found.error);
    assert_eq!(0, found.providers.len());
}

#[test]
fn a_zero_in_a_name_is_told_as_the_standard_library_tells_it() {
    for text in ["\0", "a\0b\0", "\u{e4}\u{1f600}\0"] {
        let e = cstr(text).unwrap_err();
        let position = text.as_bytes().iter().position(|b| *b == 0).unwrap();
        assert_eq!(
            format!(
                "CString::new({}) failed: nul byte found in provided data at position: {}",
                text, position
            ),
            e.message
        );
        assert_eq!(
            LoadAction::Fail { error: e },
            load_step(text, LoadEvent::Started { live: None })
        );
    }
}

#[test]
fn a_library_is_loaded_in_steps() {
    assert_eq!(
        LoadAction::Find { name: b"create_new_object_store_provider\0".to_vec() },
        load_step("a", LoadEvent::Opened)
    );
    assert_eq!(LoadAction::Create, load_step("a", LoadEvent::Found));
    assert_eq!(LoadAction::Close, load_step("a", LoadEvent::NotFound));
    match load_step("a", LoadEvent::Closed { message: Some("gone".to_string()) }) {
        LoadAction::Fail { error } => assert_eq!(
            "Invalid user input: dlsym(create_new_object_store_provider) failed: gone",
            error.to_string()
        ),
        _ => panic!("the function is not found"),
    }
}

#[test]
fn a_library_in_use_is_loaded_once() {
    let mut libs: ProviderLibs<u8> = ProviderLibs::new();
    assert_eq!(None, libs.get("a"));
    // A handle without an entry is no library in use.
    assert_eq!(
        LoadAction::Open { name: b"a\0".to_vec() },
        libs.load("a", LoadEvent::Started { live: Some("stray") })
    );
    assert_eq!(
        LoadAction::Done { handle: "A" },
        libs.load("a", LoadEvent::Created { handle: "A", entry: 1 })
    );
    libs.load("b", LoadEvent::Created { handle: "B", entry: 2 });
    libs.load::<&str>("c", LoadEvent::NotOpened { message: None });
    assert_eq!(
        LoadAction::Done { handle: "A" },
        libs.load("a", LoadEvent::Started { live: Some("A") })
    );
    assert_eq!((Some(&1), Some(&2), None), (libs.get("a"), libs.get("b"), libs.get("c")));
    // A library that is no longer in use is opened anew.
    assert_eq!(
        LoadAction::Open { name: b"a\0".to_vec() },
        libs.load::<&str>("a", LoadEvent::Started { live: None })
    );
    libs.load("a", LoadEvent::Created { handle: "A2", entry: 3 });
    assert_eq!((Some(&3), Some(&2)), (libs.get("a"), libs.get("b")));
}
