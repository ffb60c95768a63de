//! Store providers that are loaded from libraries: which ones, and in which steps.

use crate::error::InvalidInput;
use crate::text::{
    chars_of, decimal, find, find_from, lemma_find_from, lemma_occurs_char, push_decimal, split,
    split_str,
};
use vstd::hash_map::StringHashMap;
use vstd::prelude::*;
use vstd::utf8::encode_utf8;

verus! {

/// A provider to be loaded: the scheme that it is for, and the path of its library.
#[derive(Clone, Debug, PartialEq, Eq)]
pub struct DynamicProvider {
    pub scheme: String,
    pub path: String,
}

/// A `DynamicProvider` with its texts as sequences of characters.
#[verifier::ext_equal]
pub struct DynamicProviderView {
    pub scheme: Seq<char>,
    pub path: Seq<char>,
}

impl View for DynamicProvider {
    type V = DynamicProviderView;

    open spec fn view(&self) -> DynamicProviderView {
        DynamicProviderView { scheme: self.scheme@, path: self.path@ }
    }
}

/// The providers to be loaded in turn, and what to fail with behind them, if anything.
#[derive(Debug, PartialEq, Eq)]
pub struct DynamicProviders {
    pub providers: Vec<DynamicProvider>,
    pub error: Option<InvalidInput>,
}

/// A `DynamicProviders` with its providers as a sequence.
#[verifier::ext_equal]
pub struct DynamicProvidersView {
    pub providers: Seq<DynamicProviderView>,
    pub error: Option<Seq<char>>,
}

/// The providers of a vector.
pub open spec fn provider_views(v: Seq<DynamicProvider>) -> Seq<DynamicProviderView> {
    v.map_values(|p: DynamicProvider| p@)
}

impl View for DynamicProviders {
    type V = DynamicProvidersView;

    open spec fn view(&self) -> DynamicProvidersView {
        DynamicProvidersView {
            providers: provider_views(self.providers@),
            error: match self.error {
                Some(e) => Some(e@),
                None => None,
            },
        }
    }
}

/// The provider that is written `input`: its scheme, a colon, and its path, which may hold colons.
pub open spec fn read_provider(what: Seq<char>, input: Seq<char>) -> Result<
    DynamicProviderView,
    Seq<char>,
> {
    match find_from(input, ":"@, 0) {
        None => Err("No colon found in "@ + what + "."@),
        Some(i) => Ok(DynamicProviderView { scheme: input.take(i), path: input.skip(i + 1) }),
    }
}

/// The providers that are written in `parts`, up to the first part that is neither empty nor a
/// provider.
pub open spec fn read_providers(what: Seq<char>, parts: Seq<Seq<char>>) -> DynamicProvidersView
    decreases parts.len(),
{
    if parts.len() == 0 {
        DynamicProvidersView { providers: Seq::empty(), error: None }
    } else {
        let before = read_providers(what, parts.drop_last());
        if before.error is Some || parts.last().len() == 0 {
            before
        } else {
            match read_provider(what, parts.last()) {
                Ok(p) => DynamicProvidersView {
                    providers: before.providers.push(p),
                    error: None,
                },
                Err(e) => DynamicProvidersView { providers: before.providers, error: Some(e) },
            }
        }
    }
}

/// The provider that is written `input`, where `what` names the text for errors.
pub fn dynamic_provider_from_string(what: &str, input: &str) -> (r: Result<
    DynamicProvider,
    InvalidInput,
>)
    ensures
        match read_provider(what@, input@) {
            Ok(p) => r matches Ok(provider) && provider@ == p,
            Err(error) => r matches Err(e) && e@ == error,
        },
{
    proof {
        reveal_strlit(":");
        lemma_find_from(input@, ":"@, 0);
    }
    let chars = chars_of(input);
    match find(&chars, &chars_of(":"), 0) {
        None => {
            let mut message = String::new();
            message.append("No colon found in ");
            message.append(what);
            message.append(".");
            Err(InvalidInput { message })
        },
        Some(index) => {
            let scheme = input.substring_char(0, index).to_string();
            let path = input.substring_char(index + 1, chars.len()).to_string();
            assert(scheme@ =~= input@.take(index as int));
            assert(path@ =~= input@.skip(index + 1));
            Ok(DynamicProvider { scheme, path })
        },
    }
}

/// The providers that are written in `input` with commas between them; empty parts are passed over.
pub fn dynamic_providers_from_string(what: &str, input: &str) -> (r: DynamicProviders)
    ensures
        r@ == read_providers(what@, split(input@, ","@)),
{
    proof {
        reveal_strlit(",");
    }
    let parts = split_str(input, ",");
    let ghost pieces = split(input@, ","@);
    let mut providers: Vec<DynamicProvider> = Vec::new();
    let mut i: usize = 0;
    assert(pieces.take(0) =~= Seq::empty());
    assert(provider_views(providers@) =~= Seq::empty());
    while i < parts.len()
        invariant
            i <= parts.len(),
            parts@.map_values(|p: &str| p@) =~= pieces,
            pieces == split(input@, ","@),
            read_providers(what@, pieces.take(i as int)) == (DynamicProvidersView {
                providers: provider_views(providers@),
                error: None,
            }),
        decreases parts.len() - i,
    {
        let part = parts[i];
        let ghost next = pieces.take(i + 1);
        let ghost before = provider_views(providers@);
        proof {
            assert(pieces[i as int] == part@);
            assert(next.drop_last() =~= pieces.take(i as int));
            assert(next.last() == part@);
        }
        if !part.is_empty() {
            match dynamic_provider_from_string(what, part) {
                Ok(provider) => {
                    providers.push(provider);
                    assert(provider_views(providers@) =~= before.push(provider@));
                },
                Err(e) => {
                    proof {
                        lemma_read_providers_prefix(what@, pieces, i + 1);
                    }
                    return DynamicProviders { providers, error: Some(e) };
                },
            }
        }
        i = i + 1;
    }
    assert(pieces.take(i as int) =~= pieces);
    DynamicProviders { providers, error: None }
}

/// What `read_providers` makes of parts does not change after the first failure.
proof fn lemma_read_providers_prefix(what: Seq<char>, parts: Seq<Seq<char>>, n: int)
    requires
        0 <= n <= parts.len(),
        read_providers(what, parts.take(n)).error is Some,
    ensures
        read_providers(what, parts) == read_providers(what, parts.take(n)),
    decreases parts.len(),
{
    if n == parts.len() {
        assert(parts.take(n) =~= parts);
    } else {
        assert(parts.drop_last().take(n) =~= parts.take(n));
        lemma_read_providers_prefix(what, parts.drop_last(), n);
    }
}

/// A provider is read back from its scheme, a colon and its path, where the scheme has no colon.
pub proof fn law_provider_reads_back(what: Seq<char>, p: DynamicProviderView)
    ensures
        read_provider(what, p.scheme + ":"@ + p.path) == Ok::<DynamicProviderView, Seq<char>>(p)
            <==> !p.scheme.contains(':'),
{
    reveal_strlit(":");
    assert(":"@ =~= seq![':']);
    let text = p.scheme + ":"@ + p.path;
    let n = p.scheme.len() as int;
    let k = find_from(text, ":"@, 0)->0;
    assert(find_from(text, ":"@, 0) is Some && 0 <= k <= n && text[k] == ':') by {
        lemma_occurs_char(text, ':', n);
        lemma_find_from(text, ":"@, 0);
        lemma_occurs_char(text, ':', k);
    }
    if p.scheme.contains(':') {
        let i = choose|i: int| 0 <= i < n && p.scheme[i] == ':';
        assert(k < n) by {
            assert(text[i] == ':');
            lemma_occurs_char(text, ':', i);
            lemma_find_from(text, ":"@, 0);
        }
        assert(text.take(k).len() < n);
    } else {
        if k < n {
            assert(p.scheme[k] == ':');
        }
        assert(text.take(n) =~= p.scheme);
        assert(text.skip(n + 1) =~= p.path);
    }
}

/// Byte `i` is zero, and none before it.
pub open spec fn is_first_nul(bytes: Seq<u8>, i: int) -> bool {
    &&& 0 <= i < bytes.len()
    &&& bytes[i] == 0
    &&& forall|j: int| 0 <= j < i ==> #[trigger] bytes[j] != 0
}

/// The first byte that is zero.
pub open spec fn first_nul(bytes: Seq<u8>) -> Option<int> {
    if exists|i: int| 0 <= i < bytes.len() && #[trigger] bytes[i] == 0 {
        Some(choose|i: int| is_first_nul(bytes, i))
    } else {
        None
    }
}

/// A text as bytes that end with a zero, or what is said of one that holds a zero.
pub open spec fn c_bytes(input: Seq<char>) -> Result<Seq<u8>, Seq<char>> {
    match first_nul(encode_utf8(input)) {
        Some(i) => Err(
            "CString::new("@ + input
                + ") failed: nul byte found in provided data at position: "@ + decimal(i as nat),
        ),
        None => Ok(encode_utf8(input).push(0)),
    }
}

/// The bytes of a text, with a zero behind them.
pub fn cstr(input: &str) -> (r: Result<Vec<u8>, InvalidInput>)
    ensures
        match c_bytes(input@) {
            Ok(bytes) => r matches Ok(v) && v@ == bytes,
            Err(error) => r matches Err(e) && e@ == error,
        },
{
    let bytes = input.as_bytes();
    let ghost all = encode_utf8(input@);
    let mut out: Vec<u8> = Vec::new();
    let mut i: usize = 0;
    while i < bytes.len()
        invariant
            bytes@ == all,
            all == encode_utf8(input@),
            i <= bytes.len(),
            out@ =~= all.take(i as int),
            forall|j: int| 0 <= j < i ==> #[trigger] all[j] != 0,
        decreases bytes.len() - i,
    {
        if bytes[i] == 0 {
            let mut message = String::new();
            message.append("CString::new(");
            message.append(input);
            message.append(") failed: nul byte found in provided data at position: ");
            push_decimal(&mut message, i as u64);
            proof {
                assert(is_first_nul(all, i as int));
                let k = first_nul(all)->0;
                assert(is_first_nul(all, k));
                if k > i {
                    assert(all[i as int] != 0);
                }
            }
            return Err(InvalidInput { message });
        }
        out.push(bytes[i]);
        i = i + 1;
    }
    out.push(0);
    assert(out@ =~= all.push(0));
    Ok(out)
}

/// What is said of the last failure of the loader.
pub open spec fn dlerror_view(message: Option<String>) -> Seq<char> {
    match message {
        Some(text) => text@,
        None => "unknown dlerror"@,
    }
}

/// What is said of the last failure of the loader, where `message` is what the loader says.
pub fn dlerror_text(message: Option<String>) -> (r: String)
    ensures
        r@ == dlerror_view(message),
{
    match message {
        Some(text) => text,
        None => "unknown dlerror".to_string(),
    }
}

/// What happened while a library was loaded. An `H` is a handle that keeps a library loaded, and a
/// `W` one that does not; a `message` is what the loader says of a failure.
pub enum LoadEvent<H, W> {
    /// The library is to be loaded; `live` is what the table's handle still gives, if anything.
    Started { live: Option<H> },
    /// The library was opened.
    Opened,
    /// The library was not opened.
    NotOpened { message: Option<String> },
    /// The function in it was found.
    Found,
    /// The function in it was not found.
    NotFound,
    /// The library in which the function was not found was closed.
    Closed { message: Option<String> },
    /// The function was called, and the library is kept by `handle`, which `entry` can give again.
    Created { handle: H, entry: W },
}

/// What to do next while a library is loaded.
#[derive(Debug, PartialEq, Eq)]
pub enum LoadAction<H> {
    /// Open the library with this name, which ends with a zero.
    Open { name: Vec<u8> },
    /// Find the function with this name, which ends with a zero.
    Find { name: Vec<u8> },
    /// Call the function, and keep the library.
    Create,
    /// Close the library.
    Close,
    /// The library is loaded.
    Done { handle: H },
    /// Give up.
    Fail { error: InvalidInput },
}

/// The function of a library that makes its provider.
pub open spec fn create_function() -> Seq<char> {
    "create_new_object_store_provider"@
}

/// What a step of loading the library at `path` asks for after `event`, where `libs` is the table.
pub open spec fn loads<H, W>(
    libs: Map<Seq<char>, W>,
    path: Seq<char>,
    event: LoadEvent<H, W>,
    r: LoadAction<H>,
) -> bool {
    match event {
        LoadEvent::Started { live } => if live is Some && libs.contains_key(path) {
            r == (LoadAction::Done { handle: live->0 })
        } else {
            match c_bytes(path) {
                Ok(bytes) => r matches LoadAction::Open { name } && name@ == bytes,
                Err(e) => r matches LoadAction::Fail { error } && error@ == e,
            }
        },
        LoadEvent::Opened => r matches LoadAction::Find { name } && name@ == encode_utf8(
            create_function(),
        ).push(0),
        LoadEvent::NotOpened { message } => r matches LoadAction::Fail { error } && error@
            == "dlopen("@ + path + ") failed: "@ + dlerror_view(message),
        LoadEvent::Found => r is Create,
        LoadEvent::NotFound => r is Close,
        LoadEvent::Closed { message } => r matches LoadAction::Fail { error } && error@
            == "dlsym("@ + create_function() + ") failed: "@ + dlerror_view(message),
        LoadEvent::Created { handle, entry } => r == (LoadAction::Done { handle }),
    }
}

/// The table after a step of loading the library at `path`: a library that was made has its entry
/// there, and nothing else changes.
pub open spec fn table_after<H, W>(
    libs: Map<Seq<char>, W>,
    path: Seq<char>,
    event: LoadEvent<H, W>,
) -> Map<Seq<char>, W> {
    match event {
        LoadEvent::Created { handle, entry } => libs.insert(path, entry),
        _ => libs,
    }
}

/// The libraries that were loaded, by path. A `W` gives a library again while it is in use.
#[verifier::reject_recursive_types(W)]
pub struct ProviderLibs<W> {
    libs: StringHashMap<W>,
}

impl<W> View for ProviderLibs<W> {
    type V = Map<Seq<char>, W>;

    closed spec fn view(&self) -> Map<Seq<char>, W> {
        self.libs@
    }
}

impl<W> ProviderLibs<W> {
    /// No library was loaded.
    pub fn new() -> (r: Self)
        ensures
            r@ == Map::<Seq<char>, W>::empty(),
    {
        ProviderLibs { libs: StringHashMap::new() }
    }

    /// The entry of the library at `path`, where there is one.
    pub fn get(&self, path: &str) -> (r: Option<&W>)
        ensures
            match r {
                Some(entry) => self@.contains_key(path@) && self@[path@] == *entry,
                None => !self@.contains_key(path@),
            },
    {
        self.libs.get(path)
    }

    /// Takes the loading of the library at `path` one step further. A library that is in use is
    /// loaded already; else it is opened, its function found and called, and its entry kept.
    pub fn load<H>(&mut self, path: &str, event: LoadEvent<H, W>) -> (r: LoadAction<H>)
        ensures
            loads(old(self)@, path@, event, r),
            final(self)@ == table_after(old(self)@, path@, event),
    {
        match event {
            LoadEvent::Started { live } => {
                if let Some(handle) = live {
                    if self.libs.contains_key(path) {
                        return LoadAction::Done { handle };
                    }
                }
                match cstr(path) {
                    Ok(name) => LoadAction::Open { name },
                    Err(error) => LoadAction::Fail { error },
                }
            },
            LoadEvent::Opened => {
                proof {
                    lemma_create_function_bytes();
                }
                match cstr("create_new_object_store_provider") {
                    Ok(name) => LoadAction::Find { name },
                    Err(error) => LoadAction::Fail { error },
                }
            },
            LoadEvent::NotOpened { message } => {
                let mut text = String::new();
                text.append("dlopen(");
                text.append(path);
                text.append(") failed: ");
                text.append(dlerror_text(message).as_str());
                LoadAction::Fail { error: InvalidInput { message: text } }
            },
            LoadEvent::Found => LoadAction::Create,
            LoadEvent::NotFound => LoadAction::Close,
            LoadEvent::Closed { message } => {
                let mut text = String::new();
                text.append("dlsym(");
                text.append("create_new_object_store_provider");
                text.append(") failed: ");
                text.append(dlerror_text(message).as_str());
                LoadAction::Fail { error: InvalidInput { message: text } }
            },
            LoadEvent::Created { handle, entry } => {
                self.libs.insert(path.to_string(), entry);
                LoadAction::Done { handle }
            },
        }
    }
}

/// `event` is one of the answers that `action` can have; nothing follows on the end of a load.
pub open spec fn load_goes_on<H, W>(action: LoadAction<H>, event: LoadEvent<H, W>) -> bool {
    match action {
        LoadAction::Open { name } => event is Opened || event is NotOpened,
        LoadAction::Find { name } => event is Found || event is NotFound,
        LoadAction::Create => event is Created,
        LoadAction::Close => event is Closed,
        LoadAction::Done { handle } => false,
        LoadAction::Fail { error } => false,
    }
}

/// Whether a load ends with `action`.
pub open spec fn load_ends<H>(action: LoadAction<H>) -> bool {
    action is Done || action is Fail
}

/// The rest of a load of the library at `path`: with the table `libs`, these events come in turn,
/// each as an answer to the action before it, and the last action ends the load.
pub open spec fn load_runs<H, W>(
    libs: Map<Seq<char>, W>,
    path: Seq<char>,
    events: Seq<LoadEvent<H, W>>,
    actions: Seq<LoadAction<H>>,
    after: Map<Seq<char>, W>,
) -> bool
    decreases events.len(),
{
    &&& events.len() > 0
    &&& actions.len() == events.len()
    &&& loads(libs, path, events[0], actions[0])
    &&& if load_ends(actions[0]) {
        events.len() == 1 && after == table_after(libs, path, events[0])
    } else {
        &&& events.len() > 1
        &&& load_goes_on(actions[0], events[1])
        &&& load_runs(
            table_after(libs, path, events[0]),
            path,
            events.drop_first(),
            actions.drop_first(),
            after,
        )
    }
}

/// A load of the library at `path`, from its start to its end.
#[verifier::reject_recursive_types(W)]
#[verifier::reject_recursive_types(H)]
pub struct LoadRun<H, W> {
    pub path: Seq<char>,
    pub events: Seq<LoadEvent<H, W>>,
    pub actions: Seq<LoadAction<H>>,
}

impl<H, W> LoadRun<H, W> {
    /// The load takes the table from `before` to `after`.
    pub open spec fn takes(self, before: Map<Seq<char>, W>, after: Map<Seq<char>, W>) -> bool {
        &&& self.events.len() > 0
        &&& self.events[0] is Started
        &&& load_runs(before, self.path, self.events, self.actions, after)
    }

    /// What the table's handle still gave at the start of the load.
    pub open spec fn live(self) -> Option<H> {
        self.events[0]->live
    }

    /// The load loaded the library, which `handle` keeps.
    pub open spec fn gives(self, handle: H) -> bool {
        self.actions.last() == (LoadAction::<H>::Done { handle })
    }
}

/// How a load ends. A library that is in use is given at once, and the table stays as it is. Any
/// other is opened first, where its path has a name; the load then fails and leaves the table as it
/// is, or gives the library that was made, and the table has its entry and is else as it was.
pub proof fn law_load_ends<H, W>(
    run: LoadRun<H, W>,
    before: Map<Seq<char>, W>,
    after: Map<Seq<char>, W>,
)
    requires
        run.takes(before, after),
    ensures
        run.live() is Some && before.contains_key(run.path) ==> {
            &&& run.events.len() == 1
            &&& run.gives(run.live()->0)
            &&& after == before
        },
        run.live() is None || !before.contains_key(run.path) ==> {
            &&& run.actions[0] is Open || run.actions[0] is Fail
            &&& {
                ||| run.actions.last() is Fail && after == before
                ||| {
                    &&& run.events.len() == 4
                    &&& run.events[3] matches LoadEvent::Created { handle, entry }
                    &&& run.gives(handle)
                    &&& after == before.insert(run.path, entry)
                }
            }
        },
{
    reveal_with_fuel(load_runs, 5);
    let (events, actions) = (run.events, run.actions);
    if events.len() > 1 {
        let (events1, actions1) = (events.drop_first(), actions.drop_first());
        assert(events1[0] == events[1] && actions1[0] == actions[1]);
        if events.len() > 2 {
            let (events2, actions2) = (events1.drop_first(), actions1.drop_first());
            assert(events1[1] == events[2]);
            assert(events2[0] == events[2] && actions2[0] == actions[2]);
            if events.len() > 3 {
                let (events3, actions3) = (events2.drop_first(), actions2.drop_first());
                assert(events2[1] == events[3]);
                assert(events3[0] == events[3] && actions3[0] == actions[3]);
            }
        }
    }
}

/// A load leaves the entries of all other paths alone.
pub proof fn law_load_leaves_others<H, W>(
    run: LoadRun<H, W>,
    before: Map<Seq<char>, W>,
    after: Map<Seq<char>, W>,
    path: Seq<char>,
)
    requires
        run.takes(before, after),
        path != run.path,
    ensures
        after.contains_key(path) == before.contains_key(path),
        before.contains_key(path) ==> after[path] == before[path],
{
    law_load_ends(run, before, after);
}

/// A library is loaded once while it is in use. Load `i` gave the library at `path`, kept by `a`.
/// Others followed, of this path and of others, failed or not, and at the start of each one of this
/// path the library was in use. Then load `j` gives the same library again, opens nothing, and
/// leaves the table as it is.
///
/// `gives_again(w, h)` says that the entry `w` can give the library that `h` keeps; an entry gives
/// no other.
pub proof fn law_live_library_is_reused<H, W>(
    runs: Seq<LoadRun<H, W>>,
    tables: Seq<Map<Seq<char>, W>>,
    gives_again: spec_fn(W, H) -> bool,
    i: int,
    j: int,
    a: H,
)
    requires
        tables.len() == runs.len() + 1,
        forall|k: int|
            0 <= k < runs.len() ==> (#[trigger] runs[k]).takes(tables[k], tables[k + 1]),
        forall|w: W, h1: H, h2: H| #[trigger]
            gives_again(w, h1) && #[trigger] gives_again(w, h2) ==> h1 == h2,
        forall|k: int| 0 <= k < runs.len() ==> entry_fits(#[trigger] runs[k], tables[k], gives_again),
        0 <= i < j < runs.len(),
        runs[j].path == runs[i].path,
        runs[i].gives(a),
        forall|k: int|
            i < k <= j && (#[trigger] runs[k]).path == runs[i].path ==> runs[k].live() is Some,
    ensures
        runs[j].gives(a),
        runs[j].events.len() == 1,
        tables[j + 1] == tables[j],
{
    lemma_entry_stays(runs, tables, gives_again, i, j, a);
    law_load_ends(runs[j], tables[j], tables[j + 1]);
}

/// What a load's handles have to do with the table's entries: a handle that the entry at its path
/// still gave is one that this entry can give, and so is one that was made together with its entry.
pub open spec fn entry_fits<H, W>(
    run: LoadRun<H, W>,
    before: Map<Seq<char>, W>,
    gives_again: spec_fn(W, H) -> bool,
) -> bool {
    &&& run.live() is Some && before.contains_key(run.path) ==> gives_again(
        before[run.path],
        run.live()->0,
    )
    &&& forall|k: int|
        0 <= k < run.events.len() ==> (#[trigger] run.events[k] matches LoadEvent::Created {
            handle,
            entry,
        } ==> gives_again(entry, handle))
}

/// After load `i` gave a library that stays in use, and before load `j`, the table has an entry that
/// can give it.
proof fn lemma_entry_stays<H, W>(
    runs: Seq<LoadRun<H, W>>,
    tables: Seq<Map<Seq<char>, W>>,
    gives_again: spec_fn(W, H) -> bool,
    i: int,
    j: int,
    a: H,
)
    requires
        tables.len() == runs.len() + 1,
        forall|k: int|
            0 <= k < runs.len() ==> (#[trigger] runs[k]).takes(tables[k], tables[k + 1]),
        forall|k: int| 0 <= k < runs.len() ==> entry_fits(#[trigger] runs[k], tables[k], gives_again),
        0 <= i < j <= runs.len(),
        runs[i].gives(a),
        forall|k: int|
            i < k < j && (#[trigger] runs[k]).path == runs[i].path ==> runs[k].live() is Some,
    ensures
        tables[j].contains_key(runs[i].path),
        gives_again(tables[j][runs[i].path], a),
    decreases j - i,
{
    let k = j - 1;
    assert(runs[k].takes(tables[k], tables[k + 1]));
    law_load_ends(runs[k], tables[k], tables[k + 1]);
    if k == i {
        assert(entry_fits(runs[i], tables[i], gives_again));
    } else {
        lemma_entry_stays(runs, tables, gives_again, i, k, a);
    }
}

/// The name of the function that makes a provider holds no zero.
proof fn lemma_create_function_bytes()
    ensures
        first_nul(encode_utf8(create_function())) is None,
{
    reveal_strlit("create_new_object_store_provider");
    let name = create_function();
    vstd::utf8::is_ascii_chars_encode_utf8(name);
    assert forall|i: int| 0 <= i < encode_utf8(name).len() implies #[trigger] encode_utf8(name)[i]
        != 0 by {
        assert(encode_utf8(name)[i] == name[i] as u8);
    }
}

} // verus!
