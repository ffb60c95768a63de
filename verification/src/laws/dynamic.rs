//! Providers from libraries: which ones a text names, and how a library is loaded.

use crate::dynamic::{
    cstr, dlerror_text, dynamic_provider_from_string, dynamic_providers_from_string, first_nul,
    is_first_nul, provider_views, read_provider, read_providers, DynamicProvider,
    DynamicProviderView, DynamicProviders, LoadAction, LoadEvent, ProviderLibs,
};
use crate::error::InvalidInput;
use crate::text::{decimal, find_from, join, lemma_find_from, lemma_occurs_char, lemma_split_join};
use vstd::prelude::*;
use vstd::utf8::encode_utf8;

verus! {

/// `p` is the provider that is written `part`: its scheme, which has no colon, a colon and its
/// path.
pub open spec fn is_written(part: Seq<char>, p: DynamicProvider) -> bool {
    &&& part =~= p.scheme@ + ":"@ + p.path@
    &&& !p.scheme@.contains(':')
}

/// What reading one provider makes of a text.
proof fn lemma_read_provider(what: Seq<char>, part: Seq<char>)
    ensures
        match read_provider(what, part) {
            Ok(p) => part =~= p.scheme + ":"@ + p.path && !p.scheme.contains(':'),
            Err(e) => !part.contains(':') && e =~= "No colon found in "@ + what + "."@,
        },
{
    reveal_strlit(":");
    assert(":"@ =~= seq![':']);
    lemma_find_from(part, ":"@, 0);
    match find_from(part, ":"@, 0) {
        Some(k) => {
            lemma_occurs_char(part, ':', k);
            let scheme = part.take(k);
            if scheme.contains(':') {
                let i = choose|i: int| 0 <= i < scheme.len() && scheme[i] == ':';
                lemma_occurs_char(part, ':', i);
            }
        },
        None => {
            if part.contains(':') {
                let i = choose|i: int| 0 <= i < part.len() && part[i] == ':';
                lemma_occurs_char(part, ':', i);
            }
        },
    }
}

/// A provider is read from a text with a colon: what stands before the first colon is its scheme,
/// and what stands behind it its path. A text without one is refused.
pub proof fn law_provider_is_read(
    what: &str,
    input: &str,
    r: Result<DynamicProvider, InvalidInput>,
)
    requires
        call_ensures(dynamic_provider_from_string, (what, input), r),
    ensures
        r is Ok <==> input@.contains(':'),
        r matches Ok(p) ==> is_written(input@, p),
        r matches Err(e) ==> e.message@ =~= "No colon found in "@ + what@ + "."@,
{
    reveal_strlit(":");
    lemma_read_provider(what@, input@);
    if let Ok(p) = r {
        assert(input@[p.scheme@.len() as int] == ':');
    }
}

/// The parts that are not empty, in order.
pub open spec fn filled(parts: Seq<Seq<char>>) -> Seq<Seq<char>>
    decreases parts.len(),
{
    if parts.len() == 0 {
        Seq::empty()
    } else if parts.last().len() == 0 {
        filled(parts.drop_last())
    } else {
        filled(parts.drop_last()).push(parts.last())
    }
}

/// The providers are those that the parts write, one for each, in order.
pub open spec fn are_written(parts: Seq<Seq<char>>, ps: Seq<DynamicProvider>) -> bool {
    &&& ps.len() == parts.len()
    &&& forall|i: int| 0 <= i < ps.len() ==> is_written(parts[i], #[trigger] ps[i])
}

/// The same over views.
spec fn views_written(parts: Seq<Seq<char>>, ps: Seq<DynamicProviderView>) -> bool {
    &&& ps.len() == parts.len()
    &&& forall|i: int|
        0 <= i < ps.len() ==> parts[i] =~= (#[trigger] ps[i]).scheme + ":"@ + ps[i].path
            && !ps[i].scheme.contains(':')
}

/// A part that is neither empty nor a provider.
pub open spec fn is_bad(part: Seq<char>) -> bool {
    part.len() > 0 && !part.contains(':')
}

/// What reading parts makes of them, up to the first bad one.
proof fn lemma_read_providers(what: Seq<char>, parts: Seq<Seq<char>>, k: int)
    requires
        0 <= k <= parts.len(),
        forall|i: int| 0 <= i < k ==> !is_bad(#[trigger] parts[i]),
        k < parts.len() ==> is_bad(parts[k]),
    ensures
        views_written(filled(parts.take(k)), read_providers(what, parts).providers),
        read_providers(what, parts).error is Some <==> k < parts.len(),
        read_providers(what, parts).error matches Some(e) ==> e =~= "No colon found in "@ + what
            + "."@,
    decreases parts.len(),
{
    reveal_strlit(":");
    if parts.len() > 0 {
        let init = parts.drop_last();
        let last = parts.last();
        assert(forall|i: int| 0 <= i < init.len() ==> init[i] == #[trigger] parts[i]);
        lemma_read_provider(what, last);
        if k == parts.len() {
            assert forall|i: int| 0 <= i < init.len() implies !is_bad(#[trigger] init[i]) by {
                assert(init[i] == parts[i]);
            }
            lemma_read_providers(what, init, k - 1);
            assert(parts.take(k) =~= parts);
            assert(init.take(k - 1) =~= init);
            assert(!is_bad(parts[k - 1]));
        } else if k == parts.len() - 1 {
            assert forall|i: int| 0 <= i < init.len() implies !is_bad(#[trigger] init[i]) by {
                assert(init[i] == parts[i]);
            }
            lemma_read_providers(what, init, k);
            assert(parts.take(k) =~= init);
            assert(init.take(k) =~= init);
            if let Ok(p) = read_provider(what, last) {
                assert(last[p.scheme.len() as int] == ':');
            }
        } else {
            assert forall|i: int| 0 <= i < k implies !is_bad(#[trigger] init[i]) by {
                assert(init[i] == parts[i]);
            }
            assert(is_bad(init[k]));
            lemma_read_providers(what, init, k);
            assert(parts.take(k) =~= init.take(k));
        }
    }
}

/// The providers of a list are read part by part, in order; empty parts are passed over. Part `k`
/// is the first that is neither empty nor a provider, or the end of the list: the providers before
/// it are given, each with its own scheme and path, and there is an error exactly where there is
/// such a part.
pub proof fn law_providers_are_read_in_order(
    what: &str,
    input: &str,
    parts: Seq<Seq<char>>,
    k: int,
    r: DynamicProviders,
)
    requires
        parts.len() > 0,
        forall|i: int| 0 <= i < parts.len() ==> !(#[trigger] parts[i]).contains(','),
        input@ == join(parts, ","@),
        0 <= k <= parts.len(),
        forall|i: int| 0 <= i < k ==> !is_bad(#[trigger] parts[i]),
        k < parts.len() ==> is_bad(parts[k]),
        call_ensures(dynamic_providers_from_string, (what, input), r),
    ensures
        are_written(filled(parts.take(k)), r.providers@),
        r.error is Some <==> k < parts.len(),
        r.error matches Some(e) ==> e.message@ =~= "No colon found in "@ + what@ + "."@,
{
    reveal_strlit(",");
    assert(","@ =~= seq![',']);
    lemma_split_join(parts, ',');
    lemma_read_providers(what@, parts, k);
    let views = provider_views(r.providers@);
    assert(r@.providers == views);
    let written = filled(parts.take(k));
    assert forall|i: int| 0 <= i < r.providers.len() implies is_written(
        written[i],
        #[trigger] r.providers@[i],
    ) by {
        assert(views[i] == r.providers[i]@);
    }
}

/// How a provider is written.
pub open spec fn provider_text(p: DynamicProvider) -> Seq<char> {
    p.scheme@ + ":"@ + p.path@
}

/// Providers whose schemes have no colon and no comma, and whose paths have no comma, are read back
/// from their list, each as it was and in order.
pub proof fn law_providers_read_back(
    what: &str,
    input: &str,
    ps: Seq<DynamicProvider>,
    r: DynamicProviders,
)
    requires
        ps.len() > 0,
        forall|i: int|
            0 <= i < ps.len() ==> !(#[trigger] ps[i]).scheme@.contains(':')
                && !ps[i].scheme@.contains(',') && !ps[i].path@.contains(','),
        input@ == join(ps.map_values(|p: DynamicProvider| provider_text(p)), ","@),
        call_ensures(dynamic_providers_from_string, (what, input), r),
    ensures
        r.error is None,
        r.providers.len() == ps.len(),
        forall|i: int|
            0 <= i < ps.len() ==> (#[trigger] r.providers[i]).scheme@ == ps[i].scheme@
                && r.providers[i].path@ == ps[i].path@,
{
    reveal_strlit(":");
    assert(":"@ =~= seq![':']);
    let parts = ps.map_values(|p: DynamicProvider| provider_text(p));
    assert forall|i: int| 0 <= i < parts.len() implies !(#[trigger] parts[i]).contains(',')
        && !is_bad(parts[i]) && parts[i].len() > 0 by {
        let p = ps[i];
        let part = parts[i];
        assert(part == provider_text(p));
        assert(part[p.scheme@.len() as int] == ':');
        if part.contains(',') {
            let j = choose|j: int| 0 <= j < part.len() && part[j] == ',';
            if j < p.scheme@.len() {
                assert(p.scheme@[j] == ',');
            } else if j > p.scheme@.len() {
                assert(p.path@[j - p.scheme@.len() - 1] == ',');
            }
        }
    }
    law_providers_are_read_in_order(what, input, parts, parts.len() as int, r);
    assert(parts.take(parts.len() as int) =~= parts);
    lemma_filled(parts);
    assert forall|i: int| 0 <= i < ps.len() implies (#[trigger] r.providers[i]).scheme@
        == ps[i].scheme@ && r.providers[i].path@ == ps[i].path@ by {
        assert(is_written(parts[i], r.providers@[i]));
        assert(parts[i] == provider_text(ps[i]));
        lemma_one_provider(parts[i], r.providers[i]@, ps[i]@);
    }
}

/// A part writes one provider.
proof fn lemma_one_provider(part: Seq<char>, p: DynamicProviderView, q: DynamicProviderView)
    requires
        part =~= p.scheme + ":"@ + p.path,
        part =~= q.scheme + ":"@ + q.path,
        !p.scheme.contains(':'),
        !q.scheme.contains(':'),
    ensures
        p == q,
{
    reveal_strlit(":");
    let (m, n) = (p.scheme.len() as int, q.scheme.len() as int);
    assert(part[m] == ':' && part[n] == ':');
    if m < n {
        assert(q.scheme[m] == ':');
    } else if n < m {
        assert(p.scheme[n] == ':');
    }
    assert(p.scheme =~= part.take(m));
    assert(q.scheme =~= part.take(n));
    assert(p.path =~= part.skip(m + 1));
    assert(q.path =~= part.skip(n + 1));
}

/// Where no part is empty, all are filled.
proof fn lemma_filled(parts: Seq<Seq<char>>)
    requires
        forall|i: int| 0 <= i < parts.len() ==> (#[trigger] parts[i]).len() > 0,
    ensures
        filled(parts) =~= parts,
    decreases parts.len(),
{
    if parts.len() > 0 {
        let init = parts.drop_last();
        assert forall|i: int| 0 <= i < init.len() implies (#[trigger] init[i]).len() > 0 by {
            assert(init[i] == parts[i]);
        }
        lemma_filled(init);
        assert(parts[parts.len() - 1].len() > 0);
    }
}

/// A name for the loader is the bytes of a text with a zero behind them; a text with a zero is
/// refused, and the place of its first zero is told.
pub proof fn law_name_ends_with_zero(input: &str, r: Result<Vec<u8>, InvalidInput>)
    requires
        call_ensures(cstr, (input,), r),
    ensures
        r is Ok <==> !encode_utf8(input@).contains(0u8),
        r matches Ok(name) ==> name@ =~= encode_utf8(input@).push(0u8),
        r matches Err(e) ==> exists|i: int| #[trigger] is_zero_told(input@, i, e),
{
    let bytes = encode_utf8(input@);
    if bytes.contains(0u8) {
        let i = choose|i: int| 0 <= i < bytes.len() && bytes[i] == 0u8;
        lemma_first_nul(bytes, i);
        let first = first_nul(bytes)->0;
        assert(is_first_nul(bytes, first));
        if let Err(e) = r {
            assert(is_zero_told(input@, first, e));
        }
    } else if first_nul(bytes) is Some {
        let i = choose|i: int| 0 <= i < bytes.len() && #[trigger] bytes[i] == 0;
        assert(bytes.contains(bytes[i]));
    }
}

/// Byte `i` of a text is its first zero, and `e` tells so.
pub open spec fn is_zero_told(input: Seq<char>, i: int, e: InvalidInput) -> bool {
    let bytes = encode_utf8(input);
    &&& 0 <= i < bytes.len()
    &&& bytes[i] == 0
    &&& !bytes.take(i).contains(0u8)
    &&& e.message@ =~= "CString::new("@ + input
        + ") failed: nul byte found in provided data at position: "@ + decimal(i as nat)
}

/// Bytes with a zero have a first one.
proof fn lemma_first_nul(bytes: Seq<u8>, i: int)
    requires
        0 <= i < bytes.len(),
        bytes[i] == 0,
    ensures
        first_nul(bytes) is Some,
        is_first_nul(bytes, first_nul(bytes)->0),
        !bytes.take(first_nul(bytes)->0).contains(0u8),
    decreases i,
{
    if is_first_nul(bytes, i) {
        let k = first_nul(bytes)->0;
        assert(is_first_nul(bytes, k));
        let head = bytes.take(k);
        if head.contains(0u8) {
            let j = choose|j: int| 0 <= j < head.len() && head[j] == 0u8;
            assert(bytes[j] == 0);
        }
    } else {
        let j = choose|j: int| 0 <= j < i && #[trigger] bytes[j] == 0;
        lemma_first_nul(bytes, j);
    }
}

/// What the loader says is told as it is; a loader that says nothing is said to.
pub proof fn law_loader_message(said: String, r: String, silent: String)
    requires
        call_ensures(dlerror_text, (Some(said),), r),
        call_ensures(dlerror_text, (None::<String>,), silent),
    ensures
        r@ == said@,
        silent@ == "unknown dlerror"@,
{
}

/// A library that is in the table and still given by its handle is loaded already, and that handle
/// is given. Any other is opened by the name that its path makes, where it makes one.
pub proof fn law_load_starts<H, W>(
    libs: &mut ProviderLibs<W>,
    path: &str,
    live: Option<H>,
    entry: Option<&W>,
    name: Result<Vec<u8>, InvalidInput>,
    r: LoadAction<H>,
)
    requires
        call_ensures(ProviderLibs::<W>::get, (&*old(libs), path), entry),
        call_ensures(cstr, (path,), name),
        call_ensures(
            ProviderLibs::<W>::load::<H>,
            (libs, path, LoadEvent::<H, W>::Started { live }),
            r,
        ),
    ensures
        match (entry, live) {
            (Some(_), Some(handle)) => r == (LoadAction::Done { handle }),
            _ => match name {
                Ok(n) => r matches LoadAction::Open { name: asked } && asked@ == n@,
                Err(e) => r matches LoadAction::Fail { error } && error.message@ == e.message@,
            },
        },
        final(libs)@ == old(libs)@,
{
}

/// A library that was opened is asked for the function that makes providers; the function is called
/// where it is found, and the library is closed where it is not. Each failure is told with what the
/// loader says. None of this changes the table.
pub proof fn law_load_goes_on<H, W>(
    libs: &mut ProviderLibs<W>,
    path: &str,
    event: LoadEvent<H, W>,
    function: &str,
    name: Result<Vec<u8>, InvalidInput>,
    said: String,
    r: LoadAction<H>,
)
    requires
        function@ == "create_new_object_store_provider"@,
        call_ensures(cstr, (function,), name),
        event matches LoadEvent::NotOpened { message } ==> call_ensures(
            dlerror_text,
            (message,),
            said,
        ),
        event matches LoadEvent::Closed { message } ==> call_ensures(
            dlerror_text,
            (message,),
            said,
        ),
        !(event is Started),
        !(event is Created),
        call_ensures(ProviderLibs::<W>::load::<H>, (libs, path, event), r),
    ensures
        match event {
            LoadEvent::Opened => r matches LoadAction::Find { name: asked } && asked@
                =~= encode_utf8(function@).push(0u8),
            LoadEvent::Found => r is Create,
            LoadEvent::NotFound => r is Close,
            LoadEvent::NotOpened { .. } => r matches LoadAction::Fail { error } && error.message@
                =~= "dlopen("@ + path@ + ") failed: "@ + said@,
            LoadEvent::Closed { .. } => r matches LoadAction::Fail { error } && error.message@
                =~= "dlsym("@ + function@ + ") failed: "@ + said@,
            _ => true,
        },
        final(libs)@ == old(libs)@,
{
}

/// A library that was made is given by its handle, and its entry is kept at its path and nowhere
/// else; every other path keeps its entry.
pub proof fn law_made_library_is_kept<H, W>(
    libs: &mut ProviderLibs<W>,
    path: &str,
    handle: H,
    entry: W,
    r: LoadAction<H>,
    other: &str,
    before: Option<&W>,
    after: Option<&W>,
)
    requires
        call_ensures(
            ProviderLibs::<W>::load::<H>,
            (libs, path, LoadEvent::<H, W>::Created { handle, entry }),
            r,
        ),
        call_ensures(ProviderLibs::<W>::get, (&*old(libs), other), before),
        call_ensures(ProviderLibs::<W>::get, (&*final(libs), other), after),
    ensures
        r == (LoadAction::Done { handle }),
        if other@ == path@ {
            after == Some(&entry)
        } else {
            after == before
        },
{
}

/// At first no library is kept.
pub proof fn law_no_library_at_first<W>(libs: ProviderLibs<W>, path: &str, r: Option<&W>)
    requires
        call_ensures(ProviderLibs::<W>::new, (), libs),
        call_ensures(ProviderLibs::<W>::get, (&libs, path), r),
    ensures
        r is None,
{
}

} // verus!
