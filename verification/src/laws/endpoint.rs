//! Endpoints: what is read from a text, what is refused, and what is written.

use crate::endpoint::{
    endpoint_views, law_parse_addr, parse_endpoints, read_endpoint, read_parts, unparse_endpoints,
    AvalonEndpoint, EndpointView,
};
use crate::error::{AvalonError, AvalonErrorView, InvalidInput};
use crate::laws::text::{lemma_read_number, texts, without_sign, writes};
use crate::text::{
    decimal, find_from, join, lemma_find_from, lemma_join_split, lemma_occurs_char, lemma_split_at,
    lemma_split_join, lemma_split_none, occurs_at, parse_u32, split, NumberError,
};
use vstd::prelude::*;

verus! {

/// Two attempts at an endpoint came to the same.
pub open spec fn same(
    a: Result<AvalonEndpoint, AvalonError>,
    b: Result<AvalonEndpoint, AvalonError>,
) -> bool {
    match (a, b) {
        (Ok(x), Ok(y)) => x.host@ == y.host@ && x.port == y.port,
        (Err(x), Err(y)) => x@ == y@,
        _ => false,
    }
}

/// An endpoint is made of exactly the host and the port that are given, where the host is not empty
/// and the port has 16 bits; else the host is refused, and after it the port.
pub proof fn law_endpoint_is_made(host: &str, port: u32, r: Result<AvalonEndpoint, AvalonError>)
    requires
        call_ensures(AvalonEndpoint::new, (host, port), r),
    ensures
        r is Ok <==> host@.len() > 0 && port < 0x1_0000,
        r matches Ok(e) ==> e.host@ == host@ && e.port == port,
        r matches Err(e) ==> if host@.len() == 0 {
            e is EmptyHostname
        } else {
            e matches AvalonError::PortTooLarge { port: p } && p == port
        },
{
}

/// An endpoint is written, and shown, as its host, a colon and its port.
pub proof fn law_endpoint_is_written(e: &AvalonEndpoint, addr: String, shown: String)
    requires
        call_ensures(AvalonEndpoint::addr, (e,), addr),
        call_ensures(AvalonEndpoint::to_string, (e,), shown),
    ensures
        addr@ =~= e.host@ + ":"@ + decimal(e.port as nat),
        shown@ =~= addr@,
{
}

/// `://` stands nowhere in a text.
pub open spec fn lacks_scheme(s: Seq<char>) -> bool {
    forall|i: int| 0 <= i && i + 3 <= s.len() ==> #[trigger] s.subrange(i, i + 3) != "://"@
}

/// A clone of an endpoint is the same endpoint.
pub proof fn law_clone_is_the_same(e: &AvalonEndpoint, r: AvalonEndpoint)
    requires
        call_ensures(AvalonEndpoint::clone, (e,), r),
    ensures
        r.host@ == e.host@,
        r.port == e.port,
{
}

/// A text without a scheme and with one colon is a host and a port: what comes of it is what comes
/// of the number and then of the endpoint.
pub proof fn law_host_and_port_are_read(
    input: &str,
    host: &str,
    port: &str,
    r: Result<AvalonEndpoint, AvalonError>,
    number: Result<u32, NumberError>,
    made: Result<AvalonEndpoint, AvalonError>,
)
    requires
        input@ == host@ + ":"@ + port@,
        lacks_scheme(input@),
        !host@.contains(':'),
        !port@.contains(':'),
        call_ensures(AvalonEndpoint::parse, (input,), r),
        call_ensures(parse_u32, (port,), number),
        number is Ok ==> call_ensures(AvalonEndpoint::new, (host, number->Ok_0), made),
    ensures
        match number {
            Ok(_) => same(r, made),
            Err(cause) => r matches Err(AvalonError::BadPort { remainder, cause: c }) && remainder@
                == input@ && c == cause,
        },
{
    reveal_strlit("://");
    reveal_strlit(":");
    lemma_no_scheme(input@);
    lemma_host_port(host@, port@);
    assert(Seq::<char>::empty() + host@ =~= host@);
}

/// A scheme before a host and a port becomes part of the host.
pub proof fn law_scheme_becomes_part_of_host(
    input: &str,
    scheme: Seq<char>,
    host: Seq<char>,
    port: &str,
    whole: &str,
    r: Result<AvalonEndpoint, AvalonError>,
    number: Result<u32, NumberError>,
    made: Result<AvalonEndpoint, AvalonError>,
)
    requires
        input@ == scheme + "://"@ + host + ":"@ + port@,
        whole@ == scheme + "://"@ + host,
        lacks_scheme(scheme),
        lacks_scheme(host + ":"@ + port@),
        !host.contains(':'),
        !port@.contains(':'),
        call_ensures(AvalonEndpoint::parse, (input,), r),
        call_ensures(parse_u32, (port,), number),
        number is Ok ==> call_ensures(AvalonEndpoint::new, (whole, number->Ok_0), made),
    ensures
        match number {
            Ok(_) => same(r, made),
            Err(cause) => r matches Err(AvalonError::BadPort { remainder, cause: c }) && remainder@
                =~= host + ":"@ + port@ && c == cause,
        },
{
    reveal_strlit("://");
    reveal_strlit(":");
    let rest = host + ":"@ + port@;
    assert(input@ =~= scheme + "://"@ + rest);
    lemma_no_scheme(rest);
    lemma_host_port(host, port@);
    lemma_scheme(scheme, rest);
    let components = split(input@, "://"@);
    assert(components =~= seq![scheme, rest]);
    assert(components[0] == scheme && components[1] == rest);
}

/// A text without a colon, or with two of them, is no host and port; nor is one behind a scheme.
pub proof fn law_other_texts_are_no_host_and_port(
    input: &str,
    scheme: Seq<char>,
    rest: Seq<char>,
    r: Result<AvalonEndpoint, AvalonError>,
)
    requires
        lacks_scheme(rest),
        !rest.contains(':') || (exists|i: int, j: int|
            0 <= i < j < rest.len() && #[trigger] rest[i] == ':' && #[trigger] rest[j] == ':'),
        lacks_scheme(scheme),
        input@ == rest || input@ == scheme + "://"@ + rest,
        call_ensures(AvalonEndpoint::parse, (input,), r),
    ensures
        r matches Err(AvalonError::NotHostPort { remainder }) && remainder@ == rest,
{
    reveal_strlit("://");
    reveal_strlit(":");
    assert(":"@ =~= seq![':']);
    lemma_no_scheme(rest);
    assert(split(rest, ":"@).len() != 2) by {
        if !rest.contains(':') {
            assert forall|i: int| 0 <= i implies !#[trigger] occurs_at(rest, ":"@, i) by {
                lemma_occurs_char(rest, ':', i);
            }
            lemma_split_none(rest, ":"@);
        } else {
            let (i, j) = choose|i: int, j: int|
                0 <= i < j < rest.len() && #[trigger] rest[i] == ':' && #[trigger] rest[j] == ':';
            lemma_occurs_char(rest, ':', i);
            lemma_occurs_char(rest, ':', j);
            lemma_two_marks(rest, ":"@, i, j);
        }
    }
    if input@ == scheme + "://"@ + rest {
        lemma_scheme(scheme, rest);
        let components = split(input@, "://"@);
        assert(components =~= seq![scheme, rest]);
        assert(components[1] == rest);
    }
}

/// A text with more than one scheme is refused.
pub proof fn law_second_scheme_is_refused(
    input: &str,
    a: Seq<char>,
    b: Seq<char>,
    c: Seq<char>,
    r: Result<AvalonEndpoint, AvalonError>,
)
    requires
        input@ == a + "://"@ + b + "://"@ + c,
        call_ensures(AvalonEndpoint::parse, (input,), r),
    ensures
        r matches Err(AvalonError::ManySchemes { input: i }) && i@ == input@,
{
    reveal_strlit("://");
    let pat = "://"@;
    let first = a.len() as int;
    let second = (a.len() + 3 + b.len()) as int;
    assert(input@.subrange(first, first + 3) =~= pat);
    assert(input@.subrange(second, second + 3) =~= pat);
    lemma_two_marks(input@, pat, first, second);
}

/// A text in which a pattern stands twice has more than two pieces.
proof fn lemma_two_marks(s: Seq<char>, pat: Seq<char>, i: int, j: int)
    requires
        pat.len() > 0,
        occurs_at(s, pat, i),
        occurs_at(s, pat, j),
        i + pat.len() <= j,
    ensures
        split(s, pat).len() > 2,
{
    lemma_find_from(s, pat, 0);
    let k = find_from(s, pat, 0)->0;
    let n = pat.len() as int;
    assert(k <= i);
    let rest = s.skip(k + n);
    assert(rest.subrange(j - k - n, j - k) =~= s.subrange(j, j + n));
    assert(occurs_at(rest, pat, j - k - n));
    assert(split(rest, pat).len() > 1) by {
        lemma_find_from(rest, pat, 0);
        let l = find_from(rest, pat, 0)->0;
        lemma_join_split(rest.skip(l + n), pat);
    }
}

/// An endpoint that is read has the host and the port that were written: the text is its host, a
/// colon and digits of its port.
pub proof fn law_read_endpoint_was_written(
    input: &str,
    r: Result<AvalonEndpoint, AvalonError>,
)
    requires
        call_ensures(AvalonEndpoint::parse, (input,), r),
    ensures
        r matches Ok(e) ==> e.host@.len() > 0 && e.port < 0x1_0000 && (exists|port: Seq<char>|
            #[trigger] writes(without_sign(port), e.port as int) && input@ =~= e.host@ + ":"@
                + port),
{
    crate::endpoint::law_read_endpoint_text(input@);
    if let Ok(e) = r {
        let port = crate::endpoint::port_text(input@);
        lemma_read_number(port);
        assert(writes(without_sign(port), e.port as int));
    }
}

/// What an endpoint is written as is read as that endpoint, where its host has no colon.
pub proof fn law_written_endpoint_is_read(
    e: &AvalonEndpoint,
    addr: String,
    input: &str,
    r: Result<AvalonEndpoint, AvalonError>,
)
    requires
        e.host@.len() > 0,
        e.port < 0x1_0000,
        !e.host@.contains(':'),
        call_ensures(AvalonEndpoint::addr, (e,), addr),
        input@ == addr@,
        call_ensures(AvalonEndpoint::parse, (input,), r),
    ensures
        r matches Ok(read) && read.host@ == e.host@ && read.port == e.port,
{
    reveal_strlit("://");
    assert forall|i: int| 0 <= i implies !#[trigger] occurs_at(e.host@, "://"@, i) by {
        lemma_scheme_mark(e.host@, i);
    }
    lemma_split_none(e.host@, "://"@);
    law_parse_addr(e@);
}

/// A list is read part by part: it is the endpoints of all parts in order, and the first part that
/// is refused is told.
pub proof fn law_list_is_read_by_parts(
    input: &str,
    parts: Seq<&str>,
    each: Seq<Result<AvalonEndpoint, AvalonError>>,
    r: Result<Vec<AvalonEndpoint>, AvalonError>,
)
    requires
        parts.len() > 0,
        forall|i: int| 0 <= i < parts.len() ==> !(#[trigger] parts[i])@.contains(','),
        input@ == join(texts(parts), ","@),
        each.len() == parts.len(),
        forall|i: int|
            0 <= i < parts.len() ==> call_ensures(
                AvalonEndpoint::parse,
                (#[trigger] parts[i],),
                each[i],
            ),
        call_ensures(parse_endpoints, (input,), r),
    ensures
        match r {
            Ok(v) => v.len() == parts.len() && forall|i: int|
                0 <= i < parts.len() ==> (#[trigger] each[i] matches Ok(e) && v[i].host@ == e.host@
                    && v[i].port == e.port),
            Err(e) => exists|i: int|
                0 <= i < parts.len() && (#[trigger] each[i] matches Err(first) && first@ == e@
                    && forall|j: int| 0 <= j < i ==> #[trigger] each[j] is Ok),
        },
{
    reveal_strlit(",");
    assert(","@ =~= seq![',']);
    let all = texts(parts);
    assert forall|i: int| 0 <= i < all.len() implies !(#[trigger] all[i]).contains(',') by {
        assert(!parts[i]@.contains(','));
    }
    lemma_split_join(all, ',');
    lemma_parts_in_turn(all);
    match r {
        Ok(v) => {
            assert forall|i: int| 0 <= i < parts.len() implies (#[trigger] each[i] matches Ok(e)
                && v[i].host@ == e.host@ && v[i].port == e.port) by {
                assert(call_ensures(AvalonEndpoint::parse, (parts[i],), each[i]));
                assert(all[i] == parts[i]@);
                assert(endpoint_views(v@)[i] == v[i]@);
            }
        },
        Err(e) => {
            let i = choose|i: int|
                0 <= i < all.len() && read_endpoint(#[trigger] all[i]) == Err::<
                    EndpointView,
                    AvalonErrorView,
                >(e@) && forall|j: int| 0 <= j < i ==> read_endpoint(#[trigger] all[j]) is Ok;
            assert(call_ensures(AvalonEndpoint::parse, (parts[i],), each[i]));
            assert(all[i] == parts[i]@);
            assert forall|j: int| 0 <= j < i implies #[trigger] each[j] is Ok by {
                assert(call_ensures(AvalonEndpoint::parse, (parts[j],), each[j]));
                assert(all[j] == parts[j]@);
            }
            assert(each[i] is Err);
        },
    }
}

/// Parts are read in turn, up to the first that is refused.
proof fn lemma_parts_in_turn(parts: Seq<Seq<char>>)
    ensures
        match read_parts(parts) {
            Ok(v) => v.len() == parts.len() && forall|i: int|
                0 <= i < parts.len() ==> read_endpoint(#[trigger] parts[i]) == Ok::<
                    EndpointView,
                    AvalonErrorView,
                >(v[i]),
            Err(e) => exists|i: int|
                0 <= i < parts.len() && read_endpoint(#[trigger] parts[i]) == Err::<
                    EndpointView,
                    AvalonErrorView,
                >(e) && forall|j: int| 0 <= j < i ==> read_endpoint(#[trigger] parts[j]) is Ok,
        },
    decreases parts.len(),
{
    if parts.len() > 0 {
        let init = parts.drop_last();
        let last = parts.len() - 1;
        lemma_parts_in_turn(init);
        assert(forall|i: int| 0 <= i < init.len() ==> init[i] == #[trigger] parts[i]);
        match read_parts(init) {
            Ok(v) => {
                assert forall|i: int| 0 <= i < last implies read_endpoint(#[trigger] parts[i])
                    == Ok::<EndpointView, AvalonErrorView>(v[i]) by {
                    assert(init[i] == parts[i]);
                }
                assert(parts[last] == parts.last());
            },
            Err(e) => {
                let i = choose|i: int|
                    0 <= i < init.len() && read_endpoint(#[trigger] init[i]) == Err::<
                        EndpointView,
                        AvalonErrorView,
                    >(e) && forall|j: int| 0 <= j < i ==> read_endpoint(#[trigger] init[j]) is Ok;
                assert(parts[i] == init[i]);
                assert forall|j: int| 0 <= j < i implies read_endpoint(#[trigger] parts[j]) is Ok by {
                    assert(init[j] == parts[j]);
                }
            },
        }
    }
}

/// A list is written as its endpoints are, in order, with commas between them.
pub proof fn law_list_is_written_by_parts(
    input: &Vec<AvalonEndpoint>,
    each: Seq<String>,
    r: String,
)
    requires
        each.len() == input.len(),
        forall|i: int|
            0 <= i < input.len() ==> call_ensures(
                AvalonEndpoint::addr,
                (&input[i],),
                #[trigger] each[i],
            ),
        call_ensures(unparse_endpoints, (input,), r),
    ensures
        r@ =~= join(each.map_values(|s: String| s@), ","@),
{
    let written = endpoint_views(input@).map_values(
        |e: EndpointView| crate::endpoint::endpoint_text(e),
    );
    assert(written =~= each.map_values(|s: String| s@)) by {
        assert forall|i: int| 0 <= i < input.len() implies written[i] == each[i]@ by {
            assert(call_ensures(AvalonEndpoint::addr, (&input[i],), each[i]));
        }
    }
}

/// What is said of an error names what is wrong.
pub proof fn law_error_texts(e: &AvalonError, said: String, cause_said: &'static str)
    requires
        call_ensures(AvalonError::to_string, (e,), said),
        *e matches AvalonError::BadPort { remainder, cause } ==> call_ensures(
            NumberError::text,
            (cause,),
            cause_said,
        ),
    ensures
        match *e {
            AvalonError::EmptyHostname => said@ =~= "Invalid empty hostname."@,
            AvalonError::PortTooLarge { port } => said@ =~= "Invalid overly large port number "@
                + decimal(port as nat) + "."@,
            AvalonError::ManySchemes { input } => said@ =~= "Unable to parse "@ + input@
                + ": found more than one occurrence of ://"@,
            AvalonError::NotHostPort { remainder } => said@ =~= "Unable to parse "@ + remainder@
                + " as a host:port pair."@,
            AvalonError::BadPort { remainder, cause } => said@
                =~= "Unable to parse the second half of "@ + remainder@ + " as a port: "@
                + cause_said@,
            AvalonError::SourceNodeMissing { id } => said@ =~= "Source node id was "@ + decimal(
                id as nat,
            ) + ", but that node was not found in the response nodes."@,
            AvalonError::TooManyServers => said@
                =~= "The number of servers cannot be more than 65534."@,
        },
{
}

/// What is said of input that cannot be used ends with the message.
pub proof fn law_invalid_input_text(e: &InvalidInput, said: String)
    requires
        call_ensures(InvalidInput::to_string, (e,), said),
    ensures
        said@ =~= "Invalid user input: "@ + e.message@,
{
}

/// `://` stands where a colon and two slashes do.
proof fn lemma_scheme_mark(s: Seq<char>, i: int)
    ensures
        occurs_at(s, "://"@, i) ==> 0 <= i && i + 3 <= s.len() && s[i] == ':' && s[i + 1] == '/'
            && s[i + 2] == '/' && s.contains(':'),
{
    reveal_strlit("://");
    if occurs_at(s, "://"@, i) {
        let t = s.subrange(i, i + 3);
        assert(t[0] == s[i] && t[1] == s[i + 1] && t[2] == s[i + 2]);
        assert("://"@[0] == ':' && "://"@[1] == '/' && "://"@[2] == '/');
    }
}

/// A text without a scheme is one piece.
proof fn lemma_no_scheme(s: Seq<char>)
    requires
        lacks_scheme(s),
    ensures
        split(s, "://"@) =~= seq![s],
{
    reveal_strlit("://");
    assert forall|i: int| 0 <= i implies !#[trigger] occurs_at(s, "://"@, i) by {
        if occurs_at(s, "://"@, i) {
            assert(s.subrange(i, i + 3) == "://"@);
        }
    }
    lemma_split_none(s, "://"@);
}

/// A host and a port are two pieces at the colon.
proof fn lemma_host_port(host: Seq<char>, port: Seq<char>)
    requires
        !host.contains(':'),
        !port.contains(':'),
    ensures
        split(host + ":"@ + port, ":"@) =~= seq![host, port],
{
    reveal_strlit(":");
    assert(":"@ =~= seq![':']);
    let parts = seq![host, port];
    assert(parts.drop_last() =~= seq![host]);
    assert(join(seq![host], ":"@) == host);
    assert(join(parts, ":"@) =~= host + ":"@ + port);
    lemma_split_join(parts, ':');
}

/// A scheme is the first piece, where neither it nor what is behind it has another.
proof fn lemma_scheme(scheme: Seq<char>, rest: Seq<char>)
    requires
        lacks_scheme(scheme),
        split(rest, "://"@) =~= seq![rest],
    ensures
        split(scheme + "://"@ + rest, "://"@) =~= seq![scheme, rest],
{
    reveal_strlit("://");
    let s = scheme + "://"@ + rest;
    assert forall|i: int| 0 <= i < scheme.len() implies !#[trigger] occurs_at(s, "://"@, i) by {
        lemma_scheme_mark(s, i);
        if occurs_at(s, "://"@, i) {
            assert("://"@[0] == ':');
            assert(s[scheme.len() as int] == ':');
            assert(i + 3 <= scheme.len());
            assert(scheme.subrange(i, i + 3) =~= s.subrange(i, i + 3));
        }
    }
    lemma_split_at(scheme, "://"@, rest);
}

} // verus!
