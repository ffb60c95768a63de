//! Endpoints: a host and a port, and how they are written.

use crate::error::{AvalonError, AvalonErrorView};
use crate::text::{
    decimal, find_from, join, lemma_decimal_digits, lemma_find_from, lemma_join_split,
    lemma_number_chars, lemma_occurs_char, lemma_pieces_lack, lemma_pieces_many,
    lemma_read_decimal, lemma_split_join, lemma_split_join_len, lemma_split_suffix, parse_u32,
    push_decimal, read_u32, split, split_str, NumberError,
};
use vstd::prelude::*;

verus! {

/// Where a node listens.
#[derive(Debug, PartialEq)]
pub struct AvalonEndpoint {
    pub host: String,
    pub port: u32,
}

/// An `AvalonEndpoint` with its host as a sequence of characters.
#[verifier::ext_equal]
pub struct EndpointView {
    pub host: Seq<char>,
    pub port: u32,
}

impl View for AvalonEndpoint {
    type V = EndpointView;

    open spec fn view(&self) -> EndpointView {
        EndpointView { host: self.host@, port: self.port }
    }
}

impl Clone for AvalonEndpoint {
    fn clone(&self) -> (r: Self)
        ensures
            r@ == self@,
    {
        AvalonEndpoint { host: self.host.clone(), port: self.port }
    }
}

/// The endpoints that there are: a host that is not empty and a port of 16 bits.
pub open spec fn valid_endpoint(e: EndpointView) -> bool {
    &&& e.host.len() > 0
    &&& e.port <= 65535
}

/// The endpoint with this host and port, or what is wrong with them.
pub open spec fn make_endpoint(host: Seq<char>, port: u32) -> Result<
    EndpointView,
    AvalonErrorView,
> {
    if host.len() == 0 {
        Err(AvalonErrorView::EmptyHostname)
    } else if port > 65535 {
        Err(AvalonErrorView::PortTooLarge { port })
    } else {
        Ok(EndpointView { host, port })
    }
}

/// How an endpoint is written.
pub open spec fn endpoint_text(e: EndpointView) -> Seq<char> {
    e.host + ":"@ + decimal(e.port as nat)
}

/// The endpoint that is written `remainder` behind `prefix`.
pub open spec fn read_host_port(prefix: Seq<char>, remainder: Seq<char>) -> Result<
    EndpointView,
    AvalonErrorView,
> {
    let parts = split(remainder, ":"@);
    if parts.len() != 2 {
        Err(AvalonErrorView::NotHostPort { remainder })
    } else {
        match read_u32(parts[1]) {
            Err(cause) => Err(AvalonErrorView::BadPort { remainder, cause }),
            Ok(port) => make_endpoint(prefix + parts[0], port as u32),
        }
    }
}

/// The endpoint that is written `input`: a host and a port with a colon between them, and before
/// them a scheme with its `://` or none. The scheme becomes part of the host.
pub open spec fn read_endpoint(input: Seq<char>) -> Result<EndpointView, AvalonErrorView> {
    let components = split(input, "://"@);
    if components.len() == 1 {
        read_host_port(Seq::empty(), components[0])
    } else if components.len() == 2 {
        read_host_port(components[0] + "://"@, components[1])
    } else {
        Err(AvalonErrorView::ManySchemes { input })
    }
}

/// The endpoints that are written in `parts`, or what is wrong with the first that is none.
pub open spec fn read_parts(parts: Seq<Seq<char>>) -> Result<Seq<EndpointView>, AvalonErrorView>
    decreases parts.len(),
{
    if parts.len() == 0 {
        Ok(Seq::empty())
    } else {
        match read_parts(parts.drop_last()) {
            Err(e) => Err(e),
            Ok(v) => match read_endpoint(parts.last()) {
                Err(e) => Err(e),
                Ok(e) => Ok(v.push(e)),
            },
        }
    }
}

/// The endpoints that are written in `input` with commas between them.
pub open spec fn read_endpoints(input: Seq<char>) -> Result<Seq<EndpointView>, AvalonErrorView> {
    read_parts(split(input, ","@))
}

/// How a list of endpoints is written.
pub open spec fn endpoints_text(v: Seq<EndpointView>) -> Seq<char> {
    join(v.map_values(|e: EndpointView| endpoint_text(e)), ","@)
}

/// The endpoints of a vector.
pub open spec fn endpoint_views(v: Seq<AvalonEndpoint>) -> Seq<EndpointView> {
    v.map_values(|e: AvalonEndpoint| e@)
}

impl AvalonEndpoint {
    /// The endpoint with this host and port.
    pub fn new(host: &str, port: u32) -> (r: Result<Self, AvalonError>)
        ensures
            match r {
                Ok(e) => make_endpoint(host@, port) == Ok::<EndpointView, AvalonErrorView>(e@),
                Err(e) => make_endpoint(host@, port) == Err::<EndpointView, AvalonErrorView>(e@),
            },
    {
        if host.is_empty() {
            return Err(AvalonError::EmptyHostname);
        }
        if port > 65535 {
            return Err(AvalonError::PortTooLarge { port });
        }
        Ok(AvalonEndpoint { host: host.to_string(), port })
    }

    /// How this endpoint is written.
    pub fn addr(&self) -> (r: String)
        ensures
            r@ =~= endpoint_text(self@),
    {
        let mut out = self.host.clone();
        out.append(":");
        push_decimal(&mut out, self.port as u64);
        out
    }

    /// How this endpoint is shown.
    pub fn to_string(&self) -> (r: String)
        ensures
            r@ =~= endpoint_text(self@),
    {
        self.addr()
    }

    /// The endpoint that is written `input`.
    pub fn parse(input: &str) -> (r: Result<Self, AvalonError>)
        ensures
            match r {
                Ok(e) => read_endpoint(input@) == Ok::<EndpointView, AvalonErrorView>(e@)
                    && valid_endpoint(e@),
                Err(e) => read_endpoint(input@) == Err::<EndpointView, AvalonErrorView>(e@),
            },
    {
        proof {
            reveal_strlit("://");
            reveal_strlit(":");
        }
        let components = split_str(input, "://");
        let ghost pieces = split(input@, "://"@);
        assert(components@.map_values(|p: &str| p@).len() == components.len());
        let mut prefix = String::new();
        let remainder = if components.len() == 1 {
            assert(components[0]@ == pieces[0]);
            components[0]
        } else if components.len() == 2 {
            assert(components[0]@ == pieces[0]);
            assert(components[1]@ == pieces[1]);
            prefix.append(components[0]);
            prefix.append("://");
            assert(prefix@ =~= pieces[0] + "://"@);
            components[1]
        } else {
            return Err(AvalonError::ManySchemes { input: input.to_string() });
        };
        assert(read_endpoint(input@) == read_host_port(prefix@, remainder@));
        let parts = split_str(remainder, ":");
        assert(parts@.map_values(|p: &str| p@).len() == parts.len());
        if parts.len() != 2 {
            return Err(AvalonError::NotHostPort { remainder: remainder.to_string() });
        }
        assert(parts[0]@ == split(remainder@, ":"@)[0]);
        assert(parts[1]@ == split(remainder@, ":"@)[1]);
        let port = match parse_u32(parts[1]) {
            Ok(port) => port,
            Err(cause) => {
                return Err(AvalonError::BadPort { remainder: remainder.to_string(), cause });
            },
        };
        prefix.append(parts[0]);
        AvalonEndpoint::new(prefix.as_str(), port)
    }
}

/// The endpoints that are written in `input` with commas between them.
pub fn parse_endpoints(input: &str) -> (r: Result<Vec<AvalonEndpoint>, AvalonError>)
    ensures
        match r {
            Ok(v) => read_endpoints(input@) == Ok::<Seq<EndpointView>, AvalonErrorView>(
                endpoint_views(v@),
            ),
            Err(e) => read_endpoints(input@) == Err::<Seq<EndpointView>, AvalonErrorView>(e@),
        },
{
    proof {
        reveal_strlit(",");
    }
    let parts = split_str(input, ",");
    let ghost pieces = split(input@, ","@);
    let mut result: Vec<AvalonEndpoint> = Vec::new();
    let mut i: usize = 0;
    assert(pieces.take(0) =~= Seq::empty());
    assert(endpoint_views(result@) =~= Seq::empty());
    while i < parts.len()
        invariant
            i <= parts.len(),
            parts@.map_values(|p: &str| p@) =~= pieces,
            pieces == split(input@, ","@),
            read_parts(pieces.take(i as int)) == Ok::<Seq<EndpointView>, AvalonErrorView>(
                endpoint_views(result@),
            ),
        decreases parts.len() - i,
    {
        let ghost next = pieces.take(i + 1);
        let ghost before = endpoint_views(result@);
        proof {
            assert(pieces[i as int] == parts[i as int]@);
            assert(next.drop_last() =~= pieces.take(i as int));
            assert(next.last() == parts[i as int]@);
        }
        match AvalonEndpoint::parse(parts[i]) {
            Ok(endpoint) => {
                result.push(endpoint);
                assert(endpoint_views(result@) =~= before.push(endpoint@));
            },
            Err(e) => {
                proof {
                    lemma_read_parts_prefix(pieces, i + 1);
                }
                return Err(e);
            },
        }
        i = i + 1;
    }
    assert(pieces.take(i as int) =~= pieces);
    Ok(result)
}

/// What `read_parts` makes of parts does not change after the first failure.
proof fn lemma_read_parts_prefix(parts: Seq<Seq<char>>, n: int)
    requires
        0 <= n <= parts.len(),
        read_parts(parts.take(n)) is Err,
    ensures
        read_parts(parts) == read_parts(parts.take(n)),
    decreases parts.len(),
{
    if n == parts.len() {
        assert(parts.take(n) =~= parts);
    } else {
        assert(parts.drop_last().take(n) =~= parts.take(n));
        lemma_read_parts_prefix(parts.drop_last(), n);
    }
}

/// How a list of endpoints is written.
pub fn unparse_endpoints(input: &Vec<AvalonEndpoint>) -> (r: String)
    ensures
        r@ =~= endpoints_text(endpoint_views(input@)),
{
    let mut result = String::new();
    let ghost texts = endpoint_views(input@).map_values(|e: EndpointView| endpoint_text(e));
    let mut i: usize = 0;
    while i < input.len()
        invariant
            i <= input.len(),
            texts == endpoint_views(input@).map_values(|e: EndpointView| endpoint_text(e)),
            result@ =~= join(texts.take(i as int), ","@),
        decreases input.len() - i,
    {
        let ghost next = texts.take(i + 1);
        proof {
            assert(next.drop_last() =~= texts.take(i as int));
            assert(next.last() == texts[i as int]);
        }
        if i > 0 {
            result.append(",");
        }
        result.append(input[i].to_string().as_str());
        i = i + 1;
    }
    assert(texts.take(i as int) =~= texts);
    result
}

/// A host that is read back from a written endpoint: at most one `://`, and no colon behind it.
pub open spec fn host_reads_back(host: Seq<char>) -> bool {
    let components = split(host, "://"@);
    components.len() <= 2 && !components.last().contains(':')
}

/// How a host and a text of a port behind it are split at `://`, and the last piece at the colon.
proof fn lemma_written_endpoint(host: Seq<char>, port: Seq<char>)
    requires
        !port.contains('/'),
        !port.contains(':'),
    ensures
        ({
            let components = split(host, "://"@);
            &&& components.len() > 0
            &&& split(host + ":"@ + port, "://"@) =~= components.drop_last().push(
                components.last() + ":"@ + port,
            )
            &&& !components.last().contains(':') ==> split(
                components.last() + ":"@ + port,
                ":"@,
            ) =~= seq![components.last(), port]
            &&& components.last().contains(':') ==> split(
                components.last() + ":"@ + port,
                ":"@,
            ).len() > 2
        }),
{
    reveal_strlit("://");
    reveal_strlit(":");
    assert(":"@ =~= seq![':']);
    let tail = ":"@ + port;
    assert(!tail.contains('/')) by {
        if tail.contains('/') {
            let i = choose|i: int| 0 <= i < tail.len() && tail[i] == '/';
            if i > 0 {
                assert(tail[i] == port[i - 1]);
            }
        }
    }
    assert("://"@.last() == '/');
    assert(host + ":"@ + port =~= host + tail);
    lemma_split_suffix(host, tail, "://"@);
    let last = split(host, "://"@).last();
    assert(last + tail =~= last + ":"@ + port);
    let whole = last + ":"@ + port;
    if !last.contains(':') {
        assert(join(seq![last, port], ":"@) =~= whole) by {
            assert(seq![last, port].drop_last() =~= seq![last]);
            assert(join(seq![last], ":"@) == last);
        }
        lemma_split_join(seq![last, port], ':');
    } else {
        let p = choose|p: int| 0 <= p < last.len() && last[p] == ':';
        assert(whole[p] == ':');
        lemma_occurs_char(whole, ':', p);
        lemma_find_from(whole, ":"@, 0);
        let k = find_from(whole, ":"@, 0)->0;
        let rest = whole.skip(k + 1);
        assert(rest[last.len() - k - 1] == ':');
        lemma_pieces_many(rest, ':');
    }
}

/// A valid endpoint is read back from how it is written exactly where its host allows it.
pub proof fn law_parse_addr(e: EndpointView)
    requires
        valid_endpoint(e),
    ensures
        read_endpoint(endpoint_text(e)) == Ok::<EndpointView, AvalonErrorView>(e)
            <==> host_reads_back(e.host),
{
    reveal_strlit("://");
    let components = split(e.host, "://"@);
    let port = decimal(e.port as nat);
    lemma_read_decimal(e.port as nat);
    lemma_number_chars(port);
    lemma_written_endpoint(e.host, port);
    lemma_join_split(e.host, "://"@);
    let written = split(endpoint_text(e), "://"@);
    assert(written.len() == components.len());
    assert(written.last() =~= components.last() + ":"@ + port);
    if components.len() == 1 {
        assert(written[0] == written.last());
        assert(Seq::<char>::empty() + components[0] =~= components[0]);
        assert(components[0] == e.host);
    } else if components.len() == 2 {
        assert(written[0] == components[0]);
        assert(written[1] == written.last());
        assert(components.drop_last() =~= seq![components[0]]);
        assert(join(seq![components[0]], "://"@) == components[0]);
        assert(e.host =~= components[0] + "://"@ + components[1]);
    }
}

/// What is written is the host, a colon, and a text of the port; and the host is one that is read
/// back.
pub proof fn law_read_endpoint_text(input: Seq<char>)
    ensures
        read_endpoint(input) matches Ok(e) ==> {
            &&& valid_endpoint(e)
            &&& input =~= e.host + ":"@ + port_text(input)
            &&& read_u32(port_text(input)) == Ok::<nat, NumberError>(e.port as nat)
            &&& host_reads_back(e.host)
        },
{
    reveal_strlit("://");
    reveal_strlit(":");
    if let Ok(e) = read_endpoint(input) {
        let components = split(input, "://"@);
        lemma_join_split(input, "://"@);
        let remainder = components.last();
        let parts = split(remainder, ":"@);
        lemma_join_split(remainder, ":"@);
        if components.len() == 1 {
            assert(components[0] == input);
            assert(components.last() == components[0]);
        } else {
            assert(components.drop_last() =~= seq![components[0]]);
            assert(join(seq![components[0]], "://"@) == components[0]);
            assert(components.last() == components[1]);
        }
        assert(parts.len() == 2);
        assert(parts.drop_last() =~= seq![parts[0]]);
        assert(join(seq![parts[0]], ":"@) == parts[0]);
        assert(parts.last() == parts[1]);
        lemma_number_chars(parts[1]);
        lemma_written_endpoint(e.host, parts[1]);
        assert(input =~= e.host + ":"@ + parts[1]);
        let hosts = split(e.host, "://"@);
        assert(components.len() == hosts.len());
        assert(components.last() == hosts.last() + ":"@ + parts[1]);
    }
}

/// The text of the port in a written endpoint.
pub open spec fn port_text(input: Seq<char>) -> Seq<char> {
    split(split(input, "://"@).last(), ":"@).last()
}

/// Valid endpoints are read back from how their list is written exactly where there is at least
/// one, each can be read back alone, and none has a comma in its host.
pub proof fn law_parse_unparse(v: Seq<EndpointView>)
    requires
        forall|i: int| 0 <= i < v.len() ==> valid_endpoint(#[trigger] v[i]),
    ensures
        read_endpoints(endpoints_text(v)) == Ok::<Seq<EndpointView>, AvalonErrorView>(v) <==> {
            &&& v.len() > 0
            &&& forall|i: int|
                0 <= i < v.len() ==> host_reads_back((#[trigger] v[i]).host)
                    && !v[i].host.contains(',')
        },
{
    reveal_strlit(",");
    assert(","@ =~= seq![',']);
    let texts = v.map_values(|e: EndpointView| endpoint_text(e));
    let parts = split(endpoints_text(v), ","@);
    lemma_join_split(endpoints_text(v), ","@);
    lemma_read_parts_len(parts);
    assert forall|i: int| 0 <= i < texts.len() implies (#[trigger] texts[i]).contains(',')
        == v[i].host.contains(',') by {
        lemma_no_comma(v[i]);
    }
    if v.len() > 0 && (forall|i: int| 0 <= i < v.len() ==> !(#[trigger] v[i]).host.contains(',')) {
        assert forall|i: int| 0 <= i < texts.len() implies !(#[trigger] texts[i]).contains(',') by {
            assert(!v[i].host.contains(','));
        }
        lemma_split_join(texts, ',');
        if read_parts(texts) == Ok::<Seq<EndpointView>, AvalonErrorView>(v) {
            lemma_read_each(texts);
            assert forall|i: int| 0 <= i < v.len() implies host_reads_back(
                (#[trigger] v[i]).host,
            ) by {
                assert(read_endpoint(texts[i]) == Ok::<EndpointView, AvalonErrorView>(v[i]));
                law_parse_addr(v[i]);
            }
        }
        if forall|i: int| 0 <= i < v.len() ==> host_reads_back((#[trigger] v[i]).host) {
            lemma_read_texts(v);
        }
    } else if v.len() > 0 {
        lemma_split_join_len(texts, ',');
        let i = choose|i: int| 0 <= i < v.len() && (#[trigger] v[i]).host.contains(',');
        assert(texts[i].contains(','));
    }
}

/// As many endpoints are read as there are parts.
proof fn lemma_read_parts_len(parts: Seq<Seq<char>>)
    ensures
        read_parts(parts) matches Ok(v) ==> v.len() == parts.len(),
    decreases parts.len(),
{
    if parts.len() > 0 {
        lemma_read_parts_len(parts.drop_last());
    }
}

/// Each part that was read is an endpoint of its own.
proof fn lemma_read_each(parts: Seq<Seq<char>>)
    ensures
        read_parts(parts) matches Ok(v) ==> v.len() == parts.len() && (forall|i: int|
            0 <= i < v.len() ==> read_endpoint(#[trigger] parts[i]) == Ok::<
                EndpointView,
                AvalonErrorView,
            >(v[i])),
    decreases parts.len(),
{
    if parts.len() > 0 {
        let init = parts.drop_last();
        lemma_read_each(init);
        if let Ok(v) = read_parts(parts) {
            assert forall|i: int| 0 <= i < v.len() implies read_endpoint(#[trigger] parts[i])
                == Ok::<EndpointView, AvalonErrorView>(v[i]) by {
                if i < init.len() {
                    assert(init[i] == parts[i]);
                }
            }
        }
    }
}

/// A written endpoint has a comma only where its host has one.
proof fn lemma_no_comma(e: EndpointView)
    ensures
        endpoint_text(e).contains(',') <==> e.host.contains(','),
{
    reveal_strlit(":");
    let text = endpoint_text(e);
    let port = decimal(e.port as nat);
    lemma_decimal_digits(e.port as nat);
    if text.contains(',') {
        let i = choose|i: int| 0 <= i < text.len() && text[i] == ',';
        if i < e.host.len() {
            assert(e.host[i] == ',');
        } else if i > e.host.len() {
            assert(text[i] == port[i - e.host.len() - 1]);
        }
    }
    if e.host.contains(',') {
        let i = choose|i: int| 0 <= i < e.host.len() && e.host[i] == ',';
        assert(text[i] == ',');
    }
}

/// Endpoints that can each be read back alone are read back from their texts.
proof fn lemma_read_texts(v: Seq<EndpointView>)
    requires
        forall|i: int|
            0 <= i < v.len() ==> valid_endpoint(#[trigger] v[i]) && host_reads_back(v[i].host),
    ensures
        read_parts(v.map_values(|e: EndpointView| endpoint_text(e))) == Ok::<
            Seq<EndpointView>,
            AvalonErrorView,
        >(v),
    decreases v.len(),
{
    let texts = v.map_values(|e: EndpointView| endpoint_text(e));
    if v.len() > 0 {
        lemma_read_texts(v.drop_last());
        assert(texts.drop_last() =~= v.drop_last().map_values(
            |e: EndpointView| endpoint_text(e),
        ));
        law_parse_addr(v.last());
        assert(v.drop_last().push(v.last()) =~= v);
    } else {
        assert(v =~= Seq::empty());
    }
}

/// Whatever was read is read back from how it is then written, an endpoint and a list of them.
pub proof fn law_parsed_reads_back(input: Seq<char>)
    ensures
        read_endpoint(input) matches Ok(e) ==> read_endpoint(endpoint_text(e)) == Ok::<
            EndpointView,
            AvalonErrorView,
        >(e),
        read_endpoints(input) matches Ok(v) ==> read_endpoints(endpoints_text(v)) == Ok::<
            Seq<EndpointView>,
            AvalonErrorView,
        >(v),
{
    law_read_endpoint_text(input);
    if let Ok(e) = read_endpoint(input) {
        law_parse_addr(e);
    }
    reveal_strlit(",");
    assert(","@ =~= seq![',']);
    if let Ok(v) = read_endpoints(input) {
        let parts = split(input, ","@);
        lemma_join_split(input, ","@);
        lemma_pieces_lack(input, ',');
        lemma_read_each(parts);
        assert forall|i: int| 0 <= i < v.len() implies valid_endpoint(#[trigger] v[i])
            && host_reads_back(v[i].host) && !v[i].host.contains(',') by {
            law_read_endpoint_text(parts[i]);
            let host = v[i].host;
            if host.contains(',') {
                let k = choose|k: int| 0 <= k < host.len() && host[k] == ',';
                assert(parts[i][k] == ',');
                assert(parts[i].contains(','));
            }
        }
        law_parse_unparse(v);
    }
}

/// A list that can be read is written again as it was, where each port was written in plain
/// decimal.
pub proof fn law_unparse_parse(input: Seq<char>)
    requires
        forall|i: int|
            0 <= i < split(input, ","@).len() ==> (read_endpoint(#[trigger] split(input, ","@)[i])
                matches Ok(e) ==> port_text(split(input, ","@)[i]) == decimal(e.port as nat)),
    ensures
        read_endpoints(input) matches Ok(v) ==> endpoints_text(v) == input,
{
    reveal_strlit(",");
    let parts = split(input, ","@);
    lemma_join_split(input, ","@);
    lemma_texts_of_parts(parts);
}

/// Parts that can be read are written again as they were, where each port was written in plain
/// decimal.
proof fn lemma_texts_of_parts(parts: Seq<Seq<char>>)
    requires
        forall|i: int|
            0 <= i < parts.len() ==> (read_endpoint(#[trigger] parts[i]) matches Ok(e)
                ==> port_text(parts[i]) == decimal(e.port as nat)),
    ensures
        read_parts(parts) matches Ok(v) ==> v.map_values(|e: EndpointView| endpoint_text(e))
            =~= parts,
    decreases parts.len(),
{
    if parts.len() > 0 {
        let init = parts.drop_last();
        assert forall|i: int| 0 <= i < init.len() implies (read_endpoint(#[trigger] init[i])
            matches Ok(e) ==> port_text(init[i]) == decimal(e.port as nat)) by {
            assert(init[i] == parts[i]);
        }
        lemma_texts_of_parts(init);
        law_read_endpoint_text(parts.last());
        assert(parts[parts.len() - 1] == parts.last());
        if let Ok(v) = read_parts(parts) {
            let w = read_parts(init)->Ok_0;
            let e = read_endpoint(parts.last())->Ok_0;
            assert(v == w.push(e));
            assert(v.map_values(|e: EndpointView| endpoint_text(e)) =~= w.map_values(
                |e: EndpointView| endpoint_text(e),
            ).push(endpoint_text(e)));
            assert(parts =~= init.push(parts.last()));
        }
    }
}

} // verus!
