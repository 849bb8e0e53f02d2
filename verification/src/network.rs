//! Routing policy for outbound requests: which routes are acceptable, which
//! route a source takes, how responses are cached and how a source is paced,
//! retried and cut off after repeated failures.

use vstd::prelude::*;
use crate::codec::{UrlFacts, UrlParts, UrlRefusal, url_refusal_message, hex, hex_text, json_quote, json_string, parse_url, sha256, sha256_of, url_parse};
use crate::text::same_text;
use crate::json::{Json, field, items, text_of};
use crate::model::texts;

verus! {

/// How requests of a source leave the machine.
pub enum Route {
    Offline,
    DirectDoh { resolver: String },
    Proxy { url: String },
    Tor,
    Chain,
}

/// The mathematical value of a route.
pub enum RouteView {
    Offline,
    DirectDoh { resolver: Seq<char> },
    Proxy { url: Seq<char> },
    Tor,
    Chain,
}

impl View for Route {
    type V = RouteView;

    open spec fn view(&self) -> RouteView {
        match self {
            Route::Offline => RouteView::Offline,
            Route::DirectDoh { resolver } => RouteView::DirectDoh { resolver: resolver@ },
            Route::Proxy { url } => RouteView::Proxy { url: url@ },
            Route::Tor => RouteView::Tor,
            Route::Chain => RouteView::Chain,
        }
    }
}

impl Route {
    /// A copy of this route.
    pub fn duplicate(&self) -> (r: Route)
        ensures
            r@ == self@,
    {
        match self {
            Route::Offline => Route::Offline,
            Route::DirectDoh { resolver } => Route::DirectDoh { resolver: resolver.clone() },
            Route::Proxy { url } => Route::Proxy { url: url.clone() },
            Route::Tor => Route::Tor,
            Route::Chain => Route::Chain,
        }
    }
}

/// Why a route, a request or a source is refused.
#[derive(Clone, Copy, Debug, PartialEq, Eq, Structural)]
pub enum NetError {
    AnonymousNeedsProxy,
    UnsupportedResolver,
    InvalidUrl(UrlRefusal),
    ProxyScheme,
    ProxyHostNotIp,
    ProxyCredentials,
    TorUnavailable,
    ChainUnavailable,
    CredentialFreeHttpsOnly,
    Offline,
    CircuitOpen,
    Unavailable,
}

/// The message shown for a refusal.
pub open spec fn net_message(e: NetError) -> Seq<char> {
    match e {
        NetError::AnonymousNeedsProxy => "anonymous mode requires a proxy"@,
        NetError::UnsupportedResolver => "unsupported resolver"@,
        NetError::InvalidUrl(e) => url_refusal_message(e),
        NetError::ProxyScheme => "use socks5h, http or https; socks5 may resolve locally"@,
        NetError::ProxyHostNotIp => "proxy must have a literal IP address to avoid bootstrap DNS"@,
        NetError::ProxyCredentials => "proxy credentials/parameters are not supported in config"@,
        NetError::TorUnavailable => "embedded Arti transport is not implemented; no direct fallback"@,
        NetError::ChainUnavailable => "proxy chains are not implemented; no direct fallback"@,
        NetError::CredentialFreeHttpsOnly => "only credential-free HTTPS URLs are accepted"@,
        NetError::Offline => "source is offline; configure a route"@,
        NetError::CircuitOpen => "source circuit is open"@,
        NetError::Unavailable => "source unavailable after three attempts"@,
    }
}

impl NetError {
    /// The message shown for this refusal.
    pub fn message(&self) -> (m: &'static str)
        ensures
            m@ == net_message(*self),
    {
        match self {
            NetError::AnonymousNeedsProxy => "anonymous mode requires a proxy",
            NetError::UnsupportedResolver => "unsupported resolver",
            NetError::InvalidUrl(e) => e.message(),
            NetError::ProxyScheme => "use socks5h, http or https; socks5 may resolve locally",
            NetError::ProxyHostNotIp => "proxy must have a literal IP address to avoid bootstrap DNS",
            NetError::ProxyCredentials => "proxy credentials/parameters are not supported in config",
            NetError::TorUnavailable => "embedded Arti transport is not implemented; no direct fallback",
            NetError::ChainUnavailable => "proxy chains are not implemented; no direct fallback",
            NetError::CredentialFreeHttpsOnly => "only credential-free HTTPS URLs are accepted",
            NetError::Offline => "source is offline; configure a route",
            NetError::CircuitOpen => "source circuit is open",
            NetError::Unavailable => "source unavailable after three attempts",
        }
    }
}

/// `s` without leading and trailing `[` and `]`, as
/// `str::trim_matches(['[', ']'])` gives it.
pub open spec fn trim_brackets(s: Seq<char>) -> Seq<char>
    decreases s.len(),
{
    if s.len() > 0 && (s[0] == '[' || s[0] == ']') {
        trim_brackets(s.drop_first())
    } else if s.len() > 0 && (s.last() == '[' || s.last() == ']') {
        trim_brackets(s.drop_last())
    } else {
        s
    }
}

/// `s` without leading and trailing brackets.
pub fn strip_brackets(s: &str) -> (r: String)
    ensures
        r@ == trim_brackets(s@),
{
    let v = crate::text::chars_of(s);
    let mut i: usize = 0;
    let mut j: usize = v.len();
    assert(s@.subrange(0, j as int) =~= s@);
    while i < j && (v[i] == '[' || v[i] == ']' || v[j - 1] == '[' || v[j - 1] == ']')
        invariant
            v@ == s@,
            i <= j <= v.len(),
            trim_brackets(s@) == trim_brackets(s@.subrange(i as int, j as int)),
        decreases j - i,
    {
        let ghost w = s@.subrange(i as int, j as int);
        if v[i] == '[' || v[i] == ']' {
            assert(w.drop_first() =~= s@.subrange(i + 1, j as int));
            i = i + 1;
        } else {
            assert(w.drop_last() =~= s@.subrange(i as int, j - 1));
            j = j - 1;
        }
    }
    let mut out: Vec<char> = Vec::new();
    let mut k: usize = i;
    while k < j
        invariant
            v@ == s@,
            i <= k <= j <= v.len(),
            out@ == s@.subrange(i as int, k as int),
        decreases j - k,
    {
        out.push(v[k]);
        k = k + 1;
    }
    crate::text::string_from(out.as_slice())
}

/// The verdict on a proxy URL, given whether its host (without brackets)
/// is a literal IP address.
pub open spec fn proxy_verdict(p: UrlParts, host_is_ip: bool) -> Result<(), NetError> {
    if !(p.0 == "socks5h"@ || p.0 == "http"@ || p.0 == "https"@) {
        Err(NetError::ProxyScheme)
    } else if p.1 is None || !host_is_ip {
        Err(NetError::ProxyHostNotIp)
    } else if p.2.len() != 0 || p.3 is Some || p.4 is Some || p.5 is Some {
        Err(NetError::ProxyCredentials)
    } else {
        Ok(())
    }
}

/// The verdict on a route, given which host texts are literal IP addresses.
pub open spec fn route_check(route: RouteView, anonymous: bool, is_ip: spec_fn(Seq<char>) -> bool) -> Result<(), NetError> {
    match route {
        RouteView::Offline => Ok(()),
        RouteView::DirectDoh { resolver } => if anonymous {
            Err(NetError::AnonymousNeedsProxy)
        } else if resolver != "cloudflare"@ && resolver != "google"@ {
            Err(NetError::UnsupportedResolver)
        } else {
            Ok(())
        },
        RouteView::Proxy { url } => match url_parse(url) {
            Err(e) => Err(NetError::InvalidUrl(e)),
            Ok(p) => proxy_verdict(p, p.1 is Some && is_ip(trim_brackets(p.1.unwrap()))),
        },
        RouteView::Tor => Err(NetError::TorUnavailable),
        RouteView::Chain => Err(NetError::ChainUnavailable),
    }
}

/// `f` gives the same answer for texts with the same characters.
pub open spec fn decides<F: Fn(&str) -> bool>(f: F) -> bool {
    &&& forall|h: &str| f.requires((h,))
    &&& forall|h1: &str, h2: &str, b1: bool, b2: bool|
        h1@ == h2@ && #[trigger] f.ensures((h1,), b1) && #[trigger] f.ensures((h2,), b2) ==> b1 == b2
}

/// What a deciding `f` answers for a text.
pub open spec fn answer<F: Fn(&str) -> bool>(f: F, t: Seq<char>) -> bool {
    exists|h: &str| h@ == t && f.ensures((h,), true)
}

/// A call of a deciding `f` gives its answer.
pub proof fn lemma_answer<F: Fn(&str) -> bool>(f: F, h: &str, b: bool)
    requires
        decides(f),
        f.ensures((h,), b),
    ensures
        b == answer(f, h@),
{
    if !b && answer(f, h@) {
        let h2 = choose|h2: &str| h2@ == h@ && f.ensures((h2,), true);
        assert(f.ensures((h,), b) && f.ensures((h2,), true));
    }
}

/// Decides whether a route may be used: offline always; direct DNS over
/// HTTPS only outside anonymous mode and with a known resolver; a proxy
/// only with a `socks5h`, `http` or `https` URL whose host is a literal IP
/// address (`is_ip` decides that for the host without brackets, as
/// `IpAddr` parsing does) and which holds no credentials, query or
/// fragment; Tor and chains never.
pub fn validate_route<F: Fn(&str) -> bool>(route: &Route, anonymous: bool, is_ip: &F) -> (r: Result<(), NetError>)
    requires
        decides(*is_ip),
    ensures
        r == route_check(route@, anonymous, |t: Seq<char>| answer(*is_ip, t)),
{
    match route {
        Route::Offline => Ok(()),
        Route::DirectDoh { resolver } => {
            if anonymous {
                return Err(NetError::AnonymousNeedsProxy);
            }
            if !same_text(resolver.as_str(), "cloudflare") && !same_text(resolver.as_str(), "google") {
                return Err(NetError::UnsupportedResolver);
            }
            Ok(())
        },
        Route::Proxy { url } => {
            let facts = match parse_url(url.as_str()) {
                Ok(f) => f,
                Err(e) => {
                    return Err(NetError::InvalidUrl(e));
                },
            };
            let ghost p = facts@;
            if !same_text(facts.scheme.as_str(), "socks5h") && !same_text(facts.scheme.as_str(), "http")
                && !same_text(facts.scheme.as_str(), "https") {
                return Err(NetError::ProxyScheme);
            }
            let host = match &facts.host {
                Some(h) => h,
                None => {
                    return Err(NetError::ProxyHostNotIp);
                },
            };
            let bare = strip_brackets(host.as_str());
            let bare_str = bare.as_str();
            let ip = is_ip(bare_str);
            proof {
                lemma_answer(*is_ip, bare_str, ip);
            }
            if !ip {
                return Err(NetError::ProxyHostNotIp);
            }
            if !facts.username.as_str().is_empty() || facts.password.is_some() || facts.query.is_some()
                || facts.fragment.is_some() {
                return Err(NetError::ProxyCredentials);
            }
            Ok(())
        },
        Route::Tor => Err(NetError::TorUnavailable),
        Route::Chain => Err(NetError::ChainUnavailable),
    }
}

/// The verdict on routes checked in order: the first refusal.
pub open spec fn routes_check(routes: Seq<RouteView>, anonymous: bool, is_ip: spec_fn(Seq<char>) -> bool) -> Result<(), NetError>
    decreases routes.len(),
{
    if routes.len() == 0 {
        Ok(())
    } else {
        match route_check(routes[0], anonymous, is_ip) {
            Err(e) => Err(e),
            Ok(()) => routes_check(routes.drop_first(), anonymous, is_ip),
        }
    }
}

/// Routing configuration: anonymous mode, the default route and the routes
/// of individual sources. `set_source` keeps each source named once
/// (`names_distinct`); where a name were listed twice, its first entry
/// would be the one taken.
pub struct NetworkConfig {
    pub anonymous: bool,
    pub default_route: Route,
    pub sources: Vec<(String, Route)>,
}

/// The views of per-source routes.
pub open spec fn source_routes(v: Seq<(String, Route)>) -> Seq<(Seq<char>, RouteView)> {
    v.map_values(|p: (String, Route)| (p.0@, p.1@))
}

/// The route of `source`: its own, else the default.
pub open spec fn route_of(sources: Seq<(Seq<char>, RouteView)>, default: RouteView, source: Seq<char>) -> RouteView
    decreases sources.len(),
{
    if sources.len() == 0 {
        default
    } else if sources[0].0 == source {
        sources[0].1
    } else {
        route_of(sources.drop_first(), default, source)
    }
}

/// Whether no source is named twice in `sources`.
pub open spec fn names_distinct(sources: Seq<(Seq<char>, RouteView)>) -> bool {
    forall|i: int, j: int| 0 <= i < j < sources.len() ==> #[trigger] sources[i].0 != #[trigger] sources[j].0
}

/// Routes looked up in `s` then, for names `s` lacks, in `t`.
pub proof fn lemma_route_of_concat(s: Seq<(Seq<char>, RouteView)>, t: Seq<(Seq<char>, RouteView)>, default: RouteView, source: Seq<char>)
    ensures
        route_of(s + t, default, source) == route_of(s, route_of(t, default, source), source),
    decreases s.len(),
{
    if s.len() > 0 {
        assert((s + t).drop_first() =~= s.drop_first() + t);
        lemma_route_of_concat(s.drop_first(), t, default, source);
    } else {
        assert(s + t =~= t);
    }
}

/// A name that no entry carries takes the default.
pub proof fn lemma_route_of_absent(s: Seq<(Seq<char>, RouteView)>, default: RouteView, source: Seq<char>)
    requires
        forall|k: int| 0 <= k < s.len() ==> #[trigger] s[k].0 != source,
    ensures
        route_of(s, default, source) == default,
    decreases s.len(),
{
    if s.len() > 0 {
        assert(s[0].0 != source);
        lemma_route_of_absent(s.drop_first(), default, source);
    }
}

/// With each source named once, every listed route is the one its source
/// takes: no entry is shadowed by another of the same name.
pub proof fn law_every_listed_route_is_taken(sources: Seq<(Seq<char>, RouteView)>, default: RouteView, i: int)
    requires
        names_distinct(sources),
        0 <= i < sources.len(),
    ensures
        route_of(sources, default, sources[i].0) == sources[i].1,
{
    let n = sources[i].0;
    let rest = sources.skip(i);
    assert(sources =~= sources.take(i) + rest);
    lemma_route_of_concat(sources.take(i), rest, default, n);
    assert forall|k: int| 0 <= k < sources.take(i).len() implies #[trigger] sources.take(i)[k].0 != n by {
        assert(sources[k].0 != sources[i].0);
    }
    lemma_route_of_absent(sources.take(i), route_of(rest, default, n), n);
    assert(rest[0] == sources[i]);
}

impl Default for NetworkConfig {
    fn default() -> (c: Self)
        ensures
            c.anonymous,
            c.default_route@ == RouteView::Offline,
            c.sources@.len() == 0,
            names_distinct(source_routes(c.sources@)),
    {
        NetworkConfig { anonymous: true, default_route: Route::Offline, sources: Vec::new() }
    }
}

/// Only a credential-free HTTPS URL with a host may be fetched.
pub open spec fn request_verdict(p: UrlParts) -> Result<(), NetError> {
    if p.0 != "https"@ || p.1 is None || p.2.len() != 0 || p.3 is Some {
        Err(NetError::CredentialFreeHttpsOnly)
    } else {
        Ok(())
    }
}

/// Checks that a URL may be fetched at all.
pub fn check_request(url: &UrlFacts) -> (r: Result<(), NetError>)
    ensures
        r == request_verdict(url@),
{
    if !same_text(url.scheme.as_str(), "https") || url.host.is_none() || !url.username.as_str().is_empty()
        || url.password.is_some() {
        Err(NetError::CredentialFreeHttpsOnly)
    } else {
        Ok(())
    }
}

impl NetworkConfig {
    /// Checks the default route, then every source route in order (see
    /// `validate_route`); the first refusal is the answer.
    pub fn check<F: Fn(&str) -> bool>(&self, is_ip: &F) -> (r: Result<(), NetError>)
        requires
            decides(*is_ip),
        ensures
            r == routes_check(
                seq![self.default_route@] + source_routes(self.sources@).map_values(|p: (Seq<char>, RouteView)| p.1),
                self.anonymous,
                |t: Seq<char>| answer(*is_ip, t),
            ),
    {
        let ghost all = seq![self.default_route@] + source_routes(self.sources@).map_values(|p: (Seq<char>, RouteView)| p.1);
        let ghost ipf = |t: Seq<char>| answer(*is_ip, t);
        assert(all.drop_first() =~= source_routes(self.sources@).map_values(|p: (Seq<char>, RouteView)| p.1));
        validate_route(&self.default_route, self.anonymous, is_ip)?;
        let mut i: usize = 0;
        assert(all.skip(1) =~= all.drop_first());
        while i < self.sources.len()
            invariant
                decides(*is_ip),
                ipf == (|t: Seq<char>| answer(*is_ip, t)),
                all == seq![self.default_route@] + source_routes(self.sources@).map_values(|p: (Seq<char>, RouteView)| p.1),
                all.len() == self.sources.len() + 1,
                forall|k: int| 0 <= k < self.sources.len() ==> #[trigger] all[k + 1] == self.sources@[k].1@,
                i <= self.sources.len(),
                routes_check(all, self.anonymous, ipf) == routes_check(all.skip(i + 1), self.anonymous, ipf),
            decreases self.sources.len() - i,
        {
            assert(all.skip(i + 1)[0] == all[i + 1]);
            assert(all[i + 1] == self.sources@[i as int].1@);
            assert(all.skip(i + 1).drop_first() =~= all.skip(i + 2));
            let v = validate_route(&self.sources[i].1, self.anonymous, is_ip);
            if let Err(e) = v {
                assert(routes_check(all.skip(i + 1), self.anonymous, ipf) == Err::<(), NetError>(e));
                return Err(e);
            }
            i = i + 1;
        }
        assert(all.skip(i + 1) =~= Seq::<RouteView>::empty());
        Ok(())
    }

    /// Gives `source` the route `route`, replacing the route it had, as a map
    /// keyed by source does: other sources keep theirs, and no source comes
    /// to be named twice.
    pub fn set_source(&mut self, source: String, route: Route)
        ensures
            final(self).anonymous == old(self).anonymous,
            final(self).default_route@ == old(self).default_route@,
            route_of(source_routes(final(self).sources@), final(self).default_route@, source@) == route@,
            forall|other: Seq<char>| other != source@ ==> #[trigger] route_of(source_routes(final(self).sources@), final(self).default_route@, other)
                == route_of(source_routes(old(self).sources@), old(self).default_route@, other),
            names_distinct(source_routes(old(self).sources@)) ==> names_distinct(source_routes(final(self).sources@)),
    {
        let ghost s = source_routes(self.sources@);
        let ghost d = self.default_route@;
        let ghost n = source@;
        let ghost r = route@;
        let mut i: usize = 0;
        while i < self.sources.len()
            invariant
                s == source_routes(self.sources@),
                d == self.default_route@,
                n == source@,
                i <= self.sources.len(),
                forall|k: int| 0 <= k < i ==> #[trigger] s[k].0 != n,
            ensures
                i < self.sources.len() ==> s[i as int].0 == n,
            decreases self.sources.len() - i,
        {
            assert(s[i as int].0 == self.sources@[i as int].0@);
            if same_text(self.sources[i].0.as_str(), source.as_str()) {
                break;
            }
            i = i + 1;
        }
        let ghost head = s.take(i as int);
        assert forall|k: int| 0 <= k < head.len() implies #[trigger] head[k].0 != n by {
            assert(head[k] == s[k]);
        }
        if i < self.sources.len() {
            assert(s[i as int].0 == n);
            self.sources.set(i, (source, route));
            proof {
                let t = source_routes(self.sources@);
                let tail = s.skip(i + 1);
                assert(t =~= s.update(i as int, (n, r)));
                assert(t =~= head + (seq![(n, r)] + tail));
                assert(s =~= head + (seq![(n, s[i as int].1)] + tail));
                assert forall|other: Seq<char>| other != n implies #[trigger] route_of(t, d, other) == route_of(s, d, other) by {
                    lemma_route_of_concat(head, seq![(n, r)] + tail, d, other);
                    lemma_route_of_concat(head, seq![(n, s[i as int].1)] + tail, d, other);
                    assert((seq![(n, r)] + tail).drop_first() =~= tail);
                    assert((seq![(n, s[i as int].1)] + tail).drop_first() =~= tail);
                }
                lemma_route_of_concat(head, seq![(n, r)] + tail, d, n);
                lemma_route_of_absent(head, route_of(seq![(n, r)] + tail, d, n), n);
                assert(names_distinct(s) ==> names_distinct(t)) by {
                    if names_distinct(s) {
                        assert forall|a: int, b: int| 0 <= a < b < t.len() implies #[trigger] t[a].0 != #[trigger] t[b].0 by {
                            assert(t[a].0 == s[a].0 && t[b].0 == s[b].0);
                        }
                    }
                }
            }
        } else {
            assert(head =~= s);
            self.sources.push((source, route));
            proof {
                let t = source_routes(self.sources@);
                assert(t =~= s + seq![(n, r)]);
                assert forall|other: Seq<char>| other != n implies #[trigger] route_of(t, d, other) == route_of(s, d, other) by {
                    lemma_route_of_concat(s, seq![(n, r)], d, other);
                    assert(seq![(n, r)].drop_first() =~= Seq::<(Seq<char>, RouteView)>::empty());
                    assert(route_of(seq![(n, r)], d, other) == route_of(Seq::<(Seq<char>, RouteView)>::empty(), d, other));
                }
                lemma_route_of_concat(s, seq![(n, r)], d, n);
                lemma_route_of_absent(s, route_of(seq![(n, r)], d, n), n);
                assert(names_distinct(s) ==> names_distinct(t)) by {
                    if names_distinct(s) {
                        assert forall|a: int, b: int| 0 <= a < b < t.len() implies #[trigger] t[a].0 != #[trigger] t[b].0 by {
                            if b < s.len() {
                                assert(t[a].0 == s[a].0 && t[b].0 == s[b].0);
                            } else {
                                assert(t[a].0 == s[a].0);
                            }
                        }
                    }
                }
            }
        }
    }

    /// The route that requests of `source` take.
    pub fn route_for(&self, source: &str) -> (r: &Route)
        ensures
            r@ == route_of(source_routes(self.sources@), self.default_route@, source@),
    {
        let ghost all = source_routes(self.sources@);
        let mut i: usize = 0;
        assert(all.skip(0) =~= all);
        while i < self.sources.len()
            invariant
                all == source_routes(self.sources@),
                i <= self.sources.len(),
                route_of(all, self.default_route@, source@) == route_of(all.skip(i as int), self.default_route@, source@),
            decreases self.sources.len() - i,
        {
            assert(all.skip(i as int)[0] == (self.sources@[i as int].0@, self.sources@[i as int].1@));
            if same_text(self.sources[i].0.as_str(), source) {
                return &self.sources[i].1;
            }
            assert(all.skip(i as int).drop_first() =~= all.skip(i + 1));
            i = i + 1;
        }
        &self.default_route
    }

    /// Decides how a request of `source` for `url` leaves: the URL must be a
    /// credential-free HTTPS URL, the source's route must not be offline and
    /// must pass `validate_route`. Gives a copy of the route.
    pub fn plan<F: Fn(&str) -> bool>(&self, source: &str, url: &UrlFacts, is_ip: &F) -> (r: Result<Route, NetError>)
        requires
            decides(*is_ip),
        ensures
            match plan_spec(self.default_route@, source_routes(self.sources@), self.anonymous, source@, url@, |t: Seq<char>| answer(*is_ip, t)) {
                Ok(route) => r is Ok && r->Ok_0@ == route,
                Err(e) => r == Err::<Route, NetError>(e),
            },
    {
        check_request(url)?;
        let route = self.route_for(source);
        if let Route::Offline = route {
            return Err(NetError::Offline);
        }
        match validate_route(route, self.anonymous, is_ip) {
            Err(e) => Err(e),
            Ok(()) => Ok(route.duplicate()),
        }
    }
}

/// The route a request takes, or why it is refused.
pub open spec fn plan_spec(
    default: RouteView,
    sources: Seq<(Seq<char>, RouteView)>,
    anonymous: bool,
    source: Seq<char>,
    url: UrlParts,
    is_ip: spec_fn(Seq<char>) -> bool,
) -> Result<RouteView, NetError> {
    let route = route_of(sources, default, source);
    if request_verdict(url) is Err {
        Err(NetError::CredentialFreeHttpsOnly)
    } else if route is Offline {
        Err(NetError::Offline)
    } else {
        match route_check(route, anonymous, is_ip) {
            Err(e) => Err(e),
            Ok(()) => Ok(route),
        }
    }
}

/// The JSON encoding of a route: an object tagged by `mode`, as serde writes
/// the internally tagged enum.
pub open spec fn route_json_text(r: RouteView) -> Seq<char> {
    match r {
        RouteView::Offline => "{\"mode\":\"offline\"}"@,
        RouteView::DirectDoh { resolver } => "{\"mode\":\"direct_doh\",\"resolver\":"@ + json_string(resolver) + "}"@,
        RouteView::Proxy { url } => "{\"mode\":\"proxy\",\"url\":"@ + json_string(url) + "}"@,
        RouteView::Tor => "{\"mode\":\"tor\"}"@,
        RouteView::Chain => "{\"mode\":\"chain\"}"@,
    }
}

/// The JSON encoding of a route.
pub fn route_json(route: &Route) -> (r: String)
    ensures
        r@ == route_json_text(route@),
{
    match route {
        Route::Offline => "{\"mode\":\"offline\"}".to_owned(),
        Route::DirectDoh { resolver } => {
            let mut s = "{\"mode\":\"direct_doh\",\"resolver\":".to_owned();
            s.append(json_quote(resolver.as_str()).as_str());
            s.append("}");
            s
        },
        Route::Proxy { url } => {
            let mut s = "{\"mode\":\"proxy\",\"url\":".to_owned();
            s.append(json_quote(url.as_str()).as_str());
            s.append("}");
            s
        },
        Route::Tor => "{\"mode\":\"tor\"}".to_owned(),
        Route::Chain => "{\"mode\":\"chain\"}".to_owned(),
    }
}

/// The key under which a response is cached: the lower-case hexadecimal
/// SHA-256 of `source|url|route`, the route in its JSON encoding.
pub open spec fn cache_key_text(source: Seq<char>, url: Seq<char>, route: RouteView) -> Seq<char> {
    hex_text(sha256_of(vstd::utf8::encode_utf8(source + "|"@ + url + "|"@ + route_json_text(route))))
}

/// The cache key of a request of `source` for the URL with text `url`.
pub fn cache_key(source: &str, url: &str, route: &Route) -> (r: String)
    ensures
        r@ == cache_key_text(source@, url@, route@),
{
    let mut s = source.to_owned();
    s.append("|");
    s.append(url);
    s.append("|");
    s.append(route_json(route).as_str());
    let digest = sha256(s.as_str().as_bytes());
    hex(digest.as_slice())
}

/// Pacing and circuit-breaker state of one source, in milliseconds of a
/// monotonic clock: the earliest time of the next request, the failures in
/// a row, and the time until which the circuit stays open.
#[derive(Clone, Copy, Debug, PartialEq, Eq, Structural)]
pub struct Gate {
    pub next: u64,
    pub failures: u8,
    pub open_until: u64,
}

/// The least gap between two requests to one source.
pub open spec fn spacing() -> u64 {
    1100
}

/// How long the circuit stays open after five failures in a row.
pub open spec fn open_period() -> u64 {
    30000
}

/// A request slot asked for at `now`: refused while the circuit is open,
/// else at the later of `now` and the next free time, which moves on by the
/// spacing.
pub open spec fn reserve_spec(g: Gate, now: u64) -> (Gate, Result<u64, NetError>) {
    if g.open_until > now {
        (g, Err(NetError::CircuitOpen))
    } else {
        let when = if g.next > now { g.next } else { now };
        (Gate { next: (when + spacing()) as u64, failures: g.failures, open_until: g.open_until }, Ok(when))
    }
}

/// A failure at `now`: counted, saturating; the fifth in a row opens the
/// circuit for the open period and restarts the count.
pub open spec fn failed_spec(g: Gate, now: u64) -> Gate {
    let failures: u8 = if g.failures == 255 { 255 } else { (g.failures + 1) as u8 };
    if failures >= 5 {
        Gate { next: g.next, failures: 0, open_until: (now + open_period()) as u64 }
    } else {
        Gate { next: g.next, failures, open_until: g.open_until }
    }
}

impl Gate {
    /// A closed circuit with its first slot at `now`.
    pub fn new(now: u64) -> (g: Gate)
        ensures
            g == (Gate { next: now, failures: 0, open_until: now }),
    {
        Gate { next: now, failures: 0, open_until: now }
    }

    /// Asks for a request slot at `now`; gives its time.
    pub fn reserve(&mut self, now: u64) -> (r: Result<u64, NetError>)
        requires
            old(self).next <= u64::MAX - 1100,
            now <= u64::MAX - 1100,
        ensures
            (*final(self), r) == reserve_spec(*old(self), now),
    {
        if self.open_until > now {
            return Err(NetError::CircuitOpen);
        }
        let when = if self.next > now { self.next } else { now };
        self.next = when + 1100;
        Ok(when)
    }

    /// Records a success: the failure count restarts.
    pub fn succeeded(&mut self)
        ensures
            *final(self) == (Gate { next: old(self).next, failures: 0, open_until: old(self).open_until }),
    {
        self.failures = 0;
    }

    /// Records a failure at `now`.
    pub fn failed(&mut self, now: u64)
        requires
            now <= u64::MAX - 30000,
        ensures
            *final(self) == failed_spec(*old(self), now),
    {
        self.failures = self.failures.saturating_add(1);
        if self.failures >= 5 {
            self.open_until = now + 30000;
            self.failures = 0;
        }
    }
}

/// Two granted slots in a row are at least the spacing apart.
pub proof fn law_requests_spaced(g: Gate, t1: u64, t2: u64)
    requires
        g.next <= u64::MAX - 1100,
        t1 <= u64::MAX - 1100,
        reserve_spec(g, t1).1 is Ok,
        reserve_spec(reserve_spec(g, t1).0, t2).1 is Ok,
    ensures
        reserve_spec(reserve_spec(g, t1).0, t2).1->Ok_0 >= reserve_spec(g, t1).1->Ok_0 + spacing(),
{
}

/// Failures and successes never move the next slot.
pub proof fn law_outcomes_keep_pacing(g: Gate, now: u64)
    ensures
        failed_spec(g, now).next == g.next,
{
}

/// The fifth failure in a row opens the circuit: every slot asked for before
/// the open period has passed is refused.
pub proof fn law_fifth_failure_opens(g: Gate, now: u64, later: u64)
    requires
        g.failures == 4,
        now <= u64::MAX - 30000,
        later < now + open_period(),
    ensures
        failed_spec(g, now).failures == 0,
        reserve_spec(failed_spec(g, now), later).1 == Err::<u64, NetError>(NetError::CircuitOpen),
{
}

/// Fewer than five failures in a row leave the circuit as it was.
pub proof fn law_early_failures_keep_circuit(g: Gate, now: u64)
    requires
        g.failures < 4,
    ensures
        failed_spec(g, now).open_until == g.open_until,
        failed_spec(g, now).failures == g.failures + 1,
{
}

/// What a request attempt leads to.
#[derive(Clone, Copy, Debug, PartialEq, Eq, Structural)]
pub enum Outcome {
    Deliver,
    Retry { delay_ms: u64 },
    Refuse { status: u16 },
}

/// Whether `c` is an ASCII decimal digit.
pub open spec fn is_digit(c: char) -> bool {
    48 <= (c as u32) <= 57
}

/// The text after an optional leading `+`.
pub open spec fn unsigned_body(s: Seq<char>) -> Seq<char> {
    if s.len() > 0 && s[0] == '+' { s.drop_first() } else { s }
}

/// Every character is a decimal digit.
pub open spec fn all_digits(s: Seq<char>) -> bool {
    forall|i: int| 0 <= i < s.len() ==> is_digit(#[trigger] s[i])
}

/// The value of a run of decimal digits.
pub open spec fn digits_value(s: Seq<char>) -> nat
    decreases s.len(),
{
    if s.len() == 0 {
        0
    } else {
        digits_value(s.drop_last()) * 10 + ((s.last() as u32) - 48) as nat
    }
}

/// What `u64::from_str` gives: an optional `+`, then at least one decimal
/// digit, with a value that fits.
pub open spec fn parse_u64_spec(s: Seq<char>) -> Option<u64> {
    let body = unsigned_body(s);
    if body.len() == 0 || !all_digits(body) || digits_value(body) > u64::MAX {
        None
    } else {
        Some(digits_value(body) as u64)
    }
}

proof fn lemma_digits_value_grows(s: Seq<char>, i: int)
    requires
        0 <= i <= s.len(),
        forall|k: int| 0 <= k < s.len() ==> is_digit(#[trigger] s[k]),
    ensures
        digits_value(s.take(i)) <= digits_value(s),
    decreases s.len(),
{
    if i < s.len() {
        assert(s.drop_last().take(i) =~= s.take(i));
        lemma_digits_value_grows(s.drop_last(), i);
    } else {
        assert(s.take(i) =~= s);
    }
}

/// Parses a decimal `u64` as `str::parse::<u64>` does.
pub fn parse_u64(s: &str) -> (r: Option<u64>)
    ensures
        r == parse_u64_spec(s@),
{
    let v = crate::text::chars_of(s);
    let start: usize = if v.len() > 0 && v[0] == '+' { 1 } else { 0 };
    let ghost body = unsigned_body(s@);
    assert(body =~= s@.skip(start as int));
    if start >= v.len() {
        return None;
    }
    let mut k: usize = start;
    while k < v.len()
        invariant
            v@ == s@,
            start <= k <= v.len(),
            body == s@.skip(start as int),
            body == unsigned_body(s@),
            forall|m: int| 0 <= m < k - start ==> is_digit(#[trigger] body[m]),
        decreases v.len() - k,
    {
        let u: u32 = v[k] as u32;
        if !(48 <= u && u <= 57) {
            assert(body[k - start] == v@[k as int]);
            assert(!is_digit(body[k - start]));
            assert(!all_digits(body));
            assert(parse_u64_spec(s@) is None);
            return None;
        }
        assert(body[k - start] == v@[k as int]);
        k = k + 1;
    }
    let mut value: u64 = 0;
    let mut j: usize = start;
    assert(body.take(0) =~= Seq::<char>::empty());
    while j < v.len()
        invariant
            v@ == s@,
            start <= j <= v.len(),
            body == s@.skip(start as int),
            body == unsigned_body(s@),
            body.len() == v.len() - start,
            forall|m: int| 0 <= m < body.len() ==> is_digit(#[trigger] body[m]),
            value as nat == digits_value(body.take(j - start)),
        decreases v.len() - j,
    {
        assert(body.take(j - start + 1).drop_last() =~= body.take(j - start));
        assert(body[j - start] == v@[j as int]);
        assert(is_digit(body[j - start]));
        let u: u32 = v[j] as u32;
        let d: u64 = (u - 48) as u64;
        assert(digits_value(body.take(j - start + 1)) == digits_value(body.take(j - start)) * 10 + d);
        match value.checked_mul(10) {
            None => {
                proof {
                    lemma_digits_value_grows(body, j - start + 1);
                }
                return None;
            },
            Some(t) => match t.checked_add(d) {
                None => {
                    proof {
                        lemma_digits_value_grows(body, j - start + 1);
                    }
                    return None;
                },
                Some(u) => {
                    value = u;
                },
            },
        }
        j = j + 1;
    }
    assert(body.take(body.len() as int) =~= body);
    Some(value)
}

/// The outcome of an attempt (`attempt` counts from 0): a success (status
/// 200 to 299) is delivered; a refusal for load (429) or a server error
/// (500 to 599) is retried after the `Retry-After` seconds (at most 60) when
/// that header holds a number; another status is refused; a transport
/// failure (no status) is retried. The default delay doubles from half a
/// second with each attempt, plus the current seconds modulo 211 in
/// milliseconds.
pub open spec fn outcome_spec(status: Option<u16>, retry_after: Option<Seq<char>>, attempt: u32, now_secs: i64) -> Outcome {
    let default = (pow2(attempt as nat) * 500 + ((now_secs as u64) % 211)) as u64;
    match status {
        Some(code) => if 200 <= code <= 299 {
            Outcome::Deliver
        } else if code == 429 || (500 <= code <= 599) {
            match retry_after {
                Some(text) => match parse_u64_spec(text) {
                    Some(secs) => Outcome::Retry { delay_ms: ((if secs < 60 { secs } else { 60 }) * 1000) as u64 },
                    None => Outcome::Retry { delay_ms: default },
                },
                None => Outcome::Retry { delay_ms: default },
            }
        } else {
            Outcome::Refuse { status: code }
        },
        None => Outcome::Retry { delay_ms: default },
    }
}

/// Two to the power `n`.
pub open spec fn pow2(n: nat) -> nat
    decreases n,
{
    if n == 0 {
        1
    } else {
        2 * pow2((n - 1) as nat)
    }
}

/// The outcome of attempt `attempt` (one of the three) with response status
/// `status` (none on a transport failure) and `Retry-After` header text.
pub fn outcome(status: Option<u16>, retry_after: Option<&str>, attempt: u32, now_secs: i64) -> (o: Outcome)
    requires
        attempt < 3,
    ensures
        o == outcome_spec(status, match retry_after { Some(t) => Some(t@), None => None }, attempt, now_secs),
{
    let factor: u64 = if attempt == 0 { 1 } else if attempt == 1 { 2 } else { 4 };
    assert(pow2(attempt as nat) == factor) by {
        assert(pow2(0) == 1);
        assert(pow2(1) == 2);
        assert(pow2(2) == 4);
    }
    let jitter: u64 = (now_secs as u64) % 211;
    let default: u64 = factor * 500 + jitter;
    match status {
        Some(code) => {
            if 200 <= code && code <= 299 {
                Outcome::Deliver
            } else if code == 429 || (500 <= code && code <= 599) {
                match retry_after {
                    Some(text) => match parse_u64(text) {
                        Some(secs) => {
                            let capped: u64 = if secs < 60 { secs } else { 60 };
                            Outcome::Retry { delay_ms: capped * 1000 }
                        },
                        None => Outcome::Retry { delay_ms: default },
                    },
                    None => Outcome::Retry { delay_ms: default },
                }
            } else {
                Outcome::Refuse { status: code }
            }
        },
        None => Outcome::Retry { delay_ms: default },
    }
}

/// What happens to a source's pacing state: a slot asked for at a time, a failure
/// at a time, or a success.
#[derive(Clone, Copy, Debug, PartialEq, Eq, Structural)]
pub enum GateEvent {
    Reserve(u64),
    Fail(u64),
    Succeed,
}

/// The time of an event, when it has one.
pub open spec fn event_time(e: GateEvent) -> Option<u64> {
    match e {
        GateEvent::Reserve(t) => Some(t),
        GateEvent::Fail(t) => Some(t),
        GateEvent::Succeed => None,
    }
}

/// One event at a source's pacing state: the state after it and, for a slot asked for, the
/// answer (see `Gate::reserve`, `Gate::failed`, `Gate::succeeded`).
pub open spec fn gate_step(g: Gate, e: GateEvent) -> (Gate, Option<Result<u64, NetError>>) {
    match e {
        GateEvent::Reserve(t) => (reserve_spec(g, t).0, Some(reserve_spec(g, t).1)),
        GateEvent::Fail(t) => (failed_spec(g, t), None),
        GateEvent::Succeed => (Gate { next: g.next, failures: 0, open_until: g.open_until }, None),
    }
}

/// The answers given along a run of events, one per event.
pub open spec fn gate_run(g: Gate, evs: Seq<GateEvent>) -> Seq<Option<Result<u64, NetError>>>
    decreases evs.len(),
{
    if evs.len() == 0 {
        seq![]
    } else {
        seq![gate_step(g, evs[0]).1] + gate_run(gate_step(g, evs[0]).0, evs.drop_first())
    }
}

/// The pacing state after a run of events.
pub open spec fn gate_after(g: Gate, evs: Seq<GateEvent>) -> Gate
    decreases evs.len(),
{
    if evs.len() == 0 {
        g
    } else {
        gate_after(gate_step(g, evs[0]).0, evs.drop_first())
    }
}

proof fn lemma_run_len(g: Gate, evs: Seq<GateEvent>)
    ensures
        gate_run(g, evs).len() == evs.len(),
    decreases evs.len(),
{
    if evs.len() > 0 {
        lemma_run_len(gate_step(g, evs[0]).0, evs.drop_first());
    }
}

proof fn lemma_run_spaced(g: Gate, evs: Seq<GateEvent>)
    requires
        g.next + 1100 * evs.len() <= u64::MAX - 1100,
        forall|k: int| 0 <= k < evs.len() ==> (#[trigger] evs[k] matches GateEvent::Reserve(t) ==> t + 1100 * evs.len() <= u64::MAX - 1100),
    ensures
        gate_run(g, evs).len() == evs.len(),
        gate_after(g, evs).next >= g.next,
        forall|i: int| 0 <= i < evs.len() ==> (#[trigger] gate_run(g, evs)[i] matches Some(Ok(a))
            ==> a >= g.next && a + spacing() <= gate_after(g, evs).next),
        forall|i: int, j: int| 0 <= i < j < evs.len() ==> (#[trigger] gate_run(g, evs)[i] matches Some(Ok(a))
            ==> (#[trigger] gate_run(g, evs)[j] matches Some(Ok(b)) ==> a + spacing() <= b)),
    decreases evs.len(),
{
    if evs.len() > 0 {
        let (h, r) = gate_step(g, evs[0]);
        let rest = evs.drop_first();
        assert(h.next == g.next || (r matches Some(Ok(w)) && h.next == w + 1100 && w >= g.next)) by {
            match evs[0] {
                GateEvent::Reserve(t) => {
                    assert(evs[0] matches GateEvent::Reserve(t2) ==> t2 + 1100 * evs.len() <= u64::MAX - 1100);
                },
                _ => {},
            }
        }
        assert(h.next + 1100 * rest.len() <= u64::MAX - 1100) by {
            match evs[0] {
                GateEvent::Reserve(t) => {
                    assert(evs[0] matches GateEvent::Reserve(t2) ==> t2 + 1100 * evs.len() <= u64::MAX - 1100);
                },
                _ => {},
            }
        }
        assert forall|k: int| 0 <= k < rest.len() implies (#[trigger] rest[k] matches GateEvent::Reserve(t) ==> t + 1100 * rest.len() <= u64::MAX - 1100) by {
            assert(rest[k] == evs[k + 1]);
        }
        lemma_run_spaced(h, rest);
        let out = gate_run(g, evs);
        let tail = gate_run(h, rest);
        assert(out == seq![r] + tail);
        assert(gate_after(g, evs) == gate_after(h, rest));
        assert forall|i: int| 0 <= i < evs.len() implies (#[trigger] out[i] matches Some(Ok(a))
            ==> a >= g.next && a + spacing() <= gate_after(g, evs).next) by {
            if i > 0 {
                assert(out[i] == tail[i - 1]);
            }
        }
        assert forall|i: int, j: int| 0 <= i < j < evs.len() implies (#[trigger] out[i] matches Some(Ok(a))
            ==> (#[trigger] out[j] matches Some(Ok(b)) ==> a + spacing() <= b)) by {
            assert(out[j] == tail[j - 1]);
            if i > 0 {
                assert(out[i] == tail[i - 1]);
            }
        }
    }
}

/// Over any run of events at a source, every two slots granted are at
/// least the spacing apart, in the order they were granted (given times far
/// enough below the end of the clock that the schedule cannot wrap).
pub proof fn law_granted_slots_spaced(g: Gate, evs: Seq<GateEvent>)
    requires
        g.next + 1100 * evs.len() <= u64::MAX - 1100,
        forall|k: int| 0 <= k < evs.len() ==> (#[trigger] evs[k] matches GateEvent::Reserve(t) ==> t + 1100 * evs.len() <= u64::MAX - 1100),
    ensures
        forall|i: int, j: int| 0 <= i < j < evs.len() ==> (#[trigger] gate_run(g, evs)[i] matches Some(Ok(a))
            ==> (#[trigger] gate_run(g, evs)[j] matches Some(Ok(b)) ==> a + spacing() <= b)),
{
    lemma_run_spaced(g, evs);
}

/// Over any run of events whose times never go back, once the circuit is
/// open every slot asked for before it closes is refused: failures only
/// ever move the closing time later (given that it is no later than the open
/// period after any event of the run, as when an earlier failure set it).
pub proof fn law_open_circuit_refuses(g: Gate, evs: Seq<GateEvent>)
    requires
        forall|i: int, j: int| 0 <= i < j < evs.len() ==> (#[trigger] event_time(evs[i]) matches Some(a)
            ==> (#[trigger] event_time(evs[j]) matches Some(b) ==> a <= b)),
        forall|k: int| 0 <= k < evs.len() ==> (#[trigger] event_time(evs[k]) matches Some(t)
            ==> t <= u64::MAX - 30000 && g.open_until <= t + open_period()),
    ensures
        forall|k: int| 0 <= k < evs.len() ==> (#[trigger] evs[k] matches GateEvent::Reserve(t) ==> (t < g.open_until
            ==> gate_run(g, evs)[k] == Some(Err::<u64, NetError>(NetError::CircuitOpen)))),
    decreases evs.len(),
{
    if evs.len() > 0 {
        let h = gate_step(g, evs[0]).0;
        let rest = evs.drop_first();
        assert(event_time(evs[0]) matches Some(t) ==> t <= u64::MAX - 30000 && g.open_until <= t + open_period());
        assert(h.open_until >= g.open_until);
        assert forall|i: int, j: int| 0 <= i < j < rest.len() implies (#[trigger] event_time(rest[i]) matches Some(a)
            ==> (#[trigger] event_time(rest[j]) matches Some(b) ==> a <= b)) by {
            assert(rest[i] == evs[i + 1] && rest[j] == evs[j + 1]);
        }
        assert forall|k: int| 0 <= k < rest.len() implies (#[trigger] event_time(rest[k]) matches Some(t)
            ==> t <= u64::MAX - 30000 && h.open_until <= t + open_period()) by {
            assert(rest[k] == evs[k + 1]);
            assert(event_time(evs[k + 1]) matches Some(t) ==> t <= u64::MAX - 30000 && g.open_until <= t + open_period());
            if h.open_until != g.open_until {
                assert(evs[0] matches GateEvent::Fail(t0) && h.open_until == t0 + open_period());
                assert(event_time(evs[0]) matches Some(a) ==> (event_time(evs[k + 1]) matches Some(b) ==> a <= b));
            }
        }
        law_open_circuit_refuses(h, rest);
        lemma_run_len(h, rest);
        let out = gate_run(g, evs);
        let tail = gate_run(h, rest);
        assert(out == seq![gate_step(g, evs[0]).1] + tail);
        assert forall|k: int| 0 <= k < evs.len() implies (#[trigger] evs[k] matches GateEvent::Reserve(t) ==> (t < g.open_until
            ==> out[k] == Some(Err::<u64, NetError>(NetError::CircuitOpen)))) by {
            if k > 0 {
                assert(out[k] == tail[k - 1]);
                assert(rest[k - 1] == evs[k]);
            }
        }
    }
}

/// The number of attempts a request gets.
pub const ATTEMPTS: u32 = 3;

/// What follows an attempt.
#[derive(Clone, Copy, Debug, PartialEq, Eq, Structural)]
pub enum Next {
    /// The response is read and delivered.
    Deliver,
    /// The request is refused with this status.
    Refuse { status: u16 },
    /// The failure is counted; the next attempt follows after the delay.
    Wait { delay_ms: u64 },
    /// The failure is counted; the request gives up as unavailable.
    GiveUp,
}

/// What follows attempt `attempt` with outcome `o`: a retry waits unless it
/// was the last attempt, after which the request gives up.
pub open spec fn next_spec(o: Outcome, attempt: u32) -> Next {
    match o {
        Outcome::Deliver => Next::Deliver,
        Outcome::Refuse { status } => Next::Refuse { status },
        Outcome::Retry { delay_ms } => if attempt + 1 < ATTEMPTS { Next::Wait { delay_ms } } else { Next::GiveUp },
    }
}

/// What follows attempt `attempt` with outcome `o`.
pub fn next_step(o: Outcome, attempt: u32) -> (n: Next)
    requires
        attempt < ATTEMPTS,
    ensures
        n == next_spec(o, attempt),
{
    match o {
        Outcome::Deliver => Next::Deliver,
        Outcome::Refuse { status } => Next::Refuse { status },
        Outcome::Retry { delay_ms } => if attempt + 1 < ATTEMPTS { Next::Wait { delay_ms } } else { Next::GiveUp },
    }
}

/// Whether a response that announces `content_length` bytes may be read
/// under `limit`.
pub fn announced_within(content_length: Option<u64>, limit: usize) -> (r: bool)
    ensures
        r == match content_length { Some(n) => n <= limit, None => true },
{
    match content_length {
        Some(n) => n <= limit as u64,
        None => true,
    }
}

/// Whether a chunk of `chunk` bytes may follow `received` bytes under `limit`.
pub fn chunk_within(received: usize, chunk: usize, limit: usize) -> (r: bool)
    ensures
        r == (received + chunk <= limit),
{
    (received as u128) + (chunk as u128) <= limit as u128
}

/// The DNS-over-HTTPS service a resolver name stands for: its host, the
/// address it is reached at without DNS, and the path of its JSON API
/// (Cloudflare for any name but `google`).
pub open spec fn bootstrap_spec(resolver: Seq<char>) -> (Seq<char>, Seq<char>, Seq<char>) {
    if resolver == "google"@ {
        ("dns.google"@, "8.8.8.8"@, "resolve"@)
    } else {
        ("cloudflare-dns.com"@, "1.1.1.1"@, "dns-query"@)
    }
}

/// The DNS-over-HTTPS service of a direct route's resolver.
pub fn bootstrap(resolver: &str) -> (r: (&'static str, &'static str, &'static str))
    ensures
        (r.0@, r.1@, r.2@) == bootstrap_spec(resolver@),
{
    if same_text(resolver, "google") {
        ("dns.google", "8.8.8.8", "resolve")
    } else {
        ("cloudflare-dns.com", "1.1.1.1", "dns-query")
    }
}

/// What one answer of a resolution yields: its data, when the record is of
/// type A and the data is a literal IP address.
pub open spec fn resolved_one(a: Json, is_ip: spec_fn(Seq<char>) -> bool) -> Seq<Seq<char>> {
    if field(a, "type"@) == Json::Number(Some(1)) {
        match text_of(field(a, "data"@)) {
            Some(d) => if is_ip(d) { seq![d] } else { seq![] },
            None => seq![],
        }
    } else {
        seq![]
    }
}

/// What the answers of a resolution yield, in order.
pub open spec fn resolved_all(answers: Seq<Json>, is_ip: spec_fn(Seq<char>) -> bool) -> Seq<Seq<char>>
    decreases answers.len(),
{
    if answers.len() == 0 {
        seq![]
    } else {
        resolved_one(answers[0], is_ip) + resolved_all(answers.drop_first(), is_ip)
    }
}

/// The IPv4 addresses a DNS-over-HTTPS JSON response gives for a host.
pub fn resolved_addresses<F: Fn(&str) -> bool>(json: &Json, is_ip: &F) -> (r: Vec<String>)
    requires
        decides(*is_ip),
    ensures
        texts(r@) == resolved_all(items(field(*json, "Answer"@)), |t: Seq<char>| answer(*is_ip, t)),
{
    proof {
        reveal_strlit("Answer");
        reveal_strlit("type");
        reveal_strlit("data");
    }
    let answers = crate::transform::array_under(json, "Answer");
    let ghost ipf = |t: Seq<char>| answer(*is_ip, t);
    let mut out: Vec<String> = Vec::new();
    let mut i: usize = 0;
    assert(answers@.skip(0) =~= answers@);
    while i < answers.len()
        invariant
            decides(*is_ip),
            ipf == (|t: Seq<char>| answer(*is_ip, t)),
            i <= answers.len(),
            resolved_all(answers@, ipf) == texts(out@) + resolved_all(answers@.skip(i as int), ipf),
        decreases answers.len() - i,
    {
        let a = &answers[i];
        assert(answers@.skip(i as int)[0] == *a);
        assert(answers@.skip(i as int).drop_first() =~= answers@.skip(i + 1));
        let ghost before = texts(out@);
        let typed = match a.get("type") {
            Some(Json::Number(Some(n))) => *n == 1,
            _ => false,
        };
        if typed {
            match crate::transform::text_under(a, "data") {
                Some(d) => {
                    let ds = d.as_str();
                    let ok = is_ip(ds);
                    proof {
                        lemma_answer(*is_ip, ds, ok);
                    }
                    if ok {
                        out.push(d);
                        assert(texts(out@) =~= before + resolved_one(*a, ipf));
                    } else {
                        assert(resolved_one(*a, ipf) =~= Seq::<Seq<char>>::empty());
                    }
                },
                None => {
                    assert(resolved_one(*a, ipf) =~= Seq::<Seq<char>>::empty());
                },
            }
        } else {
            assert(resolved_one(*a, ipf) =~= Seq::<Seq<char>>::empty());
        }
        assert(before + (resolved_one(*a, ipf) + resolved_all(answers@.skip(i + 1), ipf))
            =~= (before + resolved_one(*a, ipf)) + resolved_all(answers@.skip(i + 1), ipf));
        i = i + 1;
    }
    assert(texts(out@) + Seq::<Seq<char>>::empty() =~= texts(out@));
    out
}

} // verus!
