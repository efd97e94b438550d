//! The chain resolver: from a configuration snapshot and the destination
//! that a sniffer found to the upstream that the connection is given.

use crate::config::{
    ChainAction, ChainFilter, ChainRule, Config, ConfigStore, Credentials, CredentialsView,
    Snapshot, Stash,
};
use crate::text::{host_port, join_host_port, same_text};
use vstd::prelude::*;
use wildmatch::WildMatch;

verus! {

/// The destination that a sniffer found in a connection's first bytes.
#[derive(Clone, Debug, PartialEq, Eq)]
pub struct Context {
    /// The hostname, as rules match it.
    pub host: String,
    /// The port on that host.
    pub port: u16,
    /// `host:port`, as a direct connection dials it.
    pub address: String,
}

impl Context {
    /// Whether `address` is the host and the port joined by a colon.
    pub open spec fn wf(&self) -> bool {
        self.address@ == host_port(self.host@, self.port)
    }

    /// The context of a connection to `port` on `host`.
    pub fn new(host: String, port: u16) -> (context: Context)
        ensures
            context.host@ == host@,
            context.port == port,
            context.wf(),
    {
        let address = join_host_port(host.as_str(), port);
        Context { host, port, address }
    }
}

/// Whether `pattern` matches the whole of `text`: `*` stands for any
/// characters, none included, `?` for exactly one, and every other
/// character for itself.
pub open spec fn wild_matches(pattern: Seq<char>, text: Seq<char>) -> bool
    decreases pattern.len(), text.len(),
{
    if pattern.len() == 0 {
        text.len() == 0
    } else if pattern[0] == '*' {
        wild_matches(pattern.skip(1), text) || (text.len() > 0 && wild_matches(
            pattern,
            text.skip(1),
        ))
    } else {
        text.len() > 0 && (pattern[0] == '?' || pattern[0] == text[0]) && wild_matches(
            pattern.skip(1),
            text.skip(1),
        )
    }
}

/// `wildmatch::WildMatch::new` and `matches`: whether the pattern matches
/// the entire text, with `*` for any number of characters and `?` for one,
/// case-sensitively and without escapes.
#[verifier::external_body]
fn wildcard_matches(pattern: &str, text: &str) -> (matched: bool)
    ensures
        matched == wild_matches(pattern@, text@),
{
    WildMatch::new(pattern).matches(text)
}

/// Whether `filter` lets a connection to `host` through. A pool that the
/// stash does not hold has no members.
pub open spec fn filter_applies(stash: Stash, filter: ChainFilter, host: Seq<char>) -> bool {
    match filter {
        ChainFilter::Anything => true,
        ChainFilter::DomainPool { pool } => stash.domain_pools@.contains_key(pool@)
            && stash.domain_pools@[pool@]@.contains(host),
        ChainFilter::DomainWildcard { wildcard } => wild_matches(wildcard@, host),
    }
}

/// The first rule of `rules` whose filter applies to `host`.
pub open spec fn first_match(stash: Stash, rules: Seq<ChainRule>, host: Seq<char>) -> Option<
    ChainRule,
>
    decreases rules.len(),
{
    if rules.len() == 0 {
        None
    } else if filter_applies(stash, rules[0].filter, host) {
        Some(rules[0])
    } else {
        first_match(stash, rules.skip(1), host)
    }
}

/// Why a connection goes to its destination directly.
#[derive(Debug, Clone, PartialEq, Eq)]
pub enum Reason {
    /// A rule said so.
    Rule,
    /// No rule of the chain applied.
    NoMatch,
    /// The chain to walk is not in the configuration.
    MissingChain { chain: String },
    /// The chain to walk had been walked before.
    Cycle { chain: String },
}

/// A reason as plain values.
pub enum ReasonView {
    Rule,
    NoMatch,
    MissingChain { chain: Seq<char> },
    Cycle { chain: Seq<char> },
}

impl View for Reason {
    type V = ReasonView;

    open spec fn view(&self) -> ReasonView {
        match *self {
            Reason::Rule => ReasonView::Rule,
            Reason::NoMatch => ReasonView::NoMatch,
            Reason::MissingChain { chain } => ReasonView::MissingChain { chain: chain@ },
            Reason::Cycle { chain } => ReasonView::Cycle { chain: chain@ },
        }
    }
}

/// How the upstream of a connection is opened.
#[derive(PartialEq, Eq)]
pub enum Route {
    /// A TCP connection to `address`.
    Direct { address: String, reason: Reason },
    /// A SOCKS5 CONNECT to `host` and `port` through the proxy at `proxy`.
    Socks5 { proxy: String, host: String, port: u16, credentials: Option<Credentials> },
    /// None: the connection is closed.
    Dropped,
}

/// A route as plain values.
pub enum RouteView {
    Direct { address: Seq<char>, reason: ReasonView },
    Socks5 { proxy: Seq<char>, host: Seq<char>, port: u16, credentials: Option<CredentialsView> },
    Dropped,
}

impl View for Route {
    type V = RouteView;

    open spec fn view(&self) -> RouteView {
        match *self {
            Route::Direct { address, reason } => RouteView::Direct {
                address: address@,
                reason: reason@,
            },
            Route::Socks5 { proxy, host, port, credentials } => RouteView::Socks5 {
                proxy: proxy@,
                host: host@,
                port,
                credentials: match credentials {
                    Some(c) => Some(c@),
                    None => None,
                },
            },
            Route::Dropped => RouteView::Dropped,
        }
    }
}

/// What the resolver found: the route, and the chains whose rules it walked
/// to find it, in order.
#[derive(PartialEq, Eq)]
pub struct Resolution {
    pub route: Route,
    pub trail: Vec<String>,
}

/// A resolution as plain values.
pub struct ResolutionView {
    pub route: RouteView,
    pub trail: Seq<Seq<char>>,
}

impl View for Resolution {
    type V = ResolutionView;

    open spec fn view(&self) -> ResolutionView {
        ResolutionView { route: self.route@, trail: names_of(self.trail@) }
    }
}

/// The route that `action` asks for.
pub open spec fn route_of(action: ChainAction, context: Context) -> RouteView
    recommends
        !(action is GotoChain),
{
    match action {
        ChainAction::Socks5Proxy { credentials, address } => RouteView::Socks5 {
            proxy: address@,
            host: context.host@,
            port: context.port,
            credentials: match credentials {
                Some(c) => Some(c@),
                None => None,
            },
        },
        ChainAction::Drop => RouteView::Dropped,
        _ => RouteView::Direct { address: context.address@, reason: ReasonView::Rule },
    }
}

/// The resolution of a connection that is about to walk the chain `name`,
/// having walked the chains of `trail`. A chain that was walked before, or
/// that the configuration does not hold, sends the connection to its
/// destination directly; so does a chain of which no rule applies. The first
/// rule that applies decides otherwise.
pub open spec fn walk(config: Config, context: Context, name: Seq<char>, trail: Seq<Seq<char>>) -> ResolutionView
    decreases config.chains@.dom().difference(trail.to_set()).len(),
    via walk_decreases
{
    if trail.contains(name) {
        ResolutionView {
            route: RouteView::Direct {
                address: context.address@,
                reason: ReasonView::Cycle { chain: name },
            },
            trail,
        }
    } else if !config.chains@.contains_key(name) {
        ResolutionView {
            route: RouteView::Direct {
                address: context.address@,
                reason: ReasonView::MissingChain { chain: name },
            },
            trail,
        }
    } else {
        match first_match(config.stash, config.chains@[name]@, context.host@) {
            None => ResolutionView {
                route: RouteView::Direct { address: context.address@, reason: ReasonView::NoMatch },
                trail: trail.push(name),
            },
            Some(rule) => match rule.action {
                ChainAction::GotoChain { chain } => walk(config, context, chain@, trail.push(name)),
                action => ResolutionView { route: route_of(action, context), trail: trail.push(name) },
            },
        }
    }
}

#[via_fn]
proof fn walk_decreases(config: Config, context: Context, name: Seq<char>, trail: Seq<Seq<char>>) {
    if !trail.contains(name) && config.chains@.contains_key(name) {
        lemma_walk_measure(config, name, trail);
    }
}

proof fn lemma_walk_measure(config: Config, name: Seq<char>, trail: Seq<Seq<char>>)
    requires
        !trail.contains(name),
        config.chains@.contains_key(name),
    ensures
        config.chains@.dom().difference(trail.push(name).to_set()).len()
            < config.chains@.dom().difference(trail.to_set()).len(),
{
    config.chains.lemma_names();
    let dom = config.chains@.dom();
    let left = dom.difference(trail.to_set());
    assert(left.contains(name));
    assert(dom.difference(trail.push(name).to_set()) =~= left.remove(name)) by {
        assert forall|k: Seq<char>| trail.push(name).to_set().contains(k) <==> (trail.to_set().contains(
            k,
        ) || k == name) by {
            if trail.push(name).contains(k) {
                let i = choose|i: int| 0 <= i < trail.push(name).len() && trail.push(name)[i] == k;
                if i < trail.len() {
                    assert(trail[i] == k);
                }
            }
            if trail.contains(k) {
                let i = choose|i: int| 0 <= i < trail.len() && trail[i] == k;
                assert(trail.push(name)[i] == k);
            }
            if k == name {
                assert(trail.push(name)[trail.len() as int] == k);
            }
        }
    }
    vstd::set_lib::lemma_len_subset(left, dom);
}

/// The resolution of a connection that starts with the chain `start`.
pub open spec fn resolution(config: Config, context: Context, start: Seq<char>) -> ResolutionView {
    walk(config, context, start, Seq::empty())
}

/// Whether `filter` lets a connection to `host` through.
pub fn applies(stash: &Stash, filter: &ChainFilter, host: &str) -> (matched: bool)
    ensures
        matched == filter_applies(*stash, *filter, host@),
{
    match filter {
        ChainFilter::Anything => true,
        ChainFilter::DomainPool { pool } => match stash.domain_pools.get(pool.as_str()) {
            Some(members) => members.contains(host),
            None => false,
        },
        ChainFilter::DomainWildcard { wildcard } => wildcard_matches(wildcard.as_str(), host),
    }
}

/// The index of the first rule of `rules` whose filter applies to `host`.
pub fn find_rule(stash: &Stash, rules: &Vec<ChainRule>, host: &str) -> (found: Option<usize>)
    ensures
        match found {
            Some(i) => i < rules@.len() && first_match(*stash, rules@, host@) == Some(rules@[i as int]),
            None => first_match(*stash, rules@, host@) is None,
        },
{
    let mut i: usize = 0;
    assert(rules@.skip(0) =~= rules@);
    while i < rules.len()
        invariant
            i <= rules@.len(),
            first_match(*stash, rules@.skip(i as int), host@) == first_match(*stash, rules@, host@),
        decreases rules@.len() - i,
    {
        assert(rules@.skip(i as int)[0] == rules@[i as int]);
        if applies(stash, &rules[i].filter, host) {
            return Some(i);
        }
        assert(rules@.skip(i as int).skip(1) =~= rules@.skip(i + 1));
        i += 1;
    }
    None
}

/// The names in `trail`, as plain values.
pub open spec fn names_of(trail: Seq<String>) -> Seq<Seq<char>> {
    Seq::new(trail.len(), |i: int| trail[i]@)
}

fn walked(trail: &Vec<String>, name: &str) -> (found: bool)
    ensures
        found == names_of(trail@).contains(name@),
{
    let mut i: usize = 0;
    while i < trail.len()
        invariant
            i <= trail@.len(),
            forall|j: int| 0 <= j < i ==> names_of(trail@)[j] != name@,
        decreases trail@.len() - i,
    {
        if same_text(trail[i].as_str(), name) {
            assert(names_of(trail@)[i as int] == name@);
            return true;
        }
        i += 1;
    }
    false
}

fn copy_credentials(credentials: &Option<Credentials>) -> (copy: Option<Credentials>)
    ensures
        match *credentials {
            Some(c) => copy matches Some(d) && d@ == c@,
            None => copy is None,
        },
{
    match credentials {
        Some(c) => Some(c.clone()),
        None => None,
    }
}

/// Picks the upstream of a connection: walks the chain `start` of `config`
/// and the chains that its rules go to, each at most once.
pub fn resolve(config: &Config, context: &Context, start: &str) -> (found: Resolution)
    ensures
        found@ == resolution(*config, *context, start@),
{
    let mut trail: Vec<String> = Vec::new();
    let mut name: String = start.to_owned();
    assert(names_of(trail@) =~= Seq::<Seq<char>>::empty());
    loop
        invariant
            walk(*config, *context, name@, names_of(trail@)) == resolution(
                *config,
                *context,
                start@,
            ),
        decreases config.chains@.dom().difference(names_of(trail@).to_set()).len(),
    {
        let ghost seen = names_of(trail@);
        if walked(&trail, name.as_str()) {
            let route = Route::Direct {
                address: context.address.clone(),
                reason: Reason::Cycle { chain: name },
            };
            let found = Resolution { route, trail };
            assert(found@.trail =~= seen);
            return found;
        }
        let rules = match config.chains.get(name.as_str()) {
            Some(rules) => rules,
            None => {
                let route = Route::Direct {
                    address: context.address.clone(),
                    reason: Reason::MissingChain { chain: name },
                };
                let found = Resolution { route, trail };
                assert(found@.trail =~= seen);
                return found;
            },
        };
        let ghost walking = name@;
        let rule = find_rule(&config.stash, rules, context.host.as_str());
        let route = match rule {
            None => Route::Direct { address: context.address.clone(), reason: Reason::NoMatch },
            Some(i) => match &rules[i].action {
                ChainAction::DirectConnect => Route::Direct {
                    address: context.address.clone(),
                    reason: Reason::Rule,
                },
                ChainAction::GotoChain { chain } => {
                    let next = chain.clone();
                    proof {
                        lemma_walk_measure(*config, walking, seen);
                    }
                    trail.push(name);
                    assert(names_of(trail@) =~= seen.push(walking));
                    name = next;
                    continue ;
                },
                ChainAction::Socks5Proxy { credentials, address } => Route::Socks5 {
                    proxy: address.clone(),
                    host: context.host.clone(),
                    port: context.port,
                    credentials: copy_credentials(credentials),
                },
                ChainAction::Drop => Route::Dropped,
            },
        };
        trail.push(name);
        let found = Resolution { route, trail };
        assert(found@.trail =~= seen.push(walking));
        return found;
    }
}

/// Picks the upstream of a connection under the configuration that is in
/// use when it is asked for.
pub fn connect(store: &ConfigStore, context: &Context, start: &str) -> (found: Resolution)
    ensures
        found@ == resolution(store.config(), *context, start@),
{
    let snapshot = store.current();
    resolve(&snapshot.config, context, start)
}

proof fn lemma_walk_trail(config: Config, context: Context, name: Seq<char>, trail: Seq<Seq<char>>)
    requires
        trail.no_duplicates(),
        forall|i: int| 0 <= i < trail.len() ==> config.chains@.contains_key(#[trigger] trail[i]),
    ensures
        walk(config, context, name, trail).trail.no_duplicates(),
        forall|i: int|
            0 <= i < walk(config, context, name, trail).trail.len() ==> config.chains@.contains_key(
                #[trigger] walk(config, context, name, trail).trail[i],
            ),
    decreases config.chains@.dom().difference(trail.to_set()).len(),
{
    if !trail.contains(name) && config.chains@.contains_key(name) {
        let longer = trail.push(name);
        assert(longer.no_duplicates()) by {
            assert forall|i: int, j: int| 0 <= i < longer.len() && 0 <= j < longer.len() && i
                != j implies longer[i] != longer[j] by {
                if i < trail.len() && j < trail.len() {
                    assert(trail[i] != trail[j]);
                } else if i < trail.len() {
                    assert(trail.contains(trail[i]));
                } else {
                    assert(trail.contains(trail[j]));
                }
            }
        }
        assert forall|i: int| 0 <= i < longer.len() implies config.chains@.contains_key(
            #[trigger] longer[i],
        ) by {
            if i < trail.len() {
                assert(longer[i] == trail[i]);
            }
        }
        match first_match(config.stash, config.chains@[name]@, context.host@) {
            Some(rule) => match rule.action {
                ChainAction::GotoChain { chain } => {
                    lemma_walk_measure(config, name, trail);
                    lemma_walk_trail(config, context, chain@, longer);
                },
                _ => {},
            },
            None => {},
        }
    }
}

/// The resolver walks no chain twice, and only chains of the configuration:
/// the number of chains that it walks is at most the number that there are.
pub proof fn lemma_resolution_walks_each_chain_once(config: Config, context: Context, start: Seq<char>)
    ensures
        resolution(config, context, start).trail.no_duplicates(),
        forall|i: int|
            0 <= i < resolution(config, context, start).trail.len() ==> config.chains@.contains_key(
                #[trigger] resolution(config, context, start).trail[i],
            ),
        resolution(config, context, start).trail.len() <= config.chains@.dom().len(),
{
    let trail = resolution(config, context, start).trail;
    lemma_walk_trail(config, context, start, Seq::empty());
    config.chains.lemma_names();
    trail.unique_seq_to_set();
    assert(trail.to_set().subset_of(config.chains@.dom())) by {
        assert forall|k: Seq<char>| trail.to_set().contains(k) implies config.chains@.dom().contains(
            k,
        ) by {
            let i = choose|i: int| 0 <= i < trail.len() && trail[i] == k;
            assert(config.chains@.contains_key(trail[i]));
        }
    }
    vstd::set_lib::lemma_len_subset(trail.to_set(), config.chains@.dom());
}

/// Whether the first rule of the chain `from` that applies to the
/// connection goes to the chain `to`.
pub open spec fn goes_to(config: Config, context: Context, from: Seq<char>, to: Seq<char>) -> bool {
    &&& config.chains@.contains_key(from)
    &&& first_match(config.stash, config.chains@[from]@, context.host@) matches Some(rule)
    &&& rule.action matches ChainAction::GotoChain { chain }
    &&& chain@ == to
}

proof fn lemma_walked_before(config: Config, context: Context, name: Seq<char>, trail: Seq<Seq<char>>)
    requires
        trail.contains(name),
    ensures
        walk(config, context, name, trail) == (ResolutionView {
            route: RouteView::Direct {
                address: context.address@,
                reason: ReasonView::Cycle { chain: name },
            },
            trail,
        }),
{
}

proof fn lemma_walk_goes_on(
    config: Config,
    context: Context,
    name: Seq<char>,
    next: Seq<char>,
    trail: Seq<Seq<char>>,
)
    requires
        !trail.contains(name),
        goes_to(config, context, name, next),
    ensures
        walk(config, context, name, trail) == walk(config, context, next, trail.push(name)),
{
}

proof fn lemma_cycle_steps(config: Config, context: Context, cycle: Seq<Seq<char>>, k: int)
    requires
        cycle.no_duplicates(),
        0 <= k < cycle.len(),
        forall|i: int|
            0 <= i < cycle.len() - 1 ==> goes_to(config, context, #[trigger] cycle[i], cycle[i + 1]),
        goes_to(config, context, cycle.last(), cycle[0]),
    ensures
        walk(config, context, cycle[k], cycle.take(k)) == (ResolutionView {
            route: RouteView::Direct {
                address: context.address@,
                reason: ReasonView::Cycle { chain: cycle[0] },
            },
            trail: cycle,
        }),
    decreases cycle.len() - k,
{
    let n = cycle.len() as int;
    let trail = cycle.take(k);
    let next = if k + 1 < n { cycle[k + 1] } else { cycle[0] };
    assert(goes_to(config, context, cycle[k], next));
    assert(!trail.contains(cycle[k])) by {
        if trail.contains(cycle[k]) {
            let i = choose|i: int| 0 <= i < trail.len() && trail[i] == cycle[k];
            assert(cycle[i] == cycle[k]);
        }
    }
    assert(trail.push(cycle[k]) =~= cycle.take(k + 1));
    lemma_walk_goes_on(config, context, cycle[k], next, trail);
    if k + 1 < n {
        lemma_cycle_steps(config, context, cycle, k + 1);
    } else {
        assert(cycle.take(n) =~= cycle);
        assert(cycle.contains(cycle[0]));
        lemma_walked_before(config, context, cycle[0], cycle);
    }
}

/// Chains that send a connection round in a circle send it to its
/// destination directly, once each of them has been walked once: where the
/// first applying rule of each chain of `cycle` goes to the next, and that of
/// the last to the first, the resolution from the first is direct, and its
/// trail is `cycle`.
pub proof fn lemma_cycle_goes_direct(config: Config, context: Context, cycle: Seq<Seq<char>>)
    requires
        cycle.len() > 0,
        cycle.no_duplicates(),
        forall|i: int|
            0 <= i < cycle.len() - 1 ==> goes_to(config, context, #[trigger] cycle[i], cycle[i + 1]),
        goes_to(config, context, cycle.last(), cycle[0]),
    ensures
        resolution(config, context, cycle[0]) == (ResolutionView {
            route: RouteView::Direct {
                address: context.address@,
                reason: ReasonView::Cycle { chain: cycle[0] },
            },
            trail: cycle,
        }),
{
    assert(cycle.take(0) =~= Seq::<Seq<char>>::empty());
    lemma_cycle_steps(config, context, cycle, 0);
}

/// A pattern without `*` and `?` matches one text only: itself, from its
/// first character to its last.
pub proof fn lemma_plain_pattern_matches_itself_only(pattern: Seq<char>, text: Seq<char>)
    requires
        forall|i: int| 0 <= i < pattern.len() ==> pattern[i] != '*' && pattern[i] != '?',
    ensures
        wild_matches(pattern, text) <==> pattern == text,
    decreases pattern.len(),
{
    if pattern.len() == 0 {
        if text.len() == 0 {
            assert(pattern =~= text);
        }
    } else {
        assert(pattern[0] != '*' && pattern[0] != '?');
        if text.len() > 0 {
            assert forall|i: int| 0 <= i < pattern.skip(1).len() implies pattern.skip(1)[i] != '*'
                && pattern.skip(1)[i] != '?' by {
                assert(pattern.skip(1)[i] == pattern[i + 1]);
            }
            lemma_plain_pattern_matches_itself_only(pattern.skip(1), text.skip(1));
            if pattern[0] == text[0] && pattern.skip(1) == text.skip(1) {
                assert(pattern =~= seq![pattern[0]] + pattern.skip(1));
                assert(text =~= seq![text[0]] + text.skip(1));
            }
        }
    }
}

/// Where one pattern matches a text and a second pattern a second text, the
/// patterns joined match the texts joined.
pub proof fn lemma_wild_concat(p: Seq<char>, t: Seq<char>, q: Seq<char>, u: Seq<char>)
    requires
        wild_matches(p, t),
        wild_matches(q, u),
    ensures
        wild_matches(p + q, t + u),
    decreases p.len(), t.len(),
{
    if p.len() == 0 {
        assert(p + q =~= q);
        assert(t + u =~= u);
    } else {
        assert((p + q)[0] == p[0]);
        assert((p + q).skip(1) =~= p.skip(1) + q);
        if p[0] == '*' {
            if wild_matches(p.skip(1), t) {
                lemma_wild_concat(p.skip(1), t, q, u);
            } else {
                lemma_wild_concat(p, t.skip(1), q, u);
                assert((t + u).skip(1) =~= t.skip(1) + u);
            }
        } else {
            lemma_wild_concat(p.skip(1), t.skip(1), q, u);
            assert((t + u).skip(1) =~= t.skip(1) + u);
            assert((t + u)[0] == t[0]);
        }
    }
}

/// A `*` takes any characters, and none: where the pattern before it
/// matches a text and the pattern behind it a second text, the whole matches
/// the two texts with anything between them.
pub proof fn lemma_star_matches_anything(
    before: Seq<char>,
    after: Seq<char>,
    head: Seq<char>,
    any: Seq<char>,
    tail: Seq<char>,
)
    requires
        wild_matches(before, head),
        wild_matches(after, tail),
    ensures
        wild_matches(before + seq!['*'] + after, head + any + tail),
{
    lemma_star_leads(after, any, tail);
    lemma_wild_concat(before, head, seq!['*'] + after, any + tail);
    assert(before + seq!['*'] + after =~= before + (seq!['*'] + after));
    assert(head + any + tail =~= head + (any + tail));
}

proof fn lemma_star_leads(after: Seq<char>, any: Seq<char>, tail: Seq<char>)
    requires
        wild_matches(after, tail),
    ensures
        wild_matches(seq!['*'] + after, any + tail),
    decreases any.len(),
{
    let pattern = seq!['*'] + after;
    assert(pattern[0] == '*');
    if any.len() == 0 {
        assert(pattern.skip(1) =~= after);
        assert(any + tail =~= tail);
    } else {
        lemma_star_leads(after, any.skip(1), tail);
        assert((any + tail).skip(1) =~= any.skip(1) + tail);
    }
}

/// What is installed while a connection is in flight does not change where
/// the connection goes: its resolution is that of the snapshot that it took,
/// which is the configuration that the store held then, whatever the store
/// holds after.
pub proof fn lemma_replace_keeps_resolution(
    before: ConfigStore,
    held: Snapshot,
    after: ConfigStore,
    context: Context,
    start: Seq<char>,
)
    requires
        *held.config == before.config(),
    ensures
        resolution(*held.config, context, start) == resolution(before.config(), context, start),
{
}

} // verus!
