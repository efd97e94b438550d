//! The configuration document: rule chains and the named domain pools they
//! refer to.

use crate::name_map::NameMap;
use std::sync::Arc;
use crate::text::{
    lemma_bytes_before_total, lemma_bytes_before_transitive, same_text, sorts_before, text_before,
};
use vstd::prelude::*;
use vstd::utf8::encode_utf8;
use zeroize::Zeroize;

verus! {

/// Port assumed for a SOCKS5 upstream whose address names none.
pub fn default_socks_port() -> (port: u16)
    ensures
        port == 1080,
{
    1080
}

/// The address that a listener of the document binds where it names none.
pub fn default_listener_address() -> (address: String)
    ensures
        address@ == "0.0.0.0:80"@,
{
    "0.0.0.0:80".to_owned()
}

/// `zeroize::Zeroize::zeroize` of `String`: the text's bytes are overwritten
/// with zeros and the text is left empty. It does not panic.
#[verifier::external_body]
fn wipe(text: &mut String)
    ensures
        final(text)@.len() == 0,
    opens_invariants none
    no_unwind
{
    text.zeroize()
}

/// A password. It is kept out of every printed form of a configuration, and
/// its memory is overwritten when it is dropped.
#[derive(PartialEq, Eq)]
pub struct Password(pub String);

impl View for Password {
    type V = Seq<char>;

    open spec fn view(&self) -> Seq<char> {
        self.0@
    }
}

impl Password {
    /// What stands for a password wherever a configuration is printed.
    pub fn redacted() -> (text: &'static str)
        ensures
            text@ == "<password>"@,
    {
        "<password>"
    }

    /// Overwrites the password's memory and leaves it empty.
    pub fn clear(&mut self)
        ensures
            final(self)@.len() == 0,
    {
        wipe(&mut self.0);
    }
}

impl Clone for Password {
    fn clone(&self) -> (copy: Self)
        ensures
            copy@ == self@,
    {
        Password(self.0.clone())
    }
}

impl Drop for Password {
    fn drop(&mut self)
        opens_invariants none
        no_unwind
    {
        wipe(&mut self.0);
    }
}

/// The name and password that a SOCKS5 upstream asks for.
#[derive(PartialEq, Eq)]
pub struct Credentials {
    pub username: String,
    pub password: Password,
}

/// Credentials as plain values.
pub struct CredentialsView {
    pub username: Seq<char>,
    pub password: Seq<char>,
}

impl View for Credentials {
    type V = CredentialsView;

    open spec fn view(&self) -> CredentialsView {
        CredentialsView { username: self.username@, password: self.password@ }
    }
}

impl Clone for Credentials {
    fn clone(&self) -> (copy: Self)
        ensures
            copy@ == self@,
    {
        Credentials { username: self.username.clone(), password: self.password.clone() }
    }
}

/// Which connections a rule applies to.
#[derive(Clone, Debug, PartialEq, Eq)]
pub enum ChainFilter {
    /// Every connection.
    Anything,
    /// Connections to a host of the named pool.
    DomainPool { pool: String },
    /// Connections to a host that the pattern matches: `*` stands for any
    /// characters, `?` for one.
    DomainWildcard { wildcard: String },
}

/// What a rule does with a connection that it applies to.
#[derive(Clone, PartialEq, Eq)]
pub enum ChainAction {
    /// Connect to the destination itself.
    DirectConnect,
    /// Go on with the rules of another chain.
    GotoChain { chain: String },
    /// Connect through a SOCKS5 proxy.
    Socks5Proxy { credentials: Option<Credentials>, address: String },
    /// Refuse the connection.
    Drop,
}

/// One rule of a chain.
#[derive(Clone, PartialEq, Eq)]
pub struct ChainRule {
    pub filter: ChainFilter,
    pub action: ChainAction,
}

/// A set of hostnames, kept in the order of `str`.
pub struct DomainPool {
    hosts: Vec<String>,
}

/// Whether each host sorts before all that follow it.
spec fn ascending(hosts: Seq<String>) -> bool {
    forall|i: int, j: int|
        0 <= i < j < hosts.len() ==> text_before((#[trigger] hosts[i])@, (#[trigger] hosts[j])@)
}

/// Whether `host` is one of `hosts`.
spec fn among(hosts: Seq<String>, host: Seq<char>) -> bool {
    exists|i: int| 0 <= i < hosts.len() && (#[trigger] hosts[i])@ == host
}

proof fn lemma_text_order_total(a: Seq<char>, b: Seq<char>)
    ensures
        a == b || text_before(a, b) || text_before(b, a),
{
    broadcast use vstd::utf8::encode_utf8_decode_utf8;

    lemma_bytes_before_total(encode_utf8(a), encode_utf8(b));
    if encode_utf8(a) == encode_utf8(b) {
        assert(vstd::utf8::decode_utf8(encode_utf8(a)) == a);
        assert(vstd::utf8::decode_utf8(encode_utf8(b)) == b);
    }
}

impl View for DomainPool {
    type V = Set<Seq<char>>;

    closed spec fn view(&self) -> Set<Seq<char>> {
        Set::new(|host: Seq<char>| among(self.hosts@, host))
    }
}

impl DomainPool {
    #[verifier::type_invariant]
    spec fn sorted(self) -> bool {
        self.wf()
    }

    /// Whether the pool keeps its hosts in ascending order. Every pool that
    /// the program holds does.
    pub closed spec fn wf(&self) -> bool {
        ascending(self.hosts@)
    }

    /// The hosts in the order in which the pool keeps them.
    pub closed spec fn hosts(&self) -> Seq<Seq<char>> {
        Seq::new(self.hosts@.len(), |i: int| self.hosts@[i]@)
    }

    /// A pool without hosts.
    pub fn new() -> (pool: Self)
        ensures
            pool@ == Set::<Seq<char>>::empty(),
            pool.hosts().len() == 0,
    {
        let pool = DomainPool { hosts: Vec::new() };
        assert(pool@ =~= Set::<Seq<char>>::empty());
        pool
    }

    /// The number of hosts.
    pub fn len(&self) -> (n: usize)
        ensures
            n == self.hosts().len(),
            self.wf(),
    {
        proof {
            use_type_invariant(self);
        }
        self.hosts.len()
    }

    /// The `i`-th host in the pool's order.
    pub fn host_at(&self, i: usize) -> (host: &String)
        requires
            i < self.hosts().len(),
        ensures
            host@ == self.hosts()[i as int],
    {
        &self.hosts[i]
    }

    /// Whether `host` is in the pool: whether one of its hosts is the same
    /// text, character for character. The hosts being in order, the search
    /// halves them at each step.
    pub fn contains(&self, host: &str) -> (found: bool)
        ensures
            found == self@.contains(host@),
    {
        proof {
            use_type_invariant(self);
        }
        let mut low: usize = 0;
        let mut high: usize = self.hosts.len();
        while low < high
            invariant
                low <= high <= self.hosts@.len(),
                ascending(self.hosts@),
                forall|j: int| 0 <= j < low ==> text_before((#[trigger] self.hosts@[j])@, host@),
                forall|j: int|
                    high <= j < self.hosts@.len() ==> text_before(
                        host@,
                        (#[trigger] self.hosts@[j])@,
                    ),
            decreases high - low,
        {
            let middle: usize = low + (high - low) / 2;
            let here = self.hosts[middle].as_str();
            if same_text(here, host) {
                return true;
            }
            if sorts_before(here, host) {
                proof {
                    assert forall|j: int| 0 <= j < middle + 1 implies text_before(
                        (#[trigger] self.hosts@[j])@,
                        host@,
                    ) by {
                        if j < middle {
                            lemma_bytes_before_transitive(
                                encode_utf8(self.hosts@[j]@),
                                encode_utf8(here@),
                                encode_utf8(host@),
                            );
                        }
                    }
                }
                low = middle + 1;
            } else {
                proof {
                    lemma_text_order_total(host@, here@);
                    assert forall|j: int| middle <= j < self.hosts@.len() implies text_before(
                        host@,
                        (#[trigger] self.hosts@[j])@,
                    ) by {
                        if j > middle {
                            lemma_bytes_before_transitive(
                                encode_utf8(host@),
                                encode_utf8(here@),
                                encode_utf8(self.hosts@[j]@),
                            );
                        }
                    }
                }
                high = middle;
            }
        }
        proof {
            crate::text::lemma_bytes_before_irreflexive(encode_utf8(host@));
            assert forall|j: int| 0 <= j < self.hosts@.len() implies (#[trigger] self.hosts@[j])@
                != host@ by {
                if j < low {
                    assert(text_before(self.hosts@[j]@, host@));
                } else {
                    assert(text_before(host@, self.hosts@[j]@));
                }
            }
        }
        false
    }

    /// Puts `host` into the pool, at its place in the order. Says whether it
    /// was new.
    pub fn insert(&mut self, host: String) -> (added: bool)
        ensures
            final(self)@ == old(self)@.insert(host@),
            added == !old(self)@.contains(host@),
    {
        proof {
            use_type_invariant(&*self);
        }
        let ghost before = self.hosts@;
        let mut i: usize = 0;
        while i < self.hosts.len() && sorts_before(self.hosts[i].as_str(), host.as_str())
            invariant
                self.hosts@ == before,
                i <= before.len(),
                forall|j: int| 0 <= j < i ==> text_before((#[trigger] before[j])@, host@),
            decreases before.len() - i,
        {
            i += 1;
        }
        if i < self.hosts.len() && same_text(self.hosts[i].as_str(), host.as_str()) {
            assert(self@ =~= old(self)@.insert(host@));
            return false;
        }
        proof {
            let after = before.insert(i as int, host);
            assert forall|j: int| i <= j < before.len() implies text_before(
                host@,
                (#[trigger] before[j])@,
            ) by {
                lemma_text_order_total(host@, before[i as int]@);
                if j > i {
                    lemma_bytes_before_transitive(
                        encode_utf8(host@),
                        encode_utf8(before[i as int]@),
                        encode_utf8(before[j]@),
                    );
                }
            }
            assert forall|a: int, b: int| 0 <= a < b < after.len() implies text_before(
                (#[trigger] after[a])@,
                (#[trigger] after[b])@,
            ) by {
                let a0 = if a < i { a } else { a - 1 };
                let b0 = if b < i { b } else { b - 1 };
                if a == i {
                    assert(after[b] == before[b0]);
                } else if b == i {
                    assert(after[a] == before[a0]);
                } else {
                    assert(after[a] == before[a0]);
                    assert(after[b] == before[b0]);
                }
            }
            assert forall|j: int| 0 <= j < before.len() implies (#[trigger] before[j])@ != host@ by {
                if j < i {
                    crate::text::lemma_bytes_before_irreflexive(encode_utf8(host@));
                } else {
                    crate::text::lemma_bytes_before_irreflexive(encode_utf8(host@));
                }
            }
            assert forall|h: Seq<char>| among(after, h) <==> (among(before, h) || h == host@) by {
                if among(after, h) {
                    let k = choose|k: int| 0 <= k < after.len() && (#[trigger] after[k])@ == h;
                    if k < i {
                        assert(before[k]@ == h);
                    } else if k > i {
                        assert(before[k - 1]@ == h);
                    }
                }
                if among(before, h) {
                    let k = choose|k: int| 0 <= k < before.len() && (#[trigger] before[k])@ == h;
                    if k < i {
                        assert(after[k]@ == h);
                    } else {
                        assert(after[k + 1]@ == h);
                    }
                }
                if h == host@ {
                    assert(after[i as int]@ == h);
                }
            }
        }
        let mut hosts: Vec<String> = Vec::new();
        core::mem::swap(&mut self.hosts, &mut hosts);
        hosts.insert(i, host);
        self.hosts = hosts;
        assert(self@ =~= old(self)@.insert(host@));
        true
    }

    /// The hosts as a configuration shows them when it is printed: the first
    /// ten, and a mark after them where there are more.
    pub fn preview(&self) -> (shown: Vec<String>)
        ensures
            shown@.len() == if self.hosts().len() > 10 {
                11
            } else {
                self.hosts().len() as int
            },
            forall|i: int|
                0 <= i < self.hosts().len() && i < 10 ==> (#[trigger] shown@[i])@ == self.hosts()[i],
            self.hosts().len() > 10 ==> shown@[10]@ == "<trimmed>"@,
    {
        let mut shown: Vec<String> = Vec::new();
        let mut i: usize = 0;
        while i < self.hosts.len() && i < 10
            invariant
                i <= self.hosts@.len(),
                i <= 10,
                shown@.len() == i,
                forall|j: int| 0 <= j < i ==> (#[trigger] shown@[j])@ == self.hosts()[j],
            decreases 10 - i,
        {
            shown.push(self.hosts[i].clone());
            i += 1;
        }
        if self.hosts.len() > 10 {
            shown.push("<trimmed>".to_owned());
        }
        shown
    }

    /// The pool of the hosts in `hosts`.
    pub fn from_hosts(hosts: Vec<String>) -> (pool: Self)
        ensures
            forall|host: Seq<char>|
                pool@.contains(host) <==> exists|i: int|
                    0 <= i < hosts@.len() && (#[trigger] hosts@[i])@ == host,
    {
        let mut pool = DomainPool::new();
        let mut hosts = hosts;
        let ghost all = hosts@;
        while hosts.len() > 0
            invariant
                hosts@.len() <= all.len(),
                hosts@ == all.take(hosts@.len() as int),
                forall|host: Seq<char>|
                    pool@.contains(host) <==> exists|i: int|
                        hosts@.len() <= i < all.len() && (#[trigger] all[i])@ == host,
            decreases hosts@.len(),
        {
            let ghost older = pool@;
            let ghost n = hosts@.len() - 1;
            let host = hosts.pop().unwrap();
            assert(host == all[n]);
            pool.insert(host);
            assert forall|h: Seq<char>|
                pool@.contains(h) <==> exists|i: int|
                    n <= i < all.len() && (#[trigger] all[i])@ == h by {
                if older.contains(h) {
                    let i = choose|i: int| n + 1 <= i < all.len() && (#[trigger] all[i])@ == h;
                    assert(n <= i < all.len() && all[i]@ == h);
                }
                if exists|i: int| n <= i < all.len() && (#[trigger] all[i])@ == h {
                    let i = choose|i: int| n <= i < all.len() && (#[trigger] all[i])@ == h;
                    if i > n {
                        assert(n + 1 <= i < all.len() && all[i]@ == h);
                    }
                }
            }
        }
        pool
    }

    /// A host is in a pool where it is one of its hosts, the same text
    /// character for character, and nowhere else.
    pub proof fn lemma_membership_is_equality(self, host: Seq<char>)
        ensures
            self@.contains(host) <==> exists|i: int|
                0 <= i < self.hosts().len() && #[trigger] self.hosts()[i] == host,
    {
        if among(self.hosts@, host) {
            let i = choose|i: int| 0 <= i < self.hosts@.len() && (#[trigger] self.hosts@[i])@ == host;
            assert(self.hosts()[i] == host);
        }
        if exists|i: int| 0 <= i < self.hosts().len() && #[trigger] self.hosts()[i] == host {
            let i = choose|i: int| 0 <= i < self.hosts().len() && #[trigger] self.hosts()[i] == host;
            assert(self.hosts@[i]@ == host);
        }
    }

    /// The hosts of a pool are in ascending order, so none occurs twice.
    pub proof fn lemma_hosts_ascend(self)
        requires
            self.wf(),
        ensures
            forall|i: int, j: int|
                0 <= i < j < self.hosts().len() ==> text_before(
                    #[trigger] self.hosts()[i],
                    #[trigger] self.hosts()[j],
                ),
            self.hosts().no_duplicates(),
    {
        assert forall|i: int, j: int| 0 <= i < j < self.hosts().len() implies text_before(
            #[trigger] self.hosts()[i],
            #[trigger] self.hosts()[j],
        ) by {
            assert(text_before(self.hosts@[i]@, self.hosts@[j]@));
        }
        assert forall|i: int, j: int|
            0 <= i < self.hosts().len() && 0 <= j < self.hosts().len() && i != j implies self.hosts()[i]
            != self.hosts()[j] by {
            crate::text::lemma_bytes_before_irreflexive(encode_utf8(self.hosts()[i]));
            if i < j {
                assert(text_before(self.hosts()[i], self.hosts()[j]));
            } else {
                assert(text_before(self.hosts()[j], self.hosts()[i]));
            }
        }
    }
}

impl Clone for DomainPool {
    fn clone(&self) -> (copy: Self)
        ensures
            copy@ == self@,
            copy.hosts() == self.hosts(),
    {
        proof {
            use_type_invariant(self);
        }
        let mut hosts: Vec<String> = Vec::new();
        let mut i: usize = 0;
        while i < self.hosts.len()
            invariant
                i <= self.hosts@.len(),
                hosts@.len() == i,
                forall|j: int| 0 <= j < i ==> (#[trigger] hosts@[j])@ == self.hosts@[j]@,
            decreases self.hosts@.len() - i,
        {
            hosts.push(self.hosts[i].clone());
            i += 1;
        }
        proof {
            assert forall|a: int, b: int| 0 <= a < b < hosts@.len() implies text_before(
                (#[trigger] hosts@[a])@,
                (#[trigger] hosts@[b])@,
            ) by {
                assert(text_before(self.hosts@[a]@, self.hosts@[b]@));
            }
        }
        let copy = DomainPool { hosts };
        proof {
            assert(copy.hosts() =~= self.hosts());
            assert forall|h: Seq<char>| among(copy.hosts@, h) <==> among(self.hosts@, h) by {
                if among(copy.hosts@, h) {
                    let k = choose|k: int| 0 <= k < copy.hosts@.len() && (#[trigger] copy.hosts@[k])@ == h;
                    assert(self.hosts@[k]@ == h);
                }
                if among(self.hosts@, h) {
                    let k = choose|k: int| 0 <= k < self.hosts@.len() && (#[trigger] self.hosts@[k])@ == h;
                    assert(copy.hosts@[k]@ == h);
                }
            }
            assert(copy@ =~= self@);
        }
        copy
    }
}

/// What chains refer to by name.
#[derive(Clone)]
pub struct Stash {
    /// The domain pools, by name.
    pub domain_pools: NameMap<DomainPool>,
}

/// The kinds of listener that the document can name.
#[derive(Debug, Clone, Copy, PartialEq, Eq, Hash, Structural)]
pub enum ListenerKind {
    HTTP,
    TLS,
}

/// A listener as the document names it. The proxy binds the listeners of its
/// command line; those of the document are kept and not bound.
#[derive(Debug, Clone, PartialEq, Eq, Hash)]
pub struct Listener {
    pub kind: ListenerKind,
    /// The address to bind, as a socket address in text.
    pub address: String,
    /// The chain that its connections start with.
    pub forward: String,
}

/// The whole document. A configuration in use is never changed: it is
/// replaced by another.
#[derive(Clone)]
pub struct Config {
    pub listeners: Vec<Listener>,
    /// The chains, by name.
    pub chains: NameMap<Vec<ChainRule>>,
    pub stash: Stash,
}

impl Default for ListenerKind {
    fn default() -> (kind: Self)
        ensures
            kind == ListenerKind::HTTP,
    {
        ListenerKind::HTTP
    }
}

impl Default for DomainPool {
    fn default() -> (pool: Self)
        ensures
            pool@ == Set::<Seq<char>>::empty(),
    {
        DomainPool::new()
    }
}

impl Default for Stash {
    fn default() -> (stash: Self)
        ensures
            stash.domain_pools@ == Map::<Seq<char>, DomainPool>::empty(),
    {
        Stash { domain_pools: NameMap::new() }
    }
}

impl Default for ChainFilter {
    fn default() -> (filter: Self)
        ensures
            filter == ChainFilter::Anything,
    {
        ChainFilter::Anything
    }
}

impl Default for ChainAction {
    fn default() -> (action: Self)
        ensures
            action is DirectConnect,
    {
        ChainAction::DirectConnect
    }
}

impl Default for ChainRule {
    fn default() -> (rule: Self)
        ensures
            rule.filter == ChainFilter::Anything,
            rule.action is DirectConnect,
    {
        ChainRule { filter: ChainFilter::Anything, action: ChainAction::DirectConnect }
    }
}

impl Default for Config {
    fn default() -> (config: Self)
        ensures
            config.listeners@.len() == 0,
            config.chains@ == Map::<Seq<char>, Vec<ChainRule>>::empty(),
            config.stash.domain_pools@ == Map::<Seq<char>, DomainPool>::empty(),
    {
        Config { listeners: Vec::new(), chains: NameMap::new(), stash: Stash::default() }
    }
}

/// `Arc::clone`: another handle on the same value.
#[verifier::external_body]
fn share(config: &Arc<Config>) -> (handle: Arc<Config>)
    ensures
        handle == *config,
{
    Arc::clone(config)
}

/// A configuration as a connection holds it: it stays what it is, whatever
/// is installed after it.
#[derive(Clone)]
pub struct Snapshot {
    /// The configuration.
    pub config: Arc<Config>,
    /// How many configurations had been installed when this one was
    /// current.
    pub install: u64,
}

/// The configuration in use. Readers take snapshots of it; a writer
/// replaces it whole.
pub struct ConfigStore {
    current: Arc<Config>,
    installs: u64,
}

impl ConfigStore {
    /// The configuration in use.
    pub closed spec fn config(&self) -> Config {
        *self.current
    }

    /// How many configurations have been installed, up to the largest
    /// number that is counted.
    pub closed spec fn installs(&self) -> nat {
        self.installs as nat
    }

    /// A store that holds the empty configuration.
    pub fn new() -> (store: Self)
        ensures
            store.installs() == 0,
            store.config().listeners@.len() == 0,
            store.config().chains@ == Map::<Seq<char>, Vec<ChainRule>>::empty(),
            store.config().stash.domain_pools@ == Map::<Seq<char>, DomainPool>::empty(),
    {
        ConfigStore { current: Arc::new(Config::default()), installs: 0 }
    }

    /// A snapshot of the configuration in use.
    pub fn current(&self) -> (snapshot: Snapshot)
        ensures
            *snapshot.config == self.config(),
            snapshot.install == self.installs(),
    {
        Snapshot { config: share(&self.current), install: self.installs }
    }

    /// Installs the configuration that was loaded at startup, if one was:
    /// where reading or parsing it failed, the store keeps what it holds.
    /// Says whether one was installed.
    pub fn restore(&mut self, loaded: Option<Config>) -> (installed: bool)
        ensures
            installed == loaded is Some,
            match loaded {
                Some(config) => final(self).config() == config && final(self).installs() == if old(
                    self,
                ).installs() < u64::MAX {
                    old(self).installs() + 1
                } else {
                    old(self).installs()
                },
                None => final(self).config() == old(self).config() && final(self).installs()
                    == old(self).installs(),
            },
    {
        match loaded {
            Some(config) => {
                self.replace(config);
                true
            },
            None => false,
        }
    }

    /// Installs `config` in place of the configuration in use, and returns
    /// the one that it replaces. Snapshots taken before are what they were.
    pub fn replace(&mut self, config: Config) -> (previous: Snapshot)
        ensures
            final(self).config() == config,
            final(self).installs() == if old(self).installs() < u64::MAX {
                old(self).installs() + 1
            } else {
                old(self).installs()
            },
            *previous.config == old(self).config(),
            previous.install == old(self).installs(),
    {
        let mut current = Arc::new(config);
        core::mem::swap(&mut self.current, &mut current);
        let install = self.installs;
        if self.installs < u64::MAX {
            self.installs = self.installs + 1;
        }
        Snapshot { config: current, install }
    }
}

} // verus!
