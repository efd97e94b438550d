use chain_proxy::chain::{applies, find_rule, resolve, Context, Reason, Resolution, Route};
use chain_proxy::config::{
    ChainAction, ChainFilter, ChainRule, Config, Credentials, DomainPool, Password, Stash,
};

fn rule(filter: ChainFilter, action: ChainAction) -> ChainRule {
    ChainRule { filter, action }
}

fn wildcard(pattern: &str) -> ChainFilter {
    ChainFilter::DomainWildcard { wildcard: pattern.to_string() }
}

fn pool(name: &str) -> ChainFilter {
    ChainFilter::DomainPool { pool: name.to_string() }
}

fn goto(chain: &str) -> ChainAction {
    ChainAction::GotoChain { chain: chain.to_string() }
}

fn socks(address: &str) -> ChainAction {
    ChainAction::Socks5Proxy { credentials: None, address: address.to_string() }
}

fn direct(context: &Context, reason: Reason) -> Route {
    Route::Direct { address: context.address.clone(), reason }
}

fn trail(names: &[&str]) -> Vec<String> {
    names.iter().map(|name| name.to_string()).collect()
}

fn matches(pattern: &str, host: &str) -> bool {
    applies(&Stash::default(), &wildcard(pattern), host)
}

#[test]
fn wildcard_is_anchored_at_both_ends() {
    assert!(matches("example.com", "example.com"));
    assert!(!matches("example.com", "www.example.com"));
    assert!(!matches("example.com", "example.com.evil"));
    assert!(!matches("example.com", "example.co"));
    assert!(!matches("*.example.com", "foo.example.com.evil"));
    assert!(!matches("www.*", "evil.www.example"));
    assert!(matches("", ""));
    assert!(!matches("", "a"));
    assert!(!matches("a", ""));
}

#[test]
fn star_takes_any_characters_and_none() {
    assert!(matches("*.example.com", "foo.example.com"));
    assert!(matches("*.example.com", "a.b.example.com"));
    assert!(matches("*.example.com", ".example.com"));
    assert!(!matches("*.example.com", "example.com"));
    assert!(matches("*", ""));
    assert!(matches("*", "anything.at.all"));
    assert!(matches("**", "x"));
    assert!(matches("a*b*c", "abc"));
    assert!(matches("a*b*c", "aXbYbZc"));
    assert!(!matches("a*b*c", "aXbYbZ"));
    assert!(matches("*ab", "aab"));
    assert!(matches("*a*", "bab"));
    assert!(!matches("*a*", "bbb"));
}

#[test]
fn question_mark_takes_exactly_one_character() {
    assert!(matches("c?t", "cat"));
    assert!(matches("c?t", "c?t"));
    assert!(!matches("c?t", "ct"));
    assert!(!matches("c?t", "caat"));
    assert!(!matches("????", "cat"));
    assert!(matches("???", "cat"));
    assert!(matches("?*", "a"));
    assert!(!matches("?*", ""));
    assert!(matches("é?", "éa"));
    assert!(matches("?", "é"));
}

#[test]
fn wildcard_is_case_sensitive() {
    assert!(!matches("*.Example.com", "foo.example.com"));
    assert!(!matches("example.com", "EXAMPLE.COM"));
}

#[test]
fn pool_membership_is_exact() {
    let mut stash = Stash::default();
    stash.domain_pools.insert(
        "mc_allow".to_string(),
        DomainPool::from_hosts(vec!["play.example.net".to_string()]),
    );
    assert!(applies(&stash, &pool("mc_allow"), "play.example.net"));
    assert!(!applies(&stash, &pool("mc_allow"), "Play.example.net"));
    assert!(!applies(&stash, &pool("mc_allow"), "play.example.net."));
    assert!(!applies(&stash, &pool("mc_allow"), "lay.example.net"));
    assert!(!applies(&stash, &pool("mc_allow"), "play.evil.net"));
    assert!(!applies(&stash, &pool("mc_allow"), ""));
    assert!(!applies(&stash, &pool("missing"), "play.example.net"));
    assert!(!applies(&stash, &pool("MC_ALLOW"), "play.example.net"));
    assert!(applies(&stash, &ChainFilter::Anything, "whatever"));
}

#[test]
fn first_applying_rule_is_found() {
    let stash = Stash::default();
    let rules = vec![
        rule(wildcard("*.a.example"), ChainAction::Drop),
        rule(wildcard("*.example"), ChainAction::DirectConnect),
        rule(ChainFilter::Anything, socks("127.0.0.1:1080")),
    ];
    assert_eq!(find_rule(&stash, &rules, "x.a.example"), Some(0));
    assert_eq!(find_rule(&stash, &rules, "x.b.example"), Some(1));
    assert_eq!(find_rule(&stash, &rules, "example.org"), Some(2));
    assert_eq!(find_rule(&stash, &rules[..2].to_vec(), "example.org"), None);
    assert_eq!(find_rule(&stash, &Vec::new(), "example.org"), None);
}

#[test]
fn missing_start_chain_goes_direct() {
    let config = Config::default();
    let context = Context::new("example.org".to_string(), 80);
    let found = resolve(&config, &context, "default");
    assert!(
        found
            == Resolution {
                route: direct(&context, Reason::MissingChain { chain: "default".to_string() }),
                trail: vec![],
            }
    );
}

#[test]
fn anything_direct_connect() {
    let mut config = Config::default();
    config.chains.insert(
        "default".to_string(),
        vec![rule(ChainFilter::Anything, ChainAction::DirectConnect)],
    );
    let context = Context::new("127.0.0.1".to_string(), 9000);
    let found = resolve(&config, &context, "default");
    assert!(
        found
            == Resolution {
                route: Route::Direct { address: "127.0.0.1:9000".to_string(), reason: Reason::Rule },
                trail: trail(&["default"]),
            }
    );
}

#[test]
fn wildcard_rule_connects_directly() {
    let mut config = Config::default();
    config.chains.insert(
        "tls".to_string(),
        vec![rule(wildcard("*.example.com"), ChainAction::DirectConnect)],
    );
    let context = Context::new("foo.example.com".to_string(), 443);
    let found = resolve(&config, &context, "tls");
    assert!(found.route == direct(&context, Reason::Rule));
    let other = Context::new("foo.example.org".to_string(), 443);
    let found = resolve(&config, &other, "tls");
    assert!(found.route == direct(&other, Reason::NoMatch));
    assert_eq!(found.trail, trail(&["tls"]));
}

#[test]
fn pool_member_goes_through_socks5() {
    let mut config = Config::default();
    config.stash.domain_pools.insert(
        "mc_allow".to_string(),
        DomainPool::from_hosts(vec!["play.example.net".to_string()]),
    );
    config.chains.insert("mc".to_string(), vec![rule(pool("mc_allow"), socks("127.0.0.1:1080"))]);
    let context = Context::new("play.example.net".to_string(), 25565);
    let found = resolve(&config, &context, "mc");
    assert!(
        found.route
            == Route::Socks5 {
                proxy: "127.0.0.1:1080".to_string(),
                host: "play.example.net".to_string(),
                port: 25565,
                credentials: None,
            }
    );
    assert_eq!(found.trail, trail(&["mc"]));
}

#[test]
fn host_outside_the_pool_goes_direct() {
    let mut config = Config::default();
    config.stash.domain_pools.insert(
        "mc_allow".to_string(),
        DomainPool::from_hosts(vec!["play.example.net".to_string()]),
    );
    config.chains.insert("mc".to_string(), vec![rule(pool("mc_allow"), socks("127.0.0.1:1080"))]);
    let context = Context::new("play.evil.net".to_string(), 25565);
    let found = resolve(&config, &context, "mc");
    assert!(
        found.route
            == Route::Direct { address: "play.evil.net:25565".to_string(), reason: Reason::NoMatch }
    );
}

#[test]
fn socks5_rule_hands_on_its_credentials() {
    let mut config = Config::default();
    config.chains.insert(
        "out".to_string(),
        vec![rule(
            ChainFilter::Anything,
            ChainAction::Socks5Proxy {
                credentials: Some(Credentials {
                    username: "user".to_string(),
                    password: Password("secret".to_string()),
                }),
                address: "proxy.example:1080".to_string(),
            },
        )],
    );
    let context = Context::new("example.org".to_string(), 443);
    match resolve(&config, &context, "out").route {
        Route::Socks5 { proxy, host, port, credentials } => {
            assert_eq!(proxy, "proxy.example:1080");
            assert_eq!(host, "example.org");
            assert_eq!(port, 443);
            let credentials = credentials.unwrap();
            assert_eq!(credentials.username, "user");
            assert_eq!(credentials.password.0, "secret");
        }
        _ => panic!("no socks5 route"),
    }
}

#[test]
fn drop_rule_drops() {
    let mut config = Config::default();
    config.chains.insert(
        "default".to_string(),
        vec![
            rule(wildcard("*.ads.example"), ChainAction::Drop),
            rule(ChainFilter::Anything, ChainAction::DirectConnect),
        ],
    );
    let context = Context::new("x.ads.example".to_string(), 80);
    assert!(resolve(&config, &context, "default").route == Route::Dropped);
    let context = Context::new("x.example".to_string(), 80);
    assert!(resolve(&config, &context, "default").route == direct(&context, Reason::Rule));
}

#[test]
fn goto_chain_walks_the_other_chain() {
    let mut config = Config::default();
    config.chains.insert("a".to_string(), vec![rule(ChainFilter::Anything, goto("b"))]);
    config.chains.insert(
        "b".to_string(),
        vec![
            rule(wildcard("*.internal"), ChainAction::Drop),
            rule(ChainFilter::Anything, socks("10.0.0.1:1080")),
        ],
    );
    let context = Context::new("db.internal".to_string(), 5432);
    let found = resolve(&config, &context, "a");
    assert!(found.route == Route::Dropped);
    assert_eq!(found.trail, trail(&["a", "b"]));
}

#[test]
fn goto_missing_chain_goes_direct() {
    let mut config = Config::default();
    config.chains.insert("a".to_string(), vec![rule(ChainFilter::Anything, goto("nowhere"))]);
    let context = Context::new("example.org".to_string(), 80);
    let found = resolve(&config, &context, "a");
    assert!(found.route == direct(&context, Reason::MissingChain { chain: "nowhere".to_string() }));
    assert_eq!(found.trail, trail(&["a"]));
}

#[test]
fn cycle_of_two_goes_direct() {
    let mut config = Config::default();
    config.chains.insert("a".to_string(), vec![rule(ChainFilter::Anything, goto("b"))]);
    config.chains.insert("b".to_string(), vec![rule(ChainFilter::Anything, goto("a"))]);
    let context = Context::new("example.org".to_string(), 80);
    let found = resolve(&config, &context, "a");
    assert!(found.route == direct(&context, Reason::Cycle { chain: "a".to_string() }));
    assert_eq!(found.trail, trail(&["a", "b"]));
}

#[test]
fn chain_that_goes_to_itself_goes_direct() {
    let mut config = Config::default();
    config.chains.insert("a".to_string(), vec![rule(ChainFilter::Anything, goto("a"))]);
    let context = Context::new("example.org".to_string(), 80);
    let found = resolve(&config, &context, "a");
    assert!(found.route == direct(&context, Reason::Cycle { chain: "a".to_string() }));
    assert_eq!(found.trail, trail(&["a"]));
}

#[test]
fn long_cycle_is_walked_once() {
    let mut config = Config::default();
    let n = 50;
    for i in 0..n {
        config.chains.insert(
            format!("chain{}", i),
            vec![
                rule(wildcard("never.matches"), ChainAction::Drop),
                rule(ChainFilter::Anything, goto(&format!("chain{}", (i + 1) % n))),
            ],
        );
    }
    let context = Context::new("example.org".to_string(), 80);
    let found = resolve(&config, &context, "chain7");
    assert!(found.route == direct(&context, Reason::Cycle { chain: "chain7".to_string() }));
    assert_eq!(found.trail.len(), n);
    assert_eq!(found.trail[0], "chain7");
    assert_eq!(found.trail[n - 1], "chain6");
}

#[test]
fn cycle_entered_from_outside_goes_direct() {
    let mut config = Config::default();
    config.chains.insert("start".to_string(), vec![rule(ChainFilter::Anything, goto("a"))]);
    config.chains.insert("a".to_string(), vec![rule(ChainFilter::Anything, goto("b"))]);
    config.chains.insert("b".to_string(), vec![rule(ChainFilter::Anything, goto("a"))]);
    let context = Context::new("example.org".to_string(), 80);
    let found = resolve(&config, &context, "start");
    assert!(found.route == direct(&context, Reason::Cycle { chain: "a".to_string() }));
    assert_eq!(found.trail, trail(&["start", "a", "b"]));
}

#[test]
fn context_joins_host_and_port() {
    assert_eq!(Context::new("example.org".to_string(), 0).address, "example.org:0");
    assert_eq!(Context::new("example.org".to_string(), 7).address, "example.org:7");
    assert_eq!(Context::new("example.org".to_string(), 10).address, "example.org:10");
    assert_eq!(Context::new("example.org".to_string(), 443).address, "example.org:443");
    assert_eq!(Context::new("example.org".to_string(), 65535).address, "example.org:65535");
    assert_eq!(Context::new(String::new(), 80).address, ":80");
}

fn matches_by_definition(pattern: &[char], text: &[char]) -> bool {
    match pattern.first() {
        None => text.is_empty(),
        Some('*') => {
            matches_by_definition(&pattern[1..], text)
                || (!text.is_empty() && matches_by_definition(pattern, &text[1..]))
        }
        Some(&c) => {
            !text.is_empty()
                && (c == '?' || c == text[0])
                && matches_by_definition(&pattern[1..], &text[1..])
        }
    }
}

fn words(alphabet: &[char], max_len: usize) -> Vec<Vec<char>> {
    let mut all = vec![vec![]];
    let mut last = vec![vec![]];
    for _ in 0..max_len {
        let mut next = Vec::new();
        for word in &last {
            for &c in alphabet {
                let mut longer: Vec<char> = word.clone();
                longer.push(c);
                next.push(longer);
            }
        }
        all.extend(next.iter().cloned());
        last = next;
    }
    all
}

#[test]
fn wildcard_agrees_with_its_definition_on_short_words() {
    let patterns = words(&['a', 'b', '*', '?'], 4);
    let texts = words(&['a', 'b'], 5);
    for pattern in &patterns {
        let pattern_text: String = pattern.iter().collect();
        for text in &texts {
            let text_text: String = text.iter().collect();
            assert_eq!(
                matches(&pattern_text, &text_text),
                matches_by_definition(pattern, text),
                "{:?} on {:?}",
                pattern_text,
                text_text
            );
        }
    }
}
