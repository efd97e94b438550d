use chain_proxy::config::{
    ChainAction, ChainFilter, ChainRule, Config, DomainPool, Listener, ListenerKind, Stash,
};
use chain_proxy::configurator::{
    add_chain, add_domain_pool, add_listeners, del_chain, del_domain_pool, get_chain,
    get_domain_pool, set_chain, set_chains, set_config, set_domain_pool, set_domain_pools,
    set_listeners, set_stash, Status,
};
use chain_proxy::name_map::NameMap;

fn drop_rule() -> ChainRule {
    ChainRule { filter: ChainFilter::Anything, action: ChainAction::Drop }
}

#[test]
fn status_codes() {
    assert_eq!(Status::Found.code(), 200);
    assert_eq!(Status::Created.code(), 201);
    assert_eq!(Status::Accepted.code(), 202);
    assert_eq!(Status::NotModified.code(), 304);
    assert_eq!(Status::NotFound.code(), 404);
}

#[test]
fn put_replaces_and_is_accepted() {
    let mut config = Config::default();
    assert_eq!(set_chain(&mut config, "a".to_string(), vec![drop_rule()]), Status::Accepted);
    assert_eq!(set_chain(&mut config, "a".to_string(), vec![]), Status::Accepted);
    assert_eq!(get_chain(&config, "a").map(|chain| chain.len()), Ok(0));

    let mut chains = NameMap::new();
    chains.insert("b".to_string(), vec![drop_rule(), drop_rule()]);
    assert_eq!(set_chains(&mut config, chains), Status::Accepted);
    assert_eq!(get_chain(&config, "a").err(), Some(Status::NotFound));
    assert_eq!(get_chain(&config, "b").map(|chain| chain.len()), Ok(2));

    assert_eq!(
        set_domain_pool(&mut config, "p".to_string(), DomainPool::from_hosts(vec!["x".to_string()])),
        Status::Accepted
    );
    assert!(get_domain_pool(&config, "p").ok().unwrap().contains("x"));
    assert_eq!(set_domain_pools(&mut config, NameMap::new()), Status::Accepted);
    assert_eq!(get_domain_pool(&config, "p").err(), Some(Status::NotFound));

    let mut stash = Stash::default();
    stash.domain_pools.insert("q".to_string(), DomainPool::new());
    assert_eq!(set_stash(&mut config, stash), Status::Accepted);
    assert!(get_domain_pool(&config, "q").is_ok());
    assert_eq!(get_chain(&config, "b").map(|chain| chain.len()), Ok(2));

    assert_eq!(set_config(&mut config, Config::default()), Status::Accepted);
    assert_eq!(config.chains.len(), 0);
    assert_eq!(config.stash.domain_pools.len(), 0);
}

#[test]
fn post_creates_then_appends() {
    let mut config = Config::default();
    assert_eq!(add_chain(&mut config, "a".to_string(), drop_rule()), Status::Created);
    assert_eq!(add_chain(&mut config, "a".to_string(), ChainRule::default()), Status::Accepted);
    let chain = get_chain(&config, "a").ok().unwrap();
    assert_eq!(chain.len(), 2);
    assert!(chain[0] == drop_rule());
    assert!(chain[1] == ChainRule::default());

    assert_eq!(
        add_domain_pool(&mut config, "p".to_string(), "b.example".to_string()),
        Status::Created
    );
    assert_eq!(
        add_domain_pool(&mut config, "p".to_string(), "a.example".to_string()),
        Status::Accepted
    );
    assert_eq!(
        add_domain_pool(&mut config, "p".to_string(), "a.example".to_string()),
        Status::Accepted
    );
    let pool = get_domain_pool(&config, "p").ok().unwrap();
    assert_eq!(pool.len(), 2);
    assert_eq!(pool.host_at(0), "a.example");
    assert_eq!(pool.host_at(1), "b.example");
    assert_eq!(get_chain(&config, "a").map(|chain| chain.len()), Ok(2));
}

#[test]
fn delete_removes_or_is_not_modified() {
    let mut config = Config::default();
    add_chain(&mut config, "a".to_string(), drop_rule());
    add_chain(&mut config, "b".to_string(), drop_rule());
    assert_eq!(del_chain(&mut config, "a"), Status::Accepted);
    assert_eq!(del_chain(&mut config, "a"), Status::NotModified);
    assert_eq!(get_chain(&config, "a").err(), Some(Status::NotFound));
    assert!(get_chain(&config, "b").is_ok());

    add_domain_pool(&mut config, "p".to_string(), "x".to_string());
    assert_eq!(del_domain_pool(&mut config, "p"), Status::Accepted);
    assert_eq!(del_domain_pool(&mut config, "p"), Status::NotModified);
    assert_eq!(get_domain_pool(&config, "p").err(), Some(Status::NotFound));
    assert!(get_chain(&config, "b").is_ok());
}

#[test]
fn listeners_of_the_document_are_kept() {
    let mut config = Config::default();
    let listener = Listener {
        kind: ListenerKind::TLS,
        address: "0.0.0.0:443".to_string(),
        forward: "tls".to_string(),
    };
    assert_eq!(add_listeners(&mut config, listener.clone()), Status::Accepted);
    assert_eq!(add_listeners(&mut config, listener.clone()), Status::Accepted);
    assert_eq!(config.listeners, vec![listener.clone(), listener.clone()]);
    assert_eq!(set_listeners(&mut config, vec![listener.clone()]), Status::Accepted);
    assert_eq!(config.listeners, vec![listener]);
}
