//! The control plane's edits of a configuration: what each request changes
//! in the document, and the status that answers it.

use crate::config::{ChainRule, Config, DomainPool, Listener, Stash};
use crate::name_map::NameMap;
use vstd::prelude::*;

verus! {

/// The status that answers a request.
#[derive(Debug, Clone, Copy, PartialEq, Eq, Structural)]
pub enum Status {
    /// 200: here is what was asked for.
    Found,
    /// 201: the named collection did not exist and was made.
    Created,
    /// 202: the document was changed.
    Accepted,
    /// 304: there was nothing to remove.
    NotModified,
    /// 404: nothing has that name.
    NotFound,
}

impl Status {
    /// The status as a number.
    pub open spec fn spec_code(self) -> u16 {
        match self {
            Status::Found => 200,
            Status::Created => 201,
            Status::Accepted => 202,
            Status::NotModified => 304,
            Status::NotFound => 404,
        }
    }

    /// The status as a number.
    #[verifier::when_used_as_spec(spec_code)]
    pub fn code(self) -> (code: u16)
        ensures
            code == self.spec_code(),
    {
        match self {
            Status::Found => 200,
            Status::Created => 201,
            Status::Accepted => 202,
            Status::NotModified => 304,
            Status::NotFound => 404,
        }
    }
}

/// Puts `config` in the place of the whole document.
pub fn set_config(current: &mut Config, config: Config) -> (status: Status)
    ensures
        *final(current) == config,
        status == Status::Accepted,
{
    *current = config;
    Status::Accepted
}

/// Puts `listeners` in the place of the document's listeners.
pub fn set_listeners(config: &mut Config, listeners: Vec<Listener>) -> (status: Status)
    ensures
        final(config).listeners == listeners,
        final(config).chains == old(config).chains,
        final(config).stash == old(config).stash,
        status == Status::Accepted,
{
    config.listeners = listeners;
    Status::Accepted
}

/// Adds `listener` to the document's listeners.
pub fn add_listeners(config: &mut Config, listener: Listener) -> (status: Status)
    ensures
        final(config).listeners@ == old(config).listeners@.push(listener),
        final(config).chains == old(config).chains,
        final(config).stash == old(config).stash,
        status == Status::Accepted,
{
    config.listeners.push(listener);
    Status::Accepted
}

/// Puts `stash` in the place of the document's stash.
pub fn set_stash(config: &mut Config, stash: Stash) -> (status: Status)
    ensures
        final(config).stash == stash,
        final(config).chains == old(config).chains,
        final(config).listeners == old(config).listeners,
        status == Status::Accepted,
{
    config.stash = stash;
    Status::Accepted
}

/// Puts `domain_pools` in the place of the document's domain pools.
pub fn set_domain_pools(config: &mut Config, domain_pools: NameMap<DomainPool>) -> (status: Status)
    ensures
        final(config).stash.domain_pools == domain_pools,
        final(config).chains == old(config).chains,
        final(config).listeners == old(config).listeners,
        status == Status::Accepted,
{
    config.stash.domain_pools = domain_pools;
    Status::Accepted
}

/// The domain pool named `pool_name`.
pub fn get_domain_pool<'a>(config: &'a Config, pool_name: &str) -> (r: Result<&'a DomainPool, Status>)
    ensures
        match r {
            Ok(pool) => config.stash.domain_pools@.contains_key(pool_name@) && *pool
                == config.stash.domain_pools@[pool_name@],
            Err(status) => !config.stash.domain_pools@.contains_key(pool_name@) && status
                == Status::NotFound,
        },
{
    match config.stash.domain_pools.get(pool_name) {
        Some(pool) => Ok(pool),
        None => Err(Status::NotFound),
    }
}

/// Gives the name `pool_name` the pool `domain_pool`, whether or not it had
/// one.
pub fn set_domain_pool(config: &mut Config, pool_name: String, domain_pool: DomainPool) -> (status:
    Status)
    ensures
        final(config).stash.domain_pools@ == old(config).stash.domain_pools@.insert(
            pool_name@,
            domain_pool,
        ),
        final(config).chains == old(config).chains,
        final(config).listeners == old(config).listeners,
        status == Status::Accepted,
{
    config.stash.domain_pools.insert(pool_name, domain_pool);
    Status::Accepted
}

/// Adds `domain` to the pool named `pool_name`, which is made where there
/// is none.
pub fn add_domain_pool(config: &mut Config, pool_name: String, domain: String) -> (status: Status)
    ensures
        final(config).stash.domain_pools@.dom() == old(config).stash.domain_pools@.dom().insert(
            pool_name@,
        ),
        forall|name: Seq<char>|
            name != pool_name@ && old(config).stash.domain_pools@.contains_key(name)
                ==> final(config).stash.domain_pools@[name] == old(config).stash.domain_pools@[name],
        final(config).stash.domain_pools@[pool_name@]@ == if old(
            config,
        ).stash.domain_pools@.contains_key(pool_name@) {
            old(config).stash.domain_pools@[pool_name@]@.insert(domain@)
        } else {
            set![domain@]
        },
        final(config).chains == old(config).chains,
        final(config).listeners == old(config).listeners,
        status == if old(config).stash.domain_pools@.contains_key(pool_name@) {
            Status::Accepted
        } else {
            Status::Created
        },
{
    let (mut pool, status) = match config.stash.domain_pools.remove(pool_name.as_str()) {
        Some(pool) => (pool, Status::Accepted),
        None => (DomainPool::new(), Status::Created),
    };
    pool.insert(domain);
    config.stash.domain_pools.insert(pool_name, pool);
    assert(final(config).stash.domain_pools@.dom() =~= old(config).stash.domain_pools@.dom().insert(
        pool_name@,
    ));
    assert(set![domain@] =~= Set::<Seq<char>>::empty().insert(domain@));
    status
}

/// Removes the pool named `pool_name`.
pub fn del_domain_pool(config: &mut Config, pool_name: &str) -> (status: Status)
    ensures
        final(config).stash.domain_pools@ == old(config).stash.domain_pools@.remove(pool_name@),
        final(config).chains == old(config).chains,
        final(config).listeners == old(config).listeners,
        status == if old(config).stash.domain_pools@.contains_key(pool_name@) {
            Status::Accepted
        } else {
            Status::NotModified
        },
{
    match config.stash.domain_pools.remove(pool_name) {
        Some(_) => Status::Accepted,
        None => Status::NotModified,
    }
}

/// Puts `chains` in the place of the document's chains.
pub fn set_chains(config: &mut Config, chains: NameMap<Vec<ChainRule>>) -> (status: Status)
    ensures
        final(config).chains == chains,
        final(config).stash == old(config).stash,
        final(config).listeners == old(config).listeners,
        status == Status::Accepted,
{
    config.chains = chains;
    Status::Accepted
}

/// The chain named `chain_name`.
pub fn get_chain<'a>(config: &'a Config, chain_name: &str) -> (r: Result<&'a Vec<ChainRule>, Status>)
    ensures
        match r {
            Ok(chain) => config.chains@.contains_key(chain_name@) && *chain
                == config.chains@[chain_name@],
            Err(status) => !config.chains@.contains_key(chain_name@) && status == Status::NotFound,
        },
{
    match config.chains.get(chain_name) {
        Some(chain) => Ok(chain),
        None => Err(Status::NotFound),
    }
}

/// Gives the name `chain_name` the chain `chain`, whether or not it had one.
pub fn set_chain(config: &mut Config, chain_name: String, chain: Vec<ChainRule>) -> (status: Status)
    ensures
        final(config).chains@ == old(config).chains@.insert(chain_name@, chain),
        final(config).stash == old(config).stash,
        final(config).listeners == old(config).listeners,
        status == Status::Accepted,
{
    config.chains.insert(chain_name, chain);
    Status::Accepted
}

/// Adds `chain_route` as the last rule of the chain named `chain_name`,
/// which is made where there is none.
pub fn add_chain(config: &mut Config, chain_name: String, chain_route: ChainRule) -> (status: Status)
    ensures
        final(config).chains@.dom() == old(config).chains@.dom().insert(chain_name@),
        forall|name: Seq<char>|
            name != chain_name@ && old(config).chains@.contains_key(name)
                ==> final(config).chains@[name] == old(config).chains@[name],
        final(config).chains@[chain_name@]@ == if old(config).chains@.contains_key(chain_name@) {
            old(config).chains@[chain_name@]@.push(chain_route)
        } else {
            seq![chain_route]
        },
        final(config).stash == old(config).stash,
        final(config).listeners == old(config).listeners,
        status == if old(config).chains@.contains_key(chain_name@) {
            Status::Accepted
        } else {
            Status::Created
        },
{
    let (mut chain, status) = match config.chains.remove(chain_name.as_str()) {
        Some(chain) => (chain, Status::Accepted),
        None => (Vec::new(), Status::Created),
    };
    chain.push(chain_route);
    config.chains.insert(chain_name, chain);
    assert(final(config).chains@.dom() =~= old(config).chains@.dom().insert(chain_name@));
    status
}

/// Removes the chain named `chain_name`.
pub fn del_chain(config: &mut Config, chain_name: &str) -> (status: Status)
    ensures
        final(config).chains@ == old(config).chains@.remove(chain_name@),
        final(config).stash == old(config).stash,
        final(config).listeners == old(config).listeners,
        status == if old(config).chains@.contains_key(chain_name@) {
            Status::Accepted
        } else {
            Status::NotModified
        },
{
    match config.chains.remove(chain_name) {
        Some(_) => Status::Accepted,
        None => Status::NotModified,
    }
}

} // verus!
