use std::cell::Cell;

use answer_server::client_pool::{ClientFactoryConfig, ClientsPool, PollableClientFactory, PoolError};

struct CountingFactory {
    config: ClientFactoryConfig,
    built: Cell<u32>,
    fail: bool,
}

impl CountingFactory {
    fn new(max_clients: usize) -> Self {
        CountingFactory { config: ClientFactoryConfig { max_clients }, built: Cell::new(0), fail: false }
    }
}

impl PollableClientFactory<u32> for CountingFactory {
    fn build_client(&self) -> Result<u32, String> {
        if self.fail {
            return Err("no key".to_string());
        }
        let n = self.built.get() + 1;
        self.built.set(n);
        Ok(n)
    }

    fn get_config(&self) -> &ClientFactoryConfig {
        &self.config
    }
}

#[test]
fn new_pool_reads_factory_maximum() {
    let pool = ClientsPool::new(CountingFactory::new(5));
    assert_eq!(pool.max_clients(), 5);
    assert_eq!(pool.leased(), 0);
    assert_eq!(pool.idle(), 0);
}

#[test]
fn lease_past_maximum_is_refused_until_one_returns() {
    let mut pool = ClientsPool::new(CountingFactory::new(2));
    let a = pool.pop_client().unwrap();
    let b = pool.pop_client().unwrap();
    assert_eq!(*a.client(), 1);
    assert_eq!(*b.client(), 2);
    assert_eq!(pool.leased(), 2);
    assert!(matches!(pool.pop_client(), Err(PoolError::NoCapacity)));
    assert!(matches!(pool.pop_client(), Err(PoolError::NoCapacity)));
    assert!(pool.return_client(a.into_client()));
    assert_eq!(pool.idle(), 1);
    let again = pool.pop_client().unwrap();
    assert_eq!(*again.client(), 1);
    assert_eq!(pool.leased(), 2);
    assert_eq!(pool.idle(), 0);
}

#[test]
fn returned_client_is_reused_not_rebuilt() {
    let mut pool = ClientsPool::new(CountingFactory::new(3));
    let a = pool.pop_client().unwrap();
    assert!(pool.return_client(a.into_client()));
    let b = pool.pop_client().unwrap();
    assert_eq!(*b.client(), 1);
    let c = pool.pop_client().unwrap();
    assert_eq!(*c.client(), 2);
}

#[test]
fn zero_maximum_refuses_every_lease() {
    let mut pool = ClientsPool::new(CountingFactory::new(0));
    assert_eq!(pool.pop_client().err(), Some(PoolError::NoCapacity));
}

#[test]
fn failed_build_is_an_error_and_counts_nothing() {
    let mut factory = CountingFactory::new(2);
    factory.fail = true;
    let mut pool = ClientsPool::new(factory);
    assert_eq!(pool.pop_client().err(), Some(PoolError::Build("no key".to_string())));
    assert_eq!(pool.leased(), 0);
    assert_eq!(pool.idle(), 0);
}

#[test]
fn return_without_lease_is_refused() {
    let mut pool = ClientsPool::new(CountingFactory::new(2));
    assert!(!pool.return_client(7));
    assert_eq!(pool.idle(), 0);
    assert_eq!(pool.leased(), 0);
}
