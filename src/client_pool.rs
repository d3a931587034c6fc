//! A bounded pool of reusable clients of the outside service.
//!
//! A lease hands out an idle client, or builds a new one while fewer than the
//! configured maximum are out; past that it refuses at once. A returned
//! client becomes idle again. Idle plus leased never exceeds the maximum.

use vstd::prelude::*;

verus! {

/// How a factory's clients are pooled.
pub struct ClientFactoryConfig {
    /// Clients that may exist at once, idle and leased together.
    pub max_clients: usize,
}

/// Builds clients of the outside service for a pool.
pub trait PollableClientFactory<Client> {
    /// A new client, or a message saying why none could be built.
    fn build_client(&self) -> Result<Client, String>;

    fn get_config(&self) -> &ClientFactoryConfig;
}

/// Why a lease failed.
#[derive(Debug, Clone, PartialEq, Eq)]
pub enum PoolError {
    /// Every client the pool may have is leased.
    NoCapacity,
    /// The factory could not build a client; the message says why.
    Build(String),
}

/// A leased client, to be handed back with `ClientsPool::return_client`.
pub struct ClientGuard<Client> {
    client: Client,
}

impl<Client> ClientGuard<Client> {
    pub closed spec fn spec_client(&self) -> Client {
        self.client
    }

    pub fn client(&self) -> (r: &Client)
        ensures
            *r == self.spec_client(),
    {
        &self.client
    }

    /// The client, taken out to be returned to its pool.
    pub fn into_client(self) -> (r: Client)
        ensures
            r == self.spec_client(),
    {
        self.client
    }
}

/// What a pool holds: its idle clients (the last is leased next), how many
/// are leased, and how many may exist at once.
pub struct PoolState<Client> {
    pub idle: Seq<Client>,
    pub leased: nat,
    pub max: nat,
}

pub open spec fn pool_wf<Client>(st: PoolState<Client>) -> bool {
    st.idle.len() + st.leased <= st.max
}

/// A lease is refused: no client is idle and no more may be built.
pub open spec fn refuses<Client>(st: PoolState<Client>) -> bool {
    st.idle.len() == 0 && st.leased >= st.max
}

/// After an idle client is leased out.
pub open spec fn after_reuse<Client>(st: PoolState<Client>) -> PoolState<Client> {
    PoolState { idle: st.idle.drop_last(), leased: st.leased + 1, max: st.max }
}

/// After a newly built client is leased out.
pub open spec fn after_build<Client>(st: PoolState<Client>) -> PoolState<Client> {
    PoolState { idle: st.idle, leased: st.leased + 1, max: st.max }
}

/// After `c` is handed back: idle again where a lease was out; otherwise
/// the pool has no room for it and stays as it was.
pub open spec fn after_return<Client>(st: PoolState<Client>, c: Client) -> PoolState<Client> {
    if st.leased > 0 {
        PoolState { idle: st.idle.push(c), leased: (st.leased - 1) as nat, max: st.max }
    } else {
        st
    }
}

/// Clients of one factory, reused across leases.
pub struct ClientsPool<Client, F> {
    clients: Vec<Client>,
    leased: usize,
    max_clients: usize,
    factory: F,
}

impl<Client, F: PollableClientFactory<Client>> ClientsPool<Client, F> {
    pub closed spec fn state(&self) -> PoolState<Client> {
        PoolState { idle: self.clients@, leased: self.leased as nat, max: self.max_clients as nat }
    }

    pub closed spec fn spec_factory(&self) -> F {
        self.factory
    }

    pub open spec fn wf(&self) -> bool {
        pool_wf(self.state())
    }

    /// An empty pool of `factory`'s clients, bounded by its configured maximum.
    pub fn new(factory: F) -> (r: Self)
        ensures
            r.wf(),
            r.state().idle.len() == 0,
            r.state().leased == 0,
            r.spec_factory() == factory,
    {
        let max_clients = factory.get_config().max_clients;
        Self { clients: Vec::new(), leased: 0, max_clients, factory }
    }

    /// The most clients this pool lets exist at once.
    pub fn max_clients(&self) -> (r: usize)
        ensures
            r == self.state().max,
    {
        self.max_clients
    }

    /// Clients leased out now.
    pub fn leased(&self) -> (r: usize)
        ensures
            r == self.state().leased,
    {
        self.leased
    }

    /// Clients waiting idle.
    pub fn idle(&self) -> (r: usize)
        ensures
            r == self.state().idle.len(),
    {
        self.clients.len()
    }

    /// Leases a client: an idle one if there is one, else a new one from the
    /// factory while the maximum allows, else `NoCapacity`. Never waits.
    pub fn pop_client(&mut self) -> (r: Result<ClientGuard<Client>, PoolError>)
        requires
            old(self).wf(),
        ensures
            final(self).wf(),
            final(self).spec_factory() == old(self).spec_factory(),
            (r == Err::<ClientGuard<Client>, PoolError>(PoolError::NoCapacity)) == refuses(
                old(self).state(),
            ),
            refuses(old(self).state()) ==> final(self).state() == old(self).state(),
            old(self).state().idle.len() > 0 ==> {
                &&& r matches Ok(g) && g.spec_client() == old(self).state().idle.last()
                &&& final(self).state() == after_reuse(old(self).state())
            },
            old(self).state().idle.len() == 0 && !refuses(old(self).state()) ==> {
                ||| r is Ok && final(self).state() == after_build(old(self).state())
                ||| r matches Err(PoolError::Build(_)) && final(self).state() == old(self).state()
            },
    {
        if self.clients.len() == 0 {
            if self.leased >= self.max_clients {
                return Err(PoolError::NoCapacity);
            }
            match self.factory.build_client() {
                Ok(client) => {
                    self.leased = self.leased + 1;
                    Ok(ClientGuard { client })
                },
                Err(message) => Err(PoolError::Build(message)),
            }
        } else {
            let client = self.clients.pop().unwrap();
            self.leased = self.leased + 1;
            Ok(ClientGuard { client })
        }
    }

    /// Hands a leased client back; it is idle again. A pool with no lease
    /// out has no room for it, and drops it. The result says whether it was
    /// taken back.
    pub fn return_client(&mut self, client: Client) -> (r: bool)
        requires
            old(self).wf(),
        ensures
            final(self).wf(),
            final(self).spec_factory() == old(self).spec_factory(),
            r == (old(self).state().leased > 0),
            final(self).state() == after_return(old(self).state(), client),
    {
        if self.leased > 0 {
            self.clients.push(client);
            self.leased = self.leased - 1;
            true
        } else {
            false
        }
    }
}

/// A pool with every client leased refuses the next lease; once any one
/// client comes back, the next lease succeeds with it, without the factory.
pub proof fn lemma_admission<Client>(st: PoolState<Client>, c: Client)
    requires
        pool_wf(st),
        st.leased == st.max,
        st.max > 0,
    ensures
        refuses(st),
        pool_wf(after_return(st, c)),
        !refuses(after_return(st, c)),
        after_return(st, c).idle.len() > 0,
        after_return(st, c).idle.last() == c,
{
}

} // verus!
