use vstd::prelude::*;
use crate::errors::{Error, EstablishError};
use crate::key::Key;
use crate::pool::{Connecting, Pool, PoolClient, PoolStep};

verus! {

/// Options handed to the protocol engine when a connection is built.
/// An unset field leaves the engine's own default in force.
#[derive(Clone)]
pub struct H3ClientConfig {
    /// Largest header section the client will accept.
    pub max_field_section_size: Option<u64>,
    /// Whether to send protocol grease on new connections.
    pub send_grease: Option<bool>,
}

impl Default for H3ClientConfig {
    /// Both options unset: the protocol engine's defaults apply.
    fn default() -> (r: H3ClientConfig)
        ensures
            r.max_field_section_size is None,
            r.send_grease is None,
    {
        H3ClientConfig { max_field_section_size: None, send_grease: None }
    }
}

/// The request entry point's state: the shared connection pool. The
/// transport connector and any cookie jar are collaborators that the
/// surrounding service supplies; this type owns the sharing policy.
pub struct H3Client {
    /// The keyed connection store.
    pub pool: Pool,
}

impl H3Client {
    /// A client with an empty pool and the given idle timeout.
    pub fn new(pool_timeout: Option<u64>) -> (r: H3Client)
        ensures
            r.pool.wf(),
            r.pool.spec_timeout() == pool_timeout,
            r.pool.entries_map() == Map::<crate::key::KeyView, crate::pool::EntryView>::empty(),
    {
        H3Client { pool: Pool::new(pool_timeout) }
    }

    /// One pooled-client step for a request to `key` at time `now`:
    /// reuse the live idle entry if one exists; otherwise join the
    /// in-flight establishment as a waiter if one is under way;
    /// otherwise take the establishment lock. An in-flight key never
    /// yields a second lock, and a live idle entry is reused without
    /// any establishment.
    pub fn get_pooled_client(&mut self, key: &Key, now: u64) -> (r: PoolStep)
        requires
            old(self).pool.wf(),
            old(self).pool.waiter_bound() < u64::MAX,
        ensures
            final(self).pool.wf(),
            final(self).pool.spec_timeout() == old(self).pool.spec_timeout(),
            forall|id: u64|
                final(self).pool.resolution(id) == old(self).pool.resolution(id),
            (r is Reuse) == (old(self).pool.spec_try_pool(key@, now) is Some),
            (match r {
                PoolStep::Reuse(c) => {
                    &&& old(self).pool.spec_try_pool(key@, now) == Some(c.conn)
                    &&& final(self).pool == old(self).pool
                }
                PoolStep::Await(w) => {
                    &&& old(self).pool.entries_map().contains_key(key@)
                    &&& old(self).pool.entries_map()[key@] is Connecting
                    &&& w.key_view() == key@
                    &&& w.wid() == old(self).pool.waiter_bound()
                    &&& final(self).pool.pending_at(key@, w.wid())
                }
                PoolStep::Establish(lock) => {
                    &&& !(old(self).pool.entries_map().contains_key(key@) && old(
                        self,
                    ).pool.entries_map()[key@] is Connecting)
                    &&& lock.key_view() == key@
                    &&& final(self).pool.entries_map() == old(self).pool.entries_map().insert(
                        key@,
                        crate::pool::EntryView::Connecting { waiters: Seq::empty() },
                    )
                }
            }),
    {
        match self.pool.try_pool(key, now) {
            Some(client) => PoolStep::Reuse(client),
            None => match self.pool.connecting(key) {
                Connecting::Acquired(lock) => PoolStep::Establish(lock),
                Connecting::InProgress(w) => {
                    proof {
                        let ghost ev = self.pool.entries_map()[key@];
                        match ev {
                            crate::pool::EntryView::Connecting { waiters } => {
                                assert(waiters[waiters.len() - 1] == w.wid());
                                assert(waiters.contains(w.wid()));
                            }
                            crate::pool::EntryView::Idle { .. } => {}
                        }
                    }
                    PoolStep::Await(w)
                }
            },
        }
    }
}

/// Maps a failed establishment into the unified taxonomy: the caller
/// could not obtain a connection.
pub fn establishment_failure(e: EstablishError) -> (r: Error)
    ensures
        r == Error::Establish(e),
{
    Error::Establish(e)
}

/// The error a waiter reports when the establishment it subscribed
/// to resolves with failure: its lock holder released the key
/// without a connection, whether cancelled or out of addresses.
pub fn waiter_failure() -> (r: Error)
    ensures
        r == Error::Establish(EstablishError::Abandoned),
{
    Error::Establish(EstablishError::Abandoned)
}

/// Maps the outcome of submitting a request over an established
/// connection: a response passes through; a failure code becomes a
/// request error, which does not invalidate the pool entry.
pub fn classify_send(outcome: Result<u64, u64>) -> (r: Result<u64, Error>)
    ensures
        match outcome {
            Ok(resp) => r == Ok::<u64, Error>(resp),
            Err(code) => r == Err::<u64, Error>(Error::Request { code }),
        },
{
    match outcome {
        Ok(resp) => Ok(resp),
        Err(code) => Err(Error::Request { code }),
    }
}

/// Cookies are attached to an outgoing request exactly when a jar is
/// configured and the request carries no explicit cookie header.
pub fn should_attach_cookies(has_jar: bool, has_cookie_header: bool) -> (r: bool)
    ensures
        r == (has_jar && !has_cookie_header),
{
    has_jar && !has_cookie_header
}

/// Response cookies are stored exactly when a jar is configured and
/// the response carries at least one set-cookie header.
pub fn should_store_cookies(has_jar: bool, has_set_cookie: bool) -> (r: bool)
    ensures
        r == (has_jar && has_set_cookie),
{
    has_jar && has_set_cookie
}

} // verus!
