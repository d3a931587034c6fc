//! What the submit and poll endpoints decide and reply.
//!
//! A submit leases a client first and reserves a token only once the lease
//! is granted, so that no token is left pending with nobody to answer it.
//! A poll replies at once, or asks its caller to wait for a bounded time
//! and then reply with whatever the cache holds.

use std::path::PathBuf;

use vstd::prelude::*;

use crate::answer_cache::{
    after_complete, after_reserve, has_token, is_cache_token, lemma_reserved_is_pending, lookup,
    unique_tokens, AnswerCache, AnswerCacheEntry, Entry,
};
use crate::client_pool::{
    after_build, after_reuse, refuses, ClientGuard, ClientsPool, PollableClientFactory, PoolError,
};
use crate::error::{error_json, json_string, quote_json, ErStatus};

verus! {

/// Where the server listens and what it serves besides the API.
#[derive(Clone)]
pub struct Config {
    /// A directory whose files are served as they are, if any.
    pub www_root_path: Option<PathBuf>,
    pub port: u16,
}

impl Default for Config {
    fn default() -> (r: Self)
        ensures
            r.www_root_path is None,
            r.port == 0,
    {
        Config { www_root_path: None, port: 0 }
    }
}

/// The longest a poll waits for a pending answer, in seconds.
pub const MAX_WAIT_SECS: u64 = 30;

/// `{"answer":<text>,"status":"ok"}`
pub open spec fn answer_json(text: Seq<char>) -> Seq<char> {
    "{\"answer\":"@ + json_string(text) + ",\"status\":\"ok\"}"@
}

/// `{"status":"ok","token":<token>}`
pub open spec fn token_json(token: Seq<char>) -> Seq<char> {
    "{\"status\":\"ok\",\"token\":"@ + json_string(token) + "}"@
}

/// The reply to a poll that finds `state` (see `lookup`).
pub open spec fn poll_reply(state: Option<Option<Seq<char>>>) -> Seq<char> {
    match state {
        Some(Some(text)) => answer_json(text),
        Some(None) => ErStatus::Pending.spec_json(),
        None => ErStatus::InvalidToken.spec_json(),
    }
}

/// The text stored for a token once the outside call is over: the answer,
/// or an error reply with the failure's message.
pub open spec fn completion_text(outcome: Result<Seq<char>, Seq<char>>) -> Seq<char> {
    match outcome {
        Ok(answer) => answer,
        Err(message) => error_json(message),
    }
}

pub fn answer_json_of(text: &str) -> (r: String)
    ensures
        r@ == answer_json(text@),
{
    let mut out = String::from_str("{\"answer\":");
    let quoted = quote_json(text);
    out.append(quoted.as_str());
    out.append(",\"status\":\"ok\"}");
    out
}

/// The reply to an accepted submit.
pub fn token_json_of(token: &str) -> (r: String)
    ensures
        r@ == token_json(token@),
{
    let mut out = String::from_str("{\"status\":\"ok\",\"token\":");
    let quoted = quote_json(token);
    out.append(quoted.as_str());
    out.append("}");
    out
}

/// The reply to a poll that finds `entry`.
pub fn answer_reply(entry: &AnswerCacheEntry) -> (r: String)
    ensures
        r@ == poll_reply(entry@),
{
    match entry {
        AnswerCacheEntry::Text(text) => answer_json_of(text.as_str()),
        AnswerCacheEntry::Pending => ErStatus::Pending.json(),
        AnswerCacheEntry::Absent => ErStatus::InvalidToken.json(),
    }
}

/// What a poll does next.
pub enum PollStep {
    /// Send this reply.
    Reply(String),
    /// Wait up to this many seconds for the answer, then reply with what the
    /// cache holds then.
    Wait(u64),
}

/// The first step of a poll that finds `entry`, where the caller asked to
/// wait up to `wait_secs` seconds. Zero means no wait: a pending token is
/// reported as pending at once. A longer wait is cut to `MAX_WAIT_SECS`.
pub fn answer_step(entry: &AnswerCacheEntry, wait_secs: u64) -> (r: PollStep)
    ensures
        entry is Pending && wait_secs > 0 ==> r == PollStep::Wait(
            if wait_secs < MAX_WAIT_SECS { wait_secs } else { MAX_WAIT_SECS },
        ),
        !(entry is Pending && wait_secs > 0) ==> (r matches PollStep::Reply(text) && text@
            == poll_reply(entry@)),
{
    match entry {
        AnswerCacheEntry::Pending => {
            if wait_secs > 0 {
                if wait_secs < MAX_WAIT_SECS {
                    PollStep::Wait(wait_secs)
                } else {
                    PollStep::Wait(MAX_WAIT_SECS)
                }
            } else {
                PollStep::Reply(answer_reply(entry))
            }
        },
        _ => PollStep::Reply(answer_reply(entry)),
    }
}

/// Admits a submit: leases a client, then reserves a token for its answer.
/// Where no client can be had the cache is left alone: `Overloaded` when the
/// pool is at its maximum, an error when the factory failed.
pub fn ask<Client, F: PollableClientFactory<Client>>(
    pool: &mut ClientsPool<Client, F>,
    cache: &mut AnswerCache,
) -> (r: Result<(String, ClientGuard<Client>), ErStatus>)
    requires
        old(pool).wf(),
        old(cache).wf(),
    ensures
        final(pool).wf(),
        final(cache).wf(),
        final(pool).spec_factory() == old(pool).spec_factory(),
        final(cache).spec_limit() == old(cache).spec_limit(),
        (r matches Err(ErStatus::Overloaded)) == refuses(old(pool).state()),
        old(pool).state().idle.len() > 0 ==> {
            &&& r matches Ok((_token, guard)) && guard.spec_client() == old(pool).state().idle.last()
            &&& final(pool).state() == after_reuse(old(pool).state())
        },
        r matches Ok((token, guard)) ==> {
            &&& is_cache_token(token@)
            &&& !has_token(old(cache).entries(), token@)
            &&& old(cache).spec_limit() > 0 ==> lookup(final(cache).entries(), token@) == Some(
                None::<Seq<char>>,
            )
            &&& final(cache).entries() == after_reserve(
                old(cache).entries(),
                old(cache).spec_limit(),
                token@,
            )
            &&& final(pool).state() == after_reuse(old(pool).state()) || final(pool).state()
                == after_build(old(pool).state())
        },
        r is Err ==> {
            &&& final(cache).entries() == old(cache).entries()
            &&& final(pool).state() == old(pool).state()
            &&& (r matches Err(e) && (e is Overloaded || e is Error))
        },
{
    match pool.pop_client() {
        Ok(guard) => {
            let token = cache.reserve_token();
            Ok((token, guard))
        },
        Err(PoolError::NoCapacity) => Err(ErStatus::Overloaded),
        Err(PoolError::Build(message)) => Err(ErStatus::Error(message)),
    }
}

/// Stores the outcome of the outside call as the answer of `token`: the
/// answer itself, or an error reply. The result says whether the token was
/// still there.
pub fn record_answer(cache: &mut AnswerCache, token: &str, outcome: Result<String, String>) -> (r:
    bool)
    requires
        old(cache).wf(),
    ensures
        final(cache).wf(),
        final(cache).spec_limit() == old(cache).spec_limit(),
        r == has_token(old(cache).entries(), token@),
        final(cache).entries() == after_complete(
            old(cache).entries(),
            token@,
            completion_text(
                match outcome {
                    Ok(a) => Ok(a@),
                    Err(m) => Err(m@),
                },
            ),
        ),
        lookup(old(cache).entries(), token@) == Some(None::<Seq<char>>) ==> lookup(
            final(cache).entries(),
            token@,
        ) == Some(
            Some(
                completion_text(
                    match outcome {
                        Ok(a) => Ok(a@),
                        Err(m) => Err(m@),
                    },
                ),
            ),
        ),
        forall|k: Seq<char>|
            k != token@ ==> #[trigger] lookup(final(cache).entries(), k) == lookup(
                old(cache).entries(),
                k,
            ),
{
    let text = match outcome {
        Ok(answer) => answer,
        Err(message) => ErStatus::Error(message).json(),
    };
    cache.insert(token, text.as_str())
}

/// A token that a submit has just been given reads as pending when polled,
/// in any cache that may hold an entry.
pub proof fn lemma_submitted_token_polls_pending(
    s: Seq<Entry>,
    limit: nat,
    token: Seq<char>,
)
    requires
        unique_tokens(s),
        !has_token(s, token),
        limit > 0,
    ensures
        poll_reply(lookup(after_reserve(s, limit, token), token)) == ErStatus::Pending.spec_json(),
{
    lemma_reserved_is_pending(s, limit, token);
}

} // verus!
