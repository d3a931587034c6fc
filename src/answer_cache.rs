//! The answer cache: each token maps to a pending or finished answer.
//!
//! Entries keep their insertion order. When the cache grows past its limit
//! the oldest entries leave first, pending or not; reading an entry never
//! moves it. An answer is written at most once.

use linked_hash_map::LinkedHashMap;
use std::sync::Arc;
use tokio::sync::Notify;

use vstd::prelude::*;

use crate::token::{draws_below, drawn_from, picked, random_draws, symbols_from_draws};

verus! {

#[verifier::external_type_specification]
#[verifier::external_body]
#[verifier::reject_recursive_types(K)]
#[verifier::reject_recursive_types(V)]
#[verifier::reject_recursive_types(S)]
pub struct ExLinkedHashMap<K, V, S>(LinkedHashMap<K, V, S>);

#[verifier::external_type_specification]
#[verifier::external_body]
pub struct ExNotify(Notify);

/// tokio's `Notify::new`: a notifier with no waiters and no stored permit.
pub assume_specification[ Notify::new ]() -> Notify;

/// tokio's `Notify::notify_waiters`: wakes every waiter registered through
/// `notified()` at the time of the call, and stores no permit for later ones.
pub assume_specification[ Notify::notify_waiters ](n: &Notify);

/// An entry as the contracts see it: the token, and the answer stored under
/// it, `None` while it is pending.
pub type Entry = (Seq<char>, Option<Seq<char>>);

/// What a slot table holds, oldest insertion first: each key's view and the
/// answer in its slot.
pub uninterp spec fn slots_of(m: LinkedHashMap<String, Slot>) -> Seq<(Seq<char>, Option<Seq<char>>)>;

pub open spec fn has_token(s: Seq<Entry>, k: Seq<char>) -> bool {
    exists|i: int| 0 <= i < s.len() && #[trigger] s[i].0 == k
}

/// The place of `k` in `s`; with distinct tokens, the only one.
pub open spec fn token_index(s: Seq<Entry>, k: Seq<char>) -> int {
    choose|i: int| 0 <= i < s.len() && #[trigger] s[i].0 == k
}

pub open spec fn unique_tokens(s: Seq<Entry>) -> bool {
    forall|i: int, j: int|
        0 <= i < s.len() && 0 <= j < s.len() && #[trigger] s[i].0 == #[trigger] s[j].0 ==> i == j
}

/// The state of `k` in `s`: absent (`None`), pending (`Some(None)`), or
/// holding an answer.
pub open spec fn lookup(s: Seq<Entry>, k: Seq<char>) -> Option<Option<Seq<char>>> {
    if has_token(s, k) {
        Some(s[token_index(s, k)].1)
    } else {
        None
    }
}

/// `s` with the entry of `k` taken out, if it has one.
pub open spec fn without_token(s: Seq<Entry>, k: Seq<char>) -> Seq<Entry> {
    if has_token(s, k) {
        s.remove(token_index(s, k))
    } else {
        s
    }
}

/// The newest `limit` entries of `s`.
pub open spec fn newest(s: Seq<Entry>, limit: nat) -> Seq<Entry> {
    if s.len() > limit {
        s.skip(s.len() - limit)
    } else {
        s
    }
}

/// The entries after a fresh `k` is reserved: a pending entry for it comes
/// last, and the oldest entries leave until at most `limit` are left.
pub open spec fn after_reserve(s: Seq<Entry>, limit: nat, k: Seq<char>) -> Seq<Entry> {
    newest(s.push((k, None)), limit)
}

/// The entries after an answer for `k` is offered: stored only where `k` is pending.
pub open spec fn after_complete(s: Seq<Entry>, k: Seq<char>, text: Seq<char>) -> Seq<Entry> {
    if lookup(s, k) == Some(None::<Seq<char>>) {
        s.update(token_index(s, k), (k, Some(text)))
    } else {
        s
    }
}

/// The symbols a cache token is drawn from.
pub const CACHE_ALPHABET: [char; 36] = [
    'a', 'b', 'c', 'd', 'e', 'f', 'g', 'h', 'i', 'j', 'k', 'l', 'm',
    'n', 'o', 'p', 'q', 'r', 's', 't', 'u', 'v', 'w', 'x', 'y', 'z',
    '0', '1', '2', '3', '4', '5', '6', '7', '8', '9',
];

/// Number of random symbols in a cache token.
pub const CACHE_TOKEN_RANDOM: usize = 32;

/// Entries a cache made by `AnswerCache::new` holds at most.
pub const DEFAULT_LIMIT: usize = 2048;

/// A cache token: `t_` and then random symbols of the cache alphabet.
pub open spec fn is_cache_token(t: Seq<char>) -> bool {
    &&& t.len() == 2 + CACHE_TOKEN_RANDOM
    &&& t[0] == 't'
    &&& t[1] == '_'
    &&& drawn_from(t.skip(2), CACHE_ALPHABET@)
}

/// Random draws a reservation makes before it falls back to numbered tokens.
pub const DRAW_ATTEMPTS: usize = 4;

/// The cache token that `draws` spell: `t_` and the symbols they pick.
pub open spec fn cache_token_of(draws: Seq<usize>) -> Seq<char> {
    seq!['t', '_'] + picked(CACHE_ALPHABET@, draws)
}

/// The base-4 digits of `j`, least significant first, `k` of them.
pub open spec fn base4_digits(j: nat, k: nat) -> Seq<usize>
    decreases k,
{
    if k == 0 {
        Seq::empty()
    } else {
        seq![(j % 4) as usize] + base4_digits(j / 4, (k - 1) as nat)
    }
}

pub open spec fn pow4(k: nat) -> nat
    decreases k,
{
    if k == 0 {
        1
    } else {
        4 * pow4((k - 1) as nat)
    }
}

/// The `j`-th numbered token, whose symbols spell `j` in base 4: the tokens a
/// reservation falls back to when its random draws keep hitting taken ones.
pub open spec fn numbered_token(j: nat) -> Seq<char> {
    cache_token_of(base4_digits(j, CACHE_TOKEN_RANDOM as nat))
}

/// The cache token that `draws` spell.
pub fn cache_token_from_draws(draws: &Vec<usize>) -> (r: String)
    requires
        draws@.len() == CACHE_TOKEN_RANDOM,
        draws_below(draws@, 36),
    ensures
        r@ == cache_token_of(draws@),
        is_cache_token(r@),
{
    let symbols = symbols_from_draws(&CACHE_ALPHABET, draws);
    let mut out = String::new();
    out.push('t');
    out.push('_');
    out.append(symbols.as_str());
    assert(out@ =~= cache_token_of(draws@));
    assert(out@.skip(2) =~= symbols@);
    assert forall|i: int| 0 <= i < out@.skip(2).len() implies CACHE_ALPHABET@.contains(
        #[trigger] out@.skip(2)[i],
    ) by {
        assert(out@.skip(2)[i] == CACHE_ALPHABET@[draws@[i] as int]);
    }
    out
}

fn base4_draws(j: usize) -> (r: Vec<usize>)
    ensures
        r@ == base4_digits(j as nat, CACHE_TOKEN_RANDOM as nat),
        draws_below(r@, 4),
{
    let mut out: Vec<usize> = Vec::new();
    let mut cur: usize = j;
    let mut i: usize = 0;
    while i < CACHE_TOKEN_RANDOM
        invariant
            i <= CACHE_TOKEN_RANDOM,
            out@ + base4_digits(cur as nat, (CACHE_TOKEN_RANDOM - i) as nat) == base4_digits(
                j as nat,
                CACHE_TOKEN_RANDOM as nat,
            ),
            draws_below(out@, 4),
        decreases CACHE_TOKEN_RANDOM - i,
    {
        let ghost rest = base4_digits(cur as nat, (CACHE_TOKEN_RANDOM - i) as nat);
        assert(rest == seq![(cur % 4) as usize] + base4_digits(
            (cur / 4) as nat,
            (CACHE_TOKEN_RANDOM - i - 1) as nat,
        ));
        let ghost before = out@;
        out.push(cur % 4);
        assert(out@ + base4_digits((cur / 4) as nat, (CACHE_TOKEN_RANDOM - i - 1) as nat) =~= before
            + rest);
        cur = cur / 4;
        i = i + 1;
    }
    assert(out@ + base4_digits(cur as nat, 0) =~= out@);
    out
}

/// The `j`-th numbered token.
fn numbered_token_exec(j: usize) -> (r: String)
    ensures
        r@ == numbered_token(j as nat),
        is_cache_token(r@),
{
    let draws = base4_draws(j);
    proof {
        lemma_base4_shape(j as nat, CACHE_TOKEN_RANDOM as nat);
    }
    cache_token_from_draws(&draws)
}

/// One entry's storage: the answer once it is there, and the notifier that
/// wakes those who wait for it.
#[derive(Clone)]
pub struct Slot {
    value: Option<String>,
    pub(crate) notify: Arc<Notify>,
}

impl Slot {
    pub closed spec fn spec_value(&self) -> Option<Seq<char>> {
        match self.value {
            Some(t) => Some(t@),
            None => None,
        }
    }

    fn new() -> (r: Self)
        ensures
            r.spec_value() is None,
    {
        Self { value: None, notify: Arc::new(Notify::new()) }
    }

    fn duplicate(&self) -> (r: Self)
        ensures
            r.spec_value() == self.spec_value(),
    {
        let value = match &self.value {
            Some(t) => Some(t.clone()),
            None => None,
        };
        Self { value, notify: self.notify.clone() }
    }

    /// The answer stored in this slot, if any.
    pub fn value(&self) -> (r: Option<String>)
        ensures
            r matches Some(t) ==> self.spec_value() == Some(t@),
            r is None ==> self.spec_value() is None,
    {
        match &self.value {
            Some(t) => Some(t.clone()),
            None => None,
        }
    }

    /// The notifier that fires when this slot's answer is stored.
    pub fn notify(&self) -> &Arc<Notify> {
        &self.notify
    }
}

/// Relies on `LinkedHashMap::new`: an empty map.
#[verifier::external_body]
fn slots_new() -> (m: LinkedHashMap<String, Slot>)
    ensures
        slots_of(m) == Seq::<Entry>::empty(),
{
    LinkedHashMap::new()
}

/// Relies on `LinkedHashMap::len`: the number of entries.
#[verifier::external_body]
fn slots_len(m: &LinkedHashMap<String, Slot>) -> (r: usize)
    ensures
        r == slots_of(*m).len(),
{
    m.len()
}

/// Relies on `LinkedHashMap::insert`: a new key goes last; a key that is
/// there already gets the new value and moves last.
#[verifier::external_body]
fn slots_insert(m: &mut LinkedHashMap<String, Slot>, k: String, v: Slot)
    ensures
        slots_of(*final(m)) == without_token(slots_of(*old(m)), k@).push((k@, v.spec_value())),
{
    m.insert(k, v);
}

/// Relies on `LinkedHashMap::pop_front`: the oldest entry leaves, if there is one.
#[verifier::external_body]
fn slots_pop_front(m: &mut LinkedHashMap<String, Slot>)
    ensures
        slots_of(*old(m)).len() > 0 ==> slots_of(*final(m)) == slots_of(*old(m)).drop_first(),
        slots_of(*old(m)).len() == 0 ==> slots_of(*final(m)) == slots_of(*old(m)),
{
    m.pop_front();
}

/// Relies on `LinkedHashMap::get`: the slot under `k`, here copied out.
#[verifier::external_body]
fn slots_get(m: &LinkedHashMap<String, Slot>, k: &str) -> (r: Option<Slot>)
    ensures
        r is Some == has_token(slots_of(*m), k@),
        r matches Some(slot) ==> slot.spec_value() == slots_of(*m)[token_index(slots_of(*m), k@)].1,
{
    m.get(k).map(|slot| slot.duplicate())
}

/// Relies on `LinkedHashMap::get_mut`: the slot under `k` is replaced where
/// it stands, and the order is kept.
#[verifier::external_body]
fn slots_replace(m: &mut LinkedHashMap<String, Slot>, k: &str, v: Slot) -> (r: bool)
    ensures
        r == has_token(slots_of(*old(m)), k@),
        r ==> slots_of(*final(m)) == slots_of(*old(m)).update(
            token_index(slots_of(*old(m)), k@),
            (k@, v.spec_value()),
        ),
        !r ==> slots_of(*final(m)) == slots_of(*old(m)),
{
    match m.get_mut(k) {
        Some(slot) => {
            *slot = v;
            true
        },
        None => false,
    }
}

/// What `AnswerCache::get` reports of a token.
#[derive(Debug, Clone, PartialEq, Eq)]
pub enum AnswerCacheEntry {
    Text(String),
    Pending,
    Absent,
}

impl View for AnswerCacheEntry {
    type V = Option<Option<Seq<char>>>;

    open spec fn view(&self) -> Option<Option<Seq<char>>> {
        match self {
            AnswerCacheEntry::Text(t) => Some(Some(t@)),
            AnswerCacheEntry::Pending => Some(None),
            AnswerCacheEntry::Absent => None,
        }
    }
}

/// Tokens and their answers, at most `limit` of them, oldest first out.
pub struct AnswerCache {
    map: LinkedHashMap<String, Slot>,
    limit: usize,
}

impl AnswerCache {
    /// The entries, oldest first.
    pub closed spec fn entries(&self) -> Seq<Entry> {
        slots_of(self.map)
    }

    pub closed spec fn spec_limit(&self) -> nat {
        self.limit as nat
    }

    /// Tokens are distinct and there are at most `limit` of them.
    pub open spec fn wf(&self) -> bool {
        &&& unique_tokens(self.entries())
        &&& self.entries().len() <= self.spec_limit()
    }

    pub fn new() -> (r: Self)
        ensures
            r.wf(),
            r.entries() == Seq::<Entry>::empty(),
            r.spec_limit() == DEFAULT_LIMIT,
    {
        Self::with_limit(DEFAULT_LIMIT)
    }

    /// An empty cache that keeps at most `limit` entries.
    pub fn with_limit(limit: usize) -> (r: Self)
        ensures
            r.wf(),
            r.entries() == Seq::<Entry>::empty(),
            r.spec_limit() == limit,
    {
        Self { map: slots_new(), limit }
    }

    pub fn len(&self) -> (r: usize)
        ensures
            r == self.entries().len(),
    {
        slots_len(&self.map)
    }

    pub fn limit(&self) -> (r: usize)
        ensures
            r == self.spec_limit(),
    {
        self.limit
    }

    /// Reserves a fresh token, one not in the cache: a pending entry for it
    /// comes last and the oldest entries leave while there are more than the
    /// limit.
    pub fn reserve_token(&mut self) -> (token: String)
        requires
            old(self).wf(),
        ensures
            final(self).wf(),
            final(self).spec_limit() == old(self).spec_limit(),
            !has_token(old(self).entries(), token@),
            final(self).entries() == after_reserve(old(self).entries(), old(self).spec_limit(), token@),
            old(self).spec_limit() > 0 ==> lookup(final(self).entries(), token@) == Some(
                None::<Seq<char>>,
            ),
            forall|k: Seq<char>|
                k != token@ && has_token(final(self).entries(), k) ==> #[trigger] lookup(
                    final(self).entries(),
                    k,
                ) == lookup(old(self).entries(), k),
            old(self).entries().len() < old(self).spec_limit() ==> forall|k: Seq<char>|
                k != token@ ==> #[trigger] lookup(final(self).entries(), k) == lookup(
                    old(self).entries(),
                    k,
                ),
            old(self).entries().len() == old(self).spec_limit() && old(self).spec_limit() > 0 ==> {
                &&& !has_token(final(self).entries(), old(self).entries()[0].0)
                &&& forall|k: Seq<char>|
                    k != token@ && k != old(self).entries()[0].0 ==> #[trigger] lookup(
                        final(self).entries(),
                        k,
                    ) == lookup(old(self).entries(), k)
            },
            is_cache_token(token@),
    {
        let token = self.fresh_token();
        self.reserve_as(token.clone());
        proof {
            lemma_reserve_keeps_survivors(old(self).entries(), old(self).spec_limit(), token@);
            if old(self).spec_limit() > 0 {
                lemma_reserved_is_pending(old(self).entries(), old(self).spec_limit(), token@);
            }
        }
        token
    }

    /// A token not in the cache: a random one where one of a few draws is
    /// free, else the first numbered token that is free. Of `n + 1` distinct
    /// numbered tokens at most `n` can be taken, so the scan always ends.
    fn fresh_token(&self) -> (r: String)
        requires
            self.wf(),
        ensures
            !has_token(self.entries(), r@),
            is_cache_token(r@),
    {
        let mut attempt: usize = 0;
        while attempt < DRAW_ATTEMPTS
            invariant
                self.wf(),
            decreases DRAW_ATTEMPTS - attempt,
        {
            let token = Self::generate_token();
            if slots_get(&self.map, token.as_str()).is_none() {
                return token;
            }
            attempt = attempt + 1;
        }
        let n = slots_len(&self.map);
        let mut j: usize = 0;
        while j < n
            invariant
                self.wf(),
                j <= n,
                n == self.entries().len(),
                forall|i: int| 0 <= i < j ==> has_token(self.entries(), #[trigger] numbered_token(i as nat)),
            decreases n - j,
        {
            let token = numbered_token_exec(j);
            if slots_get(&self.map, token.as_str()).is_none() {
                return token;
            }
            j = j + 1;
        }
        let token = numbered_token_exec(n);
        proof {
            if has_token(self.entries(), token@) {
                let cs = Seq::new((n + 1) as nat, |i: int| numbered_token(i as nat));
                assert forall|a: int, b: int|
                    0 <= a < cs.len() && 0 <= b < cs.len() && #[trigger] cs[a] == #[trigger] cs[b] implies a
                    == b by {
                    lemma_numbered_injective(a as nat, b as nat);
                }
                assert forall|i: int| 0 <= i < cs.len() implies has_token(self.entries(), #[trigger] cs[i]) by {
                    if i < n {
                        assert(has_token(self.entries(), numbered_token(i as nat)));
                    }
                }
                lemma_pigeonhole(self.entries(), cs);
            }
        }
        token
    }

    fn reserve_as(&mut self, token: String)
        requires
            old(self).wf(),
            !has_token(old(self).entries(), token@),
        ensures
            final(self).wf(),
            final(self).spec_limit() == old(self).spec_limit(),
            final(self).entries() == after_reserve(old(self).entries(), old(self).spec_limit(), token@),
    {
        let ghost k = token@;
        let ghost before = self.entries();
        slots_insert(&mut self.map, token, Slot::new());
        let ghost pushed = self.entries();
        assert(pushed == before.push((k, None)));
        proof {
            lemma_push_fresh(before, (k, None));
        }
        let ghost lim = self.limit;
        let ghost mut dropped: int = 0;
        assert(pushed.skip(0) =~= pushed);
        while slots_len(&self.map) > self.limit
            invariant
                unique_tokens(pushed),
                self.limit == lim,
                0 <= dropped <= pushed.len(),
                dropped == 0 || pushed.len() - dropped >= self.limit,
                self.entries() == pushed.skip(dropped),
            decreases pushed.len() - dropped,
        {
            slots_pop_front(&mut self.map);
            assert(pushed.skip(dropped).drop_first() =~= pushed.skip(dropped + 1));
            proof {
                dropped = dropped + 1;
            }
        }
        assert(self.entries() == newest(pushed, self.limit as nat)) by {
            if dropped > 0 {
                assert(dropped == pushed.len() - self.limit);
            }
        }
        let ghost e = self.entries();
        assert forall|i: int, j: int|
            0 <= i < e.len() && 0 <= j < e.len() && #[trigger] e[i].0 == #[trigger] e[j].0 implies i
                == j by {
            assert(e[i] == pushed[i + dropped] && e[j] == pushed[j + dropped]);
        }
    }

    /// Stores `text` as the answer of `token` where `token` is pending, and
    /// wakes whoever waits on it. An answer already stored stays. The result
    /// says whether the token was found.
    pub fn insert(&mut self, token: &str, text: &str) -> (r: bool)
        requires
            old(self).wf(),
        ensures
            final(self).wf(),
            final(self).spec_limit() == old(self).spec_limit(),
            r == has_token(old(self).entries(), token@),
            final(self).entries() == after_complete(old(self).entries(), token@, text@),
            lookup(old(self).entries(), token@) == Some(None::<Seq<char>>) ==> lookup(
                final(self).entries(),
                token@,
            ) == Some(Some(text@)),
            lookup(old(self).entries(), token@) != Some(None::<Seq<char>>) ==> lookup(
                final(self).entries(),
                token@,
            ) == lookup(old(self).entries(), token@),
            forall|k: Seq<char>|
                k != token@ ==> #[trigger] lookup(final(self).entries(), k) == lookup(
                    old(self).entries(),
                    k,
                ),
    {
        proof {
            lemma_complete_keeps_order(self.entries(), token@, text@);
        }
        match slots_get(&self.map, token) {
            None => false,
            Some(slot) => {
                match slot.value {
                    Some(_) => true,
                    None => {
                        let notify = slot.notify;
                        let done = Slot { value: Some(text.to_owned()), notify: notify.clone() };
                        let ghost before = self.entries();
                        let found = slots_replace(&mut self.map, token, done);
                        let ghost e = self.entries();
                        assert forall|i: int, j: int|
                            0 <= i < e.len() && 0 <= j < e.len() && #[trigger] e[i].0
                                == #[trigger] e[j].0 implies i == j by {
                            assert(e[i].0 == before[i].0 && e[j].0 == before[j].0);
                        }
                        notify.notify_waiters();
                        found
                    },
                }
            },
        }
    }

    /// The state of `token`: its answer, pending, or unknown.
    pub fn get(&self, token: &str) -> (r: AnswerCacheEntry)
        requires
            self.wf(),
        ensures
            r@ == lookup(self.entries(), token@),
    {
        match slots_get(&self.map, token) {
            Some(slot) => {
                match slot.value {
                    Some(text) => AnswerCacheEntry::Text(text),
                    None => AnswerCacheEntry::Pending,
                }
            },
            None => AnswerCacheEntry::Absent,
        }
    }

    /// A copy of the slot of `token`, through which a caller can wait for
    /// its answer; `None` if the token is unknown.
    pub fn snapshot(&self, token: &str) -> (r: Option<Slot>)
        requires
            self.wf(),
        ensures
            r is Some == has_token(self.entries(), token@),
            r matches Some(slot) ==> Some(slot.spec_value()) == lookup(self.entries(), token@),
    {
        slots_get(&self.map, token)
    }

    /// A fresh token: `t_` and random symbols.
    pub fn generate_token() -> (r: String)
        ensures
            is_cache_token(r@),
    {
        let draws = random_draws(CACHE_ALPHABET.len(), CACHE_TOKEN_RANDOM);
        cache_token_from_draws(&draws)
    }
}

impl Default for AnswerCache {
    /// An empty cache with limit 0: every reservation leaves it at once.
    fn default() -> (r: Self)
        ensures
            r.wf(),
            r.entries() == Seq::<Entry>::empty(),
            r.spec_limit() == 0,
    {
        Self::with_limit(0)
    }
}

/// A token just reserved reads as pending: neither answered nor unknown,
/// as long as the cache may hold any entry at all.
pub proof fn lemma_reserved_is_pending(s: Seq<Entry>, limit: nat, k: Seq<char>)
    requires
        unique_tokens(s),
        !has_token(s, k),
        limit > 0,
    ensures
        lookup(after_reserve(s, limit, k), k) == Some(None::<Seq<char>>),
        unique_tokens(after_reserve(s, limit, k)),
{
    let p = s.push((k, None));
    lemma_push_fresh(s, (k, None));
    let r = after_reserve(s, limit, k);
    let d = if p.len() > limit { p.len() - limit } else { 0 };
    assert(r =~= p.skip(d));
    lemma_skip_unique(p, d);
    assert(r.len() > 0);
    assert(r[r.len() - 1] == p[p.len() - 1]);
    assert(r[r.len() - 1].0 == k);
    lemma_index_of_unique(r, k, r.len() - 1);
}

/// A reservation leaves every entry that survives it as it was.
pub proof fn lemma_reserve_keeps_survivors(s: Seq<Entry>, limit: nat, k: Seq<char>)
    requires
        unique_tokens(s),
        !has_token(s, k),
    ensures
        forall|k2: Seq<char>|
            k2 != k && has_token(after_reserve(s, limit, k), k2) ==> #[trigger] lookup(
                after_reserve(s, limit, k),
                k2,
            ) == lookup(s, k2),
        s.len() < limit ==> forall|k2: Seq<char>|
            k2 != k ==> #[trigger] lookup(after_reserve(s, limit, k), k2) == lookup(s, k2),
        s.len() == limit && limit > 0 ==> !has_token(after_reserve(s, limit, k), s[0].0),
        s.len() == limit && limit > 0 ==> forall|k2: Seq<char>|
            k2 != k && k2 != s[0].0 ==> #[trigger] lookup(after_reserve(s, limit, k), k2) == lookup(
                s,
                k2,
            ),
{
    let p = s.push((k, None::<Seq<char>>));
    lemma_push_fresh(s, (k, None::<Seq<char>>));
    let d = if p.len() > limit { p.len() - limit } else { 0 };
    let r = after_reserve(s, limit, k);
    assert(r =~= p.skip(d));
    lemma_skip_unique(p, d);
    assert forall|k2: Seq<char>| k2 != k && has_token(r, k2) implies #[trigger] lookup(r, k2) == lookup(
        s,
        k2,
    ) by {
        let y = token_index(r, k2);
        assert(r[y] == p[y + d]);
        assert(y + d < s.len());
        assert(p[y + d] == s[y + d]);
        lemma_index_of_unique(r, k2, y);
        lemma_index_of_unique(s, k2, y + d);
    }
    if s.len() < limit || (s.len() == limit && limit > 0) {
        assert forall|k2: Seq<char>|
            k2 != k && (s.len() < limit || k2 != s[0].0) implies #[trigger] lookup(r, k2) == lookup(
            s,
            k2,
        ) by {
            if has_token(s, k2) {
                let y = token_index(s, k2);
                if s.len() < limit {
                    assert(r[y] == s[y]);
                } else {
                    assert(y != 0);
                    assert(r[y - 1] == s[y]);
                }
            }
        }
    }
    if s.len() == limit && limit > 0 {
        if has_token(r, s[0].0) {
            let j = choose|j: int| 0 <= j < r.len() && #[trigger] r[j].0 == s[0].0;
            assert(r[j] == p[j + 1]);
            if j + 1 < s.len() {
                assert(s[j + 1].0 == s[0].0);
            }
        }
    }
}

/// Once an answer is stored, a second answer for the same token changes
/// nothing: the first one stays.
pub proof fn lemma_first_answer_stays(s: Seq<Entry>, k: Seq<char>, first: Seq<char>, second: Seq<char>)
    requires
        unique_tokens(s),
        lookup(s, k) == Some(None::<Seq<char>>),
    ensures
        lookup(after_complete(s, k, first), k) == Some(Some(first)),
        after_complete(after_complete(s, k, first), k, second) == after_complete(s, k, first),
{
    let i = token_index(s, k);
    let t = after_complete(s, k, first);
    assert(t[i].0 == k);
    assert(has_token(t, k));
    assert(unique_tokens(t)) by {
        assert forall|a: int, b: int|
            0 <= a < t.len() && 0 <= b < t.len() && #[trigger] t[a].0 == #[trigger] t[b].0 implies a
                == b by {
            assert(t[a].0 == s[a].0 && t[b].0 == s[b].0);
        }
    }
    lemma_index_of_unique(t, k, i);
}

/// A full cache that reserves a new token keeps its size: the oldest entry
/// leaves, whether pending or answered, and the others stay in order.
pub proof fn lemma_full_cache_evicts_oldest(s: Seq<Entry>, limit: nat, k: Seq<char>)
    requires
        unique_tokens(s),
        s.len() == limit,
        limit > 0,
        !has_token(s, k),
    ensures
        after_reserve(s, limit, k).len() == limit,
        after_reserve(s, limit, k) == s.drop_first().push((k, None::<Seq<char>>)),
        !has_token(after_reserve(s, limit, k), s[0].0),
{
    let r = after_reserve(s, limit, k);
    assert(r =~= s.drop_first().push((k, None::<Seq<char>>)));
    if has_token(r, s[0].0) {
        let j = choose|j: int| 0 <= j < r.len() && #[trigger] r[j].0 == s[0].0;
        if j < r.len() - 1 {
            assert(r[j] == s[j + 1]);
        } else {
            assert(s[0].0 == k);
        }
    }
}

/// The entries after reserving each token of `ks` in turn.
pub open spec fn reserve_all(s: Seq<Entry>, limit: nat, ks: Seq<Seq<char>>) -> Seq<Entry>
    decreases ks.len(),
{
    if ks.len() == 0 {
        s
    } else {
        after_reserve(reserve_all(s, limit, ks.drop_last()), limit, ks.last())
    }
}

/// Pending entries for the tokens `ks`, in that order.
pub open spec fn pending_entries(ks: Seq<Seq<char>>) -> Seq<Entry> {
    ks.map_values(|k: Seq<char>| (k, None::<Seq<char>>))
}

/// Reserving `limit + 1` distinct tokens in an empty cache bounded at `limit`
/// leaves exactly `limit` entries: all the tokens but the first, which was
/// the oldest.
pub proof fn lemma_one_past_capacity(limit: nat, ks: Seq<Seq<char>>)
    requires
        limit > 0,
        ks.len() == limit + 1,
        forall|i: int, j: int| 0 <= i < ks.len() && 0 <= j < ks.len() && ks[i] == ks[j] ==> i == j,
    ensures
        reserve_all(Seq::empty(), limit, ks).len() == limit,
        reserve_all(Seq::empty(), limit, ks) == pending_entries(ks.drop_first()),
        !has_token(reserve_all(Seq::empty(), limit, ks), ks[0]),
{
    let front = ks.drop_last();
    lemma_fill_below_capacity(limit, front);
    let s = reserve_all(Seq::empty(), limit, front);
    assert(!has_token(s, ks.last())) by {
        if has_token(s, ks.last()) {
            let j = choose|j: int| 0 <= j < s.len() && #[trigger] s[j].0 == ks.last();
            assert(s[j].0 == ks[j]);
        }
    }
    lemma_full_cache_evicts_oldest(s, limit, ks.last());
    assert(s[0].0 == ks[0]);
    assert(s.drop_first().push((ks.last(), None::<Seq<char>>)) =~= pending_entries(ks.drop_first()));
}

/// Below the limit nothing leaves: the entries are the tokens in order.
proof fn lemma_fill_below_capacity(limit: nat, ks: Seq<Seq<char>>)
    requires
        ks.len() <= limit,
        forall|i: int, j: int| 0 <= i < ks.len() && 0 <= j < ks.len() && ks[i] == ks[j] ==> i == j,
    ensures
        reserve_all(Seq::empty(), limit, ks) == pending_entries(ks),
        unique_tokens(pending_entries(ks)),
    decreases ks.len(),
{
    let p = pending_entries(ks);
    assert(unique_tokens(p)) by {
        assert forall|i: int, j: int|
            0 <= i < p.len() && 0 <= j < p.len() && #[trigger] p[i].0 == #[trigger] p[j].0 implies i
                == j by {
            assert(p[i].0 == ks[i] && p[j].0 == ks[j]);
        }
    }
    if ks.len() > 0 {
        let front = ks.drop_last();
        lemma_fill_below_capacity(limit, front);
        let s = pending_entries(front);
        assert(!has_token(s, ks.last())) by {
            if has_token(s, ks.last()) {
                let j = choose|j: int| 0 <= j < s.len() && #[trigger] s[j].0 == ks.last();
                assert(s[j].0 == ks[j]);
                assert(ks[j] == ks[ks.len() - 1]);
            }
        }
        assert(s.push((ks.last(), None::<Seq<char>>)) =~= p);
    }
}

/// Appending an entry whose token is new keeps the tokens distinct.
proof fn lemma_push_fresh(s: Seq<Entry>, e: Entry)
    requires
        unique_tokens(s),
        !has_token(s, e.0),
    ensures
        unique_tokens(s.push(e)),
{
    let p = s.push(e);
    assert forall|i: int, j: int|
        0 <= i < p.len() && 0 <= j < p.len() && #[trigger] p[i].0 == #[trigger] p[j].0 implies i
            == j by {
        if i < s.len() && j < s.len() {
            assert(p[i] == s[i] && p[j] == s[j]);
        } else if i < s.len() {
            assert(p[i] == s[i]);
        } else if j < s.len() {
            assert(p[j] == s[j]);
        }
    }
}

/// Dropping a prefix keeps the tokens distinct.
proof fn lemma_skip_unique(s: Seq<Entry>, d: int)
    requires
        unique_tokens(s),
        0 <= d <= s.len(),
    ensures
        unique_tokens(s.skip(d)),
{
    let e = s.skip(d);
    assert forall|i: int, j: int|
        0 <= i < e.len() && 0 <= j < e.len() && #[trigger] e[i].0 == #[trigger] e[j].0 implies i
            == j by {
        assert(e[i] == s[i + d] && e[j] == s[j + d]);
    }
}

/// With distinct tokens, the place of `k` is the one index that holds it.
proof fn lemma_index_of_unique(s: Seq<Entry>, k: Seq<char>, i: int)
    requires
        unique_tokens(s),
        0 <= i < s.len(),
        s[i].0 == k,
    ensures
        token_index(s, k) == i,
        lookup(s, k) == Some(s[i].1),
{
    assert(has_token(s, k));
}

/// Storing an answer changes no entry's token or place, so it cannot move an
/// entry's turn to be evicted; it changes what `k` reads, and nothing else.
pub proof fn lemma_complete_keeps_order(s: Seq<Entry>, k: Seq<char>, text: Seq<char>)
    requires
        unique_tokens(s),
    ensures
        after_complete(s, k, text).len() == s.len(),
        forall|i: int| 0 <= i < s.len() ==> (#[trigger] after_complete(s, k, text)[i]).0 == s[i].0,
        unique_tokens(after_complete(s, k, text)),
        lookup(s, k) == Some(None::<Seq<char>>) ==> lookup(after_complete(s, k, text), k) == Some(
            Some(text),
        ),
        lookup(s, k) != Some(None::<Seq<char>>) ==> after_complete(s, k, text) == s,
        forall|k2: Seq<char>|
            k2 != k ==> #[trigger] lookup(after_complete(s, k, text), k2) == lookup(s, k2),
{
    let t = after_complete(s, k, text);
    if lookup(s, k) == Some(None::<Seq<char>>) {
        let x = token_index(s, k);
        assert forall|i: int| 0 <= i < s.len() implies (#[trigger] t[i]).0 == s[i].0 by {}
        assert(unique_tokens(t)) by {
            assert forall|a: int, b: int|
                0 <= a < t.len() && 0 <= b < t.len() && #[trigger] t[a].0 == #[trigger] t[b].0 implies a
                    == b by {
                assert(t[a].0 == s[a].0 && t[b].0 == s[b].0);
            }
        }
        assert(t[x].0 == k);
        lemma_index_of_unique(t, k, x);
        assert forall|k2: Seq<char>| k2 != k implies #[trigger] lookup(t, k2) == lookup(s, k2) by {
            if has_token(s, k2) {
                let y = token_index(s, k2);
                assert(t[y] == s[y]);
                lemma_index_of_unique(t, k2, y);
                lemma_index_of_unique(s, k2, y);
            } else {
                if has_token(t, k2) {
                    let y = choose|y: int| 0 <= y < t.len() && #[trigger] t[y].0 == k2;
                    assert(s[y].0 == k2);
                }
            }
        }
    }
}

/// The base-4 digits have `k` places, each below 4.
proof fn lemma_base4_shape(j: nat, k: nat)
    ensures
        base4_digits(j, k).len() == k,
        draws_below(base4_digits(j, k), 4),
    decreases k,
{
    if k > 0 {
        lemma_base4_shape(j / 4, (k - 1) as nat);
        let d = base4_digits(j, k);
        assert forall|i: int| 0 <= i < d.len() implies #[trigger] d[i] < 4 by {
            if i > 0 {
                assert(d[i] == base4_digits(j / 4, (k - 1) as nat)[i - 1]);
            }
        }
    }
}

/// Numbers below `4^k` have distinct `k`-place base-4 digits.
proof fn lemma_base4_injective(a: nat, b: nat, k: nat)
    requires
        base4_digits(a, k) == base4_digits(b, k),
        a < pow4(k),
        b < pow4(k),
    ensures
        a == b,
    decreases k,
{
    if k > 0 {
        let da = base4_digits(a, k);
        let db = base4_digits(b, k);
        assert(da[0] == db[0]);
        assert(a % 4 == b % 4);
        assert(base4_digits(a / 4, (k - 1) as nat) =~= da.drop_first());
        assert(base4_digits(b / 4, (k - 1) as nat) =~= db.drop_first());
        assert(a / 4 < pow4((k - 1) as nat));
        assert(b / 4 < pow4((k - 1) as nat));
        lemma_base4_injective(a / 4, b / 4, (k - 1) as nat);
    }
}

/// Distinct numbers that fit in a `usize` have distinct numbered tokens.
proof fn lemma_numbered_injective(a: nat, b: nat)
    requires
        a <= usize::MAX,
        b <= usize::MAX,
        numbered_token(a) == numbered_token(b),
    ensures
        a == b,
{
    let k = CACHE_TOKEN_RANDOM as nat;
    let da = base4_digits(a, k);
    let db = base4_digits(b, k);
    lemma_base4_shape(a, k);
    lemma_base4_shape(b, k);
    let ta = numbered_token(a);
    let tb = numbered_token(b);
    assert(ta.len() == 2 + k);
    assert forall|i: int| 0 <= i < k implies da[i] == db[i] by {
        assert(ta[i + 2] == CACHE_ALPHABET@[da[i] as int]);
        assert(tb[i + 2] == CACHE_ALPHABET@[db[i] as int]);
        assert(CACHE_ALPHABET@[0] == 'a');
        assert(CACHE_ALPHABET@[1] == 'b');
        assert(CACHE_ALPHABET@[2] == 'c');
        assert(CACHE_ALPHABET@[3] == 'd');
    }
    assert(da =~= db);
    reveal_with_fuel(pow4, 33);
    assert(pow4(32) == 0x1_0000_0000_0000_0000nat);
    lemma_base4_injective(a, b, k);
}

/// Distinct tokens that all stand in `s`, whose tokens are distinct, are no
/// more than the entries of `s`.
proof fn lemma_pigeonhole(s: Seq<Entry>, cs: Seq<Seq<char>>)
    requires
        unique_tokens(s),
        forall|a: int, b: int| 0 <= a < cs.len() && 0 <= b < cs.len() && #[trigger] cs[a] == #[trigger] cs[b] ==> a == b,
        forall|i: int| 0 <= i < cs.len() ==> has_token(s, #[trigger] cs[i]),
    ensures
        cs.len() <= s.len(),
    decreases cs.len(),
{
    if cs.len() > 0 {
        let k = cs.last();
        assert(has_token(s, cs[cs.len() - 1]));
        let x = token_index(s, k);
        lemma_without_token(s, k);
        let w = without_token(s, k);
        let rest = cs.drop_last();
        assert forall|i: int| 0 <= i < rest.len() implies has_token(w, #[trigger] rest[i]) by {
            let c = rest[i];
            assert(c == cs[i]);
            assert(has_token(s, cs[i]));
            let y = token_index(s, c);
            assert(c != k);
            s.remove_ensures(x);
            if y < x {
                assert(w[y] == s[y]);
            } else {
                assert(y != x);
                assert(w[y - 1] == s[y]);
            }
        }
        assert forall|a: int, b: int|
            0 <= a < rest.len() && 0 <= b < rest.len() && #[trigger] rest[a] == #[trigger] rest[b] implies a == b by {
            assert(rest[a] == cs[a] && rest[b] == cs[b]);
        }
        lemma_pigeonhole(w, rest);
    }
}

/// Taking `k` out of entries with distinct tokens leaves distinct tokens, none of them `k`.
proof fn lemma_without_token(s: Seq<Entry>, k: Seq<char>)
    requires
        unique_tokens(s),
    ensures
        unique_tokens(without_token(s, k)),
        !has_token(without_token(s, k), k),
        without_token(s, k).len() == s.len() - (if has_token(s, k) { 1int } else { 0 }),
{
    if has_token(s, k) {
        let x = token_index(s, k);
        let w = s.remove(x);
        s.remove_ensures(x);
        assert forall|i: int, j: int|
            0 <= i < w.len() && 0 <= j < w.len() && #[trigger] w[i].0 == #[trigger] w[j].0 implies i
                == j by {
            let si = if i < x { i } else { i + 1 };
            let sj = if j < x { j } else { j + 1 };
            assert(w[i] == s[si] && w[j] == s[sj]);
        }
        assert forall|i: int| 0 <= i < w.len() implies #[trigger] w[i].0 != k by {
            let si = if i < x { i } else { i + 1 };
            assert(w[i] == s[si]);
        }
    }
}

} // verus!
