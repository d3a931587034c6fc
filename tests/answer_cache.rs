use std::sync::{Arc, Mutex};
use std::time::Duration;

use answer_server::answer_cache::{cache_token_from_draws, AnswerCache, AnswerCacheEntry, CACHE_ALPHABET, DEFAULT_LIMIT};

#[test]
fn new_cache_is_empty_with_default_limit() {
    let cache = AnswerCache::new();
    assert_eq!(cache.len(), 0);
    assert_eq!(cache.limit(), DEFAULT_LIMIT);
    assert_eq!(cache.limit(), 2048);
}

#[test]
fn reserved_token_reads_pending() {
    let mut cache = AnswerCache::new();
    for _ in 0..10 {
        let token = cache.reserve_token();
        assert_eq!(cache.get(&token), AnswerCacheEntry::Pending);
    }
    assert_eq!(cache.len(), 10);
}

#[test]
fn unknown_token_reads_absent() {
    let mut cache = AnswerCache::new();
    cache.reserve_token();
    assert_eq!(cache.get("t_never_issued"), AnswerCacheEntry::Absent);
    assert!(cache.snapshot("t_never_issued").is_none());
}

#[test]
fn completed_token_reads_its_answer() {
    let mut cache = AnswerCache::new();
    let token = cache.reserve_token();
    assert!(cache.insert(&token, "Tom Hanks"));
    assert_eq!(cache.get(&token), AnswerCacheEntry::Text("Tom Hanks".to_string()));
    let slot = cache.snapshot(&token).unwrap();
    assert_eq!(slot.value(), Some("Tom Hanks".to_string()));
}

#[test]
fn second_answer_does_not_overwrite_first() {
    let mut cache = AnswerCache::new();
    let token = cache.reserve_token();
    assert!(cache.insert(&token, "first"));
    assert!(cache.insert(&token, "second"));
    assert_eq!(cache.get(&token), AnswerCacheEntry::Text("first".to_string()));
}

#[test]
fn answer_for_unknown_token_is_dropped() {
    let mut cache = AnswerCache::new();
    let token = cache.reserve_token();
    assert!(!cache.insert("t_unknown", "lost"));
    assert_eq!(cache.get(&token), AnswerCacheEntry::Pending);
    assert_eq!(cache.len(), 1);
}

#[test]
fn one_past_capacity_evicts_oldest() {
    let mut cache = AnswerCache::with_limit(3);
    let first = cache.reserve_token();
    let second = cache.reserve_token();
    let third = cache.reserve_token();
    assert_eq!(cache.len(), 3);
    let fourth = cache.reserve_token();
    assert_eq!(cache.len(), 3);
    assert_eq!(cache.get(&first), AnswerCacheEntry::Absent);
    assert_eq!(cache.get(&second), AnswerCacheEntry::Pending);
    assert_eq!(cache.get(&third), AnswerCacheEntry::Pending);
    assert_eq!(cache.get(&fourth), AnswerCacheEntry::Pending);
}

#[test]
fn eviction_ignores_completion_and_reads() {
    let mut cache = AnswerCache::with_limit(2);
    let first = cache.reserve_token();
    let second = cache.reserve_token();
    assert!(cache.insert(&first, "done"));
    assert_eq!(cache.get(&first), AnswerCacheEntry::Text("done".to_string()));
    let third = cache.reserve_token();
    assert_eq!(cache.get(&first), AnswerCacheEntry::Absent);
    assert_eq!(cache.get(&second), AnswerCacheEntry::Pending);
    assert_eq!(cache.get(&third), AnswerCacheEntry::Pending);
    assert!(!cache.insert(&first, "late"));
}

#[test]
fn default_capacity_holds_2048() {
    let mut cache = AnswerCache::new();
    let first = cache.reserve_token();
    for _ in 0..2047 {
        cache.reserve_token();
    }
    assert_eq!(cache.len(), 2048);
    assert_eq!(cache.get(&first), AnswerCacheEntry::Pending);
    cache.reserve_token();
    assert_eq!(cache.len(), 2048);
    assert_eq!(cache.get(&first), AnswerCacheEntry::Absent);
}

#[test]
fn zero_limit_keeps_nothing() {
    let mut cache = AnswerCache::with_limit(0);
    let token = cache.reserve_token();
    assert_eq!(cache.len(), 0);
    assert_eq!(cache.get(&token), AnswerCacheEntry::Absent);
    assert!(!cache.insert(&token, "x"));
}

#[test]
fn cache_token_shape() {
    let token = AnswerCache::generate_token();
    assert_eq!(token.chars().count(), 34);
    assert!(token.starts_with("t_"));
    assert!(token[2..].chars().all(|c| CACHE_ALPHABET.contains(&c)));
    assert_eq!(CACHE_ALPHABET.len(), 36);
    assert_ne!(AnswerCache::generate_token(), token);
}

#[test]
fn two_waiters_both_see_the_answer() {
    let cache = Arc::new(Mutex::new(AnswerCache::new()));
    let token = cache.lock().unwrap().reserve_token();
    let rt = tokio::runtime::Builder::new_multi_thread().enable_all().build().unwrap();
    rt.block_on(async {
        let mut waiters = Vec::new();
        for _ in 0..2 {
            let cache = cache.clone();
            let token = token.clone();
            waiters.push(tokio::spawn(async move {
                let slot = { cache.lock().unwrap().snapshot(&token) }.unwrap();
                let notify = slot.notify().clone();
                let mut notified = Box::pin(notify.notified());
                notified.as_mut().enable();
                let entry = { cache.lock().unwrap().get(&token) };
                if entry == AnswerCacheEntry::Pending {
                    tokio::time::timeout(Duration::from_secs(5), notified).await.unwrap();
                }
                let entry = { cache.lock().unwrap().get(&token) };
                entry
            }));
        }
        tokio::time::sleep(Duration::from_millis(100)).await;
        assert!(cache.lock().unwrap().insert(&token, "Meryl Streep"));
        for waiter in waiters {
            assert_eq!(waiter.await.unwrap(), AnswerCacheEntry::Text("Meryl Streep".to_string()));
        }
    });
}

#[test]
fn cache_token_from_draws_spells_symbols() {
    let mut draws: Vec<usize> = vec![0; 32];
    draws[0] = 35;
    draws[1] = 26;
    draws[31] = 25;
    assert_eq!(cache_token_from_draws(&draws), "t_90aaaaaaaaaaaaaaaaaaaaaaaaaaaaaz");
}

#[test]
fn default_cache_keeps_nothing() {
    let mut cache = AnswerCache::default();
    assert_eq!(cache.limit(), 0);
    let token = cache.reserve_token();
    assert_eq!(cache.get(&token), AnswerCacheEntry::Absent);
}

#[test]
fn reserved_tokens_are_distinct() {
    let mut cache = AnswerCache::with_limit(100);
    let mut seen = std::collections::HashSet::new();
    for _ in 0..100 {
        assert!(seen.insert(cache.reserve_token()));
    }
    assert_eq!(cache.len(), 100);
}
