use std::cell::Cell;

use answer_server::answer_cache::{AnswerCache, AnswerCacheEntry};
use answer_server::client_pool::{ClientFactoryConfig, ClientsPool, PollableClientFactory};
use answer_server::error::ErStatus;
use answer_server::handler::StaticFileHandler;
use answer_server::server::{
    answer_json_of, answer_reply, answer_step, ask, record_answer, token_json_of, Config, PollStep,
    MAX_WAIT_SECS,
};

struct Numbered {
    config: ClientFactoryConfig,
    next: Cell<u32>,
}

impl PollableClientFactory<u32> for Numbered {
    fn build_client(&self) -> Result<u32, String> {
        self.next.set(self.next.get() + 1);
        Ok(self.next.get())
    }

    fn get_config(&self) -> &ClientFactoryConfig {
        &self.config
    }
}

struct Broken {
    config: ClientFactoryConfig,
}

impl PollableClientFactory<u32> for Broken {
    fn build_client(&self) -> Result<u32, String> {
        Err("missing credentials".to_string())
    }

    fn get_config(&self) -> &ClientFactoryConfig {
        &self.config
    }
}

fn pool(max_clients: usize) -> ClientsPool<u32, Numbered> {
    ClientsPool::new(Numbered { config: ClientFactoryConfig { max_clients }, next: Cell::new(0) })
}

fn reply_of(step: PollStep) -> String {
    match step {
        PollStep::Reply(text) => text,
        PollStep::Wait(secs) => panic!("unexpected wait of {} s", secs),
    }
}

#[test]
fn status_replies() {
    assert_eq!(ErStatus::Pending.json(), r#"{"status":"pending"}"#);
    assert_eq!(ErStatus::InvalidToken.json(), r#"{"status":"invalid_token"}"#);
    assert_eq!(ErStatus::Overloaded.json(), r#"{"status":"overloaded"}"#);
    assert_eq!(ErStatus::error("internal server error").json(), r#"{"message":"internal server error","status":"error"}"#);
}

#[test]
fn replies_escape_their_text() {
    assert_eq!(ErStatus::error("say \"hi\"\n").json(), r#"{"message":"say \"hi\"\n","status":"error"}"#);
    assert_eq!(answer_json_of("a\\b"), r#"{"answer":"a\\b","status":"ok"}"#);
    assert_eq!(token_json_of("t_abc"), r#"{"status":"ok","token":"t_abc"}"#);
    assert_eq!(answer_json_of("\u{1}\t\u{8}\u{c}\r\u{1f} é"), r#"{"answer":"\u0001\t\b\f\r\u001f é","status":"ok"}"#);
}

#[test]
fn poll_replies_by_state() {
    assert_eq!(answer_reply(&AnswerCacheEntry::Text("Al Pacino".to_string())), r#"{"answer":"Al Pacino","status":"ok"}"#);
    assert_eq!(answer_reply(&AnswerCacheEntry::Pending), r#"{"status":"pending"}"#);
    assert_eq!(answer_reply(&AnswerCacheEntry::Absent), r#"{"status":"invalid_token"}"#);
}

#[test]
fn poll_wait_is_bounded() {
    assert!(matches!(answer_step(&AnswerCacheEntry::Pending, 5), PollStep::Wait(5)));
    assert!(matches!(answer_step(&AnswerCacheEntry::Pending, 1000), PollStep::Wait(30)));
    assert_eq!(MAX_WAIT_SECS, 30);
    assert_eq!(reply_of(answer_step(&AnswerCacheEntry::Pending, 0)), r#"{"status":"pending"}"#);
    assert_eq!(reply_of(answer_step(&AnswerCacheEntry::Absent, 10)), r#"{"status":"invalid_token"}"#);
    assert_eq!(reply_of(answer_step(&AnswerCacheEntry::Text("x".to_string()), 10)), r#"{"answer":"x","status":"ok"}"#);
}

#[test]
fn submit_then_poll_end_to_end() {
    let mut cache = AnswerCache::new();
    let mut clients = pool(1);
    let (token, guard) = match ask(&mut clients, &mut cache) {
        Ok(accepted) => accepted,
        Err(e) => panic!("refused: {}", e.json()),
    };
    assert_eq!(token_json_of(&token), format!("{{\"status\":\"ok\",\"token\":\"{}\"}}", token));
    assert_eq!(reply_of(answer_step(&cache.get(&token), 0)), r#"{"status":"pending"}"#);
    assert!(matches!(answer_step(&cache.get(&token), 3), PollStep::Wait(3)));

    assert!(matches!(ask(&mut clients, &mut cache), Err(ErStatus::Overloaded)));
    assert_eq!(cache.len(), 1);

    assert!(record_answer(&mut cache, &token, Ok("Denzel Washington".to_string())));
    assert_eq!(reply_of(answer_step(&cache.get(&token), 3)), r#"{"answer":"Denzel Washington","status":"ok"}"#);
    assert_eq!(reply_of(answer_step(&cache.get("t_fabricated"), 3)), r#"{"status":"invalid_token"}"#);

    assert!(clients.return_client(guard.into_client()));
    let (second, _guard) = match ask(&mut clients, &mut cache) {
        Ok(accepted) => accepted,
        Err(e) => panic!("refused: {}", e.json()),
    };
    assert_ne!(second, token);
    assert_eq!(cache.len(), 2);
}

#[test]
fn failed_outside_call_is_stored_as_error() {
    let mut cache = AnswerCache::new();
    let mut clients = pool(1);
    let (token, _guard) = match ask(&mut clients, &mut cache) {
        Ok(accepted) => accepted,
        Err(e) => panic!("refused: {}", e.json()),
    };
    assert!(record_answer(&mut cache, &token, Err("upstream 500".to_string())));
    assert_eq!(cache.get(&token), AnswerCacheEntry::Text(r#"{"message":"upstream 500","status":"error"}"#.to_string()));
    assert!(!record_answer(&mut cache, "t_gone", Ok("lost".to_string())));
}

#[test]
fn factory_failure_is_an_error_reply() {
    let mut cache = AnswerCache::new();
    let mut clients = ClientsPool::new(Broken { config: ClientFactoryConfig { max_clients: 2 } });
    match ask(&mut clients, &mut cache) {
        Ok(_) => panic!("no client can be built"),
        Err(e) => assert_eq!(e.json(), r#"{"message":"missing credentials","status":"error"}"#),
    }
    assert_eq!(cache.len(), 0);
}

#[test]
fn config_default_and_static_root() {
    let config = Config::default();
    assert_eq!(config.port, 0);
    assert!(config.www_root_path.is_none());
    let handler = StaticFileHandler::with_root(std::path::PathBuf::from("/srv/www"));
    assert_eq!(handler.root(), &std::path::PathBuf::from("/srv/www"));
}
