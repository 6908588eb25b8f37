use claw_state::memory_client::check_reply;
use claw_state::memory_client::read_reply;
use claw_state::memory_client::IngestRequest;
use claw_state::memory_client::MemoryClient;
use claw_state::memory_client::MemoryError;
use claw_state::memory_client::MemoryMessage;
use claw_state::memory_client::MemoryRole;
use claw_state::memory_client::NoopMemoryClient;
use claw_state::memory_client::Operation;
use claw_state::memory_client::SearchReply;
use claw_state::memory_client::SearchRequest;
use claw_state::memory_client::SearchResult;
use claw_state::memory_client::Status;
use claw_state::memory_client::ZepConfig;
use claw_state::memory_client::ZepMemoryClient;
use claw_state::memory_client::ZepTransport;
use std::sync::Arc;
use std::sync::Mutex;
use std::time::Duration;

#[derive(Clone)]
struct FixedTransport {
    status: Status,
    results: Vec<SearchResult>,
    searches: Arc<Mutex<Vec<SearchRequest>>>,
    ingests: Arc<Mutex<Vec<(IngestRequest, Vec<MemoryMessage>)>>>,
}

impl FixedTransport {
    fn new(code: u16, shown: &str, results: Vec<SearchResult>) -> Self {
        Self {
            status: status(code, shown),
            results,
            searches: Arc::new(Mutex::new(Vec::new())),
            ingests: Arc::new(Mutex::new(Vec::new())),
        }
    }
}

impl ZepTransport for FixedTransport {
    fn search(&self, request: SearchRequest) -> SearchReply {
        self.searches.lock().unwrap().push(request);
        SearchReply {
            sent: Ok(self.status.clone()),
            body: Ok(self.results.clone()),
        }
    }

    fn ingest(&self, request: IngestRequest, messages: &[MemoryMessage]) -> Result<Status, String> {
        self.ingests.lock().unwrap().push((request, messages.to_vec()));
        Ok(self.status.clone())
    }
}

fn status(code: u16, shown: &str) -> Status {
    Status {
        code,
        shown: shown.to_string(),
    }
}

fn result(fact: Option<&str>, content: Option<&str>) -> SearchResult {
    SearchResult {
        fact: fact.map(str::to_string),
        content: content.map(str::to_string),
    }
}

fn silent() -> FixedTransport {
    FixedTransport::new(500, "500 Internal Server Error", vec![])
}

fn client(config: ZepConfig, transport: &FixedTransport) -> ZepMemoryClient<FixedTransport> {
    match ZepMemoryClient::new(config, |_| Ok(transport.clone())) {
        Ok(client) => client,
        Err(error) => panic!("client: {}", error.message()),
    }
}

#[test]
fn noop_returns_empty_recall() {
    let mut client = NoopMemoryClient;
    let recalled = client.recall("session", "hello", 5).expect("recall");
    assert!(recalled.is_empty());
}

#[test]
fn noop_accepts_ingest() {
    let mut client = NoopMemoryClient;
    let message = MemoryMessage::new(MemoryRole::User, "hi");
    client.ingest("session", &[message]).expect("ingest");
}

#[test]
fn zep_client_rejects_empty_base_url() {
    let config = ZepConfig::new("", "alice");
    match ZepMemoryClient::new(config, |_| Ok(silent())) {
        Err(MemoryError::Config(message)) => assert_eq!(message, "base_url is empty"),
        Err(other) => panic!("unexpected error: {}", other.message()),
        Ok(_) => panic!("expected empty base_url to fail"),
    }
}

#[test]
fn zep_client_rejects_empty_user_id() {
    let config = ZepConfig::new("https://zep.example", "");
    match ZepMemoryClient::new(config, |_| Ok(silent())) {
        Err(MemoryError::Config(message)) => assert_eq!(message, "user_id is empty"),
        Err(other) => panic!("unexpected error: {}", other.message()),
        Ok(_) => panic!("expected empty user_id to fail"),
    }
}

#[test]
fn zep_recall_short_circuits_on_empty_query() {
    let config = ZepConfig::new("https://zep.invalid", "alice");
    let transport = silent();
    let mut client = client(config, &transport);
    let recalled = client.recall("session", "   ", 5).expect("recall");
    assert!(recalled.is_empty());
    assert!(transport.searches.lock().unwrap().is_empty());
}

#[test]
fn zep_recall_short_circuits_on_zero_limit() {
    let config = ZepConfig::new("https://zep.invalid", "alice");
    let transport = silent();
    let mut client = client(config, &transport);
    let recalled = client.recall("session", "question", 0).expect("recall");
    assert!(recalled.is_empty());
    assert!(transport.searches.lock().unwrap().is_empty());
}

#[test]
fn zep_ingest_short_circuits_on_empty_messages() {
    let config = ZepConfig::new("https://zep.invalid", "alice");
    let transport = silent();
    let mut client = client(config, &transport);
    client.ingest("session", &[]).expect("ingest");
    assert!(transport.ingests.lock().unwrap().is_empty());
}

#[test]
fn recall_returns_facts_from_zep_response() {
    let transport = FixedTransport::new(
        200,
        "200 OK",
        vec![
            result(Some("User prefers Rust"), None),
            result(None, Some("Working on claw-code")),
        ],
    );
    let config = ZepConfig::new("http://127.0.0.1:9/", "alice").with_api_key("secret");
    let mut client = client(config, &transport);
    let facts = client
        .recall("session-42", "what is the user working on?", 3)
        .expect("recall");
    assert_eq!(facts, vec!["User prefers Rust", "Working on claw-code"]);
    let searches = transport.searches.lock().unwrap();
    assert_eq!(searches.len(), 1);
    assert_eq!(
        searches[0].url,
        "http://127.0.0.1:9/api/v2/sessions/session-42/search"
    );
    assert_eq!(searches[0].text, "what is the user working on?");
    assert_eq!(searches[0].limit, 3);
    assert_eq!(searches[0].user_id, "alice");
    assert_eq!(searches[0].authorization, Some("Api-Key secret".to_string()));
}

#[test]
fn recall_surfaces_http_errors_as_protocol_errors() {
    let transport = FixedTransport::new(503, "503 Service Unavailable", vec![]);
    let mut client = client(ZepConfig::new("http://127.0.0.1:9", "alice"), &transport);
    let error = client
        .recall("session-42", "anything", 1)
        .expect_err("server 5xx must surface");
    assert!(error.message().contains("503"));
    assert_eq!(
        error.message(),
        "memory protocol error: search returned HTTP 503 Service Unavailable"
    );
}

#[test]
fn ingest_posts_messages_to_expected_endpoint() {
    let transport = FixedTransport::new(200, "200 OK", vec![]);
    let mut client = client(ZepConfig::new("http://127.0.0.1:9", "alice"), &transport);
    let messages = vec![
        MemoryMessage::new(MemoryRole::User, "remember I like Rust"),
        MemoryMessage::new(MemoryRole::Assistant, "noted"),
    ];
    client.ingest("session-42", &messages).expect("ingest");
    let ingests = transport.ingests.lock().unwrap();
    assert_eq!(ingests.len(), 1);
    assert_eq!(
        ingests[0].0.url,
        "http://127.0.0.1:9/api/v2/sessions/session-42/messages"
    );
    assert_eq!(ingests[0].0.user_id, "alice");
    assert_eq!(ingests[0].0.authorization, None);
    assert_eq!(ingests[0].1, messages);
}

#[test]
fn a_transport_that_cannot_be_built_is_an_error_of_the_configuration() {
    let config = ZepConfig::new("http://z", "alice");
    let built: Result<ZepMemoryClient<FixedTransport>, MemoryError> =
        ZepMemoryClient::new(config, |_| Err("no tls".to_string()));
    match built {
        Err(error) => assert_eq!(error.message(), "memory config error: no tls"),
        Ok(_) => panic!("must fail"),
    }
}

#[test]
fn configurations_have_a_timeout_of_five_seconds() {
    let config = ZepConfig::new("http://z", "alice");
    assert_eq!(config.timeout, Duration::from_secs(5));
    assert_eq!(config.api_key, None);
    let other = config
        .clone()
        .with_timeout(Duration::from_millis(10))
        .with_api_key("k");
    assert_eq!(other.timeout, Duration::from_millis(10));
    assert_eq!(other.api_key.clone(), Some("k".to_string()));
    assert_eq!(other.base_url, "http://z");
    assert_eq!(other.clone().api_key, Some("k".to_string()));
    let mut seen = Duration::from_secs(0);
    let made = ZepMemoryClient::new(other, |timeout| {
        seen = timeout;
        Ok(silent())
    });
    assert!(made.is_ok());
    assert_eq!(seen, Duration::from_millis(10));
}

#[test]
fn slashes_at_the_end_of_the_base_do_not_count() {
    let transport = silent();
    let plain = client(ZepConfig::new("http://z/base//", "a"), &transport);
    assert_eq!(plain.url("/x"), "http://z/base/x");
    let slashes = client(ZepConfig::new("///", "a"), &transport);
    assert_eq!(slashes.url("/x"), "/x");
    assert_eq!(plain.authorization(), None);
}

#[test]
fn snippets_prefer_facts_and_skip_blanks() {
    let reply = SearchReply {
        sent: Ok(status(299, "299")),
        body: Ok(vec![
            result(Some("fact"), Some("content")),
            result(Some("  "), Some("hidden")),
            result(None, None),
            result(None, Some("\t\n")),
            result(None, Some("kept ")),
        ]),
    };
    assert_eq!(read_reply(reply, 5).expect("results"), vec!["fact", "kept "]);
}

#[test]
fn answers_that_fail_say_how() {
    let unreadable = SearchReply {
        sent: Ok(status(200, "200 OK")),
        body: Err("not json".to_string()),
    };
    assert_eq!(
        read_reply(unreadable, 5).expect_err("unreadable").message(),
        "memory protocol error: not json"
    );
    let unsent = SearchReply {
        sent: Err("refused".to_string()),
        body: Ok(vec![]),
    };
    assert_eq!(
        read_reply(unsent, 5).expect_err("unsent").message(),
        "memory network error: refused"
    );
    let moved = check_reply(Operation::Ingest, Ok(status(300, "300 Multiple Choices")));
    assert_eq!(
        moved.expect_err("not a success").message(),
        "memory protocol error: ingest returned HTTP 300 Multiple Choices"
    );
    assert!(check_reply(Operation::Ingest, Ok(status(199, "199"))).is_err());
    assert!(check_reply(Operation::Search, Ok(status(200, "200 OK"))).is_ok());
}

#[test]
fn no_more_snippets_come_back_than_were_asked_for() {
    let results = vec![
        result(Some("one"), None),
        result(Some(" "), None),
        result(Some("two"), None),
        result(Some("three"), None),
    ];
    let transport = FixedTransport::new(200, "200 OK", results);
    let mut client = client(ZepConfig::new("http://z", "alice"), &transport);
    assert_eq!(client.recall("s", "q", 1).expect("recall"), vec!["one"]);
    assert_eq!(client.recall("s", "q", 2).expect("recall"), vec!["one", "two"]);
    assert_eq!(client.recall("s", "q", 9).expect("recall").len(), 3);
}
