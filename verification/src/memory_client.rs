//! A client for a memory service: what is asked of the service, and what is
//! made of its answers.

use crate::clock::nanoseconds;
use crate::error::labelled;
use crate::text::blank;
use crate::text::is_blank;
use crate::text::same_text;
use crate::text::trim_end;
use crate::text::trimmed_end;
use crate::text::views;
use std::time::Duration;
use vstd::prelude::*;
use vstd::string::*;

verus! {

/// Who wrote a message.
#[derive(Debug, Clone, Copy, PartialEq, Eq, Structural)]
pub enum MemoryRole {
    System,
    User,
    Assistant,
    Tool,
}

/// A message from which the service is to learn.
#[derive(Debug, Clone, PartialEq, Eq)]
pub struct MemoryMessage {
    pub role: MemoryRole,
    pub content: String,
}

impl MemoryMessage {
    pub fn new(role: MemoryRole, content: &str) -> (r: MemoryMessage)
        ensures
            r.role == role,
            r.content@ == content@,
    {
        MemoryMessage { role, content: content.to_owned() }
    }
}

/// What can go wrong with a memory service.
#[derive(Debug)]
pub enum MemoryError {
    Network(String),
    Protocol(String),
    Config(String),
}

impl MemoryError {
    /// What the error says of itself: a label for its source, and behind it the
    /// message.
    pub fn message(&self) -> (r: String)
        ensures
            match *self {
                MemoryError::Network(message) => r@ == "memory network error: "@ + message@,
                MemoryError::Protocol(message) => r@ == "memory protocol error: "@ + message@,
                MemoryError::Config(message) => r@ == "memory config error: "@ + message@,
            },
    {
        match self {
            MemoryError::Network(message) => labelled("memory network error: ", message.as_str()),
            MemoryError::Protocol(message) => labelled("memory protocol error: ", message.as_str()),
            MemoryError::Config(message) => labelled("memory config error: ", message.as_str()),
        }
    }
}

/// A memory service.
pub trait MemoryClient: Send {
    /// Up to `limit` snippets that bear on a query. None at all is no error.
    fn recall(&mut self, session_id: &str, query: &str, limit: usize) -> (r: Result<
        Vec<String>,
        MemoryError,
    >)
        ensures
            r matches Ok(found) ==> found@.len() <= limit,
    ;

    /// Hand on new messages.
    fn ingest(&mut self, session_id: &str, messages: &[MemoryMessage]) -> Result<(), MemoryError>;
}

/// A client that remembers nothing.
pub struct NoopMemoryClient;

impl MemoryClient for NoopMemoryClient {
    fn recall(&mut self, _session_id: &str, _query: &str, _limit: usize) -> (r: Result<
        Vec<String>,
        MemoryError,
    >)
        ensures
            r matches Ok(snippets) && snippets@.len() == 0,
            *final(self) == *old(self),
    {
        Ok(Vec::new())
    }

    fn ingest(&mut self, _session_id: &str, _messages: &[MemoryMessage]) -> (r: Result<
        (),
        MemoryError,
    >)
        ensures
            r is Ok,
            *final(self) == *old(self),
    {
        Ok(())
    }
}

/// Where a Zep service is, and for whom it is asked.
#[derive(Debug)]
pub struct ZepConfig {
    pub base_url: String,
    pub api_key: Option<String>,
    pub user_id: String,
    pub timeout: Duration,
}

impl Clone for ZepConfig {
    fn clone(&self) -> (r: ZepConfig)
        ensures
            r.base_url@ == self.base_url@,
            r.user_id@ == self.user_id@,
            r.timeout == self.timeout,
            match self.api_key {
                Some(key) => r.api_key matches Some(copy) && copy@ == key@,
                None => r.api_key is None,
            },
    {
        ZepConfig {
            base_url: self.base_url.clone(),
            api_key: match &self.api_key {
                Some(key) => Some(key.as_str().to_owned()),
                None => None,
            },
            user_id: self.user_id.clone(),
            timeout: self.timeout,
        }
    }
}

impl ZepConfig {
    /// A configuration without a key, and with a timeout of five seconds.
    pub fn new(base_url: &str, user_id: &str) -> (r: ZepConfig)
        ensures
            r.base_url@ == base_url@,
            r.user_id@ == user_id@,
            r.api_key is None,
            nanoseconds(r.timeout) == 5_000_000_000,
    {
        ZepConfig {
            base_url: base_url.to_owned(),
            api_key: None,
            user_id: user_id.to_owned(),
            timeout: Duration::from_secs(5),
        }
    }

    pub fn with_api_key(self, api_key: &str) -> (r: ZepConfig)
        ensures
            r.api_key matches Some(key) && key@ == api_key@,
            r.base_url == self.base_url,
            r.user_id == self.user_id,
            r.timeout == self.timeout,
    {
        ZepConfig {
            base_url: self.base_url,
            api_key: Some(api_key.to_owned()),
            user_id: self.user_id,
            timeout: self.timeout,
        }
    }

    pub fn with_timeout(self, timeout: Duration) -> (r: ZepConfig)
        ensures
            r == (ZepConfig { timeout, ..self }),
    {
        ZepConfig {
            base_url: self.base_url,
            api_key: self.api_key,
            user_id: self.user_id,
            timeout,
        }
    }
}

/// The address of a path below a base address, whose slashes at the end do not
/// count.
pub open spec fn address(base_url: Seq<char>, path: Seq<char>) -> Seq<char> {
    trimmed_end(base_url, '/') + path
}

/// The address at which a session is searched.
pub open spec fn search_address(base_url: Seq<char>, session_id: Seq<char>) -> Seq<char> {
    address(base_url, "/api/v2/sessions/"@ + session_id + "/search"@)
}

/// The address at which a session takes messages.
pub open spec fn messages_address(base_url: Seq<char>, session_id: Seq<char>) -> Seq<char> {
    address(base_url, "/api/v2/sessions/"@ + session_id + "/messages"@)
}

/// What a request carries as its authorization.
pub open spec fn is_authorization(api_key: Option<String>, header: Option<String>) -> bool {
    match api_key {
        Some(key) => header matches Some(value) && value@ == "Api-Key "@ + key@,
        None => header is None,
    }
}

/// A search to be sent: where to, with which authorization, and what its body
/// says.
#[derive(Debug, Clone, PartialEq, Eq)]
pub struct SearchRequest {
    pub url: String,
    pub authorization: Option<String>,
    pub text: String,
    pub limit: usize,
    pub user_id: String,
}

/// Messages to be sent: where to, with which authorization, and for whom.
#[derive(Debug, Clone, PartialEq, Eq)]
pub struct IngestRequest {
    pub url: String,
    pub authorization: Option<String>,
    pub user_id: String,
}

/// One result of a search.
#[derive(Debug, Clone, PartialEq, Eq)]
pub struct SearchResult {
    pub fact: Option<String>,
    pub content: Option<String>,
}

/// What was asked of the service.
#[derive(Debug, Clone, Copy, PartialEq, Eq, Structural)]
pub enum Operation {
    Search,
    Ingest,
}

impl Operation {
    pub open spec fn name(self) -> Seq<char> {
        match self {
            Operation::Search => "search"@,
            Operation::Ingest => "ingest"@,
        }
    }
}

/// The status of an answer: its code, and the text by which it is shown.
#[derive(Debug, Clone, PartialEq, Eq)]
pub struct Status {
    pub code: u16,
    pub shown: String,
}

/// Whether a code stands for success.
pub open spec fn is_success(code: u16) -> bool {
    200 <= code <= 299
}

/// The answer to a search. The body is read only where the status stands for
/// success.
#[derive(Debug, PartialEq, Eq)]
pub struct SearchReply {
    pub sent: Result<Status, String>,
    pub body: Result<Vec<SearchResult>, String>,
}

/// What carries requests to the service. A request that cannot be sent is
/// answered by the cause.
pub trait ZepTransport: Send {
    fn search(&self, request: SearchRequest) -> SearchReply;

    fn ingest(&self, request: IngestRequest, messages: &[MemoryMessage]) -> Result<Status, String>;
}

/// Whether a request is the search for a query in a session.
pub open spec fn is_search_request(
    config: ZepConfig,
    session_id: Seq<char>,
    query: Seq<char>,
    limit: usize,
    request: SearchRequest,
) -> bool {
    &&& request.url@ == search_address(config.base_url@, session_id)
    &&& is_authorization(config.api_key, request.authorization)
    &&& request.text@ == query
    &&& request.limit == limit
    &&& request.user_id@ == config.user_id@
}

/// Whether a request is the one that carries messages to a session.
pub open spec fn is_ingest_request(
    config: ZepConfig,
    session_id: Seq<char>,
    request: IngestRequest,
) -> bool {
    &&& request.url@ == messages_address(config.base_url@, session_id)
    &&& is_authorization(config.api_key, request.authorization)
    &&& request.user_id@ == config.user_id@
}

/// Whether a result is what the status of an answer makes of a request: nothing
/// where it stands for success, an error of the protocol where it does not, and
/// an error of the network where the request could not be sent.
pub open spec fn is_checked(
    operation: Operation,
    sent: Result<Status, String>,
    r: Result<(), MemoryError>,
) -> bool {
    match sent {
        Ok(status) => if is_success(status.code) {
            r is Ok
        } else {
            r matches Err(MemoryError::Protocol(message)) && message@ == operation.name()
                + " returned HTTP "@ + status.shown@
        },
        Err(cause) => r matches Err(MemoryError::Network(message)) && message == cause,
    }
}

/// Whether a result is what an answer to a search makes of it: the first `limit`
/// snippets in its body where the status stands for success, an error of the protocol where
/// the body cannot be read, and else the error that belongs to the status.
pub open spec fn is_recalled(
    reply: SearchReply,
    limit: usize,
    r: Result<Vec<String>, MemoryError>,
) -> bool {
    match reply.sent {
        Ok(status) => if is_success(status.code) {
            match reply.body {
                Ok(results) => r matches Ok(found) && views(found@) == first_of(
                    snippets(results@),
                    limit as nat,
                ),
                Err(cause) => r matches Err(MemoryError::Protocol(message)) && message == cause,
            }
        } else {
            r matches Err(MemoryError::Protocol(message)) && message@ == "search"@
                + " returned HTTP "@ + status.shown@
        },
        Err(cause) => r matches Err(MemoryError::Network(message)) && message == cause,
    }
}

/// Whether an answer may be read.
pub fn check_reply(operation: Operation, sent: Result<Status, String>) -> (r: Result<
    (),
    MemoryError,
>)
    ensures
        is_checked(operation, sent, r),
        sent matches Ok(status) ==> (r is Ok <==> 200 <= status.code <= 299),
        sent is Ok && r is Err ==> r->Err_0 is Protocol,
        sent is Err ==> r matches Err(MemoryError::Network(_)),
{
    match sent {
        Ok(status) => if 200 <= status.code && status.code <= 299 {
            Ok(())
        } else {
            let name: &str = match operation {
                Operation::Search => "search",
                Operation::Ingest => "ingest",
            };
            let mut message: String = labelled(name, " returned HTTP ");
            message.append(status.shown.as_str());
            Err(MemoryError::Protocol(message))
        },
        Err(cause) => Err(MemoryError::Network(cause)),
    }
}

/// What an answer to a search makes of it.
pub fn read_reply(reply: SearchReply, limit: usize) -> (r: Result<Vec<String>, MemoryError>)
    ensures
        is_recalled(reply, limit, r),
        r is Ok <==> (reply.sent matches Ok(status) && 200 <= status.code <= 299) && reply.body
            is Ok,
        reply.sent is Ok && r is Err ==> r->Err_0 is Protocol,
        reply.sent is Err ==> r matches Err(MemoryError::Network(_)),
{
    match check_reply(Operation::Search, reply.sent) {
        Ok(()) => match reply.body {
            Ok(results) => Ok(pick_snippets(results, limit)),
            Err(cause) => Err(MemoryError::Protocol(cause)),
        },
        Err(error) => Err(error),
    }
}

/// A client of the Zep service.
pub struct ZepMemoryClient<T: ZepTransport> {
    pub config: ZepConfig,
    pub transport: T,
}

impl<T: ZepTransport> ZepMemoryClient<T> {
    /// A client for a configuration that says where the service is, and for
    /// whom it is asked. `build` makes the transport for a timeout.
    pub fn new<B: FnOnce(Duration) -> Result<T, String>>(config: ZepConfig, build: B) -> (r: Result<
        ZepMemoryClient<T>,
        MemoryError,
    >)
        requires
            call_requires(build, (config.timeout,)),
        ensures
            config.base_url@.len() == 0 ==> {
                &&& r matches Err(MemoryError::Config(message))
                &&& message@ == "base_url is empty"@
            },
            config.base_url@.len() > 0 && config.user_id@.len() == 0 ==> {
                &&& r matches Err(MemoryError::Config(message))
                &&& message@ == "user_id is empty"@
            },
            config.base_url@.len() > 0 && config.user_id@.len() > 0 ==> exists|
                built: Result<T, String>,
            |
                #[trigger] call_ensures(build, (config.timeout,), built) && match built {
                    Ok(transport) => r == Ok::<ZepMemoryClient<T>, MemoryError>(
                        ZepMemoryClient { config, transport },
                    ),
                    Err(cause) => r == Err::<ZepMemoryClient<T>, MemoryError>(
                        MemoryError::Config(cause),
                    ),
                },
    {
        proof {
            reveal_strlit("");
            assert(forall|s: Seq<char>| s.len() == 0 ==> s =~= ""@);
        }
        if same_text(config.base_url.as_str(), "") {
            return Err(MemoryError::Config("base_url is empty".to_owned()));
        }
        if same_text(config.user_id.as_str(), "") {
            return Err(MemoryError::Config("user_id is empty".to_owned()));
        }
        match build(config.timeout) {
            Ok(transport) => Ok(ZepMemoryClient { config, transport }),
            Err(cause) => Err(MemoryError::Config(cause)),
        }
    }

    /// The address of a path of the service.
    pub fn url(&self, path: &str) -> (r: String)
        ensures
            r@ == address(self.config.base_url@, path@),
    {
        let mut r: String = trim_end(self.config.base_url.as_str(), '/');
        r.append(path);
        r
    }

    /// What a request carries as its authorization, where there is a key.
    pub fn authorization(&self) -> (r: Option<String>)
        ensures
            is_authorization(self.config.api_key, r),
    {
        match &self.config.api_key {
            Some(key) => Some(labelled("Api-Key ", key.as_str())),
            None => None,
        }
    }

    fn session_path(session_id: &str, end: &str) -> (r: String)
        ensures
            r@ == "/api/v2/sessions/"@ + session_id@ + end@,
    {
        let mut r: String = labelled("/api/v2/sessions/", session_id);
        r.append(end);
        r
    }

    /// The search for a query. Nothing is to be sent for a blank query or a
    /// limit of zero.
    pub fn recall_request(&self, session_id: &str, query: &str, limit: usize) -> (r: Option<
        SearchRequest,
    >)
        ensures
            (r is None) == (blank(query@) || limit == 0),
            r matches Some(request) ==> is_search_request(
                self.config,
                session_id@,
                query@,
                limit,
                request,
            ),
    {
        if is_blank(query) || limit == 0 {
            return None;
        }
        let path: String = Self::session_path(session_id, "/search");
        Some(
            SearchRequest {
                url: self.url(path.as_str()),
                authorization: self.authorization(),
                text: query.to_owned(),
                limit,
                user_id: self.config.user_id.clone(),
            },
        )
    }

    /// The request that carries messages. Nothing is to be sent where there are
    /// none.
    pub fn ingest_request(&self, session_id: &str, messages: &[MemoryMessage]) -> (r: Option<
        IngestRequest,
    >)
        ensures
            (r is None) == (messages@.len() == 0),
            r matches Some(request) ==> is_ingest_request(self.config, session_id@, request),
    {
        if messages.len() == 0 {
            return None;
        }
        let path: String = Self::session_path(session_id, "/messages");
        Some(
            IngestRequest {
                url: self.url(path.as_str()),
                authorization: self.authorization(),
                user_id: self.config.user_id.clone(),
            },
        )
    }
}

impl<T: ZepTransport> MemoryClient for ZepMemoryClient<T> {
    fn recall(&mut self, session_id: &str, query: &str, limit: usize) -> (r: Result<
        Vec<String>,
        MemoryError,
    >)
        ensures
            blank(query@) || limit == 0 ==> (r matches Ok(found) && found@.len() == 0),
            !blank(query@) && limit > 0 ==> exists|request: SearchRequest, reply: SearchReply|
                {
                    &&& is_search_request(old(self).config, session_id@, query@, limit, request)
                    &&& #[trigger] call_ensures(T::search, (&old(self).transport, request), reply)
                    &&& is_recalled(reply, limit, r)
                    &&& r is Ok ==> (reply.sent matches Ok(status) && 200 <= status.code <= 299)
                },
            *final(self) == *old(self),
    {
        match self.recall_request(session_id, query, limit) {
            Some(request) => {
                let r: Result<Vec<String>, MemoryError> = read_reply(
                    self.transport.search(request),
                    limit,
                );
                assert(r matches Ok(found) ==> found@.len() == views(found@).len());
                r
            },
            None => Ok(Vec::new()),
        }
    }

    fn ingest(&mut self, session_id: &str, messages: &[MemoryMessage]) -> (r: Result<
        (),
        MemoryError,
    >)
        ensures
            messages@.len() == 0 ==> r is Ok,
            messages@.len() > 0 ==> exists|request: IngestRequest, sent: Result<Status, String>|
                {
                    &&& is_ingest_request(old(self).config, session_id@, request)
                    &&& #[trigger] call_ensures(
                        T::ingest,
                        (&old(self).transport, request, messages),
                        sent,
                    )
                    &&& is_checked(Operation::Ingest, sent, r)
                    &&& sent matches Ok(status) ==> (r is Ok <==> 200 <= status.code <= 299)
                    &&& sent is Err ==> r is Err
                },
            *final(self) == *old(self),
    {
        match self.ingest_request(session_id, messages) {
            Some(request) => check_reply(
                Operation::Ingest,
                self.transport.ingest(request, messages),
            ),
            None => Ok(()),
        }
    }
}

/// The text of a result: the fact, and where there is none the content.
pub open spec fn snippet(result: SearchResult) -> Option<Seq<char>> {
    match (result.fact, result.content) {
        (Some(fact), _) => Some(fact@),
        (None, Some(content)) => Some(content@),
        (None, None) => None,
    }
}

/// The texts of results, without those that are blank or missing.
pub open spec fn snippets(results: Seq<SearchResult>) -> Seq<Seq<char>>
    decreases results.len(),
{
    if results.len() == 0 {
        Seq::empty()
    } else {
        let before = snippets(results.drop_last());
        match snippet(results.last()) {
            Some(text) => if blank(text) {
                before
            } else {
                before.push(text)
            },
            None => before,
        }
    }
}

/// The first texts of a list, at most `limit` of them.
pub open spec fn first_of(texts: Seq<Seq<char>>, limit: nat) -> Seq<Seq<char>> {
    if texts.len() <= limit {
        texts
    } else {
        texts.take(limit as int)
    }
}

fn pick_snippets(results: Vec<SearchResult>, limit: usize) -> (r: Vec<String>)
    ensures
        views(r@) == first_of(snippets(results@), limit as nat),
{
    let mut r: Vec<String> = Vec::new();
    assert(views(r@) =~= Seq::empty());
    let ghost all = results@;
    for result in it: results
        invariant
            it.seq() == all,
            views(r@) == first_of(snippets(all.take(it.index() as int)), limit as nat),
    {
        let ghost before = views(r@);
        let ghost (seen, more) = (
            snippets(all.take(it.index() as int)),
            snippets(all.take(it.index() + 1)),
        );
        proof {
            let n = it.index() as int;
            assert(all.take(n + 1).drop_last() =~= all.take(n));
            assert(all.take(n + 1).last() == result);
            assert(r@.len() == views(r@).len());
        }
        let text: Option<String> = match result.fact {
            Some(fact) => Some(fact),
            None => result.content,
        };
        if let Some(text) = text {
            if !is_blank(text.as_str()) && r.len() < limit {
                r.push(text);
                assert(views(r@) =~= before.push(text@));
            }
        }
        assert(views(r@) =~= first_of(more, limit as nat));
    }
    assert(all.take(all.len() as int) =~= all);
    r
}

/// No snippet is blank.
pub proof fn lemma_snippets_are_not_blank(results: Seq<SearchResult>, i: int)
    requires
        0 <= i < snippets(results).len(),
    ensures
        !blank(snippets(results)[i]),
    decreases results.len(),
{
    if results.len() > 0 {
        if i < snippets(results.drop_last()).len() {
            lemma_snippets_are_not_blank(results.drop_last(), i);
        }
    }
}

/// Messages count as taken if, and only if, the service answered with a status from
/// 200 to 299. Every other status is an error of the protocol that shows it, and a
/// request that was not sent an error of the network.
pub proof fn lemma_taken_means_a_status_in_the_two_hundreds(
    operation: Operation,
    sent: Result<Status, String>,
    r: Result<(), MemoryError>,
)
    requires
        is_checked(operation, sent, r),
    ensures
        sent matches Ok(status) ==> (r is Ok <==> 200 <= status.code && status.code <= 299),
        sent matches Ok(status) ==> (status.code < 200 || status.code > 299 ==> (r matches Err(
            MemoryError::Protocol(message),
        ) && message@ == (match operation {
            Operation::Search => "search"@,
            Operation::Ingest => "ingest"@,
        }) + " returned HTTP "@ + status.shown@)),
        sent matches Err(cause) ==> (r matches Err(MemoryError::Network(message)) && message@
            == cause@),
{
}

/// A search finds something only where the service answered with a status from 200
/// to 299 and a body that can be read. Every other status, and every other body, is
/// an error of the protocol, and a request that was not sent an error of the
/// network.
pub proof fn lemma_found_means_a_status_in_the_two_hundreds(
    reply: SearchReply,
    limit: usize,
    r: Result<Vec<String>, MemoryError>,
)
    requires
        is_recalled(reply, limit, r),
    ensures
        reply.sent matches Ok(status) ==> (status.code < 200 || status.code > 299 ==> (
        r matches Err(MemoryError::Protocol(message)) && message@ == "search"@
            + " returned HTTP "@ + status.shown@)),
        reply.sent matches Ok(status) ==> (200 <= status.code && status.code <= 299 ==> (r is Ok
            <==> reply.body is Ok)),
        reply.sent matches Ok(status) ==> (200 <= status.code && status.code <= 299
            && reply.body is Err ==> (r matches Err(MemoryError::Protocol(message)) && message
            == reply.body->Err_0)),
        reply.sent matches Err(cause) ==> (r matches Err(MemoryError::Network(message)) && message@
            == cause@),
{
}

/// A result gives its fact, or its content where it has no fact, unless that is
/// blank.
pub proof fn lemma_snippet_of_one_result(result: SearchResult)
    ensures
        result.fact matches Some(fact) ==> snippets(seq![result]) == if blank(fact@) {
            Seq::<Seq<char>>::empty()
        } else {
            seq![fact@]
        },
        result.fact is None ==> (result.content matches Some(content) ==> snippets(seq![result])
            == if blank(content@) {
            Seq::<Seq<char>>::empty()
        } else {
            seq![content@]
        }),
        result.fact is None && result.content is None ==> snippets(seq![result]).len() == 0,
{
    let one = seq![result];
    assert(one.drop_last() =~= Seq::empty());
    assert(snippets(one.drop_last()) =~= Seq::<Seq<char>>::empty());
    reveal_with_fuel(snippets, 2);
    assert(forall|text: Seq<char>| Seq::<Seq<char>>::empty().push(text) =~= seq![text]);
}

/// Results give their snippets one behind the other.
pub proof fn lemma_snippets_of_two_lists(a: Seq<SearchResult>, b: Seq<SearchResult>)
    ensures
        snippets(a + b) == snippets(a) + snippets(b),
    decreases b.len(),
{
    if b.len() == 0 {
        assert(a + b =~= a);
        assert(snippets(a) + snippets(b) =~= snippets(a));
    } else {
        lemma_snippets_of_two_lists(a, b.drop_last());
        assert((a + b).drop_last() =~= a + b.drop_last());
        assert((a + b).last() == b.last());
        assert(snippets(a + b) =~= snippets(a) + snippets(b));
    }
}

/// What is recalled are the first snippets of an answer, all of them where the limit
/// allows it, and as many as the limit where it does not.
pub proof fn lemma_recall_takes_the_first_snippets(
    results: Seq<SearchResult>,
    reply: SearchReply,
    limit: usize,
    found: Vec<String>,
)
    requires
        is_recalled(reply, limit, Ok(found)),
        reply.body matches Ok(body) && body@ == results,
    ensures
        found@.len() <= limit,
        found@.len() <= snippets(results).len(),
        found@.len() == limit || found@.len() == snippets(results).len(),
        forall|i: int| 0 <= i < found@.len() ==> (#[trigger] found@[i])@ == snippets(results)[i],
{
    assert(found@.len() == views(found@).len());
    assert forall|i: int| 0 <= i < found@.len() implies (#[trigger] found@[i])@ == snippets(
        results,
    )[i] by {
        assert(views(found@)[i] == found@[i]@);
    }
}

/// Addresses are made of the base address without slashes at its end, the session and
/// the name of what is asked.
pub proof fn lemma_addresses(base_url: Seq<char>, session_id: Seq<char>)
    requires
        base_url.len() > 0 ==> base_url.last() != '/',
    ensures
        search_address(base_url, session_id) == base_url + "/api/v2/sessions/"@ + session_id
            + "/search"@,
        messages_address(base_url, session_id) == base_url + "/api/v2/sessions/"@ + session_id
            + "/messages"@,
{
    assert(search_address(base_url, session_id) =~= base_url + "/api/v2/sessions/"@ + session_id
        + "/search"@);
    assert(messages_address(base_url, session_id) =~= base_url + "/api/v2/sessions/"@ + session_id
        + "/messages"@);
}

/// A slash at the end of the base address changes no address.
pub proof fn lemma_slash_at_the_end(base_url: Seq<char>, session_id: Seq<char>)
    ensures
        search_address(base_url.push('/'), session_id) == search_address(base_url, session_id),
        messages_address(base_url.push('/'), session_id) == messages_address(base_url, session_id),
{
    assert(base_url.push('/').drop_last() =~= base_url);
}

/// A search asks for the query, the limit and the user that were given, at the address
/// of the session, with the key where there is one.
pub proof fn lemma_search_carries_the_query(
    config: ZepConfig,
    session_id: Seq<char>,
    query: Seq<char>,
    limit: usize,
    request: SearchRequest,
)
    requires
        is_search_request(config, session_id, query, limit, request),
    ensures
        request.text@ == query,
        request.limit == limit,
        request.user_id@ == config.user_id@,
        config.base_url@.len() > 0 && config.base_url@.last() != '/' ==> request.url@
            == config.base_url@ + "/api/v2/sessions/"@ + session_id + "/search"@,
        config.api_key matches Some(key) ==> (request.authorization matches Some(header)
            && header@ == "Api-Key "@ + key@),
        config.api_key is None ==> request.authorization is None,
{
    if config.base_url@.len() > 0 && config.base_url@.last() != '/' {
        lemma_addresses(config.base_url@, session_id);
    }
}

/// Messages go to the address of the session, for the user that was given, with the
/// key where there is one.
pub proof fn lemma_ingest_goes_to_the_session(
    config: ZepConfig,
    session_id: Seq<char>,
    request: IngestRequest,
)
    requires
        is_ingest_request(config, session_id, request),
    ensures
        request.user_id@ == config.user_id@,
        config.base_url@.len() > 0 && config.base_url@.last() != '/' ==> request.url@
            == config.base_url@ + "/api/v2/sessions/"@ + session_id + "/messages"@,
        config.api_key matches Some(key) ==> (request.authorization matches Some(header)
            && header@ == "Api-Key "@ + key@),
        config.api_key is None ==> request.authorization is None,
{
    if config.base_url@.len() > 0 && config.base_url@.last() != '/' {
        lemma_addresses(config.base_url@, session_id);
    }
}

} // verus!
