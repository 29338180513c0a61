//! The decisions of the resilient fetch client: which response ends a fetch,
//! when to back off and retry, which endpoint a response was served for, and
//! how many fetches of a round may run at once.

use vstd::prelude::*;

verus! {

/// The address under which every article endpoint lies.
pub const BASE_URL: &'static str = "https://en.wikipedia.org/wiki/";

/// The endpoint that the service answers with a random article.
pub const RANDOM_ARTICLE_ENDPOINT: &'static str = "Special:Random";

/// How many requests one fetch sends at most.
pub const MAX_RETRIES: usize = 5;

/// The status code of a missing article.
pub const NOT_FOUND: u16 = 404;

/// How many requests the admission pool lets run at once.
pub const CONNECTION_PERMITS: usize = 100;

/// How many fetches of one round are started together.
pub const MAX_CONCURRENT_FETCHES: usize = 32;

/// Why a fetch failed.
#[derive(Debug, Clone)]
pub enum ClientError {
    /// No attempt was made.
    Default,
    /// The transport failed; the message describes how.
    RequestError(String),
    /// The service answered with this non-success status code.
    StatusCodeError(u16),
    /// The final URL lies outside the article namespace of the site.
    RedirectError,
    /// The admission pool could not be entered.
    SemaphoreAcquireError,
}

impl ClientError {
    /// The status code that the service answered with, if that is the error.
    pub fn status_code(&self) -> (r: Option<u16>)
        ensures
            r == match self {
                ClientError::StatusCodeError(code) => Some(*code),
                _ => None::<u16>,
            },
    {
        match self {
            ClientError::StatusCodeError(code) => Some(*code),
            _ => None,
        }
    }
}

/// Whether a failed attempt ends the fetch at once instead of being retried:
/// a missing article, or an admission pool that cannot be entered.
pub open spec fn is_terminal(e: ClientError) -> bool {
    e == ClientError::StatusCodeError(NOT_FOUND) || e == ClientError::SemaphoreAcquireError
}

/// What to do before a try.
#[derive(Debug)]
pub enum BeforeAttempt {
    /// Send the request.
    Send,
    /// Another worker is backing off: sleep the retry interval, then ask again.
    Wait,
    /// The tries are used up: the fetch fails with this error.
    GiveUp(ClientError),
}

/// What to do after a response, or a failure to get one.
#[derive(Debug)]
pub enum AfterResponse {
    /// The response is good.
    Accept,
    /// The fetch fails with this error, without another try.
    Fail(ClientError),
    /// Raise the backoff signal, sleep the retry interval, lower the signal,
    /// and try again.
    BackOff,
}

/// The state of one fetch's retry loop: requests sent, and the last error
/// seen.
pub struct RetryPolicy {
    pub attempts: usize,
    pub last_error: ClientError,
}

pub struct RetryView {
    pub attempts: nat,
    pub last_error: ClientError,
}

impl View for RetryPolicy {
    type V = RetryView;

    open spec fn view(&self) -> RetryView {
        RetryView { attempts: self.attempts as nat, last_error: self.last_error }
    }
}

/// The decision before a try, seeing whether the backoff signal is raised.
/// A worker that sees the signal raised waits without using up a try; the
/// fetch gives up only once `MAX_RETRIES` requests have been sent.
pub open spec fn before_spec(p: RetryView, backoff_signal: bool) -> (RetryView, BeforeAttempt) {
    if p.attempts >= MAX_RETRIES {
        (p, BeforeAttempt::GiveUp(p.last_error))
    } else if backoff_signal {
        (p, BeforeAttempt::Wait)
    } else {
        (RetryView { attempts: p.attempts + 1, last_error: p.last_error }, BeforeAttempt::Send)
    }
}

/// The decision after a sent request.
pub open spec fn after_spec(p: RetryView, outcome: Result<(), ClientError>) -> (
    RetryView,
    AfterResponse,
) {
    match outcome {
        Ok(()) => (p, AfterResponse::Accept),
        Err(e) => if is_terminal(e) {
            (RetryView { attempts: p.attempts, last_error: e }, AfterResponse::Fail(e))
        } else {
            (RetryView { attempts: p.attempts, last_error: e }, AfterResponse::BackOff)
        },
    }
}

/// A fetch run with the backoff signal lowered throughout, the `i`-th sent
/// request meeting `responses[i]`: the number of requests sent, the number
/// of backoff sleeps, and how the fetch ends.
pub open spec fn run_fetch(p: RetryView, responses: Seq<Result<(), ClientError>>) -> (
    nat,
    nat,
    Result<(), ClientError>,
)
    decreases MAX_RETRIES - p.attempts,
{
    let (q, before) = before_spec(p, false);
    match before {
        BeforeAttempt::GiveUp(e) => (0, 0, Err(e)),
        BeforeAttempt::Wait => (0, 0, Err(q.last_error)),
        BeforeAttempt::Send => {
            if responses.len() == 0 {
                (0, 0, Err(q.last_error))
            } else {
                let (q2, after) = after_spec(q, responses[0]);
                match after {
                    AfterResponse::Accept => (1, 0, Ok(())),
                    AfterResponse::Fail(e) => (1, 0, Err(e)),
                    AfterResponse::BackOff => {
                        let (n, b, r) = run_fetch(q2, responses.drop_first());
                        (n + 1, b + 1, r)
                    },
                }
            }
        },
    }
}

impl RetryPolicy {
    /// A fetch that has made no try yet.
    pub fn new() -> (r: Self)
        ensures
            r@ == (RetryView { attempts: 0, last_error: ClientError::Default }),
    {
        RetryPolicy { attempts: 0, last_error: ClientError::Default }
    }

    /// Decides what to do before a try.
    pub fn before_attempt(&mut self, backoff_signal: bool) -> (r: BeforeAttempt)
        ensures
            (final(self)@, r) == before_spec(old(self)@, backoff_signal),
    {
        if self.attempts >= MAX_RETRIES {
            return BeforeAttempt::GiveUp(self.last_error.clone_error());
        }
        if backoff_signal {
            return BeforeAttempt::Wait;
        }
        self.attempts = self.attempts + 1;
        BeforeAttempt::Send
    }

    /// Decides what to do after a sent request, or a failure to send it.
    pub fn after_response(&mut self, outcome: Result<(), ClientError>) -> (r: AfterResponse)
        ensures
            (final(self)@, r) == after_spec(old(self)@, outcome),
    {
        match outcome {
            Ok(()) => AfterResponse::Accept,
            Err(e) => {
                let terminal = match &e {
                    ClientError::StatusCodeError(code) => *code == NOT_FOUND,
                    ClientError::SemaphoreAcquireError => true,
                    _ => false,
                };
                self.last_error = e.clone_error();
                if terminal {
                    AfterResponse::Fail(e)
                } else {
                    AfterResponse::BackOff
                }
            },
        }
    }
}

impl ClientError {
    /// A copy of the error.
    pub fn clone_error(&self) -> (r: ClientError)
        ensures
            r == *self,
    {
        match self {
            ClientError::Default => ClientError::Default,
            ClientError::RequestError(m) => ClientError::RequestError(m.clone()),
            ClientError::StatusCodeError(code) => ClientError::StatusCodeError(*code),
            ClientError::RedirectError => ClientError::RedirectError,
            ClientError::SemaphoreAcquireError => ClientError::SemaphoreAcquireError,
        }
    }
}

/// A not-found answer ends the fetch after its single request.
pub proof fn lemma_not_found_is_tried_once(responses: Seq<Result<(), ClientError>>)
    requires
        responses.len() > 0,
        responses[0] == Err::<(), ClientError>(ClientError::StatusCodeError(NOT_FOUND)),
    ensures
        run_fetch(RetryView { attempts: 0, last_error: ClientError::Default }, responses) == (
            1nat,
            0nat,
            Err::<(), ClientError>(ClientError::StatusCodeError(NOT_FOUND)),
        ),
{
}

/// A failure that is not terminal and persists is tried exactly
/// `MAX_RETRIES` times, each try followed by a backoff sleep, and the fetch
/// then fails with the last error.
pub proof fn lemma_transient_failure_is_tried_max_times(
    responses: Seq<Result<(), ClientError>>,
)
    requires
        responses.len() >= MAX_RETRIES,
        forall|i: int|
            0 <= i < responses.len() ==> (#[trigger] responses[i]) is Err && !is_terminal(
                responses[i]->Err_0,
            ),
    ensures
        run_fetch(RetryView { attempts: 0, last_error: ClientError::Default }, responses) == (
            MAX_RETRIES as nat,
            MAX_RETRIES as nat,
            responses[MAX_RETRIES - 1],
        ),
{
    lemma_transient_run(RetryView { attempts: 0, last_error: ClientError::Default }, responses);
}

proof fn lemma_transient_run(p: RetryView, responses: Seq<Result<(), ClientError>>)
    requires
        p.attempts <= MAX_RETRIES,
        responses.len() >= MAX_RETRIES - p.attempts,
        forall|i: int|
            0 <= i < responses.len() ==> (#[trigger] responses[i]) is Err && !is_terminal(
                responses[i]->Err_0,
            ),
    ensures
        run_fetch(p, responses) == if p.attempts == MAX_RETRIES {
            (0nat, 0nat, Err::<(), ClientError>(p.last_error))
        } else {
            (
                (MAX_RETRIES - p.attempts) as nat,
                (MAX_RETRIES - p.attempts) as nat,
                responses[MAX_RETRIES - p.attempts - 1],
            )
        },
    decreases MAX_RETRIES - p.attempts,
{
    if p.attempts < MAX_RETRIES {
        let q = RetryView { attempts: p.attempts + 1, last_error: responses[0]->Err_0 };
        let rest = responses.drop_first();
        assert forall|i: int| 0 <= i < rest.len() implies (#[trigger] rest[i]) is Err && !is_terminal(
            rest[i]->Err_0,
        ) by {
            assert(rest[i] == responses[i + 1]);
        }
        lemma_transient_run(q, rest);
        if q.attempts < MAX_RETRIES {
            assert(rest[MAX_RETRIES - q.attempts - 1] == responses[MAX_RETRIES - p.attempts - 1]);
        }
    }
}

/// Relies on `str::strip_prefix`: the rest of `s` after `prefix`, if `s`
/// starts with it.
#[verifier::external_body]
pub(crate) fn strip_prefix<'a>(s: &'a str, prefix: &str) -> (r: Option<&'a str>)
    ensures
        r is Some <==> prefix@.is_prefix_of(s@),
        r matches Some(t) ==> t@ == s@.skip(prefix@.len() as int),
{
    s.strip_prefix(prefix)
}

/// The address of an article endpoint.
pub fn article_url(article_name: &str) -> (r: String)
    ensures
        r@ == BASE_URL@ + article_name@,
{
    let mut url = String::from_str(BASE_URL);
    url.append(article_name);
    url
}

/// The endpoint that a response was served for, read from its final URL; a
/// URL outside the article namespace is a redirect off the site.
pub fn endpoint_of_url(final_url: &str) -> (r: Result<String, ClientError>)
    ensures
        match r {
            Ok(e) => BASE_URL@.is_prefix_of(final_url@) && e@ == final_url@.skip(
                BASE_URL@.len() as int,
            ),
            Err(e) => !BASE_URL@.is_prefix_of(final_url@) && e == ClientError::RedirectError,
        },
{
    match strip_prefix(final_url, BASE_URL) {
        Some(rest) => Ok(rest.to_owned()),
        None => Err(ClientError::RedirectError),
    }
}

/// Splits the endpoints of a round into groups of at most `cap`, in order;
/// each group is fetched together and the next group starts only after it.
pub fn admission_batches(endpoints: &Vec<String>, cap: usize) -> (r: Vec<Vec<String>>)
    requires
        cap > 0,
    ensures
        forall|i: int| 0 <= i < r@.len() ==> 0 < (#[trigger] r@[i])@.len() <= cap,
        r@.map_values(|b: Vec<String>| b@).flatten() == endpoints@,
{
    let mut batches: Vec<Vec<String>> = Vec::new();
    let mut current: Vec<String> = Vec::new();
    let mut i: usize = 0;
    while i < endpoints.len()
        invariant
            i <= endpoints@.len(),
            cap > 0,
            current@.len() < cap,
            forall|j: int| 0 <= j < batches@.len() ==> 0 < (#[trigger] batches@[j])@.len() <= cap,
            batches@.map_values(|b: Vec<String>| b@).flatten() + current@ == endpoints@.take(i as int),
        decreases endpoints.len() - i,
    {
        let ghost before = batches@.map_values(|b: Vec<String>| b@);
        current.push(endpoints[i].clone());
        if current.len() == cap {
            let full = current;
            current = Vec::new();
            batches.push(full);
            proof {
                let after = batches@.map_values(|b: Vec<String>| b@);
                assert(after =~= before.push(full@));
                before.lemma_flatten_push(full@);
            }
        }
        assert(endpoints@.take(i + 1) =~= endpoints@.take(i as int).push(endpoints@[i as int]));
        i = i + 1;
    }
    if current.len() > 0 {
        let ghost before = batches@.map_values(|b: Vec<String>| b@);
        batches.push(current);
        proof {
            let after = batches@.map_values(|b: Vec<String>| b@);
            assert(after =~= before.push(current@));
            before.lemma_flatten_push(current@);
        }
    } else {
        assert(current@ =~= Seq::<String>::empty());
        assert(batches@.map_values(|b: Vec<String>| b@).flatten() + current@ =~= batches@.map_values(
            |b: Vec<String>| b@,
        ).flatten());
    }
    assert(endpoints@.take(endpoints@.len() as int) =~= endpoints@);
    batches
}

} // verus!
