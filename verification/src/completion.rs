//! The completion client's decision logic: the fixed prompt pair, the
//! bounded retry policy on rate limiting (two retries with a fixed backoff,
//! three attempts in all), and the reading of a successful response's first
//! choice.

use vstd::prelude::*;

verus! {

use crate::error::FetchError;

/// Token cap of every completion request.
pub const COMPLETION_MAX_TOKENS: u32 = 1024;

/// Seconds waited before a retry after rate limiting.
pub const COMPLETION_BACKOFF_SECS: u32 = 10;

/// Retries allowed on rate limiting (attempts in all: this plus one).
pub const COMPLETION_MAX_RETRIES: u32 = 2;

/// One role-tagged prompt message.
pub struct ChatMessage {
    pub role: String,
    pub content: String,
}

/// The fixed model id of every completion request.
pub fn completion_model() -> (r: String)
    ensures
        r@ == "llama-3.3-70b-versatile"@,
{
    "llama-3.3-70b-versatile".to_owned()
}

/// The fixed prompt pair: a system message then a user message.
pub fn completion_messages(system_prompt: String, user_prompt: String) -> (r: Vec<ChatMessage>)
    ensures
        r@.len() == 2,
        r@[0].role@ == "system"@,
        r@[0].content@ == system_prompt@,
        r@[1].role@ == "user"@,
        r@[1].content@ == user_prompt@,
{
    let mut v: Vec<ChatMessage> = Vec::new();
    v.push(ChatMessage { role: "system".to_owned(), content: system_prompt });
    v.push(ChatMessage { role: "user".to_owned(), content: user_prompt });
    v
}

/// How many retries have been spent so far in one completion call.
pub struct RetryState {
    pub attempts: u32,
}

/// What the caller must do next after one HTTP attempt.
pub enum CompletionStep {
    /// Wait `backoff_secs`, then send the request again under `next`.
    Retry { next: RetryState, backoff_secs: u32 },
    /// Terminal failure.
    Fail(FetchError),
    /// Terminal success: the response body to read choices from.
    Succeed(String),
}

/// The retry policy. A network failure and any non-429 error status are
/// terminal at once; a 429 retries (after the fixed backoff) until the
/// budget of two retries is spent, then surfaces as `RateLimited`.
pub open spec fn completion_step_spec(
    st: RetryState,
    outcome: Result<(u16, String), String>,
) -> CompletionStep {
    match outcome {
        Err(e) => CompletionStep::Fail(FetchError::Network(e)),
        Ok((code, body)) => {
            if code == 429 && st.attempts < 2 {
                CompletionStep::Retry {
                    next: (RetryState { attempts: (st.attempts + 1) as u32 }),
                    backoff_secs: 10,
                }
            } else if code == 429 {
                CompletionStep::Fail(FetchError::RateLimited { status: 429, body })
            } else if 200 <= code && code <= 299 {
                CompletionStep::Succeed(body)
            } else {
                CompletionStep::Fail(FetchError::Protocol { status: code, body })
            }
        }
    }
}

/// Decide the next step from the outcome of one HTTP attempt: either a
/// transport error or a status code with the response body.
pub fn completion_step(st: RetryState, outcome: Result<(u16, String), String>) -> (r:
    CompletionStep)
    ensures
        r == completion_step_spec(st, outcome),
{
    match outcome {
        Err(e) => CompletionStep::Fail(FetchError::Network(e)),
        Ok((code, body)) => {
            if code == 429 && st.attempts < 2 {
                CompletionStep::Retry {
                    next: RetryState { attempts: st.attempts + 1 },
                    backoff_secs: 10,
                }
            } else if code == 429 {
                CompletionStep::Fail(FetchError::RateLimited { status: 429, body })
            } else if 200 <= code && code <= 299 {
                CompletionStep::Succeed(body)
            } else {
                CompletionStep::Fail(FetchError::Protocol { status: code, body })
            }
        }
    }
}

/// Two rate-limited responses spend the retry budget on two fixed backoffs,
/// and a following success still delivers its body.
pub proof fn lemma_retry_twice_then_success(b1: String, b2: String, code: u16, body: String)
    requires
        200 <= code <= 299,
    ensures
        ({
            let s0 = (RetryState { attempts: 0 });
            let s1 = (RetryState { attempts: 1 });
            let s2 = (RetryState { attempts: 2 });
            &&& completion_step_spec(s0, Ok((429, b1))) == (CompletionStep::Retry {
                next: s1,
                backoff_secs: 10,
            })
            &&& completion_step_spec(s1, Ok((429, b2))) == (CompletionStep::Retry {
                next: s2,
                backoff_secs: 10,
            })
            &&& completion_step_spec(s2, Ok((code, body))) == CompletionStep::Succeed(body)
        }),
{
}

/// Three consecutive rate-limited responses exhaust the budget: the third is
/// terminal, so no fourth attempt happens.
pub proof fn lemma_rate_limited_after_three(b1: String, b2: String, b3: String)
    ensures
        ({
            let s0 = (RetryState { attempts: 0 });
            let s1 = (RetryState { attempts: 1 });
            let s2 = (RetryState { attempts: 2 });
            &&& completion_step_spec(s0, Ok((429, b1))) == (CompletionStep::Retry {
                next: s1,
                backoff_secs: 10,
            })
            &&& completion_step_spec(s1, Ok((429, b2))) == (CompletionStep::Retry {
                next: s2,
                backoff_secs: 10,
            })
            &&& completion_step_spec(s2, Ok((429, b3))) == CompletionStep::Fail(
                FetchError::RateLimited { status: 429, body: b3 },
            )
        }),
{
}

/// Read the first completion choice; a response with none is an
/// `EmptyResult` error, not a crash.
pub fn first_choice(choices: Vec<String>) -> (r: Result<String, FetchError>)
    ensures
        choices@.len() == 0 ==> r matches Err(FetchError::EmptyResult),
        choices@.len() > 0 ==> (r matches Ok(c) && c@ == choices@[0]@),
{
    if choices.len() == 0 {
        Err(FetchError::EmptyResult)
    } else {
        let mut v = choices;
        let c = v.remove(0);
        Ok(c)
    }
}

} // verus!
