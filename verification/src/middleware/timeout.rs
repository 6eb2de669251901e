//! A deadline for tool calls.

use vstd::arithmetic::power2::{lemma2_to64, lemma_pow2_unfold, pow2};
use vstd::prelude::*;

use crate::middleware::dispatch;
use crate::middleware::dispatch::ToolDispatchResult;
use crate::text;

verus! {

/// The nanoseconds of a second.
pub const SECOND: u128 = 1_000_000_000;

/// The longest span, in nanoseconds.
pub const LONGEST: u128 = 18_446_744_073_709_551_615_999_999_999;

/// How long a call may take, in nanoseconds, and how often it is tried again.
#[derive(Debug, Clone, Copy, PartialEq, Eq, Structural)]
pub struct TimeoutConfig {
    pub timeout: u128,
    pub retry_on_timeout: bool,
    pub max_retries: u32,
}

impl Default for TimeoutConfig {
    /// Two minutes, and no further try.
    fn default() -> (r: Self)
        ensures
            r == (TimeoutConfig {
                timeout: 120_000_000_000,
                retry_on_timeout: false,
                max_retries: 0,
            }),
    {
        TimeoutConfig { timeout: 120_000_000_000, retry_on_timeout: false, max_retries: 0 }
    }
}

/// Gives each tool call a deadline.
#[derive(Debug, Clone, Copy)]
pub struct TimeoutMiddleware {
    pub config: TimeoutConfig,
}

/// A span doubled, held at the longest.
pub open spec fn doubled(span: u128) -> u128 {
    if span * 2 <= LONGEST {
        (span * 2) as u128
    } else {
        LONGEST
    }
}

/// The deadline of a try, counted from zero.
pub open spec fn deadline(timeout: u128, attempt: nat) -> u128
    decreases attempt,
{
    if attempt == 0 {
        timeout
    } else {
        doubled(deadline(timeout, (attempt - 1) as nat))
    }
}

/// Whether a call is tried again after the try counted `attempt` ran out of
/// time.
pub open spec fn tries_again(config: TimeoutConfig, attempt: u32) -> bool {
    config.retry_on_timeout && attempt < config.max_retries
}

/// What is said of a call that ran out of time.
pub open spec fn expired_text(tool_name: Seq<char>, span: u128) -> Seq<char> {
    "Tool '"@ + tool_name + "' timed out after "@ + text::decimal((span / SECOND) as nat) + "s"@
}

/// What is said of a cancelled call.
pub open spec fn cancelled_text(tool_name: Seq<char>) -> Seq<char> {
    "Tool '"@ + tool_name + "' cancelled"@
}

/// The text that is said of a cancelled call.
pub fn cancelled_message(tool_name: &str) -> (out: String)
    ensures
        out@ == cancelled_text(tool_name@),
{
    let mut out = String::from_str("Tool '");
    text::push_text(&mut out, tool_name);
    text::push_text(&mut out, "' cancelled");
    out
}

/// Where a call with a deadline stands: how many tries ran out of time, and
/// how long the current one may take.
#[derive(Debug, Clone, Copy, PartialEq, Eq, Structural)]
pub struct TimeoutRun {
    pub attempt: u32,
    pub current: u128,
}

/// Whether a run is one that its configuration leads to.
pub open spec fn is_run(config: TimeoutConfig, run: TimeoutRun) -> bool {
    &&& run.current == deadline(config.timeout, run.attempt as nat)
    &&& run.attempt > 0 ==> config.retry_on_timeout && run.attempt <= config.max_retries
}

impl TimeoutMiddleware {
    /// A layer with this configuration.
    pub fn new(config: TimeoutConfig) -> (r: Self)
        ensures
            r.config == config,
    {
        TimeoutMiddleware { config }
    }

    /// A layer that gives each call so many seconds, once.
    pub fn from_secs(secs: u64) -> (r: Self)
        ensures
            r.config == (TimeoutConfig {
                timeout: (secs * SECOND) as u128,
                retry_on_timeout: false,
                max_retries: 0,
            }),
    {
        TimeoutMiddleware {
            config: TimeoutConfig {
                timeout: secs as u128 * SECOND,
                retry_on_timeout: false,
                max_retries: 0,
            },
        }
    }

    /// A layer that lets every call take as long as it likes.
    pub fn none() -> (r: Self)
        ensures
            r.config == (TimeoutConfig {
                timeout: LONGEST,
                retry_on_timeout: false,
                max_retries: 0,
            }),
    {
        TimeoutMiddleware {
            config: TimeoutConfig { timeout: LONGEST, retry_on_timeout: false, max_retries: 0 },
        }
    }

    /// The name of the layer.
    pub fn name(&self) -> (r: &'static str)
        ensures
            r@ == "timeout"@,
    {
        "timeout"
    }

    /// The first try of a call.
    pub fn begin(&self) -> (run: TimeoutRun)
        ensures
            run == (TimeoutRun { attempt: 0, current: self.config.timeout }),
            is_run(self.config, run),
    {
        TimeoutRun { attempt: 0, current: self.config.timeout }
    }

    /// What happens after a try ran out of time: the next try, with twice the
    /// time, or the error that the call ends with.
    pub fn on_timeout(&self, tool_name: &str, run: TimeoutRun) -> (next: Result<
        TimeoutRun,
        ToolDispatchResult,
    >)
        ensures
            match next {
                Ok(after) => {
                    &&& tries_again(self.config, run.attempt)
                    &&& after == (TimeoutRun {
                        attempt: (run.attempt + 1) as u32,
                        current: doubled(run.current),
                    })
                },
                Err(result) => {
                    &&& !tries_again(self.config, run.attempt)
                    &&& result@ == dispatch::failed(
                        tool_name@,
                        expired_text(tool_name@, run.current),
                        run.current as nat,
                    )
                },
            },
            is_run(self.config, run) && next is Ok ==> is_run(self.config, next->Ok_0),
    {
        if self.config.retry_on_timeout && run.attempt < self.config.max_retries {
            let current: u128 = if run.current <= LONGEST / 2 {
                run.current * 2
            } else {
                LONGEST
            };
            Ok(TimeoutRun { attempt: run.attempt + 1, current })
        } else {
            let mut message = String::from_str("Tool '");
            text::push_text(&mut message, tool_name);
            text::push_text(&mut message, "' timed out after ");
            text::push_decimal(&mut message, run.current / SECOND);
            text::push_text(&mut message, "s");
            Err(ToolDispatchResult::err(tool_name, message, run.current))
        }
    }

    /// What a cancelled call ends with.
    pub fn on_cancel(&self, tool_name: &str) -> (result: ToolDispatchResult)
        ensures
            result@ == dispatch::failed(tool_name@, cancelled_text(tool_name@), 0),
    {
        ToolDispatchResult::err(tool_name, cancelled_message(tool_name), 0)
    }
}

/// No try is given less time than the one before it.
pub proof fn deadlines_grow(timeout: u128, attempt: nat)
    requires
        timeout <= LONGEST,
    ensures
        deadline(timeout, attempt) <= deadline(timeout, attempt + 1) <= LONGEST,
    decreases attempt,
{
    if attempt > 0 {
        deadlines_grow(timeout, (attempt - 1) as nat);
    }
}

/// A call is tried at most once and then as often as retries are allowed; so
/// the try after the last retry is never begun.
pub proof fn retries_are_bounded(config: TimeoutConfig, run: TimeoutRun)
    requires
        is_run(config, run),
    ensures
        run.attempt <= config.max_retries,
        !config.retry_on_timeout ==> run.attempt == 0,
        run.attempt == config.max_retries ==> !tries_again(config, run.attempt),
{
}

/// Each try has twice the time of the one before: the n-th try after the first
/// has the timeout times two to the n, up to the longest span.
pub proof fn every_try_has_twice_the_time(timeout: u128, attempt: nat)
    requires
        timeout <= LONGEST,
    ensures
        timeout * pow2(attempt) <= 18_446_744_073_709_551_615_999_999_999 ==> deadline(
            timeout,
            attempt,
        ) == timeout * pow2(attempt),
        timeout * pow2(attempt) > 18_446_744_073_709_551_615_999_999_999 ==> deadline(
            timeout,
            attempt,
        ) == 18_446_744_073_709_551_615_999_999_999,
    decreases attempt,
{
    lemma2_to64();
    if attempt > 0 {
        let less = (attempt - 1) as nat;
        every_try_has_twice_the_time(timeout, less);
        lemma_pow2_unfold(attempt);
        let span: int = timeout * pow2(less);
        assert(timeout * pow2(attempt) == 2 * span) by (nonlinear_arith)
            requires
                pow2(attempt) == 2 * pow2(less),
                span == timeout * pow2(less),
        ;
    }
}

/// A call that ran out of time is tried again where that is asked for, until
/// its retries are used up.
pub proof fn retries_are_used_up_one_by_one(config: TimeoutConfig, attempt: u32)
    ensures
        !config.retry_on_timeout ==> !tries_again(config, attempt),
        config.retry_on_timeout && attempt < config.max_retries ==> tries_again(config, attempt),
        attempt >= config.max_retries ==> !tries_again(config, attempt),
{
}

/// A call that ran out of time says after how many full seconds; a cancelled
/// one only that.
pub proof fn a_timeout_tells_full_seconds(tool_name: Seq<char>, span: u128, seconds: nat)
    requires
        seconds * 1_000_000_000 <= span < (seconds + 1) * 1_000_000_000,
    ensures
        expired_text(tool_name, span) == "Tool '"@ + tool_name + "' timed out after "@
            + text::decimal(seconds) + "s"@,
        cancelled_text(tool_name) == "Tool '"@ + tool_name + "' cancelled"@,
{
    assert(span / 1_000_000_000 == seconds);
}

} // verus!
