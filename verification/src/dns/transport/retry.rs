//! One retry after a failed exchange.
use vstd::prelude::*;

use crate::text;

verus! {

/// What to do once an exchange has come to an end.
#[derive(Debug)]
pub enum RetryStep {
    /// Hand the answer over.
    Done(Vec<u8>),
    /// Drop the connection and try once more.
    ResetAndRetry,
    /// Give up, for this reason.
    Failed(String),
}

/// The reason for giving up: both failures.
pub open spec fn both_failures(label: Seq<char>, second: Seq<char>, first: Seq<char>) -> Seq<char> {
    label + " failed after retry: "@ + second + " (first: "@ + first + ")"@
}

/// What follows once an exchange has come to an end.
pub open spec fn decided(
    label: Seq<char>,
    outcome: Result<Vec<u8>, String>,
    first_failure: Option<String>,
    step: RetryStep,
) -> bool {
    match (outcome, first_failure) {
        (Ok(bytes), _) => step == RetryStep::Done(bytes),
        (Err(_), None) => step == RetryStep::ResetAndRetry,
        (Err(second), Some(first)) => step matches RetryStep::Failed(why) && why@ == both_failures(
            label,
            second@,
            first@,
        ),
    }
}

/// Decides once an exchange has come to an end; `first_failure` is there when this was the retry.
pub fn exchange_with_retry(
    label: &str,
    outcome: Result<Vec<u8>, String>,
    first_failure: &Option<String>,
) -> (res: RetryStep)
    ensures
        decided(label@, outcome, *first_failure, res),
{
    match (outcome, first_failure) {
        (Ok(bytes), _) => RetryStep::Done(bytes),
        (Err(_), None) => RetryStep::ResetAndRetry,
        (Err(second), Some(first)) => {
            let a: String = text::concat(label, " failed after retry: ");
            let b: String = text::concat(a.as_str(), second.as_str());
            let c: String = text::concat(b.as_str(), " (first: ");
            let d: String = text::concat(c.as_str(), first.as_str());
            RetryStep::Failed(text::concat(d.as_str(), ")"))
        },
    }
}

/// An answer is handed over as it came, whether it is the first or the second that is tried for. A
/// failure is tried again once and no more.
pub proof fn law_one_retry(
    label: Seq<char>,
    outcome: Result<Vec<u8>, String>,
    first_failure: Option<String>,
    step: RetryStep,
)
    requires
        decided(label, outcome, first_failure, step),
    ensures
        step is Done <==> outcome is Ok,
        step matches RetryStep::Done(bytes) ==> outcome == Ok::<Vec<u8>, String>(bytes),
        step is ResetAndRetry <==> outcome is Err && first_failure is None,
        step is Failed <==> outcome is Err && first_failure is Some,
{
}

/// The reason for giving up names what was tried and both failures, the second before the first.
pub proof fn law_both_failures_are_told(label: Seq<char>, second: Seq<char>, first: Seq<char>)
    ensures
        ({
            let why = both_failures(label, second, first);
            let at = label.len() + " failed after retry: "@.len();
            let then = at + second.len() + " (first: "@.len();
            &&& label.is_prefix_of(why)
            &&& why.subrange(at as int, (at + second.len()) as int) == second
            &&& why.subrange(then as int, (then + first.len()) as int) == first
        }),
{
    let why = both_failures(label, second, first);
    let at = (label.len() + " failed after retry: "@.len()) as int;
    let then = (at + second.len() + " (first: "@.len()) as int;
    assert(why.take(label.len() as int) =~= label);
    assert(why.subrange(at, (at + second.len()) as int) =~= second);
    assert(why.subrange(then, (then + first.len()) as int) =~= first);
}

} // verus!
