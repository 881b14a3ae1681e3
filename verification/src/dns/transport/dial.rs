//! Trying the addresses of a server one after the other within a common time limit.
use vstd::prelude::*;

use crate::text;

verus! {

/// What to do next when connecting.
#[derive(Debug)]
pub enum DialStep {
    /// Try the address with this number, for so many nanoseconds.
    Try(usize, u64),
    /// Give up, for this reason.
    GiveUp(String),
}

/// The share of the remaining time that the next of `left` attempts gets: an equal one.
pub open spec fn share(remaining: u64, left: int) -> int {
    remaining as int / (if left > u32::MAX {
        u32::MAX as int
    } else {
        left
    })
}

/// What follows once `index` of `count` addresses have been tried in vain.
pub open spec fn stepped(
    count: int,
    index: int,
    remaining: u64,
    label: Seq<char>,
    last_error: Option<Seq<char>>,
    step: DialStep,
) -> bool {
    match step {
        DialStep::Try(i, budget) => index < count && i == index && budget == share(
            remaining,
            count - index,
        ),
        DialStep::GiveUp(why) => index == count && why@ == (match last_error {
            Some(e) => e,
            None => label + " resolved to no addresses"@,
        }),
    }
}

/// What to do once `index` of `count` addresses have been tried in vain; `remaining` is the time
/// left in nanoseconds and `last_error` says how the last attempt failed.
pub fn dial_step(
    count: usize,
    index: usize,
    remaining: u64,
    label: &str,
    last_error: &Option<String>,
) -> (res: DialStep)
    requires
        index <= count,
    ensures
        stepped(
            count as int,
            index as int,
            remaining,
            label@,
            text::opt_view(*last_error),
            res,
        ),
{
    if index < count {
        let left: usize = count - index;
        let parts: u64 = if left > 0xffff_ffff {
            0xffff_ffff
        } else {
            left as u64
        };
        return DialStep::Try(index, remaining / parts);
    }
    match last_error {
        Some(e) => DialStep::GiveUp(e.clone()),
        None => DialStep::GiveUp(text::concat(label, " resolved to no addresses")),
    }
}

/// How a failed attempt is reported.
pub fn dial_error(label: &str, address: &str, error: &str) -> (res: String)
    ensures
        res@ == label@ + " dial to "@ + address@ + ": "@ + error@,
{
    let head: String = text::concat(text::concat(label, " dial to ").as_str(), address);
    text::concat(text::concat(head.as_str(), ": ").as_str(), error)
}

/// No attempt gets more than the time that is left, and the last one gets all of it.
pub proof fn law_shares_fit(remaining: u64, left: int)
    requires
        left > 0,
    ensures
        0 <= share(remaining, left) <= remaining,
        left == 1 ==> share(remaining, left) == remaining,
{
    let parts = if left > u32::MAX {
        u32::MAX as int
    } else {
        left
    };
    vstd::arithmetic::div_mod::lemma_div_pos_is_pos(remaining as int, parts);
    vstd::arithmetic::div_mod::lemma_div_nonincreasing(remaining as int, parts);
    if left == 1 {
        vstd::arithmetic::div_mod::lemma_div_basics(remaining as int);
    }
}

/// Every address is tried in its turn before the attempt is given up, and the reason for giving up
/// is how the last attempt failed. Where there was no address at all, the reason says so.
pub proof fn law_every_address_has_its_turn(
    count: int,
    index: int,
    remaining: u64,
    label: Seq<char>,
    last_error: Option<Seq<char>>,
    step: DialStep,
)
    requires
        0 <= index <= count,
        stepped(count, index, remaining, label, last_error, step),
    ensures
        step is Try <==> index < count,
        step matches DialStep::Try(i, budget) ==> i == index && budget <= remaining && (
        index + 1 == count ==> budget == remaining),
        step matches DialStep::GiveUp(why) ==> (last_error matches Some(e) ==> why@ == e),
        step matches DialStep::GiveUp(why) ==> last_error is None ==> label.is_prefix_of(why@),
{
    if index < count {
        law_shares_fit(remaining, count - index);
    }
    if step is GiveUp && last_error is None {
        assert((label + " resolved to no addresses"@).take(label.len() as int) =~= label);
    }
}

/// Where nothing is lost on the way, attempts of equal shares use the whole time up: no share is so
/// small that one more nanosecond for each attempt would still fit.
pub proof fn law_shares_use_the_time(remaining: u64, left: int)
    requires
        0 < left <= u32::MAX,
    ensures
        left * share(remaining, left) <= remaining,
        remaining < left * (share(remaining, left) + 1),
{
    vstd::arithmetic::div_mod::lemma_fundamental_div_mod(remaining as int, left);
    vstd::arithmetic::mul::lemma_mul_is_distributive_add(left, share(remaining, left), 1);
}

} // verus!
