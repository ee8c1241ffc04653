//! What a checkout of an origin needs before it can start: leave to start,
//! the address to clone from, and the directory to clone into.

use crate::text::{concat, starts_with};
use vstd::prelude::*;

verus! {

/// Why a command is refused before it does anything.
#[derive(Debug, PartialEq, Eq)]
pub enum Refusal {
    /// The origin is watched already; `last_watch` says since when.
    AlreadyWatched { last_watch: String },
    /// No origin is watched yet.
    NothingWatched,
}

/// Decides whether an origin may be watched, given the time of its last
/// watch if it has one on record. An origin is watched once: a second watch
/// of the same origin is refused, never run again.
pub fn admit_watch(last_watch: Option<String>) -> (leave: Result<(), Refusal>)
    ensures
        match last_watch {
            Some(time) => leave == Err::<(), Refusal>(Refusal::AlreadyWatched { last_watch: time }),
            None => leave is Ok,
        },
{
    match last_watch {
        Some(time) => Err(Refusal::AlreadyWatched { last_watch: time }),
        None => Ok(()),
    }
}

/// Decides whether there is anything to reconcile, given the number of
/// watched origins: with none there is not.
pub fn admit_reconcile(watched: usize) -> (leave: Result<(), Refusal>)
    ensures
        watched > 0 ==> leave is Ok,
        watched == 0 ==> leave == Err::<(), Refusal>(Refusal::NothingWatched),
{
    if watched > 0 {
        Ok(())
    } else {
        Err(Refusal::NothingWatched)
    }
}

/// The address to clone an origin from: an origin written without scheme,
/// as `github.com/...`, is reached over https; any other is taken as it is.
pub open spec fn clone_address(origin: Seq<char>) -> Seq<char> {
    if "https://github.com/"@.is_prefix_of(origin) {
        origin
    } else if "github.com/"@.is_prefix_of(origin) {
        "https://"@ + origin
    } else {
        origin
    }
}

/// The address to clone an origin from.
pub fn clone_url(github_url: &str) -> (url: String)
    ensures
        url@ == clone_address(github_url@),
{
    if starts_with(github_url, "https://github.com/") {
        github_url.to_owned()
    } else if starts_with(github_url, "github.com/") {
        concat("https://", github_url)
    } else {
        github_url.to_owned()
    }
}

/// The decimal digit for a value below ten.
pub open spec fn digit(n: int) -> char {
    (48 + n) as u8 as char
}

/// A number that is not negative, in decimal.
pub open spec fn decimal(n: nat) -> Seq<char>
    decreases n,
{
    if n < 10 {
        seq![digit(n as int)]
    } else {
        decimal(n / 10).push(digit(n as int % 10))
    }
}

/// A number in decimal, with a minus sign before a negative one.
pub open spec fn signed_decimal(n: int) -> Seq<char> {
    if n < 0 {
        seq!['-'] + decimal((-n) as nat)
    } else {
        decimal(n as nat)
    }
}

/// Appends the decimal digits of `n` to `text`.
fn push_decimal(text: &mut String, n: u64)
    ensures
        final(text)@ == old(text)@ + decimal(n as nat),
    decreases n,
{
    if n >= 10 {
        push_decimal(text, n / 10);
    }
    text.push(((48 + n % 10) as u8) as char);
    assert(text@ =~= old(text)@ + decimal(n as nat));
}

/// The directory that the checkout taken at `timestamp`, in seconds, is
/// cloned into.
pub open spec fn checkout_directory(timestamp: int) -> Seq<char> {
    "/tmp/temp_repo_"@ + signed_decimal(timestamp)
}

/// The directory to clone into, for a checkout taken at `timestamp` seconds.
pub fn temp_repo_path(timestamp: i64) -> (path: String)
    ensures
        path@ == checkout_directory(timestamp as int),
{
    let mut path = "/tmp/temp_repo_".to_owned();
    if timestamp < 0 {
        path.push('-');
        let magnitude = (-(timestamp as i128)) as u64;
        push_decimal(&mut path, magnitude);
    } else {
        push_decimal(&mut path, timestamp as u64);
    }
    assert(path@ =~= checkout_directory(timestamp as int));
    path
}

} // verus!
