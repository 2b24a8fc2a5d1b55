//! Attach in native mode, or refuse and say why.
//!
//! Two refusals, and neither is a fallback. A busy hook is refused because XDP takes one program
//! per interface. A driver without native support is refused because generic XDP runs after the
//! stack has already built an skb.

use vstd::prelude::*;
use vstd::string::*;

use super::hook_probe::{AttachMode, HookState, Occupant};

verus! {

/// What stands in the way of an attach.
#[derive(Clone, Copy, PartialEq, Eq, Debug, Structural)]
pub enum Refusal {
    /// Another program holds the hook, in the same mode or in another.
    Occupied,
    /// The driver has no native XDP support.
    NotNative,
    /// Anything else, which is the caller's error to report.
    Failed,
}

/// `libc::EBUSY`: the hook is already taken in native mode. It is 16 on every Linux target.
#[verifier::external_body]
fn ebusy() -> (code: i32)
    ensures
        code == 16,
{
    libc::EBUSY
}

/// `libc::EEXIST`: the hook is taken in another mode. It is 17 on every Linux target.
#[verifier::external_body]
fn eexist() -> (code: i32)
    ensures
        code == 17,
{
    libc::EEXIST
}

/// `libc::EOPNOTSUPP`: the driver cannot do it. It is 95, but for MIPS, where it is 122, and
/// SPARC, where it is 45. Which target this is stays unsaid.
#[verifier::external_body]
fn eopnotsupp() -> (code: i32)
    ensures
        code == 95 || code == 122 || code == 45,
{
    libc::EOPNOTSUPP
}

/// What an error number stands for, on a target that says "not supported" with `unsupported`.
pub open spec fn refusal_of(errno: Option<i32>, unsupported: i32) -> Refusal {
    match errno {
        Some(code) => if code == 16 || code == 17 {
            Refusal::Occupied
        } else if code == unsupported {
            Refusal::NotNative
        } else {
            Refusal::Failed
        },
        None => Refusal::Failed,
    }
}

/// What an error number stands for, on a target that says "not supported" with `unsupported`.
pub fn classify_for(errno: Option<i32>, unsupported: i32) -> (refusal: Refusal)
    ensures
        refusal == refusal_of(errno, unsupported),
{
    match errno {
        Some(code) => if code == ebusy() || code == eexist() {
            Refusal::Occupied
        } else if code == unsupported {
            Refusal::NotNative
        } else {
            Refusal::Failed
        },
        None => Refusal::Failed,
    }
}

/// What the error number of a failed attach stands for, on this target.
pub fn classify(errno: Option<i32>) -> (refusal: Refusal)
    ensures
        refusal == refusal_of(errno, 95) || refusal == refusal_of(errno, 122) || refusal
            == refusal_of(errno, 45),
        refusal == Refusal::Occupied <==> errno == Some(16i32) || errno == Some(17i32),
        errno is None ==> refusal == Refusal::Failed,
{
    classify_for(errno, eopnotsupp())
}

/// The first error number of a chain of errors, from `from` on.
pub open spec fn first_errno(chain: Seq<Option<i32>>, from: int) -> Option<i32>
    decreases chain.len() - from,
{
    if from >= chain.len() {
        None
    } else if chain[from] is Some {
        chain[from]
    } else {
        first_errno(chain, from + 1)
    }
}

/// The first error number of a chain of errors, outermost first.
pub fn errno_of(chain: &[Option<i32>]) -> (errno: Option<i32>)
    ensures
        errno == first_errno(chain@, 0),
{
    let mut at: usize = 0;
    while at < chain.len()
        invariant
            at <= chain@.len(),
            first_errno(chain@, 0) == first_errno(chain@, at as int),
        decreases chain@.len() - at,
    {
        if let Some(code) = chain[at] {
            return Some(code);
        }
        at += 1;
    }
    None
}

/// Whether what a hook reads back confirms an attach.
pub open spec fn confirms(state: HookState) -> bool {
    state.mode == AttachMode::Native
}

/// Only the byte of the native mode confirms an attach: none of another mode, nor of several at
/// once, whatever program it names.
pub proof fn only_native_confirms_an_attach(raw: u8, prog_id: Option<u32>)
    ensures
        confirms(HookState { prog_id, mode: AttachMode::of(raw) }) <==> raw == 1,
{
}

/// Holds an attach that succeeded to the mode the kernel reports, not the mode that was
/// requested: `Ok` where the hook reads native, and what was read instead where it does not. An
/// attach whose confirmation could not be read is not confirmed.
pub fn confirm_native(probed: Result<HookState, String>) -> (confirmed: Result<(), String>)
    ensures
        confirmed is Ok <==> (probed matches Ok(state) && confirms(state)),
        confirmed is Ok <==> (probed matches Ok(state) && state.mode == AttachMode::Native),
        confirmed matches Err(mode) ==> mode@ == (match probed {
            Ok(state) => state.mode.label(),
            Err(error) => "nothing it could read back: "@ + error@,
        }),
{
    match probed {
        Ok(state) => if state.mode == AttachMode::Native {
            Ok(())
        } else {
            Err(state.mode.describe())
        },
        Err(error) => {
            let mut text: String = "nothing it could read back: ".to_owned();
            text.append(error.as_str());
            Err(text)
        },
    }
}

/// What an operator is told of the program that holds a busy hook. One that was gone by the time
/// the hook was queried and one the kernel would not name are told apart.
pub fn describe_occupant(occupant: Result<Option<Occupant>, String>) -> (text: String)
    ensures
        text@ == (match occupant {
            Ok(Some(held)) => held.sentence(),
            Ok(None) => "a program that was gone by the time the hook was queried"@,
            Err(error) => "a program the kernel would not name ("@ + error@ + ")"@,
        }),
{
    match occupant {
        Ok(Some(held)) => held.describe(),
        Ok(None) => "a program that was gone by the time the hook was queried".to_owned(),
        Err(error) => {
            let mut text: String = "a program the kernel would not name (".to_owned();
            text.append(error.as_str());
            text.append(")");
            text
        },
    }
}

/// How long to wait for the kernel to actually let go of the hook, in milliseconds.
pub const RELEASE_TIMEOUT_MS: u64 = 500;

/// What a look at the hook gave, after a detach.
#[derive(Clone, Copy, PartialEq, Eq, Debug, Structural)]
pub enum Look {
    /// The hook was read.
    Hook(HookState),
    /// The interface has gone away.
    Gone,
    /// The hook could not be read.
    Unread,
}

/// What to do after a look at the hook.
#[derive(Clone, Copy, PartialEq, Eq, Debug, Structural)]
pub enum Release {
    /// The hook is free.
    Free,
    /// The wait is over and the hook is not free.
    StillAttached,
    /// Look again in a moment.
    Wait,
}

/// What a look at the hook after a detach leads to.
pub open spec fn released(look: Look, waited_ms: u64) -> Release {
    match look {
        Look::Hook(state) if state.prog_id is None => Release::Free,
        Look::Gone => Release::Free,
        _ => if waited_ms >= RELEASE_TIMEOUT_MS {
            Release::StillAttached
        } else {
            Release::Wait
        },
    }
}

/// A hook nobody holds is free, however long the wait was, and only such a hook is. Of any other
/// the wait goes on for half a second, and then it is over and stays over.
pub proof fn a_detach_is_over_where_nobody_holds_the_hook(look: Look, waited_ms: u64, later_ms: u64)
    requires
        waited_ms <= later_ms,
    ensures
        released(look, waited_ms) == Release::Free <==> look == Look::Gone || (look matches Look::Hook(
            state,
        ) && state.prog_id is None),
        released(look, waited_ms) == Release::Wait ==> waited_ms < 500,
        released(look, waited_ms) == Release::StillAttached ==> waited_ms >= 500 && released(
            look,
            later_ms,
        ) == Release::StillAttached,
{
}

/// Whether a detach is over. The kernel finishes the teardown on a workqueue, so the hook is
/// looked at until it is free or the time is up. An interface that has gone away is a hook nobody
/// holds.
pub fn release(look: Look, waited_ms: u64) -> (next: Release)
    ensures
        next == released(look, waited_ms),
        next == (match look {
            Look::Hook(state) if state.prog_id is None => Release::Free,
            Look::Gone => Release::Free,
            _ => if waited_ms >= RELEASE_TIMEOUT_MS {
                Release::StillAttached
            } else {
                Release::Wait
            },
        }),
{
    match look {
        Look::Hook(state) => if state.prog_id.is_none() {
            return Release::Free;
        },
        Look::Gone => return Release::Free,
        Look::Unread => {},
    }
    if waited_ms >= RELEASE_TIMEOUT_MS {
        Release::StillAttached
    } else {
        Release::Wait
    }
}

/// What stands in the way is a program where the hook is taken, in either of the two ways the
/// kernel says so; a driver where it says that it cannot; and nothing else is told as either.
pub proof fn a_refusal_says_what_stands_in_the_way(errno: Option<i32>, unsupported: i32)
    requires
        unsupported != 16,
        unsupported != 17,
    ensures
        refusal_of(errno, unsupported) == Refusal::Occupied <==> errno == Some(16i32) || errno == Some(
            17i32,
        ),
        refusal_of(errno, unsupported) == Refusal::NotNative <==> errno == Some(unsupported),
        refusal_of(errno, unsupported) == Refusal::Failed <==> errno != Some(16i32) && errno != Some(
            17i32,
        ) && errno != Some(unsupported),
{
}

/// The error number of a chain is that of the outermost error that has one, and there is none only
/// where no error of the chain has one.
pub proof fn the_outermost_error_number_counts(chain: Seq<Option<i32>>, i: int)
    requires
        0 <= i < chain.len(),
    ensures
        chain[i] is Some && (forall|j: int| 0 <= j < i ==> (#[trigger] chain[j]) is None)
            ==> first_errno(chain, 0) == chain[i],
        first_errno(chain, 0) is None ==> chain[i] is None,
        first_errno(chain, 0) is Some ==> exists|j: int|
            0 <= j < chain.len() && #[trigger] chain[j] == first_errno(chain, 0),
{
    lemma_first_errno(chain, 0, i);
}

proof fn lemma_first_errno(chain: Seq<Option<i32>>, from: int, i: int)
    requires
        0 <= from <= i < chain.len(),
    ensures
        chain[i] is Some && (forall|j: int| from <= j < i ==> (#[trigger] chain[j]) is None)
            ==> first_errno(chain, from) == chain[i],
        first_errno(chain, from) is None ==> chain[i] is None,
        first_errno(chain, from) is Some ==> exists|j: int|
            from <= j < chain.len() && #[trigger] chain[j] == first_errno(chain, from),
    decreases chain.len() - from,
{
    reveal_with_fuel(first_errno, 2);
    if chain[from] is None {
        if from < i {
            lemma_first_errno(chain, from + 1, i);
        } else if from + 1 < chain.len() {
            lemma_first_errno(chain, from + 1, from + 1);
        }
    }
}

} // verus!
