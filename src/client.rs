use vstd::prelude::*;

use crate::account::AccountInfo;
use crate::error::DatabaseError;
use crate::types::B256;

verus! {

/// The cause given when the event loop is gone before a command reaches it.
pub open spec fn loop_closed() -> Seq<char> {
    "backend event loop is closed"@
}

/// The cause given when the event loop drops a reply channel unanswered.
pub open spec fn reply_dropped() -> Seq<char> {
    "reply channel closed before an answer"@
}

/// The error of a command that could not be sent: the event loop is gone.
pub fn send_failed() -> (r: DatabaseError)
    ensures
        match r {
            DatabaseError::Transport(m) => m@ == loop_closed(),
            _ => false,
        },
{
    DatabaseError::Transport(String::from_str("backend event loop is closed"))
}

/// The result of a lookup, from what came back on its reply channel:
/// `None` where the channel closed without an answer.
pub fn settle<T>(received: Option<Result<T, DatabaseError>>) -> (r: Result<T, DatabaseError>)
    ensures
        match received {
            Some(x) => r == x,
            None => match r {
                Err(DatabaseError::Transport(m)) => m@ == reply_dropped(),
                _ => false,
            },
        },
{
    match received {
        Some(x) => x,
        None => Err(DatabaseError::Transport(String::from_str("reply channel closed before an answer"))),
    }
}

/// The result of an account lookup as an execution engine reads it: an
/// answered account is always present.
pub fn basic_result(received: Option<Result<AccountInfo, DatabaseError>>) -> (r: Result<Option<AccountInfo>, DatabaseError>)
    ensures
        match received {
            Some(Ok(a)) => r == Ok::<Option<AccountInfo>, DatabaseError>(Some(a)),
            Some(Err(e)) => r == Err::<Option<AccountInfo>, DatabaseError>(e),
            None => match r {
                Err(DatabaseError::Transport(m)) => m@ == reply_dropped(),
                _ => false,
            },
        },
{
    match settle(received) {
        Ok(a) => Ok(Some(a)),
        Err(e) => Err(e),
    }
}

/// Looking code up by its hash alone always fails: code is held inside each
/// account and never fetched by hash.
pub fn code_by_hash(hash: B256) -> (r: Result<Vec<u8>, DatabaseError>)
    ensures
        r == Err::<Vec<u8>, DatabaseError>(DatabaseError::MissingCode(hash)),
{
    Err(DatabaseError::MissingCode(hash))
}

} // verus!
