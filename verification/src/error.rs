//! The refusal every check answers with.

use vstd::prelude::*;

verus! {

/// A refusal, in words.
#[derive(Clone, Debug, PartialEq, Eq)]
pub struct AuthenticateError {
    /// Why the claim was refused.
    pub message: String,
}

impl AuthenticateError {
    /// A refusal with this message.
    pub fn new(message: &str) -> (refusal: Self)
        ensures
            refusal.message@ == message@,
    {
        AuthenticateError { message: message.to_owned() }
    }

    /// A refusal whose message is `before`, then `value`, then `after`.
    pub fn naming(before: &str, value: &str, after: &str) -> (refusal: Self)
        ensures
            refusal.message@ == before@ + value@ + after@,
    {
        let mut message = before.to_owned();
        message.append(value);
        message.append(after);
        AuthenticateError { message }
    }
}

/// Whether an executable result is the one the model gives: the same value, or
/// a refusal with the same message.
pub open spec fn meets<T: View>(
    result: Result<T, AuthenticateError>,
    model: Result<T::V, Seq<char>>,
) -> bool {
    match result {
        Ok(value) => model == Ok::<T::V, Seq<char>>(value@),
        Err(refusal) => model == Err::<T::V, Seq<char>>(refusal.message@),
    }
}

/// The first refusal of two checks, or the second's verdict.
pub open spec fn after<T>(first: Result<(), Seq<char>>, second: Result<T, Seq<char>>) -> Result<
    T,
    Seq<char>,
> {
    match first {
        Err(fault) => Err(fault),
        Ok(_) => second,
    }
}

/// Accept where the condition holds, refuse in these words where it does not.
pub open spec fn unless(met: bool, fault: Seq<char>) -> Result<(), Seq<char>> {
    if met {
        Ok(())
    } else {
        Err(fault)
    }
}

/// Accept where the condition holds, refuse in these words where it does not.
///
/// # Errors
///
/// Where the condition does not hold.
pub fn ensure(met: bool, otherwise: &str) -> (r: Result<(), AuthenticateError>)
    ensures
        meets(r, unless(met, otherwise@)),
{
    if met {
        Ok(())
    } else {
        Err(AuthenticateError::new(otherwise))
    }
}

/// What was found, or a refusal in these words where nothing was.
///
/// # Errors
///
/// Where nothing was found.
pub fn expect<T>(found: Option<T>, otherwise: &str) -> (r: Result<T, AuthenticateError>)
    ensures
        match found {
            Some(value) => r == Ok::<T, AuthenticateError>(value),
            None => r matches Err(refusal) && refusal.message@ == otherwise@,
        },
{
    match found {
        Some(value) => Ok(value),
        None => Err(AuthenticateError::new(otherwise)),
    }
}

} // verus!
