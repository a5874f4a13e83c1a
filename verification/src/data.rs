use vstd::prelude::*;

verus! {

/// The scalar that every dataization reduces to.
pub type Data = i64;

/// Why a dataization, a resolution or a parse did not produce a value.
#[derive(Clone, Copy, Debug, PartialEq, Eq, Structural)]
pub enum Error {
    /// A locator or a reference names an object id that the table does not hold.
    UnknownObject,
    /// Dataization reached an object with no body, no literal and no operation.
    EmptyObject,
    /// A locator asks for more enclosing hops than the basket nesting provides.
    BrokenClosure,
    /// An attribute was asked of an object that neither has it nor decorates
    /// an object that has it, or a declaration names an attribute key that
    /// does not exist.
    UnknownAttribute,
    /// A piece of text is not a locator or not a declaration.
    MalformedLocator,
    /// An operation could not be carried out on its operands.
    AtomFailure,
    /// A basket id names no live basket.
    UnknownBasket,
    /// The evaluation nests deeper than the engine's depth allowance.
    DepthExceeded,
}

/// The sum of two scalars, when it is a scalar.
pub open spec fn checked_sum(x: Data, y: Data) -> Result<Data, Error> {
    if i64::MIN <= x + y <= i64::MAX {
        Ok((x + y) as Data)
    } else {
        Err(Error::AtomFailure)
    }
}

/// The difference of two scalars, when it is a scalar.
pub open spec fn checked_diff(x: Data, y: Data) -> Result<Data, Error> {
    if i64::MIN <= x - y <= i64::MAX {
        Ok((x - y) as Data)
    } else {
        Err(Error::AtomFailure)
    }
}

/// `1` where the first scalar is below the second, `0` elsewhere.
pub open spec fn less_flag(x: Data, y: Data) -> Data {
    if x < y {
        1
    } else {
        0
    }
}

/// Adds two scalars; the sum that does not fit is an `AtomFailure`.
pub fn sum(x: Data, y: Data) -> (r: Result<Data, Error>)
    ensures
        r == checked_sum(x, y),
{
    match x.checked_add(y) {
        Some(v) => Ok(v),
        None => Err(Error::AtomFailure),
    }
}

/// Subtracts the second scalar from the first; the difference that does not
/// fit is an `AtomFailure`.
pub fn diff(x: Data, y: Data) -> (r: Result<Data, Error>)
    ensures
        r == checked_diff(x, y),
{
    match x.checked_sub(y) {
        Some(v) => Ok(v),
        None => Err(Error::AtomFailure),
    }
}

/// Compares two scalars and answers with a scalar.
pub fn less(x: Data, y: Data) -> (r: Data)
    ensures
        r == less_flag(x, y),
{
    if x < y {
        1
    } else {
        0
    }
}

} // verus!
