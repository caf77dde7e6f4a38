//! Overflow-checked arithmetic.

use vstd::prelude::*;

verus! {

/// Why an arithmetic operation was refused.
#[derive(Debug, Clone, Copy, PartialEq, Eq, Structural)]
pub enum OperationError {
    Overflow,
}

/// Whether `value + increment` fits in a `u16`.
pub fn check_overflow(value: u16, increment: u16) -> (r: bool)
    ensures
        r == (value + increment <= u16::MAX),
{
    match value.checked_add(increment) {
        Some(_) => true,
        None => false,
    }
}

/// Confirms that `value + increment` fits in a `u32`; a sum that does not fit
/// is a caller error (the operation would abort), so it is excluded here.
pub fn check_addition_u32_regular(value: u32, increment: u32) -> (r: bool)
    requires
        value + increment <= u32::MAX,
    ensures
        r,
{
    match value.checked_add(increment) {
        Some(_) => true,
        None => false,
    }
}

/// Confirms that `value * increment` fits in a `u32`; a product that does not
/// fit is a caller error (the operation would abort), so it is excluded here.
pub fn check_multiplication_u32_regular(value: u32, increment: u32) -> (r: bool)
    requires
        value * increment <= u32::MAX,
    ensures
        r,
{
    match value.checked_mul(increment) {
        Some(_) => true,
        None => false,
    }
}

/// The sum, or `Overflow` exactly when it does not fit in a `u32`.
#[allow(non_snake_case)]
pub fn check_addition_u32_Result(value: u32, increment: u32) -> (r: Result<u32, OperationError>)
    ensures
        value + increment <= u32::MAX ==> r == Ok::<u32, OperationError>((value + increment) as u32),
        value + increment > u32::MAX ==> r == Err::<u32, OperationError>(OperationError::Overflow),
{
    match value.checked_add(increment) {
        Some(result) => Ok(result),
        None => Err(OperationError::Overflow),
    }
}

/// The product, or `Overflow` exactly when it does not fit in a `u32`.
#[allow(non_snake_case)]
pub fn check_multiplication_u32_Result(value: u32, increment: u32) -> (r: Result<u32, OperationError>)
    ensures
        value * increment <= u32::MAX ==> r == Ok::<u32, OperationError>((value * increment) as u32),
        value * increment > u32::MAX ==> r == Err::<u32, OperationError>(OperationError::Overflow),
{
    match value.checked_mul(increment) {
        Some(result) => Ok(result),
        None => Err(OperationError::Overflow),
    }
}

/// Adds, then multiplies, the two operands, stopping at the first overflow.
/// The product is returned only when both the sum and the product fit.
pub fn showcase_overflow_with_propagation(value: u32, increment: u32) -> (r: Result<u32, OperationError>)
    ensures
        value + increment <= u32::MAX && value * increment <= u32::MAX
            ==> r == Ok::<u32, OperationError>((value * increment) as u32),
        value + increment > u32::MAX || value * increment > u32::MAX
            ==> r == Err::<u32, OperationError>(OperationError::Overflow),
{
    let _added = check_addition_u32_Result(value, increment)?;
    let multiplied = check_multiplication_u32_Result(value, increment)?;
    Ok(multiplied)
}

} // verus!
