use crate::error::{Error, ResultError};
use vstd::prelude::*;

verus! {

pub type Int = i32;

pub type Char = char;

pub type Byte = u8;

/// `i` as a `u8`, or `TryFromIntError` when it does not fit.
pub fn u32_to_u8(i: u32) -> (r: ResultError<u8>)
    ensures
        i <= u8::MAX ==> r == Ok::<u8, Error>(i as u8),
        i > u8::MAX ==> r matches Err(Error::TryFromIntError(_)),
{
    if i <= 0xFF {
        Ok(i as u8)
    } else {
        Err(Error::TryFromIntError("Error converting u32 to u8!".to_owned()))
    }
}

/// `i` as a `usize`; every `u32` fits on the machines this library is built for.
pub fn u32_to_usize(i: u32) -> (r: ResultError<usize>)
    ensures
        r == Ok::<usize, Error>(i as usize),
{
    Ok(i as usize)
}

/// `i` as an `i32`, or `TryFromIntError` when it does not fit.
pub fn u32_to_i32(i: u32) -> (r: ResultError<i32>)
    ensures
        i <= i32::MAX ==> r == Ok::<i32, Error>(i as i32),
        i > i32::MAX ==> r matches Err(Error::TryFromIntError(_)),
{
    if i <= 0x7FFF_FFFF {
        Ok(i as i32)
    } else {
        Err(Error::TryFromIntError("Error converting u32 to i32!".to_owned()))
    }
}

/// `i` as a `u32`, or `TryFromIntError` when it is negative.
pub fn i32_to_u32(i: i32) -> (r: ResultError<u32>)
    ensures
        i >= 0 ==> r == Ok::<u32, Error>(i as u32),
        i < 0 ==> r matches Err(Error::TryFromIntError(_)),
{
    if i >= 0 {
        Ok(i as u32)
    } else {
        Err(Error::TryFromIntError("Error converting i32 to u32!".to_owned()))
    }
}

/// `i` as a `u8`, or `TryFromIntError` when it is outside `0..=255`.
pub fn i32_to_u8(i: i32) -> (r: ResultError<u8>)
    ensures
        0 <= i <= u8::MAX ==> r == Ok::<u8, Error>(i as u8),
        !(0 <= i <= u8::MAX) ==> r matches Err(Error::TryFromIntError(_)),
{
    if 0 <= i && i <= 0xFF {
        Ok(i as u8)
    } else {
        Err(Error::TryFromIntError("Error converting i32 to u8!".to_owned()))
    }
}

/// `i` as a `usize`, or `TryFromIntError` when it is negative.
pub fn i32_to_usize(i: i32) -> (r: ResultError<usize>)
    ensures
        i >= 0 ==> r == Ok::<usize, Error>(i as usize),
        i < 0 ==> r matches Err(Error::TryFromIntError(_)),
{
    if i >= 0 {
        Ok(i as usize)
    } else {
        Err(Error::TryFromIntError("Error converting i32 to usize!".to_owned()))
    }
}

/// `i` as a `u32`, or `TryFromIntError` when it does not fit.
pub fn usize_to_u32(i: usize) -> (r: ResultError<u32>)
    ensures
        i <= u32::MAX ==> r == Ok::<u32, Error>(i as u32),
        i > u32::MAX ==> r matches Err(Error::TryFromIntError(_)),
{
    if i <= 0xFFFF_FFFF {
        Ok(i as u32)
    } else {
        Err(Error::TryFromIntError("Error converting usize to u32!".to_owned()))
    }
}

/// `i` as an `i32`, or `TryFromIntError` when it does not fit.
pub fn usize_to_i32(i: usize) -> (r: ResultError<i32>)
    ensures
        i <= i32::MAX ==> r == Ok::<i32, Error>(i as i32),
        i > i32::MAX ==> r matches Err(Error::TryFromIntError(_)),
{
    if i <= 0x7FFF_FFFF {
        Ok(i as i32)
    } else {
        Err(Error::TryFromIntError("Error converting usize to i32!".to_owned()))
    }
}

/// The scalar value of `i`; always succeeds.
pub fn char_to_u32(i: char) -> (r: ResultError<u32>)
    ensures
        r == Ok::<u32, Error>(i as u32),
{
    Ok(i as u32)
}

} // verus!
