//! The bytes of a mapped file.
//!
//! A 4 GB model must not become a 4 GB `Vec`: the mapping is made by the
//! caller, and this borrows it.

use vstd::prelude::*;

use crate::error::{invalid_data, Error};

verus! {

/// A read-only view of a mapped file, which is never empty.
#[derive(Clone, Copy)]
pub struct Mmap<'a> {
    bytes: &'a [u8],
}

impl<'a> View for Mmap<'a> {
    type V = Seq<u8>;

    closed spec fn view(&self) -> Seq<u8> {
        self.bytes@
    }
}

impl<'a> Mmap<'a> {
    /// Takes the bytes of a file. An empty file cannot be mapped.
    pub fn open(bytes: &'a [u8]) -> (map: Result<Self, Error>)
        ensures
            match map {
                Ok(m) => m@ == bytes@ && bytes@.len() > 0,
                Err(e) => e@ == invalid_data("file is empty"@) && bytes@.len() == 0,
            },
    {
        if bytes.len() == 0 {
            return Err(Error::bad("file is empty"));
        }
        Ok(Mmap { bytes })
    }

    /// The bytes of the file.
    pub fn as_slice(&self) -> (bytes: &'a [u8])
        ensures
            bytes@ == self@,
    {
        self.bytes
    }

    /// The length of the file.
    pub fn len(&self) -> (n: usize)
        ensures
            n == self@.len(),
    {
        self.bytes.len()
    }

    /// Whether there are no bytes.
    pub fn is_empty(&self) -> (empty: bool)
        ensures
            empty == (self@.len() == 0),
    {
        self.bytes.len() == 0
    }
}

} // verus!
