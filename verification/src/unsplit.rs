//! Reuniting the two halves of a split bidirectional stream.
//!
//! A stream split for concurrent reading and writing comes back as a read
//! half and a write half. This store keeps at most one of each, refuses a
//! second copy of either, refuses a half from a different stream where that
//! can be told, and reunites the two halves once both are present.

use vstd::prelude::*;

verus! {

#[verifier::external_type_specification]
#[verifier::external_body]
#[verifier::reject_recursive_types(T)]
pub struct ExReadHalf<T>(tokio::io::ReadHalf<T>);

#[verifier::external_type_specification]
#[verifier::external_body]
#[verifier::reject_recursive_types(T)]
pub struct ExWriteHalf<T>(tokio::io::WriteHalf<T>);

/// Errors of storing a half.
#[derive(Clone, Copy, Debug, PartialEq, Eq, Structural)]
pub enum UnsplitError {
    /// The half is already stored.
    Occupied,
    /// The other half is not from the same pair.
    Incompatible,
}

/// Relies on tokio::io::ReadHalf::is_pair_of: tells whether the two halves
/// came from the same split. Nothing is assumed about the answer.
#[verifier::external_body]
fn halves_are_pair<T>(
    read_half: &tokio::io::ReadHalf<T>,
    write_half: &tokio::io::WriteHalf<T>,
) -> bool {
    read_half.is_pair_of(write_half)
}

/// Relies on tokio::io::ReadHalf::is_pair_of and ReadHalf::unsplit: reunites
/// two halves of the same split into the stream they came from, and returns
/// `None` for halves of different streams, where a bare unsplit would panic.
#[verifier::external_body]
fn join_halves<T: Unpin>(
    read_half: tokio::io::ReadHalf<T>,
    write_half: tokio::io::WriteHalf<T>,
) -> Option<T> {
    if read_half.is_pair_of(&write_half) {
        Some(read_half.unsplit(write_half))
    } else {
        None
    }
}

/// Keeps at most one read half and one write half of a split stream.
#[verifier::reject_recursive_types(T)]
pub struct Unsplit<T> {
    read_half: Option<tokio::io::ReadHalf<T>>,
    write_half: Option<tokio::io::WriteHalf<T>>,
}

impl<T> Unsplit<T> {
    /// The stored read half.
    pub closed spec fn spec_read(&self) -> Option<tokio::io::ReadHalf<T>> {
        self.read_half
    }

    /// The stored write half.
    pub closed spec fn spec_write(&self) -> Option<tokio::io::WriteHalf<T>> {
        self.write_half
    }
}

impl<T> Default for Unsplit<T> {
    /// An empty store.
    fn default() -> (r: Self)
        ensures
            r.spec_read() is None,
            r.spec_write() is None,
    {
        Unsplit { read_half: None, write_half: None }
    }
}

impl<T: Unpin> Unsplit<T> {
    /// Stores a write half: refused when one is already stored, and refused
    /// as incompatible when a read half of another stream is stored.
    /// With no read half stored yet, storing always succeeds.
    pub fn save_write_half(&mut self, write_half: tokio::io::WriteHalf<T>) -> (r: Result<
        (),
        UnsplitError,
    >)
        ensures
            old(self).spec_write() is Some ==> r == Err::<(), UnsplitError>(UnsplitError::Occupied)
                && *final(self) == *old(self),
            old(self).spec_write() is None ==> final(self).spec_read() == old(self).spec_read() && (
            (r == Ok::<(), UnsplitError>(()) && final(self).spec_write() == Some(write_half)) || (r
                == Err::<(), UnsplitError>(UnsplitError::Incompatible) && old(
                self,
            ).spec_read() is Some && final(self).spec_write() is None)),
            old(self).spec_write() is None && old(self).spec_read() is None ==> r == Ok::<
                (),
                UnsplitError,
            >(()),
    {
        if self.write_half.is_some() {
            return Err(UnsplitError::Occupied);
        }
        if let Some(read_half) = &self.read_half {
            if !halves_are_pair(read_half, &write_half) {
                return Err(UnsplitError::Incompatible);
            }
        }
        self.write_half = Some(write_half);
        Ok(())
    }

    /// Stores a read half: refused when one is already stored, and refused
    /// as incompatible when a write half of another stream is stored.
    /// With no write half stored yet, storing always succeeds.
    pub fn save_read_half(&mut self, read_half: tokio::io::ReadHalf<T>) -> (r: Result<
        (),
        UnsplitError,
    >)
        ensures
            old(self).spec_read() is Some ==> r == Err::<(), UnsplitError>(UnsplitError::Occupied)
                && *final(self) == *old(self),
            old(self).spec_read() is None ==> final(self).spec_write() == old(self).spec_write()
                && ((r == Ok::<(), UnsplitError>(()) && final(self).spec_read() == Some(read_half))
                || (r == Err::<(), UnsplitError>(UnsplitError::Incompatible) && old(
                self,
            ).spec_write() is Some && final(self).spec_read() is None)),
            old(self).spec_read() is None && old(self).spec_write() is None ==> r == Ok::<
                (),
                UnsplitError,
            >(()),
    {
        if self.read_half.is_some() {
            return Err(UnsplitError::Occupied);
        }
        if let Some(write_half) = &self.write_half {
            if !halves_are_pair(&read_half, write_half) {
                return Err(UnsplitError::Incompatible);
            }
        }
        self.read_half = Some(read_half);
        Ok(())
    }

    /// Reunites the stored halves into the stream they were split from.
    /// `None` when a half is missing, or when the two stored halves turn out
    /// not to be from the same split.
    pub fn unsplit(self) -> (r: Option<T>)
        ensures
            self.spec_read() is None || self.spec_write() is None ==> r is None,
    {
        match (self.read_half, self.write_half) {
            (Some(read_half), Some(write_half)) => join_halves(read_half, write_half),
            _ => None,
        }
    }
}

} // verus!
