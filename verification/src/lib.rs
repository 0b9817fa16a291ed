//! Splits a content-addressable archive (CAR) into a sequence of smaller
//! archives, each of which is a valid archive on its own.
//!
//! An archive is a header, the list of its roots, and a sequence of
//! sections, one block each, all behind their lengths. [`reader`] scans an
//! archive once and indexes its blocks; [`writer`] builds one; [`treewalk`]
//! walks the tree below the root of the input, first child first, and cuts
//! the walk into output archives that each begin with the ancestors of the
//! blocks in them. [`cbor`] looks over bytes before a codec is let at them.
//! What holds of every walk is proved in [`laws`], [`closure`] and
//! [`cover`].

use crate::error::CarSplitterError;
use crate::error::ErrorKind;
use crate::header::HeaderValue;
use crate::reader::archive_at;
use crate::section::SectionValue;
use crate::reader::Archive;
use crate::source::ByteSource;
use crate::treewalk::Outcome;
use crate::treewalk::TreewalkSplitter;
use crate::treewalk::WalkState;
use crate::treewalk::opened;
use vstd::prelude::*;

pub mod cbor;
pub mod cid;
pub mod closure;
pub mod cover;
pub mod error;
pub mod header;
pub mod laws;
pub mod node;
pub mod reader;
pub mod section;
pub mod source;
pub mod treewalk;
pub mod varint;
pub mod writer;

verus! {

/// How an archive is split.
#[derive(Debug, Clone, Copy, PartialEq, Eq, Structural)]
pub enum Strategy {
    /// Blocks in the order in which they stand. Not provided.
    Simple,
    /// Blocks in the order of a walk of the tree below the root.
    Treewalk,
}

/// Something that yields the chunks of an archive one by one.
pub trait CarSplitter {
    /// The next chunk, or `None` when no chunk is left.
    fn next_chunk(&mut self) -> Result<Option<Vec<u8>>, CarSplitterError>;
}

impl CarSplitter for TreewalkSplitter {
    fn next_chunk(&mut self) -> (chunk: Result<Option<Vec<u8>>, CarSplitterError>)
        ensures
            final(self).walk() == old(self).walk(),
            final(self).reader.header == old(self).reader.header,
            old(self).headed() ==> final(self).headed(),
            match chunk {
                Ok(Some(bytes)) => old(self).walk().next_chunk(old(self).state())
                    == (Outcome::Chunk { bytes: bytes@, next: final(self).state() }),
                Ok(None) => old(self).walk().next_chunk(old(self).state()) == Outcome::Done
                    && final(self).state() == (WalkState {
                    writer: Seq::empty(),
                    pending: Seq::empty(),
                }),
                Err(e) => old(self).walk().next_chunk(old(self).state()) == Outcome::Fail(
                    e.kind(),
                ),
            },
    {
        self.next()
    }
}

/// A splitter of the archive in `r` that aims at chunks of `target_size`
/// bytes. Only the treewalk strategy is provided.
pub fn new_splitter(strategy: Strategy, r: ByteSource, target_size: usize) -> (splitter: Result<
    TreewalkSplitter,
    CarSplitterError,
>)
    requires
        strategy == Strategy::Treewalk,
    ensures
        match splitter {
            Ok(s) => opened(r.bytes@, r.pos as nat) == Ok::<
                (Archive, Seq<u8>, WalkState),
                ErrorKind,
            >((s.walk().archive, s.walk().root, s.state())) && s.target_size == target_size,
            Err(e) => opened(r.bytes@, r.pos as nat) == Err::<
                (Archive, Seq<u8>, WalkState),
                ErrorKind,
            >(e.kind()),
        },
        splitter matches Ok(s) ==> s.headed() && archive_at(r.bytes@, r.pos as nat) == Ok::<
            (HeaderValue, Seq<SectionValue>),
            ErrorKind,
        >((s.reader.header@, s.reader.index())),
        archive_at(r.bytes@, r.pos as nat) matches Ok((header, _)) ==> (header.roots.len() != 1
            ==> (splitter matches Err(e) && e.kind() == ErrorKind::InvalidFile)),
{
    TreewalkSplitter::new(r, target_size)
}

} // verus!
