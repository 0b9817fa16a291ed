//! What holds of every archive and every walk.

use crate::cid::cid_at;
use crate::error::ErrorKind;
use crate::header::HeaderValue;
use crate::header::lemma_header_node_round_trip;
use crate::node::NodeValue;
use crate::reader::Archive;
use crate::reader::MAX_ALLOWED_SECTION_SIZE;
use crate::reader::section_at;
use crate::reader::sections_from;
use crate::source::bytes_from;
use crate::treewalk::Outcome;
use crate::treewalk::ParentValue;
use crate::treewalk::Walk;
use crate::treewalk::WalkState;
use crate::treewalk::children;
use crate::treewalk::chunk_header;
use crate::treewalk::room;
use crate::treewalk::start;
use crate::varint::VarintRead;
use crate::varint::varint_at;
use crate::writer::framed;
use crate::writer::lemma_section_longer_than_payload;
use crate::writer::section_bytes;
use vstd::prelude::*;

verus! {

/// Whether every block of `archive` makes a section of at most `largest`
/// bytes, of which at most `overhead` are not the block's own.
pub open spec fn sections_within(archive: Archive, overhead: nat, largest: nat) -> bool {
    forall|cid: Seq<u8>| (#[trigger] archive.block_data(cid)) matches Ok(data) ==> {
        &&& section_bytes(cid, data).len() <= data.len() + overhead
        &&& section_bytes(cid, data).len() <= largest
    }
}

/// The state of a walk that has yielded its last chunk.
pub open spec fn exhausted() -> WalkState {
    WalkState { writer: Seq::empty(), pending: Seq::empty() }
}

/// The target is a soft bound. A chunk is never empty, and it is longer than
/// the target by at most the framing of one section and one whole section,
/// unless the archive was longer than that when the call began: then it is
/// longer than the archive was by at most one section.
pub proof fn lemma_chunk_size(
    walk: Walk,
    state: WalkState,
    overhead: nat,
    largest: nat,
    bound: nat,
)
    requires
        sections_within(walk.archive, overhead, largest),
        state.writer.len() <= bound,
        walk.target + overhead <= bound,
    ensures
        walk.next_chunk(state) matches Outcome::Chunk { bytes, .. } ==> 0 < bytes.len() <= bound
            + largest,
    decreases room(walk.target, state.writer.len()),
{
    if state.pending.len() != 0 {
        let block = state.pending[0];
        if let Ok(data) = walk.archive.block_data(block.cid) {
            lemma_section_longer_than_payload(block.cid, data);
            if let Ok(added) = walk.add_block(state.writer, block.cid, data) {
                if added.ready is None {
                    let parents = if added.links.len() > 0 {
                        block.parents.push(ParentValue { data, cid: block.cid })
                    } else {
                        block.parents
                    };
                    let pending = children(added.links, parents) + state.pending.drop_first();
                    lemma_chunk_size(
                        walk,
                        WalkState { writer: added.writer, pending },
                        overhead,
                        largest,
                        bound,
                    );
                }
            }
        }
    }
}

/// After the last chunk the walk stays over.
pub proof fn lemma_exhausted_walk_is_done(walk: Walk)
    ensures
        walk.next_chunk(exhausted()) == Outcome::Done,
{
}

/// A root that is a leaf of bytes gives exactly one chunk, the header and
/// the root's section, whatever the target.
pub proof fn lemma_leaf_root_gives_one_chunk(archive: Archive, header: HeaderValue, target: usize)
    requires
        start(archive, header) is Ok,
        archive.block_node(header.roots[0]) matches Ok(NodeValue::Bytes(_)),
    ensures
        ({
            let (root, state) = start(archive, header).unwrap();
            let walk = Walk { archive, root, target };
            let head = chunk_header(root).encoding().unwrap();
            let data = archive.block_data(root).unwrap();
            &&& root == header.roots[0]
            &&& walk.next_chunk(state) == Outcome::Chunk {
                bytes: framed(head) + section_bytes(root, data),
                next: exhausted(),
            }
            &&& walk.next_chunk(exhausted()) == Outcome::Done
        }),
{
    let (root, state) = start(archive, header).unwrap();
    let data = archive.block_data(root).unwrap();
    let head = chunk_header(root).encoding().unwrap();
    let parents = seq![ParentValue { data, cid: root }];
    assert(parents.drop_last() =~= Seq::<ParentValue>::empty());
    reveal_with_fuel(crate::treewalk::chain_bytes, 2);
    assert(state.pending =~= Seq::empty());
    assert(state.writer =~= framed(head) + section_bytes(root, data));
    lemma_section_longer_than_payload(root, data);
}

/// An archive with no root or with several is refused as an invalid file.
pub proof fn lemma_roots_other_than_one_are_refused(archive: Archive, header: HeaderValue)
    requires
        header.roots.len() != 1,
    ensures
        start(archive, header) == Err::<(Seq<u8>, WalkState), ErrorKind>(ErrorKind::InvalidFile),
{
}

/// A section whose identifier takes more bytes than the section declares is
/// a parsing failure, and so is the scan that meets it.
pub proof fn lemma_overlong_identifier_fails(bytes: Seq<u8>, pos: nat)
    requires
        varint_at(bytes_from(bytes, pos)) matches VarintRead::Value { value, consumed } && value
            <= MAX_ALLOWED_SECTION_SIZE && (cid_at(
            bytes_from(bytes, (pos + consumed) as nat),
        ) matches Some((_, taken)) && taken > value),
    ensures
        section_at(bytes, pos) == Err::<
            Option<(crate::section::SectionValue, nat)>,
            ErrorKind,
        >(ErrorKind::Parsing),
        sections_from(bytes, pos) == Err::<Seq<crate::section::SectionValue>, ErrorKind>(
            ErrorKind::Parsing,
        ),
{
}

/// A header with a root and of version 1 is decoded from any bytes that the
/// codec decodes as the header's value.
pub proof fn lemma_header_decodes_from_its_value(header: HeaderValue, bytes: Seq<u8>)
    requires
        header.roots.len() > 0,
        header.version == 1,
        HeaderValue::decoded_node(bytes) == Some(header.as_node()),
    ensures
        HeaderValue::decoding(bytes) == Ok::<HeaderValue, ErrorKind>(header),
{
    lemma_header_node_round_trip(header);
}

} // verus!
