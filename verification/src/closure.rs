//! Every chunk is an archive on its own: behind the header stands the root,
//! and every other block stands behind a block that links to it.

use crate::error::ErrorKind;
use crate::header::HeaderValue;
use crate::laws::exhausted;
use crate::node::block_decoding;
use crate::reader::Archive;
use crate::reader::lookup;
use crate::section::SectionValue;
use crate::treewalk::Outcome;
use crate::treewalk::ParentValue;
use crate::treewalk::PendingValue;
use crate::treewalk::Walk;
use crate::treewalk::WalkState;
use crate::treewalk::block_links;
use crate::treewalk::chain_bytes;
use crate::treewalk::children;
use crate::treewalk::chunk_header;
use crate::writer::framed;
use crate::treewalk::room;
use crate::treewalk::seed;
use crate::treewalk::start;
use crate::writer::lemma_section_longer_than_payload;
use crate::writer::section_bytes;
use crate::writer::section_fits;
use vstd::prelude::*;

verus! {

/// The children of a block: the targets of its list of links; none where the
/// block cannot be decoded or its links have the wrong shape.
pub open spec fn links_of(block: ParentValue) -> Seq<Seq<u8>> {
    match block_decoding(block.cid, block.data) {
        Some(node) => match block_links(node) {
            Ok(links) => links,
            Err(_) => Seq::empty(),
        },
        None => Seq::empty(),
    }
}

/// Whether `parent` links to the block `cid`.
pub open spec fn is_child(parent: ParentValue, cid: Seq<u8>) -> bool {
    links_of(parent).contains(cid)
}

/// Whether a block that stands before block `i` links to it.
pub open spec fn has_parent_before(blocks: Seq<ParentValue>, i: int) -> bool {
    exists|j: int| 0 <= j < i && is_child(#[trigger] blocks[j], blocks[i].cid)
}

/// Whether `blocks` start with the block `root` and hold, before every other
/// block, a block that links to it.
pub open spec fn closed(root: Seq<u8>, blocks: Seq<ParentValue>) -> bool {
    &&& blocks.len() > 0
    &&& blocks[0].cid == root
    &&& forall|i: int| 0 < i < blocks.len() ==> #[trigger] has_parent_before(blocks, i)
}

/// Whether every one of `blocks` is a block of `archive`, with the bytes
/// that `archive` holds for it.
pub open spec fn from_archive(archive: Archive, blocks: Seq<ParentValue>) -> bool {
    forall|i: int|
        0 <= i < blocks.len() ==> archive.block_data((#[trigger] blocks[i]).cid) == Ok::<
            Seq<u8>,
            ErrorKind,
        >(blocks[i].data)
}

/// Whether `bytes` are an archive on their own: a header whose one root is
/// `root`, then blocks that are closed under `root`.
pub open spec fn is_closed_archive(root: Seq<u8>, bytes: Seq<u8>) -> bool {
    exists|blocks: Seq<ParentValue>| #[trigger]
        closed(root, blocks) && seed(root, blocks) == Ok::<Seq<u8>, ErrorKind>(bytes)
}

/// Whether `bytes` begin with a header behind its length that decodes as
/// the header of version 1 with the one root `root`.
pub open spec fn begins_with_header(root: Seq<u8>, bytes: Seq<u8>) -> bool {
    exists|head: Seq<u8>, tail: Seq<u8>|
        bytes == #[trigger] (framed(head) + tail) && HeaderValue::decoding(head) == Ok::<
            HeaderValue,
            ErrorKind,
        >(chunk_header(root))
}

/// An archive that was seeded for `root` begins with the header of `root`,
/// in bytes that decode as that header.
pub proof fn lemma_seeded_archive_begins_with_header(
    root: Seq<u8>,
    blocks: Seq<ParentValue>,
    bytes: Seq<u8>,
)
    requires
        seed(root, blocks) == Ok::<Seq<u8>, ErrorKind>(bytes),
    ensures
        begins_with_header(root, bytes),
{
    let head = chunk_header(root).encoding().unwrap();
    let tail = chain_bytes(blocks).unwrap();
    assert(bytes == framed(head) + tail);
}

/// Whether `bytes` are an archive on their own, made of blocks of `archive`.
pub open spec fn is_chunk_of(archive: Archive, root: Seq<u8>, bytes: Seq<u8>) -> bool {
    exists|blocks: Seq<ParentValue>| #[trigger]
        closed(root, blocks) && from_archive(archive, blocks) && seed(root, blocks) == Ok::<
            Seq<u8>,
            ErrorKind,
        >(bytes)
}

/// Whether `path` leads from the block `root` down to the block `cid`
/// through blocks of `archive`.
pub open spec fn leads_to(
    archive: Archive,
    root: Seq<u8>,
    path: Seq<ParentValue>,
    cid: Seq<u8>,
) -> bool {
    &&& is_chain(root, path)
    &&& from_archive(archive, path)
    &&& path.last().cid == cid
}

/// Whether the root of `archive` reaches the block `cid` by links.
pub open spec fn reachable(archive: Archive, root: Seq<u8>, cid: Seq<u8>) -> bool {
    exists|path: Seq<ParentValue>| leads_to(archive, root, path, cid)
}

/// Whether `parents` lead from the block `root` down, each block a child of
/// the one before it.
pub open spec fn is_chain(root: Seq<u8>, parents: Seq<ParentValue>) -> bool {
    &&& parents.len() > 0
    &&& parents[0].cid == root
    &&& forall|i: int| 0 < i < parents.len() ==> is_child(parents[i - 1], (#[trigger] parents[i]).cid)
}

/// Whether `a` is the beginning of `b`.
pub open spec fn is_prefix(a: Seq<ParentValue>, b: Seq<ParentValue>) -> bool {
    &&& a.len() <= b.len()
    &&& forall|i: int| 0 <= i < a.len() ==> #[trigger] a[i] == b[i]
}

/// Whether every one of `parents` is among `blocks`.
pub open spec fn within(parents: Seq<ParentValue>, blocks: Seq<ParentValue>) -> bool {
    forall|i: int| 0 <= i < parents.len() ==> blocks.contains(#[trigger] parents[i])
}

/// Whether each pending block comes with the chain that leads to it, and the
/// chains get no longer down the queue: each is the beginning of the one
/// before it.
pub open spec fn queue_in_order(root: Seq<u8>, pending: Seq<PendingValue>) -> bool {
    &&& forall|k: int|
        0 <= k < pending.len() ==> is_chain(root, (#[trigger] pending[k]).parents) && is_child(
            pending[k].parents.last(),
            pending[k].cid,
        )
    &&& forall|k: int|
        0 < k < pending.len() ==> is_prefix((#[trigger] pending[k]).parents, pending[k - 1].parents)
}

/// Whether `state` is a state in which `walk` can stand while the archive
/// under construction holds `blocks`: the archive is closed and made of
/// blocks of the input, and the ancestors of every pending block are in it.
pub open spec fn well_formed(walk: Walk, state: WalkState, blocks: Seq<ParentValue>) -> bool {
    &&& closed(walk.root, blocks)
    &&& from_archive(walk.archive, blocks)
    &&& seed(walk.root, blocks) == Ok::<Seq<u8>, ErrorKind>(state.writer)
    &&& queue_in_order(walk.root, state.pending)
    &&& state.pending.len() > 0 ==> within(state.pending[0].parents, blocks)
}

/// A lookup finds a section of the identifier that was asked for.
pub proof fn lemma_lookup_finds_the_identifier(index: Seq<SectionValue>, cid: Seq<u8>)
    ensures
        lookup(index, cid) matches Some(section) ==> section.cid == cid,
    decreases index.len(),
{
    if index.len() > 0 && index.last().cid != cid {
        lemma_lookup_finds_the_identifier(index.drop_last(), cid);
    }
}

/// The value of a block in the archive is what its bytes decode as.
pub proof fn lemma_node_is_decoded_from_data(archive: Archive, cid: Seq<u8>)
    requires
        archive.block_data(cid) is Ok,
    ensures
        archive.block_node(cid) == match block_decoding(cid, archive.block_data(cid).unwrap()) {
            Some(node) => Ok::<crate::node::NodeValue, ErrorKind>(node),
            None => Err(ErrorKind::Parsing),
        },
{
    lemma_lookup_finds_the_identifier(archive.index, cid);
}

/// A chain is closed.
pub proof fn lemma_chain_is_closed(root: Seq<u8>, parents: Seq<ParentValue>)
    requires
        is_chain(root, parents),
    ensures
        closed(root, parents),
{
    assert forall|i: int| 0 < i < parents.len() implies #[trigger] has_parent_before(
        parents,
        i,
    ) by {
        assert(is_child(parents[i - 1], parents[i].cid));
    }
}

/// Appending a block to closed blocks that hold one of its parents leaves
/// them closed, and appends the block's section to their bytes.
pub proof fn lemma_append_keeps_closed(
    root: Seq<u8>,
    blocks: Seq<ParentValue>,
    block: ParentValue,
    parent: ParentValue,
)
    requires
        closed(root, blocks),
        seed(root, blocks) is Ok,
        section_fits(block.cid, block.data),
        blocks.contains(parent),
        is_child(parent, block.cid),
    ensures
        closed(root, blocks.push(block)),
        seed(root, blocks.push(block)) == Ok::<Seq<u8>, ErrorKind>(
            seed(root, blocks).unwrap() + section_bytes(block.cid, block.data),
        ),
{
    let longer = blocks.push(block);
    assert(longer.drop_last() =~= blocks);
    let head = crate::treewalk::chunk_header(root).encoding().unwrap();
    let bytes = chain_bytes(blocks).unwrap();
    assert(crate::writer::framed(head) + (bytes + section_bytes(block.cid, block.data))
        =~= crate::writer::framed(head) + bytes + section_bytes(block.cid, block.data));
    let at = choose|j: int| 0 <= j < blocks.len() && blocks[j] == parent;
    assert forall|i: int| 0 < i < longer.len() implies #[trigger] has_parent_before(longer, i) by {
        if i < blocks.len() {
            assert(has_parent_before(blocks, i));
            let j = choose|j: int| 0 <= j < i && is_child(#[trigger] blocks[j], blocks[i].cid);
            assert(longer[j] == blocks[j]);
        } else {
            assert(longer[at] == parent);
        }
    }
}

/// What a visit of the first pending block leaves behind, where it succeeds:
/// the chain of the block, the block included if it has children, and the
/// queue with the children in front.
pub open spec fn visited(walk: Walk, state: WalkState) -> (Seq<ParentValue>, Seq<PendingValue>) {
    let block = state.pending[0];
    let data = walk.archive.block_data(block.cid).unwrap();
    let added = walk.add_block(state.writer, block.cid, data).unwrap();
    let parents = if added.links.len() > 0 {
        block.parents.push(ParentValue { data, cid: block.cid })
    } else {
        block.parents
    };
    (parents, children(added.links, parents) + state.pending.drop_first())
}

/// A visit keeps the queue in order, and the chain of the visited block
/// holds the ancestors of the block that is pending next.
pub proof fn lemma_visit_keeps_order(walk: Walk, state: WalkState)
    requires
        queue_in_order(walk.root, state.pending),
        state.pending.len() > 0,
        walk.archive.block_data(state.pending[0].cid) is Ok,
        walk.add_block(
            state.writer,
            state.pending[0].cid,
            walk.archive.block_data(state.pending[0].cid).unwrap(),
        ) is Ok,
    ensures
        ({
            let (parents, pending) = visited(walk, state);
            &&& is_chain(walk.root, parents)
            &&& is_prefix(state.pending[0].parents, parents)
            &&& queue_in_order(walk.root, pending)
            &&& pending.len() > 0 ==> is_prefix(pending[0].parents, parents)
        }),
{
    let block = state.pending[0];
    let data = walk.archive.block_data(block.cid).unwrap();
    let added = walk.add_block(state.writer, block.cid, data).unwrap();
    let (parents, pending) = visited(walk, state);
    let rest = state.pending.drop_first();
    let fresh = children(added.links, parents);
    let visited_block = ParentValue { data, cid: block.cid };
    lemma_node_is_decoded_from_data(walk.archive, block.cid);
    assert(links_of(visited_block) == added.links);
    assert(is_chain(walk.root, block.parents));
    assert(is_child(block.parents.last(), block.cid));
    assert(is_prefix(block.parents, parents));
    assert(is_chain(walk.root, parents)) by {
        assert forall|i: int| 0 < i < parents.len() implies is_child(
            parents[i - 1],
            (#[trigger] parents[i]).cid,
        ) by {
            if i < block.parents.len() {
                assert(parents[i] == block.parents[i]);
                assert(parents[i - 1] == block.parents[i - 1]);
            }
        }
    }
    assert forall|k: int| 0 <= k < pending.len() implies is_chain(
        walk.root,
        (#[trigger] pending[k]).parents,
    ) && is_child(pending[k].parents.last(), pending[k].cid) by {
        if k < fresh.len() {
            assert(pending[k] == fresh[k]);
            assert(fresh[k].cid == added.links[k]);
            assert(added.links.contains(added.links[k]));
            assert(parents.last() == visited_block);
        } else {
            assert(pending[k] == state.pending[k - fresh.len() + 1]);
        }
    }
    assert forall|k: int| 0 < k < pending.len() implies is_prefix(
        (#[trigger] pending[k]).parents,
        pending[k - 1].parents,
    ) by {
        if k < fresh.len() {
            assert(pending[k] == fresh[k]);
            assert(pending[k - 1] == fresh[k - 1]);
        } else if k == fresh.len() {
            assert(pending[k] == state.pending[1]);
            assert(pending[k - 1] == fresh[k - 1]);
            assert(is_prefix(state.pending[1].parents, state.pending[0].parents));
        } else {
            assert(pending[k] == state.pending[k - fresh.len() + 1]);
            assert(pending[k - 1] == state.pending[k - fresh.len()]);
        }
    }
    if pending.len() > 0 {
        if fresh.len() > 0 {
            assert(pending[0] == fresh[0]);
        } else {
            assert(pending[0] == state.pending[1]);
            assert(is_prefix(state.pending[1].parents, state.pending[0].parents));
        }
    }
}

/// What begins something that is within blocks is within them too.
pub proof fn lemma_prefix_within(
    a: Seq<ParentValue>,
    b: Seq<ParentValue>,
    blocks: Seq<ParentValue>,
)
    requires
        is_prefix(a, b),
        within(b, blocks),
    ensures
        within(a, blocks),
{
    assert forall|i: int| 0 <= i < a.len() implies blocks.contains(#[trigger] a[i]) by {
        assert(a[i] == b[i]);
    }
}

/// A walk that opens stands in a well-formed state, with the root block as
/// the one block of the archive under construction.
pub proof fn lemma_start_is_well_formed(archive: Archive, header: HeaderValue, target: usize)
    requires
        start(archive, header) is Ok,
    ensures
        ({
            let (root, state) = start(archive, header).unwrap();
            let data = archive.block_data(root).unwrap();
            well_formed(Walk { archive, root, target }, state, seq![ParentValue { data, cid: root }])
        }),
{
    let (root, state) = start(archive, header).unwrap();
    let data = archive.block_data(root).unwrap();
    let block = ParentValue { data, cid: root };
    let blocks = seq![block];
    lemma_node_is_decoded_from_data(archive, root);
    let links = links_of(block);
    assert(state.pending == children(links, blocks));
    assert forall|k: int| 0 <= k < state.pending.len() implies is_chain(
        root,
        (#[trigger] state.pending[k]).parents,
    ) && is_child(state.pending[k].parents.last(), state.pending[k].cid) by {
        assert(state.pending[k].cid == links[k]);
        assert(links.contains(links[k]));
    }
    if state.pending.len() > 0 {
        assert(blocks[0] == block);
        assert(blocks.contains(block));
    }
}

/// The blocks of the chunk that the walk yields next from `state`, where
/// the archive under construction holds `blocks`, and the blocks that the
/// archive after it starts with.
pub open spec fn chunk_trace(walk: Walk, state: WalkState, blocks: Seq<ParentValue>) -> (
    Seq<ParentValue>,
    Seq<ParentValue>,
)
    decreases room(walk.target, state.writer.len()),
{
    if state.pending.len() == 0 {
        (blocks, Seq::empty())
    } else {
        let block = state.pending[0];
        match walk.archive.block_data(block.cid) {
            Err(_) => (blocks, Seq::empty()),
            Ok(data) => match walk.add_block(state.writer, block.cid, data) {
                Err(_) => (blocks, Seq::empty()),
                Ok(added) => {
                    let (parents, pending) = visited(walk, state);
                    let longer = blocks.push(ParentValue { data, cid: block.cid });
                    match added.ready {
                        Some(_) => (longer, parents),
                        None => {
                            proof {
                                lemma_section_longer_than_payload(block.cid, data);
                            }
                            chunk_trace(walk, WalkState { writer: added.writer, pending }, longer)
                        },
                    }
                },
            }
        }
    }
}

/// Whether `path` leads from the block `root` down through blocks of
/// `archive`.
pub open spec fn is_path(archive: Archive, root: Seq<u8>, path: Seq<ParentValue>) -> bool {
    is_chain(root, path) && from_archive(archive, path)
}

/// Whether block `t` of `path` is the pending block `k`.
pub open spec fn meets(path: Seq<ParentValue>, pending: Seq<PendingValue>, t: int, k: int) -> bool {
    0 <= t < path.len() && 0 <= k < pending.len() && pending[k].cid == path[t].cid
}

/// Whether a block of `path` is pending.
pub open spec fn passes_pending(path: Seq<ParentValue>, pending: Seq<PendingValue>) -> bool {
    exists|t: int, k: int| meets(path, pending, t, k)
}

/// Whether the walk has lost no block: every path from the root ends in a
/// block that is among `covered`, or passes a block that is pending.
pub open spec fn frontier(walk: Walk, covered: Seq<ParentValue>, pending: Seq<PendingValue>) -> bool {
    forall|path: Seq<ParentValue>| #[trigger]
        is_path(walk.archive, walk.root, path) ==> covered.contains(path.last()) || passes_pending(
            path,
            pending,
        )
}

/// A frontier stays one when more blocks are covered.
pub proof fn lemma_frontier_grows(
    walk: Walk,
    covered: Seq<ParentValue>,
    more: Seq<ParentValue>,
    pending: Seq<PendingValue>,
)
    requires
        frontier(walk, covered, pending),
        forall|block: ParentValue| covered.contains(block) ==> more.contains(block),
    ensures
        frontier(walk, more, pending),
{
    assert forall|path: Seq<ParentValue>| #[trigger]
        is_path(walk.archive, walk.root, path) implies more.contains(path.last()) || passes_pending(
        path,
        pending,
    ) by {
        if covered.contains(path.last()) {
        }
    }
}

/// What is among blocks is among them and more, before or behind.
pub proof fn lemma_contains_in_sum(a: Seq<ParentValue>, b: Seq<ParentValue>)
    ensures
        forall|block: ParentValue| a.contains(block) ==> (a + b).contains(block),
        forall|block: ParentValue| b.contains(block) ==> (a + b).contains(block),
        forall|block: ParentValue| (a + b).contains(block) ==> a.contains(block) || b.contains(block),
{
    assert forall|block: ParentValue| a.contains(block) implies (a + b).contains(block) by {
        let i = choose|i: int| 0 <= i < a.len() && a[i] == block;
        assert((a + b)[i] == block);
    }
    assert forall|block: ParentValue| b.contains(block) implies (a + b).contains(block) by {
        let i = choose|i: int| 0 <= i < b.len() && b[i] == block;
        assert((a + b)[a.len() + i] == block);
    }
    assert forall|block: ParentValue| (a + b).contains(block) implies a.contains(block)
        || b.contains(block) by {
        let i = choose|i: int| 0 <= i < (a + b).len() && (a + b)[i] == block;
        if i < a.len() {
            assert(a[i] == block);
        } else {
            assert(b[i - a.len()] == block);
        }
    }
}

/// A visit loses no block: the visited block is covered, and its children
/// are pending.
pub proof fn lemma_visit_keeps_frontier(walk: Walk, state: WalkState, covered: Seq<ParentValue>)
    requires
        frontier(walk, covered, state.pending),
        state.pending.len() > 0,
        walk.archive.block_data(state.pending[0].cid) is Ok,
        walk.add_block(
            state.writer,
            state.pending[0].cid,
            walk.archive.block_data(state.pending[0].cid).unwrap(),
        ) is Ok,
    ensures
        frontier(
            walk,
            covered.push(
                ParentValue {
                    data: walk.archive.block_data(state.pending[0].cid).unwrap(),
                    cid: state.pending[0].cid,
                },
            ),
            visited(walk, state).1,
        ),
{
    let block = state.pending[0];
    let data = walk.archive.block_data(block.cid).unwrap();
    let added = walk.add_block(state.writer, block.cid, data).unwrap();
    let (parents, pending) = visited(walk, state);
    let fresh = children(added.links, parents);
    let visited_block = ParentValue { data, cid: block.cid };
    let more = covered.push(visited_block);
    lemma_node_is_decoded_from_data(walk.archive, block.cid);
    assert(links_of(visited_block) == added.links);
    assert forall|path: Seq<ParentValue>| #[trigger]
        is_path(walk.archive, walk.root, path) implies more.contains(path.last()) || passes_pending(
        path,
        pending,
    ) by {
        if covered.contains(path.last()) {
            let i = choose|i: int| 0 <= i < covered.len() && covered[i] == path.last();
            assert(more[i] == path.last());
        } else {
            assert(passes_pending(path, state.pending));
            let (t, k) = choose|t: int, k: int| meets(path, state.pending, t, k);
            assert(meets(path, state.pending, t, k));
            if k > 0 {
                assert(pending[fresh.len() + k - 1] == state.pending[k]);
                assert(meets(path, pending, t, fresh.len() + k - 1));
            } else {
                assert(path[t].cid == block.cid);
                assert(walk.archive.block_data(path[t].cid) == Ok::<Seq<u8>, ErrorKind>(
                    path[t].data,
                ));
                assert(path[t] == visited_block);
                if t == path.len() - 1 {
                    assert(more[covered.len() as int] == visited_block);
                } else {
                    assert(is_child(path[t], path[t + 1].cid));
                    let i = choose|i: int|
                        0 <= i < added.links.len() && added.links[i] == path[t + 1].cid;
                    assert(pending[i] == fresh[i]);
                    assert(meets(path, pending, t + 1, i));
                }
            }
        }
    }
}

/// A chunk that a walk yields from a well-formed state is made of the blocks
/// that the trace names: they are closed, they are blocks of the input, and
/// they begin with the blocks that the archive held. The walk then stands in
/// a well-formed state again, or is over. And no block is lost on the way.
pub proof fn lemma_next_chunk_traced(
    walk: Walk,
    state: WalkState,
    blocks: Seq<ParentValue>,
    emitted: Seq<ParentValue>,
)
    requires
        well_formed(walk, state, blocks),
    ensures
        walk.next_chunk(state) !is Done,
        walk.next_chunk(state) matches Outcome::Chunk { bytes, next } ==> {
            let (chunk, after) = chunk_trace(walk, state, blocks);
            &&& closed(walk.root, chunk)
            &&& from_archive(walk.archive, chunk)
            &&& seed(walk.root, chunk) == Ok::<Seq<u8>, ErrorKind>(bytes)
            &&& is_prefix(blocks, chunk)
            &&& (next == exhausted() && after.len() == 0 || well_formed(walk, next, after))
            &&& (frontier(walk, emitted + blocks, state.pending) ==> frontier(
                walk,
                emitted + chunk + after,
                next.pending,
            ))
        },
    decreases room(walk.target, state.writer.len()),
{
    let head = crate::treewalk::chunk_header(walk.root).encoding().unwrap();
    crate::varint::lemma_varint_bytes_nonempty(head.len());
    assert(state.writer.len() > 0);
    if state.pending.len() == 0 {
        assert(emitted + blocks + Seq::<ParentValue>::empty() =~= emitted + blocks);
    } else {
        let block = state.pending[0];
        if let Ok(data) = walk.archive.block_data(block.cid) {
            lemma_section_longer_than_payload(block.cid, data);
            if let Ok(added) = walk.add_block(state.writer, block.cid, data) {
                let visited_block = ParentValue { data, cid: block.cid };
                let (parents, pending) = visited(walk, state);
                let longer = blocks.push(visited_block);
                let parent = block.parents.last();
                assert(blocks.contains(parent));
                lemma_append_keeps_closed(walk.root, blocks, visited_block, parent);
                lemma_visit_keeps_order(walk, state);
                assert(from_archive(walk.archive, longer)) by {
                    assert forall|i: int| 0 <= i < longer.len() implies walk.archive.block_data(
                        (#[trigger] longer[i]).cid,
                    ) == Ok::<Seq<u8>, ErrorKind>(longer[i].data) by {
                        if i < blocks.len() {
                            assert(longer[i] == blocks[i]);
                        }
                    }
                }
                assert(within(parents, longer)) by {
                    assert forall|i: int| 0 <= i < parents.len() implies longer.contains(
                        #[trigger] parents[i],
                    ) by {
                        if i < block.parents.len() {
                            assert(parents[i] == block.parents[i]);
                            assert(blocks.contains(block.parents[i]));
                            let j = choose|j: int|
                                0 <= j < blocks.len() && blocks[j] == block.parents[i];
                            assert(longer[j] == parents[i]);
                        } else {
                            assert(longer[blocks.len() as int] == visited_block);
                        }
                    }
                }
                if frontier(walk, emitted + blocks, state.pending) {
                    lemma_visit_keeps_frontier(walk, state, emitted + blocks);
                    assert((emitted + blocks).push(visited_block) =~= emitted + longer);
                }
                match added.ready {
                    Some(bytes) => {
                        if let Ok(writer) = seed(walk.root, parents) {
                            let next = WalkState { writer, pending };
                            lemma_chain_is_closed(walk.root, parents);
                            if pending.len() > 0 {
                                assert forall|i: int| 0 <= i < parents.len() implies parents.contains(
                                    #[trigger] parents[i],
                                ) by {}
                                lemma_prefix_within(pending[0].parents, parents, parents);
                            }
                            assert(from_archive(walk.archive, parents)) by {
                                assert forall|i: int|
                                    0 <= i < parents.len() implies walk.archive.block_data(
                                    (#[trigger] parents[i]).cid,
                                ) == Ok::<Seq<u8>, ErrorKind>(parents[i].data) by {
                                    assert(longer.contains(parents[i]));
                                }
                            }
                            assert(well_formed(walk, next, parents));
                            if frontier(walk, emitted + blocks, state.pending) {
                                lemma_contains_in_sum(emitted + longer, parents);
                                lemma_frontier_grows(
                                    walk,
                                    emitted + longer,
                                    emitted + longer + parents,
                                    pending,
                                );
                            }
                        }
                    },
                    None => {
                        let next = WalkState { writer: added.writer, pending };
                        if pending.len() > 0 {
                            lemma_prefix_within(pending[0].parents, parents, longer);
                        }
                        assert(well_formed(walk, next, longer));
                        lemma_next_chunk_traced(walk, next, longer, emitted);
                        let (chunk, after) = chunk_trace(walk, next, longer);
                        if walk.next_chunk(next) is Chunk {
                            assert(is_prefix(blocks, chunk)) by {
                                assert forall|i: int| 0 <= i < blocks.len() implies #[trigger]
                                    blocks[i] == chunk[i] by {
                                    assert(longer[i] == blocks[i]);
                                }
                            }
                        }
                    },
                }
            }
        }
    }
}

/// Every chunk that a walk yields from a well-formed state is an archive on
/// its own, made of blocks of the input, and the walk then stands in a
/// well-formed state again, or is over.
pub proof fn lemma_chunks_are_closed_archives(
    walk: Walk,
    state: WalkState,
    blocks: Seq<ParentValue>,
)
    requires
        well_formed(walk, state, blocks),
    ensures
        walk.next_chunk(state) matches Outcome::Chunk { bytes, next } ==> {
            &&& is_closed_archive(walk.root, bytes)
            &&& is_chunk_of(walk.archive, walk.root, bytes)
            &&& begins_with_header(walk.root, bytes)
            &&& (next == exhausted() || exists|after: Seq<ParentValue>| #[trigger]
                well_formed(walk, next, after))
        },
{
    lemma_next_chunk_traced(walk, state, blocks, Seq::empty());
    if let Outcome::Chunk { bytes, next } = walk.next_chunk(state) {
        lemma_seeded_archive_begins_with_header(
            walk.root,
            chunk_trace(walk, state, blocks).0,
            bytes,
        );
    }
}

/// A path from the root to block `i` of closed blocks of the archive.
pub proof fn lemma_path_to_block(
    archive: Archive,
    root: Seq<u8>,
    blocks: Seq<ParentValue>,
    i: int,
) -> (path: Seq<ParentValue>)
    requires
        closed(root, blocks),
        from_archive(archive, blocks),
        0 <= i < blocks.len(),
    ensures
        leads_to(archive, root, path, blocks[i].cid),
        path.last() == blocks[i],
    decreases i,
{
    if i == 0 {
        seq![blocks[0]]
    } else {
        assert(has_parent_before(blocks, i));
        let j = choose|j: int| 0 <= j < i && is_child(#[trigger] blocks[j], blocks[i].cid);
        let above = lemma_path_to_block(archive, root, blocks, j);
        let path = above.push(blocks[i]);
        assert forall|k: int| 0 < k < path.len() implies is_child(
            path[k - 1],
            (#[trigger] path[k]).cid,
        ) by {
            if k < above.len() {
                assert(path[k] == above[k]);
                assert(path[k - 1] == above[k - 1]);
            }
        }
        assert forall|k: int| 0 <= k < path.len() implies archive.block_data(
            (#[trigger] path[k]).cid,
        ) == Ok::<Seq<u8>, ErrorKind>(path[k].data) by {
            if k < above.len() {
                assert(path[k] == above[k]);
            }
        }
        path
    }
}

/// Every block of a chunk is a block of the input that the root reaches.
pub proof fn lemma_chunk_blocks_are_reachable(
    archive: Archive,
    root: Seq<u8>,
    blocks: Seq<ParentValue>,
)
    requires
        closed(root, blocks),
        from_archive(archive, blocks),
    ensures
        forall|i: int| 0 <= i < blocks.len() ==> reachable(archive, root, (#[trigger] blocks[i]).cid),
{
    assert forall|i: int| 0 <= i < blocks.len() implies reachable(
        archive,
        root,
        (#[trigger] blocks[i]).cid,
    ) by {
        let path = lemma_path_to_block(archive, root, blocks, i);
    }
}

} // verus!
