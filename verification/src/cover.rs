//! The chunks of a walk that ends hold, together, the blocks that the root
//! reaches, and no others.

use crate::closure::chunk_trace;
use crate::closure::frontier;
use crate::closure::is_child;
use crate::closure::is_chunk_of;
use crate::closure::is_path;
use crate::closure::leads_to;
use crate::closure::lemma_contains_in_sum;
use crate::closure::lemma_next_chunk_traced;
use crate::closure::lemma_node_is_decoded_from_data;
use crate::closure::lemma_start_is_well_formed;
use crate::closure::links_of;
use crate::closure::meets;
use crate::closure::passes_pending;
use crate::closure::reachable;
use crate::closure::well_formed;
use crate::error::ErrorKind;
use crate::header::HeaderValue;
use crate::laws::exhausted;
use crate::reader::Archive;
use crate::treewalk::Outcome;
use crate::treewalk::ParentValue;
use crate::treewalk::Walk;
use crate::treewalk::WalkState;
use crate::treewalk::seed;
use crate::treewalk::start;
use vstd::prelude::*;

verus! {

/// The chunks that a walk yields from `state` until it is over: `None` where
/// it fails, and where it is not over after `calls` calls.
pub open spec fn chunks_of_run(walk: Walk, state: WalkState, calls: nat) -> Option<Seq<Seq<u8>>>
    decreases calls,
{
    if calls == 0 {
        None
    } else {
        match walk.next_chunk(state) {
            Outcome::Done => Some(Seq::empty()),
            Outcome::Fail(_) => None,
            Outcome::Chunk { bytes, next } => match chunks_of_run(walk, next, (calls - 1) as nat) {
                Some(rest) => Some(seq![bytes] + rest),
                None => None,
            },
        }
    }
}

/// Whether `bytes` are an archive with the one root `root` that holds
/// `block`.
pub open spec fn holds_block(root: Seq<u8>, bytes: Seq<u8>, block: ParentValue) -> bool {
    exists|blocks: Seq<ParentValue>|
        (#[trigger] seed(root, blocks)) == Ok::<Seq<u8>, ErrorKind>(bytes) && blocks.contains(block)
}

/// Whether one of `chunks` holds `block`.
pub open spec fn some_chunk_holds(root: Seq<u8>, chunks: Seq<Seq<u8>>, block: ParentValue) -> bool {
    exists|i: int| 0 <= i < chunks.len() && holds_block(root, #[trigger] chunks[i], block)
}

/// A walk that ends loses no block: every chunk is an archive on its own,
/// made of blocks of the input, and every path from the root ends in a block
/// that had been yielded before, or that one of the chunks holds.
pub proof fn lemma_run_loses_no_block(
    walk: Walk,
    state: WalkState,
    blocks: Seq<ParentValue>,
    emitted: Seq<ParentValue>,
    calls: nat,
)
    requires
        state == exhausted() && blocks.len() == 0 || well_formed(walk, state, blocks),
        frontier(walk, emitted + blocks, state.pending),
        chunks_of_run(walk, state, calls) is Some,
    ensures
        ({
            let chunks = chunks_of_run(walk, state, calls).unwrap();
            &&& forall|i: int|
                0 <= i < chunks.len() ==> is_chunk_of(walk.archive, walk.root, #[trigger] chunks[i])
            &&& forall|path: Seq<ParentValue>| #[trigger]
                is_path(walk.archive, walk.root, path) ==> emitted.contains(path.last())
                    || some_chunk_holds(walk.root, chunks, path.last())
        }),
    decreases calls,
{
    let chunks = chunks_of_run(walk, state, calls).unwrap();
    if well_formed(walk, state, blocks) {
        lemma_next_chunk_traced(walk, state, blocks, emitted);
        match walk.next_chunk(state) {
            Outcome::Chunk { bytes, next } => {
                let (chunk, after) = chunk_trace(walk, state, blocks);
                let rest = chunks_of_run(walk, next, (calls - 1) as nat).unwrap();
                lemma_run_loses_no_block(walk, next, after, emitted + chunk, (calls - 1) as nat);
                lemma_contains_in_sum(emitted, chunk);
                assert(chunks =~= seq![bytes] + rest);
                assert forall|i: int| 0 <= i < chunks.len() implies is_chunk_of(
                    walk.archive,
                    walk.root,
                    #[trigger] chunks[i],
                ) by {
                    if i > 0 {
                        assert(chunks[i] == rest[i - 1]);
                    }
                }
                assert forall|path: Seq<ParentValue>| #[trigger]
                    is_path(walk.archive, walk.root, path) implies emitted.contains(path.last())
                    || some_chunk_holds(walk.root, chunks, path.last()) by {
                    let last = path.last();
                    if (emitted + chunk).contains(last) {
                        if !emitted.contains(last) {
                            assert(chunk.contains(last));
                            assert(holds_block(walk.root, chunks[0], last));
                        }
                    } else {
                        assert(some_chunk_holds(walk.root, rest, last));
                        let i = choose|i: int|
                            0 <= i < rest.len() && holds_block(walk.root, #[trigger] rest[i], last);
                        assert(chunks[i + 1] == rest[i]);
                        assert(holds_block(walk.root, chunks[i + 1], last));
                    }
                }
            },
            _ => {},
        }
    } else {
        assert(emitted + blocks =~= emitted);
        assert forall|path: Seq<ParentValue>| #[trigger]
            is_path(walk.archive, walk.root, path) implies emitted.contains(path.last()) by {
            if passes_pending(path, state.pending) {
                let (t, k) = choose|t: int, k: int| meets(path, state.pending, t, k);
                assert(meets(path, state.pending, t, k));
            }
        }
    }
}

/// The chunks of a walk that ends are archives on their own, made of blocks
/// that the root reaches, and every block that the root reaches is in one of
/// them.
pub proof fn lemma_chunks_are_what_the_root_reaches(
    archive: Archive,
    header: HeaderValue,
    target: usize,
    calls: nat,
)
    requires
        start(archive, header) is Ok,
        chunks_of_run(
            Walk { archive, root: start(archive, header).unwrap().0, target },
            start(archive, header).unwrap().1,
            calls,
        ) is Some,
    ensures
        ({
            let (root, state) = start(archive, header).unwrap();
            let chunks = chunks_of_run(Walk { archive, root, target }, state, calls).unwrap();
            &&& forall|i: int| 0 <= i < chunks.len() ==> is_chunk_of(archive, root, #[trigger] chunks[i])
            &&& forall|cid: Seq<u8>| #[trigger]
                reachable(archive, root, cid) ==> some_chunk_holds(
                    root,
                    chunks,
                    ParentValue { data: archive.block_data(cid).unwrap(), cid },
                )
        }),
{
    let (root, state) = start(archive, header).unwrap();
    let walk = Walk { archive, root, target };
    let chunks = chunks_of_run(walk, state, calls).unwrap();
    let data = archive.block_data(root).unwrap();
    let root_block = ParentValue { data, cid: root };
    let blocks = seq![root_block];
    let none = Seq::<ParentValue>::empty();
    lemma_start_is_well_formed(archive, header, target);
    lemma_node_is_decoded_from_data(archive, root);
    assert(none + blocks =~= blocks);
    assert forall|path: Seq<ParentValue>| #[trigger]
        is_path(archive, root, path) implies blocks.contains(path.last()) || passes_pending(
        path,
        state.pending,
    ) by {
        assert(archive.block_data(path[0].cid) == Ok::<Seq<u8>, ErrorKind>(path[0].data));
        assert(path[0] == root_block);
        if path.len() == 1 {
            assert(blocks[0] == path.last());
        } else {
            assert(is_child(path[0], path[1].cid));
            let links = links_of(root_block);
            let i = choose|i: int| 0 <= i < links.len() && links[i] == path[1].cid;
            assert(state.pending[i].cid == links[i]);
            assert(meets(path, state.pending, 1, i));
        }
    }
    lemma_run_loses_no_block(walk, state, blocks, none, calls);
    assert forall|cid: Seq<u8>| #[trigger] reachable(archive, root, cid) implies some_chunk_holds(
        root,
        chunks,
        ParentValue { data: archive.block_data(cid).unwrap(), cid },
    ) by {
        let path = choose|path: Seq<ParentValue>| leads_to(archive, root, path, cid);
        assert(is_path(archive, root, path));
        assert(archive.block_data(path.last().cid) == Ok::<Seq<u8>, ErrorKind>(path.last().data));
        assert(path.last() == ParentValue { data: archive.block_data(cid).unwrap(), cid });
    }
}

} // verus!
