use crate::cid::Cid;
use crate::cid::bytes_copy;
use crate::error::CarSplitterError;
use crate::error::ErrorKind;
use crate::header::CarHeader;
use crate::header::HeaderValue;
use crate::node::Node;
use crate::node::NodeValue;
use crate::reader::Archive;
use crate::reader::CarReader;
use crate::reader::archive_at;
use crate::section::SectionValue;
use crate::source::ByteSource;
use crate::writer::CarWriter;
use crate::writer::framed;
use crate::writer::lemma_section_longer_than_payload;
use crate::writer::section_bytes;
use crate::writer::section_fits;
use std::collections::VecDeque;
use vstd::prelude::*;

verus! {

/// An ancestor that has been read already: its bytes are kept so that it can
/// be written into the next archive without another read.
#[derive(Debug)]
pub struct Parent {
    pub data: Vec<u8>,
    pub cid: Cid,
}

/// What a [`Parent`] stands for.
pub struct ParentValue {
    pub data: Seq<u8>,
    pub cid: Seq<u8>,
}

impl View for Parent {
    type V = ParentValue;

    open spec fn view(&self) -> ParentValue {
        ParentValue { data: self.data@, cid: self.cid@ }
    }
}

impl Parent {
    /// The ancestor `cid` with the bytes `data`.
    pub fn new(data: Vec<u8>, cid: Cid) -> (parent: Parent)
        ensures
            parent.data == data,
            parent.cid == cid,
    {
        Parent { data, cid }
    }
}

impl Clone for Parent {
    fn clone(&self) -> (copy: Parent)
        ensures
            copy@ == self@,
    {
        Parent { data: bytes_copy(self.data.as_slice()), cid: self.cid.clone() }
    }
}

/// A block that is still to be visited, with the chain of its ancestors from
/// the root down to its parent.
#[derive(Debug)]
pub struct PendingBlock {
    pub parents: Vec<Parent>,
    pub cid: Cid,
}

/// What a [`PendingBlock`] stands for.
pub struct PendingValue {
    pub parents: Seq<ParentValue>,
    pub cid: Seq<u8>,
}

/// What a chain of ancestors stands for.
pub open spec fn chain_view(parents: Seq<Parent>) -> Seq<ParentValue> {
    parents.map_values(|p: Parent| p@)
}

/// What a list of identifiers stands for.
pub open spec fn cids_view(cids: Seq<Cid>) -> Seq<Seq<u8>> {
    cids.map_values(|c: Cid| c@)
}

/// What a list of nodes stands for.
pub open spec fn nodes_view(nodes: Seq<Node>) -> Seq<NodeValue> {
    nodes.map_values(|n: Node| n@)
}

/// What a queue of pending blocks stands for.
pub open spec fn pending_view(pending: Seq<PendingBlock>) -> Seq<PendingValue> {
    pending.map_values(|p: PendingBlock| p@)
}

impl View for PendingBlock {
    type V = PendingValue;

    open spec fn view(&self) -> PendingValue {
        PendingValue { parents: chain_view(self.parents@), cid: self.cid@ }
    }
}

/// The identifier that an entry of a list of links points to: the link in
/// its field `Hash`. An entry without that field is a parsing failure; one
/// whose `Hash` is no link makes an invalid file.
pub open spec fn link_target(item: NodeValue) -> Result<Seq<u8>, ErrorKind> {
    match item.field("Hash"@) {
        Some(NodeValue::Link(cid)) => Ok(cid),
        Some(_) => Err(ErrorKind::InvalidFile),
        None => Err(ErrorKind::Parsing),
    }
}

/// The identifiers that the entries of a list of links point to, in order,
/// or the failure of the first entry that has one.
pub open spec fn link_targets(items: Seq<NodeValue>) -> Result<Seq<Seq<u8>>, ErrorKind>
    decreases items.len(),
{
    if items.len() == 0 {
        Ok(Seq::empty())
    } else {
        match link_targets(items.drop_last()) {
            Err(kind) => Err(kind),
            Ok(targets) => match link_target(items.last()) {
                Err(kind) => Err(kind),
                Ok(cid) => Ok(targets.push(cid)),
            },
        }
    }
}

/// The children of a block below the root: the targets of its field `Links`,
/// which must be a list; none where it has no such field.
pub open spec fn block_links(node: NodeValue) -> Result<Seq<Seq<u8>>, ErrorKind> {
    match node.field("Links"@) {
        None => Ok(Seq::empty()),
        Some(NodeValue::List(items)) => link_targets(items),
        Some(_) => Err(ErrorKind::Parsing),
    }
}

/// The children of the root. A root that is a map must have a field `Links`
/// that is a list; a root of bytes has no children; any other root makes an
/// invalid file.
pub open spec fn root_links(node: NodeValue) -> Result<Seq<Seq<u8>>, ErrorKind> {
    match node {
        NodeValue::StringMap(_) => match node.field("Links"@) {
            Some(NodeValue::List(items)) => link_targets(items),
            _ => Err(ErrorKind::Parsing),
        },
        NodeValue::Bytes(_) => Ok(Seq::empty()),
        _ => Err(ErrorKind::InvalidFile),
    }
}

/// The sections of a chain of ancestors, one behind the other.
pub open spec fn chain_bytes(parents: Seq<ParentValue>) -> Result<Seq<u8>, ErrorKind>
    decreases parents.len(),
{
    if parents.len() == 0 {
        Ok(Seq::empty())
    } else {
        match chain_bytes(parents.drop_last()) {
            Err(kind) => Err(kind),
            Ok(bytes) => if section_fits(parents.last().cid, parents.last().data) {
                Ok(bytes + section_bytes(parents.last().cid, parents.last().data))
            } else {
                Err(ErrorKind::TooLargeSection(parents.last().data.len() as usize))
            },
        }
    }
}

/// The header of an output archive: version 1, and `root` as its one root.
pub open spec fn chunk_header(root: Seq<u8>) -> HeaderValue {
    HeaderValue { roots: seq![root], version: 1 }
}

/// What a fresh output archive holds before a block is appended to it: the
/// header, then the chain of ancestors.
pub open spec fn seed(root: Seq<u8>, parents: Seq<ParentValue>) -> Result<Seq<u8>, ErrorKind> {
    match chunk_header(root).encoding() {
        None => Err(ErrorKind::Parsing),
        Some(head) => match chain_bytes(parents) {
            Err(kind) => Err(kind),
            Ok(bytes) => Ok(framed(head) + bytes),
        },
    }
}

/// The pending blocks for the children `links` of a block whose chain of
/// ancestors, itself included, is `parents`.
pub open spec fn children(links: Seq<Seq<u8>>, parents: Seq<ParentValue>) -> Seq<PendingValue> {
    links.map_values(|cid: Seq<u8>| PendingValue { parents, cid })
}

/// The state of a walk between two chunks: the bytes of the archive under
/// construction, and the blocks still to be visited, the next one first.
pub struct WalkState {
    pub writer: Seq<u8>,
    pub pending: Seq<PendingValue>,
}

/// What appending one block to the archive under construction gives.
pub struct Added {
    /// The finished archive, where the block filled it.
    pub ready: Option<Seq<u8>>,
    /// The archive under construction after the block.
    pub writer: Seq<u8>,
    /// The children of the block.
    pub links: Seq<Seq<u8>>,
}

/// What one call for the next chunk gives.
pub enum Outcome {
    /// A finished archive, and the state that the walk goes on from.
    Chunk { bytes: Seq<u8>, next: WalkState },
    /// Nothing is left to visit and nothing to flush.
    Done,
    /// The walk failed.
    Fail(ErrorKind),
}

/// How much room the archive under construction has left, plus one, so that
/// an archive that is just full differs from one that is over.
pub open spec fn room(target: usize, used: nat) -> nat {
    if used <= target {
        (target - used + 1) as nat
    } else {
        0
    }
}

/// What a walk is made over: the input archive, its root, and the size that
/// an output archive should not exceed.
pub struct Walk {
    pub archive: Archive,
    pub root: Seq<u8>,
    pub target: usize,
}

impl Walk {
    /// Appends the block `cid` with bytes `data` to the archive under
    /// construction `writer`, and finds the block's children. The archive is
    /// finished by this block if it and the block's bytes together exceed the
    /// target; the block is appended all the same.
    pub open spec fn add_block(self, writer: Seq<u8>, cid: Seq<u8>, data: Seq<u8>) -> Result<
        Added,
        ErrorKind,
    > {
        if !section_fits(cid, data) {
            Err(ErrorKind::TooLargeSection(data.len() as usize))
        } else {
            match self.archive.block_node(cid) {
                Err(kind) => Err(kind),
                Ok(node) => match block_links(node) {
                    Err(kind) => Err(kind),
                    Ok(links) => {
                        let written = writer + section_bytes(cid, data);
                        if writer.len() + data.len() > self.target {
                            Ok(Added { ready: Some(written), writer: Seq::empty(), links })
                        } else {
                            Ok(Added { ready: None, writer: written, links })
                        }
                    },
                },
            }
        }
    }

    /// The chunk that the walk yields next from `state`. Blocks are visited
    /// from the front of the queue and their children put in front of it,
    /// until a block fills the archive under construction or none is left.
    pub open spec fn next_chunk(self, state: WalkState) -> Outcome
        decreases room(self.target, state.writer.len()),
    {
        if state.pending.len() == 0 {
            if state.writer.len() > 0 {
                Outcome::Chunk {
                    bytes: state.writer,
                    next: WalkState { writer: Seq::empty(), pending: Seq::empty() },
                }
            } else {
                Outcome::Done
            }
        } else {
            let block = state.pending[0];
            match self.archive.block_data(block.cid) {
                Err(kind) => Outcome::Fail(kind),
                Ok(data) => match self.add_block(state.writer, block.cid, data) {
                    Err(kind) => Outcome::Fail(kind),
                    Ok(added) => {
                        let parents = if added.links.len() > 0 {
                            block.parents.push(ParentValue { data, cid: block.cid })
                        } else {
                            block.parents
                        };
                        let pending = children(added.links, parents) + state.pending.drop_first();
                        match added.ready {
                            Some(bytes) => match seed(self.root, parents) {
                                Err(kind) => Outcome::Fail(kind),
                                Ok(writer) => Outcome::Chunk {
                                    bytes,
                                    next: WalkState { writer, pending },
                                },
                            },
                            None => {
                                proof {
                                    lemma_section_longer_than_payload(block.cid, data);
                                }
                                self.next_chunk(WalkState { writer: added.writer, pending })
                            },
                        }
                    },
                },
            }
        }
    }
}

/// What opening a walk over `archive` with the header `header` gives: the
/// root and the state before the first chunk. A header with no root or with
/// several makes an invalid file.
pub open spec fn start(archive: Archive, header: HeaderValue) -> Result<
    (Seq<u8>, WalkState),
    ErrorKind,
> {
    if header.roots.len() != 1 {
        Err(ErrorKind::InvalidFile)
    } else {
        let root = header.roots[0];
        match archive.block_data(root) {
            Err(kind) => Err(kind),
            Ok(data) => {
                let parents = seq![ParentValue { data, cid: root }];
                match seed(root, parents) {
                    Err(kind) => Err(kind),
                    Ok(writer) => match archive.block_node(root) {
                        Err(kind) => Err(kind),
                        Ok(node) => match root_links(node) {
                            Err(kind) => Err(kind),
                            Ok(links) => Ok(
                                (root, WalkState { writer, pending: children(links, parents) }),
                            ),
                        },
                    },
                }
            },
        }
    }
}

/// What opening a walk over the archive that `bytes` hold from `pos` on
/// gives.
pub open spec fn opened(bytes: Seq<u8>, pos: nat) -> Result<
    (Archive, Seq<u8>, WalkState),
    ErrorKind,
> {
    match archive_at(bytes, pos) {
        Err(kind) => Err(kind),
        Ok((header, index)) => {
            let archive = Archive { bytes, index };
            match start(archive, header) {
                Err(kind) => Err(kind),
                Ok((root, state)) => Ok((archive, root, state)),
            }
        },
    }
}

/// The identifier that an entry of a list of links points to.
pub fn extract_cid(ipld: &Node) -> (cid: Result<Cid, CarSplitterError>)
    ensures
        match cid {
            Ok(c) => link_target(ipld@) == Ok::<Seq<u8>, ErrorKind>(c@),
            Err(e) => link_target(ipld@) == Err::<Seq<u8>, ErrorKind>(e.kind()),
        },
{
    let name = "Hash".to_owned();
    match ipld.field(&name) {
        Some(Node::Link(cid)) => Ok(cid.clone()),
        Some(_) => Err(CarSplitterError::InvalidFile("Root node does not have links".to_owned())),
        None => Err(CarSplitterError::Parsing("link has no field Hash".to_owned())),
    }
}

/// The identifiers that the entries of a list of links point to.
pub fn extract_links(items: &Vec<Node>) -> (links: Result<Vec<Cid>, CarSplitterError>)
    ensures
        match links {
            Ok(l) => link_targets(nodes_view(items@)) == Ok::<Seq<Seq<u8>>, ErrorKind>(
                cids_view(l@),
            ),
            Err(e) => link_targets(nodes_view(items@)) == Err::<Seq<Seq<u8>>, ErrorKind>(e.kind()),
        },
{
    let ghost all = nodes_view(items@);
    let mut links: Vec<Cid> = Vec::new();
    let mut i: usize = 0;
    assert(all.subrange(0, 0) =~= Seq::<NodeValue>::empty());
    assert(cids_view(links@) =~= Seq::<Seq<u8>>::empty());
    while i < items.len()
        invariant
            i <= items.len(),
            all == nodes_view(items@),
            link_targets(all.subrange(0, i as int)) == Ok::<Seq<Seq<u8>>, ErrorKind>(
                cids_view(links@),
            ),
        decreases items.len() - i,
    {
        let ghost before = cids_view(links@);
        let ghost prefix = all.subrange(0, i + 1);
        assert(prefix.drop_last() =~= all.subrange(0, i as int));
        assert(prefix.last() == items@[i as int]@);
        match extract_cid(&items[i]) {
            Ok(cid) => {
                links.push(cid);
                assert(cids_view(links@) =~= before.push(cid@));
            },
            Err(e) => {
                proof {
                    lemma_link_targets_prefix_fails(all, i + 1);
                }
                return Err(e);
            },
        }
        i += 1;
    }
    assert(all.subrange(0, i as int) =~= all);
    Ok(links)
}

/// A list of links fails as its first prefix that fails.
pub proof fn lemma_link_targets_prefix_fails(items: Seq<NodeValue>, n: int)
    requires
        0 <= n <= items.len(),
        link_targets(items.subrange(0, n)) is Err,
    ensures
        link_targets(items) == link_targets(items.subrange(0, n)),
    decreases items.len() - n,
{
    if n < items.len() {
        let longer = items.subrange(0, n + 1);
        assert(longer.drop_last() =~= items.subrange(0, n));
        lemma_link_targets_prefix_fails(items, n + 1);
    } else {
        assert(items.subrange(0, n) =~= items);
    }
}

/// The children of a block below the root.
pub fn block_children(node: &Node) -> (links: Result<Vec<Cid>, CarSplitterError>)
    ensures
        match links {
            Ok(l) => block_links(node@) == Ok::<Seq<Seq<u8>>, ErrorKind>(cids_view(l@)),
            Err(e) => block_links(node@) == Err::<Seq<Seq<u8>>, ErrorKind>(e.kind()),
        },
{
    let name = "Links".to_owned();
    match node.field(&name) {
        None => {
            let links: Vec<Cid> = Vec::new();
            assert(cids_view(links@) =~= Seq::<Seq<u8>>::empty());
            Ok(links)
        },
        Some(Node::List(items)) => {
            assert(nodes_view(items@) =~= node@.field("Links"@).unwrap()->List_0);
            extract_links(items)
        },
        Some(_) => Err(CarSplitterError::Parsing("root node does not have links".to_owned())),
    }
}

/// The children of the root.
pub fn root_children(node: &Node) -> (links: Result<Vec<Cid>, CarSplitterError>)
    ensures
        match links {
            Ok(l) => root_links(node@) == Ok::<Seq<Seq<u8>>, ErrorKind>(cids_view(l@)),
            Err(e) => root_links(node@) == Err::<Seq<Seq<u8>>, ErrorKind>(e.kind()),
        },
{
    match node {
        Node::StringMap(_) => {
            let name = "Links".to_owned();
            match node.field(&name) {
                Some(Node::List(items)) => {
                    assert(nodes_view(items@) =~= node@.field("Links"@).unwrap()->List_0);
                    extract_links(items)
                },
                Some(_) => Err(
                    CarSplitterError::Parsing("root node does not have links".to_owned()),
                ),
                None => Err(CarSplitterError::Parsing("root node has no field Links".to_owned())),
            }
        },
        Node::Bytes(_) => {
            let links: Vec<Cid> = Vec::new();
            assert(cids_view(links@) =~= Seq::<Seq<u8>>::empty());
            Ok(links)
        },
        _ => Err(CarSplitterError::InvalidFile("root node is not a map".to_owned())),
    }
}

/// A copy of a chain of ancestors.
pub fn clone_parents(parents: &Vec<Parent>) -> (copy: Vec<Parent>)
    ensures
        chain_view(copy@) == chain_view(parents@),
{
    let mut copy: Vec<Parent> = Vec::new();
    let mut i: usize = 0;
    while i < parents.len()
        invariant
            i <= parents.len(),
            copy@.len() == i,
            forall|j: int| 0 <= j < i ==> (#[trigger] copy@[j])@ == parents@[j]@,
        decreases parents.len() - i,
    {
        copy.push(parents[i].clone());
        i += 1;
    }
    assert(chain_view(copy@) =~= chain_view(parents@));
    copy
}

/// Opens an output archive for `root` and writes the header and the chain of
/// ancestors into it.
pub fn new_car(root: &Cid, parents: &Vec<Parent>) -> (writer: Result<CarWriter, CarSplitterError>)
    ensures
        match writer {
            Ok(w) => seed(root@, chain_view(parents@)) == Ok::<Seq<u8>, ErrorKind>(w@)
                && w.header@ == chunk_header(root@),
            Err(e) => seed(root@, chain_view(parents@)) == Err::<Seq<u8>, ErrorKind>(e.kind()),
        },
{
    let mut roots: Vec<Cid> = Vec::new();
    roots.push(root.clone());
    let header = CarHeader::new(roots);
    assert(header@ == chunk_header(root@)) by {
        assert(header@.roots =~= seq![root@]);
    }
    let mut writer = CarWriter::new(header);
    match writer.write_header() {
        Ok(_) => {},
        Err(e) => {
            return Err(e);
        },
    }
    let ghost head = chunk_header(root@).encoding().unwrap();
    let ghost chain = chain_view(parents@);
    let mut i: usize = 0;
    assert(chain.subrange(0, 0) =~= Seq::<ParentValue>::empty());
    assert(writer@ =~= framed(head) + Seq::<u8>::empty());
    while i < parents.len()
        invariant
            i <= parents.len(),
            chain == chain_view(parents@),
            writer.header@ == chunk_header(root@),
            chunk_header(root@).encoding() == Some(head),
            chain_bytes(chain.subrange(0, i as int)) matches Ok(bytes) && writer@ == framed(head)
                + bytes,
        decreases parents.len() - i,
    {
        let ghost prefix = chain.subrange(0, i + 1);
        let ghost bytes = chain_bytes(chain.subrange(0, i as int)).unwrap();
        assert(prefix.drop_last() =~= chain.subrange(0, i as int));
        assert(prefix.last() == parents@[i as int]@);
        match writer.write(&parents[i].cid, parents[i].data.as_slice()) {
            Ok(_) => {
                assert(writer@ =~= framed(head) + (bytes + section_bytes(
                    parents@[i as int].cid@,
                    parents@[i as int].data@,
                )));
            },
            Err(e) => {
                proof {
                    lemma_chain_bytes_prefix_fails(chain, i + 1);
                }
                return Err(e);
            },
        }
        i += 1;
    }
    assert(chain.subrange(0, i as int) =~= chain);
    Ok(writer)
}

/// A chain of ancestors fails as its first prefix that fails.
pub proof fn lemma_chain_bytes_prefix_fails(parents: Seq<ParentValue>, n: int)
    requires
        0 <= n <= parents.len(),
        chain_bytes(parents.subrange(0, n)) is Err,
    ensures
        chain_bytes(parents) == chain_bytes(parents.subrange(0, n)),
    decreases parents.len() - n,
{
    if n < parents.len() {
        let longer = parents.subrange(0, n + 1);
        assert(longer.drop_last() =~= parents.subrange(0, n));
        lemma_chain_bytes_prefix_fails(parents, n + 1);
    } else {
        assert(parents.subrange(0, n) =~= parents);
    }
}

/// Puts a pending block for each of `links` in front of `pending`, in the
/// order of `links`, each with a copy of `parents` as its chain of ancestors.
pub fn push_children(pending: &mut VecDeque<PendingBlock>, links: Vec<Cid>, parents: &Vec<Parent>)
    ensures
        pending_view(final(pending)@) == children(cids_view(links@), chain_view(parents@))
            + pending_view(old(pending)@),
{
    let mut front: VecDeque<PendingBlock> = VecDeque::new();
    let mut i: usize = 0;
    while i < links.len()
        invariant
            i <= links.len(),
            front@.len() == i,
            forall|j: int|
                0 <= j < i ==> (#[trigger] front@[j])@ == (PendingValue {
                    parents: chain_view(parents@),
                    cid: links@[j]@,
                }),
        decreases links.len() - i,
    {
        front.push_back(PendingBlock { parents: clone_parents(parents), cid: links[i].clone() });
        i += 1;
    }
    assert(pending_view(front@) =~= children(cids_view(links@), chain_view(parents@)));
    front.append(pending);
    assert(pending_view(front@) =~= children(cids_view(links@), chain_view(parents@))
        + pending_view(old(pending)@));
    *pending = front;
}

/// Splits an archive by walking the tree below its root, first child first.
#[derive(Debug)]
pub struct TreewalkSplitter {
    pub root: Cid,
    pub target_size: usize,
    pub reader: CarReader,
    pub writer: CarWriter,
    pub pending_blocks: VecDeque<PendingBlock>,
}

impl TreewalkSplitter {
    /// What the walk is made over.
    pub open spec fn walk(&self) -> Walk {
        Walk { archive: self.reader.archive(), root: self.root@, target: self.target_size }
    }

    /// Whether the archive under construction has the header of a chunk,
    /// with the root of the walk as its one root.
    pub open spec fn headed(&self) -> bool {
        self.writer.header@ == chunk_header(self.root@)
    }

    /// The state of the walk.
    pub open spec fn state(&self) -> WalkState {
        WalkState { writer: self.writer@, pending: pending_view(self.pending_blocks@) }
    }

    /// Reads the archive in `r` and opens the first output archive, with the
    /// root block in it. An archive that does not have exactly one root is
    /// refused as an invalid file.
    pub fn new(r: ByteSource, target_size: usize) -> (splitter: Result<
        TreewalkSplitter,
        CarSplitterError,
    >)
        ensures
            match splitter {
                Ok(s) => opened(r.bytes@, r.pos as nat) == Ok::<
                    (Archive, Seq<u8>, WalkState),
                    ErrorKind,
                >((s.walk().archive, s.walk().root, s.state())) && s.target_size == target_size,
                Err(e) => opened(r.bytes@, r.pos as nat) == Err::<
                    (Archive, Seq<u8>, WalkState),
                    ErrorKind,
                >(e.kind()),
            },
            splitter matches Ok(s) ==> s.headed() && archive_at(r.bytes@, r.pos as nat) == Ok::<
                (HeaderValue, Seq<SectionValue>),
                ErrorKind,
            >((s.reader.header@, s.reader.index())),
            archive_at(r.bytes@, r.pos as nat) matches Ok((header, _)) ==> (header.roots.len() != 1
                ==> (splitter matches Err(e) && e.kind() == ErrorKind::InvalidFile)),
    {
        let mut reader = match CarReader::new(r) {
            Ok(reader) => reader,
            Err(e) => {
                return Err(e);
            },
        };
        let ghost archive = reader.archive();
        let ghost header = reader.header@;
        if reader.header().roots.len() != 1 {
            return Err(CarSplitterError::InvalidFile("multiple roots not allowed".to_owned()));
        }
        let root = reader.header().roots[0].clone();
        assert(root@ == header.roots[0]);
        let data = match reader.read_section_data(&root) {
            Ok(data) => data,
            Err(e) => {
                return Err(e);
            },
        };
        let mut parents: Vec<Parent> = Vec::new();
        parents.push(Parent::new(data, root.clone()));
        assert(chain_view(parents@) =~= seq![ParentValue { data: data@, cid: root@ }]);
        let writer = match new_car(&root, &parents) {
            Ok(writer) => writer,
            Err(e) => {
                return Err(e);
            },
        };
        let node = match reader.ipld(&root) {
            Ok(node) => node,
            Err(e) => {
                return Err(e);
            },
        };
        let links = match root_children(&node) {
            Ok(links) => links,
            Err(e) => {
                return Err(e);
            },
        };
        let mut pending_blocks: VecDeque<PendingBlock> = VecDeque::new();
        push_children(&mut pending_blocks, links, &parents);
        let splitter = TreewalkSplitter { root, target_size, reader, writer, pending_blocks };
        assert(splitter.state().pending =~= children(cids_view(links@), chain_view(parents@)));
        Ok(splitter)
    }

    /// Appends a block to the archive under construction and finds its
    /// children. Hands out the archive, finished, if the block filled it.
    pub fn add_block(&mut self, block: &Vec<u8>, cid: &Cid) -> (added: Result<
        (Option<Vec<u8>>, Vec<Cid>),
        CarSplitterError,
    >)
        ensures
            final(self).walk() == old(self).walk(),
            final(self).pending_blocks == old(self).pending_blocks,
            final(self).reader.header == old(self).reader.header,
            final(self).writer.header == old(self).writer.header,
            match added {
                Ok((ready, links)) => old(self).walk().add_block(old(self).writer@, cid@, block@)
                    == Ok::<Added, ErrorKind>(
                    Added {
                        ready: match ready {
                            Some(bytes) => Some(bytes@),
                            None => None,
                        },
                        writer: final(self).writer@,
                        links: cids_view(links@),
                    },
                ),
                Err(e) => old(self).walk().add_block(old(self).writer@, cid@, block@) == Err::<
                    Added,
                    ErrorKind,
                >(e.kind()),
            },
    {
        let used = self.writer.len();
        let car_ready = used > self.target_size || block.len() > self.target_size - used;
        match self.writer.write(cid, block.as_slice()) {
            Ok(_) => {},
            Err(e) => {
                return Err(e);
            },
        }
        let node = match self.reader.ipld(cid) {
            Ok(node) => node,
            Err(e) => {
                return Err(e);
            },
        };
        let links = match block_children(&node) {
            Ok(links) => links,
            Err(e) => {
                return Err(e);
            },
        };
        if car_ready {
            Ok((Some(self.writer.flush()), links))
        } else {
            Ok((None, links))
        }
    }

    /// The next chunk: a finished archive, or `None` when the walk is over.
    pub fn next(&mut self) -> (chunk: Result<Option<Vec<u8>>, CarSplitterError>)
        ensures
            final(self).walk() == old(self).walk(),
            final(self).reader.header == old(self).reader.header,
            old(self).headed() ==> final(self).headed(),
            match chunk {
                Ok(Some(bytes)) => old(self).walk().next_chunk(old(self).state())
                    == (Outcome::Chunk { bytes: bytes@, next: final(self).state() }),
                Ok(None) => old(self).walk().next_chunk(old(self).state()) == Outcome::Done
                    && final(self).state() == (WalkState {
                    writer: Seq::empty(),
                    pending: Seq::empty(),
                }),
                Err(e) => old(self).walk().next_chunk(old(self).state()) == Outcome::Fail(
                    e.kind(),
                ),
            },
    {
        loop
            invariant
                self.walk() == old(self).walk(),
                self.reader.header == old(self).reader.header,
                old(self).headed() ==> self.headed(),
                self.walk().next_chunk(self.state()) == old(self).walk().next_chunk(
                    old(self).state(),
                ),
            decreases room(self.target_size, self.writer@.len()),
        {
            let ghost before = self.state();
            let pending_block = match self.pending_blocks.pop_front() {
                Some(pending_block) => pending_block,
                None => {
                    assert(before.pending =~= Seq::<PendingValue>::empty());
                    if !self.writer.is_empty() {
                        let car = self.writer.flush();
                        assert(self.state().pending =~= Seq::<PendingValue>::empty());
                        return Ok(Some(car));
                    }
                    assert(self.state().writer =~= Seq::<u8>::empty());
                    assert(self.state().pending =~= Seq::<PendingValue>::empty());
                    return Ok(None);
                },
            };
            assert(before.pending[0] == pending_block@);
            assert(pending_view(self.pending_blocks@) =~= before.pending.drop_first());
            let data = match self.reader.read_section_data(&pending_block.cid) {
                Ok(data) => data,
                Err(e) => {
                    return Err(e);
                },
            };
            let (ready_car, links) = match self.add_block(&data, &pending_block.cid) {
                Ok(added) => added,
                Err(e) => {
                    return Err(e);
                },
            };
            proof {
                lemma_section_longer_than_payload(pending_block.cid@, data@);
            }
            let has_links = links.len() > 0;
            let mut parents = pending_block.parents;
            if has_links {
                let ghost chain = chain_view(parents@);
                parents.push(Parent::new(data, pending_block.cid));
                assert(chain_view(parents@) =~= chain.push(
                    ParentValue { data: data@, cid: pending_block.cid@ },
                ));
            }
            push_children(&mut self.pending_blocks, links, &parents);
            if let Some(ready_car) = ready_car {
                match new_car(&self.root, &parents) {
                    Ok(writer) => {
                        self.writer = writer;
                    },
                    Err(e) => {
                        return Err(e);
                    },
                }
                return Ok(Some(ready_car));
            }
        }
    }
}

} // verus!
