use vstd::prelude::*;

verus! {

/// A content identifier, held in its binary form.
///
/// The library never looks inside an identifier: it compares identifiers,
/// writes them out byte for byte, and hands them to the codec that decodes
/// the block they name. An identifier that is read from an archive is held
/// in the form in which the parser writes it; where the parser does not
/// read that form again (a version 0 identifier whose digest is not of 32
/// bytes), the block it names cannot be decoded and it cannot be the root
/// of a chunk: both fail as parsing errors.
#[derive(Debug, PartialEq, Eq, Hash)]
pub struct Cid {
    pub bytes: Vec<u8>,
}

impl View for Cid {
    type V = Seq<u8>;

    open spec fn view(&self) -> Seq<u8> {
        self.bytes@
    }
}

/// Whether two byte strings are the same.
pub fn bytes_equal(a: &[u8], b: &[u8]) -> (same: bool)
    ensures
        same == (a@ == b@),
{
    if a.len() != b.len() {
        return false;
    }
    let mut i: usize = 0;
    while i < a.len()
        invariant
            i <= a.len(),
            a.len() == b.len(),
            forall|j: int| 0 <= j < i ==> a@[j] == b@[j],
        decreases a.len() - i,
    {
        if a[i] != b[i] {
            return false;
        }
        i += 1;
    }
    assert(a@ =~= b@);
    true
}

/// A copy of a byte string.
pub fn bytes_copy(a: &[u8]) -> (copy: Vec<u8>)
    ensures
        copy@ == a@,
{
    let mut copy: Vec<u8> = Vec::new();
    copy.extend_from_slice(a);
    copy
}

impl Cid {
    /// The identifier whose binary form is `bytes`.
    pub fn new(bytes: Vec<u8>) -> (cid: Cid)
        ensures
            cid@ == bytes@,
    {
        Cid { bytes }
    }

    /// The binary form of the identifier.
    pub fn as_bytes(&self) -> (bytes: &[u8])
        ensures
            bytes@ == self@,
    {
        self.bytes.as_slice()
    }

    /// Whether `self` and `other` are the same identifier.
    pub fn same(&self, other: &Cid) -> (same: bool)
        ensures
            same == (self@ == other@),
    {
        bytes_equal(self.bytes.as_slice(), other.bytes.as_slice())
    }
}

impl Clone for Cid {
    fn clone(&self) -> (copy: Cid)
        ensures
            copy@ == self@,
    {
        Cid { bytes: bytes_copy(self.bytes.as_slice()) }
    }
}

/// What `Cid::read_bytes` makes of the bytes in front of it: the binary form
/// of the identifier it parsed and the number of bytes it took, or `None`
/// where it refuses them.
pub uninterp spec fn cid_reading(rest: Seq<u8>) -> Option<(Seq<u8>, nat)>;

/// What parsing one identifier from the front of `rest` gives: its binary
/// form and the number of bytes it took. An identifier is parsed from at
/// least one byte, and from bytes of `rest` only.
pub open spec fn cid_at(rest: Seq<u8>) -> Option<(Seq<u8>, nat)> {
    match cid_reading(rest) {
        Some((cid, taken)) => if 0 < taken <= rest.len() {
            Some((cid, taken))
        } else {
            None
        },
        None => None,
    }
}

/// Parses one identifier from the front of `rest` with
/// `libipld::Cid::read_bytes`, and takes its binary form with `to_bytes`.
///
/// The outcome is a function of the bytes alone and is named by
/// [`cid_reading`]. An identifier was parsed from at least one byte, and from
/// bytes of `rest` only. A refusal comes out as its message.
#[verifier::external_body]
pub(crate) fn read_cid(rest: &[u8]) -> (read: Result<(Cid, usize), String>)
    ensures
        match read {
            Ok((cid, consumed)) => cid_reading(rest@) == Some((cid@, consumed as nat)) && 0
                < consumed <= rest@.len(),
            Err(_) => cid_reading(rest@) is None,
        },
{
    let mut cursor = std::io::Cursor::new(rest);
    match libipld::Cid::read_bytes(&mut cursor) {
        Ok(id) => Ok((Cid { bytes: id.to_bytes() }, cursor.position() as usize)),
        Err(e) => Err(e.to_string()),
    }
}

} // verus!
