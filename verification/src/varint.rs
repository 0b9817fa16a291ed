use integer_encoding::VarIntReader;
use integer_encoding::VarIntWriter;
use vstd::prelude::*;

verus! {

/// The variable-length encoding of `n`: seven bits to a byte, the low bits
/// first, the high bit of a byte set on all but the last.
pub open spec fn varint_bytes(n: nat) -> Seq<u8>
    decreases n,
{
    if n < 128 {
        seq![n as u8]
    } else {
        seq![(128 + n % 128) as u8] + varint_bytes(n / 128)
    }
}

/// An encoded integer is never empty.
pub proof fn lemma_varint_bytes_nonempty(n: nat)
    ensures
        varint_bytes(n).len() >= 1,
    decreases n,
{
    if n >= 128 {
        lemma_varint_bytes_nonempty(n / 128);
    }
}

/// The outcome of reading one variable-length integer.
#[derive(Debug, Clone, Copy, PartialEq, Eq, Structural)]
pub enum VarintRead {
    /// An integer, and the number of bytes that encoded it.
    Value { value: usize, consumed: usize },
    /// The bytes ended before an integer was complete.
    Eof,
    /// The encoding ran on past the longest one of an integer.
    Invalid,
}

/// What `read_varint` makes of the bytes in front of it.
pub uninterp spec fn varint_reading(rest: Seq<u8>) -> VarintRead;

/// What reading one integer from the front of `rest` gives. Where no byte
/// is left, that is the end. A value is decoded from at least one byte, and
/// from bytes of `rest` only.
pub open spec fn varint_at(rest: Seq<u8>) -> VarintRead {
    if rest.len() == 0 {
        VarintRead::Eof
    } else {
        match varint_reading(rest) {
            VarintRead::Value { value, consumed } => if 0 < consumed <= rest.len() {
                VarintRead::Value { value, consumed }
            } else {
                VarintRead::Invalid
            },
            other => other,
        }
    }
}

/// Appends the encoding of `n` to `buf` with
/// `integer_encoding::VarIntWriter::write_varint`, which on a `Vec<u8>`
/// cannot fail.
#[verifier::external_body]
pub(crate) fn write_varint(buf: &mut Vec<u8>, n: usize)
    ensures
        final(buf)@ == old(buf)@ + varint_bytes(n as nat),
{
    let _ = buf.write_varint(n);
}

/// Reads one integer from the front of `rest` with
/// `integer_encoding::VarIntReader::read_varint`.
///
/// The outcome is a function of the bytes alone and is named by
/// [`varint_reading`]. With no byte to read the reader reports an unexpected
/// end. A value was decoded from at least one byte, and from bytes of `rest`
/// only. The reader reports bytes that end too early, and an encoding that
/// overflows, as an unexpected end too; all of these come out as `Eof`.
/// Bytes that begin with the encoding of an integer, as [`varint_bytes`]
/// gives it, are read as that integer, from just those bytes.
#[verifier::external_body]
pub(crate) fn read_varint(rest: &[u8]) -> (read: VarintRead)
    ensures
        read == varint_reading(rest@),
        rest@.len() == 0 ==> read == VarintRead::Eof,
        read matches VarintRead::Value { consumed, .. } ==> 0 < consumed <= rest@.len(),
        forall|n: usize, tail: Seq<u8>|
            rest@ == #[trigger] (varint_bytes(n as nat) + tail) ==> read == (VarintRead::Value {
                value: n,
                consumed: varint_bytes(n as nat).len() as usize,
            }),
{
    let mut cursor = std::io::Cursor::new(rest);
    match cursor.read_varint::<usize>() {
        Ok(value) => VarintRead::Value { value, consumed: cursor.position() as usize },
        Err(e) if e.kind() == std::io::ErrorKind::UnexpectedEof => VarintRead::Eof,
        Err(_) => VarintRead::Invalid,
    }
}

} // verus!
