//! A walk over the heads of a CBOR item, made before the codec is let at the
//! bytes: the codec allocates what a head declares before it reads what
//! follows, and calls itself for every level of nesting.

use crate::reader::MAX_ALLOWED_SECTION_SIZE;
use vstd::prelude::*;

verus! {

/// How deep lists and maps may nest.
pub const MAX_NESTING: usize = 128;

/// The count of a list or map that ends with a break, not after a number of
/// items.
pub const OPEN_ENDED: u64 = 0xffff_ffff_ffff_ffff;

/// How many bytes behind a head hold its argument, by the low five bits of
/// the head.
pub open spec fn arg_width(info: int) -> int {
    if info < 24 {
        0
    } else if info == 24 {
        1
    } else if info == 25 {
        2
    } else if info == 26 {
        4
    } else {
        8
    }
}

/// The argument of the head at `pos`: the low five bits themselves, or the
/// bytes behind the head, the high byte first.
pub open spec fn head_arg(bytes: Seq<u8>, pos: int) -> int {
    let info = bytes[pos] % 32;
    let b = |i: int| bytes[pos + i] as int;
    if info < 24 {
        info as int
    } else if info == 24 {
        b(1)
    } else if info == 25 {
        b(1) * 0x100 + b(2)
    } else if info == 26 {
        b(1) * 0x100_0000 + b(2) * 0x1_0000 + b(3) * 0x100 + b(4)
    } else {
        b(1) * 0x100_0000_0000_0000 + b(2) * 0x1_0000_0000_0000 + b(3) * 0x100_0000_0000 + b(4)
            * 0x1_0000_0000 + b(5) * 0x100_0000 + b(6) * 0x1_0000 + b(7) * 0x100 + b(8)
    }
}

/// The open lists and maps after one item is complete. Each count says how
/// many items its list or map still lacks, the innermost last. A list or map
/// that lacked one item is complete itself, and so is an item of the one
/// around it.
pub open spec fn after_item(stack: Seq<u64>) -> Seq<u64>
    decreases stack.len(),
{
    if stack.len() == 0 {
        stack
    } else if stack.last() == OPEN_ENDED {
        stack
    } else if stack.last() > 1 {
        stack.drop_last().push((stack.last() - 1) as u64)
    } else {
        after_item(stack.drop_last())
    }
}

/// Whether the bytes from `pos` on complete the open lists and maps of
/// `stack`, with every head one that the codec reads, every string inside
/// the bytes, no list or map of more items than bytes are left, and nothing
/// nested deeper than [`MAX_NESTING`].
pub open spec fn cbor_walk(bytes: Seq<u8>, pos: int, stack: Seq<u64>) -> bool
    decreases bytes.len() - pos,
{
    if stack.len() == 0 {
        true
    } else if stack.len() > MAX_NESTING || pos < 0 || pos >= bytes.len() {
        false
    } else {
        let head = bytes[pos];
        let major = head / 32;
        let info = head % 32;
        let next = pos + 1 + arg_width(info as int);
        let arg = head_arg(bytes, pos);
        if head == 0xff {
            stack.last() == OPEN_ENDED && cbor_walk(bytes, pos + 1, after_item(stack.drop_last()))
        } else if head == 0xd8 {
            pos + 2 <= bytes.len() && cbor_walk(bytes, pos + 2, stack)
        } else if major == 7 {
            if 0xf4 <= head <= 0xf7 {
                cbor_walk(bytes, pos + 1, after_item(stack))
            } else if head == 0xfa {
                pos + 5 <= bytes.len() && cbor_walk(bytes, pos + 5, after_item(stack))
            } else if head == 0xfb {
                pos + 9 <= bytes.len() && cbor_walk(bytes, pos + 9, after_item(stack))
            } else {
                false
            }
        } else if major == 6 {
            false
        } else if info == 31 {
            (major == 4 || major == 5) && cbor_walk(bytes, pos + 1, stack.push(OPEN_ENDED))
        } else if info > 27 || next > bytes.len() {
            false
        } else if major <= 1 {
            cbor_walk(bytes, next, after_item(stack))
        } else if arg > bytes.len() - next {
            false
        } else if major <= 3 {
            cbor_walk(bytes, next + arg, after_item(stack))
        } else if arg == 0 {
            cbor_walk(bytes, next, after_item(stack))
        } else if major == 4 {
            cbor_walk(bytes, next, stack.push(arg as u64))
        } else {
            cbor_walk(bytes, next, stack.push((2 * arg) as u64))
        }
    }
}

/// Whether the codec can be let at `bytes`: they are no longer than a section
/// may be, and they begin with one complete item that [`cbor_walk`] accepts.
pub open spec fn cbor_safe(bytes: Seq<u8>) -> bool {
    bytes.len() <= MAX_ALLOWED_SECTION_SIZE && cbor_walk(bytes, 0, seq![1u64])
}

/// The argument of the head at `pos` and the position behind the head;
/// `None` where the head declares no argument or the bytes end inside it.
fn read_head(bytes: &[u8], pos: usize) -> (head: Option<(u64, usize)>)
    requires
        pos < bytes@.len(),
    ensures
        match head {
            Some((arg, next)) => {
                &&& bytes@[pos as int] % 32 <= 27
                &&& next == pos + 1 + arg_width((bytes@[pos as int] % 32) as int)
                &&& next <= bytes@.len()
                &&& arg == head_arg(bytes@, pos as int)
            },
            None => bytes@[pos as int] % 32 > 27 || pos + 1 + arg_width(
                (bytes@[pos as int] % 32) as int,
            ) > bytes@.len(),
        },
{
    let info: u8 = bytes[pos] % 32;
    let left: usize = bytes.len() - pos - 1;
    if info < 24 {
        Some((info as u64, pos + 1))
    } else if info == 24 {
        if left < 1 {
            return None;
        }
        Some((bytes[pos + 1] as u64, pos + 2))
    } else if info == 25 {
        if left < 2 {
            return None;
        }
        Some((bytes[pos + 1] as u64 * 0x100 + bytes[pos + 2] as u64, pos + 3))
    } else if info == 26 {
        if left < 4 {
            return None;
        }
        let arg: u64 = bytes[pos + 1] as u64 * 0x100_0000 + bytes[pos + 2] as u64 * 0x1_0000
            + bytes[pos + 3] as u64 * 0x100 + bytes[pos + 4] as u64;
        Some((arg, pos + 5))
    } else if info == 27 {
        if left < 8 {
            return None;
        }
        let high: u64 = bytes[pos + 1] as u64 * 0x100_0000 + bytes[pos + 2] as u64 * 0x1_0000
            + bytes[pos + 3] as u64 * 0x100 + bytes[pos + 4] as u64;
        let low: u64 = bytes[pos + 5] as u64 * 0x100_0000 + bytes[pos + 6] as u64 * 0x1_0000
            + bytes[pos + 7] as u64 * 0x100 + bytes[pos + 8] as u64;
        Some((high * 0x1_0000_0000 + low, pos + 9))
    } else {
        None
    }
}

/// Takes note that one item is complete.
fn settle(stack: &mut Vec<u64>)
    ensures
        final(stack)@ == after_item(old(stack)@),
{
    loop
        invariant
            after_item(stack@) == after_item(old(stack)@),
        decreases stack@.len(),
    {
        let top = match stack.pop() {
            Some(top) => top,
            None => {
                return ;
            },
        };
        if top == OPEN_ENDED || top > 1 {
            let ghost rest = stack@;
            let left: u64 = if top == OPEN_ENDED {
                top
            } else {
                top - 1
            };
            stack.push(left);
            assert(rest.push(top).drop_last() =~= rest);
            return ;
        }
        assert(stack@.push(top).drop_last() =~= stack@);
    }
}

/// Whether the codec can be let at `bytes`.
pub fn cbor_is_safe(bytes: &[u8]) -> (safe: bool)
    ensures
        safe == cbor_safe(bytes@),
{
    let len = bytes.len();
    if len > MAX_ALLOWED_SECTION_SIZE {
        return false;
    }
    let mut stack: Vec<u64> = Vec::new();
    stack.push(1);
    let mut pos: usize = 0;
    loop
        invariant
            len == bytes@.len(),
            len <= MAX_ALLOWED_SECTION_SIZE,
            pos <= len,
            cbor_walk(bytes@, 0, seq![1u64]) == cbor_walk(bytes@, pos as int, stack@),
        decreases len - pos,
    {
        if stack.len() == 0 {
            return true;
        }
        if stack.len() > MAX_NESTING || pos >= len {
            return false;
        }
        let head: u8 = bytes[pos];
        let major: u8 = head / 32;
        let info: u8 = head % 32;
        if head == 0xff {
            let top = stack.pop();
            if top != Some(OPEN_ENDED) {
                return false;
            }
            settle(&mut stack);
            pos += 1;
        } else if head == 0xd8 {
            if len - pos < 2 {
                return false;
            }
            pos += 2;
        } else if major == 7 {
            let width: usize = if 0xf4 <= head && head <= 0xf7 {
                1
            } else if head == 0xfa {
                5
            } else if head == 0xfb {
                9
            } else {
                return false;
            };
            if len - pos < width {
                return false;
            }
            settle(&mut stack);
            pos += width;
        } else if major == 6 {
            return false;
        } else if info == 31 {
            if major != 4 && major != 5 {
                return false;
            }
            stack.push(OPEN_ENDED);
            pos += 1;
        } else {
            let (arg, next) = match read_head(bytes, pos) {
                Some(head) => head,
                None => {
                    return false;
                },
            };
            if major <= 1 {
                settle(&mut stack);
                pos = next;
            } else if arg > (len - next) as u64 {
                return false;
            } else if major <= 3 {
                settle(&mut stack);
                pos = next + arg as usize;
            } else if arg == 0 {
                settle(&mut stack);
                pos = next;
            } else if major == 4 {
                stack.push(arg);
                pos = next;
            } else {
                stack.push(2 * arg);
                pos = next;
            }
        }
    }
}

} // verus!
