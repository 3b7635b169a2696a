//! Small parsers for locally framed data: the name/content split of a
//! pushed state file, and the reader's local "document opened"
//! notification.
use vstd::prelude::*;
use vstd::bytes::spec_u32_from_le_bytes;
use crate::consts::{ZBOOK_READ_NOTIFY, NOTIFY_PAD};
use crate::errors::ProtoError;

verus! {

/// Splits a buffer at its first field delimiter into the name and the
/// rest (the rest keeps the delimiter as its first character). Refused
/// when no delimiter is present: the buffer's framing cannot be
/// trusted then.
pub fn parse_buf<'a>(buf: &'a str) -> (r: Result<(&'a str, &'a str), ProtoError>)
    ensures
        match r {
            Ok(pair) => {
                let j = pair.0@.len() as int;
                &&& j < buf@.len()
                &&& buf@[j] == ';'
                &&& forall|k: int| 0 <= k < j ==> buf@[k] != ';'
                &&& pair.0@ == buf@.take(j)
                &&& pair.1@ == buf@.skip(j)
            },
            Err(e) => {
                &&& e == ProtoError::MissingDelimiter
                &&& forall|k: int| 0 <= k < buf@.len() ==> buf@[k] != ';'
            },
        },
{
    let n = buf.unicode_len();
    let mut i: usize = 0;
    while i < n
        invariant
            i <= n == buf@.len(),
            forall|k: int| 0 <= k < i ==> buf@[k] != ';',
        decreases n - i,
    {
        if buf.get_char(i) == ';' {
            let head = buf.substring_char(0, i);
            let tail = buf.substring_char(i, n);
            proof {
                assert(head@ =~= buf@.take(i as int));
                assert(tail@ =~= buf@.skip(i as int));
            }
            return Ok((head, tail));
        }
        i += 1;
    }
    Err(ProtoError::MissingDelimiter)
}

/// Whether a local notification buffer of `nb` read bytes is a valid
/// "document opened" message: a 4-byte length prefix equal to the
/// bytes read, then the two-byte notification kind.
pub open spec fn notification_ok(s: Seq<u8>, nb: int) -> bool {
    &&& 6 <= nb <= s.len()
    &&& spec_u32_from_le_bytes(s.subrange(0, 4)) == nb
    &&& s[4] == ZBOOK_READ_NOTIFY
    &&& s[5] == NOTIFY_PAD
}

/// Extracts the document name out of a local "document opened"
/// notification: 4-byte length prefix, two-byte kind tag, then the
/// name bytes. Anything else is refused as malformed.
pub fn parse_notification(buf: &[u8], nb: usize) -> (r: Result<Vec<u8>, ProtoError>)
    requires
        nb <= buf@.len(),
    ensures
        notification_ok(buf@, nb as int) ==> (r matches Ok(name)
            && name@ == buf@.subrange(6, nb as int)),
        !notification_ok(buf@, nb as int) ==> r == Err::<Vec<u8>, ProtoError>(
            ProtoError::MalformedHeader,
        ),
{
    if nb < 6 {
        return Err(ProtoError::MalformedHeader);
    }
    let len_arr: [u8; 4] = [buf[0], buf[1], buf[2], buf[3]];
    proof {
        assert(len_arr@ =~= buf@.subrange(0, 4));
    }
    let msg_len = vstd::bytes::u32_from_le_bytes(len_arr.as_slice());
    if msg_len as u64 != nb as u64 {
        return Err(ProtoError::MalformedHeader);
    }
    if !(buf[4] == ZBOOK_READ_NOTIFY && buf[5] == NOTIFY_PAD) {
        return Err(ProtoError::MalformedHeader);
    }
    let mut name: Vec<u8> = Vec::new();
    name.extend_from_slice(vstd::slice::slice_subrange(buf, 6, nb));
    Ok(name)
}

} // verus!
