//! The state-file tree as one payload: for every file or directory of
//! the tree, in parent-before-children order, one flag-and-path region
//! and one content region, packed back to back behind an offset index.
//! Interleaving path and content per entry keeps the stream ordered,
//! so the receiver can create each directory before the files inside
//! it.
use vstd::prelude::*;
use crate::delim::views;
use crate::errors::ProtoError;
use crate::records::{spec_pack, spec_deindex, index_encodable, pack_parts, deindex_data,
    lemma_pack_round_trip};

verus! {

/// One node of the state-file tree: its path relative to the state
/// root, whether it is a directory, and its content (empty for
/// directories).
pub struct StateRecord {
    pub path: Vec<u8>,
    pub is_dir: bool,
    pub content: Vec<u8>,
}

/// The packed regions of a record list: for each record, a region
/// holding one flag byte then the path, and a region holding the
/// content.
pub open spec fn record_parts(rs: Seq<StateRecord>) -> Seq<Seq<u8>> {
    Seq::new(
        (2 * rs.len()) as nat,
        |i: int|
            if i % 2 == 0 {
                seq![if rs[i / 2].is_dir { 1u8 } else { 0u8 }] + rs[i / 2].path@
            } else {
                rs[i / 2].content@
            },
    )
}

/// Regions that have the shape of packed records: an even count, and
/// every path region opening with a valid flag byte.
pub open spec fn records_shape(parts: Seq<Seq<u8>>) -> bool {
    &&& parts.len() % 2 == 0
    &&& forall|i: int| 0 <= i < parts.len() / 2 ==> (#[trigger] parts[2 * i]).len() >= 1 && (
    parts[2 * i][0] == 0 || parts[2 * i][0] == 1)
}

/// The packed regions of a record list always have record shape.
pub proof fn lemma_record_parts_shape(rs: Seq<StateRecord>)
    ensures
        records_shape(record_parts(rs)),
        record_parts(rs).len() == 2 * rs.len(),
{
    let parts = record_parts(rs);
    assert forall|i: int| 0 <= i < parts.len() / 2 implies (#[trigger] parts[2 * i]).len() >= 1
        && (parts[2 * i][0] == 0 || parts[2 * i][0] == 1) by {
        assert((2 * i) % 2 == 0 && (2 * i) / 2 == i);
        assert(parts[2 * i] == seq![if rs[i].is_dir { 1u8 } else { 0u8 }] + rs[i].path@);
    }
}

/// Packs a state tree into one payload. Refused when an offset would
/// not fit its 4-byte wire field.
pub fn encode_state_tree(rs: &Vec<StateRecord>) -> (r: Result<Vec<u8>, ProtoError>)
    ensures
        r is Ok <==> index_encodable(record_parts(rs@), 4 + 8 * record_parts(rs@).len() as int),
        r matches Ok(v) ==> v@ == spec_pack(record_parts(rs@)),
        r is Err ==> r == Err::<Vec<u8>, ProtoError>(ProtoError::TooLarge),
{
    let ghost target = record_parts(rs@);
    let mut parts: Vec<Vec<u8>> = Vec::new();
    let mut i: usize = 0;
    proof {
        assert(views(parts@) =~= target.take(0));
    }
    while i < rs.len()
        invariant
            i <= rs@.len(),
            target == record_parts(rs@),
            parts@.len() == 2 * i,
            views(parts@) == target.take(2 * i as int),
        decreases rs@.len() - i,
    {
        let mut head: Vec<u8> = Vec::new();
        head.push(if rs[i].is_dir {
            1u8
        } else {
            0u8
        });
        head.extend_from_slice(rs[i].path.as_slice());
        let mut body: Vec<u8> = Vec::new();
        body.extend_from_slice(rs[i].content.as_slice());
        let ghost prev = views(parts@);
        parts.push(head);
        parts.push(body);
        proof {
            let k = 2 * i as int;
            assert((k % 2 == 0) && k / 2 == i as int);
            assert(((k + 1) % 2 != 0) && (k + 1) / 2 == i as int);
            assert(target[k] == seq![if rs@[i as int].is_dir { 1u8 } else { 0u8 }]
                + rs@[i as int].path@);
            assert(target[k + 1] == rs@[i as int].content@);
            assert(parts@[parts@.len() - 2]@ =~= target[k]);
            assert(parts@[parts@.len() - 1]@ =~= target[k + 1]);
            assert(views(parts@) =~= prev.push(target[k]).push(target[k + 1]));
            assert(prev.push(target[k]).push(target[k + 1]) =~= target.take(k + 2));
        }
        i += 1;
    }
    proof {
        assert(target.take(target.len() as int) =~= target);
    }
    pack_parts(&parts)
}

/// Reads a state tree back out of a packed payload: every record's
/// path, flag and content, exactly as the index cuts them. Any
/// inconsistency is refused.
pub fn decode_state_tree(payload: Vec<u8>) -> (r: Result<Vec<StateRecord>, ProtoError>)
    ensures
        match spec_deindex(payload@) {
            Err(e) => r == Err::<Vec<StateRecord>, ProtoError>(e),
            Ok(parts) => {
                if records_shape(parts) {
                    r matches Ok(rs) && rs@.len() == parts.len() / 2 && forall|i: int|
                        0 <= i < rs@.len() ==> {
                            &&& (#[trigger] rs@[i]).path@ == parts[2 * i].skip(1)
                            &&& rs@[i].is_dir == (parts[2 * i][0] == 1)
                            &&& rs@[i].content@ == parts[2 * i + 1]
                        }
                } else {
                    r == Err::<Vec<StateRecord>, ProtoError>(ProtoError::BadRecord)
                }
            },
        },
{
    let ghost pb = payload@;
    let parts = match deindex_data(payload) {
        Ok(ps) => ps,
        Err(e) => {
            return Err(e);
        },
    };
    let ghost pvs = views(parts@);
    if parts.len() % 2 != 0 {
        return Err(ProtoError::BadRecord);
    }
    let k: usize = parts.len() / 2;
    let mut rs: Vec<StateRecord> = Vec::new();
    let mut i: usize = 0;
    while i < k
        invariant
            i <= k,
            pvs == views(parts@),
            pb == payload@,
            spec_deindex(pb) == Ok::<Seq<Seq<u8>>, ProtoError>(pvs),
            parts@.len() == 2 * k,
            pvs.len() == 2 * k,
            rs@.len() == i,
            forall|j: int| 0 <= j < i ==> (#[trigger] pvs[2 * j]).len() >= 1 && (pvs[2 * j][0]
                == 0 || pvs[2 * j][0] == 1),
            forall|j: int| 0 <= j < i ==> {
                &&& (#[trigger] rs@[j]).path@ == pvs[2 * j].skip(1)
                &&& rs@[j].is_dir == (pvs[2 * j][0] == 1)
                &&& rs@[j].content@ == pvs[2 * j + 1]
            },
        decreases k - i,
    {
        proof {
            assert(pvs[2 * i as int] == parts@[2 * i as int]@);
            assert(pvs[2 * i as int + 1] == parts@[2 * i as int + 1]@);
        }
        let head = &parts[2 * i];
        if head.len() == 0 {
            proof {
                assert(!records_shape(pvs)) by {
                    assert(!((pvs[2 * (i as int)]).len() >= 1));
                }
            }
            return Err(ProtoError::BadRecord);
        }
        let flag = head[0];
        if !(flag == 0 || flag == 1) {
            proof {
                assert(!records_shape(pvs)) by {
                    assert(!(pvs[2 * (i as int)][0] == 0 || pvs[2 * (i as int)][0] == 1));
                }
            }
            return Err(ProtoError::BadRecord);
        }
        let mut path: Vec<u8> = Vec::new();
        path.extend_from_slice(vstd::slice::slice_subrange(head.as_slice(), 1, head.len()));
        let mut content: Vec<u8> = Vec::new();
        content.extend_from_slice(parts[2 * i + 1].as_slice());
        let ghost prev = rs@;
        rs.push(StateRecord { path, is_dir: flag == 1, content });
        proof {
            assert(rs@ =~= prev.push(rs@[rs@.len() - 1]));
            assert(rs@[i as int].path@ =~= pvs[2 * i as int].skip(1));
            assert(forall|j: int| 0 <= j < i ==> rs@[j] == prev[j]);
        }
        i += 1;
    }
    Ok(rs)
}

/// Packing a state tree and unpacking the payload yields records equal
/// field by field to those that went in.
pub proof fn lemma_state_tree_round_trip(rs: Seq<StateRecord>)
    requires
        index_encodable(record_parts(rs), 4 + 8 * record_parts(rs).len() as int),
    ensures
        spec_deindex(spec_pack(record_parts(rs))) == Ok::<Seq<Seq<u8>>, ProtoError>(record_parts(rs)),
        records_shape(record_parts(rs)),
        forall|i: int| 0 <= i < rs.len() ==> {
            &&& (#[trigger] record_parts(rs)[2 * i]).skip(1) == rs[i].path@
            &&& (record_parts(rs)[2 * i][0] == 1) == rs[i].is_dir
            &&& record_parts(rs)[2 * i + 1] == rs[i].content@
        },
{
    lemma_pack_round_trip(record_parts(rs));
    lemma_record_parts_shape(rs);
    let parts = record_parts(rs);
    assert forall|i: int| 0 <= i < rs.len() implies {
        &&& (#[trigger] parts[2 * i]).skip(1) == rs[i].path@
        &&& (parts[2 * i][0] == 1) == rs[i].is_dir
        &&& parts[2 * i + 1] == rs[i].content@
    } by {
        assert((2 * i) % 2 == 0 && (2 * i) / 2 == i);
        assert((2 * i + 1) % 2 != 0 && (2 * i + 1) / 2 == i);
        assert(parts[2 * i] == seq![if rs[i].is_dir { 1u8 } else { 0u8 }] + rs[i].path@);
        assert(parts[2 * i].skip(1) =~= rs[i].path@);
    }
}

/// `anc` names a directory strictly above `p`: `p` continues `anc`
/// with a path separator.
pub open spec fn prefix_dir_of(anc: Seq<u8>, p: Seq<u8>) -> bool {
    &&& anc.len() < p.len()
    &&& p.take(anc.len() as int) == anc
    &&& p[anc.len() as int] == 47
}

/// Every directory of the list stands before everything inside it, so
/// a receiver can create directories before the files they contain.
pub open spec fn parents_first(rs: Seq<StateRecord>) -> bool {
    forall|i: int, j: int| 0 <= i < rs.len() && 0 <= j < rs.len() && (#[trigger] rs[j]).is_dir
        && prefix_dir_of(rs[j].path@, (#[trigger] rs[i]).path@) ==> j < i
}

/// Whether `anc` is a directory-prefix of `p`.
pub fn is_prefix_dir(anc: &[u8], p: &[u8]) -> (r: bool)
    ensures
        r == prefix_dir_of(anc@, p@),
{
    if !(anc.len() < p.len()) {
        return false;
    }
    if p[anc.len()] != 47 {
        return false;
    }
    let mut i: usize = 0;
    while i < anc.len()
        invariant
            i <= anc@.len() < p@.len(),
            forall|j: int| 0 <= j < i ==> p@[j] == anc@[j],
        decreases anc@.len() - i,
    {
        if p[i] != anc[i] {
            proof {
                assert(p@.take(anc@.len() as int)[i as int] != anc@[i as int]);
            }
            return false;
        }
        i += 1;
    }
    proof {
        assert(p@.take(anc@.len() as int) =~= anc@);
    }
    true
}

/// Checks that the list streams every directory before its contents.
pub fn check_parents_first(rs: &Vec<StateRecord>) -> (r: bool)
    ensures
        r == parents_first(rs@),
{
    let mut i: usize = 0;
    while i < rs.len()
        invariant
            i <= rs@.len(),
            forall|a: int, b: int| 0 <= a < i && 0 <= b < rs@.len() && (#[trigger] rs@[b]).is_dir
                && prefix_dir_of(rs@[b].path@, (#[trigger] rs@[a]).path@) ==> b < a,
        decreases rs@.len() - i,
    {
        let mut j: usize = i;
        while j < rs.len()
            invariant
                i < rs@.len() || i == rs@.len(),
                i <= j <= rs@.len(),
                i < rs@.len(),
                forall|b: int| i <= b < j ==> !((#[trigger] rs@[b]).is_dir && prefix_dir_of(
                    rs@[b].path@,
                    rs@[i as int].path@,
                )),
            decreases rs@.len() - j,
        {
            if rs[j].is_dir && is_prefix_dir(rs[j].path.as_slice(), rs[i].path.as_slice()) {
                proof {
                    assert(rs@[j as int].is_dir && prefix_dir_of(
                        rs@[j as int].path@,
                        rs@[i as int].path@,
                    ) && !(j < i));
                }
                return false;
            }
            j += 1;
        }
        i += 1;
    }
    true
}

} // verus!
