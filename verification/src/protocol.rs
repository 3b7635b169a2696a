//! The shared protocol vocabulary: the closed set of request kinds,
//! their wire form on top of the chunk codec, the catalog listing
//! format, and the empty-marker response that signals "no data"
//! without entering the chunked path.
use vstd::prelude::*;
use crate::chunk::{encodable, fields_wf, spec_encode_chunked, spec_decode_chunked,
    encode_chunked, decode_chunked};
use crate::consts::{GET_BOOKNAMES, VAR_GET_BOOK, VAR_SEND_SFILE, GET_SFILES, NONE_MARKER, NAME_SEP};
use crate::delim::{views, sep_free, join_sep, spec_split, split_delim, join_delim,
    lemma_split_join};
use crate::errors::ProtoError;

verus! {

/// What one response carries: a single payload, several payloads sent
/// back to back, or nothing at all (the empty marker).
pub enum Content {
    One(Vec<u8>),
    More(Vec<Vec<u8>>),
    Empty,
}

/// The closed set of requests a client can put to the vault.
pub enum Request {
    /// List the vault's top-level document names.
    GetBooknames,
    /// Fetch one document by name.
    GetBook { bname: Vec<u8> },
    /// Push one state file or directory to the vault.
    SendStateFile { path: Vec<u8>, is_dir: bool, content: Vec<u8> },
    /// Fetch the vault's whole state-file tree.
    GetStateFiles,
}

/// The tag byte of a request.
pub open spec fn req_tag(r: Request) -> u8 {
    match r {
        Request::GetBooknames => GET_BOOKNAMES,
        Request::GetBook { .. } => VAR_GET_BOOK,
        Request::SendStateFile { .. } => VAR_SEND_SFILE,
        Request::GetStateFiles => GET_SFILES,
    }
}

/// The metadata fields of a request's first frame.
pub open spec fn req_fields(r: Request) -> Seq<Seq<u8>> {
    match r {
        Request::GetBooknames => Seq::empty(),
        Request::GetBook { bname } => seq![bname@],
        Request::SendStateFile { path, is_dir, .. } => seq![
            path@,
            seq![if is_dir { 1u8 } else { 0u8 }],
        ],
        Request::GetStateFiles => Seq::empty(),
    }
}

/// The payload of a request.
pub open spec fn req_payload(r: Request) -> Seq<u8> {
    match r {
        Request::SendStateFile { content, .. } => content@,
        _ => Seq::empty(),
    }
}

/// Builds the frame sequence for one request. Refused when a name or
/// path holds a reserved delimiter byte, or when the message would not
/// fit the frame-count field.
pub fn encode_request(req: &Request) -> (r: Result<Vec<Vec<u8>>, ProtoError>)
    ensures
        r is Ok <==> encodable(req_fields(*req), req_payload(*req).len() as int),
        r matches Ok(frames) ==> views(frames@) == spec_encode_chunked(
            req_tag(*req),
            req_fields(*req),
            req_payload(*req),
        ),
        !fields_wf(req_fields(*req)) ==> r == Err::<Vec<Vec<u8>>, ProtoError>(ProtoError::BadName),
        fields_wf(req_fields(*req)) && !encodable(req_fields(*req), req_payload(*req).len() as int)
            ==> r == Err::<Vec<Vec<u8>>, ProtoError>(ProtoError::TooLarge),
{
    match req {
        Request::GetBooknames => {
            let fields: Vec<Vec<u8>> = Vec::new();
            let payload: Vec<u8> = Vec::new();
            proof {
                assert(views(fields@) =~= req_fields(*req));
                assert(payload@ =~= req_payload(*req));
            }
            encode_chunked(GET_BOOKNAMES, &fields, payload.as_slice())
        },
        Request::GetBook { bname } => {
            let mut fields: Vec<Vec<u8>> = Vec::new();
            fields.push(bname.clone());
            let payload: Vec<u8> = Vec::new();
            proof {
                assert(views(fields@) =~= req_fields(*req));
                assert(payload@ =~= req_payload(*req));
            }
            encode_chunked(VAR_GET_BOOK, &fields, payload.as_slice())
        },
        Request::SendStateFile { path, is_dir, content } => {
            let mut fields: Vec<Vec<u8>> = Vec::new();
            fields.push(path.clone());
            let mut flag: Vec<u8> = Vec::new();
            flag.push(if *is_dir {
                1u8
            } else {
                0u8
            });
            proof {
                assert(flag@ =~= seq![if *is_dir { 1u8 } else { 0u8 }]);
            }
            fields.push(flag);
            proof {
                assert(views(fields@) =~= req_fields(*req));
            }
            encode_chunked(VAR_SEND_SFILE, &fields, content.as_slice())
        },
        Request::GetStateFiles => {
            let fields: Vec<Vec<u8>> = Vec::new();
            let payload: Vec<u8> = Vec::new();
            proof {
                assert(views(fields@) =~= req_fields(*req));
                assert(payload@ =~= req_payload(*req));
            }
            encode_chunked(GET_SFILES, &fields, payload.as_slice())
        },
    }
}

/// What a decoded message must look like to be each request kind.
pub open spec fn is_booknames_shape(tag: u8, fields: Seq<Seq<u8>>, payload: Seq<u8>) -> bool {
    tag == GET_BOOKNAMES && fields.len() == 0 && payload.len() == 0
}

pub open spec fn is_getbook_shape(tag: u8, fields: Seq<Seq<u8>>, payload: Seq<u8>) -> bool {
    tag == VAR_GET_BOOK && fields.len() == 1 && payload.len() == 0
}

pub open spec fn is_sfile_shape(tag: u8, fields: Seq<Seq<u8>>) -> bool {
    tag == VAR_SEND_SFILE && fields.len() == 2 && fields[1].len() == 1 && (fields[1][0] == 0
        || fields[1][0] == 1)
}

pub open spec fn is_getsfiles_shape(tag: u8, fields: Seq<Seq<u8>>, payload: Seq<u8>) -> bool {
    tag == GET_SFILES && fields.len() == 0 && payload.len() == 0
}

/// Reads one request back out of its frames. A tag outside the closed
/// set is a fatal protocol violation; a known tag whose fields do not
/// fit its shape is refused as a bad record.
pub fn parse_request(frames: &Vec<Vec<u8>>) -> (r: Result<Request, ProtoError>)
    ensures
        match spec_decode_chunked(views(frames@)) {
            Err(e) => r == Err::<Request, ProtoError>(e),
            Ok(m) => {
                let (tag, fields, payload) = m;
                if is_booknames_shape(tag, fields, payload) {
                    r matches Ok(q) && q is GetBooknames
                } else if is_getbook_shape(tag, fields, payload) {
                    r matches Ok(q) && q matches Request::GetBook { bname } && bname@ == fields[0]
                } else if is_sfile_shape(tag, fields) {
                    r matches Ok(q) && (q matches Request::SendStateFile { path, is_dir, content }
                        && path@ == fields[0] && is_dir == (fields[1][0] == 1) && content@
                        == payload)
                } else if is_getsfiles_shape(tag, fields, payload) {
                    r matches Ok(q) && q is GetStateFiles
                } else if tag == GET_BOOKNAMES || tag == VAR_GET_BOOK || tag == VAR_SEND_SFILE
                    || tag == GET_SFILES {
                    r == Err::<Request, ProtoError>(ProtoError::BadRecord)
                } else {
                    r == Err::<Request, ProtoError>(ProtoError::UnknownTag)
                }
            },
        },
{
    let decoded = match decode_chunked(frames) {
        Ok(d) => d,
        Err(e) => {
            return Err(e);
        },
    };
    let (tag, mut fields, payload) = decoded;
    if tag == GET_BOOKNAMES {
        if fields.len() == 0 && payload.len() == 0 {
            Ok(Request::GetBooknames)
        } else {
            Err(ProtoError::BadRecord)
        }
    } else if tag == VAR_GET_BOOK {
        if fields.len() == 1 && payload.len() == 0 {
            let bname = match fields.pop() {
                Some(f) => f,
                Option::None => {
                    return Err(ProtoError::BadRecord);
                },
            };
            Ok(Request::GetBook { bname })
        } else {
            Err(ProtoError::BadRecord)
        }
    } else if tag == VAR_SEND_SFILE {
        if fields.len() == 2 && fields[1].len() == 1 && (fields[1][0] == 0 || fields[1][0] == 1) {
            let flag = match fields.pop() {
                Some(f) => f,
                Option::None => {
                    return Err(ProtoError::BadRecord);
                },
            };
            let path = match fields.pop() {
                Some(f) => f,
                Option::None => {
                    return Err(ProtoError::BadRecord);
                },
            };
            Ok(Request::SendStateFile { path, is_dir: flag[0] == 1, content: payload })
        } else {
            Err(ProtoError::BadRecord)
        }
    } else if tag == GET_SFILES {
        if fields.len() == 0 && payload.len() == 0 {
            Ok(Request::GetStateFiles)
        } else {
            Err(ProtoError::BadRecord)
        }
    } else {
        Err(ProtoError::UnknownTag)
    }
}

/// Catalog names carried on the wire: never empty, never holding the
/// list separator. Names are filtered of the separator at creation.
pub open spec fn catalog_names_wf(names: Seq<Seq<u8>>) -> bool {
    forall|i: int| 0 <= i < names.len() ==> (#[trigger] names[i]).len() > 0 && sep_free(
        names[i],
        NAME_SEP,
    )
}

/// A catalog payload: the separated names, or the bare empty marker
/// for an empty catalog (never a zero-length list).
pub open spec fn spec_encode_catalog(names: Seq<Seq<u8>>) -> Seq<u8> {
    if names.len() == 0 {
        seq![NONE_MARKER]
    } else {
        join_sep(names, NAME_SEP)
    }
}

/// What parsing a catalog payload yields.
pub open spec fn spec_parse_catalog(s: Seq<u8>) -> Result<Seq<Seq<u8>>, ProtoError> {
    if s =~= seq![NONE_MARKER] {
        Ok(Seq::empty())
    } else {
        match spec_split(s, NAME_SEP) {
            Some(ps) => {
                if forall|i: int| 0 <= i < ps.len() ==> (#[trigger] ps[i]).len() > 0 {
                    Ok(ps)
                } else {
                    Err(ProtoError::BadName)
                }
            },
            Option::None => Err(ProtoError::MissingDelimiter),
        }
    }
}

/// Builds the catalog payload out of the document names.
pub fn encode_catalog(names: &Vec<Vec<u8>>) -> (r: Result<Vec<u8>, ProtoError>)
    ensures
        r is Ok <==> catalog_names_wf(views(names@)),
        r matches Ok(v) ==> v@ == spec_encode_catalog(views(names@)),
        r is Err ==> r == Err::<Vec<u8>, ProtoError>(ProtoError::BadName),
{
    let ghost nvs = views(names@);
    if names.len() == 0 {
        let mut v: Vec<u8> = Vec::new();
        v.push(NONE_MARKER);
        proof {
            assert(v@ =~= seq![NONE_MARKER]);
        }
        return Ok(v);
    }
    let mut i: usize = 0;
    while i < names.len()
        invariant
            i <= names@.len(),
            nvs == views(names@),
            forall|j: int| 0 <= j < i ==> (#[trigger] nvs[j]).len() > 0 && sep_free(
                nvs[j],
                NAME_SEP,
            ),
        decreases names@.len() - i,
    {
        proof {
            assert(nvs[i as int] == names@[i as int]@);
        }
        if names[i].len() == 0 {
            return Err(ProtoError::BadName);
        }
        if let Some(_) = crate::codec::find_delim(names[i].as_slice(), NAME_SEP) {
            return Err(ProtoError::BadName);
        }
        i += 1;
    }
    Ok(join_delim(names, NAME_SEP))
}

/// Reads the names back out of a catalog payload.
pub fn parse_catalog(payload: &[u8]) -> (r: Result<Vec<Vec<u8>>, ProtoError>)
    ensures
        match spec_parse_catalog(payload@) {
            Ok(ps) => r matches Ok(v) && views(v@) == ps,
            Err(e) => r == Err::<Vec<Vec<u8>>, ProtoError>(e),
        },
{
    if payload.len() == 1 && payload[0] == NONE_MARKER {
        proof {
            assert(payload@ =~= seq![NONE_MARKER]);
            assert(views(Seq::<Vec<u8>>::empty()) =~= Seq::<Seq<u8>>::empty());
        }
        return Ok(Vec::new());
    }
    proof {
        assert(!(payload@ =~= seq![NONE_MARKER]));
    }
    let names = match split_delim(payload, NAME_SEP) {
        Ok(ns) => ns,
        Err(e) => {
            return Err(e);
        },
    };
    let mut i: usize = 0;
    while i < names.len()
        invariant
            i <= names@.len(),
            !(payload@ =~= seq![NONE_MARKER]),
            spec_split(payload@, NAME_SEP) == Some(views(names@)),
            forall|j: int| 0 <= j < i ==> (#[trigger] views(names@)[j]).len() > 0,
        decreases names@.len() - i,
    {
        proof {
            assert(views(names@)[i as int] == names@[i as int]@);
        }
        if names[i].len() == 0 {
            return Err(ProtoError::BadName);
        }
        i += 1;
    }
    Ok(names)
}

/// Encoding a catalog and parsing the payload yields exactly the names
/// that went in; an empty catalog travels as the empty marker and
/// parses back to no names.
pub proof fn lemma_catalog_round_trip(names: Seq<Seq<u8>>)
    requires
        catalog_names_wf(names),
    ensures
        spec_parse_catalog(spec_encode_catalog(names)) == Ok::<Seq<Seq<u8>>, ProtoError>(names),
{
    if names.len() == 0 {
        assert(spec_encode_catalog(names) =~= seq![NONE_MARKER]);
        assert(spec_parse_catalog(spec_encode_catalog(names)) == Ok::<Seq<Seq<u8>>, ProtoError>(
            Seq::empty(),
        ));
        assert(names =~= Seq::<Seq<u8>>::empty());
    } else {
        let s = join_sep(names, NAME_SEP);
        assert(s.len() >= names[0].len() + 1 >= 2) by {
            assert(s == names[0] + seq![NAME_SEP] + join_sep(names.drop_first(), NAME_SEP));
        }
        assert(!(s =~= seq![NONE_MARKER]));
        lemma_split_join(names, NAME_SEP);
    }
}

/// The one-byte empty-marker response frame.
pub fn none_frame() -> (r: Vec<u8>)
    ensures
        r@ == seq![NONE_MARKER],
{
    let mut v: Vec<u8> = Vec::new();
    v.push(NONE_MARKER);
    proof {
        assert(v@ =~= seq![NONE_MARKER]);
    }
    v
}

/// The frames of responses sent back to back, one chunked message per
/// payload.
pub open spec fn spec_more_frames(tag: u8, ps: Seq<Seq<u8>>) -> Seq<Seq<u8>>
    decreases ps.len(),
{
    if ps.len() == 0 {
        Seq::empty()
    } else {
        spec_encode_chunked(tag, Seq::empty(), ps[0]) + spec_more_frames(tag, ps.drop_first())
    }
}

/// Every payload of a multi-part response fits the frame-count field.
pub open spec fn all_encodable(ps: Seq<Seq<u8>>) -> bool {
    forall|i: int| 0 <= i < ps.len() ==> encodable(Seq::empty(), (#[trigger] ps[i]).len() as int)
}

/// Adding one more payload appends its frames.
pub proof fn lemma_more_frames_snoc(tag: u8, ps: Seq<Seq<u8>>, last: Seq<u8>)
    ensures
        spec_more_frames(tag, ps.push(last)) == spec_more_frames(tag, ps) + spec_encode_chunked(
            tag,
            Seq::empty(),
            last,
        ),
    decreases ps.len(),
{
    assert(spec_more_frames(tag, ps.push(last)) == spec_encode_chunked(
        tag,
        Seq::empty(),
        ps.push(last)[0],
    ) + spec_more_frames(tag, ps.push(last).drop_first()));
    if ps.len() == 0 {
        assert(ps.push(last).drop_first() =~= Seq::<Seq<u8>>::empty());
        assert(ps.push(last)[0] == last);
        assert(spec_more_frames(tag, Seq::<Seq<u8>>::empty()) == Seq::<Seq<u8>>::empty());
        assert(spec_more_frames(tag, ps) == Seq::<Seq<u8>>::empty());
        assert(spec_more_frames(tag, ps.push(last)) =~= spec_more_frames(tag, ps)
            + spec_encode_chunked(tag, Seq::empty(), last));
    } else {
        assert(ps.push(last).drop_first() =~= ps.drop_first().push(last));
        assert(ps.push(last)[0] == ps[0]);
        lemma_more_frames_snoc(tag, ps.drop_first(), last);
        assert(spec_more_frames(tag, ps) == spec_encode_chunked(tag, Seq::empty(), ps[0])
            + spec_more_frames(tag, ps.drop_first()));
        assert(spec_more_frames(tag, ps.push(last)) =~= spec_more_frames(tag, ps)
            + spec_encode_chunked(tag, Seq::empty(), last));
    }
}

/// The frame sequence one response occupies on the channel: the bare
/// marker frame for "no data", a chunked message for one payload, one
/// chunked message per payload for several.
pub fn response_frames(tag: u8, cont: &Content) -> (r: Result<Vec<Vec<u8>>, ProtoError>)
    ensures
        match cont {
            Content::Empty => r matches Ok(fs) && views(fs@) == seq![seq![NONE_MARKER]],
            Content::One(p) => {
                &&& r is Ok <==> encodable(Seq::empty(), p@.len() as int)
                &&& (r matches Ok(fs) ==> views(fs@) == spec_encode_chunked(
                    tag,
                    Seq::empty(),
                    p@,
                ))
            },
            Content::More(ps) => {
                &&& r is Ok <==> all_encodable(views(ps@))
                &&& (r matches Ok(fs) ==> views(fs@) == spec_more_frames(tag, views(ps@)))
            },
        },
{
    match cont {
        Content::Empty => {
            let mut fs: Vec<Vec<u8>> = Vec::new();
            fs.push(none_frame());
            proof {
                assert(views(fs@) =~= seq![seq![NONE_MARKER]]);
            }
            Ok(fs)
        },
        Content::One(p) => {
            let fields: Vec<Vec<u8>> = Vec::new();
            proof {
                assert(views(fields@) =~= Seq::<Seq<u8>>::empty());
            }
            encode_chunked(tag, &fields, p.as_slice())
        },
        Content::More(ps) => {
            let ghost pvs = views(ps@);
            let fields: Vec<Vec<u8>> = Vec::new();
            proof {
                assert(views(fields@) =~= Seq::<Seq<u8>>::empty());
            }
            let mut fs: Vec<Vec<u8>> = Vec::new();
            let mut i: usize = 0;
            proof {
                assert(pvs.take(0) =~= Seq::<Seq<u8>>::empty());
                assert(views(fs@) =~= Seq::<Seq<u8>>::empty());
            }
            while i < ps.len()
                invariant
                    i <= ps@.len(),
                    pvs == views(ps@),
                    match *cont {
                        Content::More(psx) => views(psx@) == pvs,
                        _ => false,
                    },
                    fields@.len() == 0,
                    views(fields@) == Seq::<Seq<u8>>::empty(),
                    forall|j: int| 0 <= j < i ==> encodable(
                        Seq::empty(),
                        (#[trigger] pvs[j]).len() as int,
                    ),
                    views(fs@) == spec_more_frames(tag, pvs.take(i as int)),
                decreases ps@.len() - i,
            {
                proof {
                    assert(pvs[i as int] == ps@[i as int]@);
                }
                let mut part_frames = match encode_chunked(tag, &fields, ps[i].as_slice()) {
                    Ok(f) => f,
                    Err(e) => {
                        proof {
                            assert(!encodable(Seq::empty(), pvs[i as int].len() as int));
                        }
                        return Err(e);
                    },
                };
                let ghost prev = views(fs@);
                let ghost pfv = views(part_frames@);
                fs.append(&mut part_frames);
                proof {
                    assert(views(fs@) =~= prev + pfv);
                    lemma_more_frames_snoc(tag, pvs.take(i as int), pvs[i as int]);
                    assert(pvs.take(i as int).push(pvs[i as int]) =~= pvs.take(i as int + 1));
                }
                i += 1;
            }
            proof {
                assert(pvs.take(pvs.len() as int) =~= pvs);
            }
            Ok(fs)
        },
    }
}

/// What the requesting side makes of a response's frames: `None` for
/// the empty marker (the vault has no data, which is not an error),
/// the reassembled payload otherwise.
pub fn response_payload(frames: &Vec<Vec<u8>>) -> (r: Result<Option<Vec<u8>>, ProtoError>)
    ensures
        views(frames@) == seq![seq![NONE_MARKER]] ==> (r matches Ok(o) && o is None),
        views(frames@) != seq![seq![NONE_MARKER]] ==> match spec_decode_chunked(views(frames@)) {
            Ok(m) => r matches Ok(o) && o matches Some(p) && p@ == m.2,
            Err(e) => r == Err::<Option<Vec<u8>>, ProtoError>(e),
        },
{
    if frames.len() == 1 && frames[0].len() == 1 && frames[0][0] == NONE_MARKER {
        proof {
            assert(frames@[0]@ =~= seq![NONE_MARKER]);
            assert(views(frames@) =~= seq![seq![NONE_MARKER]]);
        }
        return Ok(None);
    }
    proof {
        if views(frames@) == seq![seq![NONE_MARKER]] {
            assert(views(frames@).len() == 1);
            assert(frames@.len() == 1);
            assert(views(frames@)[0] == frames@[0]@);
            assert(frames@[0]@ == seq![NONE_MARKER]);
            assert(frames@[0]@.len() == 1 && frames@[0]@[0] == NONE_MARKER);
        }
    }
    match decode_chunked(frames) {
        Ok(d) => Ok(Some(d.2)),
        Err(e) => Err(e),
    }
}

} // verus!
