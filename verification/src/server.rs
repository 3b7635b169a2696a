//! The vault dispatcher's decisions: which content answers each
//! request. The surrounding program reads the directories and performs
//! the writes; every choice of what to answer is made here.
use vstd::prelude::*;
use crate::delim::views;
use crate::errors::ProtoError;
use crate::protocol::{Content, Request, catalog_names_wf, spec_encode_catalog, encode_catalog};
use crate::records::{spec_pack, index_encodable};
use crate::state_tree::{StateRecord, record_parts, parents_first, check_parents_first,
    encode_state_tree};

verus! {

/// One entry of the document directory listing, in depth-first walk
/// order: its base name, whether it is a directory, and its content.
pub struct BookEntry {
    pub name: Vec<u8>,
    pub is_dir: bool,
    pub content: Vec<u8>,
}

/// Whether listing entry `i` is a file carrying the requested name.
pub open spec fn is_book_match(listing: Seq<BookEntry>, bname: Seq<u8>, i: int) -> bool {
    &&& !listing[i].is_dir
    &&& listing[i].name@ == bname
}

/// Whether two byte strings hold the same bytes.
pub fn bytes_eq(a: &[u8], b: &[u8]) -> (r: bool)
    ensures
        r == (a@ == b@),
{
    if a.len() != b.len() {
        return false;
    }
    let mut i: usize = 0;
    while i < a.len()
        invariant
            i <= a@.len() == b@.len(),
            forall|j: int| 0 <= j < i ==> a@[j] == b@[j],
        decreases a@.len() - i,
    {
        if a[i] != b[i] {
            return false;
        }
        i += 1;
    }
    proof {
        assert(a@ =~= b@);
    }
    true
}

/// Index of the first file in the listing whose base name matches:
/// depth-first, first match wins.
pub fn find_book(listing: &Vec<BookEntry>, bname: &[u8]) -> (r: Option<usize>)
    ensures
        r matches Some(i) ==> {
            &&& i < listing@.len()
            &&& is_book_match(listing@, bname@, i as int)
            &&& forall|j: int| 0 <= j < i ==> !is_book_match(listing@, bname@, j)
        },
        r is None ==> forall|j: int| 0 <= j < listing@.len() ==> !is_book_match(
            listing@,
            bname@,
            j,
        ),
{
    let mut i: usize = 0;
    while i < listing.len()
        invariant
            i <= listing@.len(),
            forall|j: int| 0 <= j < i ==> !is_book_match(listing@, bname@, j),
        decreases listing@.len() - i,
    {
        if !listing[i].is_dir && bytes_eq(listing[i].name.as_slice(), bname) {
            return Some(i);
        }
        i += 1;
    }
    None
}

/// The response to a document fetch: the first matching file's bytes,
/// or the empty marker when the document is absent — absence is not an
/// error.
pub fn book_content(listing: &Vec<BookEntry>, bname: &[u8]) -> (r: Content)
    ensures
        match r {
            Content::One(c) => exists|i: int|
                {
                    &&& 0 <= i < listing@.len()
                    &&& #[trigger] is_book_match(listing@, bname@, i)
                    &&& c@ == listing@[i].content@
                    &&& forall|j: int| 0 <= j < i ==> !is_book_match(listing@, bname@, j)
                },
            Content::Empty => forall|j: int| 0 <= j < listing@.len() ==> !is_book_match(
                listing@,
                bname@,
                j,
            ),
            Content::More(_) => false,
        },
{
    match find_book(listing, bname) {
        Some(i) => {
            let mut c: Vec<u8> = Vec::new();
            c.extend_from_slice(listing[i].content.as_slice());
            proof {
                assert(is_book_match(listing@, bname@, i as int) && c@
                    == listing@[i as int].content@);
            }
            Content::One(c)
        },
        Option::None => Content::Empty,
    }
}

/// The response to a catalog request: the separated top-level names,
/// or the empty marker for an empty document directory — never a
/// zero-length list.
pub fn booknames_content(names: &Vec<Vec<u8>>) -> (r: Result<Content, ProtoError>)
    ensures
        names@.len() == 0 ==> (r matches Ok(c) && c is Empty),
        names@.len() > 0 && catalog_names_wf(views(names@)) ==> (r matches Ok(c) && (
        c matches Content::One(p) && p@ == spec_encode_catalog(views(names@)))),
        names@.len() > 0 && !catalog_names_wf(views(names@)) ==> r == Err::<Content, ProtoError>(
            ProtoError::BadName,
        ),
{
    if names.len() == 0 {
        return Ok(Content::Empty);
    }
    match encode_catalog(names) {
        Ok(p) => Ok(Content::One(p)),
        Err(e) => Err(e),
    }
}

/// The response to a state-tree request: the whole tree packed as one
/// payload in parent-before-children order, or the empty marker for an
/// empty state directory. A listing that would stream a directory
/// after its contents is refused.
pub fn statefiles_content(rs: &Vec<StateRecord>) -> (r: Result<Content, ProtoError>)
    ensures
        rs@.len() == 0 ==> (r matches Ok(c) && c is Empty),
        rs@.len() > 0 && !parents_first(rs@) ==> r == Err::<Content, ProtoError>(
            ProtoError::BadRecord,
        ),
        rs@.len() > 0 && parents_first(rs@) && index_encodable(
            record_parts(rs@),
            4 + 8 * record_parts(rs@).len() as int,
        ) ==> (r matches Ok(c) && (c matches Content::One(p) && p@ == spec_pack(
            record_parts(rs@),
        ))),
        rs@.len() > 0 && parents_first(rs@) && !index_encodable(
            record_parts(rs@),
            4 + 8 * record_parts(rs@).len() as int,
        ) ==> r == Err::<Content, ProtoError>(ProtoError::TooLarge),
{
    if rs.len() == 0 {
        return Ok(Content::Empty);
    }
    if !check_parents_first(rs) {
        return Err(ProtoError::BadRecord);
    }
    match encode_state_tree(rs) {
        Ok(p) => Ok(Content::One(p)),
        Err(e) => Err(e),
    }
}

/// What the dispatcher decides for one request: answer with content,
/// or store a pushed state file and acknowledge.
pub enum VaultAction {
    /// Send this content back over the channel.
    Respond(Content),
    /// Write this file (or create this directory) under the state
    /// root, then acknowledge.
    StoreStateFile { path: Vec<u8>, is_dir: bool, content: Vec<u8> },
}

/// The vault's decision for one parsed request, given what its two
/// directories currently hold.
pub fn dispatch(
    req: Request,
    booknames: &Vec<Vec<u8>>,
    books: &Vec<BookEntry>,
    state: &Vec<StateRecord>,
) -> (r: Result<VaultAction, ProtoError>)
    ensures
        match req {
            Request::GetBooknames => {
                &&& booknames@.len() == 0 ==> (r matches Ok(a) && (a matches VaultAction::Respond(
                    c,
                ) && c is Empty))
                &&& booknames@.len() > 0 && catalog_names_wf(views(booknames@)) ==> (
                r matches Ok(a) && (a matches VaultAction::Respond(c) && (
                c matches Content::One(p) && p@ == spec_encode_catalog(views(booknames@)))))
                &&& booknames@.len() > 0 && !catalog_names_wf(views(booknames@)) ==> r == Err::<
                    VaultAction,
                    ProtoError,
                >(ProtoError::BadName)
            },
            Request::GetBook { bname } => r matches Ok(a) && (a matches VaultAction::Respond(c)
                && match c {
                Content::One(cc) => exists|i: int|
                    {
                        &&& 0 <= i < books@.len()
                        &&& #[trigger] is_book_match(books@, bname@, i)
                        &&& cc@ == books@[i].content@
                        &&& forall|j: int| 0 <= j < i ==> !is_book_match(books@, bname@, j)
                    },
                Content::Empty => forall|j: int| 0 <= j < books@.len() ==> !is_book_match(
                    books@,
                    bname@,
                    j,
                ),
                Content::More(_) => false,
            }),
            Request::GetStateFiles => {
                &&& state@.len() == 0 ==> (r matches Ok(a) && (a matches VaultAction::Respond(c)
                    && c is Empty))
                &&& state@.len() > 0 && parents_first(state@) && index_encodable(
                    record_parts(state@),
                    4 + 8 * record_parts(state@).len() as int,
                ) ==> (r matches Ok(a) && (a matches VaultAction::Respond(c) && (
                c matches Content::One(p) && p@ == spec_pack(record_parts(state@)))))
                &&& state@.len() > 0 && !parents_first(state@) ==> r == Err::<
                    VaultAction,
                    ProtoError,
                >(ProtoError::BadRecord)
                &&& state@.len() > 0 && parents_first(state@) && !index_encodable(
                    record_parts(state@),
                    4 + 8 * record_parts(state@).len() as int,
                ) ==> r == Err::<VaultAction, ProtoError>(ProtoError::TooLarge)
            },
            Request::SendStateFile { path, is_dir, content } => r matches Ok(a) && (
            a matches VaultAction::StoreStateFile { path: p, is_dir: d, content: c } && p@ == path@
                && d == is_dir && c@ == content@),
        },
{
    match req {
        Request::GetBooknames => {
            match booknames_content(booknames) {
                Ok(c) => Ok(VaultAction::Respond(c)),
                Err(e) => Err(e),
            }
        },
        Request::GetBook { bname } => Ok(
            VaultAction::Respond(book_content(books, bname.as_slice())),
        ),
        Request::GetStateFiles => {
            match statefiles_content(state) {
                Ok(c) => Ok(VaultAction::Respond(c)),
                Err(e) => Err(e),
            }
        },
        Request::SendStateFile { path, is_dir, content } => Ok(
            VaultAction::StoreStateFile { path, is_dir, content },
        ),
    }
}

} // verus!
