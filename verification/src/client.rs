//! The client orchestrator's decisions: which placeholder files the
//! catalog bootstrap creates, and how a fetched document response is
//! acted on. The surrounding program does the socket reads and the
//! file writes; every choice is made here.
//!
//! Documents are append-only once fetched: a catalog name that already
//! exists locally is treated as materialized and skipped. State files,
//! by contrast, are always refreshed from the vault at startup.
use vstd::prelude::*;
use crate::delim::views;
use crate::server::bytes_eq;

verus! {

/// Some name of the list holds exactly these bytes.
pub open spec fn contains_name(names: Seq<Seq<u8>>, n: Seq<u8>) -> bool {
    exists|i: int| 0 <= i < names.len() && #[trigger] names[i] == n
}

/// The catalog names that are new to the client, in catalog order:
/// an existing local file of the same name is never overwritten.
pub open spec fn spec_new_names(names: Seq<Seq<u8>>, existing: Seq<Seq<u8>>) -> Seq<Seq<u8>>
    decreases names.len(),
{
    if names.len() == 0 {
        Seq::empty()
    } else {
        (if contains_name(existing, names[0]) {
            Seq::empty()
        } else {
            seq![names[0]]
        }) + spec_new_names(names.drop_first(), existing)
    }
}

/// Considering one more catalog name appends it exactly when it is
/// not yet materialized.
pub proof fn lemma_new_names_snoc(names: Seq<Seq<u8>>, existing: Seq<Seq<u8>>, last: Seq<u8>)
    ensures
        spec_new_names(names.push(last), existing) == spec_new_names(names, existing) + (
        if contains_name(existing, last) {
            Seq::<Seq<u8>>::empty()
        } else {
            seq![last]
        }),
    decreases names.len(),
{
    if names.len() == 0 {
        assert(names.push(last).drop_first() =~= Seq::<Seq<u8>>::empty());
        assert(names.push(last)[0] == last);
        assert(spec_new_names(Seq::<Seq<u8>>::empty(), existing) == Seq::<Seq<u8>>::empty());
        assert(spec_new_names(names.push(last), existing) =~= spec_new_names(names, existing) + (
        if contains_name(existing, last) {
            Seq::<Seq<u8>>::empty()
        } else {
            seq![last]
        }));
    } else {
        assert(names.push(last).drop_first() =~= names.drop_first().push(last));
        assert(names.push(last)[0] == names[0]);
        lemma_new_names_snoc(names.drop_first(), existing, last);
        assert(spec_new_names(names.push(last), existing) =~= spec_new_names(names, existing) + (
        if contains_name(existing, last) {
            Seq::<Seq<u8>>::empty()
        } else {
            seq![last]
        }));
    }
}

/// Whether the list holds a name with exactly these bytes.
pub fn contains_bytes(names: &Vec<Vec<u8>>, n: &[u8]) -> (r: bool)
    ensures
        r == contains_name(views(names@), n@),
{
    let mut i: usize = 0;
    while i < names.len()
        invariant
            i <= names@.len(),
            forall|j: int| 0 <= j < i ==> #[trigger] views(names@)[j] != n@,
        decreases names@.len() - i,
    {
        proof {
            assert(views(names@)[i as int] == names@[i as int]@);
        }
        if bytes_eq(names[i].as_slice(), n) {
            return true;
        }
        i += 1;
    }
    proof {
        if contains_name(views(names@), n@) {
            let j = choose|j: int|
                0 <= j < views(names@).len() && #[trigger] views(names@)[j] == n@;
        }
    }
    false
}

/// The catalog bootstrap's decision: which fetched names get an empty
/// placeholder file, in catalog order. A name that already exists
/// locally is already materialized and is skipped, never overwritten.
pub fn catalog_new_names(names: &Vec<Vec<u8>>, existing: &Vec<Vec<u8>>) -> (r: Vec<Vec<u8>>)
    ensures
        views(r@) == spec_new_names(views(names@), views(existing@)),
{
    let ghost nvs = views(names@);
    let ghost evs = views(existing@);
    let mut out: Vec<Vec<u8>> = Vec::new();
    let mut i: usize = 0;
    proof {
        assert(nvs.take(0) =~= Seq::<Seq<u8>>::empty());
        assert(views(out@) =~= Seq::<Seq<u8>>::empty());
    }
    while i < names.len()
        invariant
            i <= names@.len(),
            nvs == views(names@),
            evs == views(existing@),
            views(out@) == spec_new_names(nvs.take(i as int), evs),
        decreases names@.len() - i,
    {
        proof {
            assert(nvs[i as int] == names@[i as int]@);
        }
        let ghost prev = views(out@);
        if !contains_bytes(existing, names[i].as_slice()) {
            out.push(names[i].clone());
            proof {
                assert(views(out@) =~= prev.push(nvs[i as int]));
            }
        }
        proof {
            lemma_new_names_snoc(nvs.take(i as int), evs, nvs[i as int]);
            assert(nvs.take(i as int).push(nvs[i as int]) =~= nvs.take(i as int + 1));
            if contains_name(evs, nvs[i as int]) {
                assert(views(out@) =~= prev + Seq::<Seq<u8>>::empty());
            } else {
                assert(views(out@) =~= prev + seq![nvs[i as int]]);
            }
        }
        i += 1;
    }
    proof {
        assert(nvs.take(nvs.len() as int) =~= nvs);
    }
    out
}

/// `path` lies strictly under the directory `root`.
pub open spec fn under_root(path: Seq<char>, root: Seq<char>) -> bool {
    &&& path.len() > root.len() + 1
    &&& path.take(root.len() as int) == root
    &&& path[root.len() as int] == '/'
}

/// The path relative to the watched root, for a path that lies under
/// it: what the wire carries instead of the absolute local path.
pub fn strip_dir_prefix<'a>(path: &'a str, root: &str) -> (r: Option<&'a str>)
    ensures
        under_root(path@, root@) ==> (r matches Some(rel) && rel@ == path@.skip(
            root@.len() as int + 1,
        )),
        !under_root(path@, root@) ==> r is None,
{
    let n = path.unicode_len();
    let rn = root.unicode_len();
    if n <= rn || n - rn <= 1 {
        return None;
    }
    if path.get_char(rn) != '/' {
        return None;
    }
    let mut i: usize = 0;
    while i < rn
        invariant
            i <= rn == root@.len(),
            n == path@.len(),
            n > rn + 1,
            forall|k: int| 0 <= k < i ==> path@[k] == root@[k],
        decreases rn - i,
    {
        if path.get_char(i) != root.get_char(i) {
            proof {
                assert(path@.take(root@.len() as int)[i as int] != root@[i as int]);
            }
            return None;
        }
        i += 1;
    }
    proof {
        assert(path@.take(root@.len() as int) =~= root@);
    }
    Some(path.substring_char(rn + 1, n))
}

} // verus!
