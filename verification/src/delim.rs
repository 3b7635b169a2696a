//! Delimiter-terminated byte regions: joining parts with a reserved
//! separator byte and splitting them back. Every part is followed by
//! one separator, so a region is self-describing and a missing
//! terminator is detected as a protocol violation.
use vstd::prelude::*;
use crate::errors::ProtoError;

verus! {

/// The views of a sequence of byte vectors.
pub open spec fn views(s: Seq<Vec<u8>>) -> Seq<Seq<u8>> {
    s.map_values(|v: Vec<u8>| v@)
}

/// `s` holds no occurrence of `sep`.
pub open spec fn sep_free(s: Seq<u8>, sep: u8) -> bool {
    forall|i: int| 0 <= i < s.len() ==> s[i] != sep
}

/// Every part is free of `sep`.
pub open spec fn all_sep_free(parts: Seq<Seq<u8>>, sep: u8) -> bool {
    forall|i: int| 0 <= i < parts.len() ==> sep_free(#[trigger] parts[i], sep)
}

/// Each part followed by one separator, in order.
pub open spec fn join_sep(parts: Seq<Seq<u8>>, sep: u8) -> Seq<u8>
    decreases parts.len(),
{
    if parts.len() == 0 {
        Seq::empty()
    } else {
        parts[0] + seq![sep] + join_sep(parts.drop_first(), sep)
    }
}

/// Index of the first occurrence of `b` in `s`, or -1 if there is none.
pub open spec fn spec_find(s: Seq<u8>, b: u8) -> int
    decreases s.len(),
{
    if s.len() == 0 {
        -1
    } else if s[0] == b {
        0
    } else {
        let r = spec_find(s.drop_first(), b);
        if r < 0 {
            -1
        } else {
            r + 1
        }
    }
}

/// The parts of a region of `(part + sep)` groups, or `None` when the
/// region does not have that shape (a trailing part misses its
/// separator).
pub open spec fn spec_split(s: Seq<u8>, sep: u8) -> Option<Seq<Seq<u8>>>
    decreases s.len(),
{
    if s.len() == 0 {
        Some(Seq::empty())
    } else {
        let j = spec_find(s, sep);
        if j < 0 || j >= s.len() {
            None
        } else {
            match spec_split(s.skip(j + 1), sep) {
                Some(rest) => Some(seq![s.take(j)] + rest),
                Option::None => Option::None,
            }
        }
    }
}

/// What `spec_find` returns: the first occurrence when there is one,
/// -1 otherwise.
pub proof fn lemma_find_props(s: Seq<u8>, b: u8)
    ensures
        spec_find(s, b) >= 0 ==> {
            &&& spec_find(s, b) < s.len()
            &&& s[spec_find(s, b)] == b
            &&& forall|i: int| 0 <= i < spec_find(s, b) ==> s[i] != b
        },
        spec_find(s, b) < 0 ==> sep_free(s, b),
    decreases s.len(),
{
    if s.len() == 0 {
    } else if s[0] == b {
    } else {
        lemma_find_props(s.drop_first(), b);
        let r = spec_find(s.drop_first(), b);
        if r >= 0 {
            assert(forall|i: int| 1 <= i < r + 1 ==> s[i] == s.drop_first()[i - 1]);
        } else {
            assert forall|i: int| 0 <= i < s.len() implies s[i] != b by {
                if i >= 1 {
                    assert(s[i] == s.drop_first()[i - 1]);
                }
            }
        }
    }
}

/// When a first occurrence is exhibited, `spec_find` returns it.
pub proof fn lemma_find_at(s: Seq<u8>, b: u8, k: int)
    requires
        0 <= k < s.len(),
        s[k] == b,
        forall|i: int| 0 <= i < k ==> s[i] != b,
    ensures
        spec_find(s, b) == k,
{
    lemma_find_props(s, b);
    let j = spec_find(s, b);
    if j < 0 {
    } else if j < k {
    } else if j > k {
    }
}

/// Splitting what `join_sep` built returns exactly the parts that were
/// joined, for parts free of the separator.
pub proof fn lemma_split_join(parts: Seq<Seq<u8>>, sep: u8)
    requires
        all_sep_free(parts, sep),
    ensures
        spec_split(join_sep(parts, sep), sep) == Some(parts),
    decreases parts.len(),
{
    let s = join_sep(parts, sep);
    if parts.len() == 0 {
        assert(s =~= Seq::<u8>::empty());
    } else {
        let p0 = parts[0];
        let rest_join = join_sep(parts.drop_first(), sep);
        assert(s =~= p0 + seq![sep] + rest_join);
        assert(forall|i: int| 0 <= i < p0.len() ==> s[i] == p0[i]);
        assert(s[p0.len() as int] == sep);
        lemma_find_at(s, sep, p0.len() as int);
        assert(s.take(p0.len() as int) =~= p0);
        assert(s.skip(p0.len() as int + 1) =~= rest_join);
        assert(all_sep_free(parts.drop_first(), sep)) by {
            assert(forall|i: int| 0 <= i < parts.drop_first().len()
                ==> parts.drop_first()[i] == parts[i + 1]);
        }
        lemma_split_join(parts.drop_first(), sep);
        assert(seq![s.take(p0.len() as int)] + parts.drop_first() =~= parts);
    }
}

/// Appending one more part to a join appends the part and a separator.
pub proof fn lemma_join_snoc(parts: Seq<Seq<u8>>, last: Seq<u8>, sep: u8)
    ensures
        join_sep(parts.push(last), sep) == join_sep(parts, sep) + last + seq![sep],
    decreases parts.len(),
{
    if parts.len() == 0 {
        assert(parts.push(last).drop_first() =~= Seq::<Seq<u8>>::empty());
        assert(parts.push(last)[0] == last);
        assert(join_sep(parts.push(last), sep)
            == last + seq![sep] + join_sep(parts.push(last).drop_first(), sep));
        assert(join_sep(parts.push(last), sep) =~= join_sep(parts, sep) + last + seq![sep]);
    } else {
        assert(parts.push(last).drop_first() =~= parts.drop_first().push(last));
        lemma_join_snoc(parts.drop_first(), last, sep);
        assert(parts.push(last)[0] == parts[0]);
        assert(join_sep(parts.push(last), sep)
            == parts[0] + seq![sep] + (join_sep(parts.drop_first(), sep) + last + seq![sep]));
        assert(join_sep(parts.push(last), sep) =~= join_sep(parts, sep) + last + seq![sep]);
    }
}

/// Joins the parts, each followed by one `sep` byte.
pub fn join_delim(parts: &Vec<Vec<u8>>, sep: u8) -> (r: Vec<u8>)
    ensures
        r@ == join_sep(views(parts@), sep),
{
    let mut out: Vec<u8> = Vec::new();
    let mut i: usize = 0;
    proof {
        assert(views(parts@.take(0)) =~= Seq::<Seq<u8>>::empty());
    }
    while i < parts.len()
        invariant
            i <= parts@.len(),
            out@ == join_sep(views(parts@.take(i as int)), sep),
        decreases parts@.len() - i,
    {
        out.extend_from_slice(parts[i].as_slice());
        out.push(sep);
        proof {
            lemma_join_snoc(views(parts@.take(i as int)), parts@[i as int]@, sep);
            assert(views(parts@.take(i as int)).push(parts@[i as int]@)
                =~= views(parts@.take(i as int + 1)));
        }
        i += 1;
    }
    proof {
        assert(parts@.take(parts@.len() as int) =~= parts@);
    }
    out
}

/// Splits a delimiter-terminated region back into its parts. Refused
/// when a trailing part misses its separator: the region's shape can
/// then not be trusted.
pub fn split_delim(buf: &[u8], sep: u8) -> (r: Result<Vec<Vec<u8>>, ProtoError>)
    ensures
        match spec_split(buf@, sep) {
            Some(ps) => r matches Ok(v) && views(v@) == ps,
            Option::None => r == Err::<Vec<Vec<u8>>, ProtoError>(ProtoError::MissingDelimiter),
        },
{
    let mut out: Vec<Vec<u8>> = Vec::new();
    let mut pos: usize = 0;
    proof {
        assert(buf@.skip(0) =~= buf@);
        assert(views(out@) =~= Seq::<Seq<u8>>::empty());
    }
    while pos < buf.len()
        invariant
            pos <= buf@.len(),
            match spec_split(buf@.skip(pos as int), sep) {
                Some(rest) => spec_split(buf@, sep) == Some(views(out@) + rest),
                Option::None => spec_split(buf@, sep) is None,
            },
        decreases buf@.len() - pos,
    {
        let rest = vstd::slice::slice_subrange(buf, pos, buf.len());
        let found = crate::codec::find_delim(rest, sep);
        proof {
            lemma_find_props(rest@, sep);
        }
        match found {
            Some(j) => {
                let part_slice = vstd::slice::slice_subrange(rest, 0, j);
                let mut part: Vec<u8> = Vec::new();
                part.extend_from_slice(part_slice);
                proof {
                    lemma_find_at(rest@, sep, j as int);
                    assert(rest@.take(j as int) =~= part@);
                    assert(rest@.skip(j as int + 1) =~= buf@.skip(pos as int + j + 1));
                    let ghost old_views = views(out@);
                    assert(old_views.push(part@) =~= views(out@.push(part)));
                }
                let ghost prev_out = out@;
                out.push(part);
                proof {
                    match spec_split(buf@.skip(pos as int + j + 1), sep) {
                        Some(rest2) => {
                            assert(spec_split(buf@.skip(pos as int), sep)
                                == Some(seq![rest@.take(j as int)] + rest2));
                            assert(views(prev_out) + (seq![rest@.take(j as int)] + rest2)
                                =~= views(out@) + rest2);
                        },
                        Option::None => {
                            assert(spec_split(buf@.skip(pos as int), sep) is None);
                        },
                    }
                }
                pos = pos + j + 1;
            },
            Option::None => {
                proof {
                    assert(spec_find(rest@, sep) < 0) by {
                        if spec_find(rest@, sep) >= 0 {
                            assert(rest@[spec_find(rest@, sep)] == sep);
                        }
                    }
                    assert(spec_split(buf@.skip(pos as int), sep) is None);
                }
                return Err(ProtoError::MissingDelimiter);
            },
        }
    }
    proof {
        assert(buf@.skip(pos as int) =~= Seq::<u8>::empty());
        assert(views(out@) + Seq::<Seq<u8>>::empty() =~= views(out@));
    }
    Ok(out)
}

} // verus!
