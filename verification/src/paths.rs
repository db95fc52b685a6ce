use vstd::prelude::*;

verus! {

/// The POSIX path separator byte, `/`.
pub const SEPARATOR: u8 = 47;

/// Joins path components with `/` separators into one relative path.
pub open spec fn join_rel_path(comps: Seq<Seq<u8>>) -> Seq<u8>
    decreases comps.len(),
{
    if comps.len() == 0 {
        Seq::empty()
    } else if comps.len() == 1 {
        comps[0]
    } else {
        join_rel_path(comps.drop_last()) + seq![SEPARATOR] + comps.last()
    }
}

/// A directory path extended by one relative path, with a `/` between them.
pub open spec fn spec_path_join(dir: Seq<u8>, rel: Seq<u8>) -> Seq<u8> {
    dir + seq![SEPARATOR] + rel
}

/// Byte-string equality of two paths (or any byte vectors).
pub fn bytes_eq(a: &Vec<u8>, b: &Vec<u8>) -> (r: bool)
    ensures
        r == (a@ == b@),
{
    let r = a == b;
    proof {
        if r {
            assert(a@ =~= b@);
        }
    }
    r
}

/// Appends all bytes of `src` to `out`.
pub fn extend_bytes(out: &mut Vec<u8>, src: &Vec<u8>)
    ensures
        final(out)@ == old(out)@ + src@,
{
    let mut j: usize = 0;
    while j < src.len()
        invariant
            j <= src.len(),
            out@ == old(out)@ + src@.take(j as int),
        decreases src.len() - j,
    {
        out.push(src[j]);
        j = j + 1;
        proof {
            assert(src@.take(j as int) =~= src@.take(j - 1) + seq![src@[j - 1]]);
        }
    }
    proof {
        assert(src@.take(src@.len() as int) =~= src@);
    }
}

/// Drops the first `nr` components of a path given as a component list and
/// joins the remainder with `/`. Used to turn a walker's absolute path into
/// a path relative to the walked root.
pub fn drop_components(nr: usize, comps: &Vec<Vec<u8>>) -> (r: Vec<u8>)
    ensures
        r@ == if nr <= comps.len() {
            join_rel_path(comps.deep_view().skip(nr as int))
        } else {
            Seq::<u8>::empty()
        },
{
    let mut out: Vec<u8> = Vec::new();
    if nr >= comps.len() {
        proof {
            if nr <= comps.len() {
                assert(comps.deep_view().skip(nr as int) =~= Seq::<Seq<u8>>::empty());
            }
        }
        return out;
    }
    let ghost rest = comps.deep_view().skip(nr as int);
    let mut i: usize = nr;
    while i < comps.len()
        invariant
            nr <= i <= comps.len(),
            nr < comps.len(),
            rest == comps.deep_view().skip(nr as int),
            out@ == join_rel_path(rest.take(i - nr)),
        decreases comps.len() - i,
    {
        if i > nr {
            out.push(SEPARATOR);
        }
        extend_bytes(&mut out, &comps[i]);
        proof {
            let k = (i - nr) as int;
            assert(rest.take(k + 1).drop_last() =~= rest.take(k));
            assert(rest.take(k + 1).last() == comps.deep_view()[i as int]);
            if k == 0 {
                assert(join_rel_path(rest.take(1)) == rest[0]);
            }
        }
        i = i + 1;
    }
    proof {
        assert(rest.take(comps.len() - nr) =~= rest);
    }
    out
}

/// Joins a directory path and a relative path with a `/` between them.
pub fn path_join(dir: &Vec<u8>, rel: &Vec<u8>) -> (r: Vec<u8>)
    ensures
        r@ == spec_path_join(dir@, rel@),
{
    let mut out: Vec<u8> = Vec::new();
    extend_bytes(&mut out, dir);
    out.push(SEPARATOR);
    extend_bytes(&mut out, rel);
    proof {
        assert(out@ =~= spec_path_join(dir@, rel@));
    }
    out
}

/// The index of the last `/` in a path, if any.
pub open spec fn last_separator(s: Seq<u8>) -> Option<int>
    decreases s.len(),
{
    if s.len() == 0 {
        None
    } else if s.last() == SEPARATOR {
        Some(s.len() - 1)
    } else {
        last_separator(s.drop_last())
    }
}

/// The parent directory of a path: the bytes before its last `/`, or `None`
/// for a path without a separator.
pub fn parent_dir(path: &Vec<u8>) -> (r: Option<Vec<u8>>)
    ensures
        r matches Some(p) ==> (last_separator(path@) matches Some(i) && p@ == path@.take(i)),
        r is None ==> last_separator(path@) is None,
{
    let mut i: usize = path.len();
    proof {
        assert(path@.take(path@.len() as int) =~= path@);
    }
    while i > 0
        invariant
            i <= path.len(),
            last_separator(path@) == last_separator(path@.take(i as int)),
        decreases i,
    {
        proof {
            assert(path@.take(i as int).drop_last() =~= path@.take(i - 1));
        }
        if path[i - 1] == SEPARATOR {
            proof {
                assert(path@.take(i as int).last() == path@[i - 1]);
                assert(last_separator(path@) == Some(i - 1));
            }
            let mut out: Vec<u8> = Vec::new();
            let mut j: usize = 0;
            while j < i - 1
                invariant
                    j <= i - 1,
                    i <= path.len(),
                    out@ == path@.take(j as int),
                decreases i - 1 - j,
            {
                out.push(path[j]);
                proof {
                    assert(path@.take(j + 1) =~= path@.take(j as int) + seq![path@[j as int]]);
                }
                j = j + 1;
            }
            return Some(out);
        }
        i = i - 1;
    }
    proof {
        assert(path@.take(0) =~= Seq::<u8>::empty());
    }
    None
}

} // verus!
