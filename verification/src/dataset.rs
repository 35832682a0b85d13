//! Which files of a dataset repository hold its training split.

use vstd::prelude::*;
use vstd::string::StringSliceAdditionalSpecFns;

verus! {

/// `p` starts with `q`.
pub open spec fn has_prefix(p: Seq<u8>, q: Seq<u8>) -> bool {
    q.len() <= p.len() && p.subrange(0, q.len() as int) == q
}

/// `p` ends with `q`.
pub open spec fn has_suffix(p: Seq<u8>, q: Seq<u8>) -> bool {
    q.len() <= p.len() && p.subrange(p.len() - q.len(), p.len() as int) == q
}

/// The bytes after the last `/` of a path (all of it when it has none).
pub open spec fn file_name(p: Seq<u8>) -> Seq<u8>
    decreases p.len(),
{
    if p.len() == 0 {
        p
    } else if p.last() == 47u8 {
        seq![]
    } else {
        file_name(p.drop_last()).push(p.last())
    }
}

/// A training-split file: under the directory of `config`, with extension
/// `extension`, and a file name that starts with `prefix`.
pub open spec fn is_train_path(path: Seq<u8>, config: Seq<u8>, extension: Seq<u8>, prefix: Seq<u8>) -> bool {
    &&& has_prefix(path, config)
    &&& has_suffix(path, extension)
    &&& has_prefix(file_name(path), prefix)
}

/// Whether `p[start..start + q.len()]` is `q`.
fn bytes_match_at(p: &[u8], start: usize, q: &[u8]) -> (r: bool)
    requires
        start + q@.len() <= p@.len(),
    ensures
        r == (p@.subrange(start as int, start + q@.len()) == q@),
{
    let plen = p.len();
    let mut i: usize = 0;
    while i < q.len()
        invariant
            plen == p@.len(),
            i <= q@.len(),
            start + q@.len() <= p@.len(),
            forall|j: int| 0 <= j < i ==> p@[start + j] == q@[j],
        decreases q@.len() - i,
    {
        if p[start + i] != q[i] {
            proof {
                assert(p@.subrange(start as int, start + q@.len())[i as int] != q@[i as int]);
            }
            return false;
        }
        i = i + 1;
    }
    proof {
        assert(p@.subrange(start as int, start + q@.len()) =~= q@);
    }
    true
}

/// Where the file name of `p` starts: just after its last `/`, or at 0.
fn file_name_start(p: &[u8]) -> (r: usize)
    ensures
        r <= p@.len(),
        p@.subrange(r as int, p@.len() as int) == file_name(p@),
{
    let mut r: usize = p.len();
    while r > 0 && p[r - 1] != 47u8
        invariant
            r <= p@.len(),
            forall|j: int| r <= j < p@.len() ==> p@[j] != 47u8,
        decreases r,
    {
        r = r - 1;
    }
    proof {
        lemma_file_name_tail(p@, r as int);
    }
    r
}

/// The file name is the tail after the last `/`.
proof fn lemma_file_name_tail(p: Seq<u8>, r: int)
    requires
        0 <= r <= p.len(),
        r == 0 || p[r - 1] == 47u8,
        forall|j: int| r <= j < p.len() ==> p[j] != 47u8,
    ensures
        p.subrange(r, p.len() as int) == file_name(p),
    decreases p.len(),
{
    if p.len() == 0 {
        assert(p.subrange(r, 0) =~= p);
    } else if r == p.len() {
        assert(p.last() == 47u8);
        assert(p.subrange(r, p.len() as int) =~= Seq::<u8>::empty());
    } else {
        let q = p.drop_last();
        assert forall|j: int| r <= j < q.len() implies q[j] != 47u8 by {
            assert(q[j] == p[j]);
        }
        if r > 0 {
            assert(q[r - 1] == p[r - 1]);
        }
        lemma_file_name_tail(q, r);
        assert(p.subrange(r, p.len() as int) =~= q.subrange(r, q.len() as int).push(p.last()));
    }
}

/// Whether `path` names a training-split file of `config`: it lies under
/// `config`, ends with `extension`, and its file name starts with `prefix`.
pub fn is_train_file(path: &str, config: &str, extension: &str, prefix: &str) -> (r: bool)
    ensures
        r == is_train_path(path.spec_bytes(), config.spec_bytes(), extension.spec_bytes(), prefix.spec_bytes()),
{
    let p = path.as_bytes();
    let c = config.as_bytes();
    let e = extension.as_bytes();
    let f = prefix.as_bytes();
    if c.len() > p.len() || e.len() > p.len() {
        return false;
    }
    if !bytes_match_at(p, 0, c) {
        return false;
    }
    if !bytes_match_at(p, p.len() - e.len(), e) {
        return false;
    }
    let start = file_name_start(p);
    if f.len() > p.len() - start {
        return false;
    }
    let r = bytes_match_at(p, start, f);
    proof {
        let name = p@.subrange(start as int, p@.len() as int);
        assert(name.subrange(0, f@.len() as int) =~= p@.subrange(start as int, start + f@.len()));
    }
    r
}

} // verus!
