//! Paths as byte strings.

use vstd::prelude::*;
use vstd::slice::slice_subrange;
use crate::abi::EINVAL;

verus! {

/// The byte that separates the components of a path.
pub const SLASH: u8 = 0x2f;

/// The byte that the names of a directory itself and of its parent are made of.
pub const DOT: u8 = 0x2e;

/// The index of the first slash of `p` at or after `i`; the length of `p` where
/// there is none.
pub open spec fn run_end(p: Seq<u8>, i: int) -> int
    decreases p.len() - i,
{
    if i >= p.len() {
        p.len() as int
    } else if p[i] == SLASH {
        i
    } else {
        run_end(p, i + 1)
    }
}

/// The runs of bytes between slashes, from `i` on.
pub open spec fn components_from(p: Seq<u8>, i: int) -> Seq<Seq<u8>>
    decreases p.len() - i,
{
    if i >= p.len() {
        Seq::empty()
    } else if p[i] == SLASH {
        components_from(p, i + 1)
    } else {
        proof {
            lemma_run_end(p, i + 1);
        }
        seq![p.subrange(i, run_end(p, i))] + components_from(p, run_end(p, i))
    }
}

/// The components of a path: its non-empty runs of bytes between slashes.
pub open spec fn components(p: Seq<u8>) -> Seq<Seq<u8>> {
    components_from(p, 0)
}

/// Whether a path starts at the root.
pub open spec fn is_absolute(p: Seq<u8>) -> bool {
    p.len() > 0 && p[0] == SLASH
}

/// The length of `p` without the slashes at its end, but for its first byte.
pub open spec fn trimmed_len(p: Seq<u8>, end: int) -> int
    decreases end,
{
    if end > 1 && p[end - 1] == SLASH {
        trimmed_len(p, end - 1)
    } else {
        end
    }
}

/// The index of the last slash of `p` at or before `i`; 0 where there is none.
pub open spec fn last_slash(p: Seq<u8>, i: int) -> int
    decreases i,
{
    if i > 0 && p[i] != SLASH {
        last_slash(p, i - 1)
    } else {
        i
    }
}

/// A path split into the path of the directory and the name in it.
pub open spec fn split(p: Seq<u8>) -> Result<(Seq<u8>, Seq<u8>), i32> {
    let end = trimmed_len(p, p.len() as int);
    let slash = last_slash(p, end - 1);
    if !is_absolute(p) || slash + 1 == end {
        Err(EINVAL)
    } else if slash == 0 {
        Ok((p.take(1), p.subrange(1, end)))
    } else {
        Ok((p.take(slash), p.subrange(slash + 1, end)))
    }
}

/// `run_end` stays within the path, stands on a slash or at the end, and passes
/// no slash.
pub proof fn lemma_run_end(p: Seq<u8>, i: int)
    requires
        i <= p.len(),
    ensures
        i <= run_end(p, i) <= p.len(),
        run_end(p, i) < p.len() ==> p[run_end(p, i)] == SLASH,
        forall|k: int| i <= k < run_end(p, i) ==> p[k] != SLASH,
    decreases p.len() - i,
{
    if i < p.len() && p[i] != SLASH {
        lemma_run_end(p, i + 1);
    }
}

/// What is trimmed is slashes, and no more can be.
pub proof fn lemma_trimmed_len(p: Seq<u8>, end: int)
    requires
        1 <= end <= p.len(),
    ensures
        1 <= trimmed_len(p, end) <= end,
        forall|k: int| trimmed_len(p, end) <= k < end ==> p[k] == SLASH,
        trimmed_len(p, end) > 1 ==> p[trimmed_len(p, end) - 1] != SLASH,
    decreases end,
{
    if end > 1 && p[end - 1] == SLASH {
        lemma_trimmed_len(p, end - 1);
    }
}

/// Behind the last slash there is none.
pub proof fn lemma_last_slash(p: Seq<u8>, i: int)
    requires
        0 <= i < p.len(),
    ensures
        0 <= last_slash(p, i) <= i,
        last_slash(p, i) > 0 ==> p[last_slash(p, i)] == SLASH,
        forall|k: int| last_slash(p, i) < k <= i ==> p[k] != SLASH,
    decreases i,
{
    if i > 0 && p[i] != SLASH {
        lemma_last_slash(p, i - 1);
    }
}

/// Splits a path into the path of the directory and the name in it.
pub fn split_parent(path: &[u8]) -> (r: Result<(&[u8], &[u8]), i32>)
    ensures
        match (r, split(path@)) {
            (Ok((parent, name)), Ok((p, n))) => parent@ == p && name@ == n,
            (Err(e), Err(f)) => e == f,
            _ => false,
        },
{
    if path.len() == 0 || path[0] != SLASH {
        return Err(EINVAL);
    }
    let mut end: usize = path.len();
    while end > 1 && path[end - 1] == SLASH
        invariant
            1 <= end <= path@.len(),
            trimmed_len(path@, end as int) == trimmed_len(path@, path@.len() as int),
        decreases end,
    {
        end -= 1;
    }
    let mut slash: usize = end - 1;
    while slash > 0 && path[slash] != SLASH
        invariant
            slash < end <= path@.len(),
            last_slash(path@, slash as int) == last_slash(path@, end - 1),
        decreases slash,
    {
        slash -= 1;
    }
    if slash + 1 == end {
        return Err(EINVAL);
    }
    let name = slice_subrange(path, slash + 1, end);
    let parent = if slash == 0 {
        slice_subrange(path, 0, 1)
    } else {
        slice_subrange(path, 0, slash)
    };
    Ok((parent, name))
}

/// The components from `i` on of a path whose bytes from `end` on are slashes
/// are those of the path cut off at `end`.
proof fn lemma_components_cut(p: Seq<u8>, end: int, i: int)
    requires
        0 <= i <= end <= p.len(),
        forall|k: int| end <= k < p.len() ==> p[k] == SLASH,
    ensures
        components_from(p, i) == components_from(p.take(end), i),
    decreases p.len() - i,
{
    let q = p.take(end);
    if i == end {
        lemma_components_of_slashes(p, i);
    } else if p[i] == SLASH {
        lemma_components_cut(p, end, i + 1);
    } else {
        lemma_run_end(p, i);
        lemma_run_end(p, i + 1);
        lemma_run_end(q, i);
        lemma_run_end_cut(p, end, i);
        let e = run_end(p, i);
        assert(p.subrange(i, e) =~= q.subrange(i, e));
        lemma_components_cut(p, end, e);
    }
}

/// Slashes have no components.
proof fn lemma_components_of_slashes(p: Seq<u8>, i: int)
    requires
        0 <= i <= p.len(),
        forall|k: int| i <= k < p.len() ==> p[k] == SLASH,
    ensures
        components_from(p, i) == Seq::<Seq<u8>>::empty(),
    decreases p.len() - i,
{
    if i < p.len() {
        lemma_components_of_slashes(p, i + 1);
    }
}

/// A run that ends before a slash does not change when the path is cut there.
proof fn lemma_run_end_cut(p: Seq<u8>, end: int, i: int)
    requires
        0 <= i <= end <= p.len(),
        end < p.len() ==> p[end] == SLASH,
    ensures
        run_end(p, i) == run_end(p.take(end), i),
        run_end(p, i) <= end,
    decreases end - i,
{
    if i < end && p[i] != SLASH {
        lemma_run_end_cut(p, end, i + 1);
    }
}

/// The components of a path that ends in a slash and one more run are those of
/// the path before that slash and the run.
proof fn lemma_components_append(p: Seq<u8>, slash: int, i: int)
    requires
        0 <= i <= slash < p.len() - 1,
        p[slash] == SLASH,
        forall|k: int| slash < k < p.len() ==> p[k] != SLASH,
    ensures
        components_from(p, i) == components_from(p.take(slash), i).push(
            p.subrange(slash + 1, p.len() as int),
        ),
    decreases slash - i,
{
    let q = p.take(slash);
    let name = p.subrange(slash + 1, p.len() as int);
    if i == slash {
        lemma_run_end(p, slash + 1);
        lemma_run_end(p, slash + 2);
        assert(run_end(p, slash + 1) == p.len());
        assert(components_from(p, p.len() as int) =~= Seq::<Seq<u8>>::empty());
        assert(components_from(p, slash + 1) =~= seq![name]);
        assert(components_from(q, i) =~= Seq::<Seq<u8>>::empty());
        assert(components_from(p, i) =~= components_from(q, i).push(name));
    } else if p[i] == SLASH {
        lemma_components_append(p, slash, i + 1);
    } else {
        lemma_run_end(p, i);
        lemma_run_end(p, i + 1);
        lemma_run_end_cut(p, slash, i);
        let e = run_end(p, i);
        assert(p.subrange(i, e) =~= q.subrange(i, e));
        lemma_components_append(p, slash, e);
        assert(components_from(p, i) =~= components_from(q, i).push(name));
    }
}

/// Splitting a path takes its last component off: the components of the path
/// are those of the directory's path and then the name. A path splits exactly
/// where it is absolute and has a component.
pub proof fn law_split_takes_last_component(p: Seq<u8>)
    ensures
        split(p) is Ok <==> is_absolute(p) && components(p).len() > 0,
        split(p) is Ok ==> {
            let (parent, name) = split(p)->Ok_0;
            &&& is_absolute(parent)
            &&& components(p) == components(parent).push(name)
        },
{
    if is_absolute(p) {
        let end = trimmed_len(p, p.len() as int);
        lemma_trimmed_len(p, p.len() as int);
        let slash = last_slash(p, end - 1);
        lemma_last_slash(p, end - 1);
        let t = p.take(end);
        lemma_components_cut(p, end, 0);
        if slash + 1 == end {
            assert(end == 1);
            lemma_components_of_slashes(t, 0);
        } else {
            lemma_components_append(t, slash, 0);
            assert(t.subrange(slash + 1, end) =~= p.subrange(slash + 1, end));
            assert(t.take(slash) =~= p.take(slash));
            if slash == 0 {
                lemma_components_of_slashes(p.take(1), 0);
                assert(components_from(t.take(0), 0) =~= Seq::<Seq<u8>>::empty());
            }
        }
    }
}

} // verus!
