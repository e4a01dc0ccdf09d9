//! Resolving a raw header reference to the path of an existing file.
//!
//! A reference is tried first against the directory of the referring file,
//! then against each configured search root in the order given; the first
//! candidate that exists wins. Which paths exist is passed in as a value: a
//! vector of the candidate paths the caller found present on disk.

use vstd::prelude::*;

verus! {

/// The prefix of a path up to and through its last `/`; empty when the path
/// holds no separator (a bare file name resolves relative to nothing).
pub open spec fn spec_dirname(p: Seq<char>) -> Seq<char>
    decreases p.len(),
{
    if p.len() == 0 {
        p
    } else if p.last() == '/' {
        p
    } else {
        spec_dirname(p.drop_last())
    }
}

/// Joining a directory and a file name with a single `/` separator.
pub open spec fn spec_join(dir: Seq<char>, name: Seq<char>) -> Seq<char> {
    if dir.len() == 0 {
        name
    } else if dir.last() == '/' {
        dir + name
    } else {
        dir + seq!['/'] + name
    }
}

/// One candidate per search root, in the order the roots were configured.
pub open spec fn spec_root_candidates(target: Seq<char>, roots: Seq<Seq<char>>) -> Seq<Seq<char>>
    decreases roots.len(),
{
    if roots.len() == 0 {
        Seq::empty()
    } else {
        seq![spec_join(roots[0], target)] + spec_root_candidates(target, roots.drop_first())
    }
}

pub proof fn lemma_root_candidates_index(target: Seq<char>, roots: Seq<Seq<char>>)
    ensures
        spec_root_candidates(target, roots).len() == roots.len(),
        forall|j: int|
            0 <= j < roots.len() ==> spec_root_candidates(target, roots)[j] == spec_join(
                roots[j],
                target,
            ),
    decreases roots.len(),
{
    if roots.len() > 0 {
        lemma_root_candidates_index(target, roots.drop_first());
        assert(forall|j: int|
            1 <= j < roots.len() ==> spec_root_candidates(target, roots)[j]
                == spec_root_candidates(target, roots.drop_first())[j - 1]);
    }
}

/// The ordered candidate paths for a reference `target` made from the file
/// at `file`: first the same-directory candidate, then one per search root,
/// in the order the roots were configured.
pub open spec fn spec_candidates(
    file: Seq<char>,
    target: Seq<char>,
    roots: Seq<Seq<char>>,
) -> Seq<Seq<char>> {
    seq![spec_dirname(file) + target] + spec_root_candidates(target, roots)
}

/// The first candidate present among the existing paths, or `None` when no
/// candidate exists: the reference then stays out of the graph.
pub open spec fn spec_first_existing(
    existing: Seq<Seq<char>>,
    cands: Seq<Seq<char>>,
) -> Option<Seq<char>>
    decreases cands.len(),
{
    if cands.len() == 0 {
        None
    } else if existing.contains(cands[0]) {
        Some(cands[0])
    } else {
        spec_first_existing(existing, cands.drop_first())
    }
}

/// Where a reference resolves: the earliest candidate that exists.
pub open spec fn spec_resolve(
    file: Seq<char>,
    target: Seq<char>,
    roots: Seq<Seq<char>>,
    existing: Seq<Seq<char>>,
) -> Option<Seq<char>> {
    spec_first_existing(existing, spec_candidates(file, target, roots))
}

/// A reference that resolves resolves to a path that exists; a dangling
/// reference resolves to nothing and so can never contribute an edge.
pub proof fn lemma_resolved_path_exists(existing: Seq<Seq<char>>, cands: Seq<Seq<char>>)
    ensures
        match spec_first_existing(existing, cands) {
            Some(p) => existing.contains(p),
            None => forall|i: int| 0 <= i < cands.len() ==> !existing.contains(cands[i]),
        },
    decreases cands.len(),
{
    if cands.len() > 0 && !existing.contains(cands[0]) {
        lemma_resolved_path_exists(existing, cands.drop_first());
        match spec_first_existing(existing, cands.drop_first()) {
            Some(_) => {},
            None => {
                assert(forall|i: int|
                    1 <= i < cands.len() ==> cands[i] == cands.drop_first()[i - 1]);
            },
        }
    }
}

/// The earliest existing candidate wins: if candidate `i` exists and no
/// earlier candidate does, resolution yields exactly candidate `i`. In
/// particular, when the same-directory candidate is absent and several
/// search roots hold the target, the root configured earliest is chosen.
pub proof fn lemma_earliest_candidate_wins(
    existing: Seq<Seq<char>>,
    cands: Seq<Seq<char>>,
    i: int,
)
    requires
        0 <= i < cands.len(),
        existing.contains(cands[i]),
        forall|j: int| 0 <= j < i ==> !existing.contains(cands[j]),
    ensures
        spec_first_existing(existing, cands) == Some(cands[i]),
    decreases cands.len(),
{
    if i > 0 {
        lemma_earliest_candidate_wins(existing, cands.drop_first(), i - 1);
    }
}

/// Whether two paths hold the same characters.
pub fn path_eq(a: &Vec<char>, b: &Vec<char>) -> (r: bool)
    ensures
        r == (a@ == b@),
{
    if a.len() != b.len() {
        proof {
            assert(a@ != b@) by {
                assert(a@.len() != b@.len());
            }
        }
        return false;
    }
    let mut i: usize = 0;
    while i < a.len()
        invariant
            i <= a.len(),
            a@.len() == b@.len(),
            forall|j: int| 0 <= j < i ==> a@[j] == b@[j],
        decreases a.len() - i,
    {
        if a[i] != b[i] {
            return false;
        }
        i = i + 1;
    }
    proof {
        assert(a@ =~= b@);
    }
    true
}

/// Whether `p` occurs among `paths`.
pub fn contains_path(paths: &Vec<Vec<char>>, p: &Vec<char>) -> (r: bool)
    ensures
        r == paths.deep_view().contains(p@),
{
    let mut i: usize = 0;
    while i < paths.len()
        invariant
            i <= paths.len(),
            forall|j: int| 0 <= j < i ==> paths.deep_view()[j] != p@,
        decreases paths.len() - i,
    {
        proof {
            assert(paths[i as int]@ =~~= paths.deep_view()[i as int]);
        }
        if path_eq(&paths[i], p) {
            proof {
                assert(paths.deep_view().contains(p@)) by {
                    assert(paths.deep_view()[i as int] == p@);
                }
            }
            return true;
        }
        i = i + 1;
    }
    proof {
        assert(!paths.deep_view().contains(p@)) by {
            assert(forall|j: int| 0 <= j < paths.deep_view().len() ==> paths.deep_view()[j] != p@);
        }
    }
    false
}

/// A copy of a path, character for character.
pub fn copy_path(p: &Vec<char>) -> (r: Vec<char>)
    ensures
        r@ == p@,
{
    let mut out: Vec<char> = Vec::new();
    let mut i: usize = 0;
    while i < p.len()
        invariant
            i <= p.len(),
            out@ =~= p@.subrange(0, i as int),
        decreases p.len() - i,
    {
        out.push(p[i]);
        i = i + 1;
    }
    proof {
        assert(p@.subrange(0, p@.len() as int) =~= p@);
    }
    out
}

/// The directory part of a path, through its last `/`.
pub fn dirname(p: &Vec<char>) -> (r: Vec<char>)
    ensures
        r@ == spec_dirname(p@),
{
    let mut i: usize = p.len();
    proof {
        assert(p@.subrange(0, p@.len() as int) =~= p@);
    }
    while i > 0 && p[i - 1] != '/'
        invariant
            i <= p.len(),
            spec_dirname(p@) == spec_dirname(p@.subrange(0, i as int)),
        decreases i,
    {
        proof {
            assert(p@.subrange(0, i as int).drop_last() =~= p@.subrange(0, i - 1));
            assert(p@.subrange(0, i as int).last() == p@[i - 1]);
        }
        i = i - 1;
    }
    let mut out: Vec<char> = Vec::new();
    let mut j: usize = 0;
    while j < i
        invariant
            j <= i <= p.len(),
            out@ =~= p@.subrange(0, j as int),
        decreases i - j,
    {
        out.push(p[j]);
        j = j + 1;
    }
    proof {
        if i == 0 {
            assert(out@ =~= Seq::<char>::empty());
            assert(spec_dirname(p@.subrange(0, 0)) =~= p@.subrange(0, 0));
            assert(p@.subrange(0, 0) =~= Seq::<char>::empty());
        } else {
            assert(p@.subrange(0, i as int).last() == p@[i - 1]);
            assert(spec_dirname(p@.subrange(0, i as int)) == p@.subrange(0, i as int));
        }
    }
    out
}

/// `dir` and `name` joined with a single `/`.
pub fn join_path(dir: &Vec<char>, name: &Vec<char>) -> (r: Vec<char>)
    ensures
        r@ == spec_join(dir@, name@),
{
    let mut out = copy_path(dir);
    if dir.len() > 0 && dir[dir.len() - 1] != '/' {
        out.push('/');
    }
    let mut i: usize = 0;
    let ghost stem = out@;
    while i < name.len()
        invariant
            i <= name.len(),
            out@ =~= stem + name@.subrange(0, i as int),
        decreases name.len() - i,
    {
        out.push(name[i]);
        i = i + 1;
    }
    proof {
        assert(name@.subrange(0, name@.len() as int) =~= name@);
        if dir@.len() == 0 {
            assert(stem + name@ =~= name@);
        } else if dir@.last() == '/' {
            assert(stem + name@ =~= dir@ + name@);
        } else {
            assert(stem =~= dir@ + seq!['/']);
            assert(stem + name@ =~= dir@ + seq!['/'] + name@);
        }
    }
    out
}

/// The ordered candidate paths for one reference: the same-directory
/// candidate, then one candidate per search root in configured order.
pub fn candidates(file: &Vec<char>, target: &Vec<char>, roots: &Vec<Vec<char>>) -> (r: Vec<
    Vec<char>,
>)
    ensures
        r.deep_view() == spec_candidates(file@, target@, roots.deep_view()),
{
    let ghost cands = spec_candidates(file@, target@, roots.deep_view());
    let mut out: Vec<Vec<char>> = Vec::new();
    let dir = dirname(file);
    let mut first = dir;
    let mut i: usize = 0;
    while i < target.len()
        invariant
            i <= target.len(),
            first@ =~= spec_dirname(file@) + target@.subrange(0, i as int),
        decreases target.len() - i,
    {
        first.push(target[i]);
        i = i + 1;
    }
    proof {
        assert(target@.subrange(0, target@.len() as int) =~= target@);
    }
    out.push(first);
    proof {
        assert(cands[0] == spec_dirname(file@) + target@);
        assert(out.deep_view() =~~= cands.subrange(0, 1));
    }
    let mut k: usize = 0;
    while k < roots.len()
        invariant
            k <= roots.len(),
            cands == spec_candidates(file@, target@, roots.deep_view()),
            out.deep_view() =~= cands.subrange(0, k + 1),
        decreases roots.len() - k,
    {
        let ghost prev = out.deep_view();
        proof {
            assert(roots[k as int]@ =~~= roots.deep_view()[k as int]);
        }
        let c = join_path(&roots[k], target);
        out.push(c);
        proof {
            lemma_root_candidates_index(target@, roots.deep_view());
            assert(out.deep_view() =~~= prev.push(c@));
            assert(cands[k as int + 1] == spec_root_candidates(target@, roots.deep_view())[
                k as int]);
            assert(prev.push(c@) =~= cands.subrange(0, k as int + 2));
        }
        k = k + 1;
    }
    proof {
        lemma_root_candidates_index(target@, roots.deep_view());
        assert(cands.subrange(0, cands.len() as int) =~= cands);
        assert(out.deep_view() =~~= cands.subrange(0, roots@.len() as int + 1));
        assert(cands.len() == roots@.len() + 1);
    }
    out
}

/// Resolution of one reference: the earliest candidate among the existing
/// paths, or `None` when every candidate is absent.
pub fn resolve_target(
    file: &Vec<char>,
    target: &Vec<char>,
    roots: &Vec<Vec<char>>,
    existing: &Vec<Vec<char>>,
) -> (r: Option<Vec<char>>)
    ensures
        r.deep_view() == spec_resolve(file@, target@, roots.deep_view(), existing.deep_view()),
{
    let cands = candidates(file, target, roots);
    let ghost cview = cands.deep_view();
    let mut i: usize = 0;
    proof {
        assert(cview.subrange(0, cview.len() as int) =~= cview);
    }
    while i < cands.len()
        invariant
            i <= cands.len(),
            cview == cands.deep_view(),
            cview == spec_candidates(file@, target@, roots.deep_view()),
            cview.len() == cands@.len(),
            spec_first_existing(existing.deep_view(), cview) == spec_first_existing(
                existing.deep_view(),
                cview.subrange(i as int, cview.len() as int),
            ),
        decreases cands.len() - i,
    {
        let ghost tail = cview.subrange(i as int, cview.len() as int);
        proof {
            assert(cands[i as int]@ =~~= cview[i as int]);
            assert(tail[0] == cview[i as int]);
            assert(tail.drop_first() =~= cview.subrange(i + 1, cview.len() as int));
        }
        if contains_path(existing, &cands[i]) {
            let found = copy_path(&cands[i]);
            proof {
                assert(spec_first_existing(existing.deep_view(), tail) == Some(tail[0]));
            }
            return Some(found);
        }
        i = i + 1;
    }
    proof {
        let tail = cview.subrange(cview.len() as int, cview.len() as int);
        assert(tail.len() == 0);
        assert(spec_first_existing(existing.deep_view(), tail) is None);
    }
    None
}

} // verus!
