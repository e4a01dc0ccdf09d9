//! The header dependency graph: one record per readable file, holding the
//! resolved headers that file refers to, in directive order.

use vstd::prelude::*;
use crate::extract::{spec_targets, extract_targets};
use crate::resolve::{
    spec_resolve, spec_candidates, resolve_target, candidates, path_eq, copy_path,
};

verus! {

/// One collected file handed in by the caller: its path and its textual
/// lines. A file that could not be read is simply not handed in, and so
/// never gains a record.
pub struct SourceFile {
    pub path: Vec<char>,
    pub lines: Vec<Vec<char>>,
}

/// One node of the graph: a file and the resolved headers it refers to.
pub struct GraphEntry {
    pub path: Vec<char>,
    pub headers: Vec<Vec<char>>,
}

/// The record a file contributes: each of its header references that
/// resolves, in original directive order; dangling references are dropped.
pub open spec fn spec_resolved(
    file: Seq<char>,
    targets: Seq<Seq<char>>,
    roots: Seq<Seq<char>>,
    existing: Seq<Seq<char>>,
) -> Seq<Seq<char>>
    decreases targets.len(),
{
    if targets.len() == 0 {
        Seq::empty()
    } else {
        let rest = spec_resolved(file, targets.drop_first(), roots, existing);
        match spec_resolve(file, targets[0], roots, existing) {
            Some(p) => seq![p] + rest,
            None => rest,
        }
    }
}

/// Every header a record stores is a path that exists: a dangling
/// reference never enters the graph, so no edge can run through it.
pub proof fn lemma_record_headers_exist(
    file: Seq<char>,
    targets: Seq<Seq<char>>,
    roots: Seq<Seq<char>>,
    existing: Seq<Seq<char>>,
)
    ensures
        forall|i: int|
            0 <= i < spec_resolved(file, targets, roots, existing).len() ==> existing.contains(
                #[trigger] spec_resolved(file, targets, roots, existing)[i],
            ),
    decreases targets.len(),
{
    if targets.len() > 0 {
        lemma_record_headers_exist(file, targets.drop_first(), roots, existing);
        let rest = spec_resolved(file, targets.drop_first(), roots, existing);
        let whole = spec_resolved(file, targets, roots, existing);
        match spec_resolve(file, targets[0], roots, existing) {
            Some(p) => {
                crate::resolve::lemma_resolved_path_exists(
                    existing,
                    spec_candidates(file, targets[0], roots),
                );
                assert forall|i: int| 0 <= i < whole.len() implies existing.contains(
                    #[trigger] whole[i],
                ) by {
                    if i == 0 {
                        assert(whole[0] == p);
                    } else {
                        assert(whole[i] == rest[i - 1]);
                    }
                }
            },
            None => {},
        }
    }
}

/// The record of one file, from its lines.
pub open spec fn spec_record(
    file: Seq<char>,
    lines: Seq<Seq<char>>,
    roots: Seq<Seq<char>>,
    existing: Seq<Seq<char>>,
) -> Seq<Seq<char>> {
    spec_resolved(file, spec_targets(lines), roots, existing)
}

/// The mapping a sequence of entries denotes: later entries win, though the
/// graph is only ever built with distinct paths.
pub open spec fn map_of(entries: Seq<GraphEntry>) -> Map<Seq<char>, Seq<Seq<char>>>
    decreases entries.len(),
{
    if entries.len() == 0 {
        Map::empty()
    } else {
        map_of(entries.drop_last()).insert(
            entries.last().path@,
            entries.last().headers.deep_view(),
        )
    }
}

pub proof fn lemma_map_of_dom(entries: Seq<GraphEntry>)
    ensures
        map_of(entries).dom().finite(),
        forall|k: Seq<char>|
            map_of(entries).dom().contains(k) <==> exists|i: int|
                0 <= i < entries.len() && entries[i].path@ == k,
    decreases entries.len(),
{
    if entries.len() > 0 {
        lemma_map_of_dom(entries.drop_last());
        assert forall|k: Seq<char>| map_of(entries).dom().contains(k) implies exists|i: int|
            0 <= i < entries.len() && entries[i].path@ == k by {
            if k == entries.last().path@ {
                assert(entries[entries.len() - 1].path@ == k);
            } else {
                let i = choose|i: int|
                    0 <= i < entries.drop_last().len() && entries.drop_last()[i].path@ == k;
                assert(entries[i].path@ == k);
            }
        }
        assert forall|k: Seq<char>|
            (exists|i: int| 0 <= i < entries.len() && entries[i].path@ == k) implies map_of(
            entries,
        ).dom().contains(k) by {
            let i = choose|i: int| 0 <= i < entries.len() && entries[i].path@ == k;
            if i < entries.len() - 1 {
                assert(entries.drop_last()[i].path@ == k);
            }
        }
    }
}

/// With distinct paths, the mapping reads back exactly the entry stored for
/// a path.
pub proof fn lemma_map_of_get(entries: Seq<GraphEntry>, i: int)
    requires
        0 <= i < entries.len(),
        forall|a: int, b: int|
            0 <= a < b < entries.len() ==> entries[a].path@ != entries[b].path@,
    ensures
        map_of(entries)[entries[i].path@] == entries[i].headers.deep_view(),
    decreases entries.len(),
{
    if i == entries.len() - 1 {
    } else {
        lemma_map_of_get(entries.drop_last(), i);
        assert(entries.drop_last()[i] == entries[i]);
        assert(entries[i].path@ != entries.last().path@);
    }
}

/// The whole graph a list of files denotes, as a single mapping.
pub open spec fn spec_graph_of(
    files: Seq<SourceFile>,
    roots: Seq<Seq<char>>,
    existing: Seq<Seq<char>>,
) -> Map<Seq<char>, Seq<Seq<char>>>
    decreases files.len(),
{
    if files.len() == 0 {
        Map::empty()
    } else {
        spec_graph_of(files.drop_last(), roots, existing).insert(
            files.last().path@,
            spec_record(files.last().path@, files.last().lines.deep_view(), roots, existing),
        )
    }
}

/// The header dependency graph. Paths are its node identities; each key
/// holds the ordered resolved headers of one collected, readable file.
///
/// Two paths are the same node exactly when they are equal character for
/// character. The graph does not canonicalise: two spellings of the same
/// file (through `..`, case differences, or links) are distinct nodes.
/// That is a deliberate decision; a caller who wants stronger identity
/// normalises paths before handing them in.
pub struct HeaderGraph {
    entries: Vec<GraphEntry>,
}

impl View for HeaderGraph {
    type V = Map<Seq<char>, Seq<Seq<char>>>;

    closed spec fn view(&self) -> Map<Seq<char>, Seq<Seq<char>>> {
        map_of(self.entries@)
    }
}

impl HeaderGraph {
    /// Paths are unique: one record per file.
    pub closed spec fn wf(self) -> bool {
        forall|a: int, b: int|
            0 <= a < b < self.entries@.len() ==> self.entries@[a].path@ != self.entries@[b].path@
    }

    /// A well-formed graph has finitely many nodes.
    pub proof fn lemma_dom_finite(self)
        ensures
            self@.dom().finite(),
    {
        lemma_map_of_dom(self.entries@);
    }

    /// The empty graph.
    pub fn new() -> (g: HeaderGraph)
        ensures
            g.wf(),
            g@ == Map::<Seq<char>, Seq<Seq<char>>>::empty(),
    {
        HeaderGraph { entries: Vec::new() }
    }

    /// The stored record for a path, or `None` for a path with no record: a
    /// file that was never collected or could not be read has no outgoing
    /// edges.
    pub fn get_headers<'a>(&'a self, path: &Vec<char>) -> (r: Option<&'a Vec<Vec<char>>>)
        requires
            self.wf(),
        ensures
            match r {
                Some(h) => self@.dom().contains(path@) && h.deep_view() == self@[path@],
                None => !self@.dom().contains(path@),
            },
    {
        proof {
            lemma_map_of_dom(self.entries@);
        }
        let mut i: usize = 0;
        while i < self.entries.len()
            invariant
                i <= self.entries@.len(),
                self.wf(),
                forall|j: int| 0 <= j < i ==> self.entries@[j].path@ != path@,
            decreases self.entries@.len() - i,
        {
            if path_eq(&self.entries[i].path, path) {
                proof {
                    lemma_map_of_dom(self.entries@);
                    lemma_map_of_get(self.entries@, i as int);
                }
                return Some(&self.entries[i].headers);
            }
            i = i + 1;
        }
        proof {
            lemma_map_of_dom(self.entries@);
        }
        None
    }
}

/// Resolution of every target of one file, in order.
fn resolve_all(
    file: &Vec<char>,
    targets: &Vec<Vec<char>>,
    roots: &Vec<Vec<char>>,
    existing: &Vec<Vec<char>>,
) -> (r: Vec<Vec<char>>)
    ensures
        r.deep_view() == spec_resolved(
            file@,
            targets.deep_view(),
            roots.deep_view(),
            existing.deep_view(),
        ),
{
    let ghost tview = targets.deep_view();
    let mut out: Vec<Vec<char>> = Vec::new();
    let mut i: usize = 0;
    proof {
        assert(tview.subrange(0, tview.len() as int) =~= tview);
    }
    while i < targets.len()
        invariant
            i <= targets.len(),
            tview == targets.deep_view(),
            tview.len() == targets@.len(),
            spec_resolved(file@, tview, roots.deep_view(), existing.deep_view())
                == out.deep_view() + spec_resolved(
                file@,
                tview.subrange(i as int, tview.len() as int),
                roots.deep_view(),
                existing.deep_view(),
            ),
        decreases targets.len() - i,
    {
        let ghost prev = out.deep_view();
        let ghost tail = tview.subrange(i as int, tview.len() as int);
        proof {
            assert(targets[i as int]@ =~~= tview[i as int]);
            assert(tail[0] == tview[i as int]);
            assert(tail.drop_first() =~= tview.subrange(i + 1, tview.len() as int));
        }
        match resolve_target(file, &targets[i], roots, existing) {
            Some(p) => {
                out.push(p);
                proof {
                    assert(out.deep_view() =~~= prev.push(out@.last()@));
                    assert(prev.push(out@.last()@) + spec_resolved(
                        file@,
                        tail.drop_first(),
                        roots.deep_view(),
                        existing.deep_view(),
                    ) =~= prev + spec_resolved(
                        file@,
                        tail,
                        roots.deep_view(),
                        existing.deep_view(),
                    ));
                }
            },
            None => {},
        }
        i = i + 1;
    }
    proof {
        assert(tview.subrange(tview.len() as int, tview.len() as int).len() == 0);
        assert(out.deep_view() + Seq::<Seq<char>>::empty() =~= out.deep_view());
    }
    out
}

/// Builds the graph: one record per handed-in file, holding its resolved
/// header references in directive order. The caller hands in each collected
/// file once.
pub fn build_graph(
    files: &Vec<SourceFile>,
    roots: &Vec<Vec<char>>,
    existing: &Vec<Vec<char>>,
) -> (g: HeaderGraph)
    requires
        forall|a: int, b: int| 0 <= a < b < files@.len() ==> files@[a].path@ != files@[b].path@,
    ensures
        g.wf(),
        g@.dom().finite(),
        g@ == spec_graph_of(files@, roots.deep_view(), existing.deep_view()),
        forall|i: int|
            0 <= i < files@.len() ==> g@.dom().contains(files@[i].path@) && g@[files@[i].path@]
                == spec_record(
                files@[i].path@,
                files@[i].lines.deep_view(),
                roots.deep_view(),
                existing.deep_view(),
            ),
        forall|k: Seq<char>|
            g@.dom().contains(k) ==> exists|i: int|
                0 <= i < files@.len() && files@[i].path@ == k,
{
    let mut entries: Vec<GraphEntry> = Vec::new();
    let mut i: usize = 0;
    while i < files.len()
        invariant
            i <= files@.len(),
            entries@.len() == i,
            forall|a: int, b: int| 0 <= a < b < files@.len() ==> files@[a].path@ != files@[b].path@,
            forall|j: int| 0 <= j < i ==> entries@[j].path@ == files@[j].path@,
            forall|j: int|
                0 <= j < i ==> entries@[j].headers.deep_view() == spec_record(
                    files@[j].path@,
                    files@[j].lines.deep_view(),
                    roots.deep_view(),
                    existing.deep_view(),
                ),
            map_of(entries@) == spec_graph_of(
                files@.subrange(0, i as int),
                roots.deep_view(),
                existing.deep_view(),
            ),
        decreases files@.len() - i,
    {
        let ghost prev_entries = entries@;
        let file = &files[i];
        let targets = extract_targets(&file.lines);
        let headers = resolve_all(&file.path, &targets, roots, existing);
        let path = copy_path(&file.path);
        entries.push(GraphEntry { path, headers });
        proof {
            let pre = files@.subrange(0, i as int);
            let cur = files@.subrange(0, i + 1);
            assert(entries@.drop_last() =~= prev_entries);
            assert(cur.drop_last() =~= pre);
            assert(cur.last() == files@[i as int]);
            assert(targets.deep_view() == spec_targets(files@[i as int].lines.deep_view()));
        }
        i = i + 1;
    }
    proof {
        assert(files@.subrange(0, files@.len() as int) =~= files@);
    }
    let g = HeaderGraph { entries };
    proof {
        assert(g.wf());
        lemma_map_of_dom(g.entries@);
        assert forall|i2: int| 0 <= i2 < files@.len() implies g@.dom().contains(files@[i2].path@)
            && g@[files@[i2].path@] == spec_record(
            files@[i2].path@,
            files@[i2].lines.deep_view(),
            roots.deep_view(),
            existing.deep_view(),
        ) by {
            assert(g.entries@[i2].path@ == files@[i2].path@);
            lemma_map_of_get(g.entries@, i2);
        }
    }
    g
}

/// Every candidate path resolution will ever test for the handed-in files:
/// the caller checks which of these exist on disk and hands the existing
/// ones back when building the graph.
pub open spec fn spec_file_candidates(
    file: Seq<char>,
    targets: Seq<Seq<char>>,
    roots: Seq<Seq<char>>,
) -> Seq<Seq<char>>
    decreases targets.len(),
{
    if targets.len() == 0 {
        Seq::empty()
    } else {
        spec_candidates(file, targets[0], roots) + spec_file_candidates(
            file,
            targets.drop_first(),
            roots,
        )
    }
}

pub open spec fn spec_all_candidates(files: Seq<SourceFile>, roots: Seq<Seq<char>>) -> Seq<
    Seq<char>,
>
    decreases files.len(),
{
    if files.len() == 0 {
        Seq::empty()
    } else {
        spec_file_candidates(
            files[0].path@,
            spec_targets(files[0].lines.deep_view()),
            roots,
        ) + spec_all_candidates(files.drop_first(), roots)
    }
}

/// The candidate paths of one file, in resolution order.
fn file_candidates(file: &Vec<char>, targets: &Vec<Vec<char>>, roots: &Vec<Vec<char>>) -> (r: Vec<
    Vec<char>,
>)
    ensures
        r.deep_view() == spec_file_candidates(file@, targets.deep_view(), roots.deep_view()),
{
    let ghost tview = targets.deep_view();
    let mut out: Vec<Vec<char>> = Vec::new();
    let mut i: usize = 0;
    proof {
        assert(tview.subrange(0, tview.len() as int) =~= tview);
    }
    while i < targets.len()
        invariant
            i <= targets.len(),
            tview == targets.deep_view(),
            tview.len() == targets@.len(),
            spec_file_candidates(file@, tview, roots.deep_view()) == out.deep_view()
                + spec_file_candidates(
                file@,
                tview.subrange(i as int, tview.len() as int),
                roots.deep_view(),
            ),
        decreases targets.len() - i,
    {
        let ghost prev = out.deep_view();
        let ghost tail = tview.subrange(i as int, tview.len() as int);
        proof {
            assert(targets[i as int]@ =~~= tview[i as int]);
            assert(tail[0] == tview[i as int]);
            assert(tail.drop_first() =~= tview.subrange(i + 1, tview.len() as int));
        }
        let mut cs = candidates(file, &targets[i], roots);
        let ghost csview = cs.deep_view();
        out.append(&mut cs);
        proof {
            assert(out.deep_view() =~~= prev + csview);
            assert((prev + csview) + spec_file_candidates(
                file@,
                tail.drop_first(),
                roots.deep_view(),
            ) =~= prev + spec_file_candidates(file@, tail, roots.deep_view()));
        }
        i = i + 1;
    }
    proof {
        assert(tview.subrange(tview.len() as int, tview.len() as int).len() == 0);
        assert(out.deep_view() + Seq::<Seq<char>>::empty() =~= out.deep_view());
    }
    out
}

/// Every candidate path for every handed-in file, in order.
pub fn all_candidates(files: &Vec<SourceFile>, roots: &Vec<Vec<char>>) -> (r: Vec<Vec<char>>)
    ensures
        r.deep_view() == spec_all_candidates(files@, roots.deep_view()),
{
    let mut out: Vec<Vec<char>> = Vec::new();
    let mut i: usize = 0;
    proof {
        assert(files@.subrange(0, files@.len() as int) =~= files@);
    }
    while i < files.len()
        invariant
            i <= files@.len(),
            spec_all_candidates(files@, roots.deep_view()) == out.deep_view()
                + spec_all_candidates(
                files@.subrange(i as int, files@.len() as int),
                roots.deep_view(),
            ),
        decreases files@.len() - i,
    {
        let ghost prev = out.deep_view();
        let ghost tail = files@.subrange(i as int, files@.len() as int);
        proof {
            assert(tail[0] == files@[i as int]);
            assert(tail.drop_first() =~= files@.subrange(i + 1, files@.len() as int));
        }
        let file = &files[i];
        let targets = extract_targets(&file.lines);
        let mut cs = file_candidates(&file.path, &targets, roots);
        let ghost csview = cs.deep_view();
        out.append(&mut cs);
        proof {
            assert(out.deep_view() =~~= prev + csview);
            assert((prev + csview) + spec_all_candidates(tail.drop_first(), roots.deep_view())
                =~= prev + spec_all_candidates(tail, roots.deep_view()));
        }
        i = i + 1;
    }
    proof {
        assert(files@.subrange(files@.len() as int, files@.len() as int).len() == 0);
        assert(out.deep_view() + Seq::<Seq<char>>::empty() =~= out.deep_view());
    }
    out
}

} // verus!
