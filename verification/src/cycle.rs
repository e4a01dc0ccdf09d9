//! Depth-first cycle detection over the header graph.
//!
//! The traversal keeps an explicit work stack rather than recursing, so its
//! depth on pathological inputs is bounded by memory, not by the call
//! stack. From a root it visits nodes depth first, in stored header order;
//! the first time it meets a node already on the visited path it stops and
//! reports. A candidate is confirmed as a cycle only when the repeated node
//! is the root itself and at least one edge was actually followed, so an
//! isolated file is never misreported. Once one cycle is found for a root,
//! sibling branches are deliberately not explored: the detector reports the
//! first cycle per root, not all of them.

use vstd::prelude::*;
use vstd::set_lib::lemma_len_subset;
use vstd::seq_lib::seq_to_set_is_finite;
use crate::graph::{HeaderGraph, SourceFile, spec_graph_of, build_graph};
use crate::resolve::{path_eq, copy_path, contains_path};

verus! {

/// Nodes of the graph not yet on the visited path: the traversal's primary
/// termination measure.
pub open spec fn trav_measure(g: Map<Seq<char>, Seq<Seq<char>>>, visited: Seq<Seq<char>>) -> nat {
    g.dom().difference(visited.to_set()).len()
}

/// One run of the traversal, as a function of the graph, the pending work
/// stack (top at the end) and the visited path so far. Yields whether a
/// revisit was met, and the final visited path.
pub open spec fn trav_step(
    g: Map<Seq<char>, Seq<Seq<char>>>,
    stack: Seq<Seq<char>>,
    visited: Seq<Seq<char>>,
) -> (bool, Seq<Seq<char>>)
    decreases trav_measure(g, visited), stack.len(),
    when g.dom().finite()
    via trav_step_decreases
{
    if stack.len() == 0 {
        (false, visited)
    } else {
        let f = stack.last();
        let rest = stack.drop_last();
        if visited.contains(f) {
            (true, visited.push(f))
        } else if g.dom().contains(f) {
            trav_step(g, rest + g[f].reverse(), visited.push(f))
        } else {
            trav_step(g, rest, visited.push(f))
        }
    }
}

/// Visiting an unvisited graph node strictly shrinks the set of unvisited
/// graph nodes; visiting a node outside the graph leaves it unchanged while
/// the stack shrinks.
pub(crate) proof fn trav_step_decrease_facts(
    g: Map<Seq<char>, Seq<Seq<char>>>,
    visited: Seq<Seq<char>>,
    f: Seq<char>,
)
    requires
        g.dom().finite(),
        !visited.contains(f),
    ensures
        g.dom().contains(f) ==> trav_measure(g, visited.push(f)) < trav_measure(g, visited),
        !g.dom().contains(f) ==> trav_measure(g, visited.push(f)) == trav_measure(g, visited),
{
    broadcast use vstd::set::group_set_axioms;

    visited.lemma_push_to_set_commute(f);
    seq_to_set_is_finite(visited);
    let b = g.dom().difference(visited.to_set());
    let a = g.dom().difference(visited.push(f).to_set());
    lemma_len_subset(b, g.dom());
    if g.dom().contains(f) {
        assert(a =~= b.remove(f));
        assert(b.contains(f));
    } else {
        assert(a =~= b);
    }
}

#[via_fn]
proof fn trav_step_decreases(
    g: Map<Seq<char>, Seq<Seq<char>>>,
    stack: Seq<Seq<char>>,
    visited: Seq<Seq<char>>,
) {
    if g.dom().finite() && stack.len() > 0 {
        let f = stack.last();
        if !visited.contains(f) {
            trav_step_decrease_facts(g, visited, f);
        }
    }
}

/// The traversal from `file`, walking `visited` exactly as the
/// specification function does: `visited` gains the nodes met, in order,
/// and the result says whether a node was revisited.
pub fn traverse_graph(graph: &HeaderGraph, file: &Vec<char>, visited: &mut Vec<Vec<char>>) -> (
    found: bool)
    requires
        graph.wf(),
    ensures
        found == trav_step(graph@, seq![file@], old(visited).deep_view()).0,
        final(visited).deep_view() == trav_step(graph@, seq![file@], old(visited).deep_view()).1,
{
    proof {
        graph.lemma_dom_finite();
    }
    let ghost g = graph@;
    let ghost s0: Seq<Seq<char>> = seq![file@];
    let ghost v0 = old(visited).deep_view();
    let mut stack: Vec<Vec<char>> = Vec::new();
    stack.push(copy_path(file));
    proof {
        assert(stack.deep_view() =~~= s0);
    }
    loop
        invariant
            graph.wf(),
            g == graph@,
            g.dom().finite(),
            s0 == seq![file@],
            v0 == old(visited).deep_view(),
            trav_step(g, stack.deep_view(), visited.deep_view()) == trav_step(g, s0, v0),
        decreases trav_measure(g, visited.deep_view()), stack@.len(),
    {
        let ghost s_pre = stack.deep_view();
        let ghost v_pre = visited.deep_view();
        if stack.len() == 0 {
            proof {
                assert(trav_step(g, s_pre, v_pre) == (false, v_pre));
            }
            return false;
        }
        let f = match stack.pop() {
            Some(f) => f,
            None => {
                proof {
                    assert(false);
                }
                return false;
            },
        };
        proof {
            assert(f@ =~~= s_pre.last());
            assert(stack.deep_view() =~~= s_pre.drop_last());
        }
        if contains_path(visited, &f) {
            visited.push(f);
            proof {
                assert(visited.deep_view() =~~= v_pre.push(s_pre.last()));
                assert(trav_step(g, s_pre, v_pre) == (true, v_pre.push(s_pre.last())));
            }
            return true;
        }
        proof {
            trav_step_decrease_facts(g, v_pre, s_pre.last());
        }
        match graph.get_headers(&f) {
            Some(headers) => {
                let ghost hview = g[s_pre.last()];
                proof {
                    assert(headers.deep_view() == hview);
                }
                visited.push(f);
                let mut j: usize = headers.len();
                proof {
                    assert(hview.subrange(j as int, hview.len() as int).reverse() =~=
                        Seq::<Seq<char>>::empty());
                    assert(stack.deep_view() + Seq::<Seq<char>>::empty() =~= stack.deep_view());
                }
                while j > 0
                    invariant
                        j <= headers@.len(),
                        hview == headers.deep_view(),
                        hview.len() == headers@.len(),
                        stack.deep_view() =~= s_pre.drop_last() + hview.subrange(
                            j as int,
                            hview.len() as int,
                        ).reverse(),
                    decreases j,
                {
                    let ghost prev_stack = stack.deep_view();
                    j = j - 1;
                    stack.push(copy_path(&headers[j]));
                    proof {
                        assert(headers[j as int]@ =~~= hview[j as int]);
                        assert(stack.deep_view() =~~= prev_stack.push(hview[j as int]));
                        assert(hview.subrange(j as int, hview.len() as int).reverse() =~=
                            hview.subrange(j + 1, hview.len() as int).reverse().push(
                            hview[j as int],
                        ));
                        assert(prev_stack.push(hview[j as int]) =~= s_pre.drop_last()
                            + hview.subrange(j as int, hview.len() as int).reverse());
                    }
                }
                proof {
                    assert(hview.subrange(0, hview.len() as int) =~= hview);
                    assert(stack.deep_view() =~= s_pre.drop_last() + hview.reverse());
                    assert(visited.deep_view() =~~= v_pre.push(s_pre.last()));
                    assert(trav_step(g, s_pre, v_pre) == trav_step(
                        g,
                        stack.deep_view(),
                        visited.deep_view(),
                    ));
                }
            },
            None => {
                visited.push(f);
                proof {
                    assert(visited.deep_view() =~~= v_pre.push(s_pre.last()));
                    assert(trav_step(g, s_pre, v_pre) == trav_step(
                        g,
                        stack.deep_view(),
                        visited.deep_view(),
                    ));
                }
            },
        }
    }
}

/// The confirmed outcome of one detection run rooted at `root`: the full
/// visited path when the traversal revisited a node and the repeated node
/// is the root itself, and `None` otherwise. The confirmation rules out the
/// trivial "path of one node with no edges followed" case.
pub open spec fn spec_detect(g: Map<Seq<char>, Seq<Seq<char>>>, root: Seq<char>) -> Option<
    Seq<Seq<char>>,
> {
    let r = trav_step(g, seq![root], Seq::empty());
    if r.0 && r.1.len() > 0 && r.1.last() == r.1[0] {
        Some(r.1)
    } else {
        None
    }
}

/// One detection run: the visited path, root first and repeated node last,
/// when a cycle through `root` was confirmed.
pub fn detect_cycle(graph: &HeaderGraph, root: &Vec<char>) -> (r: Option<Vec<Vec<char>>>)
    requires
        graph.wf(),
    ensures
        r.deep_view() == spec_detect(graph@, root@),
{
    let mut visited: Vec<Vec<char>> = Vec::new();
    proof {
        assert(visited.deep_view() =~~= Seq::<Seq<char>>::empty());
    }
    let found = traverse_graph(graph, root, &mut visited);
    let ghost tr = trav_step(graph@, seq![root@], Seq::<Seq<char>>::empty());
    if found && visited.len() > 0 {
        let n = visited.len();
        proof {
            assert(visited[n - 1]@ =~~= visited.deep_view().last());
            assert(visited[0]@ =~~= visited.deep_view()[0]);
        }
        if path_eq(&visited[n - 1], &visited[0]) {
            proof {
                assert(spec_detect(graph@, root@) == Some(tr.1));
            }
            return Some(visited);
        }
    }
    None
}

/// One confirmed cycle: the root it was found from, and the visited path
/// witnessing it, root first and repeated node last.
pub struct CycleReport {
    pub root: Vec<char>,
    pub path: Vec<Vec<char>>,
}

/// The reports for a list of roots, in root order: one entry per root whose
/// detection run confirmed a cycle.
pub open spec fn spec_reports(g: Map<Seq<char>, Seq<Seq<char>>>, roots: Seq<Seq<char>>) -> Seq<
    (Seq<char>, Seq<Seq<char>>),
>
    decreases roots.len(),
{
    if roots.len() == 0 {
        Seq::empty()
    } else {
        let rest = spec_reports(g, roots.drop_first());
        match spec_detect(g, roots[0]) {
            Some(p) => seq![(roots[0], p)] + rest,
            None => rest,
        }
    }
}

/// The value a vector of reports denotes: root and path of each, in order.
pub open spec fn spec_report_views(rs: Seq<CycleReport>) -> Seq<(Seq<char>, Seq<Seq<char>>)>
    decreases rs.len(),
{
    if rs.len() == 0 {
        Seq::empty()
    } else {
        seq![(rs[0].root@, rs[0].path.deep_view())] + spec_report_views(rs.drop_first())
    }
}

proof fn lemma_report_views_push(rs: Seq<CycleReport>, rep: CycleReport)
    ensures
        spec_report_views(rs.push(rep)) == spec_report_views(rs) + seq![
            (rep.root@, rep.path.deep_view()),
        ],
    decreases rs.len(),
{
    reveal_with_fuel(spec_report_views, 2);
    if rs.len() == 0 {
        assert(rs.push(rep)[0] == rep);
        assert(rs.push(rep).drop_first() =~= Seq::<CycleReport>::empty());
        assert(spec_report_views(rs.push(rep)) =~= seq![(rep.root@, rep.path.deep_view())]);
        assert(spec_report_views(rs) + seq![(rep.root@, rep.path.deep_view())] =~= seq![
            (rep.root@, rep.path.deep_view()),
        ]);
    } else {
        assert(rs.push(rep).drop_first() =~= rs.drop_first().push(rep));
        lemma_report_views_push(rs.drop_first(), rep);
        assert(rs.push(rep)[0] == rs[0]);
        assert(seq![(rs[0].root@, rs[0].path.deep_view())] + (spec_report_views(rs.drop_first())
            + seq![(rep.root@, rep.path.deep_view())]) =~= (seq![
            (rs[0].root@, rs[0].path.deep_view()),
        ] + spec_report_views(rs.drop_first())) + seq![(rep.root@, rep.path.deep_view())]);
    }
}

/// One detection run per root, in the order the roots are given; the
/// reports of the runs that confirmed a cycle, in that same order.
pub fn cycle_reports(graph: &HeaderGraph, roots: &Vec<Vec<char>>) -> (r: Vec<CycleReport>)
    requires
        graph.wf(),
    ensures
        spec_report_views(r@) == spec_reports(graph@, roots.deep_view()),
{
    let ghost g = graph@;
    let ghost pview = roots.deep_view();
    let mut out: Vec<CycleReport> = Vec::new();
    let mut i: usize = 0;
    proof {
        assert(pview.subrange(0, pview.len() as int) =~= pview);
        assert(spec_report_views(out@) =~= Seq::<(Seq<char>, Seq<Seq<char>>)>::empty());
        assert(Seq::<(Seq<char>, Seq<Seq<char>>)>::empty() + spec_reports(g, pview)
            =~= spec_reports(g, pview));
    }
    while i < roots.len()
        invariant
            i <= roots.len(),
            graph.wf(),
            g == graph@,
            pview == roots.deep_view(),
            pview.len() == roots@.len(),
            spec_reports(g, pview) == spec_report_views(out@) + spec_reports(
                g,
                pview.subrange(i as int, pview.len() as int),
            ),
        decreases roots.len() - i,
    {
        let ghost prev_vec = out@;
        let ghost prev = spec_report_views(out@);
        let ghost tail = pview.subrange(i as int, pview.len() as int);
        proof {
            assert(roots[i as int]@ =~~= pview[i as int]);
            assert(tail[0] == pview[i as int]);
            assert(tail.drop_first() =~= pview.subrange(i + 1, pview.len() as int));
        }
        match detect_cycle(graph, &roots[i]) {
            Some(p) => {
                let ghost pdeep = p.deep_view();
                let root = copy_path(&roots[i]);
                out.push(CycleReport { root, path: p });
                proof {
                    let rep = out@.last();
                    assert(out@ =~= prev_vec.push(rep));
                    lemma_report_views_push(prev_vec, rep);
                    assert(rep.root@ == tail[0]);
                    assert(rep.path.deep_view() == pdeep);
                    assert(spec_reports(g, tail) == seq![(tail[0], pdeep)] + spec_reports(
                        g,
                        tail.drop_first(),
                    ));
                    assert(prev + (seq![(tail[0], pdeep)] + spec_reports(g, tail.drop_first()))
                        =~= (prev + seq![(tail[0], pdeep)]) + spec_reports(
                        g,
                        tail.drop_first(),
                    ));
                }
            },
            None => {
                proof {
                    assert(spec_reports(g, tail) == spec_reports(g, tail.drop_first()));
                }
            },
        }
        i = i + 1;
    }
    proof {
        assert(pview.subrange(pview.len() as int, pview.len() as int).len() == 0);
        assert(spec_report_views(out@) + Seq::<(Seq<char>, Seq<Seq<char>>)>::empty()
            =~= spec_report_views(out@));
    }
    out
}

/// The paths of a list of files, in order.
pub open spec fn spec_paths_of(files: Seq<SourceFile>) -> Seq<Seq<char>>
    decreases files.len(),
{
    if files.len() == 0 {
        Seq::empty()
    } else {
        seq![files[0].path@] + spec_paths_of(files.drop_first())
    }
}

pub proof fn lemma_paths_of_index(files: Seq<SourceFile>)
    ensures
        spec_paths_of(files).len() == files.len(),
        forall|j: int| 0 <= j < files.len() ==> spec_paths_of(files)[j] == files[j].path@,
    decreases files.len(),
{
    if files.len() > 0 {
        lemma_paths_of_index(files.drop_first());
        assert(forall|j: int|
            1 <= j < files.len() ==> spec_paths_of(files)[j] == spec_paths_of(
                files.drop_first(),
            )[j - 1] && files.drop_first()[j - 1] == files[j]);
    }
}

/// The whole run over one scanned tree: build the graph from the handed-in
/// files, then run one detection per collected file, in collection order.
/// The outcome is a function of the handed-in values alone, so an unchanged
/// tree always yields the same reports.
pub fn find_cycles(
    files: &Vec<SourceFile>,
    roots: &Vec<Vec<char>>,
    existing: &Vec<Vec<char>>,
) -> (r: Vec<CycleReport>)
    requires
        forall|a: int, b: int| 0 <= a < b < files@.len() ==> files@[a].path@ != files@[b].path@,
    ensures
        spec_report_views(r@) == spec_reports(
            spec_graph_of(files@, roots.deep_view(), existing.deep_view()),
            spec_paths_of(files@),
        ),
{
    let graph = build_graph(files, roots, existing);
    let mut paths: Vec<Vec<char>> = Vec::new();
    let mut i: usize = 0;
    while i < files.len()
        invariant
            i <= files@.len(),
            paths@.len() == i,
            forall|j: int| 0 <= j < i ==> paths@[j]@ == files@[j].path@,
        decreases files@.len() - i,
    {
        paths.push(copy_path(&files[i].path));
        i = i + 1;
    }
    proof {
        lemma_paths_of_index(files@);
        assert(paths.deep_view() =~~= spec_paths_of(files@));
    }
    cycle_reports(&graph, &paths)
}

} // verus!
