//! Laws of the detector, stated over the traversal's specification.
//!
//! A chain is a path through the graph along stored header edges; a cycle
//! is a chain of at least two nodes that starts and ends at the same node.
//! The laws here pin down the detector's behaviour on the shapes that
//! matter: a self-referring file, two mutually referring files, and a graph
//! with no cycle at all.

use vstd::prelude::*;
use crate::cycle::{
    trav_step, trav_measure, trav_step_decrease_facts, spec_detect, spec_reports,
};

verus! {

/// Every consecutive pair of `p` is a stored edge of `g`.
pub open spec fn is_chain(g: Map<Seq<char>, Seq<Seq<char>>>, p: Seq<Seq<char>>) -> bool {
    forall|i: int|
        0 <= i < p.len() - 1 ==> g.dom().contains(#[trigger] p[i]) && g[p[i]].contains(p[i + 1])
}

/// Some chain leads from `from` to `to`; a single node is a chain, so every
/// node reaches itself.
pub open spec fn reaches(g: Map<Seq<char>, Seq<Seq<char>>>, from: Seq<char>, to: Seq<char>) -> bool {
    exists|p: Seq<Seq<char>>| p.len() >= 1 && is_chain(g, p) && p[0] == from && p.last() == to
}

/// The graph holds a directed cycle: a chain of at least one edge that
/// returns to its first node.
pub open spec fn has_cycle(g: Map<Seq<char>, Seq<Seq<char>>>) -> bool {
    exists|p: Seq<Seq<char>>| p.len() >= 2 && is_chain(g, p) && p[0] == p.last()
}

/// `x` is a stored successor of some node reached from `root`.
pub open spec fn from_reached(
    g: Map<Seq<char>, Seq<Seq<char>>>,
    root: Seq<char>,
    x: Seq<char>,
) -> bool {
    exists|y: Seq<char>| reaches(g, root, y) && g.dom().contains(y) && g[y].contains(x)
}

proof fn lemma_reaches_self(g: Map<Seq<char>, Seq<Seq<char>>>, x: Seq<char>)
    ensures
        reaches(g, x, x),
{
    let p = seq![x];
    assert(p.len() >= 1 && is_chain(g, p) && p[0] == x && p.last() == x);
}

proof fn lemma_chain_extend(g: Map<Seq<char>, Seq<Seq<char>>>, p: Seq<Seq<char>>, x: Seq<char>)
    requires
        is_chain(g, p),
        p.len() >= 1,
        g.dom().contains(p.last()),
        g[p.last()].contains(x),
    ensures
        is_chain(g, p.push(x)),
{
    let q = p.push(x);
    assert forall|i: int| 0 <= i < q.len() - 1 implies g.dom().contains(#[trigger] q[i])
        && g[q[i]].contains(q[i + 1]) by {
        if i < p.len() - 1 {
            assert(q[i] == p[i]);
            assert(q[i + 1] == p[i + 1]);
        } else {
            assert(q[i] == p.last());
            assert(q[i + 1] == x);
        }
    }
}

proof fn lemma_reaches_step(
    g: Map<Seq<char>, Seq<Seq<char>>>,
    root: Seq<char>,
    y: Seq<char>,
    z: Seq<char>,
)
    requires
        reaches(g, root, y),
        g.dom().contains(y),
        g[y].contains(z),
    ensures
        reaches(g, root, z),
{
    let p = choose|p: Seq<Seq<char>>|
        p.len() >= 1 && is_chain(g, p) && p[0] == root && p.last() == y;
    lemma_chain_extend(g, p, z);
    let q = p.push(z);
    assert(q.len() >= 1 && is_chain(g, q) && q[0] == root && q.last() == z);
}

/// An edge back to `root` from a node reached from `root` closes a cycle.
proof fn lemma_cycle_from_edge(g: Map<Seq<char>, Seq<Seq<char>>>, root: Seq<char>, y: Seq<char>)
    requires
        reaches(g, root, y),
        g.dom().contains(y),
        g[y].contains(root),
    ensures
        has_cycle(g),
{
    let p = choose|p: Seq<Seq<char>>|
        p.len() >= 1 && is_chain(g, p) && p[0] == root && p.last() == y;
    lemma_chain_extend(g, p, root);
    let q = p.push(root);
    assert(q.len() >= 2 && is_chain(g, q) && q[0] == q.last());
}

/// The traversal only ever appends to the visited path.
proof fn lemma_trav_prefix(
    g: Map<Seq<char>, Seq<Seq<char>>>,
    stack: Seq<Seq<char>>,
    visited: Seq<Seq<char>>,
)
    requires
        g.dom().finite(),
    ensures
        trav_step(g, stack, visited).1.len() >= visited.len(),
        forall|i: int|
            0 <= i < visited.len() ==> trav_step(g, stack, visited).1[i] == visited[i],
    decreases trav_measure(g, visited), stack.len(),
{
    if stack.len() == 0 {
    } else {
        let f = stack.last();
        let rest = stack.drop_last();
        if visited.contains(f) {
        } else {
            trav_step_decrease_facts(g, visited, f);
            let v2 = visited.push(f);
            let s2 = if g.dom().contains(f) {
                rest + g[f].reverse()
            } else {
                rest
            };
            lemma_trav_prefix(g, s2, v2);
            assert(trav_step(g, stack, visited) == trav_step(g, s2, v2));
            assert forall|i: int| 0 <= i < visited.len() implies trav_step(
                g,
                stack,
                visited,
            ).1[i] == visited[i] by {
                assert(trav_step(g, s2, v2).1[i] == v2[i]);
                assert(v2[i] == visited[i]);
            }
        }
    }
}

/// If every pending node is a successor of a node reached from `root`, and
/// the traversal confirms a revisit whose repeated node is `root`, the
/// graph really holds a cycle.
proof fn lemma_trav_sound(
    g: Map<Seq<char>, Seq<Seq<char>>>,
    stack: Seq<Seq<char>>,
    visited: Seq<Seq<char>>,
    root: Seq<char>,
)
    requires
        g.dom().finite(),
        forall|k: int| 0 <= k < stack.len() ==> from_reached(g, root, #[trigger] stack[k]),
        trav_step(g, stack, visited).0,
        trav_step(g, stack, visited).1.len() > 0,
        trav_step(g, stack, visited).1.last() == root,
    ensures
        has_cycle(g),
    decreases trav_measure(g, visited), stack.len(),
{
    let f = stack.last();
    let rest = stack.drop_last();
    if visited.contains(f) {
        assert(trav_step(g, stack, visited).1 == visited.push(f));
        assert(f == root);
        let y = choose|y: Seq<char>|
            reaches(g, root, y) && g.dom().contains(y) && g[y].contains(f);
        lemma_cycle_from_edge(g, root, y);
    } else {
        trav_step_decrease_facts(g, visited, f);
        let y0 = choose|y: Seq<char>|
            reaches(g, root, y) && g.dom().contains(y) && g[y].contains(f);
        lemma_reaches_step(g, root, y0, f);
        if g.dom().contains(f) {
            let stack2 = rest + g[f].reverse();
            assert forall|k: int| 0 <= k < stack2.len() implies from_reached(
                g,
                root,
                #[trigger] stack2[k],
            ) by {
                if k < rest.len() {
                    assert(stack2[k] == stack[k]);
                } else {
                    let m = g[f].len() - 1 - (k - rest.len());
                    assert(stack2[k] == g[f].reverse()[k - rest.len()]);
                    assert(g[f].reverse()[k - rest.len()] == g[f][m]);
                    assert(g[f].contains(g[f][m]));
                    assert(reaches(g, root, f) && g.dom().contains(f) && g[f].contains(
                        stack2[k],
                    ));
                }
            }
            lemma_trav_sound(g, stack2, visited.push(f), root);
        } else {
            lemma_trav_sound(g, rest, visited.push(f), root);
        }
    }
}

/// A file whose first stored header is itself is reported as the one-node
/// cycle `[f, f]`.
pub proof fn lemma_self_reference_cycle(g: Map<Seq<char>, Seq<Seq<char>>>, f: Seq<char>)
    requires
        g.dom().finite(),
        g.dom().contains(f),
        g[f].len() > 0,
        g[f][0] == f,
    ensures
        spec_detect(g, f) == Some(seq![f, f]),
{
    let v0 = Seq::<Seq<char>>::empty();
    let s0 = seq![f];
    assert(!v0.contains(f));
    let s1 = s0.drop_last() + g[f].reverse();
    let v1 = v0.push(f);
    assert(trav_step(g, s0, v0) == trav_step(g, s1, v1));
    assert(s1.last() == g[f][0]) by {
        assert(s1 =~= g[f].reverse());
        assert(g[f].reverse().last() == g[f][0]);
    }
    assert(v1.contains(f)) by {
        assert(v1[0] == f);
    }
    assert(trav_step(g, s1, v1) == (true, v1.push(f)));
    assert(v1.push(f) =~= seq![f, f]);
    assert(v1.push(f).last() == v1.push(f)[0]);
}

/// Two files whose records name exactly each other are reported, from root
/// `a`, as the cycle `[a, b, a]`; run with the roles swapped, the same law
/// gives `[b, a, b]`.
pub proof fn lemma_mutual_reference_cycle(
    g: Map<Seq<char>, Seq<Seq<char>>>,
    a: Seq<char>,
    b: Seq<char>,
)
    requires
        g.dom().finite(),
        a != b,
        g.dom().contains(a),
        g[a] == seq![b],
        g.dom().contains(b),
        g[b] == seq![a],
    ensures
        spec_detect(g, a) == Some(seq![a, b, a]),
{
    let v0 = Seq::<Seq<char>>::empty();
    let s0 = seq![a];
    assert(!v0.contains(a));
    let s1 = s0.drop_last() + g[a].reverse();
    let v1 = v0.push(a);
    assert(trav_step(g, s0, v0) == trav_step(g, s1, v1));
    assert(s1.last() == b && s1.drop_last() =~= Seq::<Seq<char>>::empty()) by {
        assert(s1 =~= seq![b]);
    }
    assert(!v1.contains(b)) by {
        assert(forall|i: int| 0 <= i < v1.len() ==> v1[i] == a);
    }
    let s2 = s1.drop_last() + g[b].reverse();
    let v2 = v1.push(b);
    assert(trav_step(g, s1, v1) == trav_step(g, s2, v2));
    assert(s2.last() == a) by {
        assert(s2 =~= seq![a]);
    }
    assert(v2.contains(a)) by {
        assert(v2[0] == a);
    }
    assert(trav_step(g, s2, v2) == (true, v2.push(a)));
    assert(v2.push(a) =~= seq![a, b, a]);
    assert(v2.push(a).last() == v2.push(a)[0]);
}

/// No false positive: over a graph without any directed cycle, detection
/// reports nothing for any root.
pub proof fn lemma_acyclic_no_report(g: Map<Seq<char>, Seq<Seq<char>>>, root: Seq<char>)
    requires
        g.dom().finite(),
        !has_cycle(g),
    ensures
        spec_detect(g, root) == None::<Seq<Seq<char>>>,
{
    let v0 = Seq::<Seq<char>>::empty();
    let s0 = seq![root];
    let r = trav_step(g, s0, v0);
    assert(!v0.contains(root));
    if g.dom().contains(root) {
        let s1 = s0.drop_last() + g[root].reverse();
        let v1 = v0.push(root);
        assert(r == trav_step(g, s1, v1));
        if r.0 && r.1.len() > 0 && r.1.last() == r.1[0] {
            lemma_trav_prefix(g, s1, v1);
            assert(r.1[0] == root);
            lemma_reaches_self(g, root);
            assert forall|k: int| 0 <= k < s1.len() implies from_reached(
                g,
                root,
                #[trigger] s1[k],
            ) by {
                let m = g[root].len() - 1 - k;
                assert(s1 =~= g[root].reverse());
                assert(s1[k] == g[root][m]);
                assert(g[root].contains(g[root][m]));
                assert(reaches(g, root, root) && g.dom().contains(root) && g[root].contains(
                    s1[k],
                ));
            }
            lemma_trav_sound(g, s1, v1, root);
            assert(false);
        }
    } else {
        let v1 = v0.push(root);
        assert(r == trav_step(g, s0.drop_last(), v1));
        assert(trav_step(g, s0.drop_last(), v1) == (false, v1));
    }
}

/// A report is never issued without cause: whenever detection reports
/// something for any root, the graph really holds a directed cycle.
pub proof fn lemma_report_is_sound(g: Map<Seq<char>, Seq<Seq<char>>>, root: Seq<char>)
    requires
        g.dom().finite(),
        spec_detect(g, root) is Some,
    ensures
        has_cycle(g),
{
    if !has_cycle(g) {
        lemma_acyclic_no_report(g, root);
    }
}

/// A confirmed traversal grew the visited path: at least one node was
/// appended beyond what was already there.
proof fn lemma_trav_grows(
    g: Map<Seq<char>, Seq<Seq<char>>>,
    stack: Seq<Seq<char>>,
    visited: Seq<Seq<char>>,
)
    requires
        g.dom().finite(),
        trav_step(g, stack, visited).0,
    ensures
        trav_step(g, stack, visited).1.len() > visited.len(),
    decreases trav_measure(g, visited), stack.len(),
{
    let f = stack.last();
    let rest = stack.drop_last();
    if visited.contains(f) {
    } else {
        trav_step_decrease_facts(g, visited, f);
        let v2 = visited.push(f);
        let s2 = if g.dom().contains(f) {
            rest + g[f].reverse()
        } else {
            rest
        };
        assert(trav_step(g, stack, visited) == trav_step(g, s2, v2));
        lemma_trav_grows(g, s2, v2);
    }
}

/// Starting from a duplicate-free visited path, every node the traversal
/// appends before the closing entry is new, so only the closing entry can
/// repeat an earlier one.
proof fn lemma_trav_no_dup(
    g: Map<Seq<char>, Seq<Seq<char>>>,
    stack: Seq<Seq<char>>,
    visited: Seq<Seq<char>>,
)
    requires
        g.dom().finite(),
        visited.no_duplicates(),
        trav_step(g, stack, visited).0,
    ensures
        trav_step(g, stack, visited).1.drop_last().no_duplicates(),
    decreases trav_measure(g, visited), stack.len(),
{
    let f = stack.last();
    let rest = stack.drop_last();
    if visited.contains(f) {
        assert(trav_step(g, stack, visited).1 == visited.push(f));
        assert(visited.push(f).drop_last() =~= visited);
    } else {
        trav_step_decrease_facts(g, visited, f);
        let v2 = visited.push(f);
        assert(v2.no_duplicates()) by {
            assert(forall|i: int| 0 <= i < visited.len() ==> visited[i] != f);
        }
        let s2 = if g.dom().contains(f) {
            rest + g[f].reverse()
        } else {
            rest
        };
        assert(trav_step(g, stack, visited) == trav_step(g, s2, v2));
        lemma_trav_no_dup(g, s2, v2);
    }
}

/// The shape of every confirmed report: the witness path starts and ends at
/// the root, follows at least one edge, and repeats no node before the
/// closing entry.
pub proof fn lemma_report_shape(g: Map<Seq<char>, Seq<Seq<char>>>, root: Seq<char>)
    requires
        g.dom().finite(),
    ensures
        spec_detect(g, root) matches Some(p) ==> p.len() >= 2 && p[0] == root && p.last() == root
            && p.drop_last().no_duplicates(),
{
    let v0 = Seq::<Seq<char>>::empty();
    let s0 = seq![root];
    let r = trav_step(g, s0, v0);
    assert(!v0.contains(root));
    if g.dom().contains(root) {
        let s1 = s0.drop_last() + g[root].reverse();
        let v1 = v0.push(root);
        assert(r == trav_step(g, s1, v1));
        if r.0 {
            lemma_trav_prefix(g, s1, v1);
            assert(r.1[0] == root);
            lemma_trav_grows(g, s1, v1);
            assert(v1.no_duplicates());
            lemma_trav_no_dup(g, s1, v1);
        }
    } else {
        let v1 = v0.push(root);
        assert(r == trav_step(g, s0.drop_last(), v1));
        assert(trav_step(g, s0.drop_last(), v1) == (false, v1));
    }
}

/// Detection is deterministic: the reports are a function of the graph and
/// the list of roots alone, so running the detector twice over an unchanged
/// graph yields identical reports.
pub proof fn lemma_reports_deterministic(
    g1: Map<Seq<char>, Seq<Seq<char>>>,
    roots1: Seq<Seq<char>>,
    g2: Map<Seq<char>, Seq<Seq<char>>>,
    roots2: Seq<Seq<char>>,
)
    requires
        g1 == g2,
        roots1 == roots2,
    ensures
        spec_reports(g1, roots1) == spec_reports(g2, roots2),
{
}

} // verus!
