//! Properties of normalization and of path concatenation.
use vstd::prelude::*;
use crate::arch::{ArcH, Fish, FoldState, PathModel, Tree, Vertex, combine, fold_children,
    is_sentinel, normalize, opaque_path, single_child, step, step_upto, tree_of};
use crate::parser::{indent_of, is_eval_line, parse_spec};
use crate::text::{fish_spec, split_spec, trim_start_spec, vertex_spec};

verus! {

/// One child that normalizes to a single record advances the walk by one step.
proof fn lemma_fold_one(st: FoldState, cs: Seq<ArcH>, i: int)
    requires
        1 <= i <= cs.len(),
        normalize(None, cs[i - 1]).len() == 1,
    ensures
        fold_children(st, cs, i) == step(
            fold_children(st, cs, i - 1),
            single_child(cs[i - 1]),
            normalize(None, cs[i - 1])[0],
        ),
{
    let gs = normalize(None, cs[i - 1]);
    let prev = fold_children(st, cs, i - 1);
    assert(step_upto(prev, single_child(cs[i - 1]), gs, 0) == prev);
}

proof fn lemma_branches(acc: PathModel, cs: Seq<ArcH>, i: int)
    requires
        0 <= i <= cs.len(),
        forall|k: int|
            0 <= k < cs.len() ==> !single_child(#[trigger] cs[k]) && normalize(None, cs[k]).len()
                == 1,
    ensures
        fold_children(FoldState { acc, results: seq![] }, cs, i) == (FoldState {
            acc,
            results: Seq::new(i as nat, |k: int| combine(Some(acc), normalize(None, cs[k])[0])),
        }),
    decreases i,
{
    let st = FoldState { acc, results: seq![] };
    if i > 0 {
        lemma_branches(acc, cs, i - 1);
        lemma_fold_one(st, cs, i);
        assert(fold_children(st, cs, i).results =~= Seq::new(
            i as nat,
            |k: int| combine(Some(acc), normalize(None, cs[k])[0]),
        ));
    } else {
        assert(st.results =~= Seq::new(0, |k: int| combine(Some(acc), normalize(None, cs[k])[0])));
    }
}

/// Whether a tree is a linear chain of edges that ends in a vertex.
pub open spec fn is_linear_chain(a: ArcH) -> bool
    decreases a,
{
    match a {
        ArcH::ArcH { next, .. } => is_linear_chain(*next),
        ArcH::Single { .. } => true,
        _ => false,
    }
}

/// The edges of a linear chain, in order.
pub open spec fn chain_edges(a: ArcH) -> Seq<(Seq<Seq<char>>, Seq<char>)>
    decreases a,
{
    match a {
        ArcH::ArcH { vertex, fish, next, .. } => seq![(vertex@, fish@)] + chain_edges(*next),
        _ => seq![],
    }
}

/// The vertex a linear chain ends in.
pub open spec fn chain_last(a: ArcH) -> Seq<Seq<char>>
    decreases a,
{
    match a {
        ArcH::ArcH { next, .. } => chain_last(*next),
        ArcH::Single { vertex, .. } => vertex@,
        _ => seq![],
    }
}

/// A linear chain of any length normalizes, with no outer prefix, to one
/// record holding its edges in order and its final vertex.
pub proof fn law_linear_chain(a: ArcH)
    requires
        is_linear_chain(a),
    ensures
        normalize(None, a) == seq![PathModel { edges: chain_edges(a), last: chain_last(a), expr: seq![] }],
    decreases a,
{
    match a {
        ArcH::ArcH { vertex, fish, next, .. } => {
            law_linear_chain(*next);
            assert(normalize(None, a) =~= seq![
                PathModel { edges: chain_edges(a), last: chain_last(a), expr: seq![] },
            ]);
        },
        _ => {
            assert(normalize(None, a) =~= seq![
                PathModel { edges: chain_edges(a), last: chain_last(a), expr: seq![] },
            ]);
        },
    }
}

/// The pieces of a line `A ><f> B ><g> C`: three labels and two tags.
pub open spec fn two_edge_chain(line: Seq<char>) -> Option<(Seq<char>, Seq<char>, Seq<char>, Seq<char>, Seq<char>)> {
    let (a, r1) = split_spec(trim_start_spec(line));
    match fish_spec(r1) {
        Some((f, r2)) => {
            let (b, r3) = split_spec(trim_start_spec(r2));
            match fish_spec(r3) {
                Some((g, r4)) => {
                    let (c, r5) = split_spec(trim_start_spec(r4));
                    if r1.len() > 0 && r3.len() > 0 && r5.len() == 0 && c != "```"@ && !is_eval_line(line)
                        && !is_eval_line(r2) && !is_eval_line(r4) && indent_of(line) == 0 && indent_of(r2)
                        == 0 && indent_of(r4) == 0 {
                        Some((a, f, b, g, c))
                    } else {
                        None
                    }
                },
                None => None,
            }
        },
        None => None,
    }
}

/// A line `A ><f> B ><g> C` on its own parses to a chain of two edges ending
/// in a leaf, and any tree of that shape normalizes, with no outer prefix, to
/// one record with edges `(A, f), (B, g)` and terminal `C`.
pub proof fn law_chain_line(line: Seq<char>, node: ArcH)
    requires
        two_edge_chain(line) is Some,
    ensures
        ({
            let (a, f, b, g, c) = two_edge_chain(line)->0;
            let t = Tree::Chain {
                single: false,
                vertex: vertex_spec(a),
                fish: f,
                next: Box::new(
                    Tree::Chain {
                        single: false,
                        vertex: vertex_spec(b),
                        fish: g,
                        next: Box::new(Tree::Leaf { single: false, vertex: vertex_spec(c) }),
                    },
                ),
            };
            &&& parse_spec(seq![line], 0, 0) == Ok::<(Tree, int), crate::parser::Fault>((t, 1))
            &&& tree_of(node) == t ==> normalize(None, node) == seq![
                PathModel {
                    edges: seq![(vertex_spec(a), f), (vertex_spec(b), g)],
                    last: vertex_spec(c),
                    expr: seq![],
                },
            ]
        }),
{
    let (a, r1) = split_spec(trim_start_spec(line));
    let (f, r2) = fish_spec(r1)->0;
    let (b, r3) = split_spec(trim_start_spec(r2));
    let (g, r4) = fish_spec(r3)->0;
    let (c, r5) = split_spec(trim_start_spec(r4));
    let l1 = seq![line];
    let l2 = seq![r2] + l1.subrange(1, 1);
    let l3 = seq![r4] + l2.subrange(1, 1);
    assert(l2 =~= seq![r2]);
    assert(l3 =~= seq![r4]);
    let leaf = Tree::Leaf { single: false, vertex: vertex_spec(c) };
    assert(l3[0] == r4);
    assert(crate::parser::children_spec(l3, 1, seq![]) == Ok::<(Seq<Tree>, int), crate::parser::Fault>((seq![], 1)));
    assert(crate::parser::with_children(l3, 0, leaf, 1) == Ok::<(Tree, int), crate::parser::Fault>((leaf, 1)));
    assert(parse_spec(l3, 0, 0) == Ok::<(Tree, int), crate::parser::Fault>(
        (Tree::Leaf { single: false, vertex: vertex_spec(c) }, 1),
    ));
    let chain2 = Tree::Chain {
        single: false,
        vertex: vertex_spec(b),
        fish: g,
        next: Box::new(leaf),
    };
    assert(l2[0] == r2);
    assert(crate::parser::children_spec(l2, 1, seq![]) == Ok::<(Seq<Tree>, int), crate::parser::Fault>((seq![], 1)));
    assert(crate::parser::with_children(l2, 0, chain2, 1) == Ok::<(Tree, int), crate::parser::Fault>((chain2, 1)));
    assert(parse_spec(l2, 0, 0) == Ok::<(Tree, int), crate::parser::Fault>(
        (
            Tree::Chain {
                single: false,
                vertex: vertex_spec(b),
                fish: g,
                next: Box::new(Tree::Leaf { single: false, vertex: vertex_spec(c) }),
            },
            1,
        ),
    ));
    let chain1 = Tree::Chain {
        single: false,
        vertex: vertex_spec(a),
        fish: f,
        next: Box::new(chain2),
    };
    assert(crate::parser::children_spec(l1, 1, seq![]) == Ok::<(Seq<Tree>, int), crate::parser::Fault>((seq![], 1)));
    assert(crate::parser::with_children(l1, 0, chain1, 1) == Ok::<(Tree, int), crate::parser::Fault>((chain1, 1)));
    assert(parse_spec(l1, 0, 0) == Ok::<(Tree, int), crate::parser::Fault>((chain1, 1)));
    if tree_of(node) == (Tree::Chain {
        single: false,
        vertex: vertex_spec(a),
        fish: f,
        next: Box::new(
            Tree::Chain {
                single: false,
                vertex: vertex_spec(b),
                fish: g,
                next: Box::new(Tree::Leaf { single: false, vertex: vertex_spec(c) }),
            },
        ),
    }) {
        reveal_with_fuel(normalize, 3);
        reveal_with_fuel(tree_of, 3);
        let n1 = match node {
            ArcH::ArcH { next, .. } => *next,
            _ => node,
        };
        let n2 = match n1 {
            ArcH::ArcH { next, .. } => *next,
            _ => n1,
        };
        assert(node is ArcH);
        assert(n1 is ArcH);
        assert(n2 is Single);
        let r = normalize(None, node);
        assert(r[0].edges =~= seq![(vertex_spec(a), f), (vertex_spec(b), g)]);
        assert(r =~= seq![
            PathModel {
                edges: seq![(vertex_spec(a), f), (vertex_spec(b), g)],
                last: vertex_spec(c),
                expr: seq![],
            },
        ]);
    }
}

/// A lone label line, with nothing after it, parses to a leaf, and a leaf of
/// that label normalizes, with no outer prefix, to one record with no edges
/// whose terminal is the label.
pub proof fn law_leaf_line(line: Seq<char>, node: ArcH)
    requires
        split_spec(trim_start_spec(line)).1.len() == 0,
        split_spec(trim_start_spec(line)).0 != "```"@,
        !is_eval_line(line),
        indent_of(line) == 0,
    ensures
        ({
            let v = vertex_spec(split_spec(trim_start_spec(line)).0);
            &&& parse_spec(seq![line], 0, 0) == Ok::<(Tree, int), crate::parser::Fault>(
                (Tree::Leaf { single: false, vertex: v }, 1),
            )
            &&& tree_of(node) == (Tree::Leaf { single: false, vertex: v }) ==> normalize(None, node)
                == seq![PathModel { edges: seq![], last: v, expr: seq![] }]
        }),
{
    let l1 = seq![line];
    let v = vertex_spec(split_spec(trim_start_spec(line)).0);
    let leaf = Tree::Leaf { single: false, vertex: v };
    assert(crate::parser::children_spec(l1, 1, seq![]) == Ok::<(Seq<Tree>, int), crate::parser::Fault>((seq![], 1)));
    assert(crate::parser::with_children(l1, 0, leaf, 1) == Ok::<(Tree, int), crate::parser::Fault>((leaf, 1)));
}

/// A lone vertex normalizes, with no outer prefix, to one record with no
/// edges whose terminal is that vertex.
pub proof fn law_leaf_identity(v: Vertex, s: bool)
    ensures
        normalize(None, ArcH::Single { is_single_child: s, vertex: v }) == seq![
            PathModel { edges: seq![], last: v@, expr: seq![] },
        ],
{
}

/// A scope whose children are all branches, each normalizing to a single
/// record, gives one record per branch: the scope's prefix joined with it.
pub proof fn law_branch_count(outer: Option<PathModel>, p: ArcH, cs: Vec<ArcH>, s: bool)
    requires
        cs@.len() >= 1,
        forall|k: int|
            0 <= k < cs@.len() ==> !single_child(#[trigger] cs@[k]) && normalize(None, cs@[k]).len()
                == 1,
    ensures
        ({
            let r = normalize(
                outer,
                ArcH::ArcHWithNewLines { is_single_child: s, prefix: Box::new(p), children: cs },
            );
            let acc = normalize(outer, p)[0];
            &&& r.len() == cs@.len()
            &&& forall|k: int|
                0 <= k < cs@.len() ==> r[k] == combine(Some(acc), normalize(None, cs@[k])[0])
        }),
{
    let acc = normalize(outer, p)[0];
    lemma_branches(acc, cs@, cs@.len() as int);
}

/// A scope with a merge and then a branch, each normalizing to a single
/// record, gives one record: the prefix joined with the merge, then with the
/// branch.
pub proof fn law_merge_before_branch(outer: Option<PathModel>, p: ArcH, cs: Vec<ArcH>, s: bool)
    requires
        cs@.len() == 2,
        single_child(cs@[0]),
        !single_child(cs@[1]),
        normalize(None, cs@[0]).len() == 1,
        normalize(None, cs@[1]).len() == 1,
    ensures
        normalize(
            outer,
            ArcH::ArcHWithNewLines { is_single_child: s, prefix: Box::new(p), children: cs },
        ) == seq![
            combine(
                Some(combine(Some(normalize(outer, p)[0]), normalize(None, cs@[0])[0])),
                normalize(None, cs@[1])[0],
            ),
        ],
{
    let acc = normalize(outer, p)[0];
    let st = FoldState { acc, results: seq![] };
    lemma_fold_one(st, cs@, 1);
    lemma_fold_one(st, cs@, 2);
    let r = normalize(
        outer,
        ArcH::ArcHWithNewLines { is_single_child: s, prefix: Box::new(p), children: cs },
    );
    assert(r =~= seq![
        combine(
            Some(combine(Some(acc), normalize(None, cs@[0])[0])),
            normalize(None, cs@[1])[0],
        ),
    ]);
}

/// A scope with two branches and then a merge, each normalizing to a single
/// record, gives two records: each branch joined onto the prefix, then the
/// same merge joined onto each.
pub proof fn law_merge_after_branches(outer: Option<PathModel>, p: ArcH, cs: Vec<ArcH>, s: bool)
    requires
        cs@.len() == 3,
        !single_child(cs@[0]),
        !single_child(cs@[1]),
        single_child(cs@[2]),
        normalize(None, cs@[0]).len() == 1,
        normalize(None, cs@[1]).len() == 1,
        normalize(None, cs@[2]).len() == 1,
    ensures
        ({
            let acc = normalize(outer, p)[0];
            let m = normalize(None, cs@[2])[0];
            normalize(
                outer,
                ArcH::ArcHWithNewLines { is_single_child: s, prefix: Box::new(p), children: cs },
            ) == seq![
                combine(Some(combine(Some(acc), normalize(None, cs@[0])[0])), m),
                combine(Some(combine(Some(acc), normalize(None, cs@[1])[0])), m),
            ]
        }),
{
    let acc = normalize(outer, p)[0];
    let st = FoldState { acc, results: seq![] };
    lemma_fold_one(st, cs@, 1);
    lemma_fold_one(st, cs@, 2);
    lemma_fold_one(st, cs@, 3);
    let m = normalize(None, cs@[2])[0];
    let r = normalize(
        outer,
        ArcH::ArcHWithNewLines { is_single_child: s, prefix: Box::new(p), children: cs },
    );
    assert(r =~= seq![
        combine(Some(combine(Some(acc), normalize(None, cs@[0])[0])), m),
        combine(Some(combine(Some(acc), normalize(None, cs@[1])[0])), m),
    ]);
}

/// Joining onto a record whose terminal is the sentinel concatenates the two
/// edge lists and keeps the right terminal.
pub proof fn law_sentinel_concatenation(x: PathModel, y: PathModel)
    requires
        is_sentinel(x.last),
    ensures
        combine(Some(x), y) == (PathModel { edges: x.edges + y.edges, last: y.last, expr: seq![] }),
{
}

/// Where neither sentinel rule applies, joining inserts exactly one edge from
/// the left terminal with an empty tag.
pub proof fn law_default_bridging(x: PathModel, y: PathModel)
    requires
        !is_sentinel(x.last),
        !(y.edges.len() > 0 && is_sentinel(y.edges[0].0)),
    ensures
        combine(Some(x), y).edges == x.edges + seq![(x.last, Seq::<char>::empty())] + y.edges,
        combine(Some(x), y).edges.len() == x.edges.len() + 1 + y.edges.len(),
        combine(Some(x), y).last == y.last,
{
    assert(x.edges.push((x.last, Seq::<char>::empty())) =~= x.edges + seq![
        (x.last, Seq::<char>::empty()),
    ]);
}

/// An opaque literal normalizes to one record carrying its text, whatever the
/// outer prefix.
pub proof fn law_opaque_isolation(prefix: Option<PathModel>, text: String)
    ensures
        normalize(prefix, ArcH::EvalStatement { expression: text }) == seq![opaque_path(text@)],
{
}

} // verus!
