//! The parse tree, the flat path records it normalizes to, and the
//! normalization itself.
use vstd::prelude::*;

verus! {

broadcast use vstd::std_specs::vec::group_vec_axioms, vstd::seq::group_seq_axioms;

/// A `::`-separated qualified name, one string per segment.
#[derive(Debug, Clone, PartialEq, Eq)]
pub struct Vertex(pub Vec<String>);

/// The tag written `><tag>` on an edge.
#[derive(Debug, Clone, PartialEq, Eq)]
pub struct Fish(pub String);

impl View for Vertex {
    type V = Seq<Seq<char>>;

    open spec fn view(&self) -> Seq<Seq<char>> {
        self.0@.map_values(|s: String| s@)
    }
}

impl View for Fish {
    type V = Seq<char>;

    open spec fn view(&self) -> Seq<char> {
        self.0@
    }
}

/// A parse tree node.
#[derive(Debug, PartialEq, Eq)]
pub enum ArcH {
    /// One edge of a linear chain, followed by the rest of the chain.
    ArcH { is_single_child: bool, vertex: Vertex, fish: Fish, next: Box<ArcH> },
    /// A vertex with no outgoing edge.
    Single { is_single_child: bool, vertex: Vertex },
    /// A shared prefix followed by an indented block of branches and merges.
    ArcHWithNewLines { is_single_child: bool, prefix: Box<ArcH>, children: Vec<ArcH> },
    /// An embedded literal expression, kept verbatim.
    EvalStatement { expression: String },
}

/// A normalized path: its edges and its terminal vertex, or an opaque literal.
#[derive(Debug, Clone)]
pub struct OriginalArcHForm {
    pub vf_pairs: Vec<(Vertex, Fish)>,
    pub last_point: Vertex,
    pub executable_expression: String,
}

/// The mathematical value of a parse tree.
pub enum Tree {
    Chain { single: bool, vertex: Seq<Seq<char>>, fish: Seq<char>, next: Box<Tree> },
    Leaf { single: bool, vertex: Seq<Seq<char>> },
    Scope { single: bool, prefix: Box<Tree>, children: Seq<Tree> },
    Opaque { text: Seq<char> },
}

pub open spec fn tree_of(a: ArcH) -> Tree
    decreases a, 0int,
{
    match a {
        ArcH::ArcH { is_single_child, vertex, fish, next } => Tree::Chain {
            single: is_single_child,
            vertex: vertex@,
            fish: fish@,
            next: Box::new(tree_of(*next)),
        },
        ArcH::Single { is_single_child, vertex } => Tree::Leaf {
            single: is_single_child,
            vertex: vertex@,
        },
        ArcH::ArcHWithNewLines { is_single_child, prefix, children } => Tree::Scope {
            single: is_single_child,
            prefix: Box::new(tree_of(*prefix)),
            children: trees_of(children@, children@.len() as int),
        },
        ArcH::EvalStatement { expression } => Tree::Opaque { text: expression@ },
    }
}

/// The models of the first `n` trees of `cs`.
pub open spec fn trees_of(cs: Seq<ArcH>, n: int) -> Seq<Tree>
    decreases cs, n,
{
    if n <= 0 || n > cs.len() {
        seq![]
    } else {
        trees_of(cs, n - 1).push(tree_of(cs[n - 1]))
    }
}

pub proof fn lemma_trees_of_push(cs: Seq<ArcH>, c: ArcH, n: int)
    requires
        0 <= n <= cs.len(),
    ensures
        trees_of(cs.push(c), n) == trees_of(cs, n),
    decreases n,
{
    if n > 0 {
        lemma_trees_of_push(cs, c, n - 1);
        assert(cs.push(c)[n - 1] == cs[n - 1]);
    }
}

/// A tree with its single-child flag set; an opaque literal has none.
pub open spec fn marked(t: Tree) -> Tree {
    match t {
        Tree::Chain { vertex, fish, next, .. } => Tree::Chain { single: true, vertex, fish, next },
        Tree::Leaf { vertex, .. } => Tree::Leaf { single: true, vertex },
        Tree::Scope { prefix, children, .. } => Tree::Scope { single: true, prefix, children },
        Tree::Opaque { text } => Tree::Opaque { text },
    }
}

/// The mathematical value of a path record.
pub struct PathModel {
    pub edges: Seq<(Seq<Seq<char>>, Seq<char>)>,
    pub last: Seq<Seq<char>>,
    pub expr: Seq<char>,
}

pub open spec fn edge_view(p: (Vertex, Fish)) -> (Seq<Seq<char>>, Seq<char>) {
    (p.0@, p.1@)
}

impl View for OriginalArcHForm {
    type V = PathModel;

    open spec fn view(&self) -> PathModel {
        PathModel {
            edges: self.vf_pairs@.map_values(|p: (Vertex, Fish)| edge_view(p)),
            last: self.last_point@,
            expr: self.executable_expression@,
        }
    }
}

pub open spec fn opt_view(o: Option<OriginalArcHForm>) -> Option<PathModel> {
    match o {
        Some(x) => Some(x@),
        None => None,
    }
}

pub open spec fn paths_view(v: Seq<OriginalArcHForm>) -> Seq<PathModel> {
    v.map_values(|x: OriginalArcHForm| x@)
}

/// The sentinel vertex: its first segment is empty.
pub open spec fn is_sentinel(v: Seq<Seq<char>>) -> bool {
    v.len() > 0 && v[0].len() == 0
}

/// A path that starts at the terminal of `left` and continues with `right`.
pub open spec fn combine(left: Option<PathModel>, right: PathModel) -> PathModel {
    match left {
        None => right,
        Some(l) => if is_sentinel(l.last) {
            PathModel { edges: l.edges + right.edges, last: right.last, expr: seq![] }
        } else if right.edges.len() > 0 && is_sentinel(right.edges[0].0) {
            PathModel {
                edges: l.edges.push((l.last, right.edges[0].1)) + right.edges.drop_first(),
                last: right.last,
                expr: seq![],
            }
        } else {
            PathModel {
                edges: l.edges.push((l.last, Seq::<char>::empty())) + right.edges,
                last: right.last,
                expr: seq![],
            }
        },
    }
}

/// The record an opaque literal normalizes to.
pub open spec fn opaque_path(text: Seq<char>) -> PathModel {
    PathModel { edges: seq![], last: seq![], expr: text }
}

/// Whether a node continues what came before it (a merge) rather than
/// starting an alternative (a branch).
pub open spec fn single_child(a: ArcH) -> bool {
    match a {
        ArcH::ArcH { is_single_child, .. } => is_single_child,
        ArcH::Single { is_single_child, .. } => is_single_child,
        ArcH::ArcHWithNewLines { is_single_child, .. } => is_single_child,
        ArcH::EvalStatement { .. } => true,
    }
}

/// What has been built so far while walking the children of a scope: the
/// shared prefix and the open branches.
pub struct FoldState {
    pub acc: PathModel,
    pub results: Seq<PathModel>,
}

/// One grandchild record applied to the walk.
pub open spec fn step(st: FoldState, merge: bool, g: PathModel) -> FoldState {
    if merge {
        if st.results.len() == 0 {
            FoldState { acc: combine(Some(st.acc), g), results: st.results }
        } else {
            FoldState {
                acc: st.acc,
                results: st.results.map_values(|r: PathModel| combine(Some(r), g)),
            }
        }
    } else {
        FoldState { acc: st.acc, results: st.results.push(combine(Some(st.acc), g)) }
    }
}

/// The first `j` records of `gs` applied to the walk.
pub open spec fn step_upto(st: FoldState, merge: bool, gs: Seq<PathModel>, j: int) -> FoldState
    decreases j,
{
    if j <= 0 {
        st
    } else {
        step(step_upto(st, merge, gs, j - 1), merge, gs[j - 1])
    }
}

/// The first `i` children of a scope applied to the walk.
pub open spec fn fold_children(st: FoldState, cs: Seq<ArcH>, i: int) -> FoldState
    decreases cs, i,
{
    if i <= 0 || i > cs.len() {
        st
    } else {
        let gs = normalize(None, cs[i - 1]);
        step_upto(fold_children(st, cs, i - 1), single_child(cs[i - 1]), gs, gs.len() as int)
    }
}

/// The records a tree normalizes to, given a prefix from outside.
pub open spec fn normalize(prefix: Option<PathModel>, a: ArcH) -> Seq<PathModel>
    decreases a, 0int,
{
    match a {
        ArcH::EvalStatement { expression } => seq![opaque_path(expression@)],
        ArcH::Single { vertex, .. } => seq![
            combine(prefix, PathModel { edges: seq![], last: vertex@, expr: seq![] }),
        ],
        ArcH::ArcH { vertex, fish, next, .. } => {
            let n = normalize(None, *next)[0];
            seq![
                combine(
                    prefix,
                    PathModel { edges: seq![(vertex@, fish@)] + n.edges, last: n.last, expr: seq![] },
                ),
            ]
        },
        ArcH::ArcHWithNewLines { prefix: p, children, .. } => {
            let acc = normalize(prefix, *p)[0];
            let st = fold_children(
                FoldState { acc, results: seq![] },
                children@,
                children@.len() as int,
            );
            if st.results.len() == 0 {
                seq![st.acc]
            } else {
                st.results
            }
        },
    }
}


/// Every tree normalizes to at least one record.
pub proof fn lemma_normalize_nonempty(prefix: Option<PathModel>, a: ArcH)
    ensures
        normalize(prefix, a).len() >= 1,
{
    reveal_with_fuel(normalize, 1);
}

pub fn copy_vertex(v: &Vertex) -> (r: Vertex)
    ensures
        r@ == v@,
{
    let mut out: Vec<String> = Vec::new();
    let mut i: usize = 0;
    while i < v.0.len()
        invariant
            i <= v.0@.len(),
            out@.len() == i,
            forall|k: int| 0 <= k < i ==> out@[k]@ == v.0@[k]@,
        decreases v.0@.len() - i,
    {
        out.push(v.0[i].clone());
        i += 1;
    }
    let r = Vertex(out);
    assert(r@ =~= v@);
    r
}

pub fn copy_fish(f: &Fish) -> (r: Fish)
    ensures
        r@ == f@,
{
    Fish(f.0.clone())
}

pub fn copy_path(x: &OriginalArcHForm) -> (r: OriginalArcHForm)
    ensures
        r@ == x@,
{
    let mut edges: Vec<(Vertex, Fish)> = Vec::new();
    let mut i: usize = 0;
    while i < x.vf_pairs.len()
        invariant
            i <= x.vf_pairs@.len(),
            edges@.len() == i,
            forall|k: int| 0 <= k < i ==> edge_view(#[trigger] edges@[k]) == edge_view(x.vf_pairs@[k]),
        decreases x.vf_pairs@.len() - i,
    {
        let e = (copy_vertex(&x.vf_pairs[i].0), copy_fish(&x.vf_pairs[i].1));
        edges.push(e);
        i += 1;
    }
    let r = OriginalArcHForm {
        vf_pairs: edges,
        last_point: copy_vertex(&x.last_point),
        executable_expression: x.executable_expression.clone(),
    };
    assert(r@.edges =~= x@.edges);
    r
}

fn vertex_is_sentinel(v: &Vertex) -> (b: bool)
    ensures
        b == is_sentinel(v@),
{
    v.0.len() > 0 && v.0[0].as_str().is_empty()
}

/// Concatenates two path records: `left` first, then `right`.
///
/// A sentinel terminal on the left is a bare placeholder, and the two edge
/// lists are joined as they are. A sentinel source on the first edge of the
/// right continues from the left's terminal with that edge's tag. Otherwise
/// the two are bridged by one edge from the left's terminal with an empty tag.
pub fn combineArcHs(arcH1_: Option<OriginalArcHForm>, arcH2: OriginalArcHForm) -> (r: OriginalArcHForm)
    ensures
        r@ == combine(opt_view(arcH1_), arcH2@),
{
    match arcH1_ {
        None => arcH2,
        Some(left) => {
            let ghost lv = left@;
            let ghost rv = arcH2@;
            let mut edges = left.vf_pairs;
            let last = left.last_point;
            let mut tail = arcH2.vf_pairs;
            if vertex_is_sentinel(&last) {
                edges.append(&mut tail);
            } else if tail.len() > 0 && vertex_is_sentinel(&tail[0].0) {
                let (_, f) = tail.remove(0);
                edges.push((last, f));
                edges.append(&mut tail);
            } else {
                edges.push((last, Fish(String::new())));
                edges.append(&mut tail);
            }
            let r = OriginalArcHForm {
                vf_pairs: edges,
                last_point: arcH2.last_point,
                executable_expression: String::new(),
            };
            assert(r@.edges =~= combine(Some(lv), rv).edges);
            assert(r@.expr =~= combine(Some(lv), rv).expr);
            r
        },
    }
}

impl Clone for ArcH {
    /// A deep copy of the tree.
    fn clone(&self) -> (r: Self)
        decreases self,
    {
        match self {
            ArcH::ArcH { is_single_child, vertex, fish, next } => ArcH::ArcH {
                is_single_child: *is_single_child,
                vertex: copy_vertex(vertex),
                fish: copy_fish(fish),
                next: Box::new((**next).clone()),
            },
            ArcH::Single { is_single_child, vertex } => ArcH::Single {
                is_single_child: *is_single_child,
                vertex: copy_vertex(vertex),
            },
            ArcH::ArcHWithNewLines { is_single_child, prefix, children } => {
                let mut copies: Vec<ArcH> = Vec::new();
                let mut i: usize = 0;
                while i < children.len()
                    invariant
                        i <= children@.len(),
                        *self is ArcHWithNewLines,
                        *children == self->children,
                    decreases children@.len() - i,
                {
                    proof {
                        assert(decreases_to!(*self => children[i as int]));
                    }
                    copies.push(children[i].clone());
                    i += 1;
                }
                ArcH::ArcHWithNewLines {
                    is_single_child: *is_single_child,
                    prefix: Box::new((**prefix).clone()),
                    children: copies,
                }
            },
            ArcH::EvalStatement { expression } => ArcH::EvalStatement { expression: expression.clone() },
        }
    }
}

impl ArcH {
    /// Whether this node merges into what came before it; an opaque literal
    /// always does.
    pub fn is_single_child(&self) -> (b: bool)
        ensures
            b == single_child(*self),
    {
        match self {
            ArcH::ArcH { is_single_child, .. } => *is_single_child,
            ArcH::Single { is_single_child, .. } => *is_single_child,
            ArcH::ArcHWithNewLines { is_single_child, .. } => *is_single_child,
            ArcH::EvalStatement { .. } => true,
        }
    }
}

/// The same node with its single-child flag set; an opaque literal is
/// returned unchanged.
pub fn markAsSingleChild(arcH: ArcH) -> (r: ArcH)
    ensures
        tree_of(r) == marked(tree_of(arcH)),
        r == (match arcH {
            ArcH::ArcH { vertex, fish, next, .. } => ArcH::ArcH {
                is_single_child: true,
                vertex,
                fish,
                next,
            },
            ArcH::Single { vertex, .. } => ArcH::Single { is_single_child: true, vertex },
            ArcH::ArcHWithNewLines { prefix, children, .. } => ArcH::ArcHWithNewLines {
                is_single_child: true,
                prefix,
                children,
            },
            ArcH::EvalStatement { expression } => ArcH::EvalStatement { expression },
        }),
{
    match arcH {
        ArcH::ArcH { vertex, fish, next, .. } => ArcH::ArcH {
            is_single_child: true,
            vertex,
            fish,
            next,
        },
        ArcH::Single { vertex, .. } => ArcH::Single { is_single_child: true, vertex },
        ArcH::ArcHWithNewLines { prefix, children, .. } => ArcH::ArcHWithNewLines {
            is_single_child: true,
            prefix,
            children,
        },
        ArcH::EvalStatement { expression } => ArcH::EvalStatement { expression },
    }
}

/// One grandchild record applied to the walk over a scope's children.
fn apply_step(acc: &mut OriginalArcHForm, results: &mut Vec<OriginalArcHForm>, merge: bool, g: &OriginalArcHForm)
    ensures
        (FoldState { acc: final(acc)@, results: paths_view(final(results)@) }) == step(
            FoldState { acc: old(acc)@, results: paths_view(old(results)@) },
            merge,
            g@,
        ),
{
    let ghost st = FoldState { acc: old(acc)@, results: paths_view(old(results)@) };
    if merge {
        if results.len() == 0 {
            let a = copy_path(acc);
            *acc = combineArcHs(Some(a), copy_path(g));
        } else {
            let mut extended: Vec<OriginalArcHForm> = Vec::new();
            let mut k: usize = 0;
            while k < results.len()
                invariant
                    k <= results@.len(),
                    results@ == old(results)@,
                    extended@.len() == k,
                    forall|m: int|
                        0 <= m < k ==> (#[trigger] extended@[m])@ == combine(
                            Some(results@[m]@),
                            g@,
                        ),
                decreases results@.len() - k,
            {
                let n = combineArcHs(Some(copy_path(&results[k])), copy_path(g));
                extended.push(n);
                k += 1;
            }
            assert(paths_view(extended@) =~= step(st, merge, g@).results);
            *results = extended;
        }
    } else {
        let n = combineArcHs(Some(copy_path(acc)), copy_path(g));
        results.push(n);
        assert(paths_view(results@) =~= step(st, merge, g@).results);
    }
}

pub(crate) fn normalize_node(prefix: Option<OriginalArcHForm>, a: &ArcH) -> (r: Vec<OriginalArcHForm>)
    ensures
        paths_view(r@) == normalize(opt_view(prefix), *a),
    decreases a,
{
    match a {
        ArcH::EvalStatement { expression } => {
            let r = OriginalArcHForm {
                vf_pairs: Vec::new(),
                last_point: Vertex(Vec::new()),
                executable_expression: expression.clone(),
            };
            proof {
                assert(r@.edges =~= seq![]);
                assert(r@.last =~= seq![]);
            }
            let v = vec![r];
            assert(paths_view(v@) =~= normalize(opt_view(prefix), *a));
            v
        },
        ArcH::Single { vertex, .. } => {
            let p = OriginalArcHForm {
                vf_pairs: Vec::new(),
                last_point: copy_vertex(vertex),
                executable_expression: String::new(),
            };
            assert(p@.edges =~= seq![]);
            let v = vec![combineArcHs(prefix, p)];
            assert(paths_view(v@) =~= normalize(opt_view(prefix), *a));
            v
        },
        ArcH::ArcH { vertex, fish, next, .. } => {
            let inner = normalize_node(None, next);
            proof {
                lemma_normalize_nonempty(None, **next);
            }
            let mut first = copy_path(&inner[0]);
            let mut edges: Vec<(Vertex, Fish)> = Vec::new();
            edges.push((copy_vertex(vertex), copy_fish(fish)));
            edges.append(&mut first.vf_pairs);
            let p = OriginalArcHForm {
                vf_pairs: edges,
                last_point: first.last_point,
                executable_expression: String::new(),
            };
            let ghost n = normalize(None, **next)[0];
            assert(p@.edges =~= seq![(vertex@, fish@)] + n.edges);
            let v = vec![combineArcHs(prefix, p)];
            assert(paths_view(v@) =~= normalize(opt_view(prefix), *a));
            v
        },
        ArcH::ArcHWithNewLines { prefix: p, children, .. } => {
            let heads = normalize_node(prefix, p);
            proof {
                lemma_normalize_nonempty(opt_view(prefix), **p);
            }
            let mut acc = copy_path(&heads[0]);
            let mut results: Vec<OriginalArcHForm> = Vec::new();
            let ghost st0 = FoldState { acc: acc@, results: seq![] };
            assert(paths_view(results@) =~= seq![]);
            let mut i: usize = 0;
            while i < children.len()
                invariant
                    i <= children@.len(),
                    *a is ArcHWithNewLines,
                    *children == a->children,
                    (FoldState { acc: acc@, results: paths_view(results@) }) == fold_children(
                        st0,
                        children@,
                        i as int,
                    ),
                decreases children@.len() - i,
            {
                let child = &children[i];
                proof {
                    assert(decreases_to!(*a => children[i as int]));
                }
                let grand = normalize_node(None, child);
                let merge = child.is_single_child();
                let ghost before = FoldState { acc: acc@, results: paths_view(results@) };
                let mut j: usize = 0;
                while j < grand.len()
                    invariant
                        j <= grand@.len(),
                        (FoldState { acc: acc@, results: paths_view(results@) }) == step_upto(
                            before,
                            merge,
                            paths_view(grand@),
                            j as int,
                        ),
                    decreases grand@.len() - j,
                {
                    apply_step(&mut acc, &mut results, merge, &grand[j]);
                    j += 1;
                }
                i += 1;
            }
            if results.len() == 0 {
                let v = vec![acc];
                assert(paths_view(v@) =~= normalize(opt_view(prefix), *a));
                v
            } else {
                results
            }
        },
    }
}

/// Normalizes a parse tree into flat path records, each joined onto
/// `prefixFromOutside` when one is given. An opaque literal ignores it.
pub fn convertToOriginalForm(prefixFromOutside: Option<OriginalArcHForm>, arcH: ArcH) -> (r: Vec<
    OriginalArcHForm,
>)
    ensures
        paths_view(r@) == normalize(opt_view(prefixFromOutside), arcH),
        r@.len() >= 1,
{
    proof {
        lemma_normalize_nonempty(opt_view(prefixFromOutside), arcH);
    }
    normalize_node(prefixFromOutside, &arcH)
}

} // verus!
