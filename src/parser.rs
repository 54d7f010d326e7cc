//! The indentation-aware parser that turns lines of the notation into trees.
use vstd::prelude::*;
use crate::arch::{ArcH, OriginalArcHForm, Tree, Vertex, copy_path, markAsSingleChild,
    marked, tree_of, trees_of, lemma_trees_of_push,
    normalize, normalize_node, paths_view, single_child};
use crate::text::{count_leading_spaces, has_prefix, leading_spaces, parse_fish, parse_vertex,
    split_spec, split_vertex_and_fish, find_char, starts_with, trim_spec, trim_start_spec, trimmed,
    trimmed_start, vertex_spec, fish_spec, char_from, lemma_trim_start_suffix, lemma_trim_len, lemma_split_len,
    lemma_fish_len};

verus! {

broadcast use vstd::std_specs::vec::group_vec_axioms, vstd::seq::group_seq_axioms;

/// Why a statement could not be parsed.
#[derive(Debug)]
pub enum ParseError {
    UnexpectedEndOfInput,
    IndentationMismatch,
    UnexpectedIndentation,
    MissingFish,
    InvalidSyntax(String),
}

pub open spec fn texts(v: Seq<String>) -> Seq<Seq<char>> {
    v.map_values(|s: String| s@)
}

/// The size of a list of lines: its characters plus one per line.
pub open spec fn weight(ls: Seq<Seq<char>>) -> nat
    decreases ls.len(),
{
    if ls.len() == 0 {
        0
    } else {
        weight(ls.drop_last()) + ls.last().len() + 1
    }
}

pub proof fn lemma_weight_concat(a: Seq<Seq<char>>, b: Seq<Seq<char>>)
    ensures
        weight(a + b) == weight(a) + weight(b),
    decreases b.len(),
{
    if b.len() > 0 {
        lemma_weight_concat(a, b.drop_last());
        assert((a + b).drop_last() =~= a + b.drop_last());
    } else {
        assert(a + b =~= a);
    }
}

pub proof fn lemma_weight_split(ls: Seq<Seq<char>>, i: int, j: int)
    requires
        0 <= i < j <= ls.len(),
    ensures
        weight(ls.subrange(j, ls.len() as int)) < weight(ls.subrange(i, ls.len() as int)),
        weight(ls.subrange(i, j)) <= weight(ls.subrange(i, ls.len() as int)),
{
    lemma_weight_concat(ls.subrange(i, j), ls.subrange(j, ls.len() as int));
    assert(ls.subrange(i, j) + ls.subrange(j, ls.len() as int) =~= ls.subrange(i, ls.len() as int));
    assert(ls.subrange(i, j).drop_last() =~= ls.subrange(i, j - 1));
}

/// The measure of parsing from line `index` on.
pub open spec fn rest_weight(lines: Seq<String>, index: int) -> nat {
    weight(texts(lines).subrange(index, lines.len() as int))
}

/// The indentation level of a line: two spaces per level.
pub open spec fn indent_of(l: Seq<char>) -> nat {
    leading_spaces(l) / 2
}

/// A literal statement line, `EVAL:` and free text.
pub open spec fn is_eval_line(l: Seq<char>) -> bool {
    starts_with(trim_start_spec(l), "EVAL:"@)
}

/// The text a literal statement carries.
pub open spec fn eval_text(l: Seq<char>) -> Seq<char> {
    let h = trim_start_spec(l);
    trim_spec(h.subrange("EVAL:"@.len() as int, h.len() as int))
}

/// The first line at or after `i` that is a fence, or the end.
pub open spec fn fence_close(ls: Seq<Seq<char>>, i: int) -> int
    decreases ls.len() - i,
{
    if i < 0 || i >= ls.len() {
        ls.len() as int
    } else if trim_spec(ls[i]) == "```"@ {
        i
    } else {
        fence_close(ls, i + 1)
    }
}

/// Lines `i` to `j` joined verbatim, each preceded by a line break.
pub open spec fn fence_text(ls: Seq<Seq<char>>, i: int, j: int) -> Seq<char>
    decreases j - i,
{
    if j <= i {
        seq![]
    } else {
        fence_text(ls, i, j - 1) + seq!['\n'] + ls[j - 1]
    }
}

/// Where parsing goes on after a fenced block opened before line `i`.
pub open spec fn fence_end(ls: Seq<Seq<char>>, i: int) -> int {
    if fence_close(ls, i) < ls.len() {
        fence_close(ls, i) + 1
    } else {
        ls.len() as int
    }
}

/// The kind of a parse failure.
pub enum Fault {
    EndOfInput,
    Indentation,
    Syntax,
}

pub open spec fn fault_of(e: ParseError) -> Fault {
    match e {
        ParseError::UnexpectedEndOfInput => Fault::EndOfInput,
        ParseError::IndentationMismatch => Fault::Indentation,
        _ => Fault::Syntax,
    }
}

/// The mathematical value of a parse result.
pub open spec fn outcome(r: Result<(ArcH, usize), ParseError>) -> Result<(Tree, int), Fault> {
    match r {
        Ok((a, n)) => Ok((tree_of(a), n as int)),
        Err(e) => Err(fault_of(e)),
    }
}

/// A line with its first `k` characters removed.
pub open spec fn strip(x: Seq<char>, k: int) -> Seq<char> {
    if 0 <= k <= x.len() {
        x.subrange(k, x.len() as int)
    } else {
        seq![]
    }
}

/// The end of the block of lines from `j` on that are indented at least `lvl`.
pub open spec fn gather_end(ls: Seq<Seq<char>>, lvl: nat, j: int) -> int
    decreases ls.len() - j,
{
    if 0 <= j < ls.len() && indent_of(ls[j]) >= lvl {
        gather_end(ls, lvl, j + 1)
    } else {
        j
    }
}

/// The statement of an indented line: without its branch marker `- `.
pub open spec fn item_of(l: Seq<char>) -> Seq<char> {
    let h = trim_start_spec(l);
    if starts_with(h, "- "@) {
        trim_spec(h.subrange(2, h.len() as int))
    } else {
        h
    }
}

/// The block that an indented line at `i` heads, shifted to the left margin.
pub open spec fn gathered(ls: Seq<Seq<char>>, lvl: nat, i: int) -> Seq<Seq<char>> {
    seq![item_of(ls[i])] + ls.subrange(i + 1, gather_end(ls, lvl, i + 1)).map_values(
        |x: Seq<char>| strip(x, (2 * lvl) as int),
    )
}

pub proof fn lemma_weight_one(x: Seq<char>)
    ensures
        weight(seq![x]) == x.len() + 1,
{
    reveal_with_fuel(weight, 2);
    assert(seq![x].drop_last() =~= Seq::<Seq<char>>::empty());
    assert(seq![x].last() == x);
}

pub proof fn lemma_weight_prefix(ls: Seq<Seq<char>>, i: int, j: int, k: int)
    requires
        0 <= i <= j <= k <= ls.len(),
    ensures
        weight(ls.subrange(i, j)) <= weight(ls.subrange(i, k)),
{
    lemma_weight_concat(ls.subrange(i, j), ls.subrange(j, k));
    assert(ls.subrange(i, j) + ls.subrange(j, k) =~= ls.subrange(i, k));
}

pub proof fn lemma_weight_strip(ls: Seq<Seq<char>>, k: int)
    ensures
        weight(ls.map_values(|x: Seq<char>| strip(x, k))) <= weight(ls),
    decreases ls.len(),
{
    if ls.len() > 0 {
        lemma_weight_strip(ls.drop_last(), k);
        assert(ls.map_values(|x: Seq<char>| strip(x, k)).drop_last() =~= ls.drop_last().map_values(
            |x: Seq<char>| strip(x, k),
        ));
    }
}

pub proof fn lemma_gather_end_bounds(ls: Seq<Seq<char>>, lvl: nat, j: int)
    requires
        0 <= j <= ls.len(),
    ensures
        j <= gather_end(ls, lvl, j) <= ls.len(),
    decreases ls.len() - j,
{
    if j < ls.len() && indent_of(ls[j]) >= lvl {
        lemma_gather_end_bounds(ls, lvl, j + 1);
    }
}

pub proof fn lemma_head_split(ls: Seq<Seq<char>>, i: int)
    requires
        0 <= i < ls.len(),
    ensures
        weight(ls.subrange(i, ls.len() as int)) == ls[i].len() + 1 + weight(
            ls.subrange(i + 1, ls.len() as int),
        ),
{
    lemma_weight_concat(seq![ls[i]], ls.subrange(i + 1, ls.len() as int));
    assert(seq![ls[i]] + ls.subrange(i + 1, ls.len() as int) =~= ls.subrange(i, ls.len() as int));
    lemma_weight_one(ls[i]);
}

pub proof fn lemma_gathered_lighter(ls: Seq<Seq<char>>, lvl: nat, i: int)
    requires
        0 <= i < ls.len(),
        lvl >= 1,
        indent_of(ls[i]) == lvl,
    ensures
        weight(gathered(ls, lvl, i)) < weight(ls.subrange(i, ls.len() as int)),
{
    let e = gather_end(ls, lvl, i + 1);
    lemma_gather_end_bounds(ls, lvl, i + 1);
    let rest = ls.subrange(i + 1, e).map_values(|x: Seq<char>| strip(x, (2 * lvl) as int));
    lemma_weight_concat(seq![item_of(ls[i])], rest);
    lemma_weight_one(item_of(ls[i]));
    lemma_weight_strip(ls.subrange(i + 1, e), (2 * lvl) as int);
    lemma_weight_prefix(ls, i + 1, e, ls.len() as int);
    lemma_head_split(ls, i);
    lemma_indented_shrinks(ls[i]);
    let h = trim_start_spec(ls[i]);
    reveal_strlit("- ");
    if starts_with(h, "- "@) {
        lemma_trim_len(h.subrange(2, h.len() as int));
    }
}

pub proof fn lemma_chain_lighter(ls: Seq<Seq<char>>, i: int, after: Seq<char>)
    requires
        0 <= i < ls.len(),
        after.len() < ls[i].len(),
    ensures
        weight(seq![after] + ls.subrange(i + 1, ls.len() as int)) < weight(
            ls.subrange(i, ls.len() as int),
        ),
{
    lemma_weight_concat(seq![after], ls.subrange(i + 1, ls.len() as int));
    lemma_weight_one(after);
    lemma_head_split(ls, i);
}

/// The statement that starts at line `i`, expected at indentation `lvl`, and
/// the index of the first line after it.
pub open spec fn parse_spec(ls: Seq<Seq<char>>, lvl: nat, i: int) -> Result<(Tree, int), Fault>
    decreases weight(ls.subrange(i, ls.len() as int)), 1int,
{
    if i < 0 || i >= ls.len() {
        Err(Fault::EndOfInput)
    } else if is_eval_line(ls[i]) {
        Ok((Tree::Opaque { text: eval_text(ls[i]) }, i + 1))
    } else if indent_of(ls[i]) != lvl {
        Err(Fault::Indentation)
    } else if lvl != 0 {
        proof {
            lemma_gathered_lighter(ls, lvl, i);
            let g = gathered(ls, lvl, i);
            assert(g.subrange(0, g.len() as int) =~= g);
        }
        match parse_spec(gathered(ls, lvl, i), 0, 0) {
            Ok((t, m)) => Ok(
                (
                    if starts_with(trim_start_spec(ls[i]), "- "@) {
                        t
                    } else {
                        marked(t)
                    },
                    i + m,
                ),
            ),
            Err(e) => Err(e),
        }
    } else {
        let (label, rest) = split_spec(trim_start_spec(ls[i]));
        if rest.len() == 0 {
            if label == "```"@ {
                Ok(
                    (
                        Tree::Leaf {
                            single: false,
                            vertex: seq![fence_text(ls, i + 1, fence_close(ls, i + 1))],
                        },
                        fence_end(ls, i + 1),
                    ),
                )
            } else {
                proof {
                    lemma_weight_split(ls, i, i + 1);
                }
                with_children(ls, i, Tree::Leaf { single: false, vertex: vertex_spec(label) }, i + 1)
            }
        } else {
            match fish_spec(rest) {
                None => Err(Fault::Syntax),
                Some((f, after)) => {
                    proof {
                        lemma_fish_len(rest);
                        lemma_split_len(trim_start_spec(ls[i]));
                        lemma_trim_start_suffix(ls[i]);
                        lemma_chain_lighter(ls, i, after);
                        let sub = seq![after] + ls.subrange(i + 1, ls.len() as int);
                        assert(sub.subrange(0, sub.len() as int) =~= sub);
                    }
                    match parse_spec(seq![after] + ls.subrange(i + 1, ls.len() as int), 0, 0) {
                        Ok((t, m)) => if 1 <= m && i + m <= ls.len() {
                            proof {
                                lemma_weight_split(ls, i, i + m);
                            }
                            with_children(
                                ls,
                                i,
                                Tree::Chain {
                                    single: false,
                                    vertex: vertex_spec(label),
                                    fish: f,
                                    next: Box::new(t),
                                },
                                i + m,
                            )
                        } else {
                            Err(Fault::Syntax)
                        },
                        Err(e) => Err(e),
                    }
                },
            }
        }
    }
}

/// A statement's head with the child block that follows it from line `j`.
pub open spec fn with_children(ls: Seq<Seq<char>>, i: int, head: Tree, j: int) -> Result<(Tree, int), Fault>
    decreases weight(ls.subrange(j, ls.len() as int)), 3int,
{
    match children_spec(ls, j, seq![]) {
        Ok((cs, n)) => Ok(
            (
                if cs.len() == 0 {
                    head
                } else {
                    Tree::Scope { single: false, prefix: Box::new(head), children: cs }
                },
                n,
            ),
        ),
        Err(e) => Err(e),
    }
}

/// The children one level in, from line `j` on, after those in `acc`.
pub open spec fn children_spec(ls: Seq<Seq<char>>, j: int, acc: Seq<Tree>) -> Result<(Seq<Tree>, int), Fault>
    decreases weight(ls.subrange(j, ls.len() as int)), 2int,
{
    if 0 <= j < ls.len() && indent_of(ls[j]) == 1 {
        match parse_spec(ls, 1, j) {
            Ok((c, n)) => if j < n <= ls.len() {
                proof {
                    lemma_weight_split(ls, j, n);
                }
                children_spec(ls, n, acc.push(c))
            } else {
                Err(Fault::Syntax)
            },
            Err(e) => Err(e),
        }
    } else {
        Ok((acc, j))
    }
}

/// A node itself, or the prefix of a node with a child block.
pub open spec fn head_node(a: ArcH) -> ArcH {
    match a {
        ArcH::ArcHWithNewLines { prefix, .. } => *prefix,
        _ => a,
    }
}

fn same_text(a: &str, b: &str) -> (r: bool)
    ensures
        r == (a@ == b@),
{
    let r = a.unicode_len() == b.unicode_len() && has_prefix(a, b);
    proof {
        if a@.len() == b@.len() {
            assert(a@.subrange(0, b@.len() as int) =~= a@);
        }
    }
    r
}

pub proof fn lemma_indented_shrinks(l: Seq<char>)
    requires
        leading_spaces(l) >= 1,
    ensures
        trim_start_spec(l).len() < l.len(),
{
    assert(l[0] == ' ');
    lemma_trim_start_suffix(l.drop_first());
}

/// Parses one statement starting at line `index`, expected at indentation
/// `indent_level`; returns the tree and the index of the first line after it.
pub fn parse_arch(lines: &Vec<String>, indent_level: usize, index: usize) -> (r: Result<
    (ArcH, usize),
    ParseError,
>)
    ensures
        outcome(r) == parse_spec(texts(lines@), indent_level as nat, index as int),
        index >= lines@.len() ==> r == Err::<(ArcH, usize), ParseError>(
            ParseError::UnexpectedEndOfInput,
        ),
        match r {
            Ok((_, n)) => index < n <= lines@.len(),
            Err(_) => true,
        },
        index < lines@.len() && is_eval_line(lines@[index as int]@) ==> match r {
            Ok((node, n)) => node == ArcH::EvalStatement {
                expression: node->expression,
            } && node->expression@ == eval_text(lines@[index as int]@) && n == index + 1,
            Err(_) => false,
        },
        index < lines@.len() && !is_eval_line(lines@[index as int]@) && indent_of(
            lines@[index as int]@,
        ) != indent_level ==> r == Err::<(ArcH, usize), ParseError>(
            ParseError::IndentationMismatch,
        ),
        indent_level == 0 ==> match r {
            Ok((node, _)) => node is EvalStatement || !single_child(node),
            Err(_) => true,
        },
        index < lines@.len() && indent_level != 0 && !is_eval_line(lines@[index as int]@) ==> match r {
            Ok((node, _)) => !(node is EvalStatement) ==> (single_child(node) == !starts_with(
                trim_start_spec(lines@[index as int]@),
                "- "@,
            )),
            Err(_) => true,
        },
        index < lines@.len() && indent_level == 0 && !is_eval_line(lines@[index as int]@) && indent_of(
            lines@[index as int]@,
        ) == 0 ==> ({
            let (label, rest) = split_spec(trim_start_spec(lines@[index as int]@));
            let ls = texts(lines@);
            &&& (rest.len() == 0 && label == "```"@) ==> match r {
                Ok((node, n)) => node is Single && !single_child(node) && node->Single_vertex@
                    == seq![fence_text(ls, index + 1, fence_close(ls, index + 1))] && n
                    == fence_end(ls, index + 1),
                Err(_) => false,
            }
            &&& (rest.len() == 0 && label != "```"@) ==> match r {
                Ok((node, _)) => head_node(node) is Single && !single_child(head_node(node))
                    && head_node(node)->Single_vertex@ == vertex_spec(label),
                Err(_) => true,
            }
            &&& (rest.len() > 0 && fish_spec(rest) is None) ==> r is Err && r->Err_0 is InvalidSyntax
            &&& (rest.len() > 0) ==> match r {
                Ok((node, _)) => head_node(node) is ArcH && !single_child(head_node(node))
                    && head_node(node)->ArcH_vertex@ == vertex_spec(label) && match fish_spec(rest) {
                    Some((f, _)) => head_node(node)->fish@ == f,
                    None => false,
                },
                Err(_) => true,
            }
        }),
    decreases rest_weight(lines@, index as int),
{
    if index >= lines.len() {
        return Err(ParseError::UnexpectedEndOfInput);
    }
    let line = lines[index].as_str();
    let ghost ls = texts(lines@);
    assert(ls[index as int] == line@);
    let head = trimmed_start(line);
    if has_prefix(head.as_str(), "EVAL:") {
        let m = "EVAL:".unicode_len();
        let hl = head.as_str().unicode_len();
        let text = trimmed(head.as_str().substring_char(m, hl));
        return Ok((ArcH::EvalStatement { expression: text }, index + 1));
    }
    let spaces = count_leading_spaces(line);
    let indent = spaces / 2;
    if indent != indent_level {
        return Err(ParseError::IndentationMismatch);
    }
    if indent_level != 0 {
        let hl = head.as_str().unicode_len();
        let is_branch = has_prefix(head.as_str(), "- ");
        proof {
            reveal_strlit("- ");
        }
        let item = if is_branch {
            trimmed(head.as_str().substring_char(2, hl))
        } else {
            head
        };
        proof {
            lemma_indented_shrinks(line@);
            if is_branch {
                lemma_trim_len(trim_start_spec(line@).subrange(2, hl as int));
            }
            assert(item@.len() < line@.len());
        }
        let mut block: Vec<String> = Vec::new();
        block.push(item);
        let mut next = index + 1;
        proof {
            assert(texts(lines@).subrange(index as int, next as int).drop_last() =~= seq![]);
            assert(texts(block@).drop_last() =~= seq![]);
            assert(texts(block@).last() == item@);
            assert(texts(lines@).subrange(index as int, next as int).last() == line@);
        }
        let mut stop = false;
        while next < lines.len() && !stop
            invariant
                index < next <= lines@.len(),
                1 <= indent_level,
                stop ==> gather_end(ls, indent_level as nat, next as int) == next,
                weight(texts(block@)) < weight(texts(lines@).subrange(index as int, next as int)),
                block@.len() == next - index,
                ls == texts(lines@),
                texts(block@) == seq![item_of(ls[index as int])] + ls.subrange(
                    index + 1,
                    next as int,
                ).map_values(|x: Seq<char>| strip(x, (2 * indent_level) as int)),
                gather_end(ls, indent_level as nat, index + 1) == gather_end(
                    ls,
                    indent_level as nat,
                    next as int,
                ),
            decreases lines@.len() - next + (if stop { 0int } else { 1int }),
        {
            let cl = lines[next].as_str();
            let cs = count_leading_spaces(cl);
            assert(ls[next as int] == cl@);
            if cs / 2 < indent_level {
                stop = true;
                continue;
            }
            let cll = cl.unicode_len();
            let margin = indent_level + indent_level;
            let piece = String::from_str(cl.substring_char(margin, cll));
            assert(piece@ == strip(ls[next as int], (2 * indent_level) as int));
            let ghost old_g = block@;
            block.push(piece);
            proof {
                assert(texts(block@).drop_last() =~= texts(old_g));
                assert(texts(block@) =~= texts(old_g).push(piece@));
                assert(ls.subrange(index + 1, next + 1).map_values(
                    |x: Seq<char>| strip(x, (2 * indent_level) as int),
                ) =~= ls.subrange(index + 1, next as int).map_values(
                    |x: Seq<char>| strip(x, (2 * indent_level) as int),
                ).push(strip(ls[next as int], (2 * indent_level) as int)));
                assert(ls.subrange(index as int, next + 1).drop_last() =~= ls.subrange(
                    index as int,
                    next as int,
                ));
                assert(texts(block@) =~= seq![item_of(ls[index as int])] + ls.subrange(
                    index + 1,
                    next + 1,
                ).map_values(|x: Seq<char>| strip(x, (2 * indent_level) as int)));
            }
            next += 1;
        }
        proof {
            assert(texts(block@) =~= gathered(ls, indent_level as nat, index as int));
            lemma_weight_split(texts(lines@), index as int, next as int);
            assert(texts(block@).subrange(0, block@.len() as int) =~= texts(block@));
        }
        let (node, used) = match parse_arch(&block, 0, 0) {
            Ok(p) => p,
            Err(e) => return Err(e),
        };
        if is_branch {
            Ok((node, index + used))
        } else {
            Ok((markAsSingleChild(node), index + used))
        }
    } else {
        let (label, rest) = split_vertex_and_fish(head.as_str());
        let first: ArcH;
        let mut next: usize;
        if rest.as_str().is_empty() {
            if same_text(label.as_str(), "```") {
                let mut content = String::new();
                let mut i = index + 1;
                #[verifier::loop_isolation(false)]
                while i < lines.len()
                    invariant
                        index < i <= lines@.len(),
                        content@ == fence_text(texts(lines@), index + 1, i as int),
                        fence_close(texts(lines@), index + 1) == fence_close(texts(lines@), i as int),
                    decreases lines@.len() - i,
                {
                    let t = trimmed(lines[i].as_str());
                    if same_text(t.as_str(), "```") {
                        assert(texts(lines@)[i as int] == lines@[i as int]@);
                        break;
                    }
                    proof {
                        reveal_strlit("\n");
                    }
                    content.append("\n");
                    content.append(lines[i].as_str());
                    i += 1;
                }
                let end = if i < lines.len() {
                    i + 1
                } else {
                    i
                };
                let ghost text = content@;
                let vertex = Vertex(vec![content]);
                assert(vertex@ =~= seq![text]);
                return Ok((ArcH::Single { is_single_child: false, vertex }, end));
            }
            first = ArcH::Single { is_single_child: false, vertex: parse_vertex(label.as_str()) };
            next = index + 1;
        } else {
            let vertex = parse_vertex(label.as_str());
            let (fish, after) = match parse_fish(rest.as_str()) {
                Ok(p) => p,
                Err(e) => return Err(e),
            };
            let ghost after_v = after@;
            let mut sub: Vec<String> = Vec::new();
            sub.push(after);
            let mut k = index + 1;
            while k < lines.len()
                invariant
                    index < k <= lines@.len(),
                    sub@.len() == k - index,
                    sub@[0]@ == after_v,
                    texts(sub@).drop_first() == texts(lines@).subrange(index + 1, k as int),
                decreases lines@.len() - k,
            {
                sub.push(lines[k].clone());
                k += 1;
            }
            proof {
                let ls = texts(lines@);
                lemma_weight_concat(seq![texts(sub@)[0]], texts(sub@).drop_first());
                assert(seq![texts(sub@)[0]] + texts(sub@).drop_first() =~= texts(sub@));
                lemma_weight_concat(seq![ls[index as int]], ls.subrange(index + 1, ls.len() as int));
                assert(seq![ls[index as int]] + ls.subrange(index + 1, ls.len() as int) =~= ls.subrange(index as int, ls.len() as int));
                assert(seq![texts(sub@)[0]].drop_last() =~= seq![]);
                assert(seq![ls[index as int]].drop_last() =~= seq![]);
                lemma_trim_start_suffix(line@);
                assert(k == lines@.len());
                assert(texts(sub@)[0] == after_v);
                assert(after_v.len() < line@.len());
                assert(ls[index as int] == line@);
                assert(weight(seq![texts(sub@)[0]]) < weight(seq![ls[index as int]]));
                assert(weight(texts(sub@)) < weight(ls.subrange(index as int, ls.len() as int)));
                assert(texts(sub@).subrange(0, sub@.len() as int) =~= texts(sub@));
                assert(texts(sub@) =~= seq![after_v] + ls.subrange(index + 1, ls.len() as int));
            }
            let (tail, used) = match parse_arch(&sub, 0, 0) {
                Ok(p) => p,
                Err(e) => return Err(e),
            };
            first = ArcH::ArcH { is_single_child: false, vertex, fish, next: Box::new(tail) };
            next = index + used;
        }
        let mut children: Vec<ArcH> = Vec::new();
        let ghost start = next as int;
        assert(parse_spec(ls, 0, index as int) == with_children(ls, index as int, tree_of(first), start));
        #[verifier::loop_isolation(false)]
        while next < lines.len()
            invariant
                index < next <= lines@.len(),
                indent_level == 0,
                children_spec(ls, start, seq![]) == children_spec(
                    ls,
                    next as int,
                    trees_of(children@, children@.len() as int),
                ),
            decreases lines@.len() - next,
        {
            let cs = count_leading_spaces(lines[next].as_str());
            assert(ls[next as int] == lines@[next as int]@);
            if cs / 2 != indent_level + 1 {
                break;
            }
            proof {
                lemma_weight_split(texts(lines@), index as int, next as int);
            }
            let ghost acc = trees_of(children@, children@.len() as int);
            let (child, after_child) = match parse_arch(lines, cs / 2, next) {
                Ok(p) => p,
                Err(e) => {
                    assert(children_spec(ls, next as int, acc) == Err::<(Seq<Tree>, int), Fault>(fault_of(e)));
                    return Err(e);
                },
            };
            let ghost old_c = children@;
            children.push(child);
            proof {
                lemma_trees_of_push(old_c, child, old_c.len() as int);
            }
            next = after_child;
        }
        if children.len() == 0 {
            Ok((first, next))
        } else {
            Ok((
                ArcH::ArcHWithNewLines {
                    is_single_child: false,
                    prefix: Box::new(first),
                    children,
                },
                next,
            ))
        }
    }
}

/// A line that separates statements: blank, or a `##` comment.
pub open spec fn is_filler(l: Seq<char>) -> bool {
    trim_spec(l).len() == 0 || starts_with(trim_spec(l), "##"@)
}

/// The line that ends the input.
pub open spec fn is_end_marker(l: Seq<char>) -> bool {
    trim_spec(l) == "<|-endoftext-|>"@
}

/// The statements from line `pos` on, after those in `acc`: blank and comment
/// lines are skipped and the end marker stops the input.
pub open spec fn statements_from(ls: Seq<Seq<char>>, pos: int, acc: Seq<Tree>) -> Result<Seq<Tree>, Fault>
    decreases ls.len() - pos,
{
    if pos < 0 || pos >= ls.len() || is_end_marker(ls[pos]) {
        Ok(acc)
    } else if is_filler(ls[pos]) {
        statements_from(ls, pos + 1, acc)
    } else {
        match parse_spec(ls, 0, pos) {
            Ok((t, n)) => if pos < n <= ls.len() {
                statements_from(ls, n, acc.push(t))
            } else {
                Err(Fault::Syntax)
            },
            Err(e) => Err(e),
        }
    }
}

/// A section whose first line is a statement at the wrong indentation.
pub open spec fn misindented_start(lines: Seq<String>) -> bool {
    lines.len() > 0 && !is_filler(lines[0]@) && !is_end_marker(lines[0]@) && indent_of(lines[0]@)
        != 0 && !is_eval_line(lines[0]@)
}

/// Parses every statement of a section, skipping blank and comment lines and
/// stopping at the end marker.
pub fn parse_input(lines_: Vec<String>) -> (r: Result<Vec<ArcH>, ParseError>)
    ensures
        match r {
            Ok(v) => statements_from(texts(lines_@), 0, seq![]) == Ok::<Seq<Tree>, Fault>(
                trees_of(v@, v@.len() as int),
            ),
            Err(e) => statements_from(texts(lines_@), 0, seq![]) == Err::<Seq<Tree>, Fault>(
                fault_of(e),
            ),
        },
        (forall|k: int|
            0 <= k < lines_@.len() ==> #[trigger] is_filler(lines_@[k]@) || is_end_marker(
                lines_@[k]@,
            )) ==> r is Ok && r->Ok_0@.len() == 0,
        misindented_start(lines_@) ==> r == Err::<Vec<ArcH>, ParseError>(
            ParseError::IndentationMismatch,
        ),
{
    let lines = lines_;
    let mut collected: Vec<ArcH> = Vec::new();
    let mut pos: usize = 0;
    let mut done = false;
    while pos < lines.len() && !done
        invariant
            lines@ == lines_@,
            misindented_start(lines@) ==> pos == 0 && !done,
            pos <= lines@.len(),
            statements_from(texts(lines@), 0, seq![]) == statements_from(
                texts(lines@),
                pos as int,
                trees_of(collected@, collected@.len() as int),
            ),
            done ==> pos < lines@.len() && is_end_marker(lines@[pos as int]@),
            pos <= lines@.len(),
            (forall|k: int|
                0 <= k < lines@.len() ==> #[trigger] is_filler(lines@[k]@) || is_end_marker(
                    lines@[k]@,
                )) ==> collected@.len() == 0,
        decreases lines@.len() - pos + (if done { 0int } else { 1int }),
    {
        let t = trimmed(lines[pos].as_str());
        assert(texts(lines@)[pos as int] == lines@[pos as int]@);
        if same_text(t.as_str(), "<|-endoftext-|>") {
            assert(is_end_marker(lines@[pos as int]@));
            done = true;
        } else if t.as_str().is_empty() || has_prefix(t.as_str(), "##") {
            pos += 1;
        } else {
            assert(!is_filler(lines@[pos as int]@) && !is_end_marker(lines@[pos as int]@));
            match parse_arch(&lines, 0, pos) {
                Ok((a, n)) => {
                    let ghost old_c = collected@;
                    collected.push(a);
                    proof {
                        lemma_trees_of_push(old_c, a, old_c.len() as int);
                    }
                    pos = n;
                },
                Err(e) => return Err(e),
            }
        }
    }
    Ok(collected)
}

/// A line without the carriage return that may end it.
pub open spec fn strip_cr(l: Seq<char>) -> Seq<char> {
    if l.len() > 0 && l.last() == '\r' {
        l.drop_last()
    } else {
        l
    }
}

/// The lines of `s`: split after each `\n`, each without its `\n` or
/// `\r\n`; a final line ending adds no empty line, and a last line with no
/// `\n` keeps a trailing `\r`.
pub open spec fn lines_spec(s: Seq<char>) -> Seq<Seq<char>>
    decreases s.len(),
{
    if s.len() == 0 {
        seq![]
    } else {
        match char_from(s, '\n', 0) {
            Some(k) => if 0 <= k < s.len() {
                seq![strip_cr(s.subrange(0, k))] + lines_spec(s.subrange(k + 1, s.len() as int))
            } else {
                seq![s]
            },
            None => seq![s],
        }
    }
}

/// The lines of `s`, as `lines_spec` gives them.
fn split_lines(s: &str) -> (r: Vec<String>)
    ensures
        texts(r@) == lines_spec(s@),
{
    let n = s.unicode_len();
    let mut out: Vec<String> = Vec::new();
    let mut start: usize = 0;
    assert(texts(out@) =~= seq![]);
    assert(s@.subrange(0, n as int) =~= s@);
    assert(texts(out@) + lines_spec(s@) =~= lines_spec(s@));
    while start < n
        invariant
            n == s@.len(),
            start <= n,
            lines_spec(s@) == texts(out@) + lines_spec(s@.subrange(start as int, n as int)),
        decreases n - start,
    {
        let rest = s.substring_char(start, n);
        let ghost old_out = out@;
        match find_char(rest, '\n', 0) {
            Some(k) => {
                let line = rest.substring_char(0, k);
                let piece = if k > 0 && line.get_char(k - 1) == '\r' {
                    line.substring_char(0, k - 1)
                } else {
                    line
                };
                assert(piece@ == strip_cr(rest@.subrange(0, k as int)));
                out.push(String::from_str(piece));
                proof {
                    assert(rest@.subrange(k + 1, rest@.len() as int) =~= s@.subrange(
                        start + k + 1,
                        n as int,
                    ));
                    assert(texts(out@) =~= texts(old_out).push(piece@));
                    assert(texts(out@) + lines_spec(rest@.subrange(k + 1, rest@.len() as int))
                        =~= texts(old_out) + lines_spec(rest@));
                }
                start = start + k + 1;
            },
            None => {
                out.push(String::from_str(rest));
                proof {
                    assert(texts(out@) =~= texts(old_out).push(rest@));
                    assert(s@.subrange(n as int, n as int) =~= Seq::<char>::empty());
                    assert(texts(out@) + lines_spec(s@.subrange(n as int, n as int)) =~= texts(
                        old_out,
                    ) + lines_spec(rest@));
                }
                start = n;
            },
        }
    }
    assert(texts(out@) + lines_spec(s@.subrange(n as int, n as int)) =~= texts(out@));
    out
}

/// A section header `[name]`, the name trimmed.
pub open spec fn header_name(t: Seq<char>) -> Option<Seq<char>> {
    if t.len() >= 2 && t[0] == '[' && t[t.len() - 1] == ']' {
        Some(trim_spec(t.subrange(1, t.len() - 1)))
    } else {
        None
    }
}

/// The sections of `ls` from line `n` on: the current one is named `name`
/// and has the lines `body` so far; `acc` holds those already parsed.
pub open spec fn sections_from(
    ls: Seq<Seq<char>>,
    n: int,
    name: Seq<char>,
    body: Seq<Seq<char>>,
    acc: Seq<(Seq<char>, Seq<Tree>)>,
) -> Result<Seq<(Seq<char>, Seq<Tree>)>, Fault>
    decreases ls.len() - n,
{
    if n < 0 || n >= ls.len() {
        if body.len() > 0 {
            match statements_from(body, 0, seq![]) {
                Ok(ts) => Ok(acc.push((name, ts))),
                Err(e) => Err(e),
            }
        } else {
            Ok(acc)
        }
    } else {
        match header_name(trim_spec(ls[n])) {
            Some(h) => if body.len() > 0 {
                match statements_from(body, 0, seq![]) {
                    Ok(ts) => sections_from(ls, n + 1, h, seq![], acc.push((name, ts))),
                    Err(e) => Err(e),
                }
            } else {
                sections_from(ls, n + 1, h, seq![], acc)
            },
            None => sections_from(ls, n + 1, name, body.push(ls[n]), acc),
        }
    }
}

pub open spec fn section_view(p: (String, Vec<ArcH>)) -> (Seq<char>, Seq<Tree>) {
    (p.0@, trees_of(p.1@, p.1@.len() as int))
}

pub open spec fn sections_view(v: Seq<(String, Vec<ArcH>)>) -> Seq<(Seq<char>, Seq<Tree>)> {
    v.map_values(|p: (String, Vec<ArcH>)| section_view(p))
}

/// The mathematical value of a sectioned parse.
pub open spec fn sections_outcome(r: Result<Vec<(String, Vec<ArcH>)>, ParseError>) -> Result<
    Seq<(Seq<char>, Seq<Tree>)>,
    Fault,
> {
    match r {
        Ok(v) => Ok(sections_view(v@)),
        Err(e) => Err(fault_of(e)),
    }
}

fn header_of(t: &str) -> (r: Option<String>)
    ensures
        match header_name(t@) {
            Some(n) => r is Some && r->0@ == n,
            None => r is None,
        },
{
    let n = t.unicode_len();
    if n >= 2 && t.get_char(0) == '[' && t.get_char(n - 1) == ']' {
        Some(trimmed(t.substring_char(1, n - 1)))
    } else {
        None
    }
}

/// Splits lines into sections delimited by `[name]` header lines, in order; the
/// lines before the first header form the section with the empty name. Each
/// section that has lines is then parsed.
pub fn parse_sections(lines: &Vec<String>) -> (r: Result<Vec<(String, Vec<ArcH>)>, ParseError>)
    ensures
        sections_outcome(r) == sections_from(texts(lines@), 0, seq![], seq![], seq![]),
{
    let mut sections: Vec<(String, Vec<ArcH>)> = Vec::new();
    let mut name = String::new();
    let mut collected: Vec<String> = Vec::new();
    let mut n: usize = 0;
    let ghost ls = texts(lines@);
    assert(sections_view(sections@) =~= seq![]);
    assert(texts(collected@) =~= seq![]);
    while n < lines.len()
        invariant
            n <= lines@.len(),
            ls == texts(lines@),
            sections_from(ls, 0, seq![], seq![], seq![]) == sections_from(
                ls,
                n as int,
                name@,
                texts(collected@),
                sections_view(sections@),
            ),
        decreases lines@.len() - n,
    {
        let t = trimmed(lines[n].as_str());
        assert(ls[n as int] == lines@[n as int]@);
        let ghost name0 = name@;
        let ghost body0 = texts(collected@);
        let ghost acc0 = sections_view(sections@);
        match header_of(t.as_str()) {
            Some(h) => {
                assert(header_name(trim_spec(ls[n as int])) == Some(h@));
                assert(body0.len() == collected@.len());
                if collected.len() > 0 {
                    let body = collected;
                    collected = Vec::new();
                    assert(texts(collected@) =~= seq![]);
                    match parse_input(body) {
                        Ok(trees) => {
                            let ghost old_s = sections@;
                            let ghost nm = name@;
                            sections.push((name, trees));
                            assert(sections_view(sections@) =~= sections_view(old_s).push(
                                (nm, trees_of(trees@, trees@.len() as int)),
                            ));
                        },
                        Err(e) => return Err(e),
                    }
                }
                name = h;
                assert(texts(collected@) =~= seq![]);
                assert(sections_from(ls, n as int, name0, body0, acc0) == sections_from(
                    ls,
                    n + 1,
                    name@,
                    texts(collected@),
                    sections_view(sections@),
                ));
            },
            None => {
                let ghost old_c = collected@;
                collected.push(lines[n].clone());
                assert(texts(collected@) =~= texts(old_c).push(ls[n as int]));
            },
        }
        n += 1;
    }
    if collected.len() > 0 {
        match parse_input(collected) {
            Ok(trees) => {
                let ghost old_s = sections@;
                let ghost nm = name@;
                sections.push((name, trees));
                assert(sections_view(sections@) =~= sections_view(old_s).push(
                    (nm, trees_of(trees@, trees@.len() as int)),
                ));
            },
            Err(e) => return Err(e),
        }
    }
    Ok(sections)
}

/// Splits the source text into sections and parses each; see `parse_sections`.
pub fn parse_inputs(input: &str) -> (r: Result<Vec<(String, Vec<ArcH>)>, ParseError>)
    ensures
        sections_outcome(r) == sections_from(lines_spec(input@), 0, seq![], seq![], seq![]),
{
    let lines = split_lines(input);
    parse_sections(&lines)
}

/// The records of each statement of a section, every one joined onto the
/// first record of the section's own prefix.
pub fn forms_for_section(prefix: &ArcH, trees: &Vec<ArcH>) -> (r: Vec<Vec<OriginalArcHForm>>)
    ensures
        r@.len() == trees@.len(),
        forall|i: int|
            0 <= i < trees@.len() ==> paths_view(#[trigger] r@[i]@) == normalize(
                Some(normalize(None, *prefix)[0]),
                trees@[i],
            ),
{
    let heads = normalize_node(None, prefix);
    proof {
        crate::arch::lemma_normalize_nonempty(None, *prefix);
    }
    let mut out: Vec<Vec<OriginalArcHForm>> = Vec::new();
    let mut i: usize = 0;
    while i < trees.len()
        invariant
            i <= trees@.len(),
            out@.len() == i,
            paths_view(heads@) == normalize(None, *prefix),
            heads@.len() >= 1,
            forall|k: int|
                0 <= k < i ==> paths_view(#[trigger] out@[k]@) == normalize(
                    Some(normalize(None, *prefix)[0]),
                    trees@[k],
                ),
        decreases trees@.len() - i,
    {
        let p = copy_path(&heads[0]);
        out.push(normalize_node(Some(p), &trees[i]));
        i += 1;
    }
    out
}

/// The number of statements in the first `n` sections.
pub open spec fn statement_count(input: Seq<(String, Vec<ArcH>)>, n: int) -> nat
    decreases n,
{
    if n <= 0 {
        0
    } else {
        statement_count(input, n - 1) + input[n - 1].1@.len()
    }
}

pub proof fn lemma_count_mono(input: Seq<(String, Vec<ArcH>)>, a: int, b: int)
    requires
        0 <= a <= b <= input.len(),
    ensures
        statement_count(input, a) <= statement_count(input, b),
    decreases b - a,
{
    if a < b {
        lemma_count_mono(input, a, b - 1);
    }
}

/// The records at the place of section `s` in `all` are its statements, each
/// normalized onto the first record of the tree `p`.
pub open spec fn forms_match(
    input: Seq<(String, Vec<ArcH>)>,
    all: Seq<Vec<OriginalArcHForm>>,
    s: int,
    p: ArcH,
) -> bool {
    forall|j: int|
        0 <= j < input[s].1@.len() ==> paths_view(#[trigger] all[statement_count(input, s) + j]@)
            == normalize(Some(normalize(None, p)[0]), input[s].1@[j])
}

/// Section `s` in `all` is its statements normalized onto the first record of
/// what the section's name parses to.
pub open spec fn section_forms(input: Seq<(String, Vec<ArcH>)>, all: Seq<Vec<OriginalArcHForm>>, s: int) -> bool {
    exists|p: ArcH|
        outcome(Ok::<(ArcH, usize), ParseError>((p, 1))) == parse_spec(seq![input[s].0@], 0, 0)
            && #[trigger] forms_match(input, all, s, p)
}

/// Normalizes every statement of every section, each joined onto the prefix
/// that the section's name parses to.
pub fn collect_inputs(input: &Vec<(String, Vec<ArcH>)>) -> (r: Result<Vec<Vec<OriginalArcHForm>>, ParseError>)
    ensures
        match r {
            Ok(all) => all@.len() == statement_count(input@, input@.len() as int) && forall|k: int|
                0 <= k < input@.len() ==> #[trigger] section_forms(input@, all@, k),
            Err(_) => exists|k: int|
                0 <= k < input@.len() && #[trigger] parse_spec(seq![input@[k].0@], 0, 0) is Err,
        },
        (forall|k: int| 0 <= k < input@.len() ==> #[trigger] parse_spec(seq![input@[k].0@], 0, 0) is Ok)
            ==> r is Ok,
{
    let mut all: Vec<Vec<OriginalArcHForm>> = Vec::new();
    let mut s: usize = 0;
    while s < input.len()
        invariant
            s <= input@.len(),
            all@.len() == statement_count(input@, s as int),
            forall|k: int| 0 <= k < s ==> #[trigger] section_forms(input@, all@, k),
        decreases input@.len() - s,
    {
        let mut key: Vec<String> = Vec::new();
        key.push(input[s].0.clone());
        assert(texts(key@) =~= seq![input@[s as int].0@]);
        let prefix = match parse_arch(&key, 0, 0) {
            Ok((p, n)) => {
                assert(n == 1);
                p
            },
            Err(e) => {
                assert(parse_spec(seq![input@[s as int].0@], 0, 0) is Err);
                return Err(e);
            },
        };
        let mut forms = forms_for_section(&prefix, &input[s].1);
        let ghost old_all = all@;
        let ghost fv = forms@;
        all.append(&mut forms);
        proof {
            let si = s as int;
            assert forall|k: int| 0 <= k < si implies #[trigger] section_forms(input@, all@, k) by {
                assert(section_forms(input@, old_all, k));
                let p = choose|p: ArcH|
                    outcome(Ok::<(ArcH, usize), ParseError>((p, 1))) == parse_spec(
                        seq![input@[k].0@],
                        0,
                        0,
                    ) && #[trigger] forms_match(input@, old_all, k, p);
                lemma_count_mono(input@, k + 1, si);
                assert forall|j: int| 0 <= j < input@[k].1@.len() implies paths_view(
                    #[trigger] all@[statement_count(input@, k) + j]@,
                ) == normalize(Some(normalize(None, p)[0]), input@[k].1@[j]) by {
                    assert(all@[statement_count(input@, k) + j] == old_all[statement_count(input@, k) + j]);
                    assert(paths_view(old_all[statement_count(input@, k) + j]@) == normalize(
                        Some(normalize(None, p)[0]),
                        input@[k].1@[j],
                    ));
                }
                assert(forms_match(input@, all@, k, p));
            }
            assert forall|j: int| 0 <= j < input@[si].1@.len() implies paths_view(
                #[trigger] all@[statement_count(input@, si) + j]@,
            ) == normalize(Some(normalize(None, prefix)[0]), input@[si].1@[j]) by {
                assert(all@[statement_count(input@, si) + j] == fv[j]);
            }
            assert(forms_match(input@, all@, si, prefix));
            assert(section_forms(input@, all@, si));
        }
        s += 1;
    }
    Ok(all)
}

} // verus!
