use arch_parser::arch::{convertToOriginalForm, ArcH, OriginalArcHForm};
use arch_parser::parser::{collect_inputs, parse_arch, parse_input, parse_inputs, ParseError};
use arch_parser::text::{count_leading_spaces, parse_fish, parse_vertex, split_vertex_and_fish};

fn lines(ls: &[&str]) -> Vec<String> {
    ls.iter().map(|l| l.to_string()).collect()
}

fn seg(v: &[&str]) -> Vec<String> {
    v.iter().map(|s| s.to_string()).collect()
}

fn edges(r: &OriginalArcHForm) -> Vec<(Vec<String>, String)> {
    r.vf_pairs.iter().map(|(v, f)| (v.0.clone(), f.0.clone())).collect()
}

fn normalize_text(ls: &[&str]) -> Vec<OriginalArcHForm> {
    let (tree, _) = parse_arch(&lines(ls), 0, 0).unwrap();
    convertToOriginalForm(None, tree)
}

#[test]
fn chain_line_normalizes_to_one_path() {
    let out = normalize_text(&["A ><f> B ><g> C"]);
    assert_eq!(out.len(), 1);
    assert_eq!(
        edges(&out[0]),
        vec![(seg(&["A"]), "f".to_string()), (seg(&["B"]), "g".to_string())]
    );
    assert_eq!(out[0].last_point.0, seg(&["C"]));
}

#[test]
fn single_label_is_a_leaf() {
    let out = normalize_text(&["UI::App"]);
    assert_eq!(out.len(), 1);
    assert!(out[0].vf_pairs.is_empty());
    assert_eq!(out[0].last_point.0, seg(&["UI", "App"]));
}

#[test]
fn branches_give_one_path_each() {
    let out = normalize_text(&["Root", "  - A", "  - B", "  - C"]);
    assert_eq!(out.len(), 3);
    for (r, name) in out.iter().zip(["A", "B", "C"]) {
        assert_eq!(edges(r), vec![(seg(&["Root"]), String::new())]);
        assert_eq!(r.last_point.0, seg(&[name]));
    }
}

#[test]
fn merge_then_branch_gives_one_path() {
    let out = normalize_text(&["Root", "  M", "  - B"]);
    assert_eq!(out.len(), 1);
    assert_eq!(
        edges(&out[0]),
        vec![(seg(&["Root"]), String::new()), (seg(&["M"]), String::new())]
    );
    assert_eq!(out[0].last_point.0, seg(&["B"]));
}

#[test]
fn merge_after_branches_extends_each() {
    let out = normalize_text(&["Root", "  - A", "  - B", "  M ><to> N"]);
    assert_eq!(out.len(), 2);
    assert_eq!(
        edges(&out[0]),
        vec![
            (seg(&["Root"]), String::new()),
            (seg(&["A"]), String::new()),
            (seg(&["M"]), "to".to_string())
        ]
    );
    assert_eq!(out[0].last_point.0, seg(&["N"]));
    assert_eq!(edges(&out[1])[1], (seg(&["B"]), String::new()));
    assert_eq!(out[1].last_point.0, seg(&["N"]));
}

#[test]
fn all_merges_keep_the_prefix_path() {
    let out = normalize_text(&["Root", "  M"]);
    assert_eq!(out.len(), 1);
    assert_eq!(edges(&out[0]), vec![(seg(&["Root"]), String::new())]);
    assert_eq!(out[0].last_point.0, seg(&["M"]));
}

#[test]
fn literal_line_is_opaque() {
    let (tree, next) = parse_arch(&lines(&["EVAL: 1+1"]), 0, 0).unwrap();
    assert_eq!(next, 1);
    match &tree {
        ArcH::EvalStatement { expression } => assert_eq!(expression, "1+1"),
        other => panic!("unexpected {:?}", other),
    }
    let prefix = normalize_text(&["P ><x> Q"]).remove(0);
    let out = convertToOriginalForm(Some(prefix), tree);
    assert_eq!(out.len(), 1);
    assert_eq!(out[0].executable_expression, "1+1");
    assert!(out[0].vf_pairs.is_empty());
    assert!(out[0].last_point.0.is_empty());
}

#[test]
fn wrong_indentation_is_rejected() {
    let r = parse_arch(&lines(&["  A"]), 0, 0);
    assert!(matches!(r, Err(ParseError::IndentationMismatch)));
    let r = parse_arch(&lines(&["A"]), 1, 0);
    assert!(matches!(r, Err(ParseError::IndentationMismatch)));
    let r = parse_input(lines(&["Root", "    Deep"]));
    assert!(matches!(r, Err(ParseError::IndentationMismatch)));
}

#[test]
fn past_the_end_is_an_error() {
    let r = parse_arch(&lines(&["A"]), 0, 1);
    assert!(matches!(r, Err(ParseError::UnexpectedEndOfInput)));
}

#[test]
fn fenced_block_is_one_label() {
    let (tree, next) = parse_arch(&lines(&["```", "line one", "line two", "```"]), 0, 0).unwrap();
    assert_eq!(next, 4);
    match &tree {
        ArcH::Single { vertex, is_single_child } => {
            assert!(!is_single_child);
            assert_eq!(vertex.0, seg(&["\nline one\nline two"]));
        }
        other => panic!("unexpected {:?}", other),
    }
}

#[test]
fn escaped_label_may_hold_the_tag_marker() {
    let (label, rest) = split_vertex_and_fish("$(a ><b) ><f> C");
    assert_eq!(label, "a ><b");
    assert_eq!(rest, "><f> C");
    let out = normalize_text(&["$(a ><b) ><f> C"]);
    assert_eq!(edges(&out[0]), vec![(seg(&["a ><b"]), "f".to_string())]);
    assert_eq!(out[0].last_point.0, seg(&["C"]));
}

#[test]
fn plain_split_and_labels() {
    let (label, rest) = split_vertex_and_fish("  UI :: App ><renders> List ");
    assert_eq!(label, "UI :: App");
    assert_eq!(rest, "><renders> List");
    assert_eq!(parse_vertex(" UI :: App ").0, seg(&["UI", "App"]));
    assert_eq!(parse_vertex("a:::b").0, seg(&["a", ":b"]));
    let (label, rest) = split_vertex_and_fish("Lonely");
    assert_eq!(label, "Lonely");
    assert_eq!(rest, "");
}

#[test]
fn tags_and_their_errors() {
    let (f, rest) = parse_fish(" >< go > B ><h> C").unwrap();
    assert_eq!(f.0, "go");
    assert_eq!(rest, "B ><h> C");
    assert!(matches!(parse_fish("go> B"), Err(ParseError::InvalidSyntax(_))));
    assert!(matches!(parse_fish("><go B"), Err(ParseError::InvalidSyntax(_))));
    let r = parse_arch(&lines(&["A ><go B"]), 0, 0);
    assert!(matches!(r, Err(ParseError::InvalidSyntax(_))));
}

#[test]
fn leading_spaces_are_counted() {
    assert_eq!(count_leading_spaces("    - x"), 4);
    assert_eq!(count_leading_spaces("x  "), 0);
    assert_eq!(count_leading_spaces(""), 0);
}

#[test]
fn statements_skip_comments_and_stop_at_end_marker() {
    let trees = parse_input(lines(&["", "## note", "A", "", "B ><f> C", "<|-endoftext-|>", "D"]))
        .unwrap();
    assert_eq!(trees.len(), 2);
    assert!(parse_input(lines(&["", "## only"])).unwrap().is_empty());
}

#[test]
fn sections_join_their_name_as_prefix() {
    let sections = parse_inputs("[S]\nA ><f> B\n\n[T]\nC\n").unwrap();
    assert_eq!(sections.len(), 2);
    assert_eq!(sections[0].0, "S");
    assert_eq!(sections[1].0, "T");
    let all = collect_inputs(&sections).unwrap();
    assert_eq!(all.len(), 2);
    assert_eq!(
        edges(&all[0][0]),
        vec![(seg(&["S"]), String::new()), (seg(&["A"]), "f".to_string())]
    );
    assert_eq!(all[0][0].last_point.0, seg(&["B"]));
    assert_eq!(edges(&all[1][0]), vec![(seg(&["T"]), String::new())]);
    assert_eq!(all[1][0].last_point.0, seg(&["C"]));
}

#[test]
fn unnamed_section_adds_nothing() {
    let sections = parse_inputs("A ><f> B\n").unwrap();
    assert_eq!(sections.len(), 1);
    assert_eq!(sections[0].0, "");
    let all = collect_inputs(&sections).unwrap();
    assert_eq!(edges(&all[0][0]), vec![(seg(&["A"]), "f".to_string())]);
    assert_eq!(all[0][0].last_point.0, seg(&["B"]));
}

#[test]
fn nested_children_in_a_section() {
    let sections = parse_inputs("[App]\nRoot\n  - A\n    X ><y> Z\n  - B\n").unwrap();
    let all = collect_inputs(&sections).unwrap();
    assert_eq!(all.len(), 1);
    assert_eq!(all[0].len(), 2);
    assert_eq!(all[0][0].last_point.0, seg(&["Z"]));
    assert_eq!(all[0][1].last_point.0, seg(&["B"]));
}

#[test]
fn long_chain_keeps_every_edge_in_order() {
    let out = normalize_text(&["A ><1> B ><2> C ><3> D ><4> E"]);
    assert_eq!(out.len(), 1);
    assert_eq!(
        edges(&out[0]),
        vec![
            (seg(&["A"]), "1".to_string()),
            (seg(&["B"]), "2".to_string()),
            (seg(&["C"]), "3".to_string()),
            (seg(&["D"]), "4".to_string())
        ]
    );
    assert_eq!(out[0].last_point.0, seg(&["E"]));
    assert_eq!(out[0].executable_expression, "");
}

#[test]
fn fenced_block_keeps_text_verbatim() {
    let (tree, next) = parse_arch(&lines(&["```", "  a :: b ", "```", "C"]), 0, 0).unwrap();
    assert_eq!(next, 3);
    match &tree {
        ArcH::Single { vertex, .. } => assert_eq!(vertex.0, seg(&["\n  a :: b "])),
        other => panic!("unexpected {:?}", other),
    }
}

#[test]
fn section_key_joins_a_leaf_statement() {
    let sections = vec![(
        "s".to_string(),
        vec![ArcH::Single { is_single_child: false, vertex: arch_parser::arch::Vertex(seg(&["B"])) }],
    )];
    let all = collect_inputs(&sections).unwrap();
    assert_eq!(all.len(), 1);
    assert_eq!(all[0].len(), 1);
    assert_eq!(edges(&all[0][0]), vec![(seg(&["s"]), String::new())]);
    assert_eq!(all[0][0].last_point.0, seg(&["B"]));
    assert_eq!(all[0][0].executable_expression, "");
}

#[test]
fn empty_key_adds_nothing() {
    let (a, _) = parse_arch(&lines(&["Root ><go> X"]), 0, 0).unwrap();
    let expected = convertToOriginalForm(None, a.clone());
    let all = collect_inputs(&vec![(String::new(), vec![a])]).unwrap();
    assert_eq!(all.len(), 1);
    assert_eq!(all[0].len(), expected.len());
    assert_eq!(edges(&all[0][0]), edges(&expected[0]));
    assert_eq!(all[0][0].last_point, expected[0].last_point);
}

#[test]
fn trees_copy_and_compare() {
    let (a, _) = parse_arch(&lines(&["Root", "  - A ><x> B", "  M"]), 0, 0).unwrap();
    let b = a.clone();
    assert_eq!(a, b);
    let (c, _) = parse_arch(&lines(&["Root", "  - A ><y> B", "  M"]), 0, 0).unwrap();
    assert_ne!(a, c);
}

#[test]
fn unicode_whitespace_is_trimmed() {
    assert_eq!(parse_vertex("\u{3000}a\u{a0}:: b\t").0, seg(&["a", "b"]));
    let (label, rest) = split_vertex_and_fish("\u{2003}X\u{2003}><t>\u{85}Y");
    assert_eq!(label, "X");
    assert_eq!(rest, "><t>\u{85}Y");
}

#[test]
fn crlf_lines_split_like_lf() {
    let sections = parse_inputs("[S]\r\nA ><f> B\r\n\r\n[T]\r\nC").unwrap();
    assert_eq!(sections.len(), 2);
    assert_eq!(sections[0].0, "S");
    assert_eq!(sections[0].1.len(), 1);
    assert_eq!(sections[1].0, "T");
    assert_eq!(sections[1].1.len(), 1);
}
