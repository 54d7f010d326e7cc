use arch_parser::arch::{combineArcHs, markAsSingleChild, ArcH, Fish, OriginalArcHForm, Vertex};

fn v(s: &[&str]) -> Vertex {
    Vertex(s.iter().map(|x| x.to_string()).collect())
}

fn path(es: &[(&[&str], &str)], last: &[&str]) -> OriginalArcHForm {
    OriginalArcHForm {
        vf_pairs: es.iter().map(|(a, f)| (v(a), Fish(f.to_string()))).collect(),
        last_point: v(last),
        executable_expression: String::new(),
    }
}

fn flat(r: &OriginalArcHForm) -> (Vec<(Vec<String>, String)>, Vec<String>) {
    (
        r.vf_pairs.iter().map(|(a, f)| (a.0.clone(), f.0.clone())).collect(),
        r.last_point.0.clone(),
    )
}

#[test]
fn no_left_side_returns_the_right() {
    let r = combineArcHs(None, path(&[(&["Q"], "y")], &["Z"]));
    assert_eq!(flat(&r), flat(&path(&[(&["Q"], "y")], &["Z"])));
}

#[test]
fn sentinel_terminal_concatenates() {
    let x = path(&[(&["P"], "x")], &[""]);
    let y = path(&[(&["Q"], "y")], &["Z"]);
    let r = combineArcHs(Some(x), y);
    assert_eq!(flat(&r), flat(&path(&[(&["P"], "x"), (&["Q"], "y")], &["Z"])));
}

#[test]
fn sentinel_source_continues_the_left_terminal() {
    let x = path(&[(&["P"], "x")], &["M"]);
    let y = path(&[(&["", "ignored"], "y"), (&["Q"], "z")], &["Z"]);
    let r = combineArcHs(Some(x), y);
    assert_eq!(
        flat(&r),
        flat(&path(&[(&["P"], "x"), (&["M"], "y"), (&["Q"], "z")], &["Z"]))
    );
}

#[test]
fn default_join_bridges_with_an_empty_tag() {
    let x = path(&[(&["P"], "x")], &["M"]);
    let y = path(&[(&["Q"], "y")], &["Z"]);
    let r = combineArcHs(Some(x), y);
    assert_eq!(
        flat(&r),
        flat(&path(&[(&["P"], "x"), (&["M"], ""), (&["Q"], "y")], &["Z"]))
    );
    let r = combineArcHs(Some(path(&[], &["M"])), path(&[], &["Z"]));
    assert_eq!(flat(&r), flat(&path(&[(&["M"], "")], &["Z"])));
}

#[test]
fn marking_sets_the_flag() {
    let leaf = ArcH::Single { is_single_child: false, vertex: v(&["A"]) };
    assert!(!leaf.is_single_child());
    let marked = markAsSingleChild(leaf);
    assert!(marked.is_single_child());
    match marked {
        ArcH::Single { vertex, .. } => assert_eq!(vertex.0, vec!["A".to_string()]),
        other => panic!("unexpected {:?}", other),
    }
    let lit = markAsSingleChild(ArcH::EvalStatement { expression: "x".to_string() });
    assert!(lit.is_single_child());
}
