use acord::eval_order::{import_plan, module_order, ModuleSource, UseDecl};

fn src(name: &str, root: bool) -> ModuleSource {
    ModuleSource { name: name.to_string(), text: String::new(), is_root: root }
}

fn uses(ms: &[&str]) -> Vec<UseDecl> {
    ms.iter()
        .map(|m| match m.split_once("::") {
            Some((a, b)) => UseDecl { module: a.to_string(), item: Some(b.to_string()) },
            None => UseDecl { module: m.to_string(), item: None },
        })
        .collect()
}

#[test]
fn dependencies_come_first_and_root_leads() {
    let sources = vec![src("a", false), src("b", false), src("top", true)];
    let decls = vec![uses(&["b"]), uses(&[]), uses(&[])];
    let (order, done) = module_order(&sources, &decls);
    assert_eq!(order, vec![2, 1, 0]);
    assert_eq!(done, 3);
}

#[test]
fn cycles_go_last_in_index_order() {
    let sources = vec![src("a", false), src("b", false), src("c", false)];
    let decls = vec![uses(&["b"]), uses(&["a"]), uses(&["missing"])];
    let (order, done) = module_order(&sources, &decls);
    assert_eq!(order, vec![2, 0, 1]);
    assert_eq!(done, 1);
}

#[test]
fn imports_follow_evaluation_order() {
    let sources = vec![src("top", true), src("calc", false), src("report", false)];
    let decls = vec![uses(&[]), uses(&[]), uses(&["calc::ramp", "calc::*", "nowhere"])];
    let order = vec![0usize, 1, 2];
    let plan = import_plan(&sources, &decls, &order);
    assert_eq!(plan.len(), 3);
    assert_eq!(plan[0].root, None);
    assert_eq!(plan[1].root, Some(0));
    assert!(plan[1].uses.is_empty());
    assert_eq!(plan[2].root, Some(0));
    assert_eq!(plan[2].uses, vec![(1, Some("ramp".to_string())), (1, None)]);
}

#[test]
fn use_of_a_module_not_yet_evaluated_is_dropped() {
    let sources = vec![src("a", false), src("b", false)];
    let decls = vec![uses(&["b"]), uses(&["a"])];
    let plan = import_plan(&sources, &decls, &[0, 1]);
    assert!(plan[0].uses.is_empty());
    assert_eq!(plan[1].uses, vec![(0, None)]);
    assert_eq!(plan[1].root, None);
}

#[test]
fn dependency_free_roots_go_first() {
    let sources = vec![src("a", false), src("b", false), src("r1", true), src("r2", true)];
    let decls = vec![uses(&[]), uses(&["a"]), uses(&[]), uses(&[])];
    let (order, placed) = module_order(&sources, &decls);
    assert_eq!(placed, 4);
    assert_eq!(order, vec![3, 2, 0, 1]);
}
