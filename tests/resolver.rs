use modulers::module::ModuleBrief;
use modulers::resolve::{resolve_dependency_tree, ResolveError};

fn module(name: &str, provides: &[&str], references: &[&str]) -> ModuleBrief {
    ModuleBrief {
        name: name.to_string(),
        path: format!("/lib/modules/{}.ko", name),
        provides_symbols: provides.iter().map(|s| s.to_string()).collect(),
        references_symbols: references.iter().map(|s| s.to_string()).collect(),
    }
}

fn names(order: &[ModuleBrief]) -> Vec<&str> {
    order.iter().map(|m| m.name.as_str()).collect()
}

fn respects_references(all: &[ModuleBrief], order: &[ModuleBrief]) -> bool {
    order.iter().enumerate().all(|(p, m)| {
        all.iter()
            .filter(|d| d.name != m.name && m.references_symbols.iter().any(|s| d.provides_symbols.contains(s)))
            .all(|d| order[..p].iter().any(|e| e.name == d.name))
    })
}

fn diamond() -> Vec<ModuleBrief> {
    vec![
        module("a", &["a_fn"], &["b_fn", "c_fn"]),
        module("b", &["b_fn"], &["d_fn"]),
        module("c", &["c_fn"], &["d_fn", "printk"]),
        module("d", &["d_fn"], &["printk"]),
        module("vmlinux", &["printk"], &[]),
    ]
}

#[test]
fn diamond_resolves_in_post_order() {
    let all = diamond();
    let order = resolve_dependency_tree(all.clone(), "a".to_string()).unwrap();
    assert_eq!(names(&order), vec!["vmlinux", "d", "b", "c", "a"]);
    assert_eq!(order[4].path, "/lib/modules/a.ko");
}

#[test]
fn diamond_shared_dependency_once() {
    let order = resolve_dependency_tree(diamond(), "a".to_string()).unwrap();
    assert_eq!(names(&order).iter().filter(|n| **n == "d").count(), 1);
}

#[test]
fn resolved_order_respects_references() {
    let all = diamond();
    for target in ["a", "b", "c", "d", "vmlinux"] {
        let order = resolve_dependency_tree(all.clone(), target.to_string()).unwrap();
        assert!(respects_references(&all, &order));
        assert_eq!(order.last().unwrap().name, target);
    }
}

#[test]
fn resolution_is_deterministic() {
    let all = diamond();
    let first = resolve_dependency_tree(all.clone(), "a".to_string()).unwrap();
    let second = resolve_dependency_tree(all, "a".to_string()).unwrap();
    assert_eq!(names(&first), names(&second));
}

#[test]
fn missing_target_is_not_found() {
    let r = resolve_dependency_tree(diamond(), "wireguard".to_string());
    assert_eq!(r.err(), Some(ResolveError::NotFound("wireguard".to_string())));
    let r = resolve_dependency_tree(Vec::new(), "a".to_string());
    assert_eq!(r.err(), Some(ResolveError::NotFound("a".to_string())));
}

#[test]
fn mutual_references_are_a_cycle() {
    let all = vec![module("a", &["a_fn"], &["b_fn"]), module("b", &["b_fn"], &["a_fn"])];
    let r = resolve_dependency_tree(all, "a".to_string());
    assert_eq!(r.err(), Some(ResolveError::CycleDetected("a".to_string())));
}

#[test]
fn longer_cycle_is_detected() {
    let all = vec![
        module("a", &["a_fn"], &["b_fn"]),
        module("b", &["b_fn"], &["c_fn"]),
        module("c", &["c_fn"], &["b_fn"]),
    ];
    let r = resolve_dependency_tree(all, "a".to_string());
    assert_eq!(r.err(), Some(ResolveError::CycleDetected("b".to_string())));
}

#[test]
fn self_satisfied_reference_is_no_dependency() {
    let all = vec![module("a", &["a_fn"], &["a_fn", "b_fn"]), module("b", &["b_fn"], &[])];
    let order = resolve_dependency_tree(all, "a".to_string()).unwrap();
    assert_eq!(names(&order), vec!["b", "a"]);
}

#[test]
fn first_record_of_a_name_is_authoritative() {
    let mut second_b = module("b", &["x_fn"], &["c_fn"]);
    second_b.path = "/other/b.ko".to_string();
    let all = vec![
        module("a", &["a_fn"], &["x_fn"]),
        module("b", &["b_fn"], &[]),
        second_b,
        module("c", &["c_fn"], &[]),
    ];
    let order = resolve_dependency_tree(all, "a".to_string()).unwrap();
    assert_eq!(names(&order), vec!["b", "a"]);
    assert_eq!(order[0].path, "/lib/modules/b.ko");
}

#[test]
fn module_without_references_stands_alone() {
    let order = resolve_dependency_tree(diamond(), "vmlinux".to_string()).unwrap();
    assert_eq!(names(&order), vec!["vmlinux"]);
}
