use pydep_mapper::graph::{
    add_containment_relationships, get_direct_parent_module, DependencyGraph, DependencyType,
};
use pydep_mapper::imports::{ModuleIdentifier, ModuleOrigin};

fn create_test_module_id(name: &str, origin: ModuleOrigin) -> ModuleIdentifier {
    ModuleIdentifier {
        origin,
        canonical_path: name.to_string(),
    }
}

#[test]
fn test_new_graph() {
    let graph = DependencyGraph::new();
    assert_eq!(graph.module_count(), 0);
    assert_eq!(graph.dependency_count(), 0);
}

#[test]
fn test_add_module() {
    let mut graph = DependencyGraph::new();
    let module_id = create_test_module_id("test.module", ModuleOrigin::Internal);
    graph.add_module(module_id.clone());
    assert_eq!(graph.module_count(), 1);
    let all_modules: Vec<_> = graph.all_modules().iter().collect();
    assert!(all_modules.iter().any(|m| m.canonical_path == "test.module"));
}

#[test]
fn test_module_counts() {
    let mut graph = DependencyGraph::new();
    graph.add_module(create_test_module_id("module1", ModuleOrigin::Internal));
    graph.add_module(create_test_module_id("module2", ModuleOrigin::Internal));
    graph.add_module(create_test_module_id("module3", ModuleOrigin::Internal));
    assert_eq!(graph.module_count(), 3);
    assert_eq!(graph.dependency_count(), 0);
}

#[test]
fn test_add_dependency() {
    let mut graph = DependencyGraph::new();
    let module1 = create_test_module_id("module1", ModuleOrigin::Internal);
    let module2 = create_test_module_id("module2", ModuleOrigin::Internal);
    graph.add_module(module1.clone());
    graph.add_module(module2.clone());
    let result = graph.add_dependency(&module1, &module2, DependencyType::Imports);
    assert!(result.is_ok());
    assert_eq!(graph.dependency_count(), 1);
}

#[test]
fn test_get_dependencies() {
    let mut graph = DependencyGraph::new();
    let main_id = create_test_module_id("main", ModuleOrigin::Internal);
    let utils_id = create_test_module_id("utils", ModuleOrigin::Internal);
    let config_id = create_test_module_id("config", ModuleOrigin::Internal);
    graph.add_module(main_id.clone());
    graph.add_module(utils_id.clone());
    graph.add_module(config_id.clone());
    graph.add_dependency(&main_id, &utils_id, DependencyType::Imports).unwrap();
    graph.add_dependency(&main_id, &config_id, DependencyType::Imports).unwrap();
    let deps = graph.get_dependencies(&main_id).unwrap();
    assert_eq!(deps.len(), 2);
    assert!(deps.contains(&"utils".to_string()));
    assert!(deps.contains(&"config".to_string()));
}

#[test]
fn test_get_dependents() {
    let mut graph = DependencyGraph::new();
    let utils_id = create_test_module_id("utils", ModuleOrigin::Internal);
    let main_id = create_test_module_id("main", ModuleOrigin::Internal);
    let tests_id = create_test_module_id("tests", ModuleOrigin::Internal);
    graph.add_module(utils_id.clone());
    graph.add_module(main_id.clone());
    graph.add_module(tests_id.clone());
    graph.add_dependency(&main_id, &utils_id, DependencyType::Imports).unwrap();
    graph.add_dependency(&tests_id, &utils_id, DependencyType::Imports).unwrap();
    let dependents = graph.get_dependents(&utils_id).unwrap();
    assert_eq!(dependents.len(), 2);
    assert!(dependents.contains(&"main".to_string()));
    assert!(dependents.contains(&"tests".to_string()));
}

#[test]
fn test_add_dependency_missing_modules() {
    let mut graph = DependencyGraph::new();
    let existing_id = create_test_module_id("existing", ModuleOrigin::Internal);
    let missing_id = create_test_module_id("missing", ModuleOrigin::Internal);
    graph.add_module(existing_id.clone());
    let result = graph.add_dependency(&existing_id, &missing_id, DependencyType::Imports);
    assert!(result.is_err());
    assert!(result.unwrap_err().message().contains("Module 'missing' not found"));
    let result2 = graph.add_dependency(&missing_id, &existing_id, DependencyType::Imports);
    assert!(result2.is_err());
    assert!(result2.unwrap_err().message().contains("Module 'missing' not found"));
}

#[test]
fn test_dependencies_of_nonexistent_module() {
    let graph = DependencyGraph::new();
    let nonexistent_id = create_test_module_id("nonexistent", ModuleOrigin::Internal);
    let result = graph.get_dependencies(&nonexistent_id);
    assert!(result.is_err());
    assert!(result.unwrap_err().message().contains("Module 'nonexistent' not found"));
}

#[test]
fn test_dependents_of_nonexistent_module() {
    let graph = DependencyGraph::new();
    let nonexistent_id = create_test_module_id("nonexistent", ModuleOrigin::Internal);
    let result = graph.get_dependents(&nonexistent_id);
    assert!(result.is_err());
    assert!(result.unwrap_err().message().contains("Module 'nonexistent' not found"));
}

#[test]
fn test_all_modules_iterator() {
    let mut graph = DependencyGraph::new();
    graph.add_module(create_test_module_id("module1", ModuleOrigin::Internal));
    graph.add_module(create_test_module_id("module2", ModuleOrigin::Internal));
    graph.add_module(create_test_module_id("module3", ModuleOrigin::Internal));
    let all_modules: Vec<&ModuleIdentifier> = graph.all_modules().iter().collect();
    assert_eq!(all_modules.len(), 3);
    let module_names: Vec<&str> = all_modules.iter().map(|m| m.canonical_path.as_str()).collect();
    assert!(module_names.contains(&"module1"));
    assert!(module_names.contains(&"module2"));
    assert!(module_names.contains(&"module3"));
}

#[test]
fn test_module_replacement() {
    let mut graph = DependencyGraph::new();
    let module_id = create_test_module_id("module1", ModuleOrigin::Internal);
    graph.add_module(module_id.clone());
    assert_eq!(graph.module_count(), 1);
    graph.add_module(module_id.clone());
    assert_eq!(graph.module_count(), 1);
}

#[test]
fn test_get_direct_parent_module() {
    assert_eq!(
        get_direct_parent_module("numpy.testing.utils"),
        Some("numpy.testing".to_string())
    );
    assert_eq!(get_direct_parent_module("numpy.testing"), Some("numpy".to_string()));
    assert_eq!(get_direct_parent_module("numpy"), None);
    assert_eq!(get_direct_parent_module(""), None);
    assert_eq!(get_direct_parent_module("single"), None);
}

#[test]
fn test_add_containment_relationships() {
    let mut graph = DependencyGraph::new();
    let numpy_id = create_test_module_id("numpy", ModuleOrigin::External);
    let numpy_testing_id = create_test_module_id("numpy.testing", ModuleOrigin::External);
    let numpy_testing_utils_id = create_test_module_id("numpy.testing.utils", ModuleOrigin::External);
    let scipy_id = create_test_module_id("scipy", ModuleOrigin::External);
    graph.add_module(numpy_id.clone());
    graph.add_module(numpy_testing_id.clone());
    graph.add_module(numpy_testing_utils_id.clone());
    graph.add_module(scipy_id.clone());
    assert_eq!(graph.module_count(), 4);
    assert_eq!(graph.dependency_count(), 0);
    add_containment_relationships(&mut graph).unwrap();
    assert_eq!(graph.module_count(), 4);
    assert_eq!(graph.dependency_count(), 4);
    let numpy_testing_deps = graph.get_dependencies_with_types(&numpy_testing_id).unwrap();
    assert_eq!(numpy_testing_deps.len(), 2);
    assert!(numpy_testing_deps.contains(&("numpy".to_string(), DependencyType::IncludedIn)));
    assert!(numpy_testing_deps.contains(&("numpy.testing.utils".to_string(), DependencyType::Contains)));
    let numpy_deps = graph.get_dependencies_with_types(&numpy_id).unwrap();
    assert_eq!(numpy_deps.len(), 1);
    assert!(numpy_deps.contains(&("numpy.testing".to_string(), DependencyType::Contains)));
    let numpy_testing_utils_deps = graph.get_dependencies_with_types(&numpy_testing_utils_id).unwrap();
    assert_eq!(numpy_testing_utils_deps.len(), 1);
    assert!(numpy_testing_utils_deps.contains(&("numpy.testing".to_string(), DependencyType::IncludedIn)));
    let scipy_deps = graph.get_dependencies_with_types(&scipy_id).unwrap();
    assert_eq!(scipy_deps.len(), 0);
}

#[test]
fn test_get_dependencies_with_types() {
    let mut graph = DependencyGraph::new();
    let module1 = create_test_module_id("module1", ModuleOrigin::Internal);
    let module2 = create_test_module_id("module2", ModuleOrigin::Internal);
    let module3 = create_test_module_id("module3", ModuleOrigin::Internal);
    graph.add_module(module1.clone());
    graph.add_module(module2.clone());
    graph.add_module(module3.clone());
    graph.add_dependency(&module1, &module2, DependencyType::Imports).unwrap();
    graph.add_dependency(&module1, &module3, DependencyType::Contains).unwrap();
    let deps = graph.get_dependencies_with_types(&module1).unwrap();
    assert_eq!(deps.len(), 2);
    assert!(deps.contains(&("module2".to_string(), DependencyType::Imports)));
    assert!(deps.contains(&("module3".to_string(), DependencyType::Contains)));
}

#[test]
fn distinct_modules_are_counted_once() {
    let mut graph = DependencyGraph::new();
    let a = create_test_module_id("pkg.a", ModuleOrigin::Internal);
    let a_external = create_test_module_id("pkg.a", ModuleOrigin::External);
    graph.add_module(a.clone());
    graph.add_module(a_external.clone());
    graph.add_module(a.clone());
    assert_eq!(graph.module_count(), 2);
}

#[test]
fn failed_dependency_leaves_edges_unchanged() {
    let mut graph = DependencyGraph::new();
    let a = create_test_module_id("a", ModuleOrigin::Internal);
    let b = create_test_module_id("b", ModuleOrigin::Internal);
    graph.add_module(a.clone());
    graph.add_module(b.clone());
    graph.add_dependency(&a, &b, DependencyType::Imports).unwrap();
    let ghost_module = create_test_module_id("ghost", ModuleOrigin::Internal);
    assert!(graph.add_dependency(&a, &ghost_module, DependencyType::Imports).is_err());
    assert!(graph.add_dependency(&ghost_module, &b, DependencyType::Imports).is_err());
    assert_eq!(graph.dependency_count(), 1);
}

#[test]
fn transitive_dependents_start_with_the_module_itself() {
    let mut graph = DependencyGraph::new();
    let pkg = create_test_module_id("pkg", ModuleOrigin::Internal);
    let sub = create_test_module_id("pkg.sub", ModuleOrigin::Internal);
    let user = create_test_module_id("app", ModuleOrigin::Internal);
    graph.add_module(pkg.clone());
    graph.add_module(sub.clone());
    graph.add_module(user.clone());
    add_containment_relationships(&mut graph).unwrap();
    graph.add_dependency(&user, &sub, DependencyType::Imports).unwrap();
    let dependents = graph.get_transitive_dependents_with_types(&pkg).unwrap();
    assert_eq!(dependents[0], ("pkg".to_string(), DependencyType::Is));
    assert!(dependents.contains(&("app".to_string(), DependencyType::Imports)));
    assert!(dependents.contains(&("pkg.sub".to_string(), DependencyType::IncludedIn)));
    let isolated = graph.get_transitive_dependents_with_types(&user).unwrap();
    assert_eq!(isolated, vec![("app".to_string(), DependencyType::Is)]);
}

#[test]
fn transitive_dependencies_fold_submodules() {
    let mut graph = DependencyGraph::new();
    let pkg = create_test_module_id("pkg", ModuleOrigin::Internal);
    let sub = create_test_module_id("pkg.sub", ModuleOrigin::Internal);
    let lib = create_test_module_id("lib", ModuleOrigin::External);
    graph.add_module(pkg.clone());
    graph.add_module(sub.clone());
    graph.add_module(lib.clone());
    add_containment_relationships(&mut graph).unwrap();
    graph.add_dependency(&sub, &lib, DependencyType::Imports).unwrap();
    graph.add_dependency(&pkg, &lib, DependencyType::Imports).unwrap();
    let deps = graph.get_transitive_dependencies_with_types(&pkg).unwrap();
    assert_eq!(deps, vec![("lib".to_string(), DependencyType::Imports), ("pkg".to_string(), DependencyType::IncludedIn)]);
}

#[test]
fn scenario_three_modules() {
    let mut graph = DependencyGraph::new();
    let a = create_test_module_id("a", ModuleOrigin::Internal);
    let b = create_test_module_id("b", ModuleOrigin::Internal);
    let c = create_test_module_id("c", ModuleOrigin::Internal);
    graph.add_module(a.clone());
    graph.add_module(b.clone());
    graph.add_module(c.clone());
    graph.add_dependency(&a, &b, DependencyType::Imports).unwrap();
    graph.add_dependency(&a, &c, DependencyType::Imports).unwrap();
    graph.add_dependency(&b, &c, DependencyType::Imports).unwrap();
    let mut dependents = graph.get_dependents(&c).unwrap();
    dependents.sort();
    assert_eq!(dependents, vec!["a".to_string(), "b".to_string()]);
    assert_eq!(graph.module_count(), 3);
    assert_eq!(graph.dependency_count(), 3);
}
