use pydep_mapper::changeset::{analyze_changeset, assess_risk_level, generate_test_order, ChangesetModule, ChangesetScope, RiskLevel};
use pydep_mapper::common::{filter_hierarchical, find_common_prefix_length, format_segment};
use pydep_mapper::cycles::{detect_cycles, format_text_grouped as format_cycles, normalize_cycle, Cycle, CycleResult};
use pydep_mapper::dependencies::{analyze_dependencies, format_text as format_dependencies, DependencyAnalysisResult};
use pydep_mapper::diagnose::{pressure_levels, quantile_indices, top_cycles, truncate_string};
use pydep_mapper::external::{
    next_index_step, IndexResponse, IndexStep, analyze_dependency_gaps, analyze_external_dependencies, extract_root_package_name, DependencyUsage,
    PackageImportMapping,
};
use pydep_mapper::graph::{add_containment_relationships, DependencyGraph, DependencyType};
use pydep_mapper::impact::{analyze_impact, format_text as format_impact, ImpactAnalysisResult};
use pydep_mapper::imports::{ModuleIdentifier, ModuleOrigin};
use pydep_mapper::instability::{coupling_scores, instability_ratio};
use pydep_mapper::pressure::analyze_pressure;

fn module(name: &str, origin: ModuleOrigin) -> ModuleIdentifier {
    ModuleIdentifier { origin, canonical_path: name.to_string() }
}

fn imports(pairs: &[(&str, &str)], names: &[&str]) -> DependencyGraph {
    let mut graph = DependencyGraph::new();
    for n in names {
        graph.add_module(module(n, ModuleOrigin::Internal));
    }
    for (a, b) in pairs {
        graph
            .add_dependency(&module(a, ModuleOrigin::Internal), &module(b, ModuleOrigin::Internal), DependencyType::Imports)
            .unwrap();
    }
    graph
}

#[test]
fn test_impact_analyzer_basic() {
    let mut graph = DependencyGraph::new();
    let main = module("main", ModuleOrigin::Internal);
    let utils = module("utils", ModuleOrigin::Internal);
    let tests = module("tests.test_utils", ModuleOrigin::Internal);
    graph.add_module(main.clone());
    graph.add_module(utils.clone());
    graph.add_module(tests.clone());
    graph.add_dependency(&main, &utils, DependencyType::Imports).unwrap();
    graph.add_dependency(&tests, &utils, DependencyType::Imports).unwrap();
    let result = analyze_impact(&graph, "utils").unwrap();
    assert_eq!(result.target_module, "utils");
    assert_eq!(result.affected_modules.len(), 3);
    assert_eq!(result.total_affected_count, 3);
    let affected_names: Vec<&String> = result.affected_modules.iter().map(|(name, _, _)| name).collect();
    assert!(affected_names.contains(&&"utils".to_string()));
    assert!(affected_names.contains(&&"main".to_string()));
    assert!(affected_names.contains(&&"tests.test_utils".to_string()));
}

#[test]
fn impact_test_format_text() {
    let result = ImpactAnalysisResult {
        target_module: "utils".to_string(),
        affected_modules: vec![
            ("main".to_string(), DependencyType::Imports, 1),
            ("api".to_string(), DependencyType::Imports, 3),
        ],
        total_affected_count: 4,
    };
    let formatted = format_impact(&result);
    assert!(formatted.contains("Modules depending on 'utils':"));
    assert!(formatted.contains("main"));
    assert!(formatted.contains("(3 submodules) api"));
    assert!(formatted.contains("Total: 4 modules impacted by utils"));
}

#[test]
fn impact_promotes_fully_affected_packages() {
    let mut graph = DependencyGraph::new();
    for n in ["pkg", "pkg.a", "pkg.b", "app"] {
        graph.add_module(module(n, ModuleOrigin::Internal));
    }
    add_containment_relationships(&mut graph).unwrap();
    graph.add_dependency(&module("pkg.a", ModuleOrigin::Internal), &module("pkg.b", ModuleOrigin::Internal), DependencyType::Imports).unwrap();
    graph.add_dependency(&module("app", ModuleOrigin::Internal), &module("pkg.b", ModuleOrigin::Internal), DependencyType::Imports).unwrap();
    let result = analyze_impact(&graph, "pkg.b").unwrap();
    let names: Vec<&str> = result.affected_modules.iter().map(|(n, _, _)| n.as_str()).collect();
    assert_eq!(names, vec!["app", "pkg"]);
    assert!(analyze_impact(&graph, "missing").is_err());
}

#[test]
fn test_dependencies_analyzer_basic() {
    let mut graph = DependencyGraph::new();
    let main = module("main", ModuleOrigin::Internal);
    let utils = module("utils", ModuleOrigin::Internal);
    let numpy = module("numpy", ModuleOrigin::External);
    let pandas = module("pandas", ModuleOrigin::External);
    graph.add_module(main.clone());
    graph.add_module(utils.clone());
    graph.add_module(numpy.clone());
    graph.add_module(pandas.clone());
    graph.add_dependency(&main, &utils, DependencyType::Imports).unwrap();
    graph.add_dependency(&main, &numpy, DependencyType::Imports).unwrap();
    graph.add_dependency(&main, &pandas, DependencyType::Imports).unwrap();
    let result = analyze_dependencies(&graph, "main").unwrap();
    assert_eq!(result.target_module, "main");
    assert_eq!(result.external_dependencies.len(), 2);
    assert_eq!(result.internal_dependencies.len(), 1);
    assert_eq!(result.total_dependency_count, 3);
    assert!(result.external_dependencies.contains(&"numpy".to_string()));
    assert!(result.external_dependencies.contains(&"pandas".to_string()));
    let internal_names: Vec<&String> = result.internal_dependencies.iter().map(|(name, _, _)| name).collect();
    assert!(internal_names.contains(&&"utils".to_string()));
}

#[test]
fn dependencies_test_format_text() {
    let result = DependencyAnalysisResult {
        target_module: "main".to_string(),
        external_dependencies: vec!["numpy".to_string(), "pandas".to_string()],
        internal_dependencies: vec![
            ("utils".to_string(), DependencyType::Imports, 1),
            ("api".to_string(), DependencyType::Imports, 3),
        ],
        total_dependency_count: 4,
    };
    let formatted = format_dependencies(&result);
    assert!(formatted.contains("Dependencies of 'main':"));
    assert!(formatted.contains("External packages:"));
    assert!(formatted.contains("numpy"));
    assert!(formatted.contains("pandas"));
    assert!(formatted.contains("Internal modules:"));
    assert!(formatted.contains("utils"));
    assert!(formatted.contains("(3 submodules) api"));
    assert!(formatted.contains("Total: 4 dependencies (2 external, 2 internal)"));
}

#[test]
fn test_no_dependencies() {
    let result = DependencyAnalysisResult {
        target_module: "isolated".to_string(),
        external_dependencies: vec![],
        internal_dependencies: vec![],
        total_dependency_count: 0,
    };
    let formatted = format_dependencies(&result);
    assert!(formatted.contains("Dependencies of 'isolated':"));
    assert!(formatted.contains("(no dependencies found)"));
    assert!(formatted.contains("Total: 0 dependencies (0 external, 0 internal)"));
}

#[test]
fn collapse_scenario_single_root() {
    let input = vec![
        ("pkg.a".to_string(), DependencyType::Imports),
        ("pkg.b".to_string(), DependencyType::Imports),
        ("pkg".to_string(), DependencyType::Imports),
    ];
    assert_eq!(filter_hierarchical(input), vec![("pkg".to_string(), DependencyType::Imports, 3)]);
}

#[test]
fn collapse_keeps_first_type_and_counts_distinct_paths() {
    let input = vec![
        ("b.x".to_string(), DependencyType::IncludedIn),
        ("a".to_string(), DependencyType::Imports),
        ("b.x".to_string(), DependencyType::Imports),
        ("b".to_string(), DependencyType::Imports),
        ("ab".to_string(), DependencyType::Imports),
        ("b.x.y".to_string(), DependencyType::Imports),
    ];
    let out = filter_hierarchical(input);
    assert_eq!(
        out,
        vec![
            ("a".to_string(), DependencyType::Imports, 1),
            ("ab".to_string(), DependencyType::Imports, 1),
            ("b".to_string(), DependencyType::Imports, 3),
        ]
    );
    let total: usize = out.iter().map(|e| e.2).sum();
    assert_eq!(total, 5);
    assert!(filter_hierarchical(vec![]).is_empty());
}

#[test]
fn cycle_scenario_two_modules() {
    let graph = imports(&[("a", "b"), ("b", "a")], &["a", "b"]);
    let result = detect_cycles(&graph).unwrap();
    assert_eq!(result.cycle_count(), 1);
    assert_eq!(result.cycles[0].format_cycle(), "a → b → a");
}

#[test]
fn cycles_are_canonical_whatever_the_entry_point() {
    let mut x = vec!["c".to_string(), "a".to_string(), "b".to_string()];
    let mut y = vec!["a".to_string(), "b".to_string(), "c".to_string()];
    let mut z = vec!["b".to_string(), "c".to_string(), "a".to_string()];
    normalize_cycle(&mut x);
    normalize_cycle(&mut y);
    normalize_cycle(&mut z);
    assert_eq!(x, y);
    assert_eq!(y, z);
    assert_eq!(x, vec!["a".to_string(), "b".to_string(), "c".to_string()]);
    let mut back = vec!["a".to_string(), "c".to_string(), "b".to_string()];
    normalize_cycle(&mut back);
    assert_eq!(back, vec!["a".to_string(), "b".to_string(), "c".to_string()]);
}

#[test]
fn no_cycles_in_a_chain() {
    let graph = imports(&[("a", "b"), ("b", "c")], &["a", "b", "c"]);
    let result = detect_cycles(&graph).unwrap();
    assert_eq!(result.cycle_count(), 0);
    assert_eq!(format_cycles(&result), "No circular dependencies found.\n");
    let listed = format_cycles(&CycleResult::new(vec![Cycle::new(vec!["a".to_string(), "b".to_string()])]));
    assert_eq!(listed, "Circular dependencies found:\nCycle 1: a → b → a\nTotal: 1 cycle\n");
}

#[test]
fn instability_scenario() {
    let (num, den) = instability_ratio(1, 3);
    assert_eq!(num as f64 / den as f64, 0.75);
    assert_eq!(instability_ratio(0, 0), (0, 1));
    let graph = imports(&[("x", "a"), ("x", "b"), ("x", "c"), ("y", "x")], &["x", "a", "b", "c", "y"]);
    let scores = coupling_scores(&graph).unwrap();
    let x = scores.iter().find(|s| s.0 == "x").unwrap();
    assert_eq!((x.1, x.2), (1, 3));
    assert_eq!(scores[0].0, "y");
    for (_, ca, ce) in &scores {
        let (n, d) = instability_ratio(*ca, *ce);
        assert!(n <= d);
    }
}

#[test]
fn changeset_scenario_high_risk() {
    let mut names: Vec<String> = (0..12).map(|i| format!("user{}", i)).collect();
    names.push("core".to_string());
    let refs: Vec<&str> = names.iter().map(|s| s.as_str()).collect();
    let pairs: Vec<(&str, &str)> = (0..12).map(|i| (refs[i], "core")).collect();
    let graph = imports(&pairs, &refs);
    let result = analyze_changeset(&graph, "core", ChangesetScope::Both).unwrap();
    assert_eq!(result.affected_modules.len(), 12);
    assert_eq!(result.total_affected, 12);
    assert_eq!(assess_risk_level(12, 0), RiskLevel::High);
    let (_, deps) = (0, result.dependency_modules.len());
    assert_eq!(deps, 0);
    assert_eq!(result.test_order[0], "core");
    assert_eq!(result.test_order.len(), 13);
    assert_eq!(assess_risk_level(2, 0), RiskLevel::Low);
    assert_eq!(assess_risk_level(3, 0), RiskLevel::Medium);
    assert_eq!(assess_risk_level(51, 0), RiskLevel::Critical);
}

#[test]
fn changeset_scores_by_dependents() {
    let graph = imports(&[("a", "t"), ("b", "t"), ("c", "t"), ("t", "d"), ("a", "d")], &["a", "b", "c", "t", "d"]);
    let result = analyze_changeset(&graph, "t", ChangesetScope::Both).unwrap();
    let t = result.dependency_modules.iter().find(|m| m.module_name == "d").unwrap();
    assert_eq!(t.dependent_count, 2);
    assert_eq!(t.dependency_depth, 1);
    assert_eq!(result.test_order, vec!["d", "t", "a", "b", "c"]);
    assert!(analyze_changeset(&graph, "zzz", ChangesetScope::Both).is_err());
    assert_eq!(ChangesetScope::from_str("AFFECTED"), ChangesetScope::Affected);
    assert_eq!(ChangesetScope::from_str("dependencies"), ChangesetScope::Dependencies);
    assert_eq!(ChangesetScope::from_str("what"), ChangesetScope::Both);
}

#[test]
fn test_order_removes_repeats() {
    let m = |n: &str, r: RiskLevel, depth: usize| ChangesetModule {
        module_name: n.to_string(),
        risk_level: r,
        dependent_count: 0,
        dependency_depth: depth,
        is_external: false,
    };
    let deps = vec![m("x", RiskLevel::Low, 1), m("y", RiskLevel::High, 1)];
    let affected = vec![m("z", RiskLevel::Low, 0), m("y", RiskLevel::Low, 0)];
    assert_eq!(generate_test_order(&affected, &deps, "t"), vec!["y", "x", "t", "z"]);
}

#[test]
fn pressure_lists_widely_used_modules() {
    let graph = imports(&[("a", "c"), ("b", "c"), ("a", "b")], &["a", "b", "c"]);
    let result = analyze_pressure(&graph).unwrap();
    assert_eq!(result.pressure_modules, vec![("c".to_string(), 3), ("b".to_string(), 2)]);
    assert_eq!(pressure_levels(&vec![("x".to_string(), 11), ("y".to_string(), 60)]), (2, 1, 0));
}

#[test]
fn test_extract_root_package_name() {
    assert_eq!(extract_root_package_name("numpy"), "numpy");
    assert_eq!(extract_root_package_name("numpy.testing"), "numpy");
    assert_eq!(extract_root_package_name("numpy.testing.utils"), "numpy");
    assert_eq!(extract_root_package_name("scipy.stats"), "scipy");
}

#[test]
fn test_stdlib_modules_filtered_out() {
    let mut graph = DependencyGraph::new();
    let internal1 = module("myapp.main", ModuleOrigin::Internal);
    let numpy_id = module("numpy", ModuleOrigin::External);
    let sys_id = module("sys", ModuleOrigin::External);
    let os_id = module("os", ModuleOrigin::External);
    let json_id = module("json", ModuleOrigin::External);
    graph.add_module(internal1.clone());
    graph.add_module(numpy_id.clone());
    graph.add_module(sys_id.clone());
    graph.add_module(os_id.clone());
    graph.add_module(json_id.clone());
    graph.add_dependency(&internal1, &numpy_id, DependencyType::Imports).unwrap();
    graph.add_dependency(&internal1, &sys_id, DependencyType::Imports).unwrap();
    graph.add_dependency(&internal1, &os_id, DependencyType::Imports).unwrap();
    graph.add_dependency(&internal1, &json_id, DependencyType::Imports).unwrap();
    let stdlib = vec!["sys".to_string(), "os".to_string(), "json".to_string()];
    let mapping = PackageImportMapping::new(vec![]);
    let result = analyze_external_dependencies(&graph, &[], &[], &stdlib, &mapping).unwrap();
    assert_eq!(result.summary.total_used_packages, 1);
    assert_eq!(result.frequency_analysis.len(), 1);
    assert_eq!(result.frequency_analysis[0].package_name, "numpy");
}

#[test]
fn dependency_gaps_compare_resolved_names() {
    let mut mapping = PackageImportMapping::new(vec![("sklearn".to_string(), "scikit-learn".to_string())]);
    mapping.add_mapping("Torch".to_string(), "torch".to_string());
    assert_eq!(mapping.resolve_import_to_package("torch"), "torch");
    assert_eq!(mapping.resolve_import_to_package("SKLearn"), "scikit-learn");
    let usage = |n: &str| DependencyUsage { package_name: n.to_string(), usage_count: 1, used_by_modules: vec!["m".to_string()] };
    let freq = vec![usage("sklearn"), usage("numpy"), usage("torch")];
    let declared = vec!["scikit-learn".to_string(), "pytest".to_string(), "torch".to_string()];
    let (undeclared, unused) = analyze_dependency_gaps(&freq, &declared, &mapping);
    assert_eq!(undeclared, vec!["numpy".to_string()]);
    assert_eq!(unused, vec!["pytest".to_string()]);
}

#[test]
fn formatting_helpers() {
    assert_eq!(format_segment(1, "pkg", Some(4), false), "    .pkg (4)\n");
    assert_eq!(format_segment(0, "pkg", Some(1), true), "  pkg\n");
    let a = vec!["a".to_string(), "b".to_string(), "c".to_string()];
    let b = vec!["a".to_string(), "b".to_string(), "d".to_string()];
    assert_eq!(find_common_prefix_length(&a, &b), 2);
    assert_eq!(truncate_string("abcdef", 5), "ab...");
    assert_eq!(truncate_string("abc", 5), "abc");
    assert_eq!(quantile_indices(10), (1, 5, 9));
    assert_eq!(quantile_indices(1), (0, 0, 0));
}

#[test]
fn top_cycles_keeps_the_five_longest() {
    let mk = |n: usize| Cycle::new((0..n).map(|i| format!("m{}", i)).collect());
    let cycles = vec![mk(2), mk(7), mk(3), mk(2), mk(5), mk(6), mk(4)];
    let top = top_cycles(&cycles);
    let lens: Vec<usize> = top.iter().map(|c| c.modules.len()).collect();
    assert_eq!(lens, vec![7, 6, 5, 4, 3]);
}

#[test]
fn package_index_steps() {
    match next_index_step(0, "scikit-learn", IndexResponse::ClientError) {
        IndexStep::Done(v) => assert_eq!(v, vec!["scikit_learn".to_string()]),
        other => panic!("unexpected {:?}", other),
    }
    match next_index_step(1, "a-b", IndexResponse::Failed) {
        IndexStep::Retry(ms) => assert_eq!(ms, 200),
        other => panic!("unexpected {:?}", other),
    }
    match next_index_step(2, "a-b", IndexResponse::Failed) {
        IndexStep::Done(v) => assert_eq!(v, vec!["a_b".to_string()]),
        other => panic!("unexpected {:?}", other),
    }
    assert!(matches!(next_index_step(0, "x", IndexResponse::Unreadable), IndexStep::RetryNow));
    match next_index_step(0, "x", IndexResponse::TopLevel(vec!["xy".to_string()])) {
        IndexStep::Done(v) => assert_eq!(v, vec!["xy".to_string()]),
        other => panic!("unexpected {:?}", other),
    }
}

#[test]
fn mapping_with_given_lowercase() {
    let mut mapping = PackageImportMapping::new(vec![("yaml".to_string(), "PyYAML".to_string())]);
    assert_eq!(mapping.resolve_lowered("YAML", "yaml"), "PyYAML");
    assert_eq!(mapping.resolve_lowered("Other", "other"), "Other");
    mapping.add_mapping_lowered("PIL".to_string(), "pil".to_string(), "Pillow".to_string());
    assert_eq!(mapping.resolve_lowered("pil", "pil"), "Pillow");
    assert_eq!(mapping.resolve_import_to_package("PIL"), "Pillow");
}

#[test]
fn test_analyze_external_dependencies() {
    let mut graph = DependencyGraph::new();
    let internal1 = module("myapp.main", ModuleOrigin::Internal);
    let internal2 = module("myapp.utils", ModuleOrigin::Internal);
    let numpy_id = module("numpy", ModuleOrigin::External);
    let numpy_testing_id = module("numpy.testing", ModuleOrigin::External);
    let pandas_id = module("pandas", ModuleOrigin::External);
    graph.add_module(internal1.clone());
    graph.add_module(internal2.clone());
    graph.add_module(numpy_id.clone());
    graph.add_module(numpy_testing_id.clone());
    graph.add_module(pandas_id.clone());
    graph.add_dependency(&internal1, &numpy_id, DependencyType::Imports).unwrap();
    graph.add_dependency(&internal1, &pandas_id, DependencyType::Imports).unwrap();
    graph.add_dependency(&internal2, &numpy_testing_id, DependencyType::Imports).unwrap();
    let mapping = PackageImportMapping::new(vec![]);
    let result = analyze_external_dependencies(&graph, &[], &[], &[], &mapping).unwrap();
    assert_eq!(result.summary.total_used_packages, 2);
    assert_eq!(result.frequency_analysis.len(), 2);
    let numpy_usage = result.frequency_analysis.iter().find(|dep| dep.package_name == "numpy").unwrap();
    let pandas_usage = result.frequency_analysis.iter().find(|dep| dep.package_name == "pandas").unwrap();
    assert_eq!(numpy_usage.usage_count, 2);
    assert_eq!(pandas_usage.usage_count, 1);
    assert_eq!(result.undeclared_dependencies.len(), 2);
    assert!(result.undeclared_dependencies.contains(&"numpy".to_string()));
    assert!(result.undeclared_dependencies.contains(&"pandas".to_string()));
    assert!(result.unused_dependencies.is_empty());
}

#[test]
fn cycle_found_whichever_member_comes_first() {
    let first = imports(&[("b", "c"), ("c", "a"), ("a", "b")], &["b", "c", "a"]);
    let second = imports(&[("a", "b"), ("b", "c"), ("c", "a")], &["c", "a", "b"]);
    let r1 = detect_cycles(&first).unwrap();
    let r2 = detect_cycles(&second).unwrap();
    assert_eq!(r1.cycles, r2.cycles);
    assert_eq!(r1.cycles, vec![Cycle::new(vec!["a".to_string(), "b".to_string(), "c".to_string()])]);
}
