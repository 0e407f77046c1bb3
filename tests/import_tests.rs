use pydep_mapper::imports::{
    extract_module_deps, module_deps_from_imports, resolve_relative_import, ModuleIdentifier, ModuleOrigin,
};
use pydep_mapper::pyproject::{
    compute_module_name, filter_contained_packages, module_name_from_components, init, is_internal_module,
    normalize_module_name, PackageInfo, PathError, PyProjectParser,
};
use std::collections::HashSet;

fn names_of(modules: &[ModuleIdentifier]) -> HashSet<String> {
    modules.iter().map(|m| m.canonical_path.clone()).collect()
}

#[test]
fn test_relative_imports_resolved() {
    let python_code = r#"
from .module import something
from ..parent import other
from ...grandparent import more
import os
"#;
    let current_module = "common.models.submodule.current";
    let modules = extract_module_deps(python_code, Some(current_module), None).unwrap();
    assert_eq!(modules.len(), 2);
    let module_names = names_of(&modules);
    assert!(module_names.contains("common"));
    assert!(module_names.contains("os"));
}

#[test]
fn test_relative_imports_without_context() {
    let python_code = r#"
from .module import something
from ..parent import other
import os
"#;
    let modules = extract_module_deps(python_code, None, None).unwrap();
    assert_eq!(modules.len(), 1);
    assert_eq!(modules[0].canonical_path, "os");
    assert_eq!(modules[0].origin, ModuleOrigin::External);
}

#[test]
fn test_relative_imports_edge_cases() {
    let python_code = r#"
from . import something
from .. import other  
from .sub.module import func
"#;
    let current_module = "package.subpackage.module";
    let modules = extract_module_deps(python_code, Some(current_module), None).unwrap();
    assert_eq!(modules.len(), 1);
    let module_names = names_of(&modules);
    assert!(module_names.contains("package"));
}

#[test]
fn test_simple_import() {
    let modules = extract_module_deps("import os", None, None).unwrap();
    assert_eq!(modules.len(), 1);
    assert_eq!(modules[0].canonical_path, "os");
}

#[test]
fn test_multiple_simple_imports() {
    let modules = extract_module_deps("import os, sys, json", None, None).unwrap();
    assert_eq!(modules.len(), 3);
    let module_names = names_of(&modules);
    assert!(module_names.contains("os"));
    assert!(module_names.contains("sys"));
    assert!(module_names.contains("json"));
}

#[test]
fn test_from_import() {
    let modules = extract_module_deps("from collections import defaultdict", None, None).unwrap();
    assert_eq!(modules.len(), 1);
    assert_eq!(modules[0].canonical_path, "collections");
}

#[test]
fn test_from_import_multiple() {
    let modules = extract_module_deps("from os.path import join, exists, dirname", None, None).unwrap();
    assert_eq!(modules.len(), 1);
    assert_eq!(modules[0].canonical_path, "os");
}

#[test]
fn test_from_import_star() {
    let modules = extract_module_deps("from math import *", None, None).unwrap();
    assert_eq!(modules.len(), 1);
    assert_eq!(modules[0].canonical_path, "math");
}

#[test]
fn test_mixed_imports() {
    let python_code = r#"
import os
from sys import argv
from collections import *
import json, re
from typing import List, Dict
"#;
    let modules = extract_module_deps(python_code, None, None).unwrap();
    assert_eq!(modules.len(), 6);
    let module_names = names_of(&modules);
    assert!(module_names.contains("os"));
    assert!(module_names.contains("sys"));
    assert!(module_names.contains("collections"));
    assert!(module_names.contains("json"));
    assert!(module_names.contains("re"));
    assert!(module_names.contains("typing"));
}

#[test]
fn test_no_imports() {
    let python_code = r#"
def hello():
    print("Hello, world!")

x = 42
"#;
    let modules = extract_module_deps(python_code, None, None).unwrap();
    assert_eq!(modules.len(), 0);
}

#[test]
fn test_invalid_python_code() {
    let result = extract_module_deps("import os\ndef invalid syntax here", None, None);
    assert!(result.is_err());
}

#[test]
fn test_empty_code() {
    let modules = extract_module_deps("", None, None).unwrap();
    assert_eq!(modules.len(), 0);
}

#[test]
fn test_nested_from_import() {
    let modules = extract_module_deps("from package.submodule.deep import function_name", None, None).unwrap();
    assert_eq!(modules.len(), 1);
    assert_eq!(modules[0].canonical_path, "package");
}

#[test]
fn test_import_aliases() {
    let python_code = r#"
from collections import defaultdict as dd
import numpy as np
"#;
    let modules = extract_module_deps(python_code, None, None).unwrap();
    assert_eq!(modules.len(), 2);
    let module_names = names_of(&modules);
    assert!(module_names.contains("collections"));
    assert!(module_names.contains("numpy"));
    let collections_module = modules.iter().find(|m| m.canonical_path == "collections").unwrap();
    assert_eq!(collections_module.origin, ModuleOrigin::External);
    let numpy_module = modules.iter().find(|m| m.canonical_path == "numpy").unwrap();
    assert_eq!(numpy_module.origin, ModuleOrigin::External);
}

#[test]
fn test_builtin_vs_internal_detection() {
    let python_code = r#"
import os
import sys
import custom_module
"#;
    let modules = extract_module_deps(python_code, None, None).unwrap();
    assert_eq!(modules.len(), 3);
    let module_names = names_of(&modules);
    assert!(module_names.contains("os"));
    assert!(module_names.contains("sys"));
    assert!(module_names.contains("custom_module"));
    let os_module = modules.iter().find(|m| m.canonical_path == "os").unwrap();
    assert_eq!(os_module.origin, ModuleOrigin::External);
    let sys_module = modules.iter().find(|m| m.canonical_path == "sys").unwrap();
    assert_eq!(sys_module.origin, ModuleOrigin::External);
    let custom_module = modules.iter().find(|m| m.canonical_path == "custom_module").unwrap();
    assert_eq!(custom_module.origin, ModuleOrigin::External);
}

#[test]
fn test_root_module_extraction() {
    let python_code = r#"
import os.path
from collections.abc import Mapping
import numpy.testing.utils
from requests.auth import HTTPBasicAuth
"#;
    let modules = extract_module_deps(python_code, None, None).unwrap();
    assert_eq!(modules.len(), 4);
    let module_names = names_of(&modules);
    assert!(module_names.contains("os"));
    assert!(module_names.contains("collections"));
    assert!(module_names.contains("numpy"));
    assert!(module_names.contains("requests"));
    assert!(!module_names.contains("os.path"));
    assert!(!module_names.contains("collections.abc"));
    assert!(!module_names.contains("numpy.testing.utils"));
    assert!(!module_names.contains("requests.auth"));
}

#[test]
fn test_builtin_vs_external_detection() {
    let python_code = r#"
import os
import sys
import numpy
import requests
from collections import defaultdict
"#;
    let modules = extract_module_deps(python_code, None, None).expect("Should parse correctly");
    for module in modules {
        match module.canonical_path.as_str() {
            "os" | "sys" | "collections" | "numpy" | "requests" => {
                assert_eq!(module.origin, ModuleOrigin::External)
            }
            _ => {}
        }
    }
}

fn sample_config() -> PyProjectParser {
    init(vec![
        PackageInfo { name: "common".to_string(), directory: "common/".to_string() },
        PackageInfo { name: "mymodule".to_string(), directory: "MyModule/".to_string() },
        PackageInfo { name: "rna".to_string(), directory: "JOHN/rna".to_string() },
    ])
}

#[test]
fn test_is_internal_module() {
    let parser = sample_config();
    assert!(parser.is_internal_module("common"));
    assert!(parser.is_internal_module("common.utils"));
    assert!(!parser.is_internal_module("numpy"));
    assert!(!is_internal_module(None, "common"));
    assert!(is_internal_module(Some(&parser), "mymodule.x"));
}

#[test]
fn normalization_follows_package_directories() {
    let parser = sample_config();
    assert_eq!(parser.normalize_module_name("JOHN.rna.rna.data_processing.binner"), "rna.data_processing.binner");
    assert_eq!(parser.normalize_module_name("JOHN.rna.tools"), "rna.tools");
    assert_eq!(parser.normalize_module_name("JOHN.rna.rna"), "rna");
    assert_eq!(parser.normalize_module_name("JOHN.rna"), "rna");
    assert_eq!(parser.normalize_module_name("MyModule.core"), "mymodule.core");
    assert_eq!(parser.normalize_module_name("other.thing"), "other.thing");
    assert_eq!(normalize_module_name(None, "JOHN.rna.tools"), "JOHN.rna.tools");
}

#[test]
fn internal_modules_resolve_through_the_configuration() {
    let parser = sample_config();
    let modules = extract_module_deps("import common.utils\nimport numpy.linalg", None, Some(&parser)).unwrap();
    assert_eq!(modules.len(), 2);
    assert_eq!(modules[0], ModuleIdentifier { origin: ModuleOrigin::Internal, canonical_path: "common.utils".to_string() });
    assert_eq!(modules[1], ModuleIdentifier { origin: ModuleOrigin::External, canonical_path: "numpy".to_string() });
}

#[test]
fn test_filter_contained_packages() {
    let packages = vec![
        PackageInfo { name: "medcat".to_string(), directory: "ehr_data_formatter/medcat/".to_string() },
        PackageInfo { name: "ehr_data_formatter".to_string(), directory: "ehr_data_formatter/".to_string() },
        PackageInfo { name: "other".to_string(), directory: "other/".to_string() },
    ];
    let filtered = filter_contained_packages(packages);
    assert_eq!(filtered.len(), 2);
    assert!(filtered.iter().any(|p| p.name == "ehr_data_formatter"));
    assert!(filtered.iter().any(|p| p.name == "other"));
    assert!(!filtered.iter().any(|p| p.name == "medcat"));
}

#[test]
fn crawler_test_compute_module_name() {
    assert_eq!(compute_module_name("/project/main.py", "/project", None).unwrap(), "main");
    assert_eq!(compute_module_name("/project/package/module.py", "/project", None).unwrap(), "package.module");
    assert_eq!(compute_module_name("/project/package/__init__.py", "/project", None).unwrap(), "package");
    assert_eq!(compute_module_name("/project/deep/nested/module.py", "/project", None).unwrap(), "deep.nested.module");
}

#[test]
fn module_name_errors() {
    assert_eq!(compute_module_name("/elsewhere/main.py", "/project", None), Err(PathError::NotUnderRoot));
    assert_eq!(compute_module_name("/project/__init__.py", "/project", None), Err(PathError::Empty));
    let parser = sample_config();
    assert_eq!(compute_module_name("/p/JOHN/rna/rna/binner.py", "/p", Some(&parser)).unwrap(), "rna.binner");
}

#[test]
fn relative_import_resolution() {
    assert_eq!(resolve_relative_import("x", 0, "a.b"), Some("x".to_string()));
    assert_eq!(resolve_relative_import("sub", 1, "a.b.c"), Some("a.b.sub".to_string()));
    assert_eq!(resolve_relative_import("", 2, "a.b.c"), Some("a".to_string()));
    assert_eq!(resolve_relative_import("x", 3, "a.b.c"), Some("x".to_string()));
    assert_eq!(resolve_relative_import("x", 4, "a.b.c"), None);
}

#[test]
fn module_names_from_components() {
    let s = |v: &[&str]| v.iter().map(|x| x.to_string()).collect::<Vec<String>>();
    assert_eq!(module_name_from_components(&s(&["/", "p", "a", "b.py"]), &s(&["/", "p"]), None).unwrap(), "a.b");
    assert_eq!(module_name_from_components(&s(&["/", "q", "a.py"]), &s(&["/", "p"]), None), Err(PathError::NotUnderRoot));
    assert_eq!(module_name_from_components(&s(&["/", "p", "__init__.py"]), &s(&["/", "p"]), None), Err(PathError::Empty));
}

#[test]
fn module_deps_from_raw_imports() {
    let raws = vec![
        (Some("os.path".to_string()), 0u32),
        (Some("sub".to_string()), 1u32),
        (None, 2u32),
        (Some("os".to_string()), 0u32),
    ];
    let deps = module_deps_from_imports(&raws, Some("pkg.mod.leaf"), None);
    let names: Vec<&str> = deps.iter().map(|m| m.canonical_path.as_str()).collect();
    assert_eq!(names, vec!["os", "pkg"]);
    let without_context = module_deps_from_imports(&raws, None, None);
    assert_eq!(without_context.len(), 1);
}
