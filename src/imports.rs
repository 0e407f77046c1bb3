//! Module identity: where a module comes from and its canonical dotted path.
use vstd::prelude::*;

verus! {

/// Whether a module belongs to the codebase under analysis.
#[derive(Debug, Clone, Copy, PartialEq, Eq, Hash, Structural)]
pub enum ModuleOrigin {
    /// Standard library and third-party packages.
    External,
    /// Modules of the codebase itself.
    Internal,
}

/// A module, identified by its origin together with its canonical path.
#[derive(Debug, Eq, Hash)]
pub struct ModuleIdentifier {
    pub origin: ModuleOrigin,
    pub canonical_path: String,
}

/// The identity of a module as a pair of plain values.
pub type ModuleKey = (ModuleOrigin, Seq<char>);

impl View for ModuleIdentifier {
    type V = ModuleKey;

    open spec fn view(&self) -> ModuleKey {
        (self.origin, self.canonical_path@)
    }
}

impl PartialEq for ModuleIdentifier {
    fn eq(&self, other: &ModuleIdentifier) -> (r: bool) {
        self.origin == other.origin && self.canonical_path == other.canonical_path
    }
}

impl vstd::std_specs::cmp::PartialEqSpecImpl for ModuleIdentifier {
    open spec fn obeys_eq_spec() -> bool {
        true
    }

    open spec fn eq_spec(&self, other: &ModuleIdentifier) -> bool {
        self@ == other@
    }
}

impl Clone for ModuleIdentifier {
    fn clone(&self) -> (r: ModuleIdentifier)
        ensures
            r@ == self@,
    {
        ModuleIdentifier { origin: self.origin, canonical_path: self.canonical_path.clone() }
    }
}

} // verus!

verus! {

use crate::pyproject::{normalized_from, top_level, PyProjectParser};
use crate::text::{join_dots, segments_of};

/// The declared packages of an optional configuration.
pub open spec fn cfg_view(config: Option<&PyProjectParser>) -> Option<Seq<(Seq<char>, Seq<char>)>> {
    match config {
        Some(c) => Some(c.packages()),
        None => None,
    }
}

/// Whether the top-level segment of `name` is a declared package.
pub open spec fn declared(ps: Seq<(Seq<char>, Seq<char>)>, name: Seq<char>) -> bool {
    exists|k: int| 0 <= k < ps.len() && (#[trigger] ps[k]).0 == top_level(name)
}

/// The identity of an absolute module name: internal ones normalized,
/// external ones cut to their top-level package.
pub open spec fn resolved_key(cfg: Option<Seq<(Seq<char>, Seq<char>)>>, name: Seq<char>) -> ModuleKey {
    match cfg {
        Some(ps) => if declared(ps, name) {
            (ModuleOrigin::Internal, normalized_from(ps, name, 0))
        } else {
            (ModuleOrigin::External, top_level(name))
        },
        None => (ModuleOrigin::External, top_level(name)),
    }
}

/// The top-level segment of a dotted name.
pub fn extract_root_module(name: &str) -> (r: String)
    ensures
        r@ == top_level(name@),
{
    let segments = crate::text::split_dots(name);
    segments[0].clone()
}

/// The module identifier for an absolute module name.
pub fn resolve_module_identifier(name: &str, config: Option<&PyProjectParser>) -> (r: ModuleIdentifier)
    ensures
        r@ == resolved_key(cfg_view(config), name@),
{
    if crate::pyproject::is_internal_module(config, name) {
        ModuleIdentifier {
            origin: ModuleOrigin::Internal,
            canonical_path: crate::pyproject::normalize_module_name(config, name),
        }
    } else {
        ModuleIdentifier { origin: ModuleOrigin::External, canonical_path: extract_root_module(name) }
    }
}

/// Where a relative import of `name` at `level` from module `current`
/// points: `level` trailing segments of `current` dropped, then `name`
/// appended; `None` when `level` exceeds the segments.
pub open spec fn relative_target(name: Seq<char>, level: nat, current: Seq<char>) -> Option<Seq<char>> {
    let parts = segments_of(current);
    if level == 0 {
        Some(name)
    } else if level > parts.len() {
        None
    } else {
        let anchor = join_dots(parts.take(parts.len() - level));
        if name.len() == 0 {
            Some(anchor)
        } else if anchor.len() == 0 {
            Some(name)
        } else {
            Some(anchor + "."@ + name)
        }
    }
}

/// Resolves a relative import against the importing module's path.
pub fn resolve_relative_import(name: &str, level: u32, current_module: &str) -> (r: Option<String>)
    ensures
        r is None <==> relative_target(name@, level as nat, current_module@) is None,
        r matches Some(x) ==> relative_target(name@, level as nat, current_module@) == Some(x@),
{
    if level == 0 {
        return Some(String::from_str(name));
    }
    let parts = crate::text::split_dots(current_module);
    if level as usize > parts.len() {
        return None;
    }
    let keep = parts.len() - level as usize;
    let anchor_parts = vstd::slice::slice_subrange(parts.as_slice(), 0, keep);
    assert(anchor_parts@.map_values(|s: String| s@) =~= segments_of(current_module@).take(keep as int));
    let anchor = crate::text::join_with_dots(anchor_parts);
    if name.unicode_len() == 0 {
        Some(anchor)
    } else if anchor.as_str().unicode_len() == 0 {
        Some(String::from_str(name))
    } else {
        let mut out = anchor;
        out.append(".");
        out.append(name);
        Some(out)
    }
}

/// What `rustpython_parser` reads from Python source: `None` when it does
/// not parse; otherwise, for each top-level import statement in order, the
/// imported names of `import a, b` as `(Some(name), 0)` each, and a
/// `from ... import` as its module (if written) with its relative level.
pub uninterp spec fn python_imports(code: Seq<char>) -> Option<Seq<(Option<Seq<char>>, u32)>>;

/// Raw imports as plain values.
pub open spec fn raw_view(v: Seq<(Option<String>, u32)>) -> Seq<(Option<Seq<char>>, u32)> {
    v.map_values(|x: (Option<String>, u32)| (match x.0 { Some(s) => Some(s@), None => None }, x.1))
}

/// Relies on `rustpython_parser::parse` in module mode: it fails on code
/// that does not parse, and the top-level statements of the module tell
/// the imports.
#[verifier::external_body]
fn parse_imports(code: &str) -> (r: Option<Vec<(Option<String>, u32)>>)
    ensures
        r is None <==> python_imports(code@) is None,
        r matches Some(v) ==> python_imports(code@) == Some(raw_view(v@)),
{
    let ast = rustpython_parser::parse(code, rustpython_parser::Mode::Module, "<string>").ok()?;
    let mut out = Vec::new();
    if let rustpython_parser::ast::Mod::Module(m) = ast {
        for stmt in m.body {
            match stmt {
                rustpython_parser::ast::Stmt::Import(s) => out.extend(s.names.into_iter().map(|a| (Some(a.name.to_string()), 0))),
                rustpython_parser::ast::Stmt::ImportFrom(s) => out.push((s.module.map(|m| m.to_string()), s.level.map_or(0, |l| l.to_u32()))),
                _ => {},
            }
        }
    }
    Some(out)
}

/// The module a raw import names, if it can be resolved: relative imports
/// need the importing module's path.
pub open spec fn raw_target(raw: (Option<Seq<char>>, u32), current: Option<Seq<char>>) -> Option<Seq<char>> {
    if raw.1 > 0 {
        match current {
            Some(c) => relative_target(match raw.0 { Some(n) => n, None => Seq::empty() }, raw.1 as nat, c),
            None => None,
        }
    } else {
        raw.0
    }
}

/// The distinct identities of the modules a list of raw imports names, in
/// order of first appearance.
pub open spec fn deps_of(
    raws: Seq<(Option<Seq<char>>, u32)>,
    current: Option<Seq<char>>,
    cfg: Option<Seq<(Seq<char>, Seq<char>)>>,
) -> Seq<ModuleKey>
    decreases raws.len(),
{
    if raws.len() == 0 {
        Seq::empty()
    } else {
        let prev = deps_of(raws.drop_last(), current, cfg);
        match raw_target(raws.last(), current) {
            Some(t) => if prev.contains(resolved_key(cfg, t)) {
                prev
            } else {
                prev.push(resolved_key(cfg, t))
            },
            None => prev,
        }
    }
}

/// Source code that could not be parsed.
#[derive(Debug, PartialEq, Eq)]
pub enum ParseError {
    Invalid,
}

/// The distinct modules a piece of Python source imports at top level,
/// resolved against the importing module's path and the configuration.
/// Relative imports without an importing module are dropped.
pub fn extract_module_deps(
    python_code: &str,
    current_module: Option<&str>,
    config: Option<&PyProjectParser>,
) -> (r: Result<Vec<ModuleIdentifier>, ParseError>)
    ensures
        r is Err <==> python_imports(python_code@) is None,
        r matches Ok(v) ==> v@.map_values(|m: ModuleIdentifier| m@) == deps_of(
            python_imports(python_code@)->0,
            match current_module { Some(c) => Some(c@), None => None },
            cfg_view(config),
        ),
{
    match parse_imports(python_code) {
        Some(raws) => Ok(module_deps_from_imports(&raws, current_module, config)),
        None => Err(ParseError::Invalid),
    }
}

/// The distinct modules a list of raw imports names, each `(module, level)`
/// as the parser reports it, resolved against the importing module's path
/// and the configuration.
pub fn module_deps_from_imports(
    raws: &Vec<(Option<String>, u32)>,
    current_module: Option<&str>,
    config: Option<&PyProjectParser>,
) -> (r: Vec<ModuleIdentifier>)
    ensures
        r@.map_values(|m: ModuleIdentifier| m@) == deps_of(
            raw_view(raws@),
            match current_module { Some(c) => Some(c@), None => None },
            cfg_view(config),
        ),
{
    let ghost rv = raw_view(raws@);
    let ghost cur = match current_module { Some(c) => Some(c@), None => None };
    let ghost cfg = cfg_view(config);
    let mut modules: Vec<ModuleIdentifier> = Vec::new();
    let mut i: usize = 0;
    while i < raws.len()
        invariant
            rv == raw_view(raws@),
            cur == match current_module { Some(c) => Some(c@), None => None },
            cfg == cfg_view(config),
            i <= rv.len(),
            modules@.map_values(|m: ModuleIdentifier| m@) == deps_of(rv.take(i as int), cur, cfg),
        decreases rv.len() - i,
    {
        assert(rv.take(i + 1).drop_last() =~= rv.take(i as int));
        assert(rv.take(i + 1).last() == rv[i as int]);
        let (name, level) = (&raws[i].0, raws[i].1);
        let target: Option<String> = if level > 0 {
            match current_module {
                Some(c) => {
                    let n = match name {
                        Some(s) => s.clone(),
                        None => String::new(),
                    };
                    resolve_relative_import(n.as_str(), level, c)
                },
                None => None,
            }
        } else {
            match name {
                Some(s) => Some(s.clone()),
                None => None,
            }
        };
        assert(match target { Some(t) => raw_target(rv[i as int], cur) == Some(t@), None => raw_target(rv[i as int], cur) is None });
        match target {
            Some(t) => {
                let id = resolve_module_identifier(t.as_str(), config);
                let ghost prev = modules@.map_values(|m: ModuleIdentifier| m@);
                let mut seen = false;
                let mut k: usize = 0;
                while k < modules.len()
                    invariant
                        k <= modules@.len(),
                        prev == modules@.map_values(|m: ModuleIdentifier| m@),
                        seen <==> exists|j: int| 0 <= j < k && prev[j] == id@,
                    decreases modules@.len() - k,
                {
                    assert(prev[k as int] == modules@[k as int]@);
                    if modules[k] == id {
                        seen = true;
                    }
                    k = k + 1;
                }
                assert(seen <==> prev.contains(id@));
                if !seen {
                    modules.push(id);
                    assert(modules@.map_values(|m: ModuleIdentifier| m@) =~= prev.push(id@));
                }
            },
            None => {},
        }
        i = i + 1;
    }
    assert(rv.take(i as int) =~= rv);
    modules
}

} // verus!
