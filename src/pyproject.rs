//! Declared packages of a project and the module-name rules they imply.
use crate::graph::path_list;
use crate::text::{to_chars, segments_of, split_dots};
use vstd::prelude::*;

verus! {

/// A declared package: its module name and the directory it lives in.
#[derive(Debug, Clone)]
pub struct PackageInfo {
    /// Python module name, for example `mymodule`.
    pub name: String,
    /// Filesystem directory, for example `MyModule/`.
    pub directory: String,
}

/// `s` without its trailing `/` characters.
pub open spec fn trim_slashes(s: Seq<char>) -> Seq<char>
    decreases s.len(),
{
    if s.len() > 0 && s.last() == '/' {
        trim_slashes(s.drop_last())
    } else {
        s
    }
}

/// Package directory `p` lies strictly inside directory `e`: once trailing
/// slashes are removed, `e` is a proper prefix of `p`.
pub open spec fn dir_inside(p: Seq<char>, e: Seq<char>) -> bool {
    let a = trim_slashes(p);
    let b = trim_slashes(e);
    a.len() > b.len() && a.subrange(0, b.len() as int) == b
}

fn trimmed(s: &str) -> (r: Vec<char>)
    ensures
        r@ == trim_slashes(s@),
{
    let mut cs = to_chars(s);
    while cs.len() > 0 && cs[cs.len() - 1] == '/'
        invariant
            trim_slashes(cs@) == trim_slashes(s@),
        decreases cs@.len(),
    {
        let ghost before = cs@;
        cs.pop();
        assert(cs@ =~= before.drop_last());
    }
    cs
}

fn is_inside(p: &str, e: &str) -> (r: bool)
    ensures
        r == dir_inside(p@, e@),
{
    let a = trimmed(p);
    let b = trimmed(e);
    if a.len() <= b.len() {
        return false;
    }
    let mut i: usize = 0;
    while i < b.len()
        invariant
            a@ == trim_slashes(p@),
            b@ == trim_slashes(e@),
            b@.len() < a@.len(),
            i <= b@.len(),
            forall|j: int| 0 <= j < i ==> a@[j] == b@[j],
        decreases b@.len() - i,
    {
        if a[i] != b[i] {
            assert(a@.subrange(0, b@.len() as int)[i as int] != b@[i as int]);
            return false;
        }
        i = i + 1;
    }
    assert(a@.subrange(0, b@.len() as int) =~= b@);
    true
}

/// A package as plain values.
pub open spec fn pkg_view(p: PackageInfo) -> (Seq<char>, Seq<char>) {
    (p.name@, p.directory@)
}

pub open spec fn pkgs_view(v: Seq<PackageInfo>) -> Seq<(Seq<char>, Seq<char>)> {
    v.map_values(|p: PackageInfo| pkg_view(p))
}

fn copy_package(p: &PackageInfo) -> (r: PackageInfo)
    ensures
        pkg_view(r) == pkg_view(*p),
{
    PackageInfo { name: p.name.clone(), directory: p.directory.clone() }
}

/// Package `pv` is one of `v[lo..hi]`.
pub open spec fn listed_in(v: Seq<PackageInfo>, hi: int, pv: (Seq<char>, Seq<char>)) -> bool {
    exists|x: int| 0 <= x < hi && x < v.len() && pkg_view(v[x]) == pv
}

/// Package `p` is kept in `f`, or lies inside a package kept there.
pub open spec fn covered_by(f: Seq<PackageInfo>, p: PackageInfo) -> bool {
    exists|k: int| 0 <= k < f.len() && (pkg_view(f[k]) == pkg_view(p) || dir_inside(p.directory@, f[k].directory@))
}

/// Drops every package whose directory lies inside the directory of a
/// package kept before it, packages being taken shortest directory first
/// (equal lengths keep their order).
pub fn filter_contained_packages(packages: Vec<PackageInfo>) -> (r: Vec<PackageInfo>)
    ensures
        forall|k: int| 0 <= k < r@.len() ==> listed_in(packages@, packages@.len() as int, pkg_view(#[trigger] r@[k])),
        forall|a: int, b: int| 0 <= a < b < r@.len() ==> !dir_inside(r@[b].directory@, r@[a].directory@),
        forall|x: int| 0 <= x < packages@.len() ==> covered_by(r@, #[trigger] packages@[x]),
        forall|a: int, b: int| 0 <= a < b < r@.len() ==> r@[a].directory@.len() <= r@[b].directory@.len(),
{
    // order by directory length, keeping the order of equals
    let mut sorted: Vec<PackageInfo> = Vec::new();
    let mut i: usize = 0;
    while i < packages.len()
        invariant
            i <= packages@.len(),
            sorted@.len() == i,
            forall|a: int, b: int| 0 <= a < b < sorted@.len() ==> sorted@[a].directory@.len() <= sorted@[b].directory@.len(),
            forall|k: int| 0 <= k < sorted@.len() ==> listed_in(packages@, i as int, pkg_view(#[trigger] sorted@[k])),
            forall|x: int| 0 <= x < i ==> listed_in(sorted@, sorted@.len() as int, pkg_view(#[trigger] packages@[x])),
        decreases packages@.len() - i,
    {
        let p = copy_package(&packages[i]);
        let len = p.directory.as_str().unicode_len();
        let mut pos: usize = 0;
        while pos < sorted.len() && sorted[pos].directory.as_str().unicode_len() <= len
            invariant
                pos <= sorted@.len(),
                len == p.directory@.len(),
                forall|a: int| 0 <= a < pos ==> sorted@[a].directory@.len() <= len,
            decreases sorted@.len() - pos,
        {
            pos = pos + 1;
        }
        let ghost old_s = sorted@;
        let ghost pv = p;
        sorted.insert(pos, p);
        proof {
            assert forall|a: int, b: int| 0 <= a < b < sorted@.len() implies sorted@[a].directory@.len() <= sorted@[b].directory@.len() by {
                if a < pos && b == pos {
                    assert(sorted@[a] == old_s[a]);
                } else if a == pos && b > pos {
                    assert(sorted@[b] == old_s[b - 1]);
                    assert(old_s[pos as int].directory@.len() <= old_s[b - 1].directory@.len());
                } else if a < pos && b > pos {
                    assert(sorted@[a] == old_s[a] && sorted@[b] == old_s[b - 1]);
                } else if b < pos {
                    assert(sorted@[a] == old_s[a] && sorted@[b] == old_s[b]);
                } else {
                    assert(sorted@[a] == old_s[a - 1] && sorted@[b] == old_s[b - 1]);
                }
            }
            assert forall|k: int| 0 <= k < sorted@.len() implies listed_in(packages@, i + 1, pkg_view(#[trigger] sorted@[k])) by {
                if k < pos {
                    assert(sorted@[k] == old_s[k]);
                    assert(listed_in(packages@, i as int, pkg_view(old_s[k])));
                } else if k > pos {
                    assert(sorted@[k] == old_s[k - 1]);
                    assert(listed_in(packages@, i as int, pkg_view(old_s[k - 1])));
                } else {
                    assert(pkg_view(sorted@[k]) == pkg_view(packages@[i as int]));
                }
            }
            assert forall|x: int| 0 <= x < i + 1 implies listed_in(sorted@, sorted@.len() as int, pkg_view(#[trigger] packages@[x])) by {
                if x == i {
                    assert(pkg_view(sorted@[pos as int]) == pkg_view(packages@[x]));
                } else {
                    assert(listed_in(old_s, old_s.len() as int, pkg_view(packages@[x])));
                    let k = choose|k: int| 0 <= k < old_s.len() && k < old_s.len() && pkg_view(old_s[k]) == pkg_view(packages@[x]);
                    if k < pos {
                        assert(sorted@[k] == old_s[k]);
                    } else {
                        assert(sorted@[k + 1] == old_s[k]);
                    }
                }
            }
        }
        i = i + 1;
    }
    // keep a package unless an earlier kept one contains it
    let mut filtered: Vec<PackageInfo> = Vec::new();
    let mut j: usize = 0;
    while j < sorted.len()
        invariant
            j <= sorted@.len(),
            forall|a: int, b: int| 0 <= a < b < sorted@.len() ==> sorted@[a].directory@.len() <= sorted@[b].directory@.len(),
            forall|k: int| 0 <= k < sorted@.len() ==> listed_in(packages@, packages@.len() as int, pkg_view(#[trigger] sorted@[k])),
            forall|x: int| 0 <= x < packages@.len() ==> listed_in(sorted@, sorted@.len() as int, pkg_view(#[trigger] packages@[x])),
            forall|k: int| 0 <= k < filtered@.len() ==> listed_in(sorted@, j as int, pkg_view(#[trigger] filtered@[k])),
            forall|a: int, b: int| 0 <= a < b < filtered@.len() ==> !dir_inside(filtered@[b].directory@, filtered@[a].directory@),
            forall|q: int| 0 <= q < j ==> covered_by(filtered@, #[trigger] sorted@[q]),
            forall|a: int, b: int| 0 <= a < b < filtered@.len() ==> filtered@[a].directory@.len() <= filtered@[b].directory@.len(),
            j < sorted@.len() ==> forall|k: int| 0 <= k < filtered@.len() ==> (#[trigger] filtered@[k]).directory@.len() <= sorted@[j as int].directory@.len(),
        decreases sorted@.len() - j,
    {
        let mut contained = false;
        let mut k: usize = 0;
        while k < filtered.len() && !contained
            invariant
                k <= filtered@.len(),
                j < sorted@.len(),
                contained ==> exists|m: int| 0 <= m < filtered@.len() && dir_inside(sorted@[j as int].directory@, filtered@[m].directory@),
                !contained ==> forall|m: int| 0 <= m < k ==> !dir_inside(sorted@[j as int].directory@, filtered@[m].directory@),
            decreases filtered@.len() - k + (if contained { 0int } else { 1int }),
        {
            if is_inside(sorted[j].directory.as_str(), filtered[k].directory.as_str()) {
                contained = true;
            } else {
                k = k + 1;
            }
        }
        let ghost old_f = filtered@;
        if !contained {
            filtered.push(copy_package(&sorted[j]));
            proof {
                assert forall|a: int, b: int| 0 <= a < b < filtered@.len() implies !dir_inside(filtered@[b].directory@, filtered@[a].directory@) by {
                    if b < old_f.len() {
                        assert(filtered@[a] == old_f[a] && filtered@[b] == old_f[b]);
                    } else {
                        assert(filtered@[a] == old_f[a]);
                    }
                }
                assert forall|k2: int| 0 <= k2 < filtered@.len() implies listed_in(sorted@, j + 1, pkg_view(#[trigger] filtered@[k2])) by {
                    if k2 < old_f.len() {
                        assert(filtered@[k2] == old_f[k2]);
                        assert(listed_in(sorted@, j as int, pkg_view(old_f[k2])));
                    } else {
                        assert(pkg_view(filtered@[k2]) == pkg_view(sorted@[j as int]));
                    }
                }
                assert forall|q: int| 0 <= q < j + 1 implies covered_by(filtered@, #[trigger] sorted@[q]) by {
                    if q == j {
                        assert(pkg_view(filtered@[old_f.len() as int]) == pkg_view(sorted@[q]));
                    } else {
                        assert(covered_by(old_f, sorted@[q]));
                        let k2 = choose|k2: int| 0 <= k2 < old_f.len() && (pkg_view(old_f[k2]) == pkg_view(sorted@[q]) || dir_inside(sorted@[q].directory@, old_f[k2].directory@));
                        assert(filtered@[k2] == old_f[k2]);
                    }
                }
                assert forall|a: int, b: int| 0 <= a < b < filtered@.len() implies filtered@[a].directory@.len() <= filtered@[b].directory@.len() by {
                    if b < old_f.len() {
                        assert(filtered@[a] == old_f[a] && filtered@[b] == old_f[b]);
                    } else {
                        assert(filtered@[a] == old_f[a]);
                    }
                }
            }
        } else {
            proof {
                assert forall|q: int| 0 <= q < j + 1 implies covered_by(filtered@, #[trigger] sorted@[q]) by {
                    if q == j {
                        let m = choose|m: int| 0 <= m < filtered@.len() && dir_inside(sorted@[j as int].directory@, filtered@[m].directory@);
                    }
                }
            }
        }
        proof {
            if j + 1 < sorted@.len() {
                assert forall|k2: int| 0 <= k2 < filtered@.len() implies (#[trigger] filtered@[k2]).directory@.len() <= sorted@[j + 1].directory@.len() by {
                    if k2 < old_f.len() {
                        assert(filtered@[k2] == old_f[k2]);
                    }
                }
            }
        }
        j = j + 1;
    }
    proof {
        assert forall|k: int| 0 <= k < filtered@.len() implies listed_in(packages@, packages@.len() as int, pkg_view(#[trigger] filtered@[k])) by {
            assert(listed_in(sorted@, j as int, pkg_view(filtered@[k])));
            let q = choose|q: int| 0 <= q < j && q < sorted@.len() && pkg_view(sorted@[q]) == pkg_view(filtered@[k]);
            assert(listed_in(packages@, packages@.len() as int, pkg_view(sorted@[q])));
        }
        assert forall|x: int| 0 <= x < packages@.len() implies covered_by(filtered@, #[trigger] packages@[x]) by {
            assert(listed_in(sorted@, sorted@.len() as int, pkg_view(packages@[x])));
            let q = choose|q: int| 0 <= q < sorted@.len() && q < sorted@.len() && pkg_view(sorted@[q]) == pkg_view(packages@[x]);
            assert(covered_by(filtered@, sorted@[q]));
            let k = choose|k: int| 0 <= k < filtered@.len() && (pkg_view(filtered@[k]) == pkg_view(sorted@[q]) || dir_inside(sorted@[q].directory@, filtered@[k].directory@));
            assert(packages@[x].directory@ == sorted@[q].directory@);
        }
    }
    filtered
}


} // verus!

verus! {

/// The declared packages of a project, loaded once and passed to whatever
/// resolves module names.
#[derive(Debug)]
pub struct PyProjectParser {
    package_info: Vec<PackageInfo>,
}

/// The first segment of a dotted path.
pub open spec fn top_level(p: Seq<char>) -> Seq<char> {
    segments_of(p)[0]
}

/// `d` with every `/` replaced by `.`.
pub open spec fn slashes_to_dots(d: Seq<char>) -> Seq<char> {
    d.map_values(|c: char| if c == '/' { '.' } else { c })
}

/// Where `name` falls under a package whose directory, dotted, is `from`:
/// `Some` of the normalized name, or `None` when the package does not apply.
pub open spec fn normalize_with(name: Seq<char>, pkg_name: Seq<char>, from: Seq<char>) -> Option<Seq<char>> {
    if name.len() > from.len() && name.subrange(0, from.len() as int) == from && name[from.len() as int] == '.' {
        let rest = name.subrange(from.len() as int + 1, name.len() as int);
        if (rest.len() > pkg_name.len() && rest.subrange(0, pkg_name.len() as int) == pkg_name && rest[pkg_name.len() as int] == '.') {
            Some(rest)
        } else if rest == pkg_name {
            Some(pkg_name)
        } else {
            Some(pkg_name + "."@ + rest)
        }
    } else if name == from {
        Some(pkg_name)
    } else {
        None
    }
}

/// The first package, from the `k`-th on, that applies decides the name;
/// where none applies the name stays as it is.
pub open spec fn normalized_from(pkgs: Seq<(Seq<char>, Seq<char>)>, name: Seq<char>, k: int) -> Seq<char>
    decreases pkgs.len() - k,
{
    if k >= pkgs.len() || k < 0 {
        name
    } else {
        match normalize_with(name, pkgs[k].0, slashes_to_dots(trim_slashes(pkgs[k].1))) {
            Some(r) => r,
            None => normalized_from(pkgs, name, k + 1),
        }
    }
}

fn dotted_dir(d: &str) -> (r: String)
    ensures
        r@ == slashes_to_dots(trim_slashes(d@)),
{
    let cs = trimmed(d);
    let mut out = String::new();
    let mut i: usize = 0;
    while i < cs.len()
        invariant
            cs@ == trim_slashes(d@),
            i <= cs@.len(),
            out@ == slashes_to_dots(cs@.take(i as int)),
        decreases cs@.len() - i,
    {
        let ghost before = out@;
        proof {
            reveal_strlit(".");
        }
        if cs[i] == '/' {
            out.append(".");
        } else {
            out.append(d_char(d, &cs, cs.len(), i));
        }
        assert(out@ =~= slashes_to_dots(cs@.take(i + 1)));
        i = i + 1;
    }
    assert(cs@.take(i as int) =~= cs@);
    out
}

/// The one-character string at `i` of `d` (which `cs` spells out, trailing
/// slashes removed).
fn d_char<'a>(d: &'a str, cs: &Vec<char>, n: usize, i: usize) -> (r: &'a str)
    requires
        cs@ == trim_slashes(d@),
        n == cs@.len(),
        i < n,
    ensures
        r@ == seq![cs@[i as int]],
{
    proof {
        lemma_trim_prefix(d@);
    }
    let r = d.substring_char(i, i + 1);
    assert(r@ =~= seq![cs@[i as int]]);
    r
}

proof fn lemma_trim_prefix(s: Seq<char>)
    ensures
        trim_slashes(s).len() <= s.len(),
        trim_slashes(s) == s.subrange(0, trim_slashes(s).len() as int),
    decreases s.len(),
{
    if s.len() > 0 && s.last() == '/' {
        lemma_trim_prefix(s.drop_last());
        assert(s.drop_last().subrange(0, trim_slashes(s).len() as int) =~= s.subrange(0, trim_slashes(s).len() as int));
    } else {
        assert(s.subrange(0, s.len() as int) =~= s);
    }
}

/// Whether `s` starts with `p` followed by a dot.
fn starts_with_dotted(s: &str, p: &str) -> (r: bool)
    ensures
        r == crate::text::is_dotted_descendant(s@, p@),
{
    crate::text::is_descendant_path(s, p)
}

fn normalize_one(name: &str, pkg_name: &String, from: &String) -> (r: Option<String>)
    ensures
        r is None <==> normalize_with(name@, pkg_name@, from@) is None,
        r matches Some(x) ==> normalize_with(name@, pkg_name@, from@) == Some(x@),
{
    if starts_with_dotted(name, from.as_str()) {
        let n = name.unicode_len();
        let f = from.as_str().unicode_len();
        let rest = String::from_str(name.substring_char(f + 1, n));
        if starts_with_dotted(rest.as_str(), pkg_name.as_str()) {
            Some(rest)
        } else if rest == *pkg_name {
            Some(pkg_name.clone())
        } else {
            let mut out = pkg_name.clone();
            out.append(".");
            out.append(rest.as_str());
            Some(out)
        }
    } else if String::from_str(name) == *from {
        Some(pkg_name.clone())
    } else {
        None
    }
}

/// Package `p` is one of `ps`, or lies inside the directory of one.
pub open spec fn covered_in(ps: Seq<(Seq<char>, Seq<char>)>, p: PackageInfo) -> bool {
    exists|k: int| 0 <= k < ps.len() && (ps[k] == pkg_view(p) || dir_inside(p.directory@, ps[k].1))
}

impl PyProjectParser {
    /// The packages as plain values.
    pub closed spec fn packages(&self) -> Seq<(Seq<char>, Seq<char>)> {
        pkgs_view(self.package_info@)
    }

    /// A parser over the declared packages, those inside another package's
    /// directory dropped as `filter_contained_packages` does.
    pub fn new(packages: Vec<PackageInfo>) -> (r: PyProjectParser)
        ensures
            forall|k: int| 0 <= k < r.packages().len() ==> listed_in(packages@, packages@.len() as int, #[trigger] r.packages()[k]),
            forall|x: int| 0 <= x < packages@.len() ==> covered_in(r.packages(), #[trigger] packages@[x]),
    {
        let kept = filter_contained_packages(packages);
        let r = PyProjectParser { package_info: kept };
        proof {
            assert forall|k: int| 0 <= k < r.packages().len() implies listed_in(packages@, packages@.len() as int, #[trigger] r.packages()[k]) by {
                assert(r.packages()[k] == pkg_view(kept@[k]));
            }
            assert forall|x: int| 0 <= x < packages@.len() implies covered_in(r.packages(), #[trigger] packages@[x]) by {
                assert(covered_by(kept@, packages@[x]));
                let k = choose|k: int| 0 <= k < kept@.len() && (pkg_view(kept@[k]) == pkg_view(packages@[x]) || dir_inside(packages@[x].directory@, kept@[k].directory@));
                assert(r.packages()[k] == pkg_view(kept@[k]));
            }
        }
        r
    }

    /// The packages kept.
    pub fn get_package_info(&self) -> (r: &Vec<PackageInfo>)
        ensures
            pkgs_view(r@) == self.packages(),
    {
        &self.package_info
    }

    /// Whether the top-level segment of `name` is a declared package.
    pub fn is_internal_module(&self, name: &str) -> (r: bool)
        ensures
            r == exists|k: int| 0 <= k < self.packages().len() && (#[trigger] self.packages()[k]).0 == top_level(name@),
    {
        let segments = split_dots(name);
        let top = &segments[0];
        assert(top@ == top_level(name@));
        let mut k: usize = 0;
        while k < self.package_info.len()
            invariant
                k <= self.package_info@.len(),
                top@ == top_level(name@),
                forall|j: int| 0 <= j < k ==> (#[trigger] self.packages()[j]).0 != top_level(name@),
            decreases self.package_info@.len() - k,
        {
            assert(self.packages()[k as int] == pkg_view(self.package_info@[k as int]));
            if self.package_info[k].name == *top {
                return true;
            }
            k = k + 1;
        }
        false
    }

    /// Rewrites a dotted name by the first package whose dotted directory it
    /// starts with (see `normalize_with`); otherwise returns it unchanged.
    pub fn normalize_module_name(&self, name: &str) -> (r: String)
        ensures
            r@ == normalized_from(self.packages(), name@, 0),
    {
        let mut k: usize = 0;
        while k < self.package_info.len()
            invariant
                k <= self.package_info@.len(),
                normalized_from(self.packages(), name@, 0) == normalized_from(self.packages(), name@, k as int),
            decreases self.package_info@.len() - k,
        {
            let pkg = &self.package_info[k];
            assert(self.packages()[k as int] == pkg_view(self.package_info@[k as int]));
            let from = dotted_dir(pkg.directory.as_str());
            match normalize_one(name, &pkg.name, &from) {
                Some(r) => {
                    return r;
                },
                None => {},
            }
            k = k + 1;
        }
        String::from_str(name)
    }
}

/// Builds the project configuration once from the declared packages.
pub fn init(packages: Vec<PackageInfo>) -> (r: PyProjectParser)
    ensures
        forall|k: int| 0 <= k < r.packages().len() ==> listed_in(packages@, packages@.len() as int, #[trigger] r.packages()[k]),
{
    PyProjectParser::new(packages)
}

/// Whether `name` belongs to the project; without a configuration nothing does.
pub fn is_internal_module(config: Option<&PyProjectParser>, name: &str) -> (r: bool)
    ensures
        config is None ==> !r,
        config matches Some(c) ==> r == exists|k: int| 0 <= k < c.packages().len() && (#[trigger] c.packages()[k]).0 == top_level(name@),
{
    match config {
        Some(c) => c.is_internal_module(name),
        None => false,
    }
}

/// `name` normalized by the configuration; without one it is unchanged.
pub fn normalize_module_name(config: Option<&PyProjectParser>, name: &str) -> (r: String)
    ensures
        config is None ==> r@ == name@,
        config matches Some(c) ==> r@ == normalized_from(c.packages(), name@, 0),
{
    match config {
        Some(c) => c.normalize_module_name(name),
        None => String::from_str(name),
    }
}

} // verus!

verus! {

/// The components `Path::components` yields for a path, each as text.
pub uninterp spec fn path_components(p: Seq<char>) -> Seq<Seq<char>>;

/// Relies on std's `Path::components`: the components depend on the text of
/// the path alone.
#[verifier::external_body]
fn components(p: &str) -> (r: Vec<String>)
    ensures
        path_list(r@) == path_components(p@),
{
    std::path::Path::new(p).components().map(|c| c.as_os_str().to_string_lossy().into_owned()).collect()
}

/// Why a file could not be given a module name.
#[derive(Debug, PartialEq, Eq)]
pub enum PathError {
    /// The file does not lie under the project root.
    NotUnderRoot,
    /// The file's path yields no module name.
    Empty,
}

/// A component that names a directory or file, not the root or `.`/`..`.
pub open spec fn is_named(c: Seq<char>) -> bool {
    c != "/"@ && c != "."@ && c != ".."@
}

/// The module name parts of relative path components: `.py` files
/// contribute their stem, except a package initializer, which contributes
/// nothing; directories contribute their name.
pub open spec fn module_parts(cs: Seq<Seq<char>>) -> Seq<Seq<char>>
    decreases cs.len(),
{
    if cs.len() == 0 {
        Seq::empty()
    } else {
        let prev = module_parts(cs.drop_last());
        let c = cs.last();
        if !is_named(c) {
            prev
        } else if c.len() >= 3 && c.subrange(c.len() - 3, c.len() as int) == ".py"@ {
            let stem = c.subrange(0, c.len() - 3);
            if stem == "__init__"@ {
                prev
            } else {
                prev.push(stem)
            }
        } else {
            prev.push(c)
        }
    }
}

fn str_is(s: &String, lit: &str) -> (r: bool)
    ensures
        r == (s@ == lit@),
{
    *s == String::from_str(lit)
}

/// The part that component `c` contributes, if any.
fn module_part(c: &String) -> (r: Option<String>)
    ensures
        r is None <==> (!is_named(c@) || (c@.len() >= 3 && c@.subrange(c@.len() - 3, c@.len() as int) == ".py"@ && c@.subrange(0, c@.len() - 3) == "__init__"@)),
        r matches Some(p) ==> p@ == if c@.len() >= 3 && c@.subrange(c@.len() - 3, c@.len() as int) == ".py"@ {
            c@.subrange(0, c@.len() - 3)
        } else {
            c@
        },
{
    if str_is(c, "/") || str_is(c, ".") || str_is(c, "..") {
        return None;
    }
    let n = c.as_str().unicode_len();
    if n >= 3 {
        let tail = String::from_str(c.as_str().substring_char(n - 3, n));
        if str_is(&tail, ".py") {
            let stem = String::from_str(c.as_str().substring_char(0, n - 3));
            if str_is(&stem, "__init__") {
                return None;
            }
            return Some(stem);
        }
    }
    Some(c.clone())
}

/// The module name for a file, given the components of its path and of the
/// project root (see `compute_module_name`).
pub open spec fn module_name_ok(
    fc: Seq<Seq<char>>,
    rc: Seq<Seq<char>>,
    cfg: Option<Seq<(Seq<char>, Seq<char>)>>,
    r: Result<String, PathError>,
) -> bool {
    let under = rc.len() <= fc.len() && fc.subrange(0, rc.len() as int) == rc;
    let parts = module_parts(fc.subrange(rc.len() as int, fc.len() as int));
    &&& (r == Err::<String, PathError>(PathError::NotUnderRoot) <==> !under)
    &&& (r == Err::<String, PathError>(PathError::Empty) <==> under && parts.len() == 0)
    &&& r matches Ok(name) ==> under && parts.len() > 0 && (match cfg {
        Some(ps) => name@ == normalized_from(ps, crate::text::join_dots(parts), 0),
        None => name@ == crate::text::join_dots(parts),
    })
}

/// The dotted module name of a file under a project root, normalized by
/// the configuration: the file's path components after those of the root,
/// `.py` stems for files, a package initializer contributing nothing.
pub fn compute_module_name(file_path: &str, project_root: &str, config: Option<&PyProjectParser>) -> (r: Result<String, PathError>)
    ensures
        module_name_ok(path_components(file_path@), path_components(project_root@), crate::imports::cfg_view(config), r),
{
    let fc = components(file_path);
    let rc = components(project_root);
    module_name_from_components(&fc, &rc, config)
}

/// The module name for a file whose path has components `fc`, under a root
/// whose path has components `rc`.
pub fn module_name_from_components(fc: &Vec<String>, rc: &Vec<String>, config: Option<&PyProjectParser>) -> (r: Result<String, PathError>)
    ensures
        module_name_ok(path_list(fc@), path_list(rc@), crate::imports::cfg_view(config), r),
{
    let ghost fv = path_list(fc@);
    let ghost rv = path_list(rc@);
    if rc.len() > fc.len() {
        return Err(PathError::NotUnderRoot);
    }
    let mut i: usize = 0;
    while i < rc.len()
        invariant
            rc@.len() <= fc@.len(),
            i <= rc@.len(),
            fv == path_list(fc@),
            rv == path_list(rc@),
            forall|j: int| 0 <= j < i ==> fv[j] == rv[j],
        decreases rc@.len() - i,
    {
        if fc[i] != rc[i] {
            assert(fv.subrange(0, rv.len() as int)[i as int] != rv[i as int]);
            return Err(PathError::NotUnderRoot);
        }
        i = i + 1;
    }
    assert(fv.subrange(0, rv.len() as int) =~= rv);
    let ghost rest = fv.subrange(rv.len() as int, fv.len() as int);
    let mut parts: Vec<String> = Vec::new();
    let mut k: usize = rc.len();
    while k < fc.len()
        invariant
            rc@.len() <= k <= fc@.len(),
            fv == path_list(fc@),
            rv == path_list(rc@),
            rest == fv.subrange(rv.len() as int, fv.len() as int),
            parts@.map_values(|s: String| s@) == module_parts(rest.take(k - rv.len())),
        decreases fc@.len() - k,
    {
        let ghost t = rest.take(k - rv.len());
        assert(rest.take(k + 1 - rv.len()) =~= t.push(fc@[k as int]@));
        assert(rest.take(k + 1 - rv.len()).drop_last() =~= t);
        match module_part(&fc[k]) {
            Some(p) => {
                let ghost old_p = parts@;
                parts.push(p);
                assert(parts@.map_values(|s: String| s@) =~= old_p.map_values(|s: String| s@).push(parts@.last()@));
            },
            None => {},
        }
        k = k + 1;
    }
    assert(rest.take(k - rv.len()) =~= rest);
    if parts.len() == 0 {
        return Err(PathError::Empty);
    }
    let full_name = crate::text::join_with_dots(parts.as_slice());
    let r = Ok(normalize_module_name(config, full_name.as_str()));
    assert(module_name_ok(fv, rv, crate::imports::cfg_view(config), r));
    r
}

} // verus!
