use vstd::prelude::*;

use crate::paths::{DirPath, PathView, parse_path, parses_to, path_eq, split_from};

verus! {

/// One configured exclusion rule, classified by the leading character of
/// its raw text: `/...` excludes one absolute path, `.<rest>` excludes
/// `<root>/<rest>` under every configured root, and anything else
/// excludes every directory whose own name equals the rule.
pub enum IgnoreRule {
    AbsolutePath(DirPath),
    RelativePrefix(Vec<String>),
    BareName(String),
}

/// The configuration the ignore filter runs against: the classified rules
/// and the configured traversal roots (used only to resolve relative rules).
pub struct IgnoreConfig {
    pub rules: Vec<IgnoreRule>,
    pub roots: Vec<DirPath>,
}

/// Whether `rule` is the classified form of the raw rule text `s`.
pub open spec fn classifies(rule: IgnoreRule, s: Seq<char>) -> bool {
    match rule {
        IgnoreRule::AbsolutePath(p) => {
            &&& s.len() > 0
            &&& s[0] == '/'
            &&& parses_to(s, p@)
        },
        IgnoreRule::RelativePrefix(rest) => {
            &&& s.len() > 0
            &&& s[0] == '.'
            &&& rest.deep_view() == split_from(s, 1)
        },
        IgnoreRule::BareName(n) => {
            &&& (s.len() == 0 || (s[0] != '/' && s[0] != '.'))
            &&& n@ == s
        },
    }
}

/// Whether one rule excludes the directory at `path` whose own name is
/// `name`, given the configured roots.
pub open spec fn rule_matches(
    rule: IgnoreRule,
    roots: Seq<DirPath>,
    path: PathView,
    name: Seq<char>,
) -> bool {
    match rule {
        IgnoreRule::AbsolutePath(p) => path == p@,
        IgnoreRule::RelativePrefix(rest) => exists|k: int|
            0 <= k < roots.len() && path == (PathView {
                absolute: roots[k]@.absolute,
                segments: roots[k]@.segments + rest.deep_view(),
            }),
        IgnoreRule::BareName(n) => name == n@,
    }
}

/// Whether any configured rule excludes the directory at `path` named `name`.
pub open spec fn is_ignored_spec(cfg: IgnoreConfig, path: PathView, name: Seq<char>) -> bool {
    exists|r: int| 0 <= r < cfg.rules@.len() && rule_matches(cfg.rules@[r], cfg.roots@, path, name)
}

/// Classifies one raw rule text by its leading character.
pub fn classify_rule(s: &str) -> (rule: IgnoreRule)
    ensures
        classifies(rule, s@),
{
    let n = s.unicode_len();
    if n > 0 && s.get_char(0) == '/' {
        IgnoreRule::AbsolutePath(parse_path(s))
    } else if n > 0 && s.get_char(0) == '.' {
        IgnoreRule::RelativePrefix(crate::paths::parse_segments(s, 1))
    } else {
        IgnoreRule::BareName(String::from_str(s))
    }
}

/// Whether `path` equals `root` extended by the components `rest`.
#[verifier::loop_isolation(false)]
fn matches_root_plus_rest(path: &DirPath, root: &DirPath, rest: &Vec<String>) -> (r: bool)
    ensures
        r == (path@ == (PathView {
            absolute: root@.absolute,
            segments: root@.segments + rest.deep_view(),
        })),
{
    let ghost joined = PathView {
        absolute: root@.absolute,
        segments: root@.segments + rest.deep_view(),
    };
    if path.absolute != root.absolute {
        proof {
            assert(path@ != joined);
        }
        return false;
    }
    let rlen = root.segments.len();
    if path.segments.len() < rlen || path.segments.len() - rlen != rest.len() {
        proof {
            assert(path@.segments.len() != joined.segments.len());
        }
        return false;
    }
    let mut i: usize = 0;
    while i < rlen
        invariant
            0 <= i <= rlen,
            rlen == root.segments.len(),
            rlen <= path.segments.len(),
            forall|j: int| 0 <= j < i ==> path@.segments[j] == root@.segments[j],
        decreases rlen - i,
    {
        if !(path.segments[i] == root.segments[i]) {
            proof {
                assert(path@.segments[i as int] != joined.segments[i as int]);
            }
            return false;
        }
        i = i + 1;
    }
    let mut j: usize = 0;
    while j < rest.len()
        invariant
            0 <= j <= rest.len(),
            rlen == root.segments.len(),
            path.segments.len() == rlen + rest.len(),
            forall|k: int| 0 <= k < j ==> path@.segments[rlen + k] == rest.deep_view()[k],
        decreases rest.len() - j,
    {
        if !(path.segments[rlen + j] == rest[j]) {
            proof {
                assert(path@.segments[rlen + j] != joined.segments[rlen + j]);
            }
            return false;
        }
        j = j + 1;
    }
    proof {
        assert(path@.segments =~= joined.segments);
        assert(path@ =~= joined);
    }
    true
}

/// Decides whether the directory at `path`, whose own base name is `name`,
/// is excluded by some configured rule: an absolute rule excludes exactly
/// its own path, a relative rule excludes `root + rest` for every
/// configured root, and a bare-name rule excludes every directory of that
/// name.  With no matching rule the directory is kept.
pub fn is_ignored(cfg: &IgnoreConfig, path: &DirPath, name: &String) -> (r: bool)
    ensures
        r == is_ignored_spec(*cfg, path@, name@),
{
    let mut i: usize = 0;
    while i < cfg.rules.len()
        invariant
            0 <= i <= cfg.rules.len(),
            forall|r: int| 0 <= r < i ==> !rule_matches(cfg.rules@[r], cfg.roots@, path@, name@),
        decreases cfg.rules.len() - i,
    {
        let matched = match &cfg.rules[i] {
            IgnoreRule::AbsolutePath(p) => path_eq(path, p),
            IgnoreRule::RelativePrefix(rest) => {
                let mut found = false;
                let mut k: usize = 0;
                while k < cfg.roots.len()
                    invariant
                        0 <= k <= cfg.roots.len(),
                        cfg.rules@[i as int] == IgnoreRule::RelativePrefix(*rest),
                        found == exists|m: int|
                            0 <= m < k && path@ == (PathView {
                                absolute: cfg.roots@[m]@.absolute,
                                segments: cfg.roots@[m]@.segments + rest.deep_view(),
                            }),
                    decreases cfg.roots.len() - k,
                {
                    if matches_root_plus_rest(path, &cfg.roots[k], rest) {
                        found = true;
                    }
                    k = k + 1;
                }
                found
            },
            IgnoreRule::BareName(n) => *n == *name,
        };
        if matched {
            proof {
                assert(rule_matches(cfg.rules@[i as int], cfg.roots@, path@, name@));
            }
            return true;
        }
        i = i + 1;
    }
    false
}

/// A candidate subdirectory found while listing a directory: its full
/// path and its own base name.
pub struct Subdir {
    pub path: DirPath,
    pub name: String,
}

/// Spec-level value of a `Subdir`.
#[verifier::ext_equal]
pub struct SubdirView {
    pub path: PathView,
    pub name: Seq<char>,
}

impl View for Subdir {
    type V = SubdirView;

    open spec fn view(&self) -> SubdirView {
        SubdirView { path: self.path@, name: self.name@ }
    }
}

impl DeepView for Subdir {
    type V = SubdirView;

    open spec fn deep_view(&self) -> SubdirView {
        self.view()
    }
}

/// Keeps, in listing order, exactly the candidate subdirectories that no
/// configured rule excludes.  Exclusion is decided here, before any
/// recursive work is scheduled, so no task ever runs in an excluded
/// subtree.
#[verifier::loop_isolation(false)]
pub fn filter_subdirs(cands: &Vec<Subdir>, cfg: &IgnoreConfig) -> (kept: Vec<Subdir>)
    ensures
        kept.deep_view() == cands.deep_view().filter(
            |c: SubdirView| !is_ignored_spec(*cfg, c.path, c.name),
        ),
{
    broadcast use vstd::seq_lib::group_filter_ensures;

    let ghost pred = |c: SubdirView| !is_ignored_spec(*cfg, c.path, c.name);
    let mut kept: Vec<Subdir> = Vec::new();
    let mut i: usize = 0;
    proof {
        assert(cands.deep_view().take(0) =~= Seq::<SubdirView>::empty());
        reveal_with_fuel(Seq::filter, 1);
        assert(kept.deep_view() =~= cands.deep_view().take(0).filter(pred));
    }
    while i < cands.len()
        invariant
            i <= cands@.len(),
            kept.deep_view() == cands.deep_view().take(i as int).filter(pred),
        decreases cands@.len() - i,
    {
        let ghost prefix = cands.deep_view().take(i as int);
        let ghost next_prefix = cands.deep_view().take(i + 1);
        proof {
            assert(next_prefix.drop_last() =~= prefix);
            assert(next_prefix.last() == cands.deep_view()[i as int]);
        }
        let cand = &cands[i];
        if !is_ignored(cfg, &cand.path, &cand.name) {
            kept.push(Subdir { path: crate::paths::clone_path(&cand.path), name: cand.name.clone() });
        }
        proof {
            reveal_with_fuel(Seq::filter, 2);
            if pred(cands.deep_view()[i as int]) {
                assert(next_prefix.filter(pred) == prefix.filter(pred).push(next_prefix.last()));
                assert(kept.deep_view().last() == cands.deep_view()[i as int]);
                assert(kept.deep_view() =~= prefix.filter(pred).push(next_prefix.last()));
            } else {
                assert(next_prefix.filter(pred) == prefix.filter(pred));
                assert(kept.deep_view() =~= next_prefix.filter(pred));
            }
        }
        i = i + 1;
    }
    proof {
        assert(cands.deep_view().take(cands@.len() as int) =~= cands.deep_view());
    }
    kept
}

/// Builds the filter configuration from the raw configured rule texts and
/// the configured traversal roots.
pub fn build_ignore_config(ignored_directories: &Vec<String>, target_dirs: &Vec<String>) -> (cfg:
    IgnoreConfig)
    ensures
        cfg.rules@.len() == ignored_directories@.len(),
        forall|i: int|
            0 <= i < ignored_directories@.len() ==> classifies(
                cfg.rules@[i],
                ignored_directories@[i]@,
            ),
        cfg.roots@.len() == target_dirs@.len(),
        forall|i: int| 0 <= i < target_dirs@.len() ==> parses_to(target_dirs@[i]@, cfg.roots@[i]@),
{
    let mut rules: Vec<IgnoreRule> = Vec::new();
    let mut i: usize = 0;
    while i < ignored_directories.len()
        invariant
            0 <= i <= ignored_directories.len(),
            rules@.len() == i,
            forall|j: int| 0 <= j < i ==> classifies(rules@[j], ignored_directories@[j]@),
        decreases ignored_directories.len() - i,
    {
        rules.push(classify_rule(ignored_directories[i].as_str()));
        i = i + 1;
    }
    let mut roots: Vec<DirPath> = Vec::new();
    let mut k: usize = 0;
    while k < target_dirs.len()
        invariant
            0 <= k <= target_dirs.len(),
            roots@.len() == k,
            forall|j: int| 0 <= j < k ==> parses_to(target_dirs@[j]@, roots@[j]@),
        decreases target_dirs.len() - k,
    {
        roots.push(parse_path(target_dirs[k].as_str()));
        k = k + 1;
    }
    IgnoreConfig { rules, roots }
}

} // verus!
