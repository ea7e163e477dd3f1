use std::path::Path;

use llm_wiki::paths::{
    has_parent_component, is_markdown_file, join_relative, path_components, path_starts_with,
    relative_path, should_descend,
};

fn samples() -> Vec<String> {
    let pieces = ["", "/", "a", ".", "..", "b.md", ".x"];
    let mut out = Vec::new();
    for a in pieces {
        for b in pieces {
            for c in pieces {
                out.push(format!("{}{}{}", a, b, c));
                out.push(format!("{}/{}/{}", a, b, c));
            }
        }
    }
    out
}

fn std_components(s: &str) -> Vec<String> {
    Path::new(s)
        .components()
        .map(|c| c.as_os_str().to_string_lossy().into_owned())
        .collect()
}

fn std_is_markdown(s: &str) -> bool {
    Path::new(s)
        .extension()
        .and_then(|ext| ext.to_str())
        .map(|ext| ext.eq_ignore_ascii_case("md"))
        .unwrap_or(false)
}

#[test]
fn components_match_std() {
    for s in samples() {
        let got: Vec<String> = path_components(&s).iter().map(|c| c.iter().collect()).collect();
        assert_eq!(got, std_components(&s), "{:?}", s);
    }
}

#[test]
fn markdown_extension_matches_std() {
    let mut all = samples();
    all.extend(
        ["a.MD", "a.Md", "a.mdx", "x/.md", "x/y.md/", "x.md/..", "a.", "a..md", "é.md", "dir.md/f"]
            .iter()
            .map(|s| s.to_string()),
    );
    for s in all {
        assert_eq!(is_markdown_file(&s), std_is_markdown(&s), "{:?}", s);
    }
}

#[test]
fn strip_prefix_and_starts_with_match_std() {
    let all = samples();
    for base in &all {
        for path in &all {
            let want = Path::new(path).strip_prefix(base).ok().map(|rest| {
                rest.components()
                    .map(|c| c.as_os_str().to_string_lossy().into_owned())
                    .collect::<Vec<_>>()
                    .join("/")
            });
            assert_eq!(relative_path(base, path), want, "{:?} under {:?}", path, base);
            assert_eq!(
                path_starts_with(path, base),
                Path::new(path).starts_with(base),
                "{:?} starts with {:?}",
                path,
                base
            );
        }
    }
}

#[test]
fn path_join_matches_std() {
    for base in samples() {
        for rel in ["a", "b/c.md", "", "./x"] {
            let want = Path::new(&base).join(rel).to_string_lossy().into_owned();
            assert_eq!(join_relative(&base, rel), want, "{:?} + {:?}", base, rel);
        }
    }
}

#[test]
fn parent_components_match_std() {
    for s in samples() {
        let want = Path::new(&s)
            .components()
            .any(|c| matches!(c, std::path::Component::ParentDir));
        assert_eq!(has_parent_component(&s), want, "{:?}", s);
    }
}

#[test]
fn descent_rules() {
    assert!(!should_descend(".obsidian", true, 1, false, true));
    assert!(should_descend(".obsidian", false, 1, false, true));
    assert!(should_descend(".obsidian", true, 1, false, false));
    assert!(!should_descend(".hidden", true, 1, true, false));
    assert!(should_descend(".hidden", true, 0, true, false));
    assert!(should_descend(".hidden", true, 2, false, false));
    assert!(should_descend("visible", true, 1, true, true));
    assert!(!should_descend(".obsidian", true, 3, true, true));
}

#[test]
fn joined_paths_stay_under_their_base() {
    for base in ["", "/kb", "/kb/", "kb", "./kb", "."] {
        for rel in ["a.md", "notes/b.md", "./c.md", "", "x/./y.md"] {
            let joined = join_relative(base, rel);
            assert!(path_starts_with(&joined, base), "{:?} under {:?}", joined, base);
            let rest = relative_path(base, &joined).unwrap();
            assert!(!rest.split('/').any(|c| c == ".."), "{:?}", rest);
        }
    }
}
