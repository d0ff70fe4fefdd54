use weight::path::{canonical, resolve};

#[test]
fn resolves_sibling_import() {
    let r = resolve("/proj/src/a.ts", "./b.ts");
    assert_eq!(r, "/proj/src/b.ts");
}

#[test]
fn resolves_parent_import() {
    let r = resolve("/proj/src/a.ts", "../lib/util.ts");
    assert_eq!(r, "/proj/lib/util.ts");
}

#[test]
fn resolves_plain_relative_import() {
    let r = resolve("/proj/src/a.ts", "b.ts");
    assert_eq!(r, "/proj/src/b.ts");
}

#[test]
fn resolves_absolute_import_on_its_own() {
    let r = resolve("/proj/src/a.ts", "/other/c.ts");
    assert_eq!(r, "/other/c.ts");
}

#[test]
fn resolves_dot_segments_and_doubled_separators() {
    let r = resolve("/proj/src/a.ts", ".//sub/./deep//../b.ts");
    assert_eq!(r, "/proj/src/sub/b.ts");
}

#[test]
fn parent_of_root_stays_at_root() {
    let r = resolve("/a.ts", "../../b.ts");
    assert_eq!(r, "/b.ts");
}

#[test]
fn canonical_removes_dot_and_dotdot() {
    assert_eq!(canonical("/a/./b/../c.ts"), "/a/c.ts");
    assert_eq!(canonical("/a//b/"), "/a/b");
    assert_eq!(canonical("/"), "/");
    assert_eq!(canonical("/.."), "/");
}
