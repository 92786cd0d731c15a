use std::cmp::Ordering;

use strata::model::Location;

fn native(path: &str) -> Option<Vec<u8>> {
    Location::local(path).native_path().map(|p| p.to_vec())
}

fn parent_text(path: &str) -> Option<String> {
    Location::local(path)
        .parent()
        .map(|l| String::from_utf8(l.native_path().expect("native").to_vec()).expect("utf-8"))
}

#[test]
fn parent_follows_path_components() {
    assert_eq!(parent_text("/home/example"), Some("/home".to_string()));
    assert_eq!(parent_text("/home"), Some("/".to_string()));
    assert_eq!(parent_text("/"), None);
    assert_eq!(parent_text(""), None);
    assert_eq!(parent_text("a"), Some("".to_string()));
    assert_eq!(parent_text("."), Some("".to_string()));
    assert_eq!(parent_text("./a"), Some(".".to_string()));
    assert_eq!(parent_text("/a/b/"), Some("/a".to_string()));
    assert_eq!(parent_text("a//b/./"), Some("a".to_string()));
    assert_eq!(parent_text("/a/../b"), Some("/a/..".to_string()));
    assert!(Location::uri("trash:///").parent().is_none());
}

#[test]
fn breadcrumbs_run_from_the_root_to_the_location() {
    let crumbs = Location::local("/home/example").breadcrumbs();
    assert_eq!(
        crumbs,
        vec![
            Location::local("/"),
            Location::local("/home"),
            Location::local("/home/example"),
        ]
    );
    let relative = Location::local("a/b").breadcrumbs();
    assert_eq!(native("a/b"), Some(b"a/b".to_vec()));
    assert_eq!(relative.len(), 3);
    assert_eq!(relative[0].native_path(), Some(&b""[..]));
    assert_eq!(relative[1].native_path(), Some(&b"a"[..]));
    let uri = Location::uri("sftp://host/dir");
    assert_eq!(uri.breadcrumbs(), vec![uri.clone()]);
}

#[test]
fn display_names() {
    assert_eq!(Location::local("/home/example").display_name(), "example");
    assert_eq!(Location::local("/home/example/").display_name(), "example");
    assert_eq!(Location::local("/").display_name(), "/");
    assert_eq!(Location::local("/a/..").display_name(), "/a/..");
    assert_eq!(Location::uri("trash:///").display_name(), "Trash");
    assert_eq!(Location::uri("sftp://host/dir/").display_name(), "dir");
    assert_eq!(Location::uri("plain").display_name(), "plain");
    assert_eq!(Location::uri("///").display_name(), "");
}

#[test]
fn display_path_reads_invalid_bytes_lossily() {
    let location = Location::native(vec![b'/', b't', 0xff]);
    assert_eq!(location.display_path(), "/t\u{FFFD}");
    assert_eq!(location.native_path(), Some(&[b'/', b't', 0xff][..]));
    assert_eq!(Location::uri("trash:///").display_path(), "trash:///");
}

#[test]
fn uri_and_native_values() {
    assert_eq!(Location::uri("trash:///").uri_value(), Some("trash:///"));
    assert_eq!(Location::uri("trash:///").native_path(), None);
    assert_eq!(Location::local("/tmp").uri_value(), None);
    assert!(Location::local("/tmp").is_absolute_native());
    assert!(!Location::local("tmp").is_absolute_native());
    assert!(!Location::uri("/tmp").is_absolute_native());
}

#[test]
fn equality_compares_components() {
    assert_eq!(Location::local("/tmp/"), Location::local("/tmp"));
    assert_eq!(Location::local("/tmp/./x"), Location::local("/tmp//x"));
    assert_ne!(Location::local("/tmp"), Location::local("tmp"));
    assert_ne!(Location::local("/tmp"), Location::uri("/tmp"));
}

#[test]
fn within_and_rebase() {
    let file = Location::local("/a/b/c");
    assert!(file.is_within(&Location::local("/a")));
    assert!(file.is_within(&Location::local("/a/b/c/")));
    assert!(!Location::local("/ab").is_within(&Location::local("/a")));
    assert!(!file.is_within(&Location::uri("/a")));

    let moved = file
        .rebase(&Location::local("/a"), &Location::local("/x"))
        .expect("rebased");
    assert_eq!(moved.native_path(), Some(&b"/x/b/c"[..]));
    let moved = file
        .rebase(&Location::local("/a/"), &Location::local("/x/"))
        .expect("rebased");
    assert_eq!(moved.native_path(), Some(&b"/x/b/c"[..]));
    let same = file
        .rebase(&file, &Location::local("/y"))
        .expect("rebased");
    assert_eq!(same.native_path(), Some(&b"/y/"[..]));
    assert!(file
        .rebase(&Location::local("/q"), &Location::local("/x"))
        .is_none());
    assert!(file
        .rebase(&Location::local("/a"), &Location::uri("x"))
        .is_none());
}

#[test]
fn compare_orders_native_before_uri() {
    assert_eq!(
        Location::local("/a").compare(&Location::local("/b")),
        Ordering::Less
    );
    assert_eq!(
        Location::local("/a/").compare(&Location::local("/a")),
        Ordering::Equal
    );
    assert_eq!(
        Location::local("/a/b").compare(&Location::local("/a")),
        Ordering::Greater
    );
    assert_eq!(
        Location::local("/z").compare(&Location::local("a")),
        Ordering::Less
    );
    assert_eq!(
        Location::local("/a/..").compare(&Location::local("/a/-")),
        Ordering::Less
    );
    assert_eq!(
        Location::local("/z").compare(&Location::uri("a")),
        Ordering::Less
    );
    assert_eq!(
        Location::uri("b").compare(&Location::uri("a")),
        Ordering::Greater
    );
    assert_eq!(
        Location::uri("a").compare(&Location::local("/a")),
        Ordering::Greater
    );
}

#[test]
fn breadcrumbs_form_a_parent_chain() {
    for path in ["/home/example/Pictures", "a/./b//c/", "./x", "/"] {
        let crumbs = Location::local(path).breadcrumbs();
        assert_eq!(crumbs.last(), Some(&Location::local(path)));
        assert!(crumbs[0].parent().is_none());
        for pair in crumbs.windows(2) {
            assert_eq!(pair[1].parent().as_ref(), Some(&pair[0]));
        }
    }
}

#[test]
fn rebased_locations_lie_within_the_target() {
    let to = Location::local("/target/dir");
    for (path, from) in [("/a/b/c", "/a"), ("/a/b/c/", "/a/b/"), ("rel/x", "rel")] {
        let moved = Location::local(path)
            .rebase(&Location::local(from), &to)
            .expect("rebased");
        assert!(moved.is_within(&to));
    }
}

#[test]
fn compare_is_equal_exactly_for_equal_locations() {
    let samples = [
        Location::local("/a"),
        Location::local("/a/"),
        Location::local("/a/b"),
        Location::local("a"),
        Location::uri("a"),
        Location::uri("b"),
    ];
    for x in &samples {
        for y in &samples {
            assert_eq!(x.compare(y) == Ordering::Equal, x == y);
            assert_eq!(x.compare(y), y.compare(x).reverse());
        }
    }
}

#[test]
fn rebasing_back_returns_to_the_same_place() {
    let cases = [
        ("/a/b/c", "/a", "/target/dir"),
        ("/a/b/c/", "/a/b/", "/x"),
        ("rel/x/y", "rel", "other"),
        ("/a/b", "/a", ""),
        ("/a", "/a", "/z"),
    ];
    for (path, from, to) in cases {
        let start = Location::local(path);
        let from = Location::local(from);
        let to = Location::local(to);
        let moved = start.rebase(&from, &to).expect("rebased");
        let back = moved.rebase(&to, &from).expect("rebased back");
        assert_eq!(back, start);
    }
}

#[test]
fn rebasing_from_the_empty_path_cannot_always_be_undone() {
    let start = Location::local("/a");
    let from = Location::local("");
    let to = Location::local("/b");
    let moved = start.rebase(&from, &to).expect("rebased");
    assert_eq!(moved, Location::local("/a"));
    assert_eq!(moved.rebase(&to, &from), None);
}

#[test]
fn rebase_exactly_when_within_the_source() {
    assert_eq!(
        Location::local("/a/b/c").rebase(&Location::local("/a"), &Location::local("/x")),
        Some(Location::local("/x/b/c"))
    );
    assert_eq!(
        Location::local("/ab").rebase(&Location::local("/a"), &Location::local("/x")),
        None
    );
    assert!(!Location::local("/ab").is_within(&Location::local("/a")));
    assert_eq!(
        Location::local("/a/b").rebase(&Location::local("/a"), &Location::uri("x")),
        None
    );
}
