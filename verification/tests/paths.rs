use lincol::order::{compare, Rank};
use lincol::table::Table;
use lincol::{Path, Position};

#[test]
fn root_renders_as_separator() {
    assert_eq!(Path::Root.to_string(), "/");
}

#[test]
fn key_under_root_has_one_separator() {
    let root = Path::Root;
    let path = Path::Mapping { parent: &root, key: "foo" };
    assert_eq!(path.to_string(), "/foo");
}

#[test]
fn index_under_root_has_two_separators() {
    let root = Path::Root;
    let path = Path::Sequence { parent: &root, index: 0 };
    assert_eq!(path.to_string(), "//0");
}

#[test]
fn nested_path_joins_segments() {
    let root = Path::Root;
    let foo = Path::Mapping { parent: &root, key: "foo" };
    let first = Path::Sequence { parent: &foo, index: 0 };
    let boom = Path::Mapping { parent: &first, key: "boom" };
    assert_eq!(foo.to_string(), "/foo");
    assert_eq!(first.to_string(), "/foo/0");
    assert_eq!(boom.to_string(), "/foo/0/boom");
    let inner = Path::Sequence { parent: &first, index: 12 };
    assert_eq!(inner.to_string(), "/foo/0/12");
}

#[test]
fn key_under_root_sequence_keeps_the_doubled_separator() {
    let root = Path::Root;
    let third = Path::Sequence { parent: &root, index: 2 };
    let key = Path::Mapping { parent: &third, key: "k" };
    assert_eq!(key.to_string(), "//2/k");
}

#[test]
fn indices_render_in_decimal() {
    let root = Path::Root;
    let list = Path::Mapping { parent: &root, key: "l" };
    for index in [0usize, 1, 9, 10, 11, 99, 100, 101, 1234567890, usize::MAX] {
        let path = Path::Sequence { parent: &list, index };
        assert_eq!(path.to_string(), format!("/l/{}", index));
    }
    let last = Path::Sequence { parent: &list, index: 18446744073709551615u64 as usize };
    assert!(last.to_string().starts_with("/l/"));
}

#[test]
fn keys_render_unescaped() {
    let root = Path::Root;
    let slash = Path::Mapping { parent: &root, key: "a/b" };
    let tilde = Path::Mapping { parent: &slash, key: "c~d" };
    let empty = Path::Mapping { parent: &tilde, key: "" };
    assert_eq!(slash.to_string(), "/a/b");
    assert_eq!(tilde.to_string(), "/a/b/c~d");
    assert_eq!(empty.to_string(), "/a/b/c~d/");
    let accented = Path::Mapping { parent: &root, key: "k\u{e9}y" };
    assert_eq!(accented.to_string(), "/k\u{e9}y");
}

#[test]
fn compare_orders_like_str() {
    let samples = [
        "", "/", "//0", "/a", "/a/0", "/a/1", "/a/10", "/a/2", "/ab", "/b", "/k\u{e9}y",
        "/k\u{4e16}", "/kz", "/\u{10348}", "/\u{ffff}", "/~",
    ];
    for a in samples {
        for b in samples {
            let expected = if a < b {
                Rank::Before
            } else if a == b {
                Rank::Same
            } else {
                Rank::After
            };
            assert_eq!(compare(a, b), expected, "{:?} against {:?}", a, b);
        }
    }
}

#[test]
fn compare_decides_by_prefix_and_first_difference() {
    assert_eq!(compare("/a", "/a/0"), Rank::Before);
    assert_eq!(compare("/a/0", "/a"), Rank::After);
    assert_eq!(compare("/a/9", "/a/10"), Rank::After);
    assert_eq!(compare("/a/10", "/a/10"), Rank::Same);
    assert_eq!(compare("", ""), Rank::Same);
    assert_eq!(compare("", "/"), Rank::Before);
}

#[test]
fn table_keeps_entries_sorted_and_replaces() {
    let mut table = Table::new();
    assert_eq!(table.get("/a"), None);
    table.insert("/b".to_string(), Position { line: 1, col: 1 });
    table.insert("/a".to_string(), Position { line: 2, col: 2 });
    table.insert("/c".to_string(), Position { line: 3, col: 3 });
    table.insert("/a/0".to_string(), Position { line: 4, col: 4 });
    table.insert("/b".to_string(), Position { line: 5, col: 5 });
    assert_eq!(
        table.as_vec(),
        &vec![
            ("/a".to_string(), Position { line: 2, col: 2 }),
            ("/a/0".to_string(), Position { line: 4, col: 4 }),
            ("/b".to_string(), Position { line: 5, col: 5 }),
            ("/c".to_string(), Position { line: 3, col: 3 }),
        ]
    );
    assert_eq!(table.get("/b"), Some(&Position { line: 5, col: 5 }));
    assert_eq!(table.get("/a/0"), Some(&Position { line: 4, col: 4 }));
    assert_eq!(table.get("/a/1"), None);
    assert_eq!(table.get("/"), None);
    assert_eq!(table.get("/d"), None);
}

#[test]
fn table_finds_every_entry_of_many() {
    let mut table = Table::new();
    for i in (0..200usize).rev() {
        table.insert(format!("/k{}", i * 7 % 200), Position { line: i, col: 0 });
    }
    assert_eq!(table.as_vec().len(), 200);
    for i in 0..200usize {
        assert!(table.get(&format!("/k{}", i)).is_some());
    }
    assert_eq!(table.get("/k200"), None);
    let paths: Vec<&String> = table.as_vec().iter().map(|e| &e.0).collect();
    for pair in paths.windows(2) {
        assert!(pair[0] < pair[1]);
    }
}
