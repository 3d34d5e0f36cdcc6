use askbend::{Entry, FileMeta, FileOperator};

fn entry(path: &str, is_dir: bool) -> Entry {
    let p = std::path::Path::new(path);
    Entry {
        path: path.to_string(),
        file_name: p.file_name().map(|n| n.to_string_lossy().to_string()).unwrap_or_default(),
        parent: p.parent().map(|d| d.to_string_lossy().into_owned()),
        extension: p.extension().map(|e| e.to_string_lossy().to_string()),
        is_dir,
        modified: 1688000000,
    }
}

fn summary(metas: &[FileMeta]) -> Vec<(&str, &str, &str, u64)> {
    metas
        .iter()
        .map(|m| (m.dir.as_str(), m.file_name.as_str(), m.full_path.as_str(), m.modified))
        .collect()
}

#[test]
fn test_list() {
    let operator = FileOperator::create("tests/testdata/", "md", &[]);
    let entries = vec![
        entry("tests/testdata", true),
        entry("tests/testdata/1.md", false),
        entry("tests/testdata/hash.md", false),
        entry("tests/testdata/rust.rs", false),
    ];
    let metas = operator.list(&entries);
    assert!(metas.len() == 2);
    assert!(metas[0].file_name == "1.md");
    assert_eq!(metas[0].dir, "tests/testdata");
    assert_eq!(metas[0].full_path, "tests/testdata/1.md");
}

#[test]
fn create_keeps_what_it_is_given() {
    let ignore = vec!["target".to_string(), ".git".to_string()];
    let operator = FileOperator::create("data/", "md", &ignore);
    assert_eq!(operator.data_path, "data/");
    assert_eq!(operator.file_ext, "md");
    assert_eq!(operator.ignore_dirs, ignore);
}

#[test]
fn directories_with_an_ignored_name_are_skipped() {
    let ignore = vec!["target".to_string(), ".git".to_string()];
    let operator = FileOperator::create("data/", "md", &ignore);
    assert!(operator.is_skipped_entry("target", true));
    assert!(operator.is_skipped_entry("my-target-dir", true));
    assert!(operator.is_skipped_entry(".github", true));
    assert!(!operator.is_skipped_entry("docs", true));
    assert!(!operator.is_skipped_entry("target", false));
    assert!(!operator.is_skipped_entry("target.md", false));
    let none = FileOperator::create("data/", "md", &[]);
    assert!(!none.is_skipped_entry("target", true));
    let all = FileOperator::create("data/", "md", &[String::new()]);
    assert!(all.is_skipped_entry("anything", true));
}

#[test]
fn only_files_with_the_extension_are_selected() {
    let operator = FileOperator::create("data/", "md", &[]);
    assert!(operator.select(&entry("data/a.md", false)).is_some());
    assert!(operator.select(&entry("data/a.MD", false)).is_none());
    assert!(operator.select(&entry("data/a.mdx", false)).is_none());
    assert!(operator.select(&entry("data/md", false)).is_none());
    assert!(operator.select(&entry("data/dir.md", true)).is_none());
    let meta = operator.select(&entry("a.md", false)).unwrap();
    assert_eq!(summary(&[meta]), vec![("", "a.md", "a.md", 1688000000)]);
    let mut orphan = entry("a.md", false);
    orphan.parent = None;
    assert_eq!(operator.select(&orphan).unwrap().dir, "");
}

#[test]
fn list_keeps_the_order_of_the_walk() {
    let operator = FileOperator::create("d", "rs", &[]);
    let entries = vec![
        entry("d/z.rs", false),
        entry("d/a.md", false),
        entry("d/sub", true),
        entry("d/sub/m.rs", false),
        entry("d/a.rs", false),
    ];
    let metas = operator.list(&entries);
    assert_eq!(
        summary(&metas),
        vec![
            ("d", "z.rs", "d/z.rs", 1688000000),
            ("d/sub", "m.rs", "d/sub/m.rs", 1688000000),
            ("d", "a.rs", "d/a.rs", 1688000000),
        ]
    );
    assert!(operator.list(&Vec::new()).is_empty());
}
