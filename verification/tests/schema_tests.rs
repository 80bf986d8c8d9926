use fmemo::schema::CodeBlock;
use fmemo::schema::DirectoryTree;
use fmemo::schema::FileChangeNotification;
use fmemo::schema::FileContent;
use fmemo::schema::Level;
use fmemo::schema::MemoBuilder;
use fmemo::schema::has_fmemo_files;
use fmemo::schema::is_memo_file_name;

#[test]
fn test_has_fmemo_files() {
    let tree_with_files = DirectoryTree {
        path: "/test".to_string(),
        files: vec!["test.fmemo".to_string()],
        subdirectories: vec![],
    };
    assert!(has_fmemo_files(&tree_with_files));

    let tree_with_sub_files = DirectoryTree {
        path: "/test".to_string(),
        files: vec![],
        subdirectories: vec![tree_with_files],
    };
    assert!(has_fmemo_files(&tree_with_sub_files));

    let tree_empty = DirectoryTree {
        path: "/test".to_string(),
        files: vec![],
        subdirectories: vec![],
    };
    assert!(!has_fmemo_files(&tree_empty));
}

#[test]
fn test_has_fmemo_files_deep_and_empty_chain() {
    let deep = DirectoryTree {
        path: "/a".to_string(),
        files: vec![],
        subdirectories: vec![DirectoryTree {
            path: "/a/b".to_string(),
            files: vec![],
            subdirectories: vec![DirectoryTree {
                path: "/a/b/c".to_string(),
                files: vec!["x.fmemo".to_string()],
                subdirectories: vec![],
            }],
        }],
    };
    assert!(has_fmemo_files(&deep));

    let hollow = DirectoryTree {
        path: "/a".to_string(),
        files: vec![],
        subdirectories: vec![
            DirectoryTree {
                path: "/a/b".to_string(),
                files: vec![],
                subdirectories: vec![],
            },
            DirectoryTree {
                path: "/a/c".to_string(),
                files: vec![],
                subdirectories: vec![],
            },
        ],
    };
    assert!(!has_fmemo_files(&hollow));
}

#[test]
fn test_level_constructors_and_accessors() {
    let root = Level::root();
    assert_eq!(root.level(), 0);
    let one = root.child();
    assert_eq!(one.level(), 1);
    assert_eq!(Level::new(7).level(), 7);
    assert_eq!(one.child().level(), 2);
}

#[test]
fn test_level_match_line() {
    let root = Level::root();
    assert!(root.match_line("# title"));
    assert!(root.match_line("## deeper also matches a shallower level"));
    assert!(!root.match_line("no marker"));
    assert!(!root.match_line(""));

    let two = Level::new(2);
    assert!(two.match_line("### exactly three"));
    assert!(two.match_line("#### four"));
    assert!(!two.match_line("## only two"));
}

#[test]
fn test_builder_accumulates_fields() {
    let memo = MemoBuilder::new(Level::new(1), "Name".to_string())
        .description("About".to_string())
        .content("Body".to_string())
        .add_code_block("rust".to_string(), "let x = 1;".to_string())
        .add_code_block("sh".to_string(), "ls".to_string())
        .build();
    assert_eq!(memo.level().level(), 1);
    assert_eq!(memo.title(), "Name");
    assert_eq!(memo.description(), &Some("About".to_string()));
    assert_eq!(memo.content(), &Some("Body".to_string()));
    assert_eq!(
        memo.code_blocks(),
        &vec![
            CodeBlock { language: "rust".to_string(), code: "let x = 1;".to_string() },
            CodeBlock { language: "sh".to_string(), code: "ls".to_string() },
        ]
    );
    assert_eq!(memo.children().len(), 0);
}

#[test]
fn test_builder_append_content() {
    let memo = MemoBuilder::new(Level::root(), "T".to_string())
        .append_content("first")
        .append_content(" second")
        .build();
    assert_eq!(memo.content(), &Some("first second".to_string()));

    let replaced = MemoBuilder::new(Level::root(), "T".to_string())
        .content("old".to_string())
        .append_content("+new")
        .build();
    assert_eq!(replaced.content(), &Some("old+new".to_string()));
}

#[test]
fn test_builder_add_child_order() {
    let a = MemoBuilder::new(Level::new(1), "a".to_string()).build();
    let b = MemoBuilder::new(Level::new(2), "b".to_string()).build();
    let parent = MemoBuilder::new(Level::root(), "p".to_string())
        .add_child(a)
        .add_child(b)
        .build();
    assert_eq!(parent.children().len(), 2);
    assert_eq!(parent.children()[0].title(), "a");
    assert_eq!(parent.children()[1].title(), "b");
}

#[test]
fn test_file_content_and_notification_shapes() {
    let memos = fmemo::parser::parse_memo("# T\nbody\n");
    let fc = FileContent { memos, last_modified: Some(12345) };
    assert_eq!(fc.memos.len(), 1);
    assert_eq!(fc.last_modified, Some(12345));

    let note = FileChangeNotification {
        file_path: "dir/file.fmemo".to_string(),
        memos: fmemo::parser::parse_memo("# U\n"),
    };
    assert_eq!(note.file_path, "dir/file.fmemo");
    assert_eq!(note.memos[0].title(), "U");
}

#[test]
fn test_is_memo_file_name() {
    assert!(is_memo_file_name("notes.fmemo"));
    assert!(is_memo_file_name("readme.md"));
    assert!(is_memo_file_name("a.b.fmemo"));
    assert!(!is_memo_file_name("notes.txt"));
    assert!(!is_memo_file_name("fmemo"));
    assert!(!is_memo_file_name(".fmemo"));
    assert!(!is_memo_file_name(".md"));
    assert!(!is_memo_file_name(""));
    assert!(!is_memo_file_name("notes.fmemo.bak"));
}
