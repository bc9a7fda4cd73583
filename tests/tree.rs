use icontree::file::{extension, icons_by_type, File, FileType, NodeKind};
use icontree::icons::Icons;
use icontree::order::name_less;
use icontree::tree::{summary, to_decimal, Config, Node, State, Tree, OVERVIEW_LIMIT};

const EMPTY: phf::Map<&'static str, &'static str> = phf::Map {
    key: 0,
    disps: &[],
    entries: &[],
};

// With a single entry every key hashes to index 0, so one displacement pair
// is a complete table.
const TXT: phf::Map<&'static str, &'static str> = phf::Map {
    key: 0,
    disps: &[(0, 0)],
    entries: &[("txt", "\u{f15c}")],
};

const NAMED: phf::Map<&'static str, &'static str> = phf::Map {
    key: 0,
    disps: &[(0, 0)],
    entries: &[("cargo.toml", "\u{e7a8}")],
};

const DIR: &str = "\u{f115}";
const PLAIN: &str = "\u{f016}";

fn no_icons() -> Icons {
    Icons::new(&EMPTY, &EMPTY)
}

fn config(all: bool, directory_only: bool, limit: u32) -> Config {
    Config {
        directory: "test".to_string(),
        all,
        directory_only,
        limit,
        full_path: false,
        overview: false,
    }
}

fn entry(parent: &str, name: &str, ftype: FileType, children: Vec<Node>) -> Node {
    let path = if parent.is_empty() {
        name.to_string()
    } else {
        format!("{}/{}", parent, name)
    };
    Node {
        file: File::new(path, Some(name.to_string()), ftype),
        children,
    }
}

fn dir(parent: &str, name: &str, children: Vec<Node>) -> Node {
    entry(parent, name, FileType::Directory, children)
}

fn plain(parent: &str, name: &str) -> Node {
    entry(parent, name, FileType::File { executable: false }, Vec::new())
}

// test/{a/b, c.txt, d/e/f/g, d/h.txt, d.txt}, children given out of order.
fn sample() -> Node {
    let g = dir("test/d/e/f", "g", Vec::new());
    let f = dir("test/d/e", "f", vec![g]);
    let e = dir("test/d", "e", vec![f]);
    let d = dir("test", "d", vec![plain("test/d", "h.txt"), e]);
    let a = dir("test", "a", vec![dir("test/a", "b", Vec::new())]);
    dir(
        "",
        "test",
        vec![plain("test", "d.txt"), d, plain("test", "c.txt"), a],
    )
}

fn render(cfg: Config, root: &Node, icons: &Icons) -> Vec<String> {
    Tree::new(cfg).tree(root, icons)
}

#[test]
fn tree_test() {
    let output: Vec<u8> = Vec::new();
    let expected = "";

    let actual = String::from_utf8(output).expect("Not UTF-8");
    assert_eq!(expected, actual);
}

#[test]
fn sample_tree_renders_in_order() {
    let lines = render(config(false, false, 5), &sample(), &no_icons());
    let expected = vec![
        format!("{DIR} test"),
        format!("├── {DIR} a"),
        format!("│   └── {DIR} b"),
        format!("├── {PLAIN} c.txt"),
        format!("├── {DIR} d"),
        format!("│   ├── {DIR} e"),
        format!("│   │   └── {DIR} f"),
        format!("│   │       └── {DIR} g"),
        format!("│   └── {PLAIN} h.txt"),
        format!("└── {PLAIN} d.txt"),
        "6 directories and 3 files".to_string(),
    ];
    assert_eq!(lines, expected);
}

#[test]
fn directories_only_drops_files() {
    let lines = render(config(false, true, 5), &sample(), &no_icons());
    assert_eq!(lines.last().unwrap(), "6 directories and 0 files");
    assert!(lines.iter().all(|l| !l.contains(".txt")));
    assert_eq!(lines.len(), 8);
    assert_eq!(lines[3], format!("└── {DIR} d"));
    assert_eq!(lines[4], format!("    └── {DIR} e"));
}

#[test]
fn symlink_shows_its_target() {
    let icons = no_icons();
    for valid in [false, true] {
        let link = File::new(
            "dir/link".to_string(),
            Some("link".to_string()),
            FileType::Symlink {
                target: "target.txt".to_string(),
                to_dir: false,
                valid,
            },
        );
        assert_eq!(link.display(&icons, false), "\u{f481} link ⇒ target.txt");
    }
}

#[test]
fn siblings_sorted_and_hidden_entries_placed() {
    let root = dir(
        "",
        "r",
        vec![
            plain("r", "b"),
            plain("r", ".hidden"),
            plain("r", "B"),
            plain("r", "a"),
        ],
    );
    let shown = render(config(true, false, 5), &root, &no_icons());
    assert_eq!(
        shown[1..5].to_vec(),
        vec![
            format!("├── {PLAIN} .hidden"),
            format!("├── {PLAIN} B"),
            format!("├── {PLAIN} a"),
            format!("└── {PLAIN} b"),
        ]
    );
    let hidden = render(config(false, false, 5), &root, &no_icons());
    assert!(hidden.iter().all(|l| !l.contains(".hidden")));
    assert_eq!(hidden.last().unwrap(), "0 directories and 3 files");
}

#[test]
fn depth_limit_stops_descent() {
    let lines = render(config(false, false, 1), &sample(), &no_icons());
    // Levels 0 and 1 are listed; e's listing (level 2) is not.
    assert!(lines.iter().any(|l| l.ends_with(" e")));
    assert!(!lines.iter().any(|l| l.ends_with(" f")));
    assert!(lines.iter().all(|l| !l.starts_with("│   │   ")));
    assert_eq!(lines.last().unwrap(), "4 directories and 3 files");
    let root_only = render(config(false, false, 0), &sample(), &no_icons());
    assert_eq!(root_only.len(), 6);
    assert_eq!(root_only.last().unwrap(), "2 directories and 2 files");
}

#[test]
fn one_corner_per_group() {
    let lines = render(config(false, false, 5), &sample(), &no_icons());
    let corners_top = lines.iter().filter(|l| l.starts_with("└──")).count();
    let corners_second = lines.iter().filter(|l| l.starts_with("│   └──")).count();
    assert_eq!(corners_top, 1);
    // a's group and d's group
    assert_eq!(corners_second, 2);
}

#[test]
fn overview_cuts_after_five() {
    let mut kids = Vec::new();
    for name in ["g", "f", "e", "d", "c", "b", "a"] {
        kids.push(dir("r", name, vec![plain("x", "inner")]));
    }
    let root = dir("", "r", kids);
    let mut cfg = config(false, false, 0);
    cfg.overview = true;
    let lines = render(cfg, &root, &no_icons());
    assert_eq!(OVERVIEW_LIMIT, 5);
    assert_eq!(lines.len(), 1 + 5 + 1 + 1);
    assert_eq!(lines[1], format!("├── {DIR} a"));
    assert_eq!(lines[5], format!("├── {DIR} e"));
    assert_eq!(lines[6], "    ...");
    assert_eq!(lines[7], "5 directories and 0 files");
}

#[test]
fn overview_keeps_short_listings() {
    let root = dir("", "r", vec![plain("r", "x"), plain("r", "y")]);
    let mut cfg = config(false, false, 3);
    cfg.overview = true;
    let lines = render(cfg, &root, &no_icons());
    assert_eq!(lines.len(), 4);
    assert_eq!(lines[2], format!("└── {PLAIN} y"));
}

#[test]
fn full_path_labels_children() {
    let mut cfg = config(false, false, 5);
    cfg.full_path = true;
    let lines = render(cfg, &sample(), &no_icons());
    assert_eq!(lines[0], format!("{DIR} test"));
    assert_eq!(lines[2], format!("│   └── {DIR} test/a/b"));
}

#[test]
fn tables_take_precedence() {
    let icons = Icons::new(&NAMED, &TXT);
    let txt = File::new("n.txt".to_string(), Some("n.txt".to_string()), FileType::File { executable: true });
    assert_eq!(txt.display(&icons, false), "\u{f15c} n.txt");
    let named = File::new(
        "p/cargo.toml".to_string(),
        Some("cargo.toml".to_string()),
        FileType::File { executable: false },
    );
    assert_eq!(named.display(&icons, false), "\u{e7a8} cargo.toml");
    let other = File::new("x.rs".to_string(), Some("x.rs".to_string()), FileType::File { executable: true });
    assert_eq!(other.display(&icons, false), "\u{f489} x.rs");
    let lines = render(config(false, false, 5), &sample(), &icons);
    assert_eq!(lines[3], "├── \u{f15c} c.txt");
}

#[test]
fn extension_of_names() {
    assert_eq!(extension("archive.tar.gz"), Some("gz".to_string()));
    assert_eq!(extension(".bashrc"), None);
    assert_eq!(extension(".eslintrc.json"), Some("json".to_string()));
    assert_eq!(extension("foo."), Some(String::new()));
    assert_eq!(extension("noext"), None);
    assert_eq!(extension(""), None);
}

#[test]
fn name_without_base_uses_path() {
    let f = File::new("/".to_string(), None, FileType::Directory);
    assert_eq!(f.name, "/");
    assert_eq!(f.ext, None);
    assert_eq!(f.display(&no_icons(), false), format!("{DIR} /"));
}

#[test]
fn classify_by_kind_and_mode() {
    let e = String::new;
    assert!(matches!(FileType::classify(NodeKind::Regular, 0o644, e(), false, false), FileType::File { executable: false }));
    assert!(matches!(FileType::classify(NodeKind::Regular, 0o755, e(), false, false), FileType::File { executable: true }));
    assert!(matches!(FileType::classify(NodeKind::Regular, 0o010, e(), false, false), FileType::File { executable: true }));
    assert!(matches!(FileType::classify(NodeKind::Regular, 0o001, e(), false, false), FileType::File { executable: true }));
    assert!(matches!(FileType::classify(NodeKind::Dir, 0o755, e(), false, false), FileType::Directory));
    assert!(matches!(FileType::classify(NodeKind::Fifo, 0, e(), false, false), FileType::Pipe));
    assert!(matches!(FileType::classify(NodeKind::Sock, 0, e(), false, false), FileType::Socket));
    assert!(matches!(FileType::classify(NodeKind::Block, 0, e(), false, false), FileType::BlockDevice));
    assert!(matches!(FileType::classify(NodeKind::Char, 0, e(), false, false), FileType::CharDevice));
    assert!(matches!(FileType::classify(NodeKind::Other, 0, e(), false, false), FileType::Special));
    match FileType::classify(NodeKind::Link, 0o777, "t".to_string(), true, false) {
        FileType::Symlink { target, to_dir, valid } => {
            assert_eq!(target, "t");
            assert!(to_dir);
            assert!(!valid);
        }
        _ => panic!("expected a link"),
    }
}

#[test]
fn default_glyphs() {
    let mk = |t| File::new("x".to_string(), Some("x".to_string()), t);
    assert_eq!(icons_by_type(&mk(FileType::File { executable: true })), "\u{f489}");
    assert_eq!(icons_by_type(&mk(FileType::File { executable: false })), "\u{f016}");
    assert_eq!(icons_by_type(&mk(FileType::Directory)), "\u{f115}");
    assert_eq!(
        icons_by_type(&mk(FileType::Symlink { target: String::new(), to_dir: true, valid: true })),
        "\u{f482}"
    );
    assert_eq!(icons_by_type(&mk(FileType::Pipe)), "\u{f731}");
    assert_eq!(icons_by_type(&mk(FileType::Special)), "\u{f2dc}");
}

#[test]
fn names_compare_by_character() {
    assert!(name_less("a", "b"));
    assert!(!name_less("b", "a"));
    assert!(name_less("d", "d.txt"));
    assert!(name_less("Z", "a"));
    assert!(name_less(".git", "a"));
    assert!(!name_less("same", "same"));
    assert!(name_less("", "x"));
}

#[test]
fn numbers_and_summary() {
    assert_eq!(to_decimal(0), "0");
    assert_eq!(to_decimal(1234), "1234");
    assert_eq!(to_decimal(usize::MAX), usize::MAX.to_string());
    assert_eq!(summary(6, 3), "6 directories and 3 files");
}

#[test]
fn select_filters_and_sorts() {
    let kids = vec![
        plain("r", "z"),
        dir("r", ".cache", Vec::new()),
        dir("r", "m", Vec::new()),
        plain("r", ".env"),
    ];
    assert_eq!(Tree::new(config(false, false, 5)).select(&kids), vec![2, 0]);
    assert_eq!(Tree::new(config(true, false, 5)).select(&kids), vec![1, 3, 2, 0]);
    assert_eq!(Tree::new(config(true, true, 5)).select(&kids), vec![1, 2]);
    let t = Tree::new(config(false, true, 5));
    assert!(!t.entry_predicate(&kids[0].file));
    assert!(!t.entry_predicate(&kids[1].file));
    assert!(t.entry_predicate(&kids[2].file));
}

#[test]
fn state_and_shown() {
    let s = State::new("d".to_string(), 3, "│   ".to_string());
    assert_eq!(s.depth, 3);
    assert_eq!(s.dir, "d");
    assert_eq!(s.prefix, "│   ");
    let mut cfg = config(false, false, 5);
    cfg.overview = true;
    let t = Tree::new(cfg);
    assert_eq!(t.shown(9), 5);
    assert_eq!(t.shown(4), 4);
    assert_eq!(Tree::new(config(false, false, 5)).shown(9), 9);
}
