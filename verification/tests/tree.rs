use dirlist::entry::{EntryKind, RawEntry, RawMeta};
use dirlist::listing::classify_compact;
use dirlist::paint::{category, colored, paint, tint, Category, Tint};
use dirlist::tree::{root_line, TreeNode};
use dirlist::walk::{Action, TreeWalk, DEFAULT_MAX_DEPTH};

fn file(name: &str) -> RawEntry {
    RawEntry::new(
        name.as_bytes().to_vec(),
        Some(RawMeta { is_dir: false, len: 1, modified: None, mode: 0o644, uid: 0 }),
    )
}

fn dir(name: &str) -> RawEntry {
    RawEntry::new(
        name.as_bytes().to_vec(),
        Some(RawMeta { is_dir: true, len: 1, modified: None, mode: 0o755, uid: 0 }),
    )
}

fn plain(text: &str) -> String {
    let mut out = String::new();
    let mut rest = text;
    while let Some(start) = rest.find('\u{1b}') {
        out.push_str(&rest[..start]);
        let end = rest[start..].find('m').unwrap();
        rest = &rest[start + end + 1..];
    }
    out.push_str(rest);
    out
}

fn listing(path: &[Vec<u8>]) -> Vec<RawEntry> {
    let path: Vec<&[u8]> = path.iter().map(|n| n.as_slice()).collect();
    match path.as_slice() {
        [] => vec![file("b.txt"), dir("A"), file(".hidden"), dir("src"), dir(".git")],
        [b"A"] => vec![],
        [b"src"] => vec![file("main.rs"), dir("deep"), file("lib.rs")],
        [b"src", b"deep"] => vec![dir("deeper"), file("x.json")],
        [b"src", b"deep", b"deeper"] => vec![file("too_deep.png")],
        [b".git"] => vec![file("HEAD")],
        _ => panic!("a directory was asked for that should not be read"),
    }
}

fn run(show_hidden: bool, max_depth: usize) -> (Vec<TreeNode>, Vec<Vec<Vec<u8>>>) {
    let mut walk = TreeWalk::new(show_hidden, max_depth);
    let mut nodes = Vec::new();
    let mut asked = Vec::new();
    let mut input = None;
    for _ in 0..1000 {
        let (next, action) = walk.step(input.take());
        walk = next;
        match action {
            Action::List(path) => {
                input = Some(listing(&path));
                asked.push(path);
            }
            Action::Visit(node) => nodes.push(node),
            Action::Done => return (nodes, asked),
        }
    }
    panic!("the walk did not end");
}

fn lines(nodes: &[TreeNode]) -> Vec<String> {
    nodes.iter().map(|n| plain(&n.line())).collect()
}

#[test]
fn categories_go_by_extension() {
    assert_eq!(category(false, &b"main.rs".to_vec()), Category::Source);
    assert_eq!(category(false, &b"a.py".to_vec()), Category::Source);
    assert_eq!(category(false, &b"a.js".to_vec()), Category::Source);
    assert_eq!(category(false, &b"a.ts".to_vec()), Category::Source);
    assert_eq!(category(false, &b"a.go".to_vec()), Category::Source);
    assert_eq!(category(false, &b"a.cpp".to_vec()), Category::Source);
    assert_eq!(category(false, &b"a.c".to_vec()), Category::Source);
    assert_eq!(category(false, &b"A.java".to_vec()), Category::Source);
    assert_eq!(category(false, &b"b.txt".to_vec()), Category::Document);
    assert_eq!(category(false, &b"README.md".to_vec()), Category::Document);
    assert_eq!(category(false, &b"x.readme".to_vec()), Category::Document);
    assert_eq!(category(false, &b"x.json".to_vec()), Category::Data);
    assert_eq!(category(false, &b"x.yaml".to_vec()), Category::Data);
    assert_eq!(category(false, &b"x.yml".to_vec()), Category::Data);
    assert_eq!(category(false, &b"Cargo.toml".to_vec()), Category::Data);
    assert_eq!(category(false, &b"x.xml".to_vec()), Category::Data);
    assert_eq!(category(false, &b"p.png".to_vec()), Category::Image);
    assert_eq!(category(false, &b"p.jpg".to_vec()), Category::Image);
    assert_eq!(category(false, &b"p.jpeg".to_vec()), Category::Image);
    assert_eq!(category(false, &b"p.gif".to_vec()), Category::Image);
    assert_eq!(category(false, &b"p.svg".to_vec()), Category::Image);
    assert_eq!(category(false, &b"p.webp".to_vec()), Category::Image);
}

#[test]
fn the_extension_is_what_follows_the_last_dot() {
    assert_eq!(category(false, &b"a.tar.gz".to_vec()), Category::Plain);
    assert_eq!(category(false, &b"a.rs.txt".to_vec()), Category::Document);
    assert_eq!(category(false, &b".config.json".to_vec()), Category::Data);
    assert_eq!(category(false, &b"a..rs".to_vec()), Category::Source);
}

#[test]
fn names_without_an_extension_are_plain() {
    assert_eq!(category(false, &b"Makefile".to_vec()), Category::Plain);
    assert_eq!(category(false, &b"rs".to_vec()), Category::Plain);
    assert_eq!(category(false, &b".rs".to_vec()), Category::Plain);
    assert_eq!(category(false, &b".bashrc".to_vec()), Category::Plain);
    assert_eq!(category(false, &b"rs.".to_vec()), Category::Plain);
    assert_eq!(category(false, &b"a.RS".to_vec()), Category::Plain);
    assert_eq!(category(false, &b"a.rss".to_vec()), Category::Plain);
    assert_eq!(category(false, &b"a.r".to_vec()), Category::Plain);
    assert_eq!(category(false, &Vec::new()), Category::Plain);
}

#[test]
fn a_directory_is_a_directory_whatever_its_name() {
    assert_eq!(category(true, &b"main.rs".to_vec()), Category::Directory);
    assert_eq!(category(true, &b"A".to_vec()), Category::Directory);
}

#[test]
fn each_category_has_its_colour() {
    assert_eq!(tint(Category::Directory), Tint::BrightBlue);
    assert_eq!(tint(Category::Source), Tint::BrightGreen);
    assert_eq!(tint(Category::Document), Tint::BrightYellow);
    assert_eq!(tint(Category::Data), Tint::BrightCyan);
    assert_eq!(tint(Category::Image), Tint::BrightMagenta);
    assert_eq!(tint(Category::Plain), Tint::White);
}

#[test]
fn colours_are_written_as_escape_sequences() {
    assert_eq!(colored("x", Tint::Red), "\u{1b}[31mx\u{1b}[39m");
    assert_eq!(colored("x", Tint::White), "\u{1b}[37mx\u{1b}[39m");
    assert_eq!(colored("x", Tint::BrightGreen), "\u{1b}[92mx\u{1b}[39m");
    assert_eq!(colored("x", Tint::BrightYellow), "\u{1b}[93mx\u{1b}[39m");
    assert_eq!(colored("x", Tint::BrightBlue), "\u{1b}[94mx\u{1b}[39m");
    assert_eq!(colored("x", Tint::BrightMagenta), "\u{1b}[95mx\u{1b}[39m");
    assert_eq!(colored("x", Tint::BrightCyan), "\u{1b}[96mx\u{1b}[39m");
    assert_eq!(colored("", Tint::Red), "\u{1b}[31m\u{1b}[39m");
}

#[test]
fn a_directory_is_painted_bold_and_blue() {
    assert_eq!(paint("A", Category::Directory), "\u{1b}[1m\u{1b}[94mA\u{1b}[39m\u{1b}[0m");
    assert_eq!(root_line("proj"), "\u{1b}[1m\u{1b}[94mproj\u{1b}[39m\u{1b}[0m");
}

#[test]
fn files_are_painted_in_the_colour_of_their_category() {
    assert_eq!(paint("main.rs", Category::Source), "\u{1b}[92mmain.rs\u{1b}[39m");
    assert_eq!(paint("b.txt", Category::Document), "\u{1b}[93mb.txt\u{1b}[39m");
    assert_eq!(paint("x.json", Category::Data), "\u{1b}[96mx.json\u{1b}[39m");
    assert_eq!(paint("p.png", Category::Image), "\u{1b}[95mp.png\u{1b}[39m");
    assert_eq!(paint("Makefile", Category::Plain), "\u{1b}[37mMakefile\u{1b}[39m");
}

#[test]
fn a_line_is_indentation_connector_and_painted_name() {
    let node = TreeNode {
        entry: classify_compact(&file("b.txt")),
        category: Category::Document,
        depth: 2,
        is_last_sibling: true,
        ancestor_is_last: vec![false, true],
    };
    assert_eq!(node.line(), "\u{2502}       \u{2514}\u{2500}\u{2500} \u{1b}[93mb.txt\u{1b}[39m");
    let node = TreeNode {
        entry: classify_compact(&dir("A")),
        category: Category::Directory,
        depth: 0,
        is_last_sibling: false,
        ancestor_is_last: vec![],
    };
    assert_eq!(node.line(), "\u{251c}\u{2500}\u{2500} \u{1b}[1m\u{1b}[94mA\u{1b}[39m\u{1b}[0m");
}

#[test]
fn the_indentation_tells_the_ancestors_apart() {
    for flags in [vec![], vec![true], vec![false], vec![true, false], vec![false, false, true]] {
        let node = TreeNode {
            entry: classify_compact(&file("x")),
            category: Category::Plain,
            depth: flags.len(),
            is_last_sibling: false,
            ancestor_is_last: flags.clone(),
        };
        let line: Vec<char> = plain(&node.line()).chars().collect();
        assert_eq!(line.len(), 4 * flags.len() + 5);
        let read: Vec<bool> = (0..flags.len())
            .map(|i| {
                let segment: String = line[4 * i..4 * i + 4].iter().collect();
                assert!(segment == "    " || segment == "\u{2502}   ");
                segment == "    "
            })
            .collect();
        assert_eq!(read, flags);
    }
}

#[test]
fn tree_lists_directories_first_with_branch_and_corner() {
    let mut walk = TreeWalk::new(false, DEFAULT_MAX_DEPTH);
    let (next, action) = walk.step(None);
    walk = next;
    assert_eq!(action, Action::List(vec![]));
    let (next, action) = walk.step(Some(vec![file("b.txt"), dir("A"), file(".hidden")]));
    walk = next;
    let first = match action {
        Action::Visit(node) => node,
        other => panic!("{:?}", other),
    };
    assert_eq!(first.entry.name, "A");
    assert_eq!(first.entry.kind, EntryKind::Directory);
    assert!(!first.is_last_sibling);
    assert_eq!(plain(&first.line()), "\u{251c}\u{2500}\u{2500} A");
    let (next, action) = walk.step(None);
    walk = next;
    assert_eq!(action, Action::List(vec![b"A".to_vec()]));
    let (next, action) = walk.step(Some(vec![]));
    walk = next;
    let second = match action {
        Action::Visit(node) => node,
        other => panic!("{:?}", other),
    };
    assert_eq!(second.entry.name, "b.txt");
    assert!(second.is_last_sibling);
    assert_eq!(second.depth, 0);
    assert_eq!(plain(&second.line()), "\u{2514}\u{2500}\u{2500} b.txt");
    let (next, action) = walk.step(None);
    walk = next;
    assert_eq!(action, Action::Done);
    let (_, action) = walk.step(None);
    assert_eq!(action, Action::Done);
}

#[test]
fn the_walk_goes_through_the_tree_in_preorder() {
    let (nodes, asked) = run(false, 3);
    assert_eq!(
        lines(&nodes),
        vec![
            "\u{251c}\u{2500}\u{2500} A",
            "\u{251c}\u{2500}\u{2500} src",
            "\u{2502}   \u{251c}\u{2500}\u{2500} deep",
            "\u{2502}   \u{2502}   \u{251c}\u{2500}\u{2500} deeper",
            "\u{2502}   \u{2502}   \u{2514}\u{2500}\u{2500} x.json",
            "\u{2502}   \u{251c}\u{2500}\u{2500} lib.rs",
            "\u{2502}   \u{2514}\u{2500}\u{2500} main.rs",
            "\u{2514}\u{2500}\u{2500} b.txt",
        ]
    );
    assert_eq!(
        asked,
        vec![
            vec![],
            vec![b"A".to_vec()],
            vec![b"src".to_vec()],
            vec![b"src".to_vec(), b"deep".to_vec()],
        ]
    );
}

#[test]
fn no_node_lies_at_the_maximum_depth_or_deeper() {
    for max_depth in 0..5 {
        let (nodes, asked) = run(true, max_depth);
        assert!(nodes.iter().all(|n| n.depth < max_depth));
        assert!(asked.iter().all(|path| path.len() < max_depth));
        assert!(nodes.iter().all(|n| n.ancestor_is_last.len() == n.depth));
    }
}

#[test]
fn a_directory_at_the_deepest_level_is_listed_but_not_expanded() {
    let (nodes, asked) = run(false, 3);
    let deeper = nodes.iter().find(|n| n.entry.name == "deeper").unwrap();
    assert_eq!(deeper.depth, 2);
    assert_eq!(deeper.entry.kind, EntryKind::Directory);
    assert!(nodes.iter().all(|n| n.entry.name != "too_deep.png"));
    assert!(!asked.contains(&vec![b"src".to_vec(), b"deep".to_vec(), b"deeper".to_vec()]));
    let (nodes, asked) = run(false, 1);
    assert_eq!(
        lines(&nodes),
        vec![
            "\u{251c}\u{2500}\u{2500} A",
            "\u{251c}\u{2500}\u{2500} src",
            "\u{2514}\u{2500}\u{2500} b.txt"
        ]
    );
    assert_eq!(asked, vec![Vec::<Vec<u8>>::new()]);
}

#[test]
fn a_walk_of_depth_zero_shows_nothing() {
    let (nodes, asked) = run(true, 0);
    assert!(nodes.is_empty());
    assert!(asked.is_empty());
}

#[test]
fn hidden_directories_are_not_gone_into() {
    let (nodes, asked) = run(false, 3);
    assert!(nodes.iter().all(|n| n.entry.name != ".git" && n.entry.name != "HEAD"));
    assert!(!asked.contains(&vec![b".git".to_vec()]));
    let (nodes, asked) = run(true, 3);
    assert!(asked.contains(&vec![b".git".to_vec()]));
    let shown = lines(&nodes);
    assert_eq!(shown[0], "\u{251c}\u{2500}\u{2500} .git");
    assert_eq!(shown[1], "\u{2502}   \u{2514}\u{2500}\u{2500} HEAD");
    assert_eq!(shown[shown.len() - 2], "\u{251c}\u{2500}\u{2500} .hidden");
    assert_eq!(shown[shown.len() - 1], "\u{2514}\u{2500}\u{2500} b.txt");
}

#[test]
fn the_flags_of_a_node_are_those_of_its_ancestors() {
    let (nodes, _) = run(false, 3);
    let x = nodes.iter().find(|n| n.entry.name == "x.json").unwrap();
    assert_eq!(x.depth, 2);
    assert!(x.is_last_sibling);
    assert_eq!(x.ancestor_is_last, vec![false, false]);
    let main = nodes.iter().find(|n| n.entry.name == "main.rs").unwrap();
    assert_eq!(main.ancestor_is_last, vec![false]);
    assert!(main.is_last_sibling);
    assert_eq!(main.category, Category::Source);
}

#[test]
fn under_a_last_sibling_the_indentation_is_blank() {
    let mut walk = TreeWalk::new(false, 2);
    let mut input = None;
    let mut shown = Vec::new();
    loop {
        let (next, action) = walk.step(input.take());
        walk = next;
        match action {
            Action::List(path) => {
                input = Some(if path.is_empty() { vec![dir("only")] } else { vec![file("leaf")] })
            }
            Action::Visit(node) => shown.push(plain(&node.line())),
            Action::Done => break,
        }
    }
    assert_eq!(
        shown,
        vec!["\u{2514}\u{2500}\u{2500} only", "    \u{2514}\u{2500}\u{2500} leaf"]
    );
}

#[test]
fn a_directory_that_cannot_be_read_is_shown_without_children() {
    let mut walk = TreeWalk::new(false, 3);
    let (next, _) = walk.step(None);
    walk = next;
    let (next, action) = walk.step(Some(vec![dir("locked"), file("z")]));
    walk = next;
    assert!(matches!(action, Action::Visit(ref n) if n.entry.name == "locked"));
    let (next, action) = walk.step(None);
    walk = next;
    assert_eq!(action, Action::List(vec![b"locked".to_vec()]));
    let (next, action) = walk.step(None);
    walk = next;
    assert!(matches!(action, Action::Visit(ref n) if n.entry.name == "z" && n.depth == 0));
    let (_, action) = walk.step(None);
    assert_eq!(action, Action::Done);
}

#[test]
fn an_entry_without_metadata_is_a_leaf() {
    let mut walk = TreeWalk::new(false, 3);
    let (next, _) = walk.step(None);
    walk = next;
    let (next, action) = walk.step(Some(vec![RawEntry::new(b"gone".to_vec(), None)]));
    walk = next;
    assert!(
        matches!(action, Action::Visit(ref n) if n.entry.name == "gone" && n.entry.kind == EntryKind::File)
    );
    let (_, action) = walk.step(None);
    assert_eq!(action, Action::Done);
}

#[test]
fn an_empty_root_ends_the_walk_at_once() {
    let walk = TreeWalk::new(false, 3);
    let (walk, action) = walk.step(None);
    assert_eq!(action, Action::List(vec![]));
    let (_, action) = walk.step(Some(vec![]));
    assert_eq!(action, Action::Done);
}
