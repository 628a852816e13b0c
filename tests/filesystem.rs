use aoc22::{
    add_sizes_up_to_threshold, collect_input, day_7_1, parse_input, AppError, Command, FileDesc,
    Filesystem, InputLine,
};

fn lines(text: &[&str]) -> Vec<String> {
    text.iter().map(|s| s.to_string()).collect()
}

fn example() -> Vec<&'static str> {
    vec![
        "$ cd /",
        "$ ls",
        "dir a",
        "14848514 b.txt",
        "8504156 c.dat",
        "dir d",
        "$ cd a",
        "$ ls",
        "dir e",
        "29116 f",
        "2557 g",
        "62596 h.lst",
        "$ cd e",
        "$ ls",
        "584 i",
        "$ cd ..",
        "$ cd ..",
        "$ cd d",
        "$ ls",
        "4060174 j",
        "8033020 d.log",
        "5626152 d.ext",
        "7214296 k",
    ]
}

fn build_tree(text: &[&str]) -> Filesystem {
    let parsed: Vec<InputLine> = text.iter().map(|l| parse_input(l).unwrap()).collect();
    let commands = collect_input(&parsed);
    Filesystem::build(&commands).unwrap()
}

#[test]
fn test_day_7_1() {
    assert_eq!(day_7_1(&lines(&example())).unwrap(), 95437);
}

#[test]
fn transcript_without_nested_directory() {
    let text = [
        "$ cd /",
        "$ ls",
        "dir a",
        "14848514 b.txt",
        "8504156 c.dat",
        "dir d",
        "$ cd a",
        "$ ls",
        "29116 f",
        "2557 g",
        "62596 h.lst",
        "$ cd ..",
        "$ cd d",
        "$ ls",
        "4060174 j",
        "8033020 d.log",
        "5626152 d.ext",
        "7214296 k",
    ];
    // a = 94269 and nothing else is small
    assert_eq!(day_7_1(&lines(&text)), Ok(94269));
}

#[test]
fn root_total_is_sum_of_all_files() {
    let fs = build_tree(&example());
    let (total, _) = add_sizes_up_to_threshold(&fs, 0, 100000).unwrap();
    assert_eq!(total, 48381165);
}

#[test]
fn threshold_sum_grows_with_threshold() {
    let fs = build_tree(&example());
    let thresholds = [0usize, 583, 584, 94853, 100000, 24933642, 48381165, usize::MAX];
    let mut last = 0;
    for t in thresholds.iter() {
        let (_, sum) = add_sizes_up_to_threshold(&fs, 0, *t).unwrap();
        assert!(sum >= last);
        last = sum;
    }
    assert_eq!(add_sizes_up_to_threshold(&fs, 0, 0).unwrap().1, 0);
    assert_eq!(add_sizes_up_to_threshold(&fs, 0, 584).unwrap().1, 584);
    assert_eq!(
        add_sizes_up_to_threshold(&fs, 0, usize::MAX).unwrap().1,
        584 + 94853 + 24933642 + 48381165
    );
}

#[test]
fn relisting_a_visited_directory_keeps_sizes() {
    let mut text = example();
    text.extend_from_slice(&[
        "$ cd /",
        "$ ls",
        "dir a",
        "14848514 b.txt",
        "8504156 c.dat",
        "dir d",
    ]);
    assert_eq!(day_7_1(&lines(&text)), Ok(95437));
    let fs = build_tree(&text);
    assert_eq!(add_sizes_up_to_threshold(&fs, 0, 0).unwrap().0, 48381165);
}

#[test]
fn listing_replaces_a_file_of_the_same_name() {
    let text = ["$ cd /", "$ ls", "10 x", "$ ls", "20 x"];
    assert_eq!(day_7_1(&lines(&text)), Ok(20));
}

#[test]
fn cd_up_at_root_is_bad_input() {
    assert_eq!(day_7_1(&lines(&["$ cd /", "$ cd .."])), Err(AppError::BadInput));
}

#[test]
fn cd_into_missing_or_file_is_bad_input() {
    assert_eq!(day_7_1(&lines(&["$ cd /", "$ cd a"])), Err(AppError::BadInput));
    assert_eq!(
        day_7_1(&lines(&["$ cd /", "$ ls", "5 a", "$ cd a"])),
        Err(AppError::BadInput)
    );
}

#[test]
fn malformed_line_is_bad_input() {
    assert_eq!(day_7_1(&lines(&["$ cd /", "$ ls", "x y"])), Err(AppError::BadInput));
    assert_eq!(day_7_1(&lines(&["$ cd /", ""])), Err(AppError::BadInput));
}

#[test]
fn size_overflow_is_bad_input() {
    let big = format!("{} a", usize::MAX);
    let big2 = format!("{} b", usize::MAX);
    assert_eq!(
        day_7_1(&lines(&["$ cd /", "$ ls", &big, &big2])),
        Err(AppError::BadInput)
    );
}

#[test]
fn empty_transcript_gives_empty_root() {
    assert_eq!(day_7_1(&lines(&[])), Ok(0));
}

#[test]
fn parse_recognised_shapes() {
    assert!(matches!(parse_input("$ cd /"), Ok(InputLine::CdRoot)));
    assert!(matches!(parse_input("$ cd .."), Ok(InputLine::CdUp)));
    assert!(matches!(parse_input("$ cd abc"), Ok(InputLine::CdDir(ref n)) if n == "abc"));
    assert!(matches!(parse_input("$ ls"), Ok(InputLine::Ls)));
    assert!(matches!(parse_input("dir e"), Ok(InputLine::Directory(ref n)) if n == "e"));
    assert!(
        matches!(parse_input("14848514 b.txt"), Ok(InputLine::File(14848514, ref n)) if n == "b.txt")
    );
    assert!(matches!(parse_input("  $   cd   x  "), Ok(InputLine::CdDir(ref n)) if n == "x"));
    assert!(matches!(parse_input("+7 a"), Ok(InputLine::File(7, ref n)) if n == "a"));
    assert!(matches!(parse_input("12 a extra"), Ok(InputLine::File(12, ref n)) if n == "a"));
}

#[test]
fn parse_rejects_other_shapes() {
    for line in [
        "", "   ", "$", "$ cd", "$ pwd", "dir", "12", "12x a", "-5 a", "+ a", "a b",
        "18446744073709551616 a",
    ]
    .iter()
    {
        assert!(
            matches!(parse_input(line), Err(AppError::BadInput)),
            "line {:?}",
            line
        );
    }
}

#[test]
fn grouping_collects_listings() {
    let parsed: Vec<InputLine> = ["$ cd /", "$ ls", "dir a", "5 f", "$ cd a", "$ ls", "7 g"]
        .iter()
        .map(|l| parse_input(l).unwrap())
        .collect();
    let commands = collect_input(&parsed);
    assert_eq!(commands.len(), 4);
    assert!(matches!(commands[0], Command::CdRoot));
    match &commands[1] {
        Command::Ls(entries) => {
            assert_eq!(entries.len(), 2);
            assert!(matches!(entries[0], FileDesc::Directory(ref n) if n == "a"));
            assert!(matches!(entries[1], FileDesc::File(5, ref n) if n == "f"));
        }
        _ => panic!("expected a listing"),
    }
    assert!(matches!(commands[2], Command::CdDir(ref n) if n == "a"));
    match &commands[3] {
        Command::Ls(entries) => {
            assert_eq!(entries.len(), 1);
            assert!(matches!(entries[0], FileDesc::File(7, ref n) if n == "g"));
        }
        _ => panic!("expected a listing"),
    }
}

#[test]
fn entries_outside_a_listing_are_dropped() {
    let parsed: Vec<InputLine> = ["5 f", "$ cd /", "dir a"]
        .iter()
        .map(|l| parse_input(l).unwrap())
        .collect();
    let commands = collect_input(&parsed);
    assert_eq!(commands.len(), 1);
    assert!(matches!(commands[0], Command::CdRoot));
}

#[test]
fn pretty_print_lists_the_tree() {
    let fs = build_tree(&["$ cd /", "$ ls", "dir a", "5 f", "$ cd a", "$ ls", "12 g"]);
    assert_eq!(
        fs.pretty_print(),
        vec![
            "  /".to_string(),
            "    a".to_string(),
            "      g 12".to_string(),
            "    f 5".to_string(),
        ]
    );
}

#[test]
fn pretty_print_writes_sizes_in_decimal() {
    let fs = build_tree(&["$ cd /", "$ ls", "14848514 b.txt", "0 z"]);
    assert_eq!(
        fs.pretty_print(),
        vec!["  /".to_string(), "    b.txt 14848514".to_string(), "    z 0".to_string()]
    );
}

#[test]
fn new_tree_is_an_empty_root() {
    let fs = Filesystem::new();
    assert_eq!(fs.nodes.len(), 1);
    assert!(fs.nodes[0].children.is_empty());
    assert!(fs.nodes[0].parent.is_none());
    assert_eq!(add_sizes_up_to_threshold(&fs, 0, 0), Some((0, 0)));
}
