use dupfinder::record::FileInfo;
use dupfinder::resolve::{fix_duplicates, Rejection, Resolution, PROMPT};
use std::path::PathBuf;

fn path(text: &str) -> PathBuf {
    PathBuf::from(text)
}

fn set_of(paths: &[&str]) -> FileInfo {
    let mut info = FileInfo::new(path(paths[0]), 5);
    for name in &paths[1..] {
        info.add_path(path(name));
    }
    info
}

fn removed(resolution: Resolution, info: &FileInfo) -> Vec<PathBuf> {
    resolution.removals(info).into_iter().cloned().collect()
}

#[test]
fn zero_abstains() {
    let info = set_of(&["a/x.txt", "b/y.txt"]);
    assert_eq!(fix_duplicates(&info, "0"), Resolution::Abstain);
    assert_eq!(fix_duplicates(&info, "0\n"), Resolution::Abstain);
    assert_eq!(fix_duplicates(&info, " +0 \n"), Resolution::Abstain);
}

#[test]
fn a_number_keeps_the_path_it_counts() {
    let info = set_of(&["a", "b", "c"]);
    assert_eq!(fix_duplicates(&info, "1\n"), Resolution::Keep(0));
    assert_eq!(fix_duplicates(&info, "2\n"), Resolution::Keep(1));
    assert_eq!(fix_duplicates(&info, "3\n"), Resolution::Keep(2));
}

#[test]
fn a_number_above_the_count_is_an_invalid_index() {
    let info = set_of(&["a", "b", "c"]);
    assert_eq!(fix_duplicates(&info, "4\n"), Resolution::Retry(Rejection::InvalidIndex));
    assert_eq!(fix_duplicates(&info, "100\n"), Resolution::Retry(Rejection::InvalidIndex));
    assert_eq!(
        fix_duplicates(&info, &usize::MAX.to_string()),
        Resolution::Retry(Rejection::InvalidIndex)
    );
}

#[test]
fn what_is_no_number_is_an_invalid_input() {
    let info = set_of(&["a", "b"]);
    for answer in ["abc\n", "\n", "", "-1\n", "1.5\n", "one", "99999999999999999999999999"] {
        assert_eq!(
            fix_duplicates(&info, answer),
            Resolution::Retry(Rejection::InvalidInput),
            "{:?}",
            answer
        );
    }
}

#[test]
fn rejections_have_their_messages() {
    assert_eq!(Rejection::InvalidInput.message(), "Invalid input.");
    assert_eq!(Rejection::InvalidIndex.message(), "Invalid index.");
}

#[test]
fn the_prompt_names_the_way_out() {
    assert_eq!(PROMPT, "Select one to keep (0 to keep all): ");
}

#[test]
fn keeping_one_removes_the_others() {
    let info = set_of(&["a", "b", "c", "d"]);
    assert_eq!(removed(Resolution::Keep(0), &info), vec![path("b"), path("c"), path("d")]);
    assert_eq!(removed(Resolution::Keep(1), &info), vec![path("a"), path("c"), path("d")]);
    assert_eq!(removed(Resolution::Keep(3), &info), vec![path("a"), path("b"), path("c")]);
}

#[test]
fn keeping_the_only_path_removes_nothing() {
    let info = set_of(&["only"]);
    assert!(removed(Resolution::Keep(0), &info).is_empty());
}

#[test]
fn abstaining_removes_nothing() {
    let info = set_of(&["a", "b", "c"]);
    assert!(removed(Resolution::Abstain, &info).is_empty());
}

#[test]
fn a_rejected_answer_removes_nothing() {
    let info = set_of(&["a", "b", "c"]);
    assert!(removed(Resolution::Retry(Rejection::InvalidInput), &info).is_empty());
    assert!(removed(Resolution::Retry(Rejection::InvalidIndex), &info).is_empty());
}

#[test]
fn a_position_outside_the_set_spares_nothing() {
    let info = set_of(&["a", "b"]);
    assert_eq!(removed(Resolution::Keep(2), &info), vec![path("a"), path("b")]);
    assert_eq!(removed(Resolution::Keep(usize::MAX), &info), vec![path("a"), path("b")]);
}

#[test]
fn every_position_but_the_kept_one_is_removed_once() {
    let names = ["f0", "f1", "f2", "f3", "f4"];
    let info = set_of(&names);
    for keep in 0..names.len() {
        let removals = removed(Resolution::Keep(keep), &info);
        assert_eq!(removals.len(), names.len() - 1);
        for (i, name) in names.iter().enumerate() {
            let times = removals.iter().filter(|p| **p == path(name)).count();
            assert_eq!(times, if i == keep { 0 } else { 1 });
        }
    }
}

#[test]
fn an_answer_selects_what_is_removed() {
    let info = set_of(&["a/x.txt", "b/y.txt"]);
    let resolution = fix_duplicates(&info, "1\n");
    assert_eq!(resolution, Resolution::Keep(0));
    assert_eq!(removed(resolution, &info), vec![path("b/y.txt")]);
    let resolution = fix_duplicates(&info, "2\n");
    assert_eq!(removed(resolution, &info), vec![path("a/x.txt")]);
}

#[test]
fn a_wrong_answer_and_then_zero() {
    let info = set_of(&["a/x.txt", "b/y.txt"]);
    let first = fix_duplicates(&info, "abc\n");
    assert_eq!(first, Resolution::Retry(Rejection::InvalidInput));
    assert!(removed(first, &info).is_empty());
    match first {
        Resolution::Retry(why) => assert_eq!(why.message(), "Invalid input."),
        _ => panic!("the answer should have been turned down"),
    }
    let second = fix_duplicates(&info, "0\n");
    assert_eq!(second, Resolution::Abstain);
    assert!(removed(second, &info).is_empty());
    assert_eq!(info.paths(), &vec![path("a/x.txt"), path("b/y.txt")]);
}
