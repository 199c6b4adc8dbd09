use brass_control::cli::{Cli, Commands, LeafCommands};
use brass_control::lca::{LcaSearch, LcaStep};
use brass_control::text::{
    decimal_chars, hex_string, lines_of_bytes, lines_of_chars, split_chars, split_once_chars,
    split_whitespace, trim_chars, trim_end_matching,
};
use std::collections::HashMap;

fn common_ancestor(a: &str, b: &str, graph: &HashMap<&str, Vec<&str>>) -> Option<String> {
    let mut s = LcaSearch::new(a, b);
    let mut asked = 0;
    loop {
        match s.next_step() {
            LcaStep::NeedParents(h) => {
                asked += 1;
                assert!(asked < 100);
                let ps = graph
                    .get(h.as_str())
                    .map(|v| v.iter().map(|p| p.to_string()).collect())
                    .unwrap_or_default();
                s.supply_parents(ps);
            }
            LcaStep::Found(h) => return Some(h),
            LcaStep::NotFound => return None,
        }
    }
}

fn graph() -> HashMap<&'static str, Vec<&'static str>> {
    let mut g = HashMap::new();
    g.insert("c1", vec![]);
    g.insert("c2", vec!["c1"]);
    g.insert("c3", vec!["c1"]);
    g.insert("c4", vec!["c2"]);
    g.insert("m", vec!["c4", "c3"]);
    g.insert("x", vec![]);
    g
}

#[test]
fn forks_meet_at_their_fork_point() {
    assert_eq!(common_ancestor("c4", "c3", &graph()), Some("c1".to_string()));
}

#[test]
fn an_ancestor_is_its_own_meeting_point() {
    assert_eq!(common_ancestor("c4", "c2", &graph()), Some("c2".to_string()));
    assert_eq!(common_ancestor("c2", "c4", &graph()), Some("c2".to_string()));
    assert_eq!(common_ancestor("c3", "c3", &graph()), Some("c3".to_string()));
}

#[test]
fn merge_commit_meets_its_parent() {
    assert_eq!(common_ancestor("m", "c3", &graph()), Some("c3".to_string()));
}

#[test]
fn the_meeting_point_nearest_to_the_second_commit_wins() {
    let mut g = HashMap::new();
    g.insert("r", vec![]);
    g.insert("y", vec!["r"]);
    g.insert("a", vec!["y"]);
    g.insert("w", vec!["r"]);
    g.insert("b", vec!["w", "y"]);
    assert_eq!(common_ancestor("a", "b", &g), Some("y".to_string()));
    g.insert("b", vec!["r", "y"]);
    assert_eq!(common_ancestor("a", "b", &g), Some("r".to_string()));
}

#[test]
fn asking_again_while_waiting_repeats_the_request() {
    let mut s = LcaSearch::new("c2", "c3");
    let first = s.next_step();
    assert_eq!(first, LcaStep::NeedParents("c2".to_string()));
    assert_eq!(s.next_step(), first);
    s.supply_parents(vec!["c1".to_string()]);
    assert_eq!(s.next_step(), LcaStep::NeedParents("c1".to_string()));
}

#[test]
fn unrelated_histories_have_no_meeting_point() {
    assert_eq!(common_ancestor("c4", "x", &graph()), None);
    assert_eq!(common_ancestor("unknown", "x", &graph()), None);
}

#[test]
fn decimal_digits() {
    assert_eq!(decimal_chars(0), vec!['0']);
    assert_eq!(decimal_chars(120), vec!['1', '2', '0']);
}

#[test]
fn hex_rendering_is_lower_case_two_digits_per_byte() {
    assert_eq!(hex_string(&[0x0f, 0xa0, 0x00, 0xff]), "0fa000ff");
    assert_eq!(hex_string(&[]), "");
}

#[test]
fn lines_split_like_std() {
    assert_eq!(lines_of_bytes(b"a\r\nb\n\nc"), vec![b"a".to_vec(), b"b".to_vec(), vec![], b"c".to_vec()]);
    assert_eq!(lines_of_bytes(b"x\n"), vec![b"x".to_vec()]);
    assert!(lines_of_bytes(b"").is_empty());
    let cs: Vec<char> = "p\nq".chars().collect();
    assert_eq!(lines_of_chars(&cs), vec![vec!['p'], vec!['q']]);
}

#[test]
fn whitespace_words_and_trimming() {
    let cs: Vec<char> = " a  b\tc\u{3000}d ".chars().collect();
    assert_eq!(split_whitespace(&cs), vec![vec!['a'], vec!['b'], vec!['c'], vec!['d']]);
    let t: Vec<char> = "\n x y \t".chars().collect();
    assert_eq!(trim_chars(&t), vec!['x', ' ', 'y']);
}

#[test]
fn splitting_on_separators() {
    let cs: Vec<char> = "a\0\0b".chars().collect();
    assert_eq!(split_chars(&cs, '\0'), vec![vec!['a'], vec![], vec!['b']]);
    let s: Vec<char> = "Ann <a@b>".chars().collect();
    let pat: Vec<char> = " <".chars().collect();
    assert_eq!(
        split_once_chars(&s, &pat),
        Some(("Ann".chars().collect(), "a@b>".chars().collect()))
    );
    let gt: Vec<char> = ">".chars().collect();
    let e: Vec<char> = "a@b>>".chars().collect();
    assert_eq!(trim_end_matching(&e, &gt), vec!['a', '@', 'b']);
}

#[test]
fn commands_are_plain_values() {
    let c = Cli { command: Commands::Leaf { command: LeafCommands::Merge { name: "fix".to_string() } } };
    assert_eq!(c.clone(), c);
    assert_ne!(Commands::Add { path: "a".to_string() }, Commands::Status);
}
