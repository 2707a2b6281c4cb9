use shortest_span::span;
use std::collections::HashSet;

fn units(s: &str) -> Vec<u32> {
    s.chars().map(|c| c as u32).collect()
}

fn unit_set(s: &str) -> HashSet<u32> {
    HashSet::from_iter(s.chars().map(|c| c as u32))
}

#[test]
fn span_test() {
    assert_eq!((0, 0), span(&units(""), unit_set("A")), "empty pat");
    assert_eq!((0, 0), span(&units("A"), unit_set("")), "empty goal");
    assert_eq!((0, 5), span(&units("ABCDEFG"), unit_set("BEAD")), "ABCDE");
    assert_eq!((1, 5), span(&units("ZCYBXAW"), unit_set("ABC")), "CYBXAW");
    assert_eq!((2, 3), span(&units("CAABC"), unit_set("ABC")), "ABC");
    assert_eq!((0, 6), span(&[1, 2, 3, 4, 5, 6], HashSet::from([6, 1])), "numeric");
}

#[test]
fn empty_goal_on_any_pattern() {
    assert_eq!((0, 0), span(&units("ABCABC"), HashSet::new()));
    assert_eq!((0, 0), span(&[], HashSet::new()));
}

#[test]
fn empty_pattern_with_larger_goal() {
    assert_eq!((0, 0), span(&[], HashSet::from([1, 2, 3])));
}

#[test]
fn result_contains_every_goal_element() {
    let pat = units("XAYYBZZC");
    let goal = unit_set("CBA");
    let (pos, len) = span(&pat, goal.clone());
    assert_eq!((1, 7), (pos, len));
    for g in &goal {
        assert!(pat[pos..pos + len].contains(g));
    }
}

#[test]
fn no_shorter_window_exists() {
    let pat = units("ADOBECODEBANC");
    let goal = unit_set("ABC");
    let (pos, len) = span(&pat, goal.clone());
    assert_eq!((9, 4), (pos, len));
    for s in 0..pat.len() {
        for l in 0..len {
            if s + l <= pat.len() {
                let window: HashSet<u32> = pat[s..s + l].iter().copied().collect();
                assert!(!goal.is_subset(&window));
            }
        }
    }
}

#[test]
fn tight_window_is_the_goal() {
    let pat = units("QQBCAQQ");
    let goal = unit_set("ABC");
    let (pos, len) = span(&pat, goal.clone());
    assert_eq!((2, 3), (pos, len));
    let window: HashSet<u32> = pat[pos..pos + len].iter().copied().collect();
    assert_eq!(goal, window);
    assert_eq!(len, window.len());
}

#[test]
fn missing_goal_element_gives_nothing() {
    assert_eq!((0, 0), span(&units("ABABAB"), unit_set("ABC")));
    assert_eq!((0, 0), span(&[5, 5, 5], HashSet::from([5, 7])));
}

#[test]
fn leftmost_of_equal_shortest_windows() {
    assert_eq!((0, 3), span(&units("AXBXAXB"), unit_set("AB")));
    assert_eq!((0, 2), span(&[1, 2, 9, 1, 2], HashSet::from([1, 2])));
}

#[test]
fn single_element_goal() {
    assert_eq!((3, 1), span(&units("XYZAQA"), unit_set("A")));
}

#[test]
fn repeated_goal_elements_use_latest_sighting() {
    assert_eq!((3, 3), span(&units("AAAABCA"), unit_set("ABC")));
}

#[test]
fn later_window_shorter_than_first() {
    assert_eq!((4, 2), span(&units("AXXXBAXB"), unit_set("AB")));
}

#[test]
fn best_window_kept_without_tight_fit() {
    assert_eq!((3, 3), span(&units("AXXBXAXXXB"), unit_set("AB")));
}
