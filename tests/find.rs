use regex_find::Regex;

#[test]
fn test_regex_captures() {
    let regex = Regex::new("e(l+)|(r+)").unwrap();
    let captures = regex.captures("hello").unwrap();
    assert_eq!(captures.len(), 3);
    assert_eq!(captures.is_empty(), false);
    let pos1 = captures.pos(0).unwrap();
    let pos2 = captures.pos(1).unwrap();
    let pos3 = captures.pos(2);
    assert_eq!(pos1, (1, 4));
    assert_eq!(pos2, (2, 4));
    assert_eq!(pos3, None);
    let str1 = captures.at(0).unwrap();
    let str2 = captures.at(1).unwrap();
    let str3 = captures.at(2);
    assert_eq!(str1, "ell");
    assert_eq!(str2, "ll");
    assert_eq!(str3, None);
}

#[test]
fn test_regex_subcaptures() {
    let regex = Regex::new("e(l+)").unwrap();
    let captures = regex.captures("hello").unwrap();
    let caps = captures.iter().collect_vec();
    assert_eq!(caps[0], Some("ell"));
    assert_eq!(caps[1], Some("ll"));
    assert_eq!(caps.len(), 2);
}

#[test]
fn test_regex_subcapturespos() {
    let regex = Regex::new("e(l+)").unwrap();
    let captures = regex.captures("hello").unwrap();
    let caps = captures.iter_pos().collect_vec();
    assert_eq!(caps[0], Some((1, 4)));
    assert_eq!(caps[1], Some((2, 4)));
    assert_eq!(caps.len(), 2);
}

#[test]
fn test_find_iter() {
    let re = Regex::new(r"\d+").unwrap();
    let ms = re.find_iter("a12b2").collect_vec();
    assert_eq!(ms, vec![(1, 3), (4, 5)]);
}

#[test]
fn test_find_iter_one_zero_length() {
    let re = Regex::new(r"\d*").unwrap();
    let ms = re.find_iter("a1b2").collect_vec();
    assert_eq!(ms, vec![(0, 0), (1, 2), (3, 4)]);
}

#[test]
fn test_find_iter_many_zero_length() {
    let re = Regex::new(r"\d*").unwrap();
    let ms = re.find_iter("a1bbb2").collect_vec();
    assert_eq!(ms, vec![(0, 0), (1, 2), (3, 3), (4, 4), (5, 6)]);
}

#[test]
fn test_zero_length_matches_jumps_past_match_location() {
    let re = Regex::new(r"\b").unwrap();
    let matches = re.find_iter("test string").collect_vec();
    assert_eq!(matches, [(0, 0), (4, 4), (5, 5), (11, 11)]);
}

#[test]
fn test_captures_iter() {
    let re = Regex::new(r"\d+").unwrap();
    let ms = re.captures_iter("a12b2").collect_vec();
    assert_eq!(ms[0].pos(0).unwrap(), (1, 3));
    assert_eq!(ms[1].pos(0).unwrap(), (4, 5));
}

#[test]
fn invalid_pattern_is_refused() {
    assert!(Regex::new("e(l+").is_err());
}

#[test]
fn captures_none_without_match() {
    let re = Regex::new(r"\d+").unwrap();
    assert!(re.captures("abc").is_none());
}

#[test]
fn positions_past_count_are_absent() {
    let re = Regex::new("e(l+)|(r+)").unwrap();
    let caps = re.captures("hello").unwrap();
    for i in caps.len()..caps.len() + 4 {
        assert_eq!(caps.pos(i), None);
        assert_eq!(caps.at(i), None);
    }
    assert_eq!(caps.pos(usize::MAX), None);
    assert_eq!(caps.at(usize::MAX), None);
}

#[test]
fn group_iterators_cover_absent_groups() {
    let re = Regex::new("e(l+)|(r+)").unwrap();
    let caps = re.captures("hello").unwrap();
    assert_eq!(caps.iter().collect_vec(), vec![Some("ell"), Some("ll"), None]);
    assert_eq!(caps.iter_pos().collect_vec(), vec![Some((1, 4)), Some((2, 4)), None]);
}

#[test]
fn group_iterator_stops_after_last_group() {
    let re = Regex::new("e(l+)").unwrap();
    let caps = re.captures("hello").unwrap();
    let mut it = caps.iter_pos();
    assert_eq!(it.next(), Some(Some((1, 4))));
    assert_eq!(it.next(), Some(Some((2, 4))));
    assert_eq!(it.next(), None);
    assert_eq!(it.next(), None);
}

#[test]
fn find_iter_matches_are_ordered_and_disjoint() {
    let re = Regex::new(r"a*").unwrap();
    let text = "baaab aab";
    let ms = re.find_iter(text).collect_vec();
    assert_eq!(ms, vec![(0, 0), (1, 4), (5, 5), (6, 8), (9, 9)]);
    for m in &ms {
        assert!(m.0 <= m.1 && m.1 <= text.len());
    }
    for w in ms.windows(2) {
        assert!(w[0].1 <= w[1].0);
        assert!(w[0].0 <= w[1].0);
    }
}

#[test]
fn find_iter_empty_text() {
    let re = Regex::new(r"\d*").unwrap();
    assert_eq!(re.find_iter("").collect_vec(), vec![(0, 0)]);
    let re = Regex::new(r"\d+").unwrap();
    assert_eq!(re.find_iter("").collect_vec(), vec![]);
}

#[test]
fn empty_match_steps_over_whole_character() {
    let re = Regex::new(r"\d*").unwrap();
    assert_eq!(re.find_iter("é1").collect_vec(), vec![(0, 0), (2, 3)]);
    assert_eq!(re.find_iter("日x").collect_vec(), vec![(0, 0), (3, 3), (4, 4)]);
}

#[test]
fn find_iter_stays_exhausted() {
    let re = Regex::new(r"\d").unwrap();
    let mut it = re.find_iter("1a");
    assert_eq!(it.next(), Some((0, 1)));
    assert_eq!(it.next(), None);
    assert_eq!(it.next(), None);
}

#[test]
fn captures_iter_follows_find_iter() {
    let re = Regex::new(r"\d*").unwrap();
    let caps = re.captures_iter("a1bbb2").collect_vec();
    let spans: Vec<(usize, usize)> = caps.iter().map(|c| c.pos(0).unwrap()).collect();
    assert_eq!(spans, vec![(0, 0), (1, 2), (3, 3), (4, 4), (5, 6)]);
}

#[test]
fn captures_iter_groups_per_match() {
    let re = Regex::new(r"(\w)(\d)?").unwrap();
    let caps = re.captures_iter("a1 b").collect_vec();
    assert_eq!(caps.len(), 2);
    assert_eq!(caps[0].at(1), Some("a"));
    assert_eq!(caps[0].at(2), Some("1"));
    assert_eq!(caps[1].at(1), Some("b"));
    assert_eq!(caps[1].at(2), None);
    assert_eq!(caps[1].pos(0), Some((3, 4)));
}
