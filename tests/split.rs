use regex_find::Regex;

#[test]
fn split_on_blanks() {
    let re = Regex::new(r"[ \t]+").unwrap();
    let fields = re.split("a b \t  c\td    e").collect_vec();
    assert_eq!(fields, vec!["a", "b", "c", "d", "e"]);
}

#[test]
fn splitn_keeps_rest_in_last_piece() {
    let re = Regex::new(r"\W+").unwrap();
    let fields = re.splitn("Hey! How are you?", 3).collect_vec();
    assert_eq!(fields, vec!["Hey", "How", "are you?"]);
}

#[test]
fn splitn_zero_gives_nothing() {
    let re = Regex::new(r"\W+").unwrap();
    assert_eq!(re.splitn("Hey! How are you?", 0).collect_vec(), Vec::<&str>::new());
    assert_eq!(re.splitn("", 0).collect_vec(), Vec::<&str>::new());
    let mut it = re.splitn("a b", 0);
    assert_eq!(it.next(), None);
    assert_eq!(it.next(), None);
}

#[test]
fn split_drops_empty_tail_keeps_empty_head() {
    let re = Regex::new(",").unwrap();
    assert_eq!(re.split("a,b,").collect_vec(), vec!["a", "b"]);
    assert_eq!(re.split(",a").collect_vec(), vec!["", "a"]);
    assert_eq!(re.split("a,,b").collect_vec(), vec!["a", "", "b"]);
    assert_eq!(re.split("").collect_vec(), Vec::<&str>::new());
}

#[test]
fn split_without_match_gives_whole_text() {
    let re = Regex::new(",").unwrap();
    assert_eq!(re.split("abc").collect_vec(), vec!["abc"]);
}

#[test]
fn splitn_one_gives_whole_text() {
    let re = Regex::new(",").unwrap();
    assert_eq!(re.splitn("a,b,c", 1).collect_vec(), vec!["a,b,c"]);
}

#[test]
fn splitn_large_limit_equals_split() {
    let re = Regex::new(",").unwrap();
    assert_eq!(re.splitn("a,b,c", 10).collect_vec(), vec!["a", "b", "c"]);
}

#[test]
fn splitn_last_piece_may_be_empty() {
    let re = Regex::new(",").unwrap();
    assert_eq!(re.splitn("a,b,", 3).collect_vec(), vec!["a", "b", ""]);
    assert_eq!(re.splitn("abc", 2).collect_vec(), vec!["abc", ""]);
}

#[test]
fn split_multibyte_pieces() {
    let re = Regex::new("β").unwrap();
    assert_eq!(re.split("αβγβδ").collect_vec(), vec!["α", "γ", "δ"]);
}

#[test]
fn splitn_never_exceeds_limit() {
    let re = Regex::new(",").unwrap();
    let mut it = re.splitn("a,b,c", 2);
    let mut pieces = Vec::new();
    for _ in 0..8 {
        if let Some(p) = it.next() {
            pieces.push(p);
        }
    }
    assert_eq!(pieces, vec!["a", "b,c"]);
}

#[test]
fn captures_agrees_with_first_find() {
    let re = Regex::new(r"\d+").unwrap();
    let caps = re.captures("a12b2").unwrap();
    assert_eq!(caps.pos(0), re.find_iter("a12b2").next());
}
