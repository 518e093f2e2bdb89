use mini_regex::regex::Pattern;
use mini_regex::syntax::CompileError;

fn refusal_of(text: &str) -> CompileError {
    match Pattern::new(text) {
        Ok(_) => panic!("pattern {:?} should be refused", text),
        Err(e) => e,
    }
}

fn search<'i>(pattern: &str, inp: &'i str) -> Vec<&'i str> {
    Pattern::new(pattern).expect("pattern compiles").find_matches(inp)
}

#[test]
fn empty_pattern_is_refused() {
    assert_eq!(refusal_of(""), CompileError::EmptyPattern);
}

#[test]
fn group_without_open_bracket_is_refused() {
    assert_eq!(refusal_of("a]{1,1}"), CompileError::MissingOpenBracket);
    assert_eq!(refusal_of("[a]{1,1}x"), CompileError::MissingOpenBracket);
}

#[test]
fn truncated_group_is_refused() {
    assert_eq!(refusal_of("[a"), CompileError::UnexpectedEnd);
    assert_eq!(refusal_of("[a-z"), CompileError::UnexpectedEnd);
    assert_eq!(refusal_of("[a,b"), CompileError::UnexpectedEnd);
    assert_eq!(refusal_of("[a]"), CompileError::UnexpectedEnd);
}

#[test]
fn range_without_close_bracket_is_refused() {
    assert_eq!(refusal_of("[a-z}{1,1}"), CompileError::MissingCloseBracket);
}

#[test]
fn class_without_open_brace_is_refused() {
    assert_eq!(refusal_of("[a-z]x1,1}"), CompileError::MissingOpenBrace);
    assert_eq!(refusal_of("[a,b]x1,2}"), CompileError::MissingOpenBrace);
}

#[test]
fn bad_set_separator_is_refused() {
    assert_eq!(refusal_of("[ab]{1,1}"), CompileError::BadSetSeparator);
    assert_eq!(refusal_of("[a;b]{1,1}"), CompileError::BadSetSeparator);
}

#[test]
fn counts_without_comma_are_refused() {
    assert_eq!(refusal_of("[a]{11}"), CompileError::MissingComma);
}

#[test]
fn counts_without_close_brace_are_refused() {
    assert_eq!(refusal_of("[a]{1,1"), CompileError::MissingCloseBrace);
}

#[test]
fn malformed_counts_are_refused() {
    assert_eq!(refusal_of("[a]{x,1}"), CompileError::MalformedNumber);
    assert_eq!(refusal_of("[a]{,1}"), CompileError::MalformedNumber);
    assert_eq!(refusal_of("[a]{1,}"), CompileError::MalformedNumber);
    assert_eq!(refusal_of("[a]{+1,2}"), CompileError::MalformedNumber);
}

#[test]
fn counts_over_a_byte_are_refused() {
    assert_eq!(refusal_of("[a]{256,300}"), CompileError::CountTooLarge);
    assert_eq!(refusal_of("[a]{1,256}"), CompileError::CountTooLarge);
}

#[test]
fn counts_out_of_order_are_refused() {
    assert_eq!(refusal_of("[a]{3,2}"), CompileError::CountsOutOfOrder);
}

#[test]
fn grammar_bytes_can_be_set_members() {
    assert_eq!(search("[,,]]{1,2}", "a,]]b"), vec![",]", "]"]);
}

#[test]
fn compiling_twice_finds_the_same_matches() {
    let text = "[A,B,C]{2,4}[1,2,3]{1,2}";
    let inp = "a1c12dabABClkjsdABC12fjBC1lsjflABCA2";
    let first = Pattern::new(text).unwrap();
    let second = Pattern::new(text).unwrap();
    assert_eq!(first.find_matches(inp), second.find_matches(inp));
}

#[test]
fn matches_do_not_overlap_and_move_right() {
    let inp = "abddeabcde";
    let found = search("[a-d]{2,3}[d-e]{1,1}", inp);
    assert_eq!(found, vec!["abdd", "abcd"]);
    let base = inp.as_ptr() as usize;
    let mut last_end = 0;
    for m in &found {
        let start = m.as_ptr() as usize - base;
        assert!(start >= last_end);
        last_end = start + m.len();
    }
}

#[test]
fn longest_match_from_a_start_wins() {
    assert_eq!(search("[a-z]{2,3}", "abcd"), vec!["abc"]);
    assert_eq!(search("[a-z]{1,5}", "abcdefgh"), vec!["abcde", "fgh"]);
}

#[test]
fn optional_suffix_may_match_nothing() {
    assert_eq!(search("[a]{1,1}[b]{0,2}", "a"), vec!["a"]);
    assert_eq!(search("[a]{1,1}[b]{0,2}[c]{0,1}", "xa"), vec!["a"]);
    assert_eq!(search("[a]{1,1}[b]{0,2}[c]{0,1}", "ac"), vec!["ac"]);
}

#[test]
fn optional_group_before_a_required_one_is_not_skipped() {
    assert_eq!(search("[a]{0,1}[b]{1,1}", "b ab"), vec!["ab"]);
}

#[test]
fn reversed_range_matches_nothing() {
    assert_eq!(search("[z-a]{1,1}", "abcz"), Vec::<&str>::new());
}

#[test]
fn group_with_zero_maximum_matches_nothing() {
    assert_eq!(search("[a]{0,0}[b]{1,1}", "ab"), Vec::<&str>::new());
}

#[test]
fn empty_input_has_no_match() {
    assert_eq!(search("[a-z]{1,3}", ""), Vec::<&str>::new());
}

#[test]
fn non_ascii_input_is_never_matched() {
    assert_eq!(search("[a-z]{1,3}", "héllo wörld"), vec!["h", "llo", "w", "rld"]);
}

#[test]
fn largest_count_is_accepted() {
    let inp = "a".repeat(300);
    let found = search("[a]{255,255}", &inp);
    assert_eq!(found.len(), 1);
    assert_eq!(found[0].len(), 255);
}
