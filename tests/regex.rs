use mini_regex::regex::Pattern;

fn run<'i>(pattern: &str, inp: &'i str) -> Vec<&'i str> {
    let pattern = Pattern::new(pattern).expect("pattern compiles");
    pattern.find_matches(inp)
}

#[test]
fn single_list_pattern() {
    let expected: Vec<&str> = vec!["azzx", "zxa", "xaz?"];
    assert_eq!(run("[a,z,x,?]{3,4}", "teststringazzx zxabla bluxaz?"), expected);
}

#[test]
fn single_list_pattern_duplicates() {
    let expected: Vec<&str> = vec!["azzx", "zxa", "xaz?"];
    assert_eq!(run("[a,z,x,?,a]{3,4}", "teststringazzx zxabla bluxaz?"), expected);
}

#[test]
fn single_list_single_char() {
    let expected: Vec<&str> = vec!["a", "a", "a", "a"];
    assert_eq!(run("[a]{1,1}", "teststringazzx zxabla bluxaz?"), expected);
}

#[test]
fn single_list_pattern_exactly_one() {
    let expected: Vec<&str> = vec!["1", "2", "?", "1", "1", "?", "2"];
    assert_eq!(run("[1,2,?]{1,1}", "12?11?2"), expected);
}

#[test]
fn single_list_pattern_one_or_none() {
    let expected: Vec<&str> = vec!["1", "2", "?", "1", "1", "?", "2"];
    assert_eq!(run("[1,2,?]{0,1}", "12?11?2"), expected);
}

#[test]
fn single_list_pattern_overlap() {
    let expected: Vec<&str> = vec!["12?1", "1?2"];
    assert_eq!(run("[1,2,?]{3,4}", "12?11?2"), expected);
}

#[test]
fn single_range_pattern1() {
    let expected: Vec<&str> = vec!["string", "azzxzx", "ablabl"];
    assert_eq!(run("[a-z]{5,6}", "test stringazzxzxablablBLABL STRING"), expected);
}

#[test]
fn single_range_pattern2() {
    let expected: Vec<&str> = vec!["STRING", "BLABL"];
    assert_eq!(run("[A-Z]{5,6}", "testSTRINGazzx zxa BLABL blabl string"), expected);
}

#[test]
fn single_range_pattern3() {
    let expected: Vec<&str> = vec!["STRING", "TEST+", "A-Z,/", "19^[]", "10/343"];
    assert_eq!(run("[+-_]{5,6}", "test string STRING TEST+ A-Z,/ 19^[] 10/343 testy"), expected);
}

#[test]
fn single_range_pattern_overlap() {
    let expected: Vec<&str> = vec!["acd", "ab", "bcd"];
    assert_eq!(run("[a-z]{2,3}", "acdab bcd"), expected);
}

#[test]
fn single_range_pattern_exactly_one() {
    let expected: Vec<&str> = vec!["a", "c", "d", "a", "b"];
    assert_eq!(run("[a-z]{1,1}", "acdab"), expected);
}

#[test]
fn single_range_pattern_one_or_none() {
    let expected: Vec<&str> = vec!["a", "c", "d", "a", "b"];
    assert_eq!(run("[a-z]{0,1}", "acdab"), expected);
}

#[test]
fn multi_list_pattern1() {
    let expected: Vec<&str> = vec!["ABC12", "BC1", "ABCA2"];
    assert_eq!(run("[A,B,C]{2,4}[1,2,3]{1,2}", "a1c12dabABClkjsdABC12fjBC1lsjflABCA2"), expected);
}

#[test]
fn multi_list_pattern2() {
    let expected: Vec<&str> = vec!["ABC", "ABCA", "ABAA", "BCBEE"];
    assert_eq!(run("[A,B,C]{2,3}[A,B,C,E]{1,3}", "soidABCjfasdABCAnckjsABAA;oiwBCBEEjfoej"), expected);
}

#[test]
fn multi_range_pattern1() {
    let expected: Vec<&str> = vec!["AZAaz", "ABaz"];
    assert_eq!(run("[A-Z]{2,3}[a-z]{1,2}", "acdabAZAazlkjsdABCD12fjBCD1lsjABazflABCA2"), expected);
}

#[test]
fn multi_range_pattern2() {
    let expected: Vec<&str> = vec!["ABDZ", "ABZ", "AAA", "ZZZXX"];
    assert_eq!(run("[A-Z]{2,3}[A-Z]{1,2}", "iweAAuowABDZuofofABZoiAAAworrwZZZXXe"), expected);
}

#[test]
fn multi_mixed_pattern1() {
    let expected: Vec<&str> = vec!["ABF2fl"];
    assert_eq!(run("[A-Z]{3,4}[1,2,3]{1,1}[a-z]{2,2}", "lkdjABF2flsjflAABBjsdflsAABjlf;jsADGGGdlfjslfsl"), expected);
}

#[test]
fn multi_mixed_pattern2() {
    let expected: Vec<&str> = vec!["2sssdEE", "2ssdEE", "3ddwDD"];
    assert_eq!(run("[1,2,3]{1,1}[a-z]{2,4}[D,E]{2,2}", "kljsd2sssdEEldajl2ssdEEfjsdlf3ddwDDjsljf"), expected);
}

#[test]
fn multi_mixed_pattern_none_or_more_suffix1() {
    let expected: Vec<&str> = vec!["aaa", "abcdef", "a", "a", "a", "apple", "at", "abcdef"];
    assert_eq!(run("[a]{1,1}[a-z]{0,5}", "test aaa abcdef, aAaZa apple cat abcdefg lkjlkj"), expected);
}

#[test]
fn multi_mixed_pattern_none_or_more_suffix2() {
    let expected: Vec<&str> = vec!["aaa", "abcdef", "abcdef#", "a", "a#", "a", "apple", "at", "abcdef"];
    assert_eq!(run("[a]{1,1}[a-z]{0,5}[#]{0,1}", "test aaa abcdef abcdef#, aAa#Za apple cat abcdefg lkjlkj"), expected);
}

#[test]
fn multi_pattern_match_overlap() {
    let expected: Vec<&str> = vec!["abdd"];
    assert_eq!(run("[a-d]{2,3}[d-e]{1,1}", "abdde"), expected);
}

#[test]
fn multi_no_match() {
    let expected: Vec<&str> = Vec::<&str>::new();
    assert_eq!(run("[1,2,3]{1,1}[a-z]{2,3}[D,E]{2,2}", "kljsdldajl2ssEfjsdlf3ddwDjsljf"), expected);
}
