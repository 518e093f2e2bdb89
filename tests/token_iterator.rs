use mini_regex::token_iterator::{FilesToIterateBuilder, Token};

#[test]
fn default_builder() {
    let builder: FilesToIterateBuilder<char> = Default::default();
    builder.build();
}

#[test]
fn builder_with_char_delim() {
    let builder = FilesToIterateBuilder::new(',');
    builder.build();
}

#[test]
fn builder_with_char_array_delim() {
    let delims = [',', ' ', '\t'];
    let builder = FilesToIterateBuilder::new(delims);
    builder.build();
}

#[test]
fn builder_with_char_slice_delim() {
    let delims = [',', ' ', '\t'];
    let builder = FilesToIterateBuilder::new(&delims);
    builder.build();
}

#[test]
fn builder_with_fn_delim() {
    let builder = FilesToIterateBuilder::new(|c: char| c.is_whitespace());
    builder.build();
}

#[test]
fn builder_adds_files_in_order() {
    let mut builder = FilesToIterateBuilder::new(' ');
    builder.add("first.txt").add("second.txt");
    builder.build();
}

#[test]
fn token_accepts_ascii_only() {
    assert!(Token::new(String::from("word")).is_ok());
    assert!(Token::new(String::from("wörd")).is_err());
}
