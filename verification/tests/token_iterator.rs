use rpn_actors::token_iter::{split_tokens, TokenIterator};

#[test]
fn it_works() {
    let test_input = "1 2 3 4 5";
    let mut it = TokenIterator::new(test_input, " ");
    let mut tokens: Vec<&str> = Vec::new();
    while let Some(tok) = it.next() {
        tokens.push(tok);
    }

    assert_eq!(tokens, vec!["1", "2", "3", "4", "5"]);
}

#[test]
fn tail() {
    let test_input = "1 2 3 4 ";
    let mut it = TokenIterator::new(test_input, " ");
    let mut tokens: Vec<&str> = Vec::new();
    while let Some(tok) = it.next() {
        tokens.push(tok);
    }

    assert_eq!(tokens, vec!["1", "2", "3", "4", ""]);
}

#[test]
fn split_tokens_keeps_empties() {
    assert_eq!(split_tokens("1 2 3 4 5", " "), vec!["1", "2", "3", "4", "5"]);
    assert_eq!(split_tokens("1  2", " "), vec!["1", "", "2"]);
    assert_eq!(split_tokens("", " "), vec![""]);
    assert_eq!(split_tokens(" ", " "), vec!["", ""]);
    assert_eq!(split_tokens("a:b:c", ":"), vec!["a", "b", "c"]);
}
