use polars_usaddress::features::Lexicon;
use polars_usaddress::{parse, tag, Error, Parser};

fn lexicon() -> Lexicon {
    Lexicon { directions: vec!["n".to_string()], street_names: vec!["st".to_string()] }
}

#[test]
fn a_model_that_does_not_load_is_an_error() {
    let lex = lexicon();
    assert!(matches!(Parser::new(&[1, 2, 3], &lex), Err(Error::Crf(_))));
    assert!(matches!(parse(b"not a model", &lex, "123 Main St"), Err(Error::Crf(_))));
    assert!(matches!(tag(b"not a model", &lex, "123 Main St"), Err(Error::Crf(_))));
    assert!(matches!(parse(b"not a model", &lex, ""), Err(Error::Crf(_))));
}
