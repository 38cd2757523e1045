use trait_resolution::module_header::{parse_module_header, parse_module_kind, ModuleKind, ParseErrorKind, Token};

fn doc(inner: bool, content: &str) -> Token {
    Token::DocComment { inner, content: content.to_string() }
}

#[test]
fn noop_script_module_header() {
    let tokens = vec![Token::Script, Token::Semicolon, Token::Other];
    let mut errors = vec![];
    let h = parse_module_header(&tokens, &mut errors).unwrap();
    assert_eq!(h.kind, ModuleKind::Script);
    assert!(h.attribute_list.is_empty());
    assert_eq!(h.items_start, 2);
    assert!(errors.is_empty());
}

#[test]
fn inner_doc_comments_become_attributes() {
    let tokens = vec![doc(true, " first"), doc(false, " stray"), doc(true, " second"), Token::Library, Token::Semicolon];
    let mut errors = vec![];
    let h = parse_module_header(&tokens, &mut errors).unwrap();
    assert_eq!(h.kind, ModuleKind::Library);
    assert_eq!(h.attribute_list, vec![" first".to_string(), " second".to_string()]);
    assert_eq!(h.items_start, 5);
    assert_eq!(errors, vec![ParseErrorKind::ExpectedModuleDocComment]);
}

#[test]
fn missing_kind_or_semicolon() {
    let mut errors = vec![];
    let r = parse_module_header(&vec![Token::Other], &mut errors);
    assert!(matches!(r, Err(ParseErrorKind::ExpectedModuleKind)));
    let r = parse_module_header(&vec![Token::Contract, Token::Other], &mut errors);
    assert!(matches!(r, Err(ParseErrorKind::ExpectedSemicolon)));
    assert_eq!(parse_module_kind(&vec![Token::Predicate], 0), Ok(ModuleKind::Predicate));
    assert_eq!(parse_module_kind(&vec![], 0), Err(ParseErrorKind::ExpectedModuleKind));
}
