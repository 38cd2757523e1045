//! The header of a source module: leading documentation comments, the
//! module kind keyword and its semicolon.
use vstd::prelude::*;

verus! {

/// The tokens a module header is made of; anything else is `Other`.
#[derive(Debug)]
pub enum Token {
    Script,
    Contract,
    Predicate,
    Library,
    /// A documentation comment: inner (`//!`) or outer (`///`).
    DocComment { inner: bool, content: String },
    Semicolon,
    Other,
}

#[derive(Clone, Copy, Debug, PartialEq, Eq, Structural)]
pub enum ModuleKind {
    Script,
    Contract,
    Predicate,
    Library,
}

#[derive(Clone, Copy, Debug, PartialEq, Eq, Structural)]
pub enum ParseErrorKind {
    ExpectedModuleKind,
    ExpectedModuleDocComment,
    ExpectedSemicolon,
}

/// A parsed header: the contents of its inner doc comments (each one a doc
/// attribute of the module), its kind, and where the module's items begin.
#[derive(Debug)]
pub struct ModuleHeader {
    pub attribute_list: Vec<String>,
    pub kind: ModuleKind,
    pub items_start: usize,
}

pub open spec fn kind_of(t: Token) -> Option<ModuleKind> {
    match t {
        Token::Script => Some(ModuleKind::Script),
        Token::Contract => Some(ModuleKind::Contract),
        Token::Predicate => Some(ModuleKind::Predicate),
        Token::Library => Some(ModuleKind::Library),
        _ => None,
    }
}

/// The number of doc comments the header starts with.
pub open spec fn doc_run(tokens: Seq<Token>) -> nat
    decreases tokens.len(),
{
    if tokens.len() > 0 && tokens[0] is DocComment {
        1 + doc_run(tokens.drop_first())
    } else {
        0
    }
}

/// The contents of the inner doc comments among the first `n` tokens.
pub open spec fn inner_docs(tokens: Seq<Token>, n: int) -> Seq<Seq<char>>
    decreases n,
{
    if n <= 0 || n > tokens.len() {
        Seq::empty()
    } else {
        let rest = inner_docs(tokens, n - 1);
        match tokens[n - 1] {
            Token::DocComment { inner: true, content } => rest.push(content@),
            _ => rest,
        }
    }
}

/// One error per outer doc comment among the first `n` tokens.
pub open spec fn outer_doc_errors(tokens: Seq<Token>, n: int) -> Seq<ParseErrorKind>
    decreases n,
{
    if n <= 0 || n > tokens.len() {
        Seq::empty()
    } else {
        let rest = outer_doc_errors(tokens, n - 1);
        match tokens[n - 1] {
            Token::DocComment { inner: false, .. } => rest.push(ParseErrorKind::ExpectedModuleDocComment),
            _ => rest,
        }
    }
}

/// The module kind at `pos`.
pub fn parse_module_kind(tokens: &Vec<Token>, pos: usize) -> (r: Result<ModuleKind, ParseErrorKind>)
    ensures
        r == (if pos < tokens@.len() && kind_of(tokens@[pos as int]) is Some {
            Ok(kind_of(tokens@[pos as int])->0)
        } else {
            Err(ParseErrorKind::ExpectedModuleKind)
        }),
{
    if pos >= tokens.len() {
        return Err(ParseErrorKind::ExpectedModuleKind);
    }
    match &tokens[pos] {
        Token::Script => Ok(ModuleKind::Script),
        Token::Contract => Ok(ModuleKind::Contract),
        Token::Predicate => Ok(ModuleKind::Predicate),
        Token::Library => Ok(ModuleKind::Library),
        _ => Err(ParseErrorKind::ExpectedModuleKind),
    }
}

proof fn lemma_doc_run(tokens: Seq<Token>, i: int)
    requires
        0 <= i <= doc_run(tokens),
    ensures
        doc_run(tokens) <= tokens.len(),
        i < doc_run(tokens) ==> tokens[i] is DocComment,
        i == doc_run(tokens) ==> !(i < tokens.len() && tokens[i] is DocComment),
    decreases tokens.len(),
{
    if tokens.len() > 0 && tokens[0] is DocComment {
        if i > 0 {
            lemma_doc_run(tokens.drop_first(), i - 1);
        } else {
            lemma_doc_run(tokens.drop_first(), 0);
        }
    }
}

/// Parses a module header: the leading doc comments (inner ones become
/// attributes; each outer one is reported in `errors` and skipped), the
/// module kind and its semicolon.
pub fn parse_module_header(tokens: &Vec<Token>, errors: &mut Vec<ParseErrorKind>) -> (r: Result<ModuleHeader, ParseErrorKind>)
    ensures
        ({
            let n = doc_run(tokens@) as int;
            &&& final(errors)@ == old(errors)@ + outer_doc_errors(tokens@, n)
            &&& match r {
                Ok(h) => {
                    &&& n + 1 < tokens@.len()
                    &&& kind_of(tokens@[n]) == Some(h.kind)
                    &&& tokens@[n + 1] is Semicolon
                    &&& h.items_start == n + 2
                    &&& h.attribute_list@.map_values(|s: String| s@) == inner_docs(tokens@, n)
                },
                Err(e) => if n < tokens@.len() && kind_of(tokens@[n]) is Some {
                    e == ParseErrorKind::ExpectedSemicolon && !(n + 1 < tokens@.len() && tokens@[n + 1] is Semicolon)
                } else {
                    e == ParseErrorKind::ExpectedModuleKind
                },
            }
        }),
{
    let mut attribute_list: Vec<String> = Vec::new();
    let mut i: usize = 0;
    proof {
        lemma_doc_run(tokens@, 0);
    }
    assert(attribute_list@.map_values(|s: String| s@) =~= Seq::<Seq<char>>::empty());
    assert(old(errors)@ + Seq::<ParseErrorKind>::empty() =~= old(errors)@);
    while i < tokens.len() && matches!(tokens[i], Token::DocComment { .. })
        invariant
            i <= doc_run(tokens@),
            doc_run(tokens@) <= tokens@.len(),
            attribute_list@.map_values(|s: String| s@) == inner_docs(tokens@, i as int),
            errors@ == old(errors)@ + outer_doc_errors(tokens@, i as int),
        decreases tokens@.len() - i,
    {
        proof {
            lemma_doc_run(tokens@, i as int);
        }
        match &tokens[i] {
            Token::DocComment { inner, content } => {
                if *inner {
                    let ghost prev = attribute_list@;
                    attribute_list.push(content.clone());
                    assert(attribute_list@.map_values(|s: String| s@) =~= prev.map_values(|s: String| s@).push(content@));
                } else {
                    errors.push(ParseErrorKind::ExpectedModuleDocComment);
                }
            },
            _ => {},
        }
        i += 1;
        proof {
            lemma_doc_run(tokens@, i as int);
        }
    }
    proof {
        lemma_doc_run(tokens@, i as int);
        if i < doc_run(tokens@) {
            lemma_doc_run(tokens@, i as int);
        }
    }
    assert(i == doc_run(tokens@));
    let kind = match parse_module_kind(tokens, i) {
        Ok(k) => k,
        Err(e) => {
            return Err(e);
        },
    };
    if i + 1 < tokens.len() && matches!(tokens[i + 1], Token::Semicolon) {
        Ok(ModuleHeader { attribute_list, kind, items_start: i + 2 })
    } else {
        Err(ParseErrorKind::ExpectedSemicolon)
    }
}

} // verus!
