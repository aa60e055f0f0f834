use inferdf::rdfs::parsing::{Error, MetaError, Parser};
use inferdf::rdfs::{
    Document, Expr, Formula, IriReference, Item, Keyword, Span, Statement,
};
use inferdf::semantics::Trust;
use inferdf::Meta;

fn parse(s: &str) -> Result<Meta<Document, Span>, MetaError> {
    let chars: Vec<char> = s.chars().collect();
    Document::parse_chars(&chars)
}

fn span(start: usize, end: usize) -> Span {
    Span { start, end }
}

fn expanded(e: &Meta<Expr, Span>) -> (String, Span) {
    match &e.0 {
        Expr::IriRef(IriReference::Expanded(s)) => (s.as_str().to_string(), e.1),
        _ => panic!("expected an expanded IRI"),
    }
}

fn var(e: &Meta<Expr, Span>) -> (String, Span) {
    match &e.0 {
        Expr::Var(x) => (x.0.clone(), e.1),
        _ => panic!("expected a variable"),
    }
}

#[test]
fn parse_conclusion_rule() {
    let d = parse("rule <http://a/r> => { <http://a/s> <http://a/p> <http://a/o> . }").unwrap();
    assert_eq!(d.1, span(0, 65));
    assert!(d.0.doc.lines.is_empty());
    assert_eq!(d.0.items.len(), 1);
    assert_eq!(d.0.items[0].1, span(0, 65));
    let rule = match &d.0.items[0].0 {
        Item::Rule(r) => r,
        _ => panic!("expected a rule"),
    };
    match &rule.id.0 {
        IriReference::Expanded(s) => assert_eq!(s.as_str(), "http://a/r"),
        _ => panic!("expected an expanded IRI"),
    }
    assert_eq!(rule.id.1, span(5, 17));
    assert_eq!(rule.formula.1, span(21, 65));
    let c = match &rule.formula.0 {
        Formula::Conclusion(c) => c,
        _ => panic!("expected a conclusion"),
    };
    assert_eq!(c.statements.len(), 1);
    let st = &c.statements[0];
    assert_eq!(st.1, span(23, 63));
    assert_eq!(st.0.trust.0, Trust::Trusted);
    assert_eq!(st.0.trust.1, span(62, 63));
    assert!(st.0.statement.0.negative.is_none());
    assert_eq!(st.0.statement.1, span(23, 61));
    let p = match &st.0.statement.0.statement.0 {
        Statement::Pattern(p) => p,
        _ => panic!("expected a pattern"),
    };
    assert_eq!(st.0.statement.0.statement.1, span(23, 61));
    assert_eq!(expanded(&p.subject), ("http://a/s".to_string(), span(23, 35)));
    assert_eq!(expanded(&p.predicate), ("http://a/p".to_string(), span(36, 48)));
    assert_eq!(expanded(&p.object), ("http://a/o".to_string(), span(49, 61)));
}

#[test]
fn parse_documented_forall_rule() {
    let d = parse("#! about\n## the rule\nrule r forall ?x { ?x <p> <o> . } => { ! ?x = <q> ! }").unwrap();
    assert_eq!(d.1, span(0, 74));
    assert_eq!(d.0.doc.lines, vec![" about".to_string()]);
    let rule = match &d.0.items[0].0 {
        Item::Rule(r) => r,
        _ => panic!("expected a rule"),
    };
    assert_eq!(d.0.items[0].1, span(21, 74));
    assert_eq!(rule.doc.lines, vec![" the rule".to_string()]);
    match &rule.id.0 {
        IriReference::Compact(s) => assert_eq!(s.as_str(), "r"),
        _ => panic!("expected a compact IRI"),
    }
    assert_eq!(rule.id.1, span(26, 27));
    assert_eq!(rule.formula.1, span(28, 74));
    let f = match &rule.formula.0 {
        Formula::ForAll(f) => f,
        _ => panic!("expected forall"),
    };
    assert_eq!(f.variables.len(), 1);
    assert_eq!(f.variables[0].0 .0, "x");
    assert_eq!(f.variables[0].1, span(35, 37));
    assert_eq!(f.constraints.1, span(38, 54));
    let hp = &f.constraints.0.patterns;
    assert_eq!(hp.len(), 1);
    assert_eq!(hp[0].1, span(40, 52));
    assert!(hp[0].0.negative.is_none());
    assert_eq!(hp[0].0.pattern.1, span(40, 50));
    assert_eq!(var(&hp[0].0.pattern.0.subject), ("x".to_string(), span(40, 42)));
    assert_eq!(expanded(&hp[0].0.pattern.0.predicate), ("p".to_string(), span(43, 46)));
    assert_eq!(expanded(&hp[0].0.pattern.0.object), ("o".to_string(), span(47, 50)));
    assert_eq!(f.inner.1, span(58, 74));
    let c = match &f.inner.0 {
        Formula::Conclusion(c) => c,
        _ => panic!("expected a conclusion"),
    };
    let st = &c.statements[0];
    assert_eq!(st.1, span(60, 72));
    assert_eq!(st.0.trust.0, Trust::Untrusted);
    assert_eq!(st.0.trust.1, span(71, 72));
    assert_eq!(st.0.statement.0.negative, Some(span(60, 61)));
    assert_eq!(st.0.statement.1, span(60, 70));
    match &st.0.statement.0.statement.0 {
        Statement::Eq(a, b) => {
            assert_eq!(var(a), ("x".to_string(), span(62, 64)));
            assert_eq!(expanded(b), ("q".to_string(), span(67, 70)));
        },
        _ => panic!("expected an equality"),
    }
    assert_eq!(st.0.statement.0.statement.1, span(62, 70));
}

#[test]
fn parse_braced_formula_is_exists() {
    let d = parse("rule r { ! ?x <p> <o> . } => { }").unwrap();
    let rule = match &d.0.items[0].0 {
        Item::Rule(r) => r,
        _ => panic!("expected a rule"),
    };
    let e = match &rule.formula.0 {
        Formula::Exists(e) => e,
        _ => panic!("expected exists"),
    };
    assert!(e.variables.is_empty());
    assert_eq!(e.hypothesis.1, span(7, 25));
    assert_eq!(e.hypothesis.0.patterns[0].0.negative, Some(span(9, 10)));
    assert_eq!(rule.formula.1, span(7, 32));
    match &e.inner.0 {
        Formula::Conclusion(c) => assert!(c.statements.is_empty()),
        _ => panic!("expected a conclusion"),
    }
    assert_eq!(e.inner.1, span(29, 32));
}

#[test]
fn parse_base_prefix_and_group() {
    let d = parse("base <http://x>").unwrap();
    match &d.0.items[0].0 {
        Item::Base(iri) => assert_eq!(iri.as_str(), "http://x"),
        _ => panic!("expected base"),
    }
    assert_eq!(d.0.items[0].1, span(5, 15));

    let d = parse("prefix ex: <http://ex.org/>").unwrap();
    match &d.0.items[0].0 {
        Item::Prefix(b) => {
            assert_eq!(b.prefix.0.as_str(), "ex");
            assert_eq!(b.prefix.1, span(7, 9));
            assert_eq!(b.colon.1, span(9, 10));
            assert_eq!(b.iri.0.as_str(), "http://ex.org/");
            assert_eq!(b.iri.1, span(11, 27));
        },
        _ => panic!("expected a prefix binding"),
    }
    assert_eq!(d.0.items[0].1, span(0, 27));

    let d = parse("group g { rule r => { } }").unwrap();
    assert_eq!(d.0.items[0].1, span(0, 25));
    match &d.0.items[0].0 {
        Item::Group(g) => {
            assert_eq!(g.id.1, span(6, 7));
            assert_eq!(g.items.1, span(8, 25));
            assert_eq!(g.items.0.len(), 1);
            assert_eq!(g.items.0[0].1, span(10, 23));
        },
        _ => panic!("expected a group"),
    }
}

#[test]
fn parse_spans_count_bytes_and_skip_comments() {
    let d = parse("## é\nrule r => { }").unwrap();
    assert_eq!(d.0.items[0].1, span(6, 19));
    match &d.0.items[0].0 {
        Item::Rule(r) => {
            assert_eq!(r.doc.lines, vec![" é".to_string()]);
            assert_eq!(r.id.1, span(11, 12));
            assert_eq!(r.formula.1, span(16, 19));
        },
        _ => panic!("expected a rule"),
    }
    let d = parse("# hello\nrule r => { }").unwrap();
    assert_eq!(d.1, span(8, 21));
    assert_eq!(d.0.items[0].1, span(8, 21));
    let d = parse("").unwrap();
    assert!(d.0.items.is_empty());
    assert_eq!(d.1, span(0, 0));
}

fn error_of(s: &str) -> (Error, Span) {
    match parse(s) {
        Err(Meta(e, sp)) => (e, sp),
        Ok(_) => panic!("expected an error"),
    }
}

#[test]
fn parse_errors() {
    match error_of("foo") {
        (Error::UnknownKeyword(w), sp) => {
            assert_eq!(w, "foo");
            assert_eq!(sp, span(0, 3));
        },
        _ => panic!("expected an unknown keyword"),
    }
    match error_of("base <b>") {
        (Error::InvalidIri(w), sp) => {
            assert_eq!(w, "b");
            assert_eq!(sp, span(5, 8));
        },
        _ => panic!("expected an invalid IRI"),
    }
    match error_of("rule r") {
        (Error::Unexpected(u), sp) => {
            assert_eq!(u.0, None);
            assert_eq!(sp, span(5, 6));
        },
        _ => panic!("expected the end of the input"),
    }
    match error_of("rule r => x") {
        (Error::Unexpected(u), sp) => {
            assert_eq!(u.0, Some('x'));
            assert_eq!(sp, span(10, 11));
        },
        _ => panic!("expected an unexpected character"),
    }
    match error_of("rule r { ?x <p> <o> } => { }") {
        (Error::Unexpected(u), sp) => {
            assert_eq!(u.0, Some('}'));
            assert_eq!(sp, span(20, 21));
        },
        _ => panic!("expected a missing dot"),
    }
    match error_of("forall") {
        (Error::UnexpectedKeyword(k), sp) => {
            assert_eq!(k, Keyword::ForAll);
            assert_eq!(sp, span(0, 6));
        },
        _ => panic!("expected an unexpected keyword"),
    }
    match error_of("rule r base") {
        (Error::Unexpected(u), sp) => {
            assert_eq!(u.0, Some('b'));
            assert_eq!(sp, span(6, 7));
        },
        _ => panic!("expected an unexpected keyword in a formula"),
    }
    match error_of("base <http://x") {
        (Error::Unexpected(u), sp) => {
            assert_eq!(u.0, None);
            assert_eq!(sp, span(14, 14));
        },
        _ => panic!("expected an unterminated IRI"),
    }
    match error_of("rule <a b> => { }") {
        (Error::InvalidIriRef(w), sp) => {
            assert_eq!(w, "a b");
            assert_eq!(sp, span(5, 10));
        },
        _ => panic!("expected an invalid IRI reference"),
    }
    match error_of("rule <a>b> => { }") {
        (Error::InvalidIriRef(w), sp) => {
            assert_eq!(w, "a>b");
            assert_eq!(sp, span(5, 10));
        },
        _ => panic!("a `>` followed by a character does not close an IRI"),
    }
}

#[test]
fn parser_reads_characters() {
    let chars: Vec<char> = "é a".chars().collect();
    let mut p = Parser::new(&chars);
    assert_eq!(p.peek(), Some('é'));
    assert_eq!(p.peek2(), Some(' '));
    assert_eq!(p.last_char_span(), span(0, 0));
    assert_eq!(p.next_char(), Some('é'));
    assert_eq!(p.position(), 2);
    assert_eq!(p.last_char_span(), span(0, 2));
    assert_eq!(p.skip_whitespaces(), 3);
    assert_eq!(p.expect().ok(), Some('a'));
    assert_eq!(p.next_char(), None);
    match p.expect() {
        Err(Meta(Error::Unexpected(u), sp)) => {
            assert_eq!(u.0, None);
            assert_eq!(sp, span(4, 4));
        },
        _ => panic!("expected the end of the input"),
    }
}

#[test]
fn keyword_parse_reads_a_word() {
    let chars: Vec<char> = "  exists{".chars().collect();
    let mut p = Parser::new(&chars);
    match Keyword::parse_with(&mut p) {
        Err(Meta(Error::UnknownKeyword(w), sp)) => {
            assert_eq!(w, "exists{");
            assert_eq!(sp, span(2, 9));
        },
        _ => panic!("a keyword ends at white space"),
    }
    let chars: Vec<char> = "  exists {".chars().collect();
    let mut p = Parser::new(&chars);
    let k = Keyword::parse_with(&mut p).ok().unwrap();
    assert_eq!(k.0, Keyword::Exists);
    assert_eq!(k.1, span(2, 8));
}

#[test]
fn keyword_text_reads_back() {
    let all = [Keyword::Base, Keyword::Prefix, Keyword::Group, Keyword::Rule, Keyword::ForAll, Keyword::Exists];
    for k in all {
        let chars: Vec<char> = k.as_str().chars().collect();
        let mut p = Parser::new(&chars);
        let r = Keyword::parse_with(&mut p).ok().unwrap();
        assert_eq!(r.0, k);
        assert_eq!(r.1, span(0, k.as_str().len()));
    }
    assert_eq!(Keyword::ForAll.as_str(), "forall");
    assert_eq!(Keyword::Exists.as_str(), "exists");
}
