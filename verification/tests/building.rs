use inferdf::rdfs::building::{Context, Error, Scope};
use inferdf::rdfs::command_line::{InvalidPrefixBinding, PrefixBinding};
use inferdf::rdfs::{Document, Formula, IriBuf, IriRefBuf, IriReference, Item, Span, VarIdent};

fn formula_of(s: &str) -> Formula {
    let chars: Vec<char> = s.chars().collect();
    let d = Document::parse_chars(&chars).ok().unwrap();
    match d.0.items.into_iter().next().unwrap().0 {
        Item::Rule(r) => r.formula.0,
        _ => panic!("expected a rule"),
    }
}

fn var(name: &str) -> VarIdent {
    VarIdent(name.to_string())
}

#[test]
fn scope_numbers_variables_in_order() {
    let f = formula_of("rule r forall ?x { ?x <p> ?y . } => { ?y <q> ?z ! ?z = ?x . }");
    let s = Scope::new(&f);
    assert_eq!(s.get(&var("x")), Some(0));
    assert_eq!(s.get(&var("y")), Some(1));
    assert_eq!(s.get(&var("z")), Some(2));
    assert_eq!(s.get(&var("w")), None);
}

#[test]
fn scope_leaves_out_unused_quantified_variables() {
    let f = formula_of("rule r forall ?w { } => { }");
    let s = Scope::new(&f);
    assert_eq!(s.get(&var("w")), None);
    let f = formula_of("rule r exists ?a { ?b <p> ?a . } => { }");
    let s = Scope::new(&f);
    assert_eq!(s.get(&var("b")), Some(0));
    assert_eq!(s.get(&var("a")), Some(1));
}

fn iri(s: &str) -> IriBuf {
    IriBuf::new(s.to_string()).ok().unwrap()
}

fn iri_ref(s: &str) -> IriRefBuf {
    IriRefBuf::new(s.to_string()).ok().unwrap()
}

fn resolved(r: Result<IriBuf, inferdf::Meta<Error, Span>>) -> Option<String> {
    r.ok().map(|i| i.as_str().to_string())
}

fn meta() -> Span {
    Span { start: 3, end: 7 }
}

#[test]
fn context_resolves_against_base() {
    let mut c = Context::new();
    assert_eq!(resolved(c.resolve(&iri_ref("http://a/b"), meta())), Some("http://a/b".to_string()));
    match c.resolve(&iri_ref("b"), meta()) {
        Err(e) => {
            assert!(matches!(e.0, Error::NoBaseIri));
            assert_eq!(e.1, meta());
        },
        Ok(_) => panic!("no base IRI"),
    }
    assert!(c.replace_base_iri(Some(iri("http://ex.org/dir/"))).is_none());
    assert_eq!(resolved(c.resolve(&iri_ref("b"), meta())), Some("http://ex.org/dir/b".to_string()));
    assert_eq!(resolved(c.resolve(&iri_ref("../c"), meta())), Some("http://ex.org/c".to_string()));
    assert_eq!(c.replace_base_iri(None).map(|i| i.as_str().to_string()), Some("http://ex.org/dir/".to_string()));
}

#[test]
fn context_prefixes_replace_earlier_bindings() {
    let mut c = Context::new();
    assert!(c.resolve_iri_prefix("ex").is_none());
    c.insert_prefix("ex".to_string(), iri("http://one.org/"));
    c.insert_prefix("other".to_string(), iri("http://other.org/"));
    assert_eq!(c.resolve_iri_prefix("ex").map(|i| i.as_str()), Some("http://one.org/"));
    c.insert_prefix("ex".to_string(), iri("http://two.org/"));
    assert_eq!(c.resolve_iri_prefix("ex").map(|i| i.as_str()), Some("http://two.org/"));
    assert_eq!(c.resolve_iri_prefix("other").map(|i| i.as_str()), Some("http://other.org/"));
}

#[test]
fn compact_references_expand_their_prefix() {
    let mut c = Context::new();
    c.insert_prefix("ex".to_string(), iri("http://ex.org/"));
    let r = IriReference::Compact(iri_ref("ex:foo"));
    assert_eq!(resolved(r.resolve(&c, meta())), Some("http://ex.org/foo".to_string()));
    let r = IriReference::Compact(iri_ref("other:foo"));
    assert_eq!(resolved(r.resolve(&c, meta())), Some("other:foo".to_string()));
    let r = IriReference::Expanded(iri_ref("ex:foo"));
    assert_eq!(resolved(r.resolve(&c, meta())), Some("ex:foo".to_string()));
    let r = IriReference::Compact(iri_ref("foo"));
    assert!(matches!(r.resolve(&c, meta()), Err(e) if matches!(e.0, Error::NoBaseIri)));
    c.insert_prefix("frag".to_string(), iri("http://ex.org/#"));
    let r = IriReference::Compact(iri_ref("frag:a#b"));
    match r.resolve(&c, meta()) {
        Err(e) => match e.0 {
            Error::InvalidIri(s) => assert_eq!(s, "http://ex.org/#a#b"),
            _ => panic!("expected an invalid IRI"),
        },
        Ok(_) => panic!("expected an invalid IRI"),
    }
}

#[test]
fn iri_checks_reject_malformed_text() {
    assert_eq!(IriBuf::new("b".to_string()).err(), Some("b".to_string()));
    assert_eq!(IriRefBuf::new("a b".to_string()).err(), Some("a b".to_string()));
    assert_eq!(iri_ref("../x").as_str(), "../x");
}

#[test]
fn prefix_binding_splits_at_first_equal_sign() {
    let b = PrefixBinding::parse("ex=http://ex.org/").unwrap();
    assert_eq!(b.prefix, "ex");
    assert_eq!(b.value, "http://ex.org/");
    let b = PrefixBinding::parse("a=b=c").unwrap();
    assert_eq!(b.prefix, "a");
    assert_eq!(b.value, "b=c");
    assert_eq!(PrefixBinding::parse("abc").err(), Some(InvalidPrefixBinding));
    let b: PrefixBinding = "x=".parse().unwrap();
    assert_eq!(b.prefix, "x");
    assert_eq!(b.value, "");
}
