use inferdf::rdfs::render::Context;
use inferdf::rdfs::IriBuf;

fn iri(s: &str) -> IriBuf {
    IriBuf::new(s.to_string()).ok().unwrap()
}

#[test]
fn compact_iri_uses_the_first_matching_value() {
    let mut c = Context::new();
    c.declare_prefix("b".to_string(), "http://ex.org/x/".to_string());
    c.declare_prefix("a".to_string(), "http://ex.org/".to_string());
    assert_eq!(c.compact_iri(&iri("http://ex.org/x/y")), "a:x/y");
    assert_eq!(c.compact_iri(&iri("http://other.org/z")), "http://other.org/z");
    c.declare_prefix("ex".to_string(), "http://ex.org/".to_string());
    assert_eq!(c.compact_iri(&iri("http://ex.org/x/y")), "ex:x/y");
    assert_eq!(c.compact_iri(&iri("http://ex.org/")), "ex:");
}

#[test]
fn iri_ref_is_relative_to_the_base() {
    let mut c = Context::default();
    assert_eq!(c.iri_ref(&iri("http://ex.org/a/b")).as_str(), "http://ex.org/a/b");
    c.set_base_iri(Some(iri("http://ex.org/a/")));
    assert_eq!(c.iri_ref(&iri("http://ex.org/a/b")).as_str(), "b");
    c.set_base_iri(None);
    assert_eq!(c.iri_ref(&iri("http://ex.org/a/b")).as_str(), "http://ex.org/a/b");
}
