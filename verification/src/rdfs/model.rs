//! Mathematical values of the rule syntax tree: text as character
//! sequences, lists as sequences, each node paired with its span.
use vstd::prelude::*;

use crate::rdfs::{
    Document, Expr, Formula, IriReference, Item, MaybeTrustedStatement, Pattern,
    SignedPattern, SignedStatement, Span, Statement,
};
use crate::semantics::Trust;
use crate::Meta;

verus! {

pub enum IriReferenceModel {
    Compact(Seq<char>),
    Expanded(Seq<char>),
}

pub enum ExprModel {
    Var(Seq<char>),
    IriRef(IriReferenceModel),
}

pub struct PatternModel {
    pub subject: (ExprModel, Span),
    pub predicate: (ExprModel, Span),
    pub object: (ExprModel, Span),
}

pub enum StatementModel {
    Pattern(PatternModel),
    Eq((ExprModel, Span), (ExprModel, Span)),
}

pub struct SignedStatementModel {
    pub negative: Option<Span>,
    pub statement: (StatementModel, Span),
}

pub struct MaybeTrustedStatementModel {
    pub statement: (SignedStatementModel, Span),
    pub trust: (Trust, Span),
}

pub struct SignedPatternModel {
    pub negative: Option<Span>,
    pub pattern: (PatternModel, Span),
}

/// A formula; `ForAll` and `Exists` carry their variables, their
/// hypothesis (patterns and span) and their inner formula.
pub enum FormulaModel {
    ForAll {
        variables: Seq<(Seq<char>, Span)>,
        constraints: (Seq<(SignedPatternModel, Span)>, Span),
        inner: Box<(FormulaModel, Span)>,
    },
    Exists {
        variables: Seq<(Seq<char>, Span)>,
        hypothesis: (Seq<(SignedPatternModel, Span)>, Span),
        inner: Box<(FormulaModel, Span)>,
    },
    Conclusion(Seq<(MaybeTrustedStatementModel, Span)>),
}

pub enum ItemModel {
    Base(Seq<char>),
    Prefix { prefix: (Seq<char>, Span), colon: Span, iri: (Seq<char>, Span) },
    Group {
        id: (IriReferenceModel, Span),
        doc: Seq<Seq<char>>,
        items: (Seq<(ItemModel, Span)>, Span),
    },
    Rule { id: (IriReferenceModel, Span), doc: Seq<Seq<char>>, formula: (FormulaModel, Span) },
}

pub struct DocumentModel {
    pub doc: Seq<Seq<char>>,
    pub items: Seq<(ItemModel, Span)>,
}

pub open spec fn strings_model(s: Seq<String>) -> Seq<Seq<char>> {
    s.map_values(|x: String| x@)
}

pub open spec fn iri_reference_model(r: IriReference) -> IriReferenceModel {
    match r {
        IriReference::Compact(s) => IriReferenceModel::Compact(s@),
        IriReference::Expanded(s) => IriReferenceModel::Expanded(s@),
    }
}

pub open spec fn expr_model(e: Expr) -> ExprModel {
    match e {
        Expr::Var(x) => ExprModel::Var(x.0@),
        Expr::IriRef(r) => ExprModel::IriRef(iri_reference_model(r)),
    }
}

pub open spec fn located_expr(e: Meta<Expr, Span>) -> (ExprModel, Span) {
    (expr_model(e.0), e.1)
}

pub open spec fn pattern_model(p: Pattern) -> PatternModel {
    PatternModel {
        subject: located_expr(p.subject),
        predicate: located_expr(p.predicate),
        object: located_expr(p.object),
    }
}

pub open spec fn statement_model(s: Statement) -> StatementModel {
    match s {
        Statement::Pattern(p) => StatementModel::Pattern(pattern_model(p)),
        Statement::Eq(a, b) => StatementModel::Eq(located_expr(a), located_expr(b)),
    }
}

pub open spec fn signed_statement_model(s: SignedStatement) -> SignedStatementModel {
    SignedStatementModel {
        negative: s.negative,
        statement: (statement_model(s.statement.0), s.statement.1),
    }
}

pub open spec fn maybe_trusted_statement_model(s: MaybeTrustedStatement) -> MaybeTrustedStatementModel {
    MaybeTrustedStatementModel {
        statement: (signed_statement_model(s.statement.0), s.statement.1),
        trust: (s.trust.0, s.trust.1),
    }
}

pub open spec fn signed_pattern_model(p: SignedPattern) -> SignedPatternModel {
    SignedPatternModel { negative: p.negative, pattern: (pattern_model(p.pattern.0), p.pattern.1) }
}

pub open spec fn variables_model(v: Seq<Meta<crate::rdfs::VarIdent, Span>>) -> Seq<(Seq<char>, Span)> {
    v.map_values(|x: Meta<crate::rdfs::VarIdent, Span>| (x.0.0@, x.1))
}

pub open spec fn patterns_model(v: Seq<Meta<SignedPattern, Span>>) -> Seq<(SignedPatternModel, Span)> {
    v.map_values(|x: Meta<SignedPattern, Span>| (signed_pattern_model(x.0), x.1))
}

pub open spec fn statements_model(v: Seq<Meta<MaybeTrustedStatement, Span>>) -> Seq<(MaybeTrustedStatementModel, Span)> {
    v.map_values(|x: Meta<MaybeTrustedStatement, Span>| (maybe_trusted_statement_model(x.0), x.1))
}

pub open spec fn formula_model(f: Formula) -> FormulaModel
    decreases f,
{
    match f {
        Formula::ForAll(a) => FormulaModel::ForAll {
            variables: variables_model(a.variables@),
            constraints: (patterns_model(a.constraints.0.patterns@), a.constraints.1),
            inner: Box::new((formula_model(a.inner.0), a.inner.1)),
        },
        Formula::Exists(a) => FormulaModel::Exists {
            variables: variables_model(a.variables@),
            hypothesis: (patterns_model(a.hypothesis.0.patterns@), a.hypothesis.1),
            inner: Box::new((formula_model(a.inner.0), a.inner.1)),
        },
        Formula::Conclusion(c) => FormulaModel::Conclusion(statements_model(c.statements@)),
    }
}

pub open spec fn item_model(i: Item) -> ItemModel
    decreases i, 0nat,
{
    match i {
        Item::Base(iri) => ItemModel::Base(iri@),
        Item::Prefix(b) => ItemModel::Prefix {
            prefix: (b.prefix.0.0@, b.prefix.1),
            colon: b.colon.1,
            iri: (b.iri.0@, b.iri.1),
        },
        Item::Group(g) => ItemModel::Group {
            id: (iri_reference_model(g.id.0), g.id.1),
            doc: strings_model(g.doc.lines@),
            items: (items_model(g.items.0@), g.items.1),
        },
        Item::Rule(r) => ItemModel::Rule {
            id: (iri_reference_model(r.id.0), r.id.1),
            doc: strings_model(r.doc.lines@),
            formula: (formula_model(r.formula.0), r.formula.1),
        },
    }
}

pub open spec fn items_model(s: Seq<Meta<Item, Span>>) -> Seq<(ItemModel, Span)>
    decreases s, s.len(),
{
    if s.len() == 0 {
        Seq::empty()
    } else {
        items_model(s.subrange(0, s.len() - 1)).push((item_model(s[s.len() - 1].0), s[s.len() - 1].1))
    }
}

pub open spec fn document_model(d: Document) -> DocumentModel {
    DocumentModel { doc: strings_model(d.doc.lines@), items: items_model(d.items@) }
}

} // verus!
