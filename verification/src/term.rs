//! RDF terms: IRIs, blank nodes and literals.

use vstd::prelude::*;
use vstd::std_specs::cmp::PartialEqSpecImpl;
use snowflake::ProcessUniqueId;
use crate::error::ErrorKind;
use crate::text::str_eq;

verus! {

/// The datatype of every literal that carries a language tag.
pub const LANG_STRING_IRI: &'static str = "http://www.w3.org/1999/02/22-rdf-syntax-ns#langString";

/// The datatype of a literal that was given neither a datatype nor a language tag.
pub const XSD_STRING_IRI: &'static str = "http://www.w3.org/2001/XMLSchema#string";

/// The identifier of a blank node, unique within the process that made it.
#[verifier::external_type_specification]
#[verifier::external_body]
pub struct ExProcessUniqueId(ProcessUniqueId);

/// Calls `snowflake::ProcessUniqueId::new`, which hands out the next identifier of the calling
/// thread and never one that the process has handed out before. Every blank node holds an
/// identifier that an earlier call handed out, so the new one is the identifier of none of
/// the blank nodes in `earlier`, whichever they are. snowflake panics once a process has used
/// up every identifier.
#[verifier::external_body]
#[allow(unused_variables)]
fn fresh_id(earlier: &[BNode]) -> (id: ProcessUniqueId)
    ensures
        forall|i: int| 0 <= i < earlier@.len() ==> (#[trigger] earlier@[i])@ != id,
{
    ProcessUniqueId::new()
}

/// Compares two identifiers with the `==` of `snowflake::ProcessUniqueId`, which compares both
/// of its fields: two identifiers compare equal exactly when they are the same value.
#[verifier::external_body]
fn same_id(a: &ProcessUniqueId, b: &ProcessUniqueId) -> (same: bool)
    ensures
        same == (*a == *b),
{
    a == b
}

/// What a literal holds.
pub struct LiteralView {
    pub lexical: Seq<char>,
    pub datatype: Seq<char>,
    pub lang: Option<Seq<char>>,
}

/// What a term is.
pub enum TermView {
    Iri(Seq<char>),
    BNode(ProcessUniqueId),
    Literal(LiteralView),
}

/// A term without the identity of a blank node: what the text of a document determines.
pub enum TermShape {
    Iri(Seq<char>),
    BNode,
    Literal(LiteralView),
}

impl TermView {
    /// The term with a blank node's identifier left out.
    pub open spec fn shape(self) -> TermShape {
        match self {
            TermView::Iri(value) => TermShape::Iri(value),
            TermView::BNode(_) => TermShape::BNode,
            TermView::Literal(literal) => TermShape::Literal(literal),
        }
    }
}

impl TermView {
    /// The identifier of the blank node that the term is, as a sequence of one, or of none
    /// where the term is no blank node.
    pub open spec fn node(self) -> Seq<ProcessUniqueId> {
        match self {
            TermView::BNode(id) => seq![id],
            _ => Seq::empty(),
        }
    }
}

/// The identifiers of the blank nodes.
pub open spec fn ids_of(nodes: Seq<BNode>) -> Seq<ProcessUniqueId> {
    Seq::new(nodes.len(), |i: int| nodes[i]@)
}

/// The identifiers `added` are new beside `before`: no two of them are the same, and none is
/// among `before`.
pub open spec fn fresh_after(before: Seq<ProcessUniqueId>, added: Seq<ProcessUniqueId>) -> bool {
    &&& added.no_duplicates()
    &&& forall|i: int| 0 <= i < added.len() ==> !before.contains(#[trigger] added[i])
}

/// Identifiers that are new beside a record, and more that are new beside both, are all new
/// beside the record. The record begins with what it held before: taking its old length from
/// it gives the old record.
pub proof fn lemma_record_grows(
    before: Seq<ProcessUniqueId>,
    added: Seq<ProcessUniqueId>,
    more: Seq<ProcessUniqueId>,
)
    requires
        fresh_after(before, added),
        fresh_after(before + added, more),
    ensures
        fresh_after(before, added + more),
        before + added + more == before + (added + more),
        (before + added + more).take(before.len() as int) == before,
        (before + added).take(before.len() as int) == before,
        (before + added).take(before.len() as int) + added == before + added,
        (before + added + more).take(before.len() as int) + (added + more) == before + added
            + more,
{
    let all = added + more;
    assert(before + added + more =~= before + all);
    assert((before + all).take(before.len() as int) =~= before);
    assert((before + added).take(before.len() as int) =~= before);
    assert forall|i: int| 0 <= i < all.len() implies !before.contains(#[trigger] all[i]) by {
        if i < added.len() {
            assert(all[i] == added[i]);
        } else {
            let x = more[i - added.len()];
            assert(all[i] == x);
            assert(!(before + added).contains(x));
            if before.contains(x) {
                let k = choose|k: int| 0 <= k < before.len() && before[k] == x;
                assert((before + added)[k] == x);
            }
        }
    }
    assert forall|i: int, j: int| 0 <= i < all.len() && 0 <= j < all.len() && i != j implies all[i]
        != all[j] by {
        if i < added.len() && j < added.len() {
        } else if i >= added.len() && j >= added.len() {
            assert(all[i] == more[i - added.len()]);
            assert(all[j] == more[j - added.len()]);
        } else {
            let (low, high) = if i < j {
                (i, j)
            } else {
                (j, i)
            };
            let x = more[high - added.len()];
            assert(all[high] == x);
            assert(!(before + added).contains(x));
            assert((before + added)[before.len() + low] == added[low]);
        }
    }
}

/// The characters of an optional string slice.
pub open spec fn opt_chars(s: Option<&str>) -> Option<Seq<char>> {
    match s {
        Some(s) => Some(s@),
        None => None,
    }
}

/// The literal that a lexical form, an optional datatype and an optional language tag make:
/// the datatype defaults to `xsd:string`, a language tag alone forces `rdf:langString`, and a
/// language tag beside any other datatype is a conflict.
pub open spec fn literal_of(
    lexical: Seq<char>,
    datatype: Option<Seq<char>>,
    lang: Option<Seq<char>>,
) -> Result<LiteralView, ErrorKind> {
    match (datatype, lang) {
        (None, None) => Ok(LiteralView { lexical, datatype: XSD_STRING_IRI@, lang: None }),
        (None, Some(tag)) => Ok(
            LiteralView { lexical, datatype: LANG_STRING_IRI@, lang: Some(tag) },
        ),
        (Some(d), None) => Ok(LiteralView { lexical, datatype: d, lang: None }),
        (Some(d), Some(tag)) => if d == LANG_STRING_IRI@ {
            Ok(LiteralView { lexical, datatype: d, lang: Some(tag) })
        } else {
            Err(ErrorKind::ConflictingLiteralTag)
        },
    }
}

/// An IRI reference.
#[derive(Debug, Clone, Copy, Eq, Hash)]
pub struct IRI<'a> {
    value: &'a str,
}

impl<'a> View for IRI<'a> {
    type V = Seq<char>;

    closed spec fn view(&self) -> Seq<char> {
        self.value@
    }
}

impl<'a> IRI<'a> {
    /// The IRI with the given characters. Nothing is validated.
    pub fn new(value: &'a str) -> (iri: IRI<'a>)
        ensures
            iri@ == value@,
    {
        IRI { value: value }
    }

    /// The characters of the IRI.
    pub fn value(&self) -> (value: &'a str)
        ensures
            value@ == self@,
    {
        self.value
    }
}

impl<'a> PartialEq for IRI<'a> {
    fn eq(&self, other: &IRI<'a>) -> (same: bool) {
        str_eq(self.value, other.value)
    }
}

impl<'a> PartialEqSpecImpl for IRI<'a> {
    open spec fn obeys_eq_spec() -> bool {
        true
    }

    open spec fn eq_spec(&self, other: &IRI<'a>) -> bool {
        self@ == other@
    }
}

/// A blank node. It is equal to itself and its copies, and to nothing else.
#[derive(Debug, Clone, Copy, Eq, Hash)]
pub struct BNode {
    id: ProcessUniqueId,
}

impl View for BNode {
    type V = ProcessUniqueId;

    closed spec fn view(&self) -> ProcessUniqueId {
        self.id
    }
}

impl BNode {
    /// A new blank node. It is none of the blank nodes made before, of which `earlier` holds
    /// those that the caller kept.
    pub fn new(earlier: &[BNode]) -> (node: BNode)
        ensures
            !ids_of(earlier@).contains(node@),
    {
        let node = BNode { id: fresh_id(earlier) };
        assert forall|i: int| 0 <= i < ids_of(earlier@).len() implies ids_of(earlier@)[i]
            != node@ by {
            assert(ids_of(earlier@)[i] == earlier@[i]@);
        }
        node
    }
}

impl PartialEq for BNode {
    fn eq(&self, other: &BNode) -> (same: bool) {
        same_id(&self.id, &other.id)
    }
}

impl PartialEqSpecImpl for BNode {
    open spec fn obeys_eq_spec() -> bool {
        true
    }

    open spec fn eq_spec(&self, other: &BNode) -> bool {
        self@ == other@
    }
}

/// A literal: a lexical form, a datatype and, for language-tagged strings, a language tag.
#[derive(Debug, Eq, Hash)]
pub struct Literal<'a> {
    lexical: String,
    datatype: IRI<'a>,
    lang: Option<&'a str>,
}

impl<'a> View for Literal<'a> {
    type V = LiteralView;

    closed spec fn view(&self) -> LiteralView {
        LiteralView {
            lexical: self.lexical@,
            datatype: self.datatype@,
            lang: opt_chars(self.lang),
        }
    }
}

impl<'a> Literal<'a> {
    /// The literal that `literal_of` describes, or the conflict that it reports.
    pub fn new(lexical: &str, datatype: Option<IRI<'a>>, lang: Option<&'a str>) -> (r: Result<
        Literal<'a>,
        ErrorKind,
    >)
        ensures
            match r {
                Ok(literal) => literal_of(
                    lexical@,
                    match datatype {
                        Some(d) => Some(d@),
                        None => None,
                    },
                    opt_chars(lang),
                ) == Ok::<LiteralView, ErrorKind>(literal@),
                Err(kind) => literal_of(
                    lexical@,
                    match datatype {
                        Some(d) => Some(d@),
                        None => None,
                    },
                    opt_chars(lang),
                ) == Err::<LiteralView, ErrorKind>(kind),
            },
    {
        match datatype {
            Some(iri) => {
                if iri == IRI::new(LANG_STRING_IRI) {
                    Ok(Literal { lexical: lexical.to_string(), datatype: iri, lang: lang })
                } else {
                    match lang {
                        None => Ok(
                            Literal { lexical: lexical.to_string(), datatype: iri, lang: lang },
                        ),
                        Some(_) => Err(ErrorKind::ConflictingLiteralTag),
                    }
                }
            },
            None => {
                match lang {
                    Some(lang) => Ok(Literal::new_lang_string(lexical, lang)),
                    None => Ok(Literal::new_string(lexical)),
                }
            },
        }
    }

    /// The plain string literal, of datatype `xsd:string`.
    pub fn new_string(lexical: &str) -> (literal: Literal<'a>)
        ensures
            literal@ == (LiteralView { lexical: lexical@, datatype: XSD_STRING_IRI@, lang: None }),
    {
        Literal { lexical: lexical.to_string(), datatype: IRI::new(XSD_STRING_IRI), lang: None }
    }

    /// The language-tagged string, of datatype `rdf:langString`.
    pub fn new_lang_string(lexical: &str, lang: &'a str) -> (literal: Literal<'a>)
        ensures
            literal@ == (LiteralView {
                lexical: lexical@,
                datatype: LANG_STRING_IRI@,
                lang: Some(lang@),
            }),
    {
        Literal {
            lexical: lexical.to_string(),
            datatype: IRI::new(LANG_STRING_IRI),
            lang: Some(lang),
        }
    }

    /// The lexical form.
    pub fn lexical(&self) -> (lexical: &str)
        ensures
            lexical@ == self@.lexical,
    {
        self.lexical.as_str()
    }

    /// The datatype.
    pub fn datatype(&self) -> (datatype: IRI<'a>)
        ensures
            datatype@ == self@.datatype,
    {
        self.datatype
    }

    /// The language tag, if the literal has one.
    pub fn lang(&self) -> (lang: Option<&'a str>)
        ensures
            opt_chars(lang) == self@.lang,
    {
        self.lang
    }
}

impl<'a> Clone for Literal<'a> {
    fn clone(&self) -> (copy: Literal<'a>)
        ensures
            copy@ == self@,
    {
        Literal { lexical: self.lexical.clone(), datatype: self.datatype, lang: self.lang }
    }
}

impl<'a> PartialEq for Literal<'a> {
    fn eq(&self, other: &Literal<'a>) -> (same: bool) {
        let same_lang = match (self.lang, other.lang) {
            (Some(a), Some(b)) => str_eq(a, b),
            (None, None) => true,
            _ => false,
        };
        same_lang && self.datatype == other.datatype && str_eq(
            self.lexical.as_str(),
            other.lexical.as_str(),
        )
    }
}

impl<'a> PartialEqSpecImpl for Literal<'a> {
    open spec fn obeys_eq_spec() -> bool {
        true
    }

    open spec fn eq_spec(&self, other: &Literal<'a>) -> bool {
        self@ == other@
    }
}

/// An RDF term.
#[derive(Debug, Eq, Hash)]
pub enum Term<'a> {
    IRI(IRI<'a>),
    BNode(BNode),
    Literal(Literal<'a>),
}

impl<'a> View for Term<'a> {
    type V = TermView;

    open spec fn view(&self) -> TermView {
        match self {
            Term::IRI(iri) => TermView::Iri(iri@),
            Term::BNode(node) => TermView::BNode(node@),
            Term::Literal(literal) => TermView::Literal(literal@),
        }
    }
}

impl<'a> Clone for Term<'a> {
    fn clone(&self) -> (copy: Term<'a>)
        ensures
            copy@ == self@,
    {
        match self {
            Term::IRI(iri) => Term::IRI(*iri),
            Term::BNode(node) => Term::BNode(*node),
            Term::Literal(literal) => Term::Literal(literal.clone()),
        }
    }
}

impl<'a> PartialEq for Term<'a> {
    fn eq(&self, other: &Term<'a>) -> (same: bool) {
        match (self, other) {
            (Term::IRI(a), Term::IRI(b)) => *a == *b,
            (Term::BNode(a), Term::BNode(b)) => *a == *b,
            (Term::Literal(a), Term::Literal(b)) => *a == *b,
            _ => false,
        }
    }
}

impl<'a> PartialEqSpecImpl for Term<'a> {
    open spec fn obeys_eq_spec() -> bool {
        true
    }

    open spec fn eq_spec(&self, other: &Term<'a>) -> bool {
        self@ == other@
    }
}

} // verus!
