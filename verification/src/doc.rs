//! The document tree: a document owns concepts, a concept owns facets, a
//! facet owns claims. References are name-based and non-owning.

use vstd::prelude::*;
use crate::inline::{
    ClaimContent, ContentS, Modifiers, ClaimRef, RefS, Relation, RelationS,
};

verus! {

/// Mathematical model of a claim.
pub struct ClaimS {
    pub content: ContentS,
    pub conditions: Seq<Seq<u8>>,
    pub sources: Seq<Seq<u8>>,
    pub references: Seq<RefS>,
    pub modifiers: Modifiers,
    pub supersedes: Option<Seq<u8>>,
    pub line: int,
}

/// Mathematical model of a facet.
pub struct FacetS {
    pub name: Seq<u8>,
    pub line: int,
    pub claims: Seq<ClaimS>,
}

/// Mathematical model of a concept.
pub struct ConceptS {
    pub name: Seq<u8>,
    pub line: int,
    pub facets: Seq<FacetS>,
}

/// Mathematical model of a document.
pub struct DocumentS {
    pub concepts: Seq<ConceptS>,
}

/// An assertion under a facet, with its inline segments and the line that
/// declared it.
pub struct Claim {
    pub content: ClaimContent,
    pub conditions: Vec<Vec<u8>>,
    pub sources: Vec<Vec<u8>>,
    pub references: Vec<ClaimRef>,
    pub modifiers: Modifiers,
    pub supersedes: Option<Vec<u8>>,
    pub line: usize,
}

impl View for Claim {
    type V = ClaimS;

    open spec fn view(&self) -> ClaimS {
        ClaimS {
            content: self.content@,
            conditions: self.conditions.deep_view(),
            sources: self.sources.deep_view(),
            references: self.references.deep_view(),
            modifiers: self.modifiers,
            supersedes: match self.supersedes {
                Some(s) => Some(s@),
                None => None,
            },
            line: self.line as int,
        }
    }
}

impl DeepView for Claim {
    type V = ClaimS;

    open spec fn deep_view(&self) -> ClaimS {
        self@
    }
}

/// A named aspect of a concept grouping claims, with its declaration line.
pub struct Facet {
    pub name: Vec<u8>,
    pub line: usize,
    pub claims: Vec<Claim>,
}

impl View for Facet {
    type V = FacetS;

    open spec fn view(&self) -> FacetS {
        FacetS { name: self.name@, line: self.line as int, claims: self.claims.deep_view() }
    }
}

impl DeepView for Facet {
    type V = FacetS;

    open spec fn deep_view(&self) -> FacetS {
        self@
    }
}

/// A top-level named subject of belief, with its declaration line.
pub struct Concept {
    pub name: Vec<u8>,
    pub line: usize,
    pub facets: Vec<Facet>,
}

impl View for Concept {
    type V = ConceptS;

    open spec fn view(&self) -> ConceptS {
        ConceptS { name: self.name@, line: self.line as int, facets: self.facets.deep_view() }
    }
}

impl DeepView for Concept {
    type V = ConceptS;

    open spec fn deep_view(&self) -> ConceptS {
        self@
    }
}

/// An ordered collection of concepts rebuilt from raw text on every parse.
pub struct Document {
    pub concepts: Vec<Concept>,
}

impl View for Document {
    type V = DocumentS;

    open spec fn view(&self) -> DocumentS {
        DocumentS { concepts: self.concepts.deep_view() }
    }
}

} // verus!
