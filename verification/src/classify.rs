//! Line classifier: maps one physical line to its structural role from the
//! indentation depth and the leading symbol.
//!
//! A line of only whitespace is blank. A line whose first byte is not a space
//! declares a concept. Exactly two spaces followed by `.` declare a facet;
//! exactly four spaces followed by `- ` carry a claim. Everything else is
//! malformed and reported as a structural error.

use vstd::prelude::*;
use crate::bytes::{all_ws, trim, trim_end, is_ws, is_ws_byte, trim_range, subrange_vec};

verus! {

/// Structural role of one physical line.
#[derive(PartialEq, Eq, Structural, Clone, Copy, Debug)]
pub enum LineKind {
    Blank,
    Concept,
    Facet,
    Claim,
    Malformed,
}

/// Role of a line, by indentation and leading symbol.
pub open spec fn line_kind(l: Seq<u8>) -> LineKind {
    if all_ws(l) {
        LineKind::Blank
    } else if l[0] != 32 {
        LineKind::Concept
    } else if l.len() >= 3 && l[1] == 32 && l[2] == 46 {
        LineKind::Facet
    } else if l.len() >= 6 && l[1] == 32 && l[2] == 32 && l[3] == 32 && l[4] == 45 && l[5]
        == 32 {
        LineKind::Claim
    } else {
        LineKind::Malformed
    }
}

/// Name declared by a concept line: the line, trimmed.
pub open spec fn concept_name(l: Seq<u8>) -> Seq<u8> {
    trim(l)
}

/// Name declared by a facet line: what follows `  .`, trimmed.
pub open spec fn facet_name(l: Seq<u8>) -> Seq<u8> {
    trim(l.skip(3))
}

/// Residual body of a claim line: what follows `    - `, untrimmed.
pub open spec fn claim_body(l: Seq<u8>) -> Seq<u8> {
    l.skip(6)
}

/// A classified line together with its residual content.
pub enum ClassifiedLine {
    Blank,
    Concept { name: Vec<u8> },
    Facet { name: Vec<u8> },
    Claim { body: Vec<u8> },
    Malformed,
}

/// Classify one physical line.
pub fn classify_line(l: &[u8]) -> (r: ClassifiedLine)
    ensures
        match r {
            ClassifiedLine::Blank => line_kind(l@) == LineKind::Blank,
            ClassifiedLine::Concept { name } => line_kind(l@) == LineKind::Concept && name@
                == concept_name(l@),
            ClassifiedLine::Facet { name } => line_kind(l@) == LineKind::Facet && name@
                == facet_name(l@),
            ClassifiedLine::Claim { body } => line_kind(l@) == LineKind::Claim && body@
                == claim_body(l@),
            ClassifiedLine::Malformed => line_kind(l@) == LineKind::Malformed,
        },
{
    let mut k: usize = 0;
    let mut blank: bool = true;
    while k < l.len()
        invariant
            k <= l@.len(),
            blank ==> forall|i: int| 0 <= i < k ==> is_ws(#[trigger] l@[i]),
            !blank ==> !all_ws(l@),
        decreases l@.len() - k,
    {
        if !is_ws_byte(l[k]) {
            proof {
                assert(!is_ws(l@[k as int]));
            }
            blank = false;
        }
        k = k + 1;
    }
    if blank {
        return ClassifiedLine::Blank;
    }
    proof {
        assert(l@.len() > 0);
    }
    if l[0] != 32 {
        let name = trim_range(l, 0, l.len());
        proof {
            assert(l@.subrange(0, l@.len() as int) =~= l@);
        }
        return ClassifiedLine::Concept { name };
    }
    if l.len() >= 3 && l[1] == 32 && l[2] == 46 {
        let name = trim_range(l, 3, l.len());
        proof {
            assert(l@.subrange(3, l@.len() as int) =~= l@.skip(3));
        }
        return ClassifiedLine::Facet { name };
    }
    if l.len() >= 6 && l[1] == 32 && l[2] == 32 && l[3] == 32 && l[4] == 45 && l[5] == 32 {
        let body = subrange_vec(l, 6, l.len());
        proof {
            assert(l@.subrange(6, l@.len() as int) =~= l@.skip(6));
        }
        return ClassifiedLine::Claim { body };
    }
    ClassifiedLine::Malformed
}

} // verus!
