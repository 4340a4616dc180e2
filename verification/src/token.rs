//! The token record handed over by the upstream tokenizer, and the canonical
//! part-of-speech pattern the filter reads off it.

use vstd::prelude::*;

use crate::pattern::{join_levels, normalize_levels, spec_join, spec_normalize};

verus! {

/// A token as produced by the tokenizer: surface text, byte offsets,
/// position data, and the ordered list of annotation detail fields.  The
/// first up to four detail fields carry the part-of-speech hierarchy; the
/// rest carry reading and pronunciation data this filter never looks at.
#[derive(Clone, Debug, PartialEq, Eq)]
pub struct FilteredToken {
    pub text: String,
    pub byte_start: usize,
    pub byte_end: usize,
    pub position: usize,
    pub position_length: usize,
    pub details: Vec<String>,
}

impl FilteredToken {
    /// A token the filter can classify carries at least one detail field.
    pub open spec fn has_details(&self) -> bool {
        self.details@.len() >= 1
    }
}

/// The detail fields that take part in the part-of-speech hierarchy: the
/// first four if the token carries at least four detail fields, otherwise
/// only the first one (degenerate dictionary entries carry a single
/// catch-all tag).
pub open spec fn spec_pos_levels(token: FilteredToken) -> Seq<Seq<char>> {
    if token.details@.len() >= 4 {
        token.details.deep_view().take(4)
    } else {
        token.details.deep_view().take(1)
    }
}

/// The token's canonical part-of-speech pattern: its participating detail
/// fields, normalized to the fixed four-level form and joined with commas.
pub open spec fn spec_token_pattern(token: FilteredToken) -> Seq<char> {
    spec_join(spec_normalize(spec_pos_levels(token)))
}

/// Reads the token's canonical part-of-speech pattern.
pub fn token_pattern(token: &FilteredToken) -> (pattern: String)
    requires
        token.has_details(),
    ensures
        pattern@ == spec_token_pattern(*token),
{
    let count: usize = if token.details.len() >= 4 {
        4
    } else {
        1
    };
    let mut levels: Vec<String> = Vec::new();
    let mut i: usize = 0;
    while i < count
        invariant
            0 <= i <= count <= token.details@.len(),
            levels.deep_view() == token.details.deep_view().take(i as int),
        decreases count - i,
    {
        let ghost before = levels.deep_view();
        let piece = token.details[i].clone();
        levels.push(piece);
        proof {
            assert(levels.deep_view() =~= before.push(token.details.deep_view()[i as int]));
            assert(levels.deep_view() =~= token.details.deep_view().take(i + 1));
        }
        i += 1;
    }
    proof {
        assert(levels.deep_view() == spec_pos_levels(*token));
    }
    let fixed = normalize_levels(&levels);
    join_levels(&fixed)
}

} // verus!
