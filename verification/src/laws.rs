//! Laws that tie the engine's operations together: how the completion
//! criterion relates to the revealed cells, and what a fully mined field
//! looks like.

use vstd::prelude::*;
use crate::spot::{Spot, SpotKind};
use crate::grid::{
    count_matching, count_mines, count_revealed, is_mine_spot, is_revealed_spot,
    lemma_count_mines_all, lemma_disjoint_counts_full,
};
use crate::field::Minefield;

verus! {

/// As long as no mine has been revealed (no step has gone Boom), the
/// completion criterion — as many revealed cells as the field has safe
/// cells — holds exactly when every safe cell has been revealed.  This ties
/// the counting form of the completion query to its intent.
pub proof fn lemma_cleared_iff_all_safe_revealed(s: Seq<Spot>)
    requires
        forall|i: int|
            0 <= i < s.len() && (#[trigger] s[i]).kind is Mine ==> !(s[i].state is Revealed),
    ensures
        (count_revealed(s) == s.len() - count_mines(s)) <==> (forall|i: int|
            0 <= i < s.len() && !((#[trigger] s[i]).kind is Mine) ==> s[i].state is Revealed),
{
    let p = |c: Spot| is_revealed_spot(c);
    let q = |c: Spot| is_mine_spot(c);
    lemma_disjoint_counts_full(s, p, q);
    assert((count_matching(s, p) + count_matching(s, q) == s.len()) <==> (forall|i: int|
        0 <= i < s.len() ==> (p(#[trigger] s[i]) || q(s[i]))));
    if forall|i: int| 0 <= i < s.len() ==> (p(#[trigger] s[i]) || q(s[i])) {
        assert forall|i: int|
            0 <= i < s.len() && !((#[trigger] s[i]).kind is Mine) implies s[i].state
            is Revealed by {
            assert(p(s[i]) || q(s[i]));
        }
    }
    if forall|i: int|
        0 <= i < s.len() && !((#[trigger] s[i]).kind is Mine) ==> s[i].state is Revealed {
        assert forall|i: int| 0 <= i < s.len() implies (p(#[trigger] s[i]) || q(s[i])) by {
            if !(s[i].kind is Mine) {
                assert(s[i].state is Revealed);
            }
        }
    }
}

/// A field whose mine counter has reached its cell count is all mines: the
/// clamped placement of as many mines as there are cells leaves no empty
/// cell behind.
pub proof fn lemma_full_field_all_mines(f: Minefield)
    requires
        f.wf(),
        f.spec_mines() == f.cells().len(),
    ensures
        forall|i: int| 0 <= i < f.cells().len() ==> (#[trigger] f.cells()[i]).kind is Mine,
{
    assert(count_mines(f.cells()) == f.cells().len());
    lemma_count_mines_all(f.cells());
}

} // verus!
