use vstd::prelude::*;

verus! {

/// Why a tile could not be classified.
#[derive(Debug, PartialEq, Eq, Structural)]
pub enum ClassifierError {
    /// There is no reference glyph to compare against.
    EmptyCatalog,
}

/// Entry `i` of `scores` wins: no entry scores higher, and among entries of
/// equal score none has a smaller character code.
pub open spec fn wins(scores: Seq<(char, u64)>, i: int) -> bool {
    &&& 0 <= i < scores.len()
    &&& forall|j: int|
        0 <= j < scores.len() ==> (#[trigger] scores[j]).1 < scores[i].1 || (scores[j].1 == scores[i].1
            && (scores[i].0 as u32) <= (scores[j].0 as u32))
}

/// Picks the character with the highest similarity score; of equal scores,
/// the one with the smallest character code. A higher score is a better
/// match, and the best match is taken however low it is.
pub fn best_letter(scores: &Vec<(char, u64)>) -> (r: Result<char, ClassifierError>)
    ensures
        scores@.len() == 0 ==> r == Err::<char, ClassifierError>(ClassifierError::EmptyCatalog),
        scores@.len() > 0 ==> exists|i: int| wins(scores@, i) && r == Ok::<char, ClassifierError>(scores@[i].0),
{
    if scores.len() == 0 {
        return Err(ClassifierError::EmptyCatalog);
    }
    let mut best: usize = 0;
    let mut i: usize = 1;
    while i < scores.len()
        invariant
            1 <= i <= scores@.len(),
            best < i,
            forall|j: int|
                0 <= j < i ==> (#[trigger] scores@[j]).1 < scores@[best as int].1 || (scores@[j].1
                    == scores@[best as int].1 && (scores@[best as int].0 as u32) <= (scores@[j].0 as u32)),
        decreases scores@.len() - i,
    {
        let (c, s) = scores[i];
        let (bc, bs) = scores[best];
        if s > bs || (s == bs && (c as u32) < (bc as u32)) {
            best = i;
        }
        i += 1;
    }
    assert(wins(scores@, best as int));
    Ok(scores[best].0)
}

/// Whatever the order of the catalog, the winner's character is the same.
pub proof fn lemma_winner_unique(scores: Seq<(char, u64)>, i: int, j: int)
    requires
        wins(scores, i),
        wins(scores, j),
    ensures
        scores[i].0 == scores[j].0,
{
    vstd::utf8::char_u32_cast(scores[i].0, scores[i].0 as u32);
    vstd::utf8::char_u32_cast(scores[j].0, scores[j].0 as u32);
}

/// A character that scores above every other entry is chosen, whatever the
/// tie-break.
pub proof fn lemma_strict_best_wins(scores: Seq<(char, u64)>, i: int, k: int)
    requires
        0 <= i < scores.len(),
        forall|j: int| 0 <= j < scores.len() && (#[trigger] scores[j]).0 != scores[i].0 ==> scores[j].1 < scores[i].1,
        wins(scores, k),
    ensures
        scores[k].0 == scores[i].0,
{
    assert(scores[i].1 <= scores[k].1);
}

} // verus!
