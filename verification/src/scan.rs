//! Looking through a text for the first place that holds something of a given
//! kind, or the first place that does not.

use vstd::prelude::*;

verus! {

/// The first place of `text` at or after `from` that holds something of the
/// kind `wanted`, where `hit` is set, or something of another kind, where it
/// is not; the length of `text` where there is no such place.
pub open spec fn first_where<T>(
    text: Seq<T>,
    from: int,
    wanted: spec_fn(T) -> bool,
    hit: bool,
) -> int
    decreases text.len() - from,
{
    if from < 0 || from >= text.len() {
        text.len() as int
    } else if wanted(text[from]) == hit {
        from
    } else {
        first_where(text, from + 1, wanted, hit)
    }
}

/// The first place of `text` at or after `from` that holds `mark`, where `hit`
/// is set, or that holds something else, where it is not; the length of `text`
/// where there is no such place.
pub open spec fn first_at<T>(text: Seq<T>, from: int, mark: T, hit: bool) -> int {
    first_where(text, from, same_as(mark), hit)
}

/// The kind of what equals `mark`.
pub open spec fn same_as<T>(mark: T) -> spec_fn(T) -> bool {
    |element: T| element == mark
}

/// What the search finds: nothing of the wanted kind lies before the place,
/// and something of that kind lies at it unless the text ends there.
pub proof fn lemma_first_where<T>(text: Seq<T>, from: int, wanted: spec_fn(T) -> bool, hit: bool)
    requires
        0 <= from <= text.len(),
    ensures
        from <= first_where(text, from, wanted, hit) <= text.len(),
        forall|k: int|
            from <= k < first_where(text, from, wanted, hit) ==> wanted(#[trigger] text[k]) != hit,
        first_where(text, from, wanted, hit) < text.len() ==> wanted(
            text[first_where(text, from, wanted, hit)],
        ) == hit,
    decreases text.len() - from,
{
    if from < text.len() && wanted(text[from]) != hit {
        lemma_first_where(text, from + 1, wanted, hit);
    }
}

/// A place is what the search finds where nothing of the wanted kind lies
/// between the start and it, and something of that kind lies at it or the text
/// ends there.
pub proof fn lemma_first_where_is<T>(
    text: Seq<T>,
    from: int,
    place: int,
    wanted: spec_fn(T) -> bool,
    hit: bool,
)
    requires
        0 <= from <= place <= text.len(),
        forall|k: int| from <= k < place ==> wanted(#[trigger] text[k]) != hit,
        place < text.len() ==> wanted(text[place]) == hit,
    ensures
        first_where(text, from, wanted, hit) == place,
    decreases place - from,
{
    if from < place {
        lemma_first_where_is(text, from + 1, place, wanted, hit);
    }
}

/// What the search for a mark finds: the mark does not lie before the place,
/// where it is looked for, and lies at it unless the text ends there.
pub proof fn lemma_first_at<T>(text: Seq<T>, from: int, mark: T, hit: bool)
    requires
        0 <= from <= text.len(),
    ensures
        from <= first_at(text, from, mark, hit) <= text.len(),
        forall|k: int| from <= k < first_at(text, from, mark, hit) ==> (text[k] == mark) != hit,
        first_at(text, from, mark, hit) < text.len() ==> (text[first_at(text, from, mark, hit)]
            == mark) == hit,
{
    lemma_first_where(text, from, same_as(mark), hit);
}

/// A place is what the search for a mark finds where the mark, or anything
/// else, does not lie between the start and it, and lies at it or the text
/// ends there.
pub proof fn lemma_first_at_is<T>(text: Seq<T>, from: int, place: int, mark: T, hit: bool)
    requires
        0 <= from <= place <= text.len(),
        forall|k: int| from <= k < place ==> (text[k] == mark) != hit,
        place < text.len() ==> (text[place] == mark) == hit,
    ensures
        first_at(text, from, mark, hit) == place,
{
    lemma_first_where_is(text, from, place, same_as(mark), hit);
}

} // verus!
