//! Records that stand for log lines, and the merge of two record sequences.

use crate::decimal::{append_decimal, append_signed_decimal, decimal, signed_decimal};
use core::cmp::Ordering;
use vstd::prelude::*;
use vstd::string::*;

verus! {

/// One log line without its text: the instant it was written at, the file it
/// comes from (a position in the list of open files) and its ordinal number
/// within that file.
#[derive(Debug, Clone, Copy)]
pub struct Line {
    pub timestamp: i64,
    pub source_file: usize,
    pub index: usize,
}

impl Line {
    /// The record written out: its instant, the number of its file and the
    /// number of its line, in brackets behind the word `Line`.
    pub open spec fn text(&self) -> Seq<char> {
        "Line("@ + signed_decimal(self.timestamp as int) + ", "@ + decimal(self.source_file as nat)
            + ", "@ + decimal(self.index as nat) + ")"@
    }

    /// The record written out, such as `Line(30, 1, 4)`.
    pub fn to_string(&self) -> (text: String)
        ensures
            text@ == self.text(),
    {
        let mut text = "Line(".to_owned();
        append_signed_decimal(&mut text, self.timestamp);
        text.append(", ");
        append_decimal(&mut text, self.source_file as u64);
        text.append(", ");
        append_decimal(&mut text, self.index as u64);
        text.append(")");
        text
    }
}

/// Two records compare equal when they carry the same instant, whatever file
/// and line they point at.
impl PartialEq for Line {
    fn eq(&self, other: &Line) -> (r: bool) {
        self.timestamp == other.timestamp
    }
}

impl vstd::std_specs::cmp::PartialEqSpecImpl for Line {
    open spec fn obeys_eq_spec() -> bool {
        true
    }

    open spec fn eq_spec(&self, other: &Line) -> bool {
        self.timestamp == other.timestamp
    }
}

impl Eq for Line {

}

/// Records are ordered by instant alone.
impl PartialOrd for Line {
    fn partial_cmp(&self, other: &Line) -> (r: Option<Ordering>) {
        if self.timestamp < other.timestamp {
            Some(Ordering::Less)
        } else if self.timestamp > other.timestamp {
            Some(Ordering::Greater)
        } else {
            Some(Ordering::Equal)
        }
    }
}

impl vstd::std_specs::cmp::PartialOrdSpecImpl for Line {
    open spec fn obeys_partial_cmp_spec() -> bool {
        true
    }

    open spec fn partial_cmp_spec(&self, other: &Line) -> Option<Ordering> {
        if self.timestamp < other.timestamp {
            Some(Ordering::Less)
        } else if self.timestamp > other.timestamp {
            Some(Ordering::Greater)
        } else {
            Some(Ordering::Equal)
        }
    }
}

/// The records are in non-decreasing order of their instants.
pub open spec fn sorted_by_timestamp(lines: Seq<Line>) -> bool {
    forall|i: int, j: int| 0 <= i <= j < lines.len() ==> lines[i].timestamp <= lines[j].timestamp
}

/// The merge of two record sequences: the head with the smaller instant goes
/// first, and on equal instants the head of `left` does.
pub open spec fn merged(left: Seq<Line>, right: Seq<Line>) -> Seq<Line>
    decreases left.len() + right.len(),
{
    if left.len() == 0 {
        right
    } else if right.len() == 0 {
        left
    } else if left[0].timestamp <= right[0].timestamp {
        seq![left[0]] + merged(left.drop_first(), right)
    } else {
        seq![right[0]] + merged(left, right.drop_first())
    }
}

/// A merge holds every record of both inputs.
pub proof fn lemma_merged_len(left: Seq<Line>, right: Seq<Line>)
    ensures
        merged(left, right).len() == left.len() + right.len(),
    decreases left.len() + right.len(),
{
    if left.len() == 0 || right.len() == 0 {
    } else if left[0].timestamp <= right[0].timestamp {
        lemma_merged_len(left.drop_first(), right);
    } else {
        lemma_merged_len(left, right.drop_first());
    }
}

/// A merge is a rearrangement of its two inputs taken together: every record
/// occurs in it as often as in `left` and `right` combined.
pub proof fn lemma_merged_is_permutation(left: Seq<Line>, right: Seq<Line>)
    ensures
        merged(left, right).to_multiset() == left.to_multiset().add(right.to_multiset()),
    decreases left.len() + right.len(),
{
    broadcast use vstd::seq_lib::group_to_multiset_ensures;

    let both = left.to_multiset().add(right.to_multiset());
    if left.len() == 0 {
        assert(left.to_multiset() =~= vstd::multiset::Multiset::empty());
        assert(both =~= right.to_multiset());
    } else if right.len() == 0 {
        assert(right.to_multiset() =~= vstd::multiset::Multiset::empty());
        assert(both =~= left.to_multiset());
    } else if left[0].timestamp <= right[0].timestamp {
        let rest = merged(left.drop_first(), right);
        lemma_merged_is_permutation(left.drop_first(), right);
        lemma_multiset_of_cons(left[0], rest);
        lemma_multiset_of_cons(left[0], left.drop_first());
        assert(seq![left[0]] + left.drop_first() =~= left);
        assert(merged(left, right).to_multiset() =~= both);
    } else {
        let rest = merged(left, right.drop_first());
        lemma_merged_is_permutation(left, right.drop_first());
        lemma_multiset_of_cons(right[0], rest);
        lemma_multiset_of_cons(right[0], right.drop_first());
        assert(seq![right[0]] + right.drop_first() =~= right);
        assert(merged(left, right).to_multiset() =~= both);
    }
}

proof fn lemma_multiset_of_cons(head: Line, tail: Seq<Line>)
    ensures
        (seq![head] + tail).to_multiset() == tail.to_multiset().insert(head),
{
    broadcast use vstd::seq_lib::group_to_multiset_ensures;

    vstd::seq_lib::lemma_multiset_commutative(seq![head], tail);
    assert(seq![head] =~= Seq::<Line>::empty().push(head));
    assert(Seq::<Line>::empty().to_multiset() =~= vstd::multiset::Multiset::empty());
    assert(seq![head].to_multiset() =~= vstd::multiset::Multiset::empty().insert(head));
    assert((seq![head] + tail).to_multiset() =~= tail.to_multiset().insert(head));
}

/// Every record of a merge comes from one of the inputs, so an instant that
/// bounds both inputs from below bounds the merge from below.
proof fn lemma_merged_lower_bound(left: Seq<Line>, right: Seq<Line>, bound: int)
    requires
        forall|i: int| 0 <= i < left.len() ==> bound <= left[i].timestamp,
        forall|i: int| 0 <= i < right.len() ==> bound <= right[i].timestamp,
    ensures
        forall|i: int|
            0 <= i < merged(left, right).len() ==> bound <= #[trigger] merged(
                left,
                right,
            )[i].timestamp,
    decreases left.len() + right.len(),
{
    let all = merged(left, right);
    if left.len() == 0 || right.len() == 0 {
    } else if left[0].timestamp <= right[0].timestamp {
        let rest = merged(left.drop_first(), right);
        lemma_merged_lower_bound(left.drop_first(), right, bound);
        assert forall|i: int| 0 <= i < all.len() implies bound <= #[trigger] all[i].timestamp by {
            if i > 0 {
                assert(all[i] == rest[i - 1]);
            }
        }
    } else {
        let rest = merged(left, right.drop_first());
        lemma_merged_lower_bound(left, right.drop_first(), bound);
        assert forall|i: int| 0 <= i < all.len() implies bound <= #[trigger] all[i].timestamp by {
            if i > 0 {
                assert(all[i] == rest[i - 1]);
            }
        }
    }
}

/// Every record of a merge is a record of one of the inputs.
pub proof fn lemma_merged_comes_from_inputs(left: Seq<Line>, right: Seq<Line>)
    ensures
        forall|i: int|
            0 <= i < merged(left, right).len() ==> left.contains(
                #[trigger] merged(left, right)[i],
            ) || right.contains(merged(left, right)[i]),
    decreases left.len() + right.len(),
{
    let all = merged(left, right);
    if left.len() == 0 || right.len() == 0 {
    } else if left[0].timestamp <= right[0].timestamp {
        let rest = merged(left.drop_first(), right);
        lemma_merged_comes_from_inputs(left.drop_first(), right);
        assert forall|i: int| 0 <= i < all.len() implies left.contains(#[trigger] all[i])
            || right.contains(all[i]) by {
            if i > 0 {
                assert(all[i] == rest[i - 1]);
                if left.drop_first().contains(rest[i - 1]) {
                    let j = choose|j: int|
                        0 <= j < left.drop_first().len() && left.drop_first()[j] == rest[i - 1];
                    assert(left[j + 1] == all[i]);
                }
            } else {
                assert(left[0] == all[0]);
            }
        }
    } else {
        let rest = merged(left, right.drop_first());
        lemma_merged_comes_from_inputs(left, right.drop_first());
        assert forall|i: int| 0 <= i < all.len() implies left.contains(#[trigger] all[i])
            || right.contains(all[i]) by {
            if i > 0 {
                assert(all[i] == rest[i - 1]);
                if right.drop_first().contains(rest[i - 1]) {
                    let j = choose|j: int|
                        0 <= j < right.drop_first().len() && right.drop_first()[j] == rest[i - 1];
                    assert(right[j + 1] == all[i]);
                }
            } else {
                assert(right[0] == all[0]);
            }
        }
    }
}

/// The merge of two sequences that are each in order of time is in order of
/// time.
pub proof fn lemma_merged_is_sorted(left: Seq<Line>, right: Seq<Line>)
    requires
        sorted_by_timestamp(left),
        sorted_by_timestamp(right),
    ensures
        sorted_by_timestamp(merged(left, right)),
    decreases left.len() + right.len(),
{
    if left.len() == 0 || right.len() == 0 {
    } else if left[0].timestamp <= right[0].timestamp {
        let rest = merged(left.drop_first(), right);
        lemma_merged_is_sorted(left.drop_first(), right);
        lemma_merged_lower_bound(left.drop_first(), right, left[0].timestamp as int);
        assert(sorted_by_timestamp(seq![left[0]] + rest));
    } else {
        let rest = merged(left, right.drop_first());
        lemma_merged_is_sorted(left, right.drop_first());
        lemma_merged_lower_bound(left, right.drop_first(), right[0].timestamp as int);
        assert(sorted_by_timestamp(seq![right[0]] + rest));
    }
}

/// Where the two heads carry the same instant, the merge starts with the head
/// of `left` and goes on with the head of `right` only after every record of
/// `left` that carries this instant too.
pub proof fn lemma_merged_prefers_left(left: Seq<Line>, right: Seq<Line>)
    requires
        left.len() > 0,
        right.len() > 0,
        left[0].timestamp <= right[0].timestamp,
    ensures
        merged(left, right)[0] == left[0],
        merged(left, right).drop_first() == merged(left.drop_first(), right),
{
    assert((seq![left[0]] + merged(left.drop_first(), right)).drop_first() =~= merged(
        left.drop_first(),
        right,
    ));
}

/// Merges two record sequences into one. The result holds every record of both
/// inputs; where both are in order of time, so is the result, and of two
/// records with the same instant the one from `left` comes first.
pub fn merge(left: &Vec<Line>, right: &Vec<Line>) -> (result: Vec<Line>)
    ensures
        result@ == merged(left@, right@),
        result@.len() == left@.len() + right@.len(),
        result@.to_multiset() == left@.to_multiset().add(right@.to_multiset()),
        sorted_by_timestamp(left@) && sorted_by_timestamp(right@) ==> sorted_by_timestamp(
            result@,
        ),
{
    let mut index_left: usize = 0;
    let mut index_right: usize = 0;
    let mut result: Vec<Line> = Vec::new();
    proof {
        assert(left@.skip(0) =~= left@);
        assert(right@.skip(0) =~= right@);
        assert(result@ + merged(left@, right@) =~= merged(left@, right@));
    }

    while index_left < left.len() && index_right < right.len()
        invariant
            index_left <= left.len(),
            index_right <= right.len(),
            result@ + merged(left@.skip(index_left as int), right@.skip(index_right as int))
                == merged(left@, right@),
        decreases left.len() - index_left + right.len() - index_right,
    {
        let ghost rest_left = left@.skip(index_left as int);
        let ghost rest_right = right@.skip(index_right as int);
        if left[index_left].timestamp <= right[index_right].timestamp {
            proof {
                assert(rest_left.drop_first() =~= left@.skip(index_left + 1));
                assert(result@.push(left@[index_left as int]) + merged(
                    rest_left.drop_first(),
                    rest_right,
                ) =~= result@ + merged(rest_left, rest_right));
            }
            result.push(left[index_left]);
            index_left += 1;
        } else {
            proof {
                assert(rest_right.drop_first() =~= right@.skip(index_right + 1));
                assert(result@.push(right@[index_right as int]) + merged(
                    rest_left,
                    rest_right.drop_first(),
                ) =~= result@ + merged(rest_left, rest_right));
            }
            result.push(right[index_right]);
            index_right += 1;
        }
    }

    while index_left < left.len()
        invariant
            index_left <= left.len(),
            index_right == right.len() || index_left == left.len(),
            result@ + merged(left@.skip(index_left as int), right@.skip(index_right as int))
                == merged(left@, right@),
        decreases left.len() - index_left,
    {
        proof {
            let rest_left = left@.skip(index_left as int);
            assert(rest_left.drop_first() =~= left@.skip(index_left + 1));
            assert(right@.skip(index_right as int).len() == 0);
            assert(result@.push(left@[index_left as int]) + rest_left.drop_first() =~= result@
                + rest_left);
            assert(merged(rest_left.drop_first(), right@.skip(index_right as int))
                =~= rest_left.drop_first());
        }
        result.push(left[index_left]);
        index_left += 1;
    }

    while index_right < right.len()
        invariant
            index_left == left.len(),
            index_right <= right.len(),
            result@ + merged(left@.skip(index_left as int), right@.skip(index_right as int))
                == merged(left@, right@),
        decreases right.len() - index_right,
    {
        proof {
            let rest_right = right@.skip(index_right as int);
            assert(rest_right.drop_first() =~= right@.skip(index_right + 1));
            assert(result@.push(right@[index_right as int]) + rest_right.drop_first() =~= result@
                + rest_right);
        }
        result.push(right[index_right]);
        index_right += 1;
    }

    proof {
        assert(merged(left@.skip(index_left as int), right@.skip(index_right as int)).len() == 0);
        assert(result@ + merged(left@.skip(index_left as int), right@.skip(index_right as int))
            =~= result@);
        lemma_merged_len(left@, right@);
        lemma_merged_is_permutation(left@, right@);
        if sorted_by_timestamp(left@) && sorted_by_timestamp(right@) {
            lemma_merged_is_sorted(left@, right@);
        }
    }
    result
}

} // verus!
