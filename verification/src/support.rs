//! Small helpers over sequences and vectors of ids.

use vstd::prelude::*;

verus! {

/// True when every value in `s` lies strictly below `bound`.
pub open spec fn all_below_spec(s: Seq<usize>, bound: int) -> bool {
    forall|i: int| 0 <= i < s.len() ==> (#[trigger] s[i]) < bound
}

/// A sequence of distinct values that all lie below `bound` cannot be
/// longer than `bound`.
pub proof fn lemma_no_dup_bounded_len(s: Seq<usize>, bound: int)
    requires
        s.no_duplicates(),
        all_below_spec(s, bound),
        0 <= bound,
    ensures
        s.len() <= bound,
{
    let ints = s.map_values(|x: usize| x as int);
    assert(ints.no_duplicates()) by {
        assert forall|i: int, j: int|
            0 <= i < ints.len() && 0 <= j < ints.len() && i != j implies ints[i] != ints[j] by {
            assert(s[i] != s[j]);
        }
    }
    ints.unique_seq_to_set();
    vstd::set_lib::lemma_int_range(0, bound);
    assert(ints.to_set().subset_of(vstd::set_lib::set_int_range(0, bound))) by {
        assert forall|x: int| ints.to_set().contains(x)
            implies vstd::set_lib::set_int_range(0, bound).contains(x) by {
            let i = choose|i: int| 0 <= i < ints.len() && ints[i] == x;
            assert(0 <= s[i] < bound);
        }
    }
    vstd::set_lib::lemma_len_subset(ints.to_set(), vstd::set_lib::set_int_range(0, bound));
}

/// Returns whether `values` contains `target`.
pub fn contains_value(values: &Vec<usize>, target: usize) -> (found: bool)
    ensures
        found == values@.contains(target),
{
    let mut i: usize = 0;
    while i < values.len()
        invariant
            i <= values@.len(),
            forall|j: int| 0 <= j < i ==> values@[j] != target,
        decreases values@.len() - i,
    {
        if values[i] == target {
            return true;
        }
        i = i + 1;
    }
    false
}

/// Returns whether every value of `values` lies strictly below `bound`.
pub fn all_below(values: &Vec<usize>, bound: usize) -> (ok: bool)
    ensures
        ok == all_below_spec(values@, bound as int),
{
    let mut i: usize = 0;
    while i < values.len()
        invariant
            i <= values@.len(),
            forall|j: int| 0 <= j < i ==> (#[trigger] values@[j]) < bound,
        decreases values@.len() - i,
    {
        if values[i] >= bound {
            return false;
        }
        i = i + 1;
    }
    true
}

/// Appends every value of `src` to `dst`.
pub fn extend_values(dst: &mut Vec<usize>, src: &Vec<usize>)
    ensures
        final(dst)@ == old(dst)@ + src@,
{
    let mut i: usize = 0;
    while i < src.len()
        invariant
            i <= src@.len(),
            dst@ == old(dst)@ + src@.take(i as int),
        decreases src@.len() - i,
    {
        dst.push(src[i]);
        proof {
            assert(old(dst)@ + src@.take(i as int) + seq![src@[i as int]]
                =~= old(dst)@ + src@.take(i + 1));
        }
        i = i + 1;
    }
    proof {
        assert(old(dst)@ + src@.take(src@.len() as int) =~= old(dst)@ + src@);
    }
}

/// Copies a vector of ids.
pub fn copy_values(src: &Vec<usize>) -> (out: Vec<usize>)
    ensures
        out@ == src@,
{
    let mut out: Vec<usize> = Vec::new();
    extend_values(&mut out, src);
    proof {
        assert(Seq::<usize>::empty() + src@ =~= src@);
    }
    out
}

} // verus!
