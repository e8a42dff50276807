//! Sequences of node slots, and the part of such a sequence that reaches a level of the list.

use vstd::prelude::*;

verus! {

/// The slot at `index`, or nothing outside the sequence.
pub open spec fn elem(s: Seq<usize>, index: int) -> Option<usize> {
    if 0 <= index < s.len() {
        Some(s[index])
    } else {
        None
    }
}

/// The last slot, or nothing in an empty sequence.
pub open spec fn last_of(s: Seq<usize>) -> Option<usize> {
    elem(s, s.len() - 1)
}

/// The slots of `s` whose node is higher than `level`, in order. `heights` gives each slot's
/// height.
pub open spec fn tall(heights: Seq<nat>, s: Seq<usize>, level: int) -> Seq<usize>
    decreases s.len(),
{
    if s.len() == 0 {
        s
    } else {
        let rest = tall(heights, s.drop_last(), level);
        if heights[s.last() as int] > level {
            rest.push(s.last())
        } else {
            rest
        }
    }
}

pub proof fn lemma_tall_push(heights: Seq<nat>, s: Seq<usize>, x: usize, level: int)
    ensures
        tall(heights, s.push(x), level) == if heights[x as int] > level {
            tall(heights, s, level).push(x)
        } else {
            tall(heights, s, level)
        },
{
    assert(s.push(x).drop_last() =~= s);
}

pub proof fn lemma_tall_add(heights: Seq<nat>, a: Seq<usize>, b: Seq<usize>, level: int)
    ensures
        tall(heights, a + b, level) == tall(heights, a, level) + tall(heights, b, level),
    decreases b.len(),
{
    if b.len() == 0 {
        assert(a + b =~= a);
        assert(tall(heights, a, level) + tall(heights, b, level) =~= tall(heights, a, level));
    } else {
        lemma_tall_add(heights, a, b.drop_last(), level);
        assert((a + b).drop_last() =~= a + b.drop_last());
        assert(tall(heights, a + b, level) =~= tall(heights, a, level) + tall(heights, b, level));
    }
}

/// Splits off the first slot.
pub proof fn lemma_tall_first(heights: Seq<nat>, s: Seq<usize>, level: int)
    requires
        s.len() > 0,
    ensures
        tall(heights, s, level) == if heights[s[0] as int] > level {
            seq![s[0]] + tall(heights, s.drop_first(), level)
        } else {
            tall(heights, s.drop_first(), level)
        },
{
    let one = seq![s[0]];
    lemma_tall_add(heights, one, s.drop_first(), level);
    assert(s =~= one + s.drop_first());
    lemma_tall_push(heights, Seq::empty(), s[0], level);
    assert(Seq::<usize>::empty().push(s[0]) =~= one);
    assert(tall(heights, Seq::<usize>::empty(), level) =~= Seq::empty());
    assert(Seq::<usize>::empty() + tall(heights, s.drop_first(), level) =~= tall(
        heights,
        s.drop_first(),
        level,
    ));
}

pub proof fn lemma_tall_contains(heights: Seq<nat>, s: Seq<usize>, level: int)
    ensures
        forall|x: usize| #[trigger]
            tall(heights, s, level).contains(x) <==> s.contains(x) && heights[x as int] > level,
    decreases s.len(),
{
    if s.len() > 0 {
        let front = s.drop_last();
        lemma_tall_contains(heights, front, level);
        let t = tall(heights, front, level);
        assert forall|x: usize| #[trigger]
            tall(heights, s, level).contains(x) <==> s.contains(x) && heights[x as int] > level by {
            assert(s =~= front.push(s.last()));
            if s.contains(x) {
                let i = choose|i: int| 0 <= i < s.len() && s[i] == x;
                if i < front.len() {
                    assert(front[i] == x);
                }
            }
            if front.contains(x) {
                let i = choose|i: int| 0 <= i < front.len() && front[i] == x;
                assert(s[i] == x);
            }
            if t.contains(x) {
                let i = choose|i: int| 0 <= i < t.len() && t[i] == x;
                assert(t.push(s.last())[i] == x);
            }
            assert(t.push(s.last())[t.len() as int] == s.last());
            if t.push(s.last()).contains(x) {
                let i = choose|i: int|
                    0 <= i < t.push(s.last()).len() && t.push(s.last())[i] == x;
                if i < t.len() {
                    assert(t[i] == x);
                }
            }
            assert(s[s.len() - 1] == s.last());
        }
    }
}

pub proof fn lemma_tall_no_duplicates(heights: Seq<nat>, s: Seq<usize>, level: int)
    requires
        s.no_duplicates(),
    ensures
        tall(heights, s, level).no_duplicates(),
    decreases s.len(),
{
    if s.len() > 0 {
        let front = s.drop_last();
        lemma_tall_no_duplicates(heights, front, level);
        lemma_tall_contains(heights, front, level);
        if tall(heights, front, level).contains(s.last()) {
            let i = choose|i: int| 0 <= i < front.len() && front[i] == s.last();
            assert(s[i] == s[s.len() - 1]);
        }
    }
}

/// Only the heights of the slots in `s` matter.
pub proof fn lemma_tall_agree(h1: Seq<nat>, h2: Seq<nat>, s: Seq<usize>, level: int)
    requires
        forall|i: int| 0 <= i < s.len() ==> h1[#[trigger] s[i] as int] == h2[s[i] as int],
    ensures
        tall(h1, s, level) == tall(h2, s, level),
    decreases s.len(),
{
    if s.len() > 0 {
        let front = s.drop_last();
        assert forall|i: int| 0 <= i < front.len() implies h1[#[trigger] front[i] as int]
            == h2[front[i] as int] by {
            assert(front[i] == s[i]);
        }
        lemma_tall_agree(h1, h2, front, level);
        assert(h1[s[s.len() - 1] as int] == h2[s[s.len() - 1] as int]);
    }
}

/// Every node reaches level 0.
pub proof fn lemma_tall_all(heights: Seq<nat>, s: Seq<usize>, level: int)
    requires
        forall|i: int| 0 <= i < s.len() ==> heights[#[trigger] s[i] as int] > level,
    ensures
        tall(heights, s, level) == s,
    decreases s.len(),
{
    if s.len() > 0 {
        let front = s.drop_last();
        assert forall|i: int| 0 <= i < front.len() implies heights[#[trigger] front[i] as int]
            > level by {
            assert(front[i] == s[i]);
        }
        lemma_tall_all(heights, front, level);
        assert(heights[s[s.len() - 1] as int] > level);
        assert(tall(heights, s, level) =~= s);
    }
}

} // verus!
