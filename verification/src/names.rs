//! Lists of names in alphabetical order, each name once.

use vstd::prelude::*;

use crate::ranking::{rank, ranking, listed_before, Ranked};
use crate::text::{
    chars_of, comes_before, lemma_text_order_total, lemma_text_order_transitive, text_before, texts,
};

verus! {

/// A text, ranked in the dictionary order.
pub struct Name {
    pub chars: Vec<char>,
}

/// `left` comes no later than `right` in the dictionary order.
pub open spec fn text_at_most(left: Seq<char>, right: Seq<char>) -> bool {
    !text_before(right, left)
}

/// The dictionary order, read as "no later than", is transitive.
pub proof fn lemma_text_at_most_transitive(a: Seq<char>, b: Seq<char>, c: Seq<char>)
    requires
        text_at_most(a, b),
        text_at_most(b, c),
    ensures
        text_at_most(a, c),
{
    lemma_text_order_total(a, b);
    lemma_text_order_total(b, c);
    lemma_text_order_total(a, c);
    if text_before(c, a) {
        if text_before(a, b) {
            lemma_text_order_transitive(c, a, b);
        }
    }
}

impl Ranked for Name {
    open spec fn at_most(self, other: Self) -> bool {
        text_at_most(self.chars@, other.chars@)
    }

    proof fn total(left: Self, right: Self) {
        lemma_text_order_total(left.chars@, right.chars@);
    }

    proof fn transitive(first: Self, second: Self, third: Self) {
        lemma_text_at_most_transitive(first.chars@, second.chars@, third.chars@);
    }

    fn ranks_at_most(&self, other: &Self) -> (result: bool) {
        !comes_before(&other.chars, &self.chars)
    }
}

/// Each text comes before those that follow it; none occurs twice.
pub open spec fn strictly_ordered(names: Seq<Seq<char>>) -> bool {
    forall|i: int, j: int| 0 <= i < j < names.len() ==> text_before(#[trigger] names[i], #[trigger] names[j])
}

/// `list` holds the names of `source`, in order and each of them once.
pub open spec fn lists_names(list: Seq<Seq<char>>, source: Seq<Seq<char>>) -> bool {
    &&& strictly_ordered(list)
    &&& forall|name: Seq<char>| #[trigger] list.contains(name) <==> source.contains(name)
}

/// There is only one list of given names.
pub proof fn law_name_list_is_unique(left: Seq<Seq<char>>, right: Seq<Seq<char>>, source: Seq<Seq<char>>)
    requires
        lists_names(left, source),
        lists_names(right, source),
    ensures
        left == right,
{
    lemma_ordered_lists_agree(left, right);
}

/// Ordered lists of the same names are the same.
proof fn lemma_ordered_lists_agree(left: Seq<Seq<char>>, right: Seq<Seq<char>>)
    requires
        strictly_ordered(left),
        strictly_ordered(right),
        forall|name: Seq<char>| #[trigger] left.contains(name) <==> right.contains(name),
    ensures
        left == right,
    decreases left.len(),
{
    if left.len() == 0 {
        if right.len() > 0 {
            assert(right.contains(right[0]));
            assert(left.contains(right[0]));
        }
        assert(left =~= right);
    } else {
        assert(left.contains(left.last()));
        assert(right.contains(left.last()));
        let j = choose|j: int| 0 <= j < right.len() && right[j] == left.last();
        assert(right.contains(right.last()));
        assert(left.contains(right.last()));
        let i = choose|i: int| 0 <= i < left.len() && left[i] == right.last();
        lemma_text_order_total(left.last(), right.last());
        if j < right.len() - 1 {
            assert(text_before(right[j], right[right.len() - 1]));
            if i < left.len() - 1 {
                assert(text_before(left[i], left[left.len() - 1]));
            }
        }
        assert(left.last() == right.last());
        let l = left.drop_last();
        let r = right.drop_last();
        assert forall|name: Seq<char>| #[trigger] l.contains(name) <==> r.contains(name) by {
            if l.contains(name) {
                lemma_drop_last_holds(left, right, name);
            }
            if r.contains(name) {
                lemma_drop_last_holds(right, left, name);
            }
        }
        lemma_ordered_lists_agree(l, r);
        assert(left =~= l.push(left.last()));
        assert(right =~= r.push(right.last()));
    }
}

/// A name before the last one stands before the last one of the other list too.
proof fn lemma_drop_last_holds(left: Seq<Seq<char>>, right: Seq<Seq<char>>, name: Seq<char>)
    requires
        left.len() > 0,
        right.len() > 0,
        strictly_ordered(left),
        left.last() == right.last(),
        left.drop_last().contains(name),
        left.contains(name) ==> right.contains(name),
    ensures
        right.drop_last().contains(name),
{
    let k = choose|k: int| 0 <= k < left.drop_last().len() && left.drop_last()[k] == name;
    assert(left[k] == name);
    assert(text_before(left[k], left[left.len() - 1]));
    lemma_text_order_total(name, left.last());
    assert(left.contains(name));
    let j = choose|j: int| 0 <= j < right.len() && right[j] == name;
    assert(right.drop_last()[j] == name);
}

/// Puts names in order and drops those that repeat.
pub fn sort_names(names: &Vec<String>) -> (list: Vec<String>)
    ensures
        lists_names(texts(list@), texts(names@)),
{
    let ghost source = texts(names@);
    let mut keys: Vec<Name> = Vec::new();
    for i in 0..names.len()
        invariant
            keys@.len() == i,
            forall|k: int| 0 <= k < i ==> (#[trigger] keys@[k]).chars@ == names@[k]@,
    {
        keys.push(Name { chars: chars_of(names[i].as_str()) });
    }
    let order: Vec<usize> = rank(&keys);
    let mut list: Vec<String> = Vec::new();
    for i in 0..order.len()
        invariant
            source == texts(names@),
            keys@.len() == names@.len(),
            forall|k: int| 0 <= k < keys@.len() ==> (#[trigger] keys@[k]).chars@ == names@[k]@,
            ranking(keys@, order@),
            strictly_ordered(texts(list@)),
            i == 0 <==> list@.len() == 0,
            i > 0 ==> texts(list@).last() == source[order@[i - 1] as int],
            forall|k: int| 0 <= k < i ==> texts(list@).contains(source[#[trigger] order@[k] as int]),
            forall|k: int| 0 <= k < list@.len() ==> source.contains(#[trigger] texts(list@)[k]),
    {
        let ghost before = texts(list@);
        let ghost name = source[order@[i as int] as int];
        let at: usize = order[i];
        assert(name == names@[at as int]@);
        let repeated: bool = list.len() > 0 && list[list.len() - 1] == names[at];
        if i > 0 {
            assert(listed_before(keys@, order@[i - 1] as int, order@[i as int] as int));
            proof {
                lemma_text_order_total(before.last(), name);
            }
        }
        if !repeated {
            list.push(names[at].clone());
            proof {
                assert(texts(list@) =~= before.push(name));
                assert forall|a: int, b: int| 0 <= a < b < texts(list@).len() implies text_before(
                    #[trigger] texts(list@)[a],
                    #[trigger] texts(list@)[b],
                ) by {
                    if b == before.len() {
                        assert(text_before(before.last(), name));
                        if a < before.len() - 1 {
                            assert(text_before(before[a], before[before.len() - 1]));
                            lemma_text_order_transitive(before[a], before.last(), name);
                        }
                    }
                }
                assert(source.contains(name));
                assert(texts(list@)[before.len() as int] == name);
                assert forall|k: int| 0 <= k < i + 1 implies texts(list@).contains(
                    source[#[trigger] order@[k] as int],
                ) by {
                    if k < i {
                        let at = choose|at: int| 0 <= at < before.len() && before[at] == source[order@[k] as int];
                        assert(texts(list@)[at] == source[order@[k] as int]);
                    }
                }
            }
        } else {
            assert(before[before.len() - 1] == name);
        }
    }
    proof {
        let listed = texts(list@);
        assert forall|name: Seq<char>| #[trigger] listed.contains(name) <==> source.contains(name) by {
            if source.contains(name) {
                let k = choose|k: int| 0 <= k < source.len() && source[k] == name;
                assert(order@.contains(k as usize));
                let at = choose|at: int| 0 <= at < order@.len() && order@[at] == k as usize;
                assert(listed.contains(source[order@[at] as int]));
            }
        }
    }
    list
}

/// Names are listed in order, each once: exactly those that are given.
pub proof fn law_each_name_is_listed_once(names: &Vec<String>, list: Vec<String>, name: Seq<char>, first: int, second: int)
    requires
        call_ensures(sort_names, (names,), list),
    ensures
        texts(names@).contains(name) <==> texts(list@).contains(name),
        0 <= first < second < list@.len() ==> text_before(list@[first]@, list@[second]@) && list@[first]@
            != list@[second]@,
{
    if 0 <= first < second < list@.len() {
        assert(texts(list@)[first] == list@[first]@);
        assert(texts(list@)[second] == list@[second]@);
        lemma_text_order_total(list@[first]@, list@[second]@);
    }
}

} // verus!
