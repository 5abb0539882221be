//! What is left of a text once passages of it have been turned into blanks.

use vstd::prelude::*;

use crate::text::{holds_text, is_clear_of, occurs_at, replaced};

verus! {

/// A character is followed in what is left, where neither is a blank, by the character
/// that follows it in the text.
pub open spec fn goes_on(rest: Seq<char>, places: Seq<int>, i: int) -> bool {
    rest[i] != ' ' && rest[i + 1] != ' ' ==> places[i + 1] == places[i] + 1
}

/// `places` says where the characters of `rest`, blanks aside, stand in `text`: in the same
/// order, and neighbours in `rest` are neighbours in `text`.
pub open spec fn are_places(text: Seq<char>, rest: Seq<char>, places: Seq<int>) -> bool {
    &&& places.len() == rest.len()
    &&& forall|i: int|
        0 <= i < rest.len() && #[trigger] rest[i] != ' ' ==> 0 <= places[i] < text.len() && text[places[i]] == rest[i]
    &&& forall|i: int, j: int|
        0 <= i < j < rest.len() && #[trigger] rest[i] != ' ' && #[trigger] rest[j] != ' ' ==> places[i] < places[j]
    &&& forall|i: int| 0 <= i < rest.len() - 1 ==> #[trigger] goes_on(rest, places, i)
}

/// `rest` is left of `text` once passages of it have been turned into blanks: but for its
/// blanks it holds characters of `text`, in their order, and never joins what stood apart.
pub open spec fn is_left_of(rest: Seq<char>, text: Seq<char>) -> bool {
    exists|places: Seq<int>| are_places(text, rest, places)
}

/// A text without a blank.
pub open spec fn is_unbroken(text: Seq<char>) -> bool {
    forall|i: int| 0 <= i < text.len() ==> #[trigger] text[i] != ' '
}

/// A text is left of itself.
pub proof fn lemma_left_of_itself(text: Seq<char>)
    ensures
        is_left_of(text, text),
{
    let places = Seq::new(text.len(), |i: int| i);
    assert forall|i: int| 0 <= i < text.len() - 1 implies #[trigger] goes_on(text, places, i) by {}
    assert(are_places(text, text, places));
}

/// What is left of what is left of a text is left of the text.
pub proof fn lemma_left_of_left(text: Seq<char>, middle: Seq<char>, rest: Seq<char>)
    requires
        is_left_of(middle, text),
        is_left_of(rest, middle),
    ensures
        is_left_of(rest, text),
{
    let outer = choose|places: Seq<int>| are_places(text, middle, places);
    let inner = choose|places: Seq<int>| are_places(middle, rest, places);
    let places = Seq::new(rest.len(), |i: int| outer[inner[i]]);
    assert forall|i: int| 0 <= i < rest.len() && #[trigger] rest[i] != ' ' implies 0 <= places[i] < text.len()
        && text[places[i]] == rest[i] by {
        assert(middle[inner[i]] == rest[i]);
    }
    assert forall|i: int, j: int|
        0 <= i < j < rest.len() && #[trigger] rest[i] != ' ' && #[trigger] rest[j] != ' ' implies places[i]
        < places[j] by {
        assert(middle[inner[i]] == rest[i]);
        assert(middle[inner[j]] == rest[j]);
    }
    assert forall|i: int| 0 <= i < rest.len() - 1 implies #[trigger] goes_on(rest, places, i) by {
        if rest[i] != ' ' && rest[i + 1] != ' ' {
            assert(goes_on(rest, inner, i));
            assert(middle[inner[i]] == rest[i]);
            assert(middle[inner[i + 1]] == rest[i + 1]);
            assert(goes_on(middle, outer, inner[i]));
        }
    }
    assert(are_places(text, rest, places));
}

/// A stretch without a blank of what is left stands in the text as it is.
proof fn lemma_stretch(text: Seq<char>, rest: Seq<char>, places: Seq<int>, at: int, n: int)
    requires
        are_places(text, rest, places),
        0 <= at,
        0 < n,
        at + n <= rest.len(),
        forall|k: int| at <= k < at + n ==> #[trigger] rest[k] != ' ',
    ensures
        forall|k: int| 0 <= k < n ==> #[trigger] places[at + k] == places[at] + k,
        0 <= places[at],
        places[at] + n <= text.len(),
    decreases n,
{
    assert(rest[at] != ' ');
    if n > 1 {
        lemma_stretch(text, rest, places, at, n - 1);
        let last = at + n - 2;
        assert(goes_on(rest, places, last));
        assert(rest[last] != ' ' && rest[last + 1] != ' ');
        assert(places[at + (n - 2)] == places[at] + (n - 2));
        assert forall|k: int| 0 <= k < n implies #[trigger] places[at + k] == places[at] + k by {
            if k == n - 1 {
                assert(at + k == last + 1);
            }
        }
        assert(rest[at + n - 1] != ' ');
    }
}

/// A word without a blank that stands in what is left stands in the text.
pub proof fn lemma_left_words_stand(text: Seq<char>, rest: Seq<char>, word: Seq<char>)
    requires
        is_left_of(rest, text),
        holds_text(rest, word),
        is_unbroken(word),
        word.len() > 0,
    ensures
        holds_text(text, word),
{
    let places = choose|places: Seq<int>| are_places(text, rest, places);
    let at = choose|at: int| occurs_at(rest, word, at);
    let n = word.len() as int;
    assert forall|k: int| 0 <= k < n implies #[trigger] rest[at + k] == word[k] by {
        assert(rest.subrange(at, at + n)[k] == word[k]);
    }
    assert forall|k: int| at <= k < at + n implies #[trigger] rest[k] != ' ' by {
        assert(rest[at + (k - at)] == word[k - at]);
    }
    lemma_stretch(text, rest, places, at, n);
    let start = places[at];
    assert forall|k: int| 0 <= k < n implies #[trigger] text.subrange(start, start + n)[k] == word[k] by {
        assert(places[at + k] == start + k);
        assert(rest[at + k] == word[k]);
    }
    assert(text.subrange(start, start + n) =~= word);
    assert(occurs_at(text, word, start));
}

/// What is left of a text is clear of what the text is clear of.
pub proof fn lemma_left_stays_clear(text: Seq<char>, rest: Seq<char>, bad: spec_fn(char) -> bool)
    requires
        is_left_of(rest, text),
        is_clear_of(text, bad),
        !bad(' '),
    ensures
        is_clear_of(rest, bad),
{
    let places = choose|places: Seq<int>| are_places(text, rest, places);
    assert forall|i: int| 0 <= i < rest.len() implies !bad(#[trigger] rest[i]) by {
        if rest[i] != ' ' {
            assert(!bad(text[places[i]]));
        }
    }
}

/// The places in what follows a first character that is kept, or was turned into a blank.
pub open spec fn places_behind(first: Seq<int>, more: Seq<int>, skipped: int) -> Seq<int> {
    first + more.map_values(|place: int| place + skipped)
}

/// A first character of what is left that is no blank is the first of the text.
pub open spec fn starts_alike(rest: Seq<char>, places: Seq<int>) -> bool {
    rest.len() > 0 && rest[0] != ' ' ==> places[0] == 0
}

/// What is left once the start of a text has been turned into a blank.
pub proof fn lemma_left_behind_blank(text: Seq<char>, skipped: int, more: Seq<char>, places: Seq<int>)
    requires
        0 <= skipped <= text.len(),
        are_places(text.skip(skipped), more, places),
    ensures
        are_places(text, seq![' '] + more, places_behind(seq![0], places, skipped)),
        starts_alike(seq![' '] + more, places_behind(seq![0], places, skipped)),
{
    let rest = seq![' '] + more;
    let all = places_behind(seq![0], places, skipped);
    let tail = text.skip(skipped);
    assert forall|i: int| 0 <= i < rest.len() && #[trigger] rest[i] != ' ' implies 0 <= all[i] < text.len()
        && text[all[i]] == rest[i] by {
        assert(rest[i] == more[i - 1]);
        assert(tail[places[i - 1]] == more[i - 1]);
    }
    assert forall|i: int, j: int|
        0 <= i < j < rest.len() && #[trigger] rest[i] != ' ' && #[trigger] rest[j] != ' ' implies all[i] < all[j] by {
        assert(rest[i] == more[i - 1]);
        assert(rest[j] == more[j - 1]);
    }
    assert forall|i: int| 0 <= i < rest.len() - 1 implies #[trigger] goes_on(rest, all, i) by {
        if i > 0 {
            assert(goes_on(more, places, i - 1));
        }
    }
}

/// What is left once something has been taken out behind the first character of a text.
pub proof fn lemma_left_behind_first(text: Seq<char>, more: Seq<char>, places: Seq<int>)
    requires
        text.len() > 0,
        are_places(text.skip(1), more, places),
        starts_alike(more, places),
    ensures
        are_places(text, text.take(1) + more, places_behind(seq![0], places, 1)),
        starts_alike(text.take(1) + more, places_behind(seq![0], places, 1)),
{
    let rest = text.take(1) + more;
    let all = places_behind(seq![0], places, 1);
    let tail = text.skip(1);
    assert forall|i: int| 0 <= i < rest.len() && #[trigger] rest[i] != ' ' implies 0 <= all[i] < text.len()
        && text[all[i]] == rest[i] by {
        if i > 0 {
            assert(rest[i] == more[i - 1]);
            assert(tail[places[i - 1]] == more[i - 1]);
        }
    }
    assert forall|i: int, j: int|
        0 <= i < j < rest.len() && #[trigger] rest[i] != ' ' && #[trigger] rest[j] != ' ' implies all[i] < all[j] by {
        assert(rest[j] == more[j - 1]);
        assert(0 <= places[j - 1]);
        if i > 0 {
            assert(rest[i] == more[i - 1]);
        }
    }
    assert forall|i: int| 0 <= i < rest.len() - 1 implies #[trigger] goes_on(rest, all, i) by {
        if i > 0 {
            assert(goes_on(more, places, i - 1));
        } else {
            assert(rest[1] == more[0]);
        }
    }
}

/// What is left once one passage of a text has been turned into a blank.
pub proof fn lemma_left_without_passage(text: Seq<char>, from: int, to: int)
    requires
        0 <= from <= to <= text.len(),
    ensures
        is_left_of(text.take(from) + seq![' '] + text.skip(to), text),
{
    let rest = text.take(from) + seq![' '] + text.skip(to);
    let places = Seq::new(
        rest.len(),
        |i: int|
            if i < from {
                i
            } else {
                i - from - 1 + to
            },
    );
    assert forall|i: int| 0 <= i < rest.len() - 1 implies #[trigger] goes_on(rest, places, i) by {}
    assert(are_places(text, rest, places));
}

/// Where the characters of a text stand in which a phrase has been turned into blanks.
pub proof fn lemma_replaced_places(text: Seq<char>, from: Seq<char>) -> (places: Seq<int>)
    ensures
        are_places(text, replaced(text, from, seq![' ']), places),
        starts_alike(replaced(text, from, seq![' ']), places),
    decreases text.len(),
{
    let blank = seq![' '];
    if from.len() == 0 {
        if text.len() == 0 {
            let places = seq![0int];
            assert(are_places(text, blank, places));
            places
        } else {
            let more = lemma_replaced_places(text.skip(1), from);
            let tail = replaced(text.skip(1), from, blank);
            // What follows the first character starts with a blank.
            assert(tail[0] == ' ');
            lemma_left_behind_first(text, tail, more);
            let behind = places_behind(seq![0], more, 1);
            assert(text.skip(0) =~= text);
            lemma_left_behind_blank(text, 0, text.take(1) + tail, behind);
            assert(blank + text.take(1) + tail =~= blank + (text.take(1) + tail));
            places_behind(seq![0], behind, 0)
        }
    } else if text.len() < from.len() {
        lemma_left_of_itself(text);
        let places = Seq::new(text.len(), |i: int| i);
        assert forall|i: int| 0 <= i < text.len() - 1 implies #[trigger] goes_on(text, places, i) by {}
        places
    } else if occurs_at(text, from, 0) {
        let more = lemma_replaced_places(text.skip(from.len() as int), from);
        lemma_left_behind_blank(
            text,
            from.len() as int,
            replaced(text.skip(from.len() as int), from, blank),
            more,
        );
        places_behind(seq![0], more, from.len() as int)
    } else {
        let more = lemma_replaced_places(text.skip(1), from);
        lemma_left_behind_first(text, replaced(text.skip(1), from, blank), more);
        places_behind(seq![0], more, 1)
    }
}

/// What is left of a text in which a phrase has been turned into blanks.
pub proof fn lemma_replaced_is_left(text: Seq<char>, from: Seq<char>)
    ensures
        is_left_of(replaced(text, from, seq![' ']), text),
{
    let places = lemma_replaced_places(text, from);
    assert(are_places(text, replaced(text, from, seq![' ']), places));
}

/// A word without a blank that starts what is left starts the text.
pub proof fn lemma_left_start_stands(text: Seq<char>, rest: Seq<char>, places: Seq<int>, word: Seq<char>)
    requires
        are_places(text, rest, places),
        starts_alike(rest, places),
        occurs_at(rest, word, 0),
        is_unbroken(word),
        word.len() > 0,
    ensures
        occurs_at(text, word, 0),
{
    let n = word.len() as int;
    assert forall|k: int| 0 <= k < n implies #[trigger] rest[k] == word[k] by {
        assert(rest.subrange(0, n)[k] == word[k]);
    }
    assert(rest[0] == word[0]);
    lemma_stretch(text, rest, places, 0, n);
    assert forall|k: int| 0 <= k < n implies #[trigger] text.subrange(0, n)[k] == word[k] by {
        assert(places[0 + k] == places[0] + k);
        assert(rest[k] == word[k]);
    }
    assert(text.subrange(0, n) =~= word);
}

/// A word stands in a text behind a first part exactly where it stands in the second.
pub proof fn lemma_occurs_behind(first: Seq<char>, second: Seq<char>, word: Seq<char>, at: int)
    requires
        first.len() <= at,
    ensures
        occurs_at(first + second, word, at) == occurs_at(second, word, at - first.len()),
{
    if at + word.len() <= (first + second).len() {
        assert((first + second).subrange(at, at + word.len()) =~= second.subrange(
            at - first.len(),
            at - first.len() + word.len(),
        ));
    }
}

/// A phrase that has been turned into blanks stands nowhere any more.
pub proof fn lemma_replaced_is_gone(text: Seq<char>, from: Seq<char>)
    requires
        from.len() > 0,
        is_unbroken(from),
    ensures
        !holds_text(replaced(text, from, seq![' ']), from),
    decreases text.len(),
{
    let blank = seq![' '];
    let rest = replaced(text, from, blank);
    if text.len() >= from.len() {
        let taken: int = if occurs_at(text, from, 0) { from.len() as int } else { 1 };
        let first = if occurs_at(text, from, 0) { blank } else { text.take(1) };
        let more = replaced(text.skip(taken), from, blank);
        lemma_replaced_is_gone(text.skip(taken), from);
        assert(rest =~= first + more);
        let places = lemma_replaced_places(text, from);
        assert forall|at: int| !occurs_at(rest, from, at) by {
            if occurs_at(rest, from, at) {
                if at >= 1 {
                    lemma_occurs_behind(first, more, from, at);
                    assert(occurs_at(more, from, at - 1));
                } else {
                    lemma_left_start_stands(text, rest, places, from);
                    assert(rest.subrange(0, from.len() as int)[0] == from[0]);
                }
            }
        }
    } else {
        assert forall|at: int| !occurs_at(rest, from, at) by {}
    }
}

/// Without a phrase there is nothing to be replaced.
pub proof fn lemma_nothing_replaced(text: Seq<char>, from: Seq<char>, to: Seq<char>)
    requires
        from.len() > 0,
        !holds_text(text, from),
    ensures
        replaced(text, from, to) == text,
    decreases text.len(),
{
    if text.len() >= from.len() {
        assert(!occurs_at(text, from, 0));
        assert forall|at: int| !occurs_at(text.skip(1), from, at) by {
            if occurs_at(text.skip(1), from, at) {
                lemma_occurs_behind(text.take(1), text.skip(1), from, at + 1);
                assert(text.take(1) + text.skip(1) =~= text);
                assert(occurs_at(text, from, at + 1));
            }
        }
        lemma_nothing_replaced(text.skip(1), from, to);
        assert(text.take(1) + text.skip(1) =~= text);
    }
}

} // verus!
