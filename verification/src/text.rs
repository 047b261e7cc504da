//! Texts and sequences of texts: equality and membership by content,
//! insertion that keeps every element distinct, and selection by key.

use vstd::prelude::*;

verus! {

/// `str`'s `==`, taken on trust from its documentation: two string slices
/// are equal exactly when their texts are.
pub assume_specification[ <str as PartialEq>::eq ](a: &str, b: &str) -> (same: bool)
    ensures
        same == (a@ == b@),
;

/// The contents of a sequence of strings.
pub open spec fn texts(strings: Seq<String>) -> Seq<Seq<char>> {
    strings.map_values(|s: String| s@)
}

/// `items` with `item` appended, unless it is there already.
pub open spec fn push_unique<T>(items: Seq<T>, item: T) -> Seq<T> {
    if items.contains(item) {
        items
    } else {
        items.push(item)
    }
}

/// Appending an absent element to a duplicate-free sequence leaves it
/// duplicate-free, and adds exactly that element.
pub proof fn lemma_push_unique<T>(items: Seq<T>, item: T)
    requires
        items.no_duplicates(),
    ensures
        push_unique(items, item).no_duplicates(),
        push_unique(items, item).contains(item),
        forall|other: T|
            push_unique(items, item).contains(other) <==> (items.contains(other) || other == item),
        items.len() <= push_unique(items, item).len() <= items.len() + 1,
        forall|i: int| 0 <= i < items.len() ==> push_unique(items, item)[i] == items[i],
{
    let grown = push_unique(items, item);
    if !items.contains(item) {
        assert(grown[items.len() as int] == item);
        assert forall|other: T| grown.contains(other) implies items.contains(other) || other
            == item by {
            let i = choose|i: int| 0 <= i < grown.len() && grown[i] == other;
            if i < items.len() {
                assert(items[i] == other);
            }
        }
        assert forall|other: T| items.contains(other) implies grown.contains(other) by {
            let i = choose|i: int| 0 <= i < items.len() && items[i] == other;
            assert(grown[i] == other);
        }
    }
}

/// Taking the first element off a duplicate-free sequence leaves a
/// duplicate-free sequence that holds everything but that element.
pub proof fn lemma_drop_first_distinct<T>(items: Seq<T>)
    requires
        items.no_duplicates(),
        items.len() > 0,
    ensures
        items.drop_first().no_duplicates(),
        !items.drop_first().contains(items[0]),
        forall|other: T|
            items.contains(other) <==> (other == items[0] || items.drop_first().contains(other)),
{
    let rest = items.drop_first();
    assert forall|i: int| 0 <= i < rest.len() implies rest[i] == items[i + 1] by {}
    assert forall|other: T| items.contains(other) implies (other == items[0] || rest.contains(
        other,
    )) by {
        let i = choose|i: int| 0 <= i < items.len() && items[i] == other;
        if i > 0 {
            assert(rest[i - 1] == other);
        }
    }
    assert forall|other: T| rest.contains(other) implies items.contains(other) && other
        != items[0] by {
        let i = choose|i: int| 0 <= i < rest.len() && rest[i] == other;
        assert(items[i + 1] == other);
    }
}

/// Whether `needle` occurs among `haystack`, compared by content.
pub fn contains_text(haystack: &Vec<String>, needle: &String) -> (found: bool)
    ensures
        found == texts(haystack@).contains(needle@),
{
    let mut i: usize = 0;
    while i < haystack.len()
        invariant
            i <= haystack.len(),
            forall|j: int| 0 <= j < i ==> texts(haystack@)[j] != needle@,
        decreases haystack.len() - i,
    {
        if haystack[i] == *needle {
            assert(texts(haystack@)[i as int] == needle@);
            return true;
        }
        i += 1;
    }
    false
}

/// The elements of `items` whose key is not in `drop`, in their order.
pub open spec fn keep_by<T>(items: Seq<T>, key: spec_fn(T) -> Seq<char>, drop: Set<Seq<char>>) -> Seq<T>
    decreases items.len(),
{
    if items.len() == 0 {
        Seq::empty()
    } else if drop.contains(key(items.last())) {
        keep_by(items.drop_last(), key, drop)
    } else {
        keep_by(items.drop_last(), key, drop).push(items.last())
    }
}

/// The texts of `items` that are not in `drop`, in their order.
pub open spec fn keep_texts(items: Seq<Seq<char>>, drop: Set<Seq<char>>) -> Seq<Seq<char>> {
    keep_by(items, |text: Seq<char>| text, drop)
}

/// The texts of `items` that are in `drop`, in their order.
pub open spec fn drop_texts(items: Seq<Seq<char>>, drop: Set<Seq<char>>) -> Seq<Seq<char>>
    decreases items.len(),
{
    if items.len() == 0 {
        Seq::empty()
    } else if drop.contains(items.last()) {
        drop_texts(items.drop_last(), drop).push(items.last())
    } else {
        drop_texts(items.drop_last(), drop)
    }
}

/// What is kept is what was there and is not dropped.
pub proof fn lemma_keep_by_contains<T>(
    items: Seq<T>,
    key: spec_fn(T) -> Seq<char>,
    drop: Set<Seq<char>>,
)
    ensures
        forall|item: T| #[trigger]
            keep_by(items, key, drop).contains(item) <==> (items.contains(item) && !drop.contains(
                key(item),
            )),
        keep_by(items, key, drop).len() <= items.len(),
    decreases items.len(),
{
    let kept = keep_by(items, key, drop);
    if items.len() > 0 {
        let shorter = items.drop_last();
        let before = keep_by(shorter, key, drop);
        lemma_keep_by_contains(shorter, key, drop);
        assert forall|item: T| #[trigger] kept.contains(item) implies (items.contains(item)
            && !drop.contains(key(item))) by {
            let i = choose|i: int| 0 <= i < kept.len() && kept[i] == item;
            if i < before.len() {
                assert(before[i] == item);
                assert(before.contains(item));
                let j = choose|j: int| 0 <= j < shorter.len() && shorter[j] == item;
                assert(items[j] == item);
            } else {
                assert(items[items.len() - 1] == item);
            }
        }
        assert forall|item: T| items.contains(item) && !drop.contains(key(item)) implies #[trigger]
            kept.contains(item) by {
            let j = choose|j: int| 0 <= j < items.len() && items[j] == item;
            if j < shorter.len() {
                assert(shorter[j] == item);
                assert(before.contains(item));
                let i = choose|i: int| 0 <= i < before.len() && before[i] == item;
                assert(kept[i] == item);
            } else {
                assert(kept[kept.len() - 1] == item);
            }
        }
    }
}

/// The keys of what is kept are the kept keys.
pub proof fn lemma_keep_by_keys<T>(items: Seq<T>, key: spec_fn(T) -> Seq<char>, drop: Set<Seq<char>>)
    ensures
        keep_by(items, key, drop).map_values(key) == keep_texts(items.map_values(key), drop),
    decreases items.len(),
{
    let keys = items.map_values(key);
    if items.len() > 0 {
        lemma_keep_by_keys(items.drop_last(), key, drop);
        assert(keys.drop_last() =~= items.drop_last().map_values(key));
        assert(keys.last() == key(items.last()));
        assert(keep_by(items, key, drop).map_values(key) =~= keep_texts(keys, drop));
    } else {
        assert(keep_by(items, key, drop).map_values(key) =~= keep_texts(keys, drop));
    }
}

/// Keeping and dropping split a duplicate-free sequence of texts into two
/// duplicate-free sequences.
pub proof fn lemma_keep_texts(items: Seq<Seq<char>>, drop: Set<Seq<char>>)
    requires
        items.no_duplicates(),
    ensures
        keep_texts(items, drop).no_duplicates(),
        drop_texts(items, drop).no_duplicates(),
        keep_texts(items, drop).len() + drop_texts(items, drop).len() == items.len(),
        forall|text: Seq<char>| #[trigger]
            keep_texts(items, drop).contains(text) <==> (items.contains(text) && !drop.contains(
                text,
            )),
        forall|text: Seq<char>| #[trigger]
            drop_texts(items, drop).contains(text) <==> (items.contains(text) && drop.contains(
                text,
            )),
    decreases items.len(),
{
    let kept = keep_texts(items, drop);
    let dropped = drop_texts(items, drop);
    lemma_keep_by_contains(items, |text: Seq<char>| text, drop);
    if items.len() > 0 {
        let shorter = items.drop_last();
        let last = items.last();
        assert(shorter.no_duplicates());
        lemma_keep_texts(shorter, drop);
        assert(!shorter.contains(last)) by {
            if shorter.contains(last) {
                let j = choose|j: int| 0 <= j < shorter.len() && shorter[j] == last;
                assert(items[j] == items[items.len() - 1]);
            }
        }
        assert forall|text: Seq<char>| items.contains(text) <==> (shorter.contains(text) || text
            == last) by {
            if items.contains(text) {
                let j = choose|j: int| 0 <= j < items.len() && items[j] == text;
                if j < shorter.len() {
                    assert(shorter[j] == text);
                }
            }
            if shorter.contains(text) {
                let j = choose|j: int| 0 <= j < shorter.len() && shorter[j] == text;
                assert(items[j] == text);
            }
            if text == last {
                assert(items[items.len() - 1] == text);
            }
        }
        let dropped_before = drop_texts(shorter, drop);
        if drop.contains(last) {
            lemma_push_unique(dropped_before, last);
            assert(dropped == push_unique(dropped_before, last));
        } else {
            lemma_push_unique(keep_texts(shorter, drop), last);
            assert(kept == push_unique(keep_texts(shorter, drop), last));
            assert(dropped == dropped_before);
        }
        assert forall|text: Seq<char>| #[trigger]
            dropped.contains(text) <==> (items.contains(text) && drop.contains(text)) by {
            assert(dropped_before.contains(text) <==> (shorter.contains(text) && drop.contains(
                text,
            )));
        }
    } else {
        assert forall|text: Seq<char>| #[trigger]
            dropped.contains(text) <==> (items.contains(text) && drop.contains(text)) by {}
    }
}

/// Keeping distributes over concatenation.
pub proof fn lemma_keep_texts_concat(a: Seq<Seq<char>>, b: Seq<Seq<char>>, drop: Set<Seq<char>>)
    ensures
        keep_texts(a + b, drop) == keep_texts(a, drop) + keep_texts(b, drop),
        drop_texts(a + b, drop) == drop_texts(a, drop) + drop_texts(b, drop),
    decreases b.len(),
{
    if b.len() == 0 {
        assert(a + b =~= a);
        assert(keep_texts(a, drop) + keep_texts(b, drop) =~= keep_texts(a, drop));
        assert(drop_texts(a, drop) + drop_texts(b, drop) =~= drop_texts(a, drop));
    } else {
        lemma_keep_texts_concat(a, b.drop_last(), drop);
        assert((a + b).drop_last() =~= a + b.drop_last());
        assert((a + b).last() == b.last());
        assert(keep_texts(a + b, drop) =~= keep_texts(a, drop) + keep_texts(b, drop));
        assert(drop_texts(a + b, drop) =~= drop_texts(a, drop) + drop_texts(b, drop));
    }
}

/// Keeping depends only on which keys of the items are dropped.
pub proof fn lemma_keep_by_agree<T>(
    items: Seq<T>,
    key: spec_fn(T) -> Seq<char>,
    one: Set<Seq<char>>,
    other: Set<Seq<char>>,
)
    requires
        forall|i: int|
            0 <= i < items.len() ==> (one.contains(key(#[trigger] items[i])) <==> other.contains(
                key(items[i]),
            )),
    ensures
        keep_by(items, key, one) == keep_by(items, key, other),
    decreases items.len(),
{
    if items.len() > 0 {
        let shorter = items.drop_last();
        assert forall|i: int| 0 <= i < shorter.len() implies (one.contains(
            key(#[trigger] shorter[i]),
        ) <==> other.contains(key(shorter[i]))) by {
            assert(shorter[i] == items[i]);
        }
        lemma_keep_by_agree(shorter, key, one, other);
        assert(items.last() == items[items.len() - 1]);
    }
}

/// Dropping depends only on which of the texts are dropped.
pub proof fn lemma_drop_texts_agree(items: Seq<Seq<char>>, one: Set<Seq<char>>, other: Set<Seq<char>>)
    requires
        forall|i: int|
            0 <= i < items.len() ==> (one.contains(#[trigger] items[i]) <==> other.contains(
                items[i],
            )),
    ensures
        drop_texts(items, one) == drop_texts(items, other),
    decreases items.len(),
{
    if items.len() > 0 {
        let shorter = items.drop_last();
        assert forall|i: int| 0 <= i < shorter.len() implies (one.contains(
            #[trigger] shorter[i],
        ) <==> other.contains(shorter[i])) by {
            assert(shorter[i] == items[i]);
        }
        lemma_drop_texts_agree(shorter, one, other);
        assert(items.last() == items[items.len() - 1]);
    }
}

/// The texts of `items` other than those among `drop`, in their order.
pub fn retain_texts(items: &Vec<String>, drop: &Vec<String>) -> (kept: Vec<String>)
    ensures
        texts(kept@) == keep_texts(texts(items@), texts(drop@).to_set()),
{
    let ghost all = texts(items@);
    let ghost gone = texts(drop@).to_set();
    let mut kept: Vec<String> = Vec::new();
    let mut i: usize = 0;
    assert(all.take(0) =~= Seq::empty());
    assert(texts(kept@) =~= Seq::empty());
    while i < items.len()
        invariant
            i <= items.len(),
            all == texts(items@),
            gone == texts(drop@).to_set(),
            texts(kept@) == keep_texts(all.take(i as int), gone),
        decreases items.len() - i,
    {
        proof {
            let upto = all.take(i + 1);
            assert(upto.drop_last() =~= all.take(i as int));
            assert(upto.last() == items[i as int]@);
        }
        if !contains_text(drop, &items[i]) {
            let ghost before = kept@;
            kept.push(items[i].clone());
            assert(texts(kept@) =~= texts(before).push(items[i as int]@));
        }
        i += 1;
    }
    assert(all.take(i as int) =~= all);
    kept
}

/// The texts of `items` that are among `drop`, in their order.
pub fn select_texts(items: &Vec<String>, drop: &Vec<String>) -> (taken: Vec<String>)
    ensures
        texts(taken@) == drop_texts(texts(items@), texts(drop@).to_set()),
{
    let ghost all = texts(items@);
    let ghost gone = texts(drop@).to_set();
    let mut taken: Vec<String> = Vec::new();
    let mut i: usize = 0;
    assert(all.take(0) =~= Seq::empty());
    assert(texts(taken@) =~= Seq::empty());
    while i < items.len()
        invariant
            i <= items.len(),
            all == texts(items@),
            gone == texts(drop@).to_set(),
            texts(taken@) == drop_texts(all.take(i as int), gone),
        decreases items.len() - i,
    {
        proof {
            let upto = all.take(i + 1);
            assert(upto.drop_last() =~= all.take(i as int));
            assert(upto.last() == items[i as int]@);
        }
        if contains_text(drop, &items[i]) {
            let ghost before = taken@;
            taken.push(items[i].clone());
            assert(texts(taken@) =~= texts(before).push(items[i as int]@));
        }
        i += 1;
    }
    assert(all.take(i as int) =~= all);
    taken
}

/// Where nothing is dropped, everything is kept.
pub proof fn lemma_keep_all<T>(items: Seq<T>, key: spec_fn(T) -> Seq<char>, drop: Set<Seq<char>>)
    requires
        forall|i: int| 0 <= i < items.len() ==> !drop.contains(key(#[trigger] items[i])),
    ensures
        keep_by(items, key, drop) == items,
    decreases items.len(),
{
    if items.len() > 0 {
        let shorter = items.drop_last();
        assert forall|i: int| 0 <= i < shorter.len() implies !drop.contains(
            key(#[trigger] shorter[i]),
        ) by {
            assert(shorter[i] == items[i]);
        }
        lemma_keep_all(shorter, key, drop);
        assert(items.last() == items[items.len() - 1]);
        assert(shorter.push(items.last()) =~= items);
    } else {
        assert(keep_by(items, key, drop) =~= items);
    }
}

} // verus!
