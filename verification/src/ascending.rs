//! Strictly ascending sequences, the shape in which an index keeps its tags
//! and its locations: searching them, inserting into them, filtering them.
use vstd::prelude::*;
use crate::location::{key_lt, places, Location, LocationView};
use crate::location::{lemma_key_lt_total, lemma_key_lt_transitive};
use crate::tags::Tag;
use crate::text::{compare, text_lt, texts, Order};
use crate::text::{lemma_text_lt_total, lemma_text_lt_transitive};

verus! {

/// Each element comes before every later one.
pub open spec fn ascending<T>(s: Seq<T>, before: spec_fn(T, T) -> bool) -> bool {
    forall|i: int, j: int| 0 <= i < j < s.len() ==> before(#[trigger] s[i], #[trigger] s[j])
}

/// The order of texts.
pub open spec fn text_before() -> spec_fn(Seq<char>, Seq<char>) -> bool {
    |a: Seq<char>, b: Seq<char>| text_lt(a, b)
}

/// The order of locations: that of their files and addresses.
pub open spec fn place_before() -> spec_fn(LocationView, LocationView) -> bool {
    |a: LocationView, b: LocationView| key_lt(a.key(), b.key())
}

/// Each text is smaller than every later one; so no text occurs twice.
pub open spec fn ascending_texts(s: Seq<Seq<char>>) -> bool {
    ascending(s, text_before())
}

/// Each location is smaller, by file and address, than every later one; so
/// no file and address occurs twice.
pub open spec fn ascending_places(s: Seq<LocationView>) -> bool {
    ascending(s, place_before())
}

/// Inserting between what comes before and what comes after keeps a
/// sequence ascending.
pub proof fn lemma_insert_ascending<T>(s: Seq<T>, before: spec_fn(T, T) -> bool, at: int, x: T)
    requires
        ascending(s, before),
        0 <= at <= s.len(),
        forall|j: int| 0 <= j < at ==> before(#[trigger] s[j], x),
        forall|j: int| at <= j < s.len() ==> before(x, #[trigger] s[j]),
    ensures
        ascending(s.insert(at, x), before),
{
    let r = s.insert(at, x);
    assert forall|i: int, j: int| 0 <= i < j < r.len() implies before(
        #[trigger] r[i],
        #[trigger] r[j],
    ) by {
        let a = if i < at { s[i] } else if i == at { x } else { s[i - 1] };
        let b = if j < at { s[j] } else if j == at { x } else { s[j - 1] };
        assert(r[i] == a && r[j] == b);
    }
}

/// After an insertion a sequence holds what it held and the new element.
pub proof fn lemma_insert_contains<T>(s: Seq<T>, at: int, x: T, y: T)
    requires
        0 <= at <= s.len(),
    ensures
        s.insert(at, x).contains(y) <==> s.contains(y) || y == x,
{
    let r = s.insert(at, x);
    if r.contains(y) {
        let j = choose|j: int| 0 <= j < r.len() && r[j] == y;
        if j < at {
            assert(s[j] == y);
        } else if j > at {
            assert(s[j - 1] == y);
        }
    }
    if s.contains(y) {
        let j = choose|j: int| 0 <= j < s.len() && s[j] == y;
        assert(r[if j < at { j } else { j + 1 }] == y);
    }
    if y == x {
        assert(r[at] == y);
    }
}

/// Filtering one element more either appends it or changes nothing.
pub proof fn lemma_filter_next<T>(s: Seq<T>, n: int, pred: spec_fn(T) -> bool)
    requires
        0 <= n < s.len(),
    ensures
        s.take(n + 1).filter(pred) == if pred(s[n]) {
            s.take(n).filter(pred).push(s[n])
        } else {
            s.take(n).filter(pred)
        },
{
    reveal(Seq::filter);
    assert(s.take(n + 1).drop_last() =~= s.take(n));
}

/// What passes a filter is what the sequence holds and the test accepts.
pub proof fn lemma_filter_member<T>(s: Seq<T>, pred: spec_fn(T) -> bool, x: T)
    ensures
        s.filter(pred).contains(x) <==> s.contains(x) && pred(x),
{
    if s.filter(pred).contains(x) {
        s.lemma_filter_contains_rev(pred, x);
    }
    if s.contains(x) && pred(x) {
        let i = choose|i: int| 0 <= i < s.len() && s[i] == x;
        s.lemma_filter_contains(pred, i);
    }
}

/// A test that accepts everything filters nothing out.
pub proof fn lemma_filter_all<T>(s: Seq<T>, pred: spec_fn(T) -> bool)
    requires
        forall|i: int| 0 <= i < s.len() ==> pred(#[trigger] s[i]),
    ensures
        s.filter(pred) == s,
    decreases s.len(),
{
    reveal(Seq::filter);
    if s.len() > 0 {
        lemma_filter_all(s.drop_last(), pred);
        assert(s.drop_last().push(s.last()) =~= s);
    }
}

/// What passes a filter keeps its order.
pub proof fn lemma_filter_ascending<T>(
    s: Seq<T>,
    before: spec_fn(T, T) -> bool,
    pred: spec_fn(T) -> bool,
)
    requires
        ascending(s, before),
    ensures
        ascending(s.filter(pred), before),
    decreases s.len(),
{
    reveal(Seq::filter);
    if s.len() > 0 {
        let front = s.drop_last();
        let kept = front.filter(pred);
        lemma_filter_ascending(front, before, pred);
        assert forall|i: int| 0 <= i < kept.len() implies before(#[trigger] kept[i], s.last()) by {
            assert(kept.contains(kept[i]));
            lemma_filter_member(front, pred, kept[i]);
            let k = choose|k: int| 0 <= k < front.len() && front[k] == kept[i];
            assert(before(s[k], s[s.len() - 1]));
        }
    }
}

/// Looks `tag` up in an ascending vector. `Ok` holds its index; `Err` holds
/// the index at which it would have to be inserted.
pub(crate) fn find_tag(tags: &Vec<Tag>, tag: &str) -> (r: Result<usize, usize>)
    requires
        ascending_texts(texts(tags@)),
    ensures
        match r {
            Ok(at) => at < tags@.len() && texts(tags@)[at as int] == tag@,
            Err(at) => {
                &&& at <= tags@.len()
                &&& forall|j: int| 0 <= j < at ==> text_lt(#[trigger] texts(tags@)[j], tag@)
                &&& forall|j: int|
                    at <= j < tags@.len() ==> text_lt(tag@, #[trigger] texts(tags@)[j])
            },
        },
{
    let ghost ts = texts(tags@);
    let mut lo: usize = 0;
    let mut hi: usize = tags.len();
    while lo < hi
        invariant
            ts == texts(tags@),
            ascending_texts(ts),
            0 <= lo <= hi <= tags@.len(),
            forall|j: int| 0 <= j < lo ==> text_lt(#[trigger] ts[j], tag@),
            forall|j: int| hi <= j < ts.len() ==> text_lt(tag@, #[trigger] ts[j]),
        decreases hi - lo,
    {
        let mid = lo + (hi - lo) / 2;
        match compare(tags[mid].as_str(), tag) {
            Order::Equal => {
                return Ok(mid);
            },
            Order::Before => {
                assert forall|j: int| 0 <= j < mid + 1 implies text_lt(#[trigger] ts[j], tag@) by {
                    if j < mid {
                        assert(text_before()(ts[j], ts[mid as int]));
                        lemma_text_lt_transitive(ts[j], ts[mid as int], tag@);
                    }
                }
                lo = mid + 1;
            },
            Order::After => {
                proof {
                    lemma_text_lt_total(ts[mid as int], tag@);
                }
                assert forall|j: int| mid <= j < ts.len() implies text_lt(tag@, #[trigger] ts[j]) by {
                    if mid < j {
                        assert(text_before()(ts[mid as int], ts[j]));
                        lemma_text_lt_transitive(tag@, ts[mid as int], ts[j]);
                    }
                }
                hi = mid;
            },
        }
    }
    Err(lo)
}

/// Looks the file and address of `location` up in an ascending vector.
/// `Ok` holds the index of the entry with that file and address; `Err`
/// holds the index at which such an entry would have to be inserted.
pub(crate) fn find_location(locations: &Vec<Location>, location: &Location) -> (r: Result<usize, usize>)
    requires
        ascending_places(places(locations@)),
    ensures
        match r {
            Ok(at) => at < locations@.len() && places(locations@)[at as int].key()
                == location@.key(),
            Err(at) => {
                &&& at <= locations@.len()
                &&& forall|j: int|
                    0 <= j < at ==> key_lt(#[trigger] places(locations@)[j].key(), location@.key())
                &&& forall|j: int|
                    at <= j < locations@.len() ==> key_lt(
                        location@.key(),
                        #[trigger] places(locations@)[j].key(),
                    )
            },
        },
{
    let ghost ps = places(locations@);
    let ghost key = location@.key();
    let mut lo: usize = 0;
    let mut hi: usize = locations.len();
    while lo < hi
        invariant
            ps == places(locations@),
            key == location@.key(),
            ascending_places(ps),
            0 <= lo <= hi <= locations@.len(),
            forall|j: int| 0 <= j < lo ==> key_lt(#[trigger] ps[j].key(), key),
            forall|j: int| hi <= j < ps.len() ==> key_lt(key, #[trigger] ps[j].key()),
        decreases hi - lo,
    {
        let mid = lo + (hi - lo) / 2;
        match locations[mid].compare(location) {
            Order::Equal => {
                return Ok(mid);
            },
            Order::Before => {
                assert forall|j: int| 0 <= j < mid + 1 implies key_lt(
                    #[trigger] ps[j].key(),
                    key,
                ) by {
                    if j < mid {
                        assert(place_before()(ps[j], ps[mid as int]));
                        lemma_key_lt_transitive(ps[j].key(), ps[mid as int].key(), key);
                    }
                }
                lo = mid + 1;
            },
            Order::After => {
                proof {
                    lemma_key_lt_total(ps[mid as int].key(), key);
                }
                assert forall|j: int| mid <= j < ps.len() implies key_lt(
                    key,
                    #[trigger] ps[j].key(),
                ) by {
                    if mid < j {
                        assert(place_before()(ps[mid as int], ps[j]));
                        lemma_key_lt_transitive(key, ps[mid as int].key(), ps[j].key());
                    }
                }
                hi = mid;
            },
        }
    }
    Err(lo)
}

} // verus!
