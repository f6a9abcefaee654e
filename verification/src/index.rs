//! Building the tables of an index from `(tag, location)` pairs: the tags
//! and the locations, each once and in ascending order, and the rows that
//! link them.
use vstd::prelude::*;
use crate::ascending::{ascending_places, ascending_texts, find_location, find_tag};
use crate::ascending::{lemma_insert_ascending, lemma_insert_contains, place_before, text_before};
use crate::location::{has_key, places, Key, Location, LocationView};
use crate::location::lemma_key_lt_irreflexive;
use crate::tags::{Tag, TaggedLocation};
use crate::text::{lemma_text_lt_irreflexive, texts};

verus! {

/// One of the pairs carries `tag`.
pub open spec fn names(pairs: Seq<TaggedLocation>, tag: Seq<char>) -> bool {
    exists|j: int| 0 <= j < pairs.len() && (#[trigger] pairs[j]).0@ == tag
}

/// One of the pairs lies at the file and address `key`.
pub open spec fn visits(pairs: Seq<TaggedLocation>, key: Key) -> bool {
    exists|j: int| 0 <= j < pairs.len() && (#[trigger] pairs[j]).1@.key() == key
}

/// One of the pairs carries `tag` and lies at the file and address `key`.
pub open spec fn links(pairs: Seq<TaggedLocation>, tag: Seq<char>, key: Key) -> bool {
    exists|j: int|
        0 <= j < pairs.len() && (#[trigger] pairs[j]).0@ == tag && pairs[j].1@.key() == key
}

/// `place` is the location of the first pair that lies at its file and
/// address.
pub open spec fn first_at(pairs: Seq<TaggedLocation>, place: LocationView) -> bool {
    exists|j: int|
        0 <= j < pairs.len() && (#[trigger] pairs[j]).1@ == place && !visits(
            pairs.take(j),
            place.key(),
        )
}

/// What one pair more adds to the tags that are carried.
proof fn lemma_names_step(pairs: Seq<TaggedLocation>, n: int, tag: Seq<char>)
    requires
        0 <= n < pairs.len(),
    ensures
        names(pairs.take(n + 1), tag) <==> names(pairs.take(n), tag) || pairs[n].0@ == tag,
{
    let before = pairs.take(n);
    let after = pairs.take(n + 1);
    if names(before, tag) {
        let j = choose|j: int| 0 <= j < before.len() && (#[trigger] before[j]).0@ == tag;
        assert(after[j] == before[j]);
    }
    if names(after, tag) {
        let j = choose|j: int| 0 <= j < after.len() && (#[trigger] after[j]).0@ == tag;
        if j < n {
            assert(before[j] == after[j]);
        }
    }
    assert(after[n] == pairs[n]);
}

/// What one pair more adds to the files and addresses that are visited.
proof fn lemma_visits_step(pairs: Seq<TaggedLocation>, n: int, key: Key)
    requires
        0 <= n < pairs.len(),
    ensures
        visits(pairs.take(n + 1), key) <==> visits(pairs.take(n), key) || pairs[n].1@.key() == key,
{
    let before = pairs.take(n);
    let after = pairs.take(n + 1);
    if visits(before, key) {
        let j = choose|j: int| 0 <= j < before.len() && (#[trigger] before[j]).1@.key() == key;
        assert(after[j] == before[j]);
    }
    if visits(after, key) {
        let j = choose|j: int| 0 <= j < after.len() && (#[trigger] after[j]).1@.key() == key;
        if j < n {
            assert(before[j] == after[j]);
        }
    }
    assert(after[n] == pairs[n]);
}

/// What one pair more adds to the links between tags and locations.
proof fn lemma_links_step(pairs: Seq<TaggedLocation>, n: int, tag: Seq<char>, key: Key)
    requires
        0 <= n < pairs.len(),
    ensures
        links(pairs.take(n + 1), tag, key) <==> links(pairs.take(n), tag, key) || (pairs[n].0@
            == tag && pairs[n].1@.key() == key),
{
    let before = pairs.take(n);
    let after = pairs.take(n + 1);
    if links(before, tag, key) {
        let j = choose|j: int|
            0 <= j < before.len() && (#[trigger] before[j]).0@ == tag && before[j].1@.key() == key;
        assert(after[j] == before[j]);
    }
    if links(after, tag, key) {
        let j = choose|j: int|
            0 <= j < after.len() && (#[trigger] after[j]).0@ == tag && after[j].1@.key() == key;
        if j < n {
            assert(before[j] == after[j]);
        }
    }
    assert(after[n] == pairs[n]);
}

/// What one pair more adds to the first locations: its own location, if
/// no earlier pair lies there.
proof fn lemma_first_at_step(pairs: Seq<TaggedLocation>, n: int, place: LocationView)
    requires
        0 <= n < pairs.len(),
    ensures
        first_at(pairs.take(n + 1), place) <==> first_at(pairs.take(n), place) || (pairs[n].1@
            == place && !visits(pairs.take(n), place.key())),
{
    let before = pairs.take(n);
    let after = pairs.take(n + 1);
    if first_at(before, place) {
        let j = choose|j: int|
            0 <= j < before.len() && (#[trigger] before[j]).1@ == place && !visits(
                before.take(j),
                place.key(),
            );
        assert(after[j] == before[j]);
        assert(after.take(j) =~= before.take(j));
    }
    if first_at(after, place) {
        let j = choose|j: int|
            0 <= j < after.len() && (#[trigger] after[j]).1@ == place && !visits(
                after.take(j),
                place.key(),
            );
        if j < n {
            assert(before[j] == after[j]);
            assert(before.take(j) =~= after.take(j));
        } else {
            assert(after.take(j) =~= before);
        }
    }
    if pairs[n].1@ == place && !visits(before, place.key()) {
        assert(after[n] == pairs[n]);
        assert(after.take(n) =~= before);
    }
}

/// After an insertion a sequence holds the files and addresses it held and
/// that of the new location.
proof fn lemma_insert_has_key(s: Seq<LocationView>, at: int, x: LocationView, key: Key)
    requires
        0 <= at <= s.len(),
    ensures
        has_key(s.insert(at, x), key) <==> has_key(s, key) || x.key() == key,
{
    let r = s.insert(at, x);
    if has_key(r, key) {
        let j = choose|j: int| 0 <= j < r.len() && (#[trigger] r[j]).key() == key;
        if j < at {
            assert(s[j].key() == key);
        } else if j > at {
            assert(s[j - 1].key() == key);
        }
    }
    if has_key(s, key) {
        let j = choose|j: int| 0 <= j < s.len() && (#[trigger] s[j]).key() == key;
        assert(r[if j < at { j } else { j + 1 }].key() == key);
    }
    if x.key() == key {
        assert(r[at].key() == key);
    }
}

/// The tags and the locations of `pairs`, each in ascending order and
/// without repetition. Of several locations with one file and address the
/// first stays.
pub(crate) fn collect(pairs: &Vec<TaggedLocation>) -> (r: (Vec<Tag>, Vec<Location>))
    ensures
        ascending_texts(texts(r.0@)),
        ascending_places(places(r.1@)),
        forall|tag: Seq<char>| #[trigger] texts(r.0@).contains(tag) <==> names(pairs@, tag),
        forall|place: LocationView| #[trigger]
            places(r.1@).contains(place) <==> first_at(pairs@, place),
        forall|key: Key| #[trigger] has_key(places(r.1@), key) <==> visits(pairs@, key),
{
    let mut tags: Vec<Tag> = Vec::new();
    let mut locations: Vec<Location> = Vec::new();
    let mut n: usize = 0;
    while n < pairs.len()
        invariant
            0 <= n <= pairs@.len(),
            ascending_texts(texts(tags@)),
            ascending_places(places(locations@)),
            forall|tag: Seq<char>| #[trigger]
                texts(tags@).contains(tag) <==> names(pairs@.take(n as int), tag),
            forall|place: LocationView| #[trigger]
                places(locations@).contains(place) <==> first_at(pairs@.take(n as int), place),
            forall|key: Key| #[trigger]
                has_key(places(locations@), key) <==> visits(pairs@.take(n as int), key),
        decreases pairs@.len() - n,
    {
        let ghost old_texts = texts(tags@);
        let ghost old_places = places(locations@);
        let tag = &pairs[n].0;
        let location = &pairs[n].1;
        match find_tag(&tags, tag.as_str()) {
            Ok(at) => {
                assert(old_texts.contains(tag@));
                assert forall|t: Seq<char>| #[trigger]
                    texts(tags@).contains(t) <==> names(pairs@.take(n + 1), t) by {
                    lemma_names_step(pairs@, n as int, t);
                }
            },
            Err(at) => {
                tags.insert(at, tag.clone());
                proof {
                    assert(texts(tags@) =~= old_texts.insert(at as int, tag@));
                    lemma_insert_ascending(old_texts, text_before(), at as int, tag@);
                }
                assert forall|t: Seq<char>| #[trigger]
                    texts(tags@).contains(t) <==> names(pairs@.take(n + 1), t) by {
                    lemma_names_step(pairs@, n as int, t);
                    lemma_insert_contains(old_texts, at as int, tag@, t);
                }
            },
        }
        match find_location(&locations, location) {
            Ok(at) => {
                assert(has_key(old_places, location@.key()));
                assert forall|place: LocationView| #[trigger]
                    places(locations@).contains(place) <==> first_at(
                        pairs@.take(n + 1),
                        place,
                    ) by {
                    lemma_first_at_step(pairs@, n as int, place);
                }
                assert forall|key: Key| #[trigger]
                    has_key(places(locations@), key) <==> visits(pairs@.take(n + 1), key) by {
                    lemma_visits_step(pairs@, n as int, key);
                }
            },
            Err(at) => {
                locations.insert(at, location.clone());
                proof {
                    assert(places(locations@) =~= old_places.insert(at as int, location@));
                    lemma_insert_ascending(old_places, place_before(), at as int, location@);
                    lemma_key_lt_irreflexive(location@.key());
                    assert(!has_key(old_places, location@.key()));
                }
                assert forall|place: LocationView| #[trigger]
                    places(locations@).contains(place) <==> first_at(
                        pairs@.take(n + 1),
                        place,
                    ) by {
                    lemma_first_at_step(pairs@, n as int, place);
                    lemma_insert_contains(old_places, at as int, location@, place);
                }
                assert forall|key: Key| #[trigger]
                    has_key(places(locations@), key) <==> visits(pairs@.take(n + 1), key) by {
                    lemma_visits_step(pairs@, n as int, key);
                    lemma_insert_has_key(old_places, at as int, location@, key);
                }
            },
        }
        n = n + 1;
    }
    assert(pairs@.take(n as int) =~= pairs@);
    (tags, locations)
}

/// `row` lists `x`.
pub open spec fn in_row(row: Seq<usize>, x: int) -> bool {
    exists|k: int| 0 <= k < row.len() && #[trigger] row[k] == x
}

/// Row `r` of `rows` lists `x`.
pub open spec fn listed(rows: Seq<Vec<usize>>, r: int, x: int) -> bool {
    in_row(rows[r]@, x)
}

/// Every row lists numbers below `bound` only.
pub open spec fn rows_below(rows: Seq<Vec<usize>>, bound: int) -> bool {
    forall|r: int, x: int| 0 <= r < rows.len() && #[trigger] listed(rows, r, x) ==> x < bound
}

/// Whether `row` lists `x`.
fn lists(row: &Vec<usize>, x: usize) -> (r: bool)
    ensures
        r == in_row(row@, x as int),
{
    let mut k: usize = 0;
    while k < row.len()
        invariant
            0 <= k <= row@.len(),
            forall|h: int| 0 <= h < k ==> #[trigger] row@[h] != x,
        decreases row@.len() - k,
    {
        if row[k] == x {
            return true;
        }
        k = k + 1;
    }
    false
}

/// `n` empty rows.
fn empty_rows(n: usize) -> (rows: Vec<Vec<usize>>)
    ensures
        rows@.len() == n,
        forall|r: int, x: int| 0 <= r < n ==> !#[trigger] listed(rows@, r, x),
{
    let mut rows: Vec<Vec<usize>> = Vec::new();
    let mut r: usize = 0;
    while r < n
        invariant
            0 <= r <= n,
            rows@.len() == r,
            forall|h: int, x: int| 0 <= h < r ==> !#[trigger] listed(rows@, h, x),
        decreases n - r,
    {
        let ghost before = rows@;
        rows.push(Vec::new());
        assert forall|h: int, x: int| 0 <= h < r + 1 implies !#[trigger] listed(rows@, h, x) by {
            if h < r {
                assert(rows@[h] == before[h]);
                assert(!listed(before, h, x));
            }
        }
        r = r + 1;
    }
    rows
}

/// Lists `x` in row `r`, unless the row lists it already.
fn list(rows: &mut Vec<Vec<usize>>, r: usize, x: usize)
    requires
        r < old(rows)@.len(),
    ensures
        final(rows)@.len() == old(rows)@.len(),
        forall|q: int, y: int|
            0 <= q < old(rows)@.len() ==> (#[trigger] listed(final(rows)@, q, y) <==> listed(
                old(rows)@,
                q,
                y,
            ) || (q == r && y == x)),
{
    if !lists(&rows[r], x) {
        let ghost row = rows@[r as int]@;
        rows[r].push(x);
        assert forall|q: int, y: int| 0 <= q < old(rows)@.len() implies (#[trigger] listed(
            rows@,
            q,
            y,
        ) <==> listed(old(rows)@, q, y) || (q == r && y == x)) by {
            if q == r {
                assert(rows@[q]@ == row.push(x));
                if in_row(row, y) {
                    let k = choose|k: int| 0 <= k < row.len() && #[trigger] row[k] == y;
                    assert(rows@[q]@[k] == y);
                }
                if y == x {
                    assert(rows@[q]@[row.len() as int] == y);
                }
                if in_row(rows@[q]@, y) {
                    let k = choose|k: int| 0 <= k < rows@[q]@.len() && #[trigger] rows@[q]@[k] == y;
                    if k < row.len() {
                        assert(row[k] == y);
                    }
                }
            } else {
                assert(rows@[q] == old(rows)@[q]);
            }
        }
    }
}

/// The two inverted indices of `pairs` over its tags and its locations:
/// for each tag the numbers of the locations it occurs at, and for each
/// location the numbers of the tags that occur there.
pub(crate) fn link(pairs: &Vec<TaggedLocation>, tags: &Vec<Tag>, locations: &Vec<Location>) -> (r:
    (Vec<Vec<usize>>, Vec<Vec<usize>>))
    requires
        ascending_texts(texts(tags@)),
        ascending_places(places(locations@)),
        forall|tag: Seq<char>| names(pairs@, tag) ==> #[trigger] texts(tags@).contains(tag),
        forall|key: Key| visits(pairs@, key) ==> #[trigger] has_key(places(locations@), key),
    ensures
        r.0@.len() == tags@.len(),
        r.1@.len() == locations@.len(),
        rows_below(r.0@, locations@.len() as int),
        rows_below(r.1@, tags@.len() as int),
        forall|ti: int, li: int|
            0 <= ti < tags@.len() && 0 <= li < locations@.len() ==> (#[trigger] listed(
                r.0@,
                ti,
                li,
            ) <==> links(pairs@, texts(tags@)[ti], places(locations@)[li].key())),
        forall|ti: int, li: int|
            0 <= ti < tags@.len() && 0 <= li < locations@.len() ==> (#[trigger] listed(
                r.1@,
                li,
                ti,
            ) <==> listed(r.0@, ti, li)),
{
    let ghost ts = texts(tags@);
    let ghost ps = places(locations@);
    let mut by_tag = empty_rows(tags.len());
    let mut by_location = empty_rows(locations.len());
    let mut n: usize = 0;
    while n < pairs.len()
        invariant
            0 <= n <= pairs@.len(),
            ts == texts(tags@),
            ps == places(locations@),
            ascending_texts(ts),
            ascending_places(ps),
            forall|tag: Seq<char>| names(pairs@, tag) ==> #[trigger] ts.contains(tag),
            forall|key: Key| visits(pairs@, key) ==> #[trigger] has_key(ps, key),
            by_tag@.len() == ts.len(),
            by_location@.len() == ps.len(),
            forall|ti: int, li: int|
                0 <= ti < ts.len() ==> (#[trigger] listed(by_tag@, ti, li) <==> 0 <= li < ps.len()
                    && links(pairs@.take(n as int), ts[ti], ps[li].key())),
            forall|ti: int, li: int|
                0 <= li < ps.len() ==> (#[trigger] listed(by_location@, li, ti) <==> 0 <= ti
                    < ts.len() && links(pairs@.take(n as int), ts[ti], ps[li].key())),
        decreases pairs@.len() - n,
    {
        let ghost old_by_tag = by_tag@;
        let ghost old_by_location = by_location@;
        let tag = &pairs[n].0;
        let location = &pairs[n].1;
        let found_tag = find_tag(tags, tag.as_str());
        let found_location = find_location(locations, location);
        proof {
            assert(names(pairs@, tag@) && ts.contains(tag@));
            let ti = choose|ti: int| 0 <= ti < ts.len() && ts[ti] == tag@;
            lemma_text_lt_irreflexive(tag@);
            assert(found_tag is Ok);
            assert(visits(pairs@, location@.key()) && has_key(ps, location@.key()));
            let li = choose|li: int| 0 <= li < ps.len() && (#[trigger] ps[li]).key() == location@.key();
            lemma_key_lt_irreflexive(location@.key());
            assert(found_location is Ok);
        }
        if let (Ok(ti), Ok(li)) = (found_tag, found_location) {
            list(&mut by_tag, ti, li);
            list(&mut by_location, li, ti);
            proof {
                assert forall|t: int, l: int| 0 <= t < ts.len() && 0 <= l < ps.len() implies (
                #[trigger] links(pairs@.take(n + 1), ts[t], ps[l].key()) <==> links(
                    pairs@.take(n as int),
                    ts[t],
                    ps[l].key(),
                ) || (t == ti && l == li)) by {
                    lemma_links_step(pairs@, n as int, ts[t], ps[l].key());
                    lemma_text_lt_irreflexive(ts[t]);
                    lemma_key_lt_irreflexive(ps[l].key());
                    if ts[t] == tag@ && t != ti {
                        assert(text_before()(ts[t], ts[ti as int]) || text_before()(
                            ts[ti as int],
                            ts[t],
                        ));
                    }
                    if ps[l].key() == location@.key() && l != li {
                        assert(place_before()(ps[l], ps[li as int]) || place_before()(
                            ps[li as int],
                            ps[l],
                        ));
                    }
                }
                assert forall|t: int, l: int| 0 <= t < ts.len() implies (#[trigger] listed(
                    by_tag@,
                    t,
                    l,
                ) <==> 0 <= l < ps.len() && links(pairs@.take(n + 1), ts[t], ps[l].key())) by {
                    assert(listed(by_tag@, t, l) <==> listed(old_by_tag, t, l) || (t == ti && l
                        == li));
                    if 0 <= l < ps.len() {
                        assert(links(pairs@.take(n + 1), ts[t], ps[l].key()) <==> links(
                            pairs@.take(n as int),
                            ts[t],
                            ps[l].key(),
                        ) || (t == ti && l == li));
                    }
                }
                assert forall|t: int, l: int| 0 <= l < ps.len() implies (#[trigger] listed(
                    by_location@,
                    l,
                    t,
                ) <==> 0 <= t < ts.len() && links(pairs@.take(n + 1), ts[t], ps[l].key())) by {
                    assert(listed(by_location@, l, t) <==> listed(old_by_location, l, t) || (l
                        == li && t == ti));
                    if 0 <= t < ts.len() {
                        assert(links(pairs@.take(n + 1), ts[t], ps[l].key()) <==> links(
                            pairs@.take(n as int),
                            ts[t],
                            ps[l].key(),
                        ) || (t == ti && l == li));
                    }
                }
            }
        }
        n = n + 1;
    }
    assert(pairs@.take(n as int) =~= pairs@);
    (by_tag, by_location)
}

} // verus!
