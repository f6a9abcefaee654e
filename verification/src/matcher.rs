//! An index from tags to locations and back, and the evaluation of queries
//! against it.
//!
//! Queries are set algebra over the universe of known locations: a tag
//! that is present selects the locations it occurs at, a tag that is absent
//! selects the rest of the universe, `And` intersects and `Or` unites.
use vstd::prelude::*;
use crate::ascending::{ascending_places, ascending_texts, find_tag, place_before, text_before};
use crate::ascending::{lemma_filter_all, lemma_filter_ascending, lemma_filter_member};
use crate::ascending::lemma_filter_next;
use crate::index::{collect, first_at, in_row, link, links, listed, names, rows_below};
use crate::location::{has_key, places, Key, Location, LocationView};
use crate::location::lemma_key_lt_irreflexive;
use crate::query::{PartialQuery, PartialQueryOperator, PartialQueryView, Query, QueryView};
use crate::tags::{Tag, TaggedLocation};
use crate::text::{lemma_text_lt_irreflexive, starts_with, texts};

verus! {

/// The values of the locations that a query returned.
pub open spec fn place_values(found: Seq<&Location>) -> Seq<LocationView> {
    found.map_values(|location: &Location| location@)
}

/// The texts of the tags that a suggestion returned.
pub open spec fn tag_values(found: Seq<&Tag>) -> Seq<Seq<char>> {
    found.map_values(|tag: &Tag| tag@)
}

/// Among the first `n` rows, one that is marked lists `x`.
spec fn reached(marks: Seq<bool>, rows: Seq<Vec<usize>>, n: int, x: int) -> bool {
    exists|r: int| 0 <= r < n && marks[r] && #[trigger] listed(rows, r, x)
}

/// `n` times `value`.
fn filled(n: usize, value: bool) -> (v: Vec<bool>)
    ensures
        v@.len() == n,
        forall|i: int| 0 <= i < n ==> #[trigger] v@[i] == value,
{
    let mut v: Vec<bool> = Vec::new();
    let mut i: usize = 0;
    while i < n
        invariant
            0 <= i <= n,
            v@.len() == i,
            forall|h: int| 0 <= h < i ==> #[trigger] v@[h] == value,
        decreases n - i,
    {
        v.push(value);
        i = i + 1;
    }
    v
}

/// Marks every number that `row` lists.
fn mark(marks: &mut Vec<bool>, row: &Vec<usize>)
    requires
        forall|x: int| in_row(row@, x) ==> x < old(marks)@.len(),
    ensures
        final(marks)@.len() == old(marks)@.len(),
        forall|x: int|
            0 <= x < old(marks)@.len() ==> (#[trigger] final(marks)@[x] <==> old(marks)@[x]
                || in_row(row@, x)),
{
    let mut k: usize = 0;
    while k < row.len()
        invariant
            0 <= k <= row@.len(),
            marks@.len() == old(marks)@.len(),
            forall|x: int| in_row(row@, x) ==> x < marks@.len(),
            forall|x: int|
                0 <= x < marks@.len() ==> (#[trigger] marks@[x] <==> old(marks)@[x] || in_row(
                    row@.take(k as int),
                    x,
                )),
        decreases row@.len() - k,
    {
        let ghost before = marks@;
        let x = row[k];
        assert(in_row(row@, x as int));
        marks[x] = true;
        assert forall|y: int| 0 <= y < marks@.len() implies (#[trigger] marks@[y] <==> old(
            marks,
        )@[y] || in_row(row@.take(k + 1), y)) by {
            let shorter = row@.take(k as int);
            let longer = row@.take(k + 1);
            assert(longer[k as int] == x);
            if in_row(shorter, y) {
                let h = choose|h: int| 0 <= h < shorter.len() && #[trigger] shorter[h] == y;
                assert(longer[h] == y);
            }
            if in_row(longer, y) && y != x {
                let h = choose|h: int| 0 <= h < longer.len() && #[trigger] longer[h] == y;
                assert(shorter[h] == y);
            }
        }
        k = k + 1;
    }
    assert(row@.take(k as int) =~= row@);
}

/// An index of tagged locations, built once and read-only afterwards. It
/// holds every tag and every location once, in ascending order, and two
/// inverted indices between them.
pub struct Matcher {
    tags: Vec<Tag>,
    locations: Vec<Location>,
    locations_by_tag: Vec<Vec<usize>>,
    tags_by_location: Vec<Vec<usize>>,
}

impl Matcher {
    /// The two tables are ascending, the two indices are inverse to each
    /// other, and nothing stands alone: every tag has a location and every
    /// location a tag.
    #[verifier::type_invariant]
    pub closed spec fn wf(&self) -> bool {
        &&& ascending_texts(texts(self.tags@))
        &&& ascending_places(places(self.locations@))
        &&& self.locations_by_tag@.len() == self.tags@.len()
        &&& self.tags_by_location@.len() == self.locations@.len()
        &&& rows_below(self.locations_by_tag@, self.locations@.len() as int)
        &&& rows_below(self.tags_by_location@, self.tags@.len() as int)
        &&& forall|ti: int, li: int|
            0 <= ti < self.tags@.len() && 0 <= li < self.locations@.len() ==> (#[trigger] listed(
                self.tags_by_location@,
                li,
                ti,
            ) <==> listed(self.locations_by_tag@, ti, li))
        &&& forall|ti: int|
            0 <= ti < self.tags@.len() ==> (#[trigger] self.locations_by_tag@[ti])@.len() > 0
        &&& forall|li: int|
            0 <= li < self.locations@.len() ==> (#[trigger] self.tags_by_location@[li])@.len() > 0
    }

    /// Every known tag, once, in ascending order.
    pub closed spec fn known_tags(&self) -> Seq<Seq<char>> {
        texts(self.tags@)
    }

    /// Every known location, once, in ascending order of file and address:
    /// the universe that negation is relative to.
    pub closed spec fn universe(&self) -> Seq<LocationView> {
        places(self.locations@)
    }

    /// Whether the index holds `tag` at the file and address `key`.
    pub closed spec fn tagged(&self, tag: Seq<char>, key: Key) -> bool {
        exists|ti: int, li: int|
            0 <= ti < self.tags@.len() && 0 <= li < self.locations@.len() && #[trigger] listed(
                self.locations_by_tag@,
                ti,
                li,
            ) && texts(self.tags@)[ti] == tag && places(self.locations@)[li].key() == key
    }

    /// Whether the location at `key` satisfies `query`. A tag is absent
    /// wherever the index does not hold it.
    pub open spec fn holds(&self, query: QueryView, key: Key) -> bool
        decreases query,
    {
        match query {
            QueryView::Present(tag) => self.tagged(tag, key),
            QueryView::Absent(tag) => !self.tagged(tag, key),
            QueryView::And(left, right) => self.holds(*left, key) && self.holds(*right, key),
            QueryView::Or(left, right) => self.holds(*left, key) || self.holds(*right, key),
        }
    }

    /// The test a location passes when it satisfies `query`.
    pub open spec fn satisfies(&self, query: QueryView) -> spec_fn(LocationView) -> bool {
        |place: LocationView| self.holds(query, place.key())
    }

    /// The known locations that satisfy `query`, in ascending order.
    pub open spec fn matching(&self, query: QueryView) -> Seq<LocationView> {
        self.universe().filter(self.satisfies(query))
    }

    /// Whether `tag` occurs at a known location that satisfies `query`.
    pub open spec fn occurs_with(&self, query: QueryView, tag: Seq<char>) -> bool {
        exists|place: LocationView|
            #[trigger] self.universe().contains(place) && self.holds(query, place.key())
                && self.tagged(tag, place.key())
    }

    /// Whether `tag` may extend `partial`: after `AND`, a tag that occurs at
    /// a location the query already matches; after `OR`, any tag. If a
    /// fragment was typed, the tag starts with it.
    pub open spec fn extends(&self, partial: PartialQueryView, tag: Seq<char>) -> bool {
        &&& match partial.operator {
            PartialQueryOperator::AND => self.occurs_with(partial.query, tag),
            PartialQueryOperator::OR => true,
        }
        &&& match partial.fragment {
            Some(fragment) => fragment.is_prefix_of(tag),
            None => true,
        }
    }

    /// The test a tag passes when it may extend `partial`.
    pub open spec fn extending(&self, partial: PartialQueryView) -> spec_fn(Seq<char>) -> bool {
        |tag: Seq<char>| self.extends(partial, tag)
    }

    /// The known tags that may extend `partial`, in ascending order.
    pub open spec fn suggestions(&self, partial: PartialQueryView) -> Seq<Seq<char>> {
        self.known_tags().filter(self.extending(partial))
    }

    /// Builds the index of `tagged_locations`. Repeated pairs collapse, and
    /// locations with the same file and address are one location, which
    /// keeps the extra data of the first of them.
    pub fn new(tagged_locations: Vec<TaggedLocation>) -> (matcher: Matcher)
        ensures
            matcher.wf(),
            ascending_texts(matcher.known_tags()),
            ascending_places(matcher.universe()),
            forall|tag: Seq<char>| #[trigger]
                matcher.known_tags().contains(tag) <==> names(tagged_locations@, tag),
            forall|place: LocationView| #[trigger]
                matcher.universe().contains(place) <==> first_at(tagged_locations@, place),
            forall|tag: Seq<char>, key: Key| #[trigger]
                matcher.tagged(tag, key) <==> links(tagged_locations@, tag, key),
    {
        let ghost pairs = tagged_locations@;
        let (tags, locations) = collect(&tagged_locations);
        let (locations_by_tag, tags_by_location) = link(&tagged_locations, &tags, &locations);
        let ghost ts = texts(tags@);
        let ghost ps = places(locations@);
        proof {
            assert forall|tag: Seq<char>, key: Key| links(pairs, tag, key) implies exists|
                ti: int,
                li: int,
            |
                0 <= ti < ts.len() && 0 <= li < ps.len() && #[trigger] listed(
                    locations_by_tag@,
                    ti,
                    li,
                ) && ts[ti] == tag && ps[li].key() == key by {
                let j = choose|j: int|
                    0 <= j < pairs.len() && (#[trigger] pairs[j]).0@ == tag && pairs[j].1@.key()
                        == key;
                assert(names(pairs, tag) && ts.contains(tag));
                let ti = choose|ti: int| 0 <= ti < ts.len() && ts[ti] == tag;
                assert(crate::index::visits(pairs, key) && has_key(ps, key));
                let li = choose|li: int| 0 <= li < ps.len() && (#[trigger] ps[li]).key() == key;
                assert(listed(locations_by_tag@, ti, li));
            }
            assert forall|ti: int| 0 <= ti < ts.len() implies (
            #[trigger] locations_by_tag@[ti])@.len() > 0 by {
                assert(ts.contains(ts[ti]) && names(pairs, ts[ti]));
                let j = choose|j: int| 0 <= j < pairs.len() && (#[trigger] pairs[j]).0@ == ts[ti];
                assert(links(pairs, ts[ti], pairs[j].1@.key()));
                let (t, l) = choose|t: int, l: int|
                    0 <= t < ts.len() && 0 <= l < ps.len() && #[trigger] listed(
                        locations_by_tag@,
                        t,
                        l,
                    ) && ts[t] == ts[ti] && ps[l].key() == pairs[j].1@.key();
                lemma_text_lt_irreflexive(ts[ti]);
                assert(t != ti ==> text_before()(ts[t], ts[ti]) || text_before()(ts[ti], ts[t]));
            }
            assert forall|li: int| 0 <= li < ps.len() implies (
            #[trigger] tags_by_location@[li])@.len() > 0 by {
                assert(ps.contains(ps[li]));
                assert(first_at(pairs, ps[li]));
                let j = choose|j: int| 0 <= j < pairs.len() && (#[trigger] pairs[j]).1@ == ps[li];
                assert(links(pairs, pairs[j].0@, ps[li].key()));
                let (t, l) = choose|t: int, l: int|
                    0 <= t < ts.len() && 0 <= l < ps.len() && #[trigger] listed(
                        locations_by_tag@,
                        t,
                        l,
                    ) && ts[t] == pairs[j].0@ && ps[l].key() == ps[li].key();
                lemma_key_lt_irreflexive(ps[li].key());
                assert(l != li ==> place_before()(ps[l], ps[li]) || place_before()(ps[li], ps[l]));
                assert(listed(tags_by_location@, li, t));
            }
        }
        Matcher { tags, locations, locations_by_tag, tags_by_location }
    }

    /// Returns the known locations that satisfy `query`, each once, in
    /// ascending order of file and address.
    pub fn execute(&self, query: Query) -> (found: Vec<&Location>)
        ensures
            place_values(found@) == self.matching(query@),
            ascending_places(place_values(found@)),
    {
        proof {
            use_type_invariant(self);
        }
        let hits = self.do_execute(&query);
        let ghost pred = self.satisfies(query@);
        let ghost universe = self.universe();
        let mut found: Vec<&Location> = Vec::new();
        let mut li: usize = 0;
        assert(place_values(found@) =~= universe.take(0).filter(pred)) by {
            reveal(Seq::filter);
        }
        while li < self.locations.len()
            invariant
                0 <= li <= self.locations@.len(),
                universe == places(self.locations@),
                hits@.len() == universe.len(),
                forall|i: int| 0 <= i < hits@.len() ==> #[trigger] hits@[i] == pred(universe[i]),
                place_values(found@) == universe.take(li as int).filter(pred),
            decreases self.locations@.len() - li,
        {
            proof {
                lemma_filter_next(universe, li as int, pred);
            }
            if hits[li] {
                let ghost before = found@;
                found.push(&self.locations[li]);
                assert(place_values(found@) =~= place_values(before).push(universe[li as int]));
            }
            li = li + 1;
        }
        proof {
            assert(universe.take(li as int) =~= universe);
            lemma_filter_ascending(universe, place_before(), pred);
        }
        found
    }

    /// Returns the known tags that may extend `partial_query`, each once, in
    /// ascending order.
    pub fn suggest(&self, partial_query: &PartialQuery) -> (found: Vec<&Tag>)
        ensures
            tag_values(found@) == self.suggestions(partial_query@),
            ascending_texts(tag_values(found@)),
    {
        proof {
            use_type_invariant(self);
        }
        let candidates = match partial_query.operator {
            PartialQueryOperator::AND => {
                let hits = self.do_execute(&partial_query.query);
                self.tags_at(&hits, Ghost(partial_query.query@))
            },
            PartialQueryOperator::OR => self.all_tags(),
        };
        let ghost partial = partial_query@;
        let ghost pred = self.extending(partial);
        let ghost known = self.known_tags();
        let mut found: Vec<&Tag> = Vec::new();
        let mut ti: usize = 0;
        assert(tag_values(found@) =~= known.take(0).filter(pred)) by {
            reveal(Seq::filter);
        }
        while ti < self.tags.len()
            invariant
                0 <= ti <= self.tags@.len(),
                known == texts(self.tags@),
                partial == partial_query@,
                pred == self.extending(partial),
                candidates@.len() == known.len(),
                forall|i: int|
                    0 <= i < candidates@.len() ==> #[trigger] candidates@[i] == match partial.operator {
                        PartialQueryOperator::AND => self.occurs_with(partial.query, known[i]),
                        PartialQueryOperator::OR => true,
                    },
                tag_values(found@) == known.take(ti as int).filter(pred),
            decreases self.tags@.len() - ti,
        {
            let fits = match &partial_query.fragment {
                Some(fragment) => starts_with(self.tags[ti].as_str(), fragment.as_str()),
                None => true,
            };
            proof {
                lemma_filter_next(known, ti as int, pred);
                assert(pred(known[ti as int]) == (candidates@[ti as int] && fits));
            }
            if candidates[ti] && fits {
                let ghost before = found@;
                found.push(&self.tags[ti]);
                assert(tag_values(found@) =~= tag_values(before).push(known[ti as int]));
            }
            ti = ti + 1;
        }
        proof {
            assert(known.take(ti as int) =~= known);
            lemma_filter_ascending(known, text_before(), pred);
        }
        found
    }

    /// The index holds tag number `ti` at location number `li` exactly if
    /// the row of the tag lists the location.
    proof fn lemma_tagged_at(&self, ti: int, li: int)
        requires
            self.wf(),
            0 <= ti < self.tags@.len(),
            0 <= li < self.locations@.len(),
        ensures
            self.tagged(self.known_tags()[ti], self.universe()[li].key()) <==> listed(
                self.locations_by_tag@,
                ti,
                li,
            ),
    {
        let ts = self.known_tags();
        let ps = self.universe();
        if self.tagged(ts[ti], ps[li].key()) {
            let (t, l) = choose|t: int, l: int|
                0 <= t < ts.len() && 0 <= l < ps.len() && #[trigger] listed(
                    self.locations_by_tag@,
                    t,
                    l,
                ) && ts[t] == ts[ti] && ps[l].key() == ps[li].key();
            lemma_text_lt_irreflexive(ts[ti]);
            lemma_key_lt_irreflexive(ps[li].key());
            assert(t != ti ==> text_before()(ts[t], ts[ti]) || text_before()(ts[ti], ts[t]));
            assert(l != li ==> place_before()(ps[l], ps[li]) || place_before()(ps[li], ps[l]));
        }
    }

    /// For each known location, in order, whether it satisfies `query`.
    fn do_execute(&self, query: &Query) -> (hits: Vec<bool>)
        ensures
            hits@.len() == self.universe().len(),
            forall|li: int|
                0 <= li < hits@.len() ==> #[trigger] hits@[li] == self.holds(
                    query@,
                    self.universe()[li].key(),
                ),
        decreases query,
    {
        match query {
            Query::Present(tag) => self.locations_of(tag.as_str()),
            Query::Absent(tag) => {
                let mut hits = self.all_locations();
                let present = self.locations_of(tag.as_str());
                let mut li: usize = 0;
                while li < hits.len()
                    invariant
                        0 <= li <= hits@.len(),
                        present@.len() == hits@.len(),
                        forall|i: int| 0 <= i < li ==> #[trigger] hits@[i] == !present@[i],
                        forall|i: int| li <= i < hits@.len() ==> #[trigger] hits@[i],
                    decreases hits@.len() - li,
                {
                    if present[li] {
                        hits[li] = false;
                    }
                    li = li + 1;
                }
                hits
            },
            Query::And(left, right) => {
                let mut hits = self.do_execute(left);
                let other = self.do_execute(right);
                let ghost first = hits@;
                let mut li: usize = 0;
                while li < hits.len()
                    invariant
                        0 <= li <= hits@.len(),
                        first.len() == hits@.len(),
                        other@.len() == hits@.len(),
                        forall|i: int|
                            0 <= i < li ==> #[trigger] hits@[i] == (first[i] && other@[i]),
                        forall|i: int| li <= i < hits@.len() ==> #[trigger] hits@[i] == first[i],
                    decreases hits@.len() - li,
                {
                    if !other[li] {
                        hits[li] = false;
                    }
                    li = li + 1;
                }
                hits
            },
            Query::Or(left, right) => {
                let mut hits = self.do_execute(left);
                let other = self.do_execute(right);
                let ghost first = hits@;
                let mut li: usize = 0;
                while li < hits.len()
                    invariant
                        0 <= li <= hits@.len(),
                        first.len() == hits@.len(),
                        other@.len() == hits@.len(),
                        forall|i: int|
                            0 <= i < li ==> #[trigger] hits@[i] == (first[i] || other@[i]),
                        forall|i: int| li <= i < hits@.len() ==> #[trigger] hits@[i] == first[i],
                    decreases hits@.len() - li,
                {
                    if other[li] {
                        hits[li] = true;
                    }
                    li = li + 1;
                }
                hits
            },
        }
    }

    /// For each known location, in order, whether the index holds `tag`
    /// there. An unknown tag is nowhere.
    fn locations_of(&self, tag: &str) -> (hits: Vec<bool>)
        ensures
            hits@.len() == self.universe().len(),
            forall|li: int|
                0 <= li < hits@.len() ==> #[trigger] hits@[li] == self.tagged(
                    tag@,
                    self.universe()[li].key(),
                ),
    {
        proof {
            use_type_invariant(self);
        }
        let mut hits = filled(self.locations.len(), false);
        match find_tag(&self.tags, tag) {
            Ok(ti) => {
                assert forall|x: int| in_row(self.locations_by_tag@[ti as int]@, x) implies x
                    < hits@.len() by {
                    assert(listed(self.locations_by_tag@, ti as int, x));
                }
                mark(&mut hits, &self.locations_by_tag[ti]);
                assert forall|li: int| 0 <= li < hits@.len() implies #[trigger] hits@[li]
                    == self.tagged(tag@, self.universe()[li].key()) by {
                    self.lemma_tagged_at(ti as int, li);
                    assert(hits@[li] <==> listed(self.locations_by_tag@, ti as int, li));
                }
            },
            Err(_) => {
                assert forall|li: int| 0 <= li < hits@.len() implies !self.tagged(
                    tag@,
                    self.universe()[li].key(),
                ) by {
                    lemma_text_lt_irreflexive(tag@);
                }
            },
        }
        hits
    }

    /// For each known tag, in order, whether it occurs at a location that
    /// `hits` marks: at one that satisfies `query`.
    fn tags_at(&self, hits: &Vec<bool>, Ghost(query): Ghost<QueryView>) -> (marks: Vec<bool>)
        requires
            hits@.len() == self.universe().len(),
            forall|li: int|
                0 <= li < hits@.len() ==> #[trigger] hits@[li] == self.holds(
                    query,
                    self.universe()[li].key(),
                ),
        ensures
            marks@.len() == self.known_tags().len(),
            forall|ti: int|
                0 <= ti < marks@.len() ==> #[trigger] marks@[ti] == self.occurs_with(
                    query,
                    self.known_tags()[ti],
                ),
    {
        proof {
            use_type_invariant(self);
        }
        let ghost rows = self.tags_by_location@;
        let mut marks = filled(self.tags.len(), false);
        let mut li: usize = 0;
        while li < self.locations.len()
            invariant
                0 <= li <= self.locations@.len(),
                self.wf(),
                rows == self.tags_by_location@,
                hits@.len() == self.locations@.len(),
                marks@.len() == self.tags@.len(),
                forall|ti: int|
                    0 <= ti < marks@.len() ==> #[trigger] marks@[ti] == reached(
                        hits@,
                        rows,
                        li as int,
                        ti,
                    ),
            decreases self.locations@.len() - li,
        {
            let ghost before = marks@;
            if hits[li] {
                assert forall|x: int| in_row(rows[li as int]@, x) implies x < marks@.len() by {
                    assert(listed(rows, li as int, x));
                }
                mark(&mut marks, &self.tags_by_location[li]);
            }
            assert forall|ti: int| 0 <= ti < marks@.len() implies #[trigger] marks@[ti] == reached(
                hits@,
                rows,
                li + 1,
                ti,
            ) by {
                assert(marks@[ti] <==> before[ti] || (hits@[li as int] && listed(
                    rows,
                    li as int,
                    ti,
                )));
                if reached(hits@, rows, li as int, ti) {
                    let r = choose|r: int| 0 <= r < li && hits@[r] && #[trigger] listed(rows, r, ti);
                    assert(0 <= r < li + 1);
                }
                if reached(hits@, rows, li + 1, ti) {
                    let r = choose|r: int|
                        0 <= r < li + 1 && hits@[r] && #[trigger] listed(rows, r, ti);
                    if r < li {
                        assert(reached(hits@, rows, li as int, ti));
                    }
                }
            }
            li = li + 1;
        }
        proof {
            let ts = self.known_tags();
            let ps = self.universe();
            assert forall|ti: int| 0 <= ti < marks@.len() implies #[trigger] marks@[ti]
                == self.occurs_with(query, ts[ti]) by {
                if reached(hits@, rows, ps.len() as int, ti) {
                    let r = choose|r: int|
                        0 <= r < ps.len() && hits@[r] && #[trigger] listed(rows, r, ti);
                    self.lemma_tagged_at(ti, r);
                    assert(ps.contains(ps[r]));
                }
                if self.occurs_with(query, ts[ti]) {
                    let place = choose|place: LocationView|
                        #[trigger] ps.contains(place) && self.holds(query, place.key())
                            && self.tagged(ts[ti], place.key());
                    let r = choose|r: int| 0 <= r < ps.len() && ps[r] == place;
                    self.lemma_tagged_at(ti, r);
                    assert(listed(rows, r, ti));
                }
            }
        }
        marks
    }

    /// The universe: every known location is marked.
    fn all_locations(&self) -> (hits: Vec<bool>)
        ensures
            hits@.len() == self.universe().len(),
            forall|li: int| 0 <= li < hits@.len() ==> #[trigger] hits@[li],
    {
        filled(self.locations.len(), true)
    }

    /// Every known tag is marked.
    fn all_tags(&self) -> (marks: Vec<bool>)
        ensures
            marks@.len() == self.known_tags().len(),
            forall|ti: int| 0 <= ti < marks@.len() ==> #[trigger] marks@[ti],
    {
        filled(self.tags.len(), true)
    }
}

/// A tag that the index does not know is present nowhere: the query for it
/// matches no location.
pub proof fn unknown_tag_matches_nothing(matcher: Matcher, tag: Seq<char>)
    requires
        matcher.wf(),
        !matcher.known_tags().contains(tag),
    ensures
        matcher.matching(QueryView::Present(tag)) == Seq::<LocationView>::empty(),
{
    let pred = matcher.satisfies(QueryView::Present(tag));
    let universe = matcher.universe();
    assert forall|i: int| 0 <= i < universe.len() implies !pred(#[trigger] universe[i]) by {
        if matcher.tagged(tag, universe[i].key()) {
            let (t, l) = choose|t: int, l: int|
                0 <= t < matcher.tags@.len() && 0 <= l < matcher.locations@.len()
                    && #[trigger] listed(matcher.locations_by_tag@, t, l) && texts(
                    matcher.tags@,
                )[t] == tag && places(matcher.locations@)[l].key() == universe[i].key();
            assert(matcher.known_tags()[t] == tag);
        }
    }
    universe.lemma_all_neg_filter_empty(pred);
    assert(universe.filter(pred) =~= Seq::<LocationView>::empty());
}

/// The locations where a tag is absent are the complement, within the
/// universe of known locations, of those where it is present: the two
/// results share no location, and together they are the universe.
pub proof fn absent_complements_present(matcher: Matcher, tag: Seq<char>)
    ensures
        matcher.matching(QueryView::Present(tag)).to_set().disjoint(
            matcher.matching(QueryView::Absent(tag)).to_set(),
        ),
        matcher.matching(QueryView::Present(tag)).to_set().union(
            matcher.matching(QueryView::Absent(tag)).to_set(),
        ) == matcher.universe().to_set(),
{
    let universe = matcher.universe();
    let present = matcher.matching(QueryView::Present(tag));
    let absent = matcher.matching(QueryView::Absent(tag));
    assert forall|place: LocationView| #[trigger]
        present.contains(place) <==> universe.contains(place) && matcher.tagged(
            tag,
            place.key(),
        ) by {
        lemma_filter_member(universe, matcher.satisfies(QueryView::Present(tag)), place);
    }
    assert forall|place: LocationView| #[trigger]
        absent.contains(place) <==> universe.contains(place) && !matcher.tagged(
            tag,
            place.key(),
        ) by {
        lemma_filter_member(universe, matcher.satisfies(QueryView::Absent(tag)), place);
    }
    assert forall|place: LocationView|
        present.to_set().union(absent.to_set()).contains(place) <==> universe.to_set().contains(
            place,
        ) by {
        assert(present.contains(place) || absent.contains(place) <==> universe.contains(place));
    }
    assert(present.to_set().union(absent.to_set()) =~= universe.to_set());
}

/// The operands of `And` may change places: both orders match the same
/// locations.
pub proof fn and_is_order_independent(matcher: Matcher, left: QueryView, right: QueryView)
    ensures
        matcher.matching(QueryView::And(Box::new(left), Box::new(right))) == matcher.matching(
            QueryView::And(Box::new(right), Box::new(left)),
        ),
{
    let one = matcher.satisfies(QueryView::And(Box::new(left), Box::new(right)));
    let other = matcher.satisfies(QueryView::And(Box::new(right), Box::new(left)));
    assert(one =~= other);
}

/// Locations with one file and address are one location: the universe holds
/// no two of them, and where two tags lie at one file and address, the
/// query for both matches the location there.
pub proof fn same_file_and_address_is_one_location(
    matcher: Matcher,
    first: Seq<char>,
    second: Seq<char>,
    key: Key,
)
    requires
        matcher.wf(),
        matcher.tagged(first, key),
        matcher.tagged(second, key),
    ensures
        forall|i: int, j: int|
            0 <= i < matcher.universe().len() && 0 <= j < matcher.universe().len() && (
            #[trigger] matcher.universe()[i]).key() == (#[trigger] matcher.universe()[j]).key()
                ==> i == j,
        has_key(
            matcher.matching(
                QueryView::And(
                    Box::new(QueryView::Present(first)),
                    Box::new(QueryView::Present(second)),
                ),
            ),
            key,
        ),
{
    let ps = matcher.universe();
    let both = QueryView::And(
        Box::new(QueryView::Present(first)),
        Box::new(QueryView::Present(second)),
    );
    assert forall|i: int, j: int|
        0 <= i < ps.len() && 0 <= j < ps.len() && (#[trigger] ps[i]).key() == (
        #[trigger] ps[j]).key() implies i == j by {
        lemma_key_lt_irreflexive(ps[i].key());
        assert(i != j ==> place_before()(ps[i], ps[j]) || place_before()(ps[j], ps[i]));
    }
    universe_is_what_is_tagged(matcher);
    let li = choose|li: int| 0 <= li < ps.len() && (#[trigger] ps[li]).key() == key;
    assert(ps.contains(ps[li]));
    assert(matcher.holds(QueryView::Present(first), key));
    assert(matcher.holds(QueryView::Present(second), key));
    assert(matcher.holds(both, key));
    lemma_filter_member(ps, matcher.satisfies(both), ps[li]);
    let found = matcher.matching(both);
    assert(found.contains(ps[li]));
    let at = choose|at: int| 0 <= at < found.len() && found[at] == ps[li];
    assert(found[at].key() == key);
}

/// What a query matches depends on its tree alone: a query and a copy of
/// it, or the same query run again, match the same locations in the same
/// order.
pub proof fn same_tree_same_matches(matcher: Matcher, first: Query, second: Query)
    requires
        first@ == second@,
    ensures
        matcher.matching(first@) == matcher.matching(second@),
{
}

/// After `OR` any tag may follow: without a fragment the suggestions are
/// all known tags, whatever the query.
pub proof fn or_suggests_every_tag(matcher: Matcher, query: QueryView)
    ensures
        matcher.suggestions(
            PartialQueryView { query, operator: PartialQueryOperator::OR, fragment: None },
        ) == matcher.known_tags(),
{
    let partial = PartialQueryView { query, operator: PartialQueryOperator::OR, fragment: None };
    lemma_filter_all(matcher.known_tags(), matcher.extending(partial));
}

/// The universe is what is tagged: every known location carries a known
/// tag, and whatever the index holds lies at a known location under a known
/// tag.
pub proof fn universe_is_what_is_tagged(matcher: Matcher)
    requires
        matcher.wf(),
    ensures
        forall|place: LocationView| #[trigger]
            matcher.universe().contains(place) ==> exists|tag: Seq<char>|
                matcher.known_tags().contains(tag) && #[trigger] matcher.tagged(tag, place.key()),
        forall|tag: Seq<char>, key: Key| #[trigger]
            matcher.tagged(tag, key) ==> matcher.known_tags().contains(tag) && has_key(
                matcher.universe(),
                key,
            ),
{
    let ts = matcher.known_tags();
    let ps = matcher.universe();
    assert forall|place: LocationView| #[trigger] ps.contains(place) implies exists|
        tag: Seq<char>,
    |
        ts.contains(tag) && #[trigger] matcher.tagged(tag, place.key()) by {
        let li = choose|li: int| 0 <= li < ps.len() && ps[li] == place;
        let row = matcher.tags_by_location@[li]@;
        assert(row.len() > 0);
        let ti = row[0] as int;
        assert(listed(matcher.tags_by_location@, li, ti));
        matcher.lemma_tagged_at(ti, li);
        assert(ts.contains(ts[ti]));
    }
    assert forall|tag: Seq<char>, key: Key| #[trigger] matcher.tagged(tag, key) implies ts.contains(
        tag,
    ) && has_key(ps, key) by {
        let (t, l) = choose|t: int, l: int|
            0 <= t < ts.len() && 0 <= l < ps.len() && #[trigger] listed(
                matcher.locations_by_tag@,
                t,
                l,
            ) && ts[t] == tag && ps[l].key() == key;
        assert(ts[t] == tag);
        assert(ps[l].key() == key);
    }
}

} // verus!
