//! Cities and the distance metric between them.

use vstd::prelude::*;
use vstd::hash_set::StringHashSet;
use vstd::string::{StrSliceExecFns, StringExecFns};
use crate::parallel::sum_of_legs;
use crate::text::{decimal, lemma_decimal_is_digits, lemma_decimal_is_injective, push_decimal};

verus! {

/// One stop of a tour. The coordinates are fixed-point numbers: the caller
/// picks the unit (for instance 1e-7 of a degree) and uses it throughout.
pub struct City {
    pub name: String,
    pub region: String,
    pub latitude: i32,
    pub longitude: i32,
}

/// The mathematical value of a [`City`].
pub struct CityView {
    pub name: Seq<char>,
    pub region: Seq<char>,
    pub latitude: int,
    pub longitude: int,
}

impl View for City {
    type V = CityView;

    open spec fn view(&self) -> CityView {
        CityView {
            name: self.name@,
            region: self.region@,
            latitude: self.latitude as int,
            longitude: self.longitude as int,
        }
    }
}

impl DeepView for City {
    type V = CityView;

    open spec fn deep_view(&self) -> CityView {
        self@
    }
}

impl Clone for City {
    fn clone(&self) -> (copy: Self)
        ensures
            copy@ == self@,
    {
        City {
            name: self.name.clone(),
            region: self.region.clone(),
            latitude: self.latitude,
            longitude: self.longitude,
        }
    }
}

/// The distance between two coordinates on one axis.
pub open spec fn gap(a: int, b: int) -> nat {
    if a <= b {
        (b - a) as nat
    } else {
        (a - b) as nat
    }
}

/// The octagonal distance between two cities, in twentieths of the
/// coordinate unit: the blend `0.4 * (dx + dy) + 0.55 * max(dx, dy)` of the
/// Manhattan and the Chebyshev distance, scaled by 20 so that both weights
/// are whole numbers.
pub open spec fn pair_distance(a: CityView, b: CityView) -> nat {
    let dx = gap(a.latitude, b.latitude);
    let dy = gap(a.longitude, b.longitude);
    8 * (dx + dy) + 11 * (if dx >= dy { dx } else { dy })
}

impl City {
    /// A city of the given name and region at the given coordinates.
    pub fn new(name: String, region: String, latitude: i32, longitude: i32) -> (city: City)
        ensures
            city@ == (CityView {
                name: name@,
                region: region@,
                latitude: latitude as int,
                longitude: longitude as int,
            }),
    {
        City { name, region, latitude, longitude }
    }

    /// Whether two cities are the same for the purpose of counting distinct
    /// stops: they are when name and region agree.
    pub fn same_place(&self, other: &City) -> (same: bool)
        ensures
            same == (place(self@) == place(other@)),
    {
        self.name == other.name && self.region == other.region
    }

    /// The key of the place of the city.
    pub fn place_key(&self) -> (key: String)
        ensures
            key@ == place_key(place(self@)),
    {
        let mut key = String::new();
        let length = self.name.as_str().unicode_len();
        push_decimal(&mut key, length as u128);
        key.append(":");
        key.append(self.name.as_str());
        key.append(self.region.as_str());
        proof {
            reveal_strlit(":");
            assert(":"@ =~= seq![':']);
            assert(key@ =~= place_key(place(self@)));
        }
        key
    }

    /// The octagonal distance from `self` to `b`.
    pub fn octagonal_distance(&self, b: &City) -> (d: u128)
        ensures
            d == pair_distance(self@, b@),
    {
        let dx = axis_gap(self.latitude, b.latitude);
        let dy = axis_gap(self.longitude, b.longitude);
        let longer = if dx >= dy { dx } else { dy };
        8 * (dx + dy) + 11 * longer
    }
}

/// What identifies a city: its name and its region.
pub open spec fn place(c: CityView) -> (Seq<char>, Seq<char>) {
    (c.name, c.region)
}

fn axis_gap(a: i32, b: i32) -> (d: u128)
    ensures
        d == gap(a as int, b as int),
        d <= 0xffff_ffff,
{
    if a <= b {
        (b as i64 - a as i64) as u128
    } else {
        (a as i64 - b as i64) as u128
    }
}

/// The metric is symmetric, vanishes between a city and itself, and
/// vanishes only between cities with the same coordinates.
pub proof fn lemma_pair_distance_metric(a: CityView, b: CityView)
    ensures
        pair_distance(a, b) == pair_distance(b, a),
        pair_distance(a, a) == 0,
        pair_distance(a, b) == 0 <==> (a.latitude == b.latitude && a.longitude == b.longitude),
{
}

/// The length of a tour: the sum of the distances between each stop and the
/// next. A tour of fewer than two stops has length zero.
pub open spec fn tour_distance(cities: Seq<CityView>) -> nat
    decreases cities.len(),
{
    if cities.len() < 2 {
        0
    } else {
        tour_distance(cities.drop_last()) + pair_distance(
            cities[cities.len() - 2],
            cities.last(),
        )
    }
}

/// The text that stands for a place in a set of places: the length of the
/// name as a decimal numeral, a colon, the name and the region. The length
/// in front tells where the name ends, so that two places have the same
/// key only if they are the same place.
pub open spec fn place_key(p: (Seq<char>, Seq<char>)) -> Seq<char> {
    decimal(p.0.len()) + seq![':'] + p.0 + p.1
}

/// The places of the stops of a tour, in tour order.
pub open spec fn places(cities: Seq<CityView>) -> Seq<(Seq<char>, Seq<char>)> {
    cities.map_values(|c: CityView| place(c))
}

/// The number of distinct places among the stops of a tour.
pub open spec fn distinct_places(cities: Seq<CityView>) -> nat {
    places(cities).to_set().len()
}

/// The catalog for a list of cities: the list with its first city once more
/// at the end.
pub open spec fn closed(cities: Seq<CityView>) -> Seq<CityView> {
    cities.push(cities[0])
}

/// Whether some stop of `cities` is at the place of `c`.
pub open spec fn visits(cities: Seq<CityView>, c: CityView) -> bool {
    exists|k: int| 0 <= k < cities.len() && place(#[trigger] cities[k]) == place(c)
}

/// Two places with the same key are the same place.
pub proof fn lemma_place_key_is_injective(p: (Seq<char>, Seq<char>), q: (Seq<char>, Seq<char>))
    requires
        place_key(p) == place_key(q),
    ensures
        p == q,
{
    let a = decimal(p.0.len());
    let b = decimal(q.0.len());
    let k = place_key(p);
    let l = place_key(q);
    lemma_decimal_is_digits(p.0.len());
    lemma_decimal_is_digits(q.0.len());
    // the first colon stands behind the numeral in both
    assert(k[a.len() as int] == ':');
    assert(l[b.len() as int] == ':');
    if a.len() < b.len() {
        assert(l[a.len() as int] == b[a.len() as int]);
    }
    if b.len() < a.len() {
        assert(k[b.len() as int] == a[b.len() as int]);
    }
    assert(a =~= b) by {
        assert forall|i: int| 0 <= i < a.len() implies a[i] == b[i] by {
            assert(k[i] == a[i]);
            assert(l[i] == b[i]);
        }
    }
    lemma_decimal_is_injective(p.0.len(), q.0.len());
    // so the names end at the same position
    let start = a.len() + 1;
    assert(p.0 =~= q.0) by {
        assert forall|i: int| 0 <= i < p.0.len() implies p.0[i] == q.0[i] by {
            assert(k[start + i] == p.0[i]);
            assert(l[start + i] == q.0[i]);
        }
    }
    assert(k.len() == l.len());
    assert(p.1 =~= q.1) by {
        assert forall|i: int| 0 <= i < p.1.len() implies p.1[i] == q.1[i] by {
            assert(k[start + p.0.len() + i] == p.1[i]);
            assert(l[start + p.0.len() + i] == q.1[i]);
        }
    }
}

/// The keys of the places of a tour, as a set.
pub open spec fn place_keys(cities: Seq<CityView>) -> Set<Seq<char>> {
    places(cities).to_set().map(|p: (Seq<char>, Seq<char>)| place_key(p))
}

/// There are as many keys as distinct places.
pub proof fn lemma_place_keys_count(cities: Seq<CityView>)
    ensures
        place_keys(cities).finite(),
        place_keys(cities).len() == distinct_places(cities),
{
    let key = |p: (Seq<char>, Seq<char>)| place_key(p);
    let all = places(cities).to_set();
    vstd::seq_lib::seq_to_set_is_finite(places(cities));
    assert(vstd::relations::injective_on(key, all)) by {
        assert forall|p: (Seq<char>, Seq<char>), q: (Seq<char>, Seq<char>)|
            all.contains(p) && all.contains(q) && #[trigger] key(p) == #[trigger] key(
                q,
            ) implies p == q by {
            lemma_place_key_is_injective(p, q);
        }
    }
    vstd::set_lib::lemma_map_size(all, place_keys(cities), key);
}

/// One more stop adds its key to the keys.
pub proof fn lemma_place_keys_push(cities: Seq<CityView>, c: CityView)
    ensures
        place_keys(cities.push(c)) == place_keys(cities).insert(place_key(place(c))),
{
    let before = places(cities);
    let after = places(cities.push(c));
    let grown = place_keys(cities).insert(place_key(place(c)));
    assert(after =~= before.push(place(c)));
    assert forall|x: Seq<char>| place_keys(cities.push(c)).contains(x) implies grown.contains(
        x,
    ) by {
        let p = choose|p: (Seq<char>, Seq<char>)| after.to_set().contains(p) && x == place_key(p);
        let i = choose|i: int| 0 <= i < after.len() && after[i] == p;
        if i < before.len() {
            assert(before[i] == p);
            assert(before.to_set().contains(p));
        }
    }
    assert forall|x: Seq<char>| grown.contains(x) implies place_keys(cities.push(c)).contains(
        x,
    ) by {
        if x == place_key(place(c)) {
            assert(after[before.len() as int] == place(c));
            assert(after.to_set().contains(place(c)));
        } else {
            let p = choose|p: (Seq<char>, Seq<char>)|
                before.to_set().contains(p) && x == place_key(p);
            let i = choose|i: int| 0 <= i < before.len() && before[i] == p;
            assert(after[i] == p);
            assert(after.to_set().contains(p));
        }
    }
    assert(place_keys(cities.push(c)) =~= grown);
}

/// Counting distinct places stop by stop: one more stop adds one to the
/// count exactly when no earlier stop is at its place.
pub proof fn lemma_distinct_places_push(cities: Seq<CityView>, c: CityView)
    ensures
        distinct_places(cities.push(c)) == distinct_places(cities) + (if visits(cities, c) {
            0nat
        } else {
            1nat
        }),
        distinct_places(cities) <= cities.len(),
{
    broadcast use vstd::seq_lib::seq_to_set_is_finite;

    let before = places(cities);
    let after = places(cities.push(c));
    assert(after.to_set() =~= before.to_set().insert(place(c))) by {
        let grown = before.to_set().insert(place(c));
        assert forall|x: (Seq<char>, Seq<char>)| after.to_set().contains(x) implies grown.contains(
            x,
        ) by {
            let i = choose|i: int| 0 <= i < after.len() && after[i] == x;
            if i < before.len() {
                assert(before[i] == x);
            }
        }
        assert forall|x: (Seq<char>, Seq<char>)| grown.contains(x) implies after.to_set().contains(
            x,
        ) by {
            if x == place(c) {
                assert(after[before.len() as int] == x);
            } else {
                let i = choose|i: int| 0 <= i < before.len() && before[i] == x;
                assert(after[i] == x);
            }
        }
    }
    if visits(cities, c) {
        let k = choose|k: int| 0 <= k < cities.len() && place(#[trigger] cities[k]) == place(c);
        assert(before[k] == place(c));
    }
    before.lemma_cardinality_of_set();
}

/// Two tours with the same stops, each as often in one as in the other,
/// have the same number of distinct places.
pub proof fn lemma_distinct_places_of_rearrangement(tour: Seq<CityView>, other: Seq<CityView>)
    requires
        tour.to_multiset() == other.to_multiset(),
    ensures
        tour.len() == other.len(),
        distinct_places(tour) == distinct_places(other),
{
    broadcast use vstd::seq_lib::to_multiset_contains;

    vstd::seq_lib::to_multiset_len(tour);
    vstd::seq_lib::to_multiset_len(other);
    assert forall|x: (Seq<char>, Seq<char>)| places(tour).to_set().contains(x) <==> places(
        other,
    ).to_set().contains(x) by {
        if places(tour).to_set().contains(x) {
            let i = choose|i: int| 0 <= i < places(tour).len() && places(tour)[i] == x;
            assert(other.to_multiset().count(tour[i]) > 0);
            let j = choose|j: int| 0 <= j < other.len() && other[j] == tour[i];
            assert(places(other)[j] == x);
        }
        if places(other).to_set().contains(x) {
            let i = choose|i: int| 0 <= i < places(other).len() && places(other)[i] == x;
            assert(tour.to_multiset().count(other[i]) > 0);
            let j = choose|j: int| 0 <= j < tour.len() && tour[j] == other[i];
            assert(places(tour)[j] == x);
        }
    }
    assert(places(tour).to_set() =~= places(other).to_set());
}

/// A tour over the catalog of cities at different places has exactly one
/// stop that repeats an earlier one, in whatever order it visits them.
pub proof fn lemma_closed_tour_repeats_once(cities: Seq<CityView>, tour: Seq<CityView>)
    requires
        cities.len() > 0,
        places(cities).no_duplicates(),
        tour.to_multiset() == closed(cities).to_multiset(),
    ensures
        distinct_places(tour) + 1 == tour.len(),
{
    lemma_distinct_places_of_rearrangement(tour, closed(cities));
    lemma_distinct_places_push(cities, cities[0]);
    places(cities).unique_seq_to_set();
}

/// A tour whose stops are all at different places has as many distinct
/// places as stops.
pub proof fn lemma_all_distinct(tour: Seq<CityView>)
    requires
        places(tour).no_duplicates(),
    ensures
        distinct_places(tour) == tour.len(),
{
    places(tour).unique_seq_to_set();
}

/// A tour is never longer than its number of legs times the distance
/// between two opposite corners of the coordinate range.
pub proof fn lemma_tour_distance_bound(cities: Seq<CityView>)
    requires
        forall|i: int|
            0 <= i < cities.len() ==> {
                &&& i32::MIN <= (#[trigger] cities[i]).latitude <= i32::MAX
                &&& i32::MIN <= cities[i].longitude <= i32::MAX
            },
    ensures
        tour_distance(cities) <= cities.len() * (27 * 0xffff_ffff),
    decreases cities.len(),
{
    if cities.len() >= 2 {
        let rest = cities.drop_last();
        lemma_tour_distance_bound(rest);
        assert(rest.len() * (27 * 0xffff_ffff) + 27 * 0xffff_ffff == cities.len() * (27
            * 0xffff_ffff)) by (nonlinear_arith)
            requires
                rest.len() + 1 == cities.len(),
        ;
    }
}

/// A list of stops that has a length as a tour.
pub trait Distance: DeepView<V = Seq<CityView>> {
    /// The length of the tour that visits the stops in order.
    fn distance(&self) -> (d: u128)
        ensures
            d == tour_distance(self.deep_view()),
    ;
}

impl Distance for Vec<City> {
    fn distance(&self) -> (d: u128) {
        proof {
            lemma_tour_distance_bound(self.deep_view());
            assert(self.len() * (27 * 0xffff_ffff) <= u128::MAX) by (nonlinear_arith)
                requires
                    self.len() <= u64::MAX,
            ;
        }
        sum_of_legs(self)
    }
}

/// A list of stops of which some may be at the same place.
pub trait Unique: DeepView<V = Seq<CityView>> {
    /// The number of distinct places among the stops. It is counted by
    /// putting the key of every stop's place into a hash set.
    fn uniqueness_count(&self) -> (count: usize)
        ensures
            count == distinct_places(self.deep_view()),
            count <= self.deep_view().len(),
    ;
}

impl Unique for Vec<City> {
    fn uniqueness_count(&self) -> (count: usize) {
        let ghost all = self.deep_view();
        let mut seen = StringHashSet::new();
        let mut i: usize = 0;
        assert(place_keys(all.take(0)) =~= Set::<Seq<char>>::empty());
        while i < self.len()
            invariant
                i <= self.len(),
                all == self.deep_view(),
                seen@ == place_keys(all.take(i as int)),
            decreases self.len() - i,
        {
            seen.insert(self[i].place_key());
            proof {
                lemma_place_keys_push(all.take(i as int), all[i as int]);
                assert(all.take(i as int + 1) =~= all.take(i as int).push(all[i as int]));
            }
            i += 1;
        }
        proof {
            assert(all.take(i as int) =~= all);
            lemma_place_keys_count(all);
            places(all).lemma_cardinality_of_set();
        }
        seen.len()
    }
}

/// Closes the loop: the first city is visited once more at the end.
pub fn close_loop(cities: Vec<City>) -> (catalog: Vec<City>)
    requires
        cities.len() > 0,
    ensures
        catalog.deep_view() == closed(cities.deep_view()),
{
    let mut catalog = cities;
    let first = catalog[0].clone();
    catalog.push(first);
    catalog
}

} // verus!
