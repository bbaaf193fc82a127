//! Satellite categories, TLE catalogues, and the parsing of CelesTrak's
//! three-line element text.

use vstd::prelude::*;
use vstd::utf8::encode_utf8;
use sgp4::{Constants, Elements, ElementsError, TleError};
use crate::text::{lines, string_views, split_lines, trim, trimmed};

verus! {

/// Groups of tracked satellites available for download from CelesTrak.
#[derive(Clone, Copy, Debug, PartialEq, Eq, Structural)]
pub enum SatelliteCategory {
    /// The 100 visually brightest objects as seen from the ground.
    Visual,
    /// All operational Starlink broadband constellation satellites.
    Starlink,
    /// Satellites primarily used for meteorological observation.
    Weather,
    /// Operational GPS navigation satellites.
    Gps,
    /// Crewed and uncrewed orbital stations.
    SpaceStations,
}

/// The CelesTrak GP endpoint of a category's TLE dataset.
pub open spec fn category_url(c: SatelliteCategory) -> Seq<char> {
    match c {
        SatelliteCategory::Visual => "https://celestrak.org/NORAD/elements/gp.php?GROUP=visual&FORMAT=tle"@,
        SatelliteCategory::Starlink => "https://celestrak.org/NORAD/elements/gp.php?GROUP=starlink&FORMAT=tle"@,
        SatelliteCategory::Weather => "https://celestrak.org/NORAD/elements/gp.php?GROUP=weather&FORMAT=tle"@,
        SatelliteCategory::Gps => "https://celestrak.org/NORAD/elements/gp.php?GROUP=gps-ops&FORMAT=tle"@,
        SatelliteCategory::SpaceStations => "https://celestrak.org/NORAD/elements/gp.php?GROUP=stations&FORMAT=tle"@,
    }
}

/// The query of every category's URL, up to the group name.
pub open spec fn celestrak_group_prefix() -> Seq<char> {
    "https://celestrak.org/NORAD/elements/gp.php?GROUP="@
}

/// The five categories download five different datasets: every category's
/// URL asks CelesTrak's GP endpoint for a group in TLE format, and no two
/// categories share a URL.
pub proof fn lemma_category_urls_distinct(a: SatelliteCategory, b: SatelliteCategory)
    ensures
        category_url(a).len() > 50,
        category_url(a).subrange(0, 50) == celestrak_group_prefix(),
        category_url(a).subrange(category_url(a).len() - 11, category_url(a).len() as int)
            == "&FORMAT=tle"@,
        a != b ==> category_url(a) != category_url(b),
{
    reveal_strlit("https://celestrak.org/NORAD/elements/gp.php?GROUP=visual&FORMAT=tle");
    reveal_strlit("https://celestrak.org/NORAD/elements/gp.php?GROUP=starlink&FORMAT=tle");
    reveal_strlit("https://celestrak.org/NORAD/elements/gp.php?GROUP=weather&FORMAT=tle");
    reveal_strlit("https://celestrak.org/NORAD/elements/gp.php?GROUP=gps-ops&FORMAT=tle");
    reveal_strlit("https://celestrak.org/NORAD/elements/gp.php?GROUP=stations&FORMAT=tle");
    reveal_strlit("https://celestrak.org/NORAD/elements/gp.php?GROUP=");
    reveal_strlit("&FORMAT=tle");
    let u = category_url(a);
    assert(u.subrange(0, 50) =~= celestrak_group_prefix());
    assert(u.subrange(u.len() - 11, u.len() as int) =~= "&FORMAT=tle"@);
    if a != b {
        let v = category_url(b);
        if u.len() == v.len() {
            assert(u[50] != v[50] || u[53] != v[53]);
        }
    }
}

/// The label of a category in drop-down menus.
pub open spec fn category_name(c: SatelliteCategory) -> Seq<char> {
    match c {
        SatelliteCategory::Visual => "Visual (100 Brightest)"@,
        SatelliteCategory::Starlink => "Starlink"@,
        SatelliteCategory::Weather => "Weather"@,
        SatelliteCategory::Gps => "GPS Operational"@,
        SatelliteCategory::SpaceStations => "Space Stations"@,
    }
}

impl SatelliteCategory {
    /// Returns the CelesTrak GP endpoint URL for this category's TLE dataset.
    pub fn to_url(&self) -> (url: &'static str)
        ensures
            url@ == category_url(*self),
    {
        match self {
            SatelliteCategory::Visual => "https://celestrak.org/NORAD/elements/gp.php?GROUP=visual&FORMAT=tle",
            SatelliteCategory::Starlink => "https://celestrak.org/NORAD/elements/gp.php?GROUP=starlink&FORMAT=tle",
            SatelliteCategory::Weather => "https://celestrak.org/NORAD/elements/gp.php?GROUP=weather&FORMAT=tle",
            SatelliteCategory::Gps => "https://celestrak.org/NORAD/elements/gp.php?GROUP=gps-ops&FORMAT=tle",
            SatelliteCategory::SpaceStations => "https://celestrak.org/NORAD/elements/gp.php?GROUP=stations&FORMAT=tle",
        }
    }

    /// Returns a short human-readable label used in drop-down menus.
    pub fn name(&self) -> (label: &'static str)
        ensures
            label@ == category_name(*self),
    {
        match self {
            SatelliteCategory::Visual => "Visual (100 Brightest)",
            SatelliteCategory::Starlink => "Starlink",
            SatelliteCategory::Weather => "Weather",
            SatelliteCategory::Gps => "GPS Operational",
            SatelliteCategory::SpaceStations => "Space Stations",
        }
    }
}

#[verifier::external_type_specification]
#[verifier::external_body]
pub struct ExElements(Elements);

#[verifier::external_type_specification]
#[verifier::external_body]
pub struct ExConstants(Constants);

#[verifier::external_type_specification]
#[verifier::external_body]
pub struct ExTleError(TleError);

#[verifier::external_type_specification]
#[verifier::external_body]
pub struct ExElementsError(ElementsError);

/// Whether `sgp4::Elements::from_tle` accepts TLE lines 1 and 2, given as
/// bytes. The answer rests on byte tests and on exact number parsing alone (the
/// object name plays no part), so it is a function of the two lines; the
/// element values themselves are not named, as their computation goes through
/// floating-point powers whose precision std leaves open.
pub uninterp spec fn tle_lines_parse(line1: Seq<u8>, line2: Seq<u8>) -> bool;

/// A line that `sgp4::Elements::from_tle` can be handed. A line of the TLE
/// length must be ASCII, as the parser reads slices of it as text without
/// checking, and its last byte must not lie below the digit `'0'`, which makes
/// the checksum subtraction overflow. Lines of another length are refused
/// before either matters.
pub open spec fn tle_line_readable(line: Seq<u8>) -> bool {
    line.len() == 69 ==> {
        &&& forall|k: int| 0 <= k < 69 ==> #[trigger] line[k] < 0x80
        &&& line[68] >= 0x30
    }
}

/// Calls `sgp4::Elements::from_tle` with the object name `name`. The contract
/// claims that it succeeds exactly when `tle_lines_parse` holds of the lines
/// and, as the source of `from_lines` shows, that a line whose length is not 69
/// bytes is an error. Nothing is claimed of the elements returned.
#[verifier::external_body]
fn elements_from_tle(name: String, line1: &[u8], line2: &[u8]) -> (r: Result<Elements, TleError>)
    requires
        tle_line_readable(line1@),
        tle_line_readable(line2@),
    ensures
        r is Ok <==> tle_lines_parse(line1@, line2@),
        line1@.len() != 69 || line2@.len() != 69 ==> r is Err,
{
    Elements::from_tle(Some(name), line1, line2)
}

/// Calls `sgp4::Constants::from_elements`. Nothing is claimed: both the
/// constants and whether the call fails come from floating-point computation
/// whose precision std leaves open.
#[verifier::external_body]
fn constants_from_elements(elements: &Elements) -> (r: Result<Constants, ElementsError>) {
    Constants::from_elements(elements)
}

/// A parsed and propagation-ready tracking record for a single space object.
pub struct SpaceObject {
    /// The object name from the TLE header line, trimmed.
    pub name: String,
    /// SGP4 orbital elements at the TLE epoch.
    pub elements: Elements,
    /// SGP4 constants derived from the orbital elements.
    pub constants: Constants,
}

/// The abstract value of a space object.
pub struct SpaceObjectView {
    pub name: Seq<char>,
    pub elements: Elements,
    pub constants: Constants,
}

impl View for SpaceObject {
    type V = SpaceObjectView;

    open spec fn view(&self) -> SpaceObjectView {
        SpaceObjectView { name: self.name@, elements: self.elements, constants: self.constants }
    }
}

/// TLE lines 1 and 2, as bytes, that the parser accepts: both of the TLE
/// length, readable, and parsed by `sgp4::Elements::from_tle`.
pub open spec fn tle_accepted(line1: Seq<u8>, line2: Seq<u8>) -> bool {
    &&& line1.len() == 69
    &&& line2.len() == 69
    &&& tle_line_readable(line1)
    &&& tle_line_readable(line2)
    &&& tle_lines_parse(line1, line2)
}

/// What parsing a TLE triple (the header line `name` and the bytes of lines 1
/// and 2) may give: nothing, or an object named by the trimmed header whose
/// lines the parser accepts.
pub open spec fn tle_outcome(
    name: Seq<char>,
    line1: Seq<u8>,
    line2: Seq<u8>,
    o: Option<SpaceObjectView>,
) -> bool {
    match o {
        None => true,
        Some(v) => v.name == trimmed(name) && tle_accepted(line1, line2),
    }
}

/// The view of an optional space object.
pub open spec fn object_view(o: Option<SpaceObject>) -> Option<SpaceObjectView> {
    match o {
        Some(x) => Some(x@),
        None => None,
    }
}

impl SpaceObject {
    /// Parses a three-line TLE sequence into a space object, deriving the
    /// SGP4 constants of the parsed elements with `derive`: `name` is the
    /// header line, `line1` and `line2` are TLE lines 1 and 2. Returns `None`
    /// where the lines are not accepted or `derive` gives no constants; the
    /// header line only names the object. In particular, with a derivation
    /// that never fails, the triple yields an object exactly when its lines are
    /// accepted, whatever the header.
    pub fn from_tle_with<F: Fn(&Elements) -> Option<Constants>>(
        name: &str,
        line1: &str,
        line2: &str,
        derive: F,
    ) -> (r: Option<Self>)
        requires
            forall|e: &Elements| #[trigger] derive.requires((e,)),
        ensures
            tle_outcome(name@, encode_utf8(line1@), encode_utf8(line2@), object_view(r)),
            !tle_accepted(encode_utf8(line1@), encode_utf8(line2@)) ==> r is None,
            match r {
                Some(o) => derive.ensures((&o.elements,), Some(o.constants)),
                None => tle_accepted(encode_utf8(line1@), encode_utf8(line2@)) ==> exists|
                    e: &Elements,
                | #[trigger] derive.ensures((e,), None::<Constants>),
            },
            never_fails(derive) ==> (r is Some <==> tle_accepted(
                encode_utf8(line1@),
                encode_utf8(line2@),
            )),
    {
        let name = trim(name);
        let b1 = line1.as_bytes();
        let b2 = line2.as_bytes();
        if !readable_line(b1) || !readable_line(b2) {
            return None;
        }
        let elements = match elements_from_tle(name.clone(), b1, b2) {
            Ok(e) => e,
            Err(_) => return None,
        };
        let constants = match derive(&elements) {
            Some(c) => c,
            None => return None,
        };
        Some(SpaceObject { name, elements, constants })
    }

    /// Parses a three-line TLE sequence into a space object: `name` is the
    /// header line, `line1` and `line2` are TLE lines 1 and 2. Returns `None`
    /// where parsing or the derivation of the SGP4 constants
    /// (`sgp4::Constants::from_elements`) fails; the latter rests on
    /// floating-point computation, so of lines that parse only the name of a
    /// returned object is stated. Lines that are not both 69 bytes long, or that
    /// the parser cannot be handed, always give `None`.
    pub fn from_tle(name: &str, line1: &str, line2: &str) -> (r: Option<Self>)
        ensures
            tle_outcome(name@, encode_utf8(line1@), encode_utf8(line2@), object_view(r)),
            !tle_accepted(encode_utf8(line1@), encode_utf8(line2@)) ==> r is None,
    {
        Self::from_tle_with(
            name,
            line1,
            line2,
            |e: &Elements| -> (c: Option<Constants>)
                {
                    match constants_from_elements(e) {
                        Ok(c) => Some(c),
                        Err(_) => None,
                    }
                },
        )
    }
}

/// Whether `line` can be handed to the TLE parser.
fn readable_line(line: &[u8]) -> (b: bool)
    ensures
        b == tle_line_readable(line@),
{
    if line.len() != 69 {
        return true;
    }
    for k in 0..69
        invariant
            line@.len() == 69,
            forall|j: int| 0 <= j < k ==> #[trigger] line@[j] < 0x80,
    {
        if line[k] >= 0x80 {
            return false;
        }
    }
    line[68] >= 0x30
}

/// No two objects share a name.
pub open spec fn names_distinct(s: Seq<SpaceObjectView>) -> bool {
    forall|i: int, j: int| 0 <= i < j < s.len() ==> (#[trigger] s[i]).name != (#[trigger] s[j]).name
}

/// Some object is called `n`.
pub open spec fn has_name(s: Seq<SpaceObjectView>, n: Seq<char>) -> bool {
    exists|i: int| 0 <= i < s.len() && (#[trigger] s[i]).name == n
}

/// The position of the object called `n`.
pub open spec fn position_of(s: Seq<SpaceObjectView>, n: Seq<char>) -> int {
    choose|i: int| 0 <= i < s.len() && (#[trigger] s[i]).name == n
}

/// Inserting `o` replaces the object of the same name where there is one, and
/// appends `o` otherwise.
pub open spec fn catalog_insert(s: Seq<SpaceObjectView>, o: SpaceObjectView) -> Seq<
    SpaceObjectView,
> {
    if has_name(s, o.name) {
        s.update(position_of(s, o.name), o)
    } else {
        s.push(o)
    }
}

/// The catalogue as a map from names to objects.
pub open spec fn catalog_map(s: Seq<SpaceObjectView>) -> Map<Seq<char>, SpaceObjectView> {
    Map::new(|n: Seq<char>| has_name(s, n), |n: Seq<char>| s[position_of(s, n)])
}

/// A catalogue of space objects keyed by name. Each name occurs once; objects
/// keep the order in which their names were first inserted.
pub struct Catalog {
    objects: Vec<SpaceObject>,
}

impl View for Catalog {
    type V = Seq<SpaceObjectView>;

    closed spec fn view(&self) -> Seq<SpaceObjectView> {
        self.objects@.map_values(|o: SpaceObject| o@)
    }
}

impl Catalog {
    /// The catalogue's invariant: names are distinct.
    #[verifier::type_invariant]
    pub(crate) open spec fn names_are_distinct(&self) -> bool {
        names_distinct(self@)
    }

    /// An empty catalogue.
    pub fn new() -> (c: Self)
        ensures
            c@ == Seq::<SpaceObjectView>::empty(),
    {
        let c = Catalog { objects: Vec::new() };
        assert(c@ =~= Seq::<SpaceObjectView>::empty());
        c
    }

    /// The number of objects; the names of the objects are distinct.
    pub fn len(&self) -> (n: usize)
        ensures
            n == self@.len(),
            names_distinct(self@),
    {
        proof {
            use_type_invariant(self);
        }
        self.objects.len()
    }

    /// The object at position `i`.
    pub fn object(&self, i: usize) -> (o: &SpaceObject)
        requires
            i < self@.len(),
        ensures
            o@ == self@[i as int],
    {
        &self.objects[i]
    }

    /// The position of the object called `name`, if there is one.
    pub fn position(&self, name: &String) -> (r: Option<usize>)
        ensures
            match r {
                Some(i) => i < self@.len() && self@[i as int].name == name@,
                None => !has_name(self@, name@),
            },
    {
        let n = self.objects.len();
        for i in 0..n
            invariant
                n == self@.len(),
                forall|j: int| 0 <= j < i ==> (#[trigger] self@[j]).name != name@,
        {
            if self.objects[i].name == *name {
                return Some(i);
            }
        }
        None
    }

    /// The object called `name`, if there is one.
    pub fn get(&self, name: &String) -> (r: Option<&SpaceObject>)
        ensures
            match r {
                Some(o) => catalog_map(self@).contains_key(name@) && o@ == catalog_map(
                    self@,
                )[name@],
                None => !catalog_map(self@).contains_key(name@),
            },
    {
        proof {
            use_type_invariant(self);
        }
        match self.position(name) {
            Some(i) => {
                proof {
                    lemma_position_unique(self@, i as int);
                }
                Some(&self.objects[i])
            },
            None => None,
        }
    }

    /// Inserts `obj`, replacing the object of the same name where there is one.
    pub fn insert(&mut self, obj: SpaceObject)
        ensures
            final(self)@ == catalog_insert(old(self)@, obj@),
    {
        proof {
            use_type_invariant(&*self);
            lemma_catalog_insert_distinct(self@, obj@);
        }
        let ghost before = self@;
        let pos = self.position(&obj.name);
        let mut objects: Vec<SpaceObject> = Vec::new();
        std::mem::swap(&mut objects, &mut self.objects);
        assert(objects@.map_values(|o: SpaceObject| o@) == before);
        match pos {
            Some(i) => {
                proof {
                    lemma_position_unique(before, i as int);
                }
                let ghost old_objects = objects@;
                objects.set(i, obj);
                assert(objects@.map_values(|o: SpaceObject| o@) =~= old_objects.map_values(
                    |o: SpaceObject| o@,
                ).update(i as int, obj@));
            },
            None => {
                let ghost old_objects = objects@;
                objects.push(obj);
                assert(objects@.map_values(|o: SpaceObject| o@) =~= old_objects.map_values(
                    |o: SpaceObject| o@,
                ).push(obj@));
            },
        }
        self.objects = objects;
    }

    /// The names of the objects, in catalogue order.
    pub fn names(&self) -> (ns: Vec<String>)
        ensures
            string_views(ns@) == self@.map_values(|o: SpaceObjectView| o.name),
    {
        let mut ns: Vec<String> = Vec::new();
        let n = self.objects.len();
        for i in 0..n
            invariant
                n == self@.len(),
                string_views(ns@) == self@.take(i as int).map_values(|o: SpaceObjectView| o.name),
        {
            let ghost old_ns = ns@;
            ns.push(self.objects[i].name.clone());
            assert(string_views(ns@) =~= string_views(old_ns).push(self@[i as int].name));
            assert(self@.take(i + 1) =~= self@.take(i as int).push(self@[i as int]));
        }
        assert(self@.take(n as int) =~= self@);
        ns
    }
}

/// In a catalogue with distinct names, `position_of` finds the object at `i`.
pub proof fn lemma_position_unique(s: Seq<SpaceObjectView>, i: int)
    requires
        names_distinct(s),
        0 <= i < s.len(),
    ensures
        has_name(s, s[i].name),
        position_of(s, s[i].name) == i,
{
    assert(has_name(s, s[i].name));
    let j = position_of(s, s[i].name);
    if j != i {
        if j < i {
            assert(s[j].name != s[i].name);
        } else {
            assert(s[i].name != s[j].name);
        }
    }
}

/// Inserting keeps the names distinct.
pub proof fn lemma_catalog_insert_distinct(s: Seq<SpaceObjectView>, o: SpaceObjectView)
    requires
        names_distinct(s),
    ensures
        names_distinct(catalog_insert(s, o)),
{
    let t = catalog_insert(s, o);
    if has_name(s, o.name) {
        let p = position_of(s, o.name);
        assert forall|i: int, j: int| 0 <= i < j < t.len() implies (#[trigger] t[i]).name != (
        #[trigger] t[j]).name by {
            if i != p && j != p {
                assert(t[i] == s[i] && t[j] == s[j]);
            }
        }
    } else {
        assert forall|i: int, j: int| 0 <= i < j < t.len() implies (#[trigger] t[i]).name != (
        #[trigger] t[j]).name by {
            if j == s.len() {
                assert(t[i] == s[i]);
            } else {
                assert(t[i] == s[i] && t[j] == s[j]);
            }
        }
    }
}

/// A catalogue behaves as a map keyed by name: inserting an object maps its
/// name to it and leaves every other name as it was.
pub proof fn lemma_catalog_insert_is_map_insert(s: Seq<SpaceObjectView>, o: SpaceObjectView)
    requires
        names_distinct(s),
    ensures
        catalog_map(catalog_insert(s, o)) == catalog_map(s).insert(o.name, o),
{
    let t = catalog_insert(s, o);
    lemma_catalog_insert_distinct(s, o);
    assert(t[if has_name(s, o.name) { position_of(s, o.name) } else { s.len() as int }] == o);
    let m = catalog_map(t);
    let m2 = catalog_map(s).insert(o.name, o);
    assert forall|n: Seq<char>| #[trigger] m.contains_key(n) <==> m2.contains_key(n) by {
        if has_name(s, n) {
            let i = position_of(s, n);
            if n != o.name {
                assert(t[i] == s[i]);
            }
        }
        if has_name(t, n) && n != o.name {
            let i = position_of(t, n);
            if has_name(s, o.name) {
                assert(t[i] == s[i] || i == position_of(s, o.name));
                assert(s[i].name == n);
            } else {
                assert(i < s.len());
                assert(s[i] == t[i]);
            }
        }
    }
    assert forall|n: Seq<char>| #[trigger] m.contains_key(n) implies m[n] == m2[n] by {
        let i = position_of(t, n);
        lemma_position_unique(t, i);
        if n == o.name {
        } else {
            let k = position_of(s, n);
            if has_name(s, o.name) {
                assert(t[k] == s[k]);
            } else {
                assert(t[k] == s[k]);
            }
            lemma_position_unique(t, k);
        }
    }
    assert(m =~= m2);
}

/// The catalogue that inserting the objects among the first `t` parse outcomes
/// `outs` one after another builds: a group that gave no object is skipped, and
/// an object replaces an earlier one of the same name.
pub open spec fn outcome_catalog(outs: Seq<Option<SpaceObjectView>>, t: nat) -> Seq<
    SpaceObjectView,
>
    decreases t,
{
    if t == 0 {
        Seq::empty()
    } else {
        let prev = outcome_catalog(outs, (t - 1) as nat);
        match outs[t - 1] {
            Some(o) => catalog_insert(prev, o),
            None => prev,
        }
    }
}

/// `outs` are possible parse outcomes of the lines `ls`: one per complete
/// group of three lines (header, line 1, line 2; a trailing incomplete group is
/// ignored), each what `SpaceObject::from_tle` may give for its group.
pub open spec fn tle_outcomes(ls: Seq<Seq<char>>, outs: Seq<Option<SpaceObjectView>>) -> bool {
    &&& outs.len() == ls.len() / 3
    &&& forall|t: int|
        0 <= t < outs.len() ==> tle_outcome(
            ls[3 * t],
            encode_utf8(ls[3 * t + 1]),
            encode_utf8(ls[3 * t + 2]),
            #[trigger] outs[t],
        )
}

/// Builds the catalogue from parse outcomes, in order: each object is
/// inserted under its name, replacing an earlier object of the same name.
pub fn catalog_from_outcomes(outs: Vec<Option<SpaceObject>>) -> (c: Catalog)
    ensures
        c@ == outcome_catalog(outs@.map_values(|o: Option<SpaceObject>| object_view(o)), outs@.len()),
{
    let ghost vs = outs@.map_values(|o: Option<SpaceObject>| object_view(o));
    let mut c = Catalog::new();
    for o in it: outs.into_iter()
        invariant
            it.seq() == outs@,
            vs == outs@.map_values(|o: Option<SpaceObject>| object_view(o)),
            c@ == outcome_catalog(vs, it.index() as nat),
    {
        assert(vs[it.index() as int] == object_view(o));
        match o {
            Some(x) => {
                c.insert(x);
            },
            None => {},
        }
    }
    c
}

/// A derivation of SGP4 constants that never fails.
pub open spec fn never_fails<F: Fn(&Elements) -> Option<Constants>>(derive: F) -> bool {
    forall|e: &Elements, c: Option<Constants>| #[trigger] derive.ensures((e,), c) ==> c is Some
}

/// Every group of three lines of `ls` yields an object exactly when its TLE
/// lines are accepted.
pub open spec fn accepted_groups_yield(ls: Seq<Seq<char>>, outs: Seq<Option<SpaceObjectView>>) -> bool {
    forall|t: int|
        0 <= t < outs.len() ==> ((#[trigger] outs[t]) is Some <==> tle_accepted(
            encode_utf8(ls[3 * t + 1]),
            encode_utf8(ls[3 * t + 2]),
        ))
}

/// Parses the three-line-element text that CelesTrak serves into a catalogue
/// keyed by object name, deriving SGP4 constants with `derive`: the lines are
/// taken in consecutive groups of three (a trailing incomplete group is
/// ignored), each group is parsed by `SpaceObject::from_tle_with`, groups that
/// give no object are skipped, and a later object with the name of an earlier
/// one replaces it. With a derivation that never fails, exactly the groups
/// whose lines are accepted give objects, whatever their headers.
pub fn parse_tle_catalog_with<F: Fn(&Elements) -> Option<Constants>>(body: &str, derive: F) -> (c:
    Catalog)
    requires
        forall|e: &Elements| #[trigger] derive.requires((e,)),
    ensures
        exists|outs: Seq<Option<SpaceObjectView>>|
            {
                &&& tle_outcomes(split_lines(body@), outs)
                &&& c@ == outcome_catalog(outs, outs.len())
                &&& never_fails(derive) ==> accepted_groups_yield(split_lines(body@), outs)
            },
{
    let ls = lines(body);
    let ghost lv = string_views(ls@);
    assert(lv == split_lines(body@));
    let n = ls.len();
    let groups = n / 3;
    assert(lv.len() == ls@.len());
    assert(3 * groups <= ls@.len()) by (nonlinear_arith)
        requires
            groups == ls@.len() / 3,
    ;
    let mut outs: Vec<Option<SpaceObject>> = Vec::new();
    for t in 0..groups
        invariant
            groups == lv.len() / 3,
            lv == string_views(ls@),
            lv.len() == ls@.len(),
            n == ls@.len(),
            3 * groups <= ls@.len(),
            outs@.len() == t,
            forall|e: &Elements| #[trigger] derive.requires((e,)),
            forall|k: int|
                0 <= k < t ==> tle_outcome(
                    lv[3 * k],
                    encode_utf8(lv[3 * k + 1]),
                    encode_utf8(lv[3 * k + 2]),
                    #[trigger] object_view(outs@[k]),
                ),
            never_fails(derive) ==> forall|k: int|
                0 <= k < t ==> ((#[trigger] object_view(outs@[k])) is Some <==> tle_accepted(
                    encode_utf8(lv[3 * k + 1]),
                    encode_utf8(lv[3 * k + 2]),
                )),
    {
        assert(3 * t + 2 < n) by (nonlinear_arith)
            requires
                t < groups,
                3 * groups <= n,
        ;
        let i = 3 * t;
        assert(i + 2 < ls@.len());
        let i1 = i + 1;
        let i2 = i + 2;
        assert(lv[i as int] == ls@[i as int]@);
        assert(lv[i1 as int] == ls@[i1 as int]@);
        assert(lv[i2 as int] == ls@[i2 as int]@);
        let o = SpaceObject::from_tle_with(ls[i].as_str(), ls[i1].as_str(), ls[i2].as_str(), &derive);
        let ghost before = outs@;
        outs.push(o);
        assert forall|k: int|
            0 <= k < t + 1 implies tle_outcome(
            lv[3 * k],
            encode_utf8(lv[3 * k + 1]),
            encode_utf8(lv[3 * k + 2]),
            #[trigger] object_view(outs@[k]),
        ) by {
            if k < t {
                assert(outs@[k] == before[k]);
            }
        }
        assert(never_fails(derive) ==> forall|k: int|
            0 <= k < t + 1 ==> ((#[trigger] object_view(outs@[k])) is Some <==> tle_accepted(
                encode_utf8(lv[3 * k + 1]),
                encode_utf8(lv[3 * k + 2]),
            ))) by {
            if never_fails(derive) {
                assert forall|k: int| 0 <= k < t + 1 implies ((#[trigger] object_view(outs@[k])) is Some
                    <==> tle_accepted(encode_utf8(lv[3 * k + 1]), encode_utf8(lv[3 * k + 2]))) by {
                    if k < t {
                        assert(outs@[k] == before[k]);
                    }
                }
            }
        }
    }
    let ghost vs = outs@.map_values(|o: Option<SpaceObject>| object_view(o));
    assert(tle_outcomes(lv, vs)) by {
        assert forall|k: int| 0 <= k < vs.len() implies tle_outcome(
            lv[3 * k],
            encode_utf8(lv[3 * k + 1]),
            encode_utf8(lv[3 * k + 2]),
            #[trigger] vs[k],
        ) by {
            assert(vs[k] == object_view(outs@[k]));
        }
    }
    assert(never_fails(derive) ==> accepted_groups_yield(lv, vs)) by {
        if never_fails(derive) {
            assert forall|k: int| 0 <= k < vs.len() implies ((#[trigger] vs[k]) is Some <==> tle_accepted(
                encode_utf8(lv[3 * k + 1]),
                encode_utf8(lv[3 * k + 2]),
            )) by {
                assert(vs[k] == object_view(outs@[k]));
            }
        }
    }
    catalog_from_outcomes(outs)
}

/// Parses the three-line-element text that CelesTrak serves into a catalogue
/// keyed by object name: its lines are taken in consecutive groups of three (a
/// trailing incomplete group is ignored), each group is parsed by
/// `SpaceObject::from_tle`, groups that give no object are skipped, and a later
/// object with the name of an earlier one replaces it. What each group gives
/// rests on the SGP4 library; the catalogue is built from those outcomes.
pub fn parse_tle_catalog(body: &str) -> (c: Catalog)
    ensures
        exists|outs: Seq<Option<SpaceObjectView>>|
            tle_outcomes(split_lines(body@), outs) && c@ == outcome_catalog(outs, outs.len()),
{
    parse_tle_catalog_with(
        body,
        |e: &Elements| -> (c: Option<Constants>)
            {
                match constants_from_elements(e) {
                    Ok(c) => Some(c),
                    Err(_) => None,
                }
            },
    )
}

/// The map that inserting the objects among the first `t` parse outcomes one
/// after another into a hash map keyed by name builds.
pub open spec fn outcome_map(outs: Seq<Option<SpaceObjectView>>, t: nat) -> Map<
    Seq<char>,
    SpaceObjectView,
>
    decreases t,
{
    if t == 0 {
        Map::empty()
    } else {
        let prev = outcome_map(outs, (t - 1) as nat);
        match outs[t - 1] {
            Some(o) => prev.insert(o.name, o),
            None => prev,
        }
    }
}

/// Whatever objects the groups gave, the catalogue built from them has
/// distinct names, and as a map it is the hash map that inserting each object
/// in turn builds: a later object replaces an earlier one of the same name.
pub proof fn lemma_outcome_catalog_is_map(outs: Seq<Option<SpaceObjectView>>, t: nat)
    ensures
        names_distinct(outcome_catalog(outs, t)),
        catalog_map(outcome_catalog(outs, t)) == outcome_map(outs, t),
    decreases t,
{
    if t == 0 {
        assert(catalog_map(outcome_catalog(outs, 0)) =~= Map::<Seq<char>, SpaceObjectView>::empty());
    } else {
        lemma_outcome_catalog_is_map(outs, (t - 1) as nat);
        let prev = outcome_catalog(outs, (t - 1) as nat);
        match outs[t - 1] {
            Some(o) => {
                lemma_catalog_insert_distinct(prev, o);
                lemma_catalog_insert_is_map_insert(prev, o);
            },
            None => {},
        }
    }
}

} // verus!
