//! The tracker's state: the loaded catalogue, the selected satellites, the
//! filtered list shown in the sidebar, and the overhead-pass predictions.

use vstd::prelude::*;
use crate::passes::PredictedPass;
use crate::satellites::{has_name, names_distinct, Catalog, SatelliteCategory, SpaceObjectView};
use crate::text::{
    chars_of, contains, contains_chars, lemma_contains_chars_transitive, lowercase, occurs_at,
    sort_strings, sorted_lex, string_views, to_lowercase,
};

verus! {

/// A name matches the search: the lowercase query occurs in the lowercase
/// name (the empty text occurs in every text).
pub open spec fn name_matches(name: Seq<char>, query: Seq<char>) -> bool {
    contains_chars(lowercase(name), lowercase(query))
}

/// The names of the catalogue objects among the first `n` that the sidebar
/// shows, in catalogue order: those whose name matches `query` and whose
/// altitude and inclination lie in the filter ranges (`in_range`, one flag per
/// object).
pub open spec fn matching_names(
    cat: Seq<SpaceObjectView>,
    query: Seq<char>,
    in_range: Seq<bool>,
    n: nat,
) -> Seq<Seq<char>>
    decreases n,
{
    if n == 0 {
        Seq::empty()
    } else {
        let prev = matching_names(cat, query, in_range, (n - 1) as nat);
        let o = cat[n - 1];
        if name_matches(o.name, query) && in_range[n - 1] {
            prev.push(o.name)
        } else {
            prev
        }
    }
}

/// The selection after toggling `name`: removed where selected, else added last.
pub open spec fn toggle_name(sel: Seq<Seq<char>>, name: Seq<char>) -> Seq<Seq<char>> {
    if sel.contains(name) {
        sel.remove(sel.index_of(name))
    } else {
        sel.push(name)
    }
}

/// The state after a pass prediction is triggered: with no observer or no
/// selection the passes are cleared; where the first selected satellite is
/// loaded a prediction is under way for it; otherwise nothing changes, as no
/// prediction can run.
pub open spec fn triggered(v: TrackerView, has_observer: bool) -> TrackerView {
    if !has_observer || v.selected.len() == 0 {
        TrackerView { passes: Seq::empty(), ..v }
    } else if has_name(v.satellites, v.selected[0]) {
        TrackerView { predicting: true, ..v }
    } else {
        v
    }
}

/// What a trigger starts: the catalogue position of the first selected
/// satellite to predict passes for, where there is an observer, a selection,
/// and the first selected name is in the catalogue.
pub open spec fn trigger_target(v: TrackerView, has_observer: bool, r: Option<usize>) -> bool {
    if !has_observer || v.selected.len() == 0 || !has_name(v.satellites, v.selected[0]) {
        r is None
    } else {
        &&& r is Some
        &&& r->0 < v.satellites.len()
        &&& v.satellites[r->0 as int].name == v.selected[0]
    }
}

/// The list that the sidebar shows: the matching names, sorted by name when
/// `sort_alpha` holds (any order of the same names sorted is this order, as the
/// names are distinct), else in catalogue order.
pub open spec fn shows_filtered(v: TrackerView, in_range: Seq<bool>, f: Seq<Seq<char>>) -> bool {
    let m = matching_names(v.satellites, v.search_query, in_range, v.satellites.len());
    if v.sort_alpha {
        sorted_lex(f) && f.to_multiset() == m.to_multiset()
    } else {
        f == m
    }
}

/// Toggling a name twice gives back the selected set; where the name was not
/// selected, it gives back the selection exactly.
pub proof fn lemma_toggle_twice(sel: Seq<Seq<char>>, name: Seq<char>)
    requires
        sel.no_duplicates(),
    ensures
        toggle_name(toggle_name(sel, name), name).to_set() == sel.to_set(),
        !sel.contains(name) ==> toggle_name(toggle_name(sel, name), name) == sel,
{
    if sel.contains(name) {
        let i = sel.index_of(name);
        let t = sel.remove(i);
        assert(!t.contains(name)) by {
            if t.contains(name) {
                let k = t.index_of(name);
                let k2 = if k < i { k } else { k + 1 };
                assert(t[k] == sel[k2]);
            }
        }
        let u = t.push(name);
        assert(toggle_name(t, name) == u);
        assert forall|x: Seq<char>| u.to_set().contains(x) <==> sel.to_set().contains(x) by {
            if sel.contains(x) && x != name {
                let k = sel.index_of(x);
                let k2 = if k < i { k } else { k - 1 };
                assert(u[k2] == x);
            }
            if u.contains(x) && x != name {
                let k = u.index_of(x);
                let k2 = if k < i { k } else { k + 1 };
                assert(sel[k2] == x);
            }
            if x == name {
                assert(u[u.len() - 1] == x);
            }
        }
        assert(u.to_set() =~= sel.to_set());
    } else {
        let t = sel.push(name);
        assert(t[sel.len() as int] == name);
        assert(t.contains(name));
        let k = t.index_of(name);
        assert(k == sel.len()) by {
            if k < sel.len() {
                assert(sel[k] == name);
            }
        }
        assert(t.remove(k) =~= sel);
    }
}

/// Every listed name belongs to a loaded satellite that matches the search and
/// lies in the filter ranges, and every such satellite is listed: the list
/// holds exactly the matching names, each once.
pub proof fn lemma_matching_names_exact(
    cat: Seq<SpaceObjectView>,
    query: Seq<char>,
    in_range: Seq<bool>,
    n: nat,
)
    requires
        n <= cat.len(),
        names_distinct(cat),
    ensures
        forall|x: Seq<char>|
            #[trigger] matching_names(cat, query, in_range, n).contains(x) <==> exists|i: int|
                0 <= i < n && (#[trigger] cat[i]).name == x && name_matches(x, query) && in_range[i],
        matching_names(cat, query, in_range, n).no_duplicates(),
    decreases n,
{
    if n > 0 {
        lemma_matching_names_exact(cat, query, in_range, (n - 1) as nat);
        let prev = matching_names(cat, query, in_range, (n - 1) as nat);
        let m = matching_names(cat, query, in_range, n);
        let o = cat[n - 1];
        assert forall|x: Seq<char>| #[trigger] m.contains(x) <==> exists|i: int|
            0 <= i < n && (#[trigger] cat[i]).name == x && name_matches(x, query) && in_range[i] by {
            if m.contains(x) && !prev.contains(x) {
                let k = m.index_of(x);
                if k < prev.len() {
                    assert(prev[k] == x);
                }
                assert(cat[n - 1].name == x);
            }
            if prev.contains(x) {
                let k = prev.index_of(x);
                assert(m[k] == x);
            }
            if exists|i: int|
                0 <= i < n && (#[trigger] cat[i]).name == x && name_matches(x, query) && in_range[i] {
                let i = choose|i: int|
                    0 <= i < n && (#[trigger] cat[i]).name == x && name_matches(x, query) && in_range[i];
                if i == n - 1 {
                    assert(m[m.len() - 1] == x);
                }
            }
        }
        if m != prev {
            assert(!prev.contains(o.name)) by {
                if prev.contains(o.name) {
                    let i = choose|i: int|
                        0 <= i < n - 1 && (#[trigger] cat[i]).name == o.name && name_matches(o.name, query) && in_range[i];
                    assert(cat[i].name != cat[n - 1].name);
                }
            }
            assert forall|a: int, b: int| 0 <= a < b < m.len() implies m[a] != m[b] by {
                if b == m.len() - 1 {
                    assert(m[a] == prev[a]);
                    assert(prev.contains(prev[a]));
                } else {
                    assert(m[a] == prev[a] && m[b] == prev[b]);
                }
            }
        }
    }
}

/// The names that the sidebar lists are the matching names, whatever the order.
proof fn lemma_shown_are_matching(v: TrackerView, in_range: Seq<bool>, f: Seq<Seq<char>>)
    requires
        shows_filtered(v, in_range, f),
    ensures
        forall|x: Seq<char>|
            f.contains(x) <==> #[trigger] matching_names(
                v.satellites,
                v.search_query,
                in_range,
                v.satellites.len(),
            ).contains(x),
{
    broadcast use vstd::seq_lib::group_to_multiset_ensures;

    let m = matching_names(v.satellites, v.search_query, in_range, v.satellites.len());
    assert forall|x: Seq<char>| f.contains(x) <==> #[trigger] m.contains(x) by {
        if v.sort_alpha {
            assert(f.contains(x) <==> f.to_multiset().count(x) > 0);
            assert(m.contains(x) <==> m.to_multiset().count(x) > 0);
        }
    }
}

/// The search finds what it is asked for: a loaded satellite within the filter
/// ranges is listed exactly when the lowercase query occurs in its lowercase
/// name, whatever the length of the query.
pub proof fn lemma_search_lists_exactly_the_matches(
    v: TrackerView,
    in_range: Seq<bool>,
    f: Seq<Seq<char>>,
    i: int,
)
    requires
        names_distinct(v.satellites),
        shows_filtered(v, in_range, f),
        0 <= i < v.satellites.len(),
        in_range[i],
    ensures
        f.contains(v.satellites[i].name) <==> contains_chars(
            lowercase(v.satellites[i].name),
            lowercase(v.search_query),
        ),
{
    let cat = v.satellites;
    let x = cat[i].name;
    lemma_shown_are_matching(v, in_range, f);
    lemma_matching_names_exact(cat, v.search_query, in_range, cat.len());
    assert(f.contains(x) <==> matching_names(cat, v.search_query, in_range, cat.len()).contains(x));
    if f.contains(x) {
        let j = choose|j: int|
            0 <= j < cat.len() && (#[trigger] cat[j]).name == x && name_matches(x, v.search_query)
                && in_range[j];
        assert(name_matches(x, v.search_query));
    }
}

/// Searching for a loaded satellite's own name lists it when it lies within the
/// filter ranges.
pub proof fn lemma_own_name_is_found(v: TrackerView, in_range: Seq<bool>, f: Seq<Seq<char>>, i: int)
    requires
        names_distinct(v.satellites),
        shows_filtered(v, in_range, f),
        0 <= i < v.satellites.len(),
        in_range[i],
        v.search_query == v.satellites[i].name,
    ensures
        f.contains(v.satellites[i].name),
{
    let l = lowercase(v.satellites[i].name);
    assert(l.subrange(0, l.len() as int) =~= l);
    assert(occurs_at(l, l, 0));
    lemma_search_lists_exactly_the_matches(v, in_range, f, i);
}

/// A longer search never lists more: where the lowercase query `q1` occurs in
/// the lowercase query `q2`, every name listed for `q2` is also listed for
/// `q1`, the rest of the state being the same.
pub proof fn lemma_longer_query_lists_no_more(
    v: TrackerView,
    q1: Seq<char>,
    q2: Seq<char>,
    in_range: Seq<bool>,
    f1: Seq<Seq<char>>,
    f2: Seq<Seq<char>>,
)
    requires
        names_distinct(v.satellites),
        contains_chars(lowercase(q2), lowercase(q1)),
        shows_filtered(TrackerView { search_query: q1, ..v }, in_range, f1),
        shows_filtered(TrackerView { search_query: q2, ..v }, in_range, f2),
    ensures
        forall|x: Seq<char>| f2.contains(x) ==> f1.contains(x),
{
    let cat = v.satellites;
    let n = cat.len();
    lemma_shown_are_matching(TrackerView { search_query: q1, ..v }, in_range, f1);
    lemma_shown_are_matching(TrackerView { search_query: q2, ..v }, in_range, f2);
    lemma_matching_names_exact(cat, q1, in_range, n);
    lemma_matching_names_exact(cat, q2, in_range, n);
    assert forall|x: Seq<char>| f2.contains(x) implies f1.contains(x) by {
        assert(matching_names(cat, q2, in_range, n).contains(x));
        let i = choose|i: int|
            0 <= i < n && (#[trigger] cat[i]).name == x && name_matches(x, q2) && in_range[i];
        lemma_contains_chars_transitive(lowercase(x), lowercase(q2), lowercase(q1));
        assert(name_matches(x, q1));
        assert(matching_names(cat, q1, in_range, n).contains(x));
    }
}

/// With a search whose lowercase form is empty (as that of the empty query
/// is) the sidebar lists every loaded satellite that lies in the filter ranges,
/// and no other.
pub proof fn lemma_empty_query_lists_all_in_range(
    v: TrackerView,
    in_range: Seq<bool>,
    f: Seq<Seq<char>>,
)
    requires
        names_distinct(v.satellites),
        lowercase(v.search_query).len() == 0,
        shows_filtered(v, in_range, f),
    ensures
        forall|x: Seq<char>|
            f.contains(x) <==> exists|i: int|
                0 <= i < v.satellites.len() && (#[trigger] v.satellites[i]).name == x
                    && in_range[i],
{
    let cat = v.satellites;
    lemma_shown_are_matching(v, in_range, f);
    lemma_matching_names_exact(cat, v.search_query, in_range, cat.len());
    assert forall|x: Seq<char>|
        f.contains(x) <==> exists|i: int|
            0 <= i < cat.len() && (#[trigger] cat[i]).name == x && in_range[i] by {
        assert(f.contains(x) <==> matching_names(cat, v.search_query, in_range, cat.len()).contains(x));
        assert(lowercase(x).subrange(0, 0) =~= lowercase(v.search_query));
        assert(occurs_at(lowercase(x), lowercase(v.search_query), 0));
    }
}

/// The abstract state of the tracker.
pub struct TrackerView {
    pub satellites: Seq<SpaceObjectView>,
    /// Selected names, in the order selected.
    pub selected: Seq<Seq<char>>,
    pub search_query: Seq<char>,
    pub filtered: Seq<Seq<char>>,
    pub sort_alpha: bool,
    pub passes: Seq<PredictedPass>,
    pub predicting: bool,
    pub category: SatelliteCategory,
    /// A catalogue download is under way.
    pub fetching: bool,
    pub fetch_error: Option<Seq<char>>,
    pub location_query: Seq<char>,
    /// A geocoding request is under way.
    pub locating: bool,
    pub location_error: Option<Seq<char>>,
}

/// The view of an optional message.
pub open spec fn message_view(m: Option<String>) -> Option<Seq<char>> {
    match m {
        Some(s) => Some(s@),
        None => None,
    }
}

/// The selected satellite names, in the order selected; no name occurs twice.
struct Selection {
    names: Vec<String>,
}

impl View for Selection {
    type V = Seq<Seq<char>>;

    closed spec fn view(&self) -> Seq<Seq<char>> {
        string_views(self.names@)
    }
}

impl Selection {
    /// The selection's invariant: no name occurs twice.
    #[verifier::type_invariant]
    closed spec fn names_are_distinct(&self) -> bool {
        self@.no_duplicates()
    }

    /// No name selected.
    fn new() -> (s: Self)
        ensures
            s@ == Seq::<Seq<char>>::empty(),
    {
        let s = Selection { names: Vec::new() };
        assert(s@ =~= Seq::<Seq<char>>::empty());
        s
    }

    /// The position of `name` among the selected names.
    fn position(&self, name: &String) -> (r: Option<usize>)
        ensures
            match r {
                Some(i) => i < self@.len() && self@[i as int] == name@,
                None => !self@.contains(name@),
            },
    {
        let n = self.names.len();
        for i in 0..n
            invariant
                n == self@.len(),
                self@ == string_views(self.names@),
                forall|j: int| 0 <= j < i ==> self@[j] != name@,
        {
            if self.names[i] == *name {
                return Some(i);
            }
        }
        None
    }

    /// Selects `name` where it is not selected, and deselects it where it is.
    fn toggle(&mut self, name: String)
        ensures
            final(self)@ == toggle_name(old(self)@, name@),
    {
        proof {
            use_type_invariant(&*self);
        }
        let ghost sel = self@;
        let pos = self.position(&name);
        let mut names: Vec<String> = Vec::new();
        std::mem::swap(&mut names, &mut self.names);
        assert(string_views(names@) == sel);
        match pos {
            Some(i) => {
                assert(sel.index_of(name@) == i) by {
                    let j = sel.index_of(name@);
                    assert(sel.contains(name@));
                    assert(sel[j] == name@);
                }
                names.remove(i);
                assert(string_views(names@) =~= sel.remove(i as int));
                assert(string_views(names@).no_duplicates()) by {
                    let t = sel.remove(i as int);
                    assert forall|a: int, b: int|
                        0 <= a < t.len() && 0 <= b < t.len() && a != b implies t[a] != t[b] by {
                        let a2 = if a < i { a } else { a + 1 };
                        let b2 = if b < i { b } else { b + 1 };
                        assert(t[a] == sel[a2] && t[b] == sel[b2]);
                    }
                }
            },
            None => {
                names.push(name);
                assert(string_views(names@) =~= sel.push(name@));
            },
        }
        self.names = names;
    }
}

/// The tracker's state.
pub struct TrackerState {
    satellites: Catalog,
    selected: Selection,
    /// Live search query filtering the satellite list.
    pub search_query: String,
    filtered: Vec<String>,
    /// Sort the list by name (`true`) or leave the order to the caller (`false`).
    pub sort_alpha: bool,
    last_predicted_passes: Vec<PredictedPass>,
    is_predicting_pass: bool,
    /// The catalogue group to download.
    pub satellite_category: SatelliteCategory,
    fetch_in_progress: bool,
    error_msg: Option<String>,
    /// Query text for the observer's location.
    pub location_query: String,
    location_in_progress: bool,
    location_error_msg: Option<String>,
}

impl View for TrackerState {
    type V = TrackerView;

    closed spec fn view(&self) -> TrackerView {
        TrackerView {
            satellites: self.satellites@,
            selected: self.selected@,
            search_query: self.search_query@,
            filtered: string_views(self.filtered@),
            sort_alpha: self.sort_alpha,
            passes: self.last_predicted_passes@,
            predicting: self.is_predicting_pass,
            category: self.satellite_category,
            fetching: self.fetch_in_progress,
            fetch_error: message_view(self.error_msg),
            location_query: self.location_query@,
            locating: self.location_in_progress,
            location_error: message_view(self.location_error_msg),
        }
    }
}

impl TrackerState {
    /// The state at start-up: nothing loaded or selected, sorted by name.
    pub fn new() -> (s: Self)
        ensures
            s@.satellites.len() == 0,
            s@.selected.len() == 0,
            s@.search_query.len() == 0,
            s@.filtered.len() == 0,
            s@.sort_alpha,
            s@.passes.len() == 0,
            !s@.predicting,
            s@.category == SatelliteCategory::Visual,
            !s@.fetching,
            s@.fetch_error is None,
            s@.location_query.len() == 0,
            !s@.locating,
            s@.location_error is None,
    {
        let s = TrackerState {
            satellites: Catalog::new(),
            selected: Selection::new(),
            search_query: String::new(),
            filtered: Vec::new(),
            sort_alpha: true,
            last_predicted_passes: Vec::new(),
            is_predicting_pass: false,
            satellite_category: SatelliteCategory::Visual,
            fetch_in_progress: false,
            error_msg: None,
            location_query: String::new(),
            location_in_progress: false,
            location_error_msg: None,
        };
        assert(s@.filtered =~= Seq::<Seq<char>>::empty());
        s
    }

    /// The loaded catalogue.
    pub fn satellites(&self) -> (c: &Catalog)
        ensures
            c@ == self@.satellites,
            names_distinct(self@.satellites),
    {
        proof {
            use_type_invariant(&self.satellites);
        }
        &self.satellites
    }

    /// The selected names, in the order selected.
    pub fn selected_satellites(&self) -> (v: &Vec<String>)
        ensures
            string_views(v@) == self@.selected,
            self@.selected.no_duplicates(),
    {
        proof {
            use_type_invariant(&self.selected);
        }
        &self.selected.names
    }

    /// The names that the sidebar lists.
    pub fn filtered_satellites(&self) -> (v: &Vec<String>)
        ensures
            string_views(v@) == self@.filtered,
    {
        &self.filtered
    }

    /// The passes of the last prediction.
    pub fn last_predicted_passes(&self) -> (v: &Vec<PredictedPass>)
        ensures
            v@ == self@.passes,
    {
        &self.last_predicted_passes
    }

    /// Whether a pass prediction is under way.
    pub fn is_predicting_pass(&self) -> (b: bool)
        ensures
            b == self@.predicting,
    {
        self.is_predicting_pass
    }

    /// Whether `name` is selected.
    pub fn is_selected(&self, name: &String) -> (b: bool)
        ensures
            b == self@.selected.contains(name@),
    {
        self.selected.position(name).is_some()
    }

    /// Triggers a pass prediction: with no observer or no selection the last
    /// passes are cleared. Otherwise, where the first selected satellite is
    /// loaded, a prediction is marked under way and its catalogue position is
    /// returned, for the caller to run the search on; where it is not loaded,
    /// nothing changes and no search is started.
    pub fn trigger_pass_prediction(&mut self, has_observer: bool) -> (r: Option<usize>)
        ensures
            final(self)@ == triggered(old(self)@, has_observer),
            trigger_target(old(self)@, has_observer, r),
    {
        if !has_observer || self.selected.names.len() == 0 {
            self.last_predicted_passes = Vec::new();
            assert(self@.passes =~= Seq::<PredictedPass>::empty());
            return None;
        }
        let first = &self.selected.names[0];
        assert(self@.selected[0] == first@);
        let r = self.satellites.position(first);
        if r.is_some() {
            self.is_predicting_pass = true;
        }
        r
    }

    /// Toggles the selection of `name`, then triggers a pass prediction.
    pub fn toggle_selected_satellite(&mut self, name: String, has_observer: bool) -> (r: Option<
        usize,
    >)
        ensures
            final(self)@ == triggered(
                TrackerView { selected: toggle_name(old(self)@.selected, name@), ..old(self)@ },
                has_observer,
            ),
            trigger_target(
                TrackerView { selected: toggle_name(old(self)@.selected, name@), ..old(self)@ },
                has_observer,
                r,
            ),
    {
        self.selected.toggle(name);
        self.trigger_pass_prediction(has_observer)
    }

    /// Records the passes of a finished prediction.
    pub fn passes_predicted(&mut self, passes: Vec<PredictedPass>)
        ensures
            final(self)@ == (TrackerView { passes: passes@, predicting: false, ..old(self)@ }),
    {
        self.last_predicted_passes = passes;
        self.is_predicting_pass = false;
    }

    /// Clears the selection.
    pub fn clear_selection(&mut self)
        ensures
            final(self)@ == (TrackerView { selected: Seq::empty(), ..old(self)@ }),
    {
        self.selected = Selection::new();
    }

    /// Forgets the loaded catalogue, the list and the selection, as when a new
    /// category is chosen.
    pub fn clear_for_new_category(&mut self)
        ensures
            final(self)@ == (TrackerView {
                satellites: Seq::empty(),
                selected: Seq::empty(),
                filtered: Seq::empty(),
                ..old(self)@
            }),
    {
        self.satellites = Catalog::new();
        self.selected = Selection::new();
        self.filtered = Vec::new();
        assert(self@.filtered =~= Seq::<Seq<char>>::empty());
    }

    /// Rebuilds the list that the sidebar shows from the catalogue, the search
    /// query and the range flags `in_range` (one per catalogue object, from the
    /// altitude and inclination filters).
    pub fn update_filtered_satellites(&mut self, in_range: &Vec<bool>)
        requires
            in_range@.len() == old(self)@.satellites.len(),
        ensures
            final(self)@ == (TrackerView { filtered: final(self)@.filtered, ..old(self)@ }),
            shows_filtered(old(self)@, in_range@, final(self)@.filtered),
            old(self)@.search_query.len() == 0 ==> forall|x: Seq<char>|
                #[trigger] final(self)@.filtered.contains(x) <==> exists|i: int|
                    0 <= i < old(self)@.satellites.len() && (#[trigger] old(
                        self,
                    )@.satellites[i]).name == x && in_range@[i],
    {
        let q = to_lowercase(self.search_query.as_str());
        let qc = chars_of(q.as_str());
        let n = self.satellites.len();
        let mut keys: Vec<String> = Vec::new();
        for i in 0..n
            invariant
                n == self@.satellites.len(),
                in_range@.len() == n,
                qc@ == lowercase(self@.search_query),
                string_views(keys@) == matching_names(
                    self@.satellites,
                    self@.search_query,
                    in_range@,
                    i as nat,
                ),
        {
            let o = self.satellites.object(i);
            let lname = to_lowercase(o.name.as_str());
            let lc = chars_of(lname.as_str());
            if contains(lc.as_slice(), qc.as_slice()) && in_range[i] {
                let ghost old_keys = keys@;
                keys.push(o.name.clone());
                assert(string_views(keys@) =~= string_views(old_keys).push(o.name@));
            }
        }
        if self.sort_alpha {
            self.filtered = sort_strings(&keys);
        } else {
            self.filtered = keys;
        }
        proof {
            if old(self)@.search_query.len() == 0 {
                use_type_invariant(&self.satellites);
                lemma_empty_query_lists_all_in_range(old(self)@, in_range@, self@.filtered);
            }
        }
    }

    /// Installs a freshly downloaded catalogue: the download is over without
    /// error, and the list is rebuilt.
    pub fn load_satellites(&mut self, catalog: Catalog, in_range: &Vec<bool>)
        requires
            in_range@.len() == catalog@.len(),
        ensures
            final(self)@ == (TrackerView {
                satellites: catalog@,
                filtered: final(self)@.filtered,
                fetching: false,
                fetch_error: None,
                ..old(self)@
            }),
            shows_filtered(
                TrackerView { satellites: catalog@, ..old(self)@ },
                in_range@,
                final(self)@.filtered,
            ),
    {
        self.satellites = catalog;
        self.fetch_in_progress = false;
        self.error_msg = None;
        self.update_filtered_satellites(in_range);
    }

    /// Records a failed download.
    pub fn fetch_failed(&mut self, message: String)
        ensures
            final(self)@ == (TrackerView {
                fetching: false,
                fetch_error: Some(message@),
                ..old(self)@
            }),
    {
        self.fetch_in_progress = false;
        self.error_msg = Some(message);
    }

    /// Asks for a catalogue download of the current category. At most one
    /// download runs at a time: where one is under way nothing changes and the
    /// answer is `false`. Otherwise a download is marked under way, after
    /// forgetting the catalogue, list and selection where the category has just
    /// changed, and the answer is `true`: the caller starts the download.
    pub fn request_refresh(&mut self, category_changed: bool) -> (started: bool)
        ensures
            started == !old(self)@.fetching,
            final(self)@.fetching,
            !started ==> final(self)@ == old(self)@,
            started && category_changed ==> final(self)@ == (TrackerView {
                satellites: Seq::empty(),
                selected: Seq::empty(),
                filtered: Seq::empty(),
                fetching: true,
                ..old(self)@
            }),
            started && !category_changed ==> final(self)@ == (TrackerView {
                fetching: true,
                ..old(self)@
            }),
    {
        if self.fetch_in_progress {
            return false;
        }
        if category_changed {
            self.clear_for_new_category();
        }
        self.fetch_in_progress = true;
        true
    }

    /// Whether a catalogue download is under way.
    pub fn is_fetching(&self) -> (b: bool)
        ensures
            b == self@.fetching,
    {
        self.fetch_in_progress
    }

    /// The error of the last download, if it failed.
    pub fn fetch_error(&self) -> (e: &Option<String>)
        ensures
            message_view(*e) == self@.fetch_error,
    {
        &self.error_msg
    }

    /// Asks for the observer's location to be looked up. Where no lookup is
    /// under way and the query is not empty, a lookup is marked under way, the
    /// last lookup error is forgotten, and the query to look up is returned;
    /// otherwise nothing changes.
    pub fn request_location_search(&mut self) -> (q: Option<String>)
        ensures
            !old(self)@.locating && old(self)@.location_query.len() > 0 ==> {
                &&& q is Some
                &&& q->0@ == old(self)@.location_query
                &&& final(self)@ == (TrackerView {
                    locating: true,
                    location_error: None,
                    ..old(self)@
                })
            },
            old(self)@.locating || old(self)@.location_query.len() == 0 ==> q is None
                && final(self)@ == old(self)@,
    {
        if self.location_in_progress || self.location_query.as_str().is_empty() {
            return None;
        }
        self.location_in_progress = true;
        self.location_error_msg = None;
        Some(self.location_query.clone())
    }

    /// Records a found observer location and triggers a pass prediction for it.
    pub fn location_resolved(&mut self) -> (r: Option<usize>)
        ensures
            final(self)@ == triggered(
                TrackerView { locating: false, location_error: None, ..old(self)@ },
                true,
            ),
            trigger_target(old(self)@, true, r),
    {
        self.location_in_progress = false;
        self.location_error_msg = None;
        self.trigger_pass_prediction(true)
    }

    /// Records a failed location lookup.
    pub fn location_failed(&mut self, message: String)
        ensures
            final(self)@ == (TrackerView {
                locating: false,
                location_error: Some(message@),
                ..old(self)@
            }),
    {
        self.location_in_progress = false;
        self.location_error_msg = Some(message);
    }

    /// Whether a location lookup is under way.
    pub fn is_locating(&self) -> (b: bool)
        ensures
            b == self@.locating,
    {
        self.location_in_progress
    }

    /// The error of the last location lookup, if it failed.
    pub fn location_error(&self) -> (e: &Option<String>)
        ensures
            message_view(*e) == self@.location_error,
    {
        &self.location_error_msg
    }
}

} // verus!
