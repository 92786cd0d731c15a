//! Trails: named stacks of locations (the tabs of the browser) and the collection that holds them.

use vstd::prelude::*;
use vstd::std_specs::cmp::PartialEqSpecImpl;

use crate::model::{
    default_preferences, same_place, Location, LocationView, ViewPreferences,
};
use crate::text::{blank, is_blank};

verus! {

/// The identifier of a Trail.
#[derive(Debug, Hash)]
pub struct TrailId(pub String);

impl View for TrailId {
    type V = Seq<char>;

    open spec fn view(&self) -> Seq<char> {
        self.0@
    }
}

impl TrailId {
    /// An identifier, unless `value` is blank.
    pub fn new(value: &str) -> (r: Option<TrailId>)
        ensures
            r is Some <==> !blank(value@),
            r matches Some(id) ==> id@ == value@,
    {
        if is_blank(value) {
            None
        } else {
            Some(TrailId(String::from_str(value)))
        }
    }

    /// The identifier as text.
    pub fn as_str(&self) -> (r: &str)
        ensures
            r@ == self@,
    {
        self.0.as_str()
    }
}

impl Clone for TrailId {
    fn clone(&self) -> (r: TrailId)
        ensures
            r@ == self@,
    {
        TrailId(self.0.clone())
    }
}

impl PartialEq for TrailId {
    fn eq(&self, other: &TrailId) -> (r: bool) {
        self.0 == other.0
    }
}

impl PartialEqSpecImpl for TrailId {
    open spec fn obeys_eq_spec() -> bool {
        true
    }

    open spec fn eq_spec(&self, other: &TrailId) -> bool {
        self@ == other@
    }
}

impl Eq for TrailId {

}

/// How a Trail's directory is laid out.
#[derive(Clone, Copy, Debug, PartialEq, Eq, Structural)]
pub enum BrowserMode {
    Columns,
    Grid,
    Explorer,
}

impl Default for BrowserMode {
    fn default() -> (r: BrowserMode)
        ensures
            r == BrowserMode::Columns,
    {
        BrowserMode::Columns
    }
}

/// How tightly a Trail's entries are spaced.
#[derive(Clone, Copy, Debug, PartialEq, Eq, Structural)]
pub enum BrowserDensity {
    Compact,
    Airy,
}

impl Default for BrowserDensity {
    fn default() -> (r: BrowserDensity)
        ensures
            r == BrowserDensity::Compact,
    {
        BrowserDensity::Compact
    }
}

/// The view settings a Trail remembers.
#[derive(Clone, Copy, Debug, PartialEq, Eq, Structural)]
pub struct TrailViewState {
    pub browser_mode: BrowserMode,
    pub density: BrowserDensity,
    pub preferences: ViewPreferences,
    pub sidebar_open: bool,
    pub preview_open: bool,
}

/// The default view state: columns, compact, default preferences, sidebar and preview closed.
pub open spec fn default_view_state() -> TrailViewState {
    TrailViewState {
        browser_mode: BrowserMode::Columns,
        density: BrowserDensity::Compact,
        preferences: default_preferences(),
        sidebar_open: false,
        preview_open: false,
    }
}

/// The view state of a new Trail: the default one with the sidebar open.
pub open spec fn new_trail_view_state() -> TrailViewState {
    TrailViewState { sidebar_open: true, ..default_view_state() }
}

impl Default for TrailViewState {
    fn default() -> (r: TrailViewState)
        ensures
            r == default_view_state(),
    {
        TrailViewState {
            browser_mode: BrowserMode::default(),
            density: BrowserDensity::default(),
            preferences: ViewPreferences::default(),
            sidebar_open: false,
            preview_open: false,
        }
    }
}

/// A Trail: a named stack of locations, the last of which is where it currently is.
#[derive(Debug)]
pub struct Trail {
    pub id: TrailId,
    pub name: String,
    pub locations: Vec<Location>,
    pub view: TrailViewState,
    pub pinned: bool,
}

/// What a Trail holds.
#[verifier::ext_equal]
pub struct TrailView {
    pub id: Seq<char>,
    pub name: Seq<char>,
    pub locations: Seq<LocationView>,
    pub view: TrailViewState,
    pub pinned: bool,
}

/// The views of a list of locations.
pub open spec fn location_views(v: Seq<Location>) -> Seq<LocationView> {
    v.map_values(|l: Location| l@)
}

impl View for Trail {
    type V = TrailView;

    open spec fn view(&self) -> TrailView {
        TrailView {
            id: self.id@,
            name: self.name@,
            locations: location_views(self.locations@),
            view: self.view,
            pinned: self.pinned,
        }
    }
}

/// Two lists of locations that denote the same places, one by one.
pub open spec fn same_places(a: Seq<LocationView>, b: Seq<LocationView>) -> bool {
    a.len() == b.len() && forall|i: int| 0 <= i < a.len() ==> same_place(#[trigger] a[i], b[i])
}

/// The location a Trail is at: its last one.
pub open spec fn trail_location(t: TrailView) -> Option<LocationView> {
    if t.locations.len() > 0 {
        Some(t.locations.last())
    } else {
        None
    }
}

/// Whether two lists of locations denote the same places, one by one.
pub(crate) fn same_locations(a: &Vec<Location>, b: &Vec<Location>) -> (r: bool)
    ensures
        r == same_places(location_views(a@), location_views(b@)),
{
    if a.len() != b.len() {
        return false;
    }
    let mut i: usize = 0;
    while i < a.len()
        invariant
            i <= a@.len() == b@.len(),
            forall|k: int| 0 <= k < i ==> same_place(#[trigger] a@[k]@, b@[k]@),
        decreases a@.len() - i,
    {
        if !(a[i] == b[i]) {
            assert(location_views(a@)[i as int] == a@[i as int]@);
            return false;
        }
        i = i + 1;
    }
    assert forall|k: int| 0 <= k < location_views(a@).len() implies same_place(
        #[trigger] location_views(a@)[k],
        location_views(b@)[k],
    ) by {
        assert(location_views(a@)[k] == a@[k]@);
        assert(location_views(b@)[k] == b@[k]@);
    }
    true
}

impl Trail {
    /// A Trail at the last of `locations`, unless `name` is blank or there is no location.
    /// It starts with the default view state with the sidebar open, and is not pinned.
    pub fn new(id: TrailId, name: &str, locations: Vec<Location>) -> (r: Option<Trail>)
        ensures
            r is Some <==> (!blank(name@) && locations@.len() > 0),
            r matches Some(t) ==> t@ == (TrailView {
                id: id@,
                name: name@,
                locations: location_views(locations@),
                view: new_trail_view_state(),
                pinned: false,
            }),
    {
        if is_blank(name) || locations.len() == 0 {
            return None;
        }
        let default_view = TrailViewState::default();
        Some(
            Trail {
                id,
                name: String::from_str(name),
                locations,
                view: TrailViewState { sidebar_open: true, ..default_view },
                pinned: false,
            },
        )
    }

    /// Where the Trail is: its last location.
    pub fn active_location(&self) -> (r: Option<&Location>)
        ensures
            r matches Some(l) ==> trail_location(self@) == Some(l@),
            r is None ==> trail_location(self@) is None,
    {
        if self.locations.len() == 0 {
            None
        } else {
            Some(&self.locations[self.locations.len() - 1])
        }
    }
}

impl Clone for Trail {
    fn clone(&self) -> (r: Trail)
        ensures
            r@ == self@,
    {
        let locations = self.locations.clone();
        assert(location_views(locations@) =~= location_views(self.locations@));
        Trail {
            id: self.id.clone(),
            name: self.name.clone(),
            locations,
            view: self.view,
            pinned: self.pinned,
        }
    }
}

/// Two Trails that agree field by field, their locations denoting the same places.
pub open spec fn same_trail(a: TrailView, b: TrailView) -> bool {
    &&& a.id == b.id
    &&& a.name == b.name
    &&& same_places(a.locations, b.locations)
    &&& a.view == b.view
    &&& a.pinned == b.pinned
}

impl PartialEq for Trail {
    fn eq(&self, other: &Trail) -> (r: bool) {
        self.id == other.id && self.name == other.name && same_locations(
            &self.locations,
            &other.locations,
        ) && self.view == other.view && self.pinned == other.pinned
    }
}

impl PartialEqSpecImpl for Trail {
    open spec fn obeys_eq_spec() -> bool {
        true
    }

    open spec fn eq_spec(&self, other: &Trail) -> bool {
        same_trail(self@, other@)
    }
}

impl Eq for Trail {

}


/// The Trails of the browser and which of them is active.
#[derive(Debug)]
pub struct TrailCollection {
    pub trails: Vec<Trail>,
    pub active: Option<TrailId>,
}

/// What a collection holds.
#[verifier::ext_equal]
pub struct CollectionView {
    pub trails: Seq<TrailView>,
    pub active: Option<Seq<char>>,
}

/// The views of a list of Trails.
pub open spec fn trail_views(v: Seq<Trail>) -> Seq<TrailView> {
    v.map_values(|t: Trail| t@)
}

/// The view of an optional identifier.
pub open spec fn id_view(id: Option<TrailId>) -> Option<Seq<char>> {
    match id {
        Some(i) => Some(i@),
        None => None,
    }
}

impl View for TrailCollection {
    type V = CollectionView;

    open spec fn view(&self) -> CollectionView {
        CollectionView { trails: trail_views(self.trails@), active: id_view(self.active) }
    }
}

/// The index of the first Trail with identifier `id`, or -1 when there is none.
pub open spec fn first_index(ts: Seq<TrailView>, id: Seq<char>) -> int
    decreases ts.len(),
{
    if ts.len() == 0 {
        -1
    } else {
        let i = first_index(ts.drop_last(), id);
        if i >= 0 {
            i
        } else if ts.last().id == id {
            ts.len() - 1
        } else {
            -1
        }
    }
}

/// What `first_index` is: the first match, or -1 when nothing matches.
pub proof fn lemma_first_index(ts: Seq<TrailView>, id: Seq<char>)
    ensures
        -1 <= first_index(ts, id) < ts.len(),
        first_index(ts, id) >= 0 ==> ts[first_index(ts, id)].id == id,
        forall|j: int| 0 <= j < first_index(ts, id) ==> ts[j].id != id,
        first_index(ts, id) == -1 ==> forall|j: int| 0 <= j < ts.len() ==> ts[j].id != id,
    decreases ts.len(),
{
    if ts.len() > 0 {
        let d = ts.drop_last();
        lemma_first_index(d, id);
        assert forall|j: int| 0 <= j < d.len() implies d[j] == ts[j] by {}
    }
}

/// A match with no match before it is the first one.
pub proof fn lemma_first_index_is(ts: Seq<TrailView>, id: Seq<char>, i: int)
    requires
        -1 <= i < ts.len(),
        i >= 0 ==> ts[i].id == id,
        i >= 0 ==> forall|j: int| 0 <= j < i ==> ts[j].id != id,
        i == -1 ==> forall|j: int| 0 <= j < ts.len() ==> ts[j].id != id,
    ensures
        first_index(ts, id) == i,
{
    lemma_first_index(ts, id);
}

/// The index of the active Trail, or -1 when none is active or the active one is missing.
pub open spec fn active_index(c: CollectionView) -> int {
    match c.active {
        Some(a) => first_index(c.trails, a),
        None => -1,
    }
}

/// The position of the first Trail with identifier `id`.
pub(crate) fn find_trail(trails: &Vec<Trail>, id: &TrailId) -> (r: Option<usize>)
    ensures
        r matches Some(i) ==> first_index(trail_views(trails@), id@) == i,
        r is None ==> first_index(trail_views(trails@), id@) == -1,
{
    let ghost ts = trail_views(trails@);
    let mut i: usize = 0;
    while i < trails.len()
        invariant
            i <= trails@.len(),
            ts == trail_views(trails@),
            forall|j: int| 0 <= j < i ==> ts[j].id != id@,
        decreases trails@.len() - i,
    {
        assert(ts[i as int] == trails@[i as int]@);
        if trails[i].id == *id {
            proof {
                lemma_first_index_is(ts, id@, i as int);
            }
            return Some(i);
        }
        i = i + 1;
    }
    proof {
        lemma_first_index_is(ts, id@, -1);
    }
    None
}

/// The Trails that have at least one location, in order.
pub open spec fn with_locations(ts: Seq<TrailView>) -> Seq<TrailView>
    decreases ts.len(),
{
    if ts.len() == 0 {
        Seq::empty()
    } else if ts.last().locations.len() > 0 {
        with_locations(ts.drop_last()).push(ts.last())
    } else {
        with_locations(ts.drop_last())
    }
}

/// A collection repaired: Trails without locations dropped, and an active identifier that names
/// no remaining Trail replaced by the first Trail's (or by none when no Trail remains).
pub open spec fn normalized(c: CollectionView) -> CollectionView {
    let ts = with_locations(c.trails);
    CollectionView {
        trails: ts,
        active: match c.active {
            Some(a) => if first_index(ts, a) >= 0 {
                Some(a)
            } else if ts.len() > 0 {
                Some(ts[0].id)
            } else {
                None
            },
            None => None,
        },
    }
}

/// A consistent collection: every Trail has a location, and an active identifier names a Trail.
pub open spec fn consistent(c: CollectionView) -> bool {
    &&& forall|i: int| 0 <= i < c.trails.len() ==> #[trigger] c.trails[i].locations.len() > 0
    &&& c.active is Some ==> active_index(c) >= 0
}

/// Repairing a consistent collection changes nothing.
pub proof fn lemma_normalize_consistent_unchanged(c: CollectionView)
    requires
        consistent(c),
    ensures
        normalized(c) == c,
{
    lemma_with_locations_all(c.trails);
    assert(with_locations(c.trails) == c.trails);
}

proof fn lemma_with_locations_all(ts: Seq<TrailView>)
    requires
        forall|i: int| 0 <= i < ts.len() ==> #[trigger] ts[i].locations.len() > 0,
    ensures
        with_locations(ts) == ts,
    decreases ts.len(),
{
    if ts.len() > 0 {
        let d = ts.drop_last();
        assert forall|i: int| 0 <= i < d.len() implies #[trigger] d[i].locations.len() > 0 by {
            assert(d[i] == ts[i]);
        }
        lemma_with_locations_all(d);
        assert(ts.last().locations.len() > 0);
        assert(d.push(ts.last()) =~= ts);
    }
}

/// The Trail a collection has active.
pub open spec fn active_trail_of(c: CollectionView) -> Option<TrailView> {
    if active_index(c) >= 0 {
        Some(c.trails[active_index(c)])
    } else {
        None
    }
}

impl TrailCollection {
    /// The active Trail: the first one with the active identifier.
    pub fn active_trail(&self) -> (r: Option<&Trail>)
        ensures
            r matches Some(t) ==> active_index(self@) >= 0 && t@ == self@.trails[active_index(
                self@,
            )],
            r is None ==> active_index(self@) == -1,
    {
        proof {
            lemma_first_index(self@.trails, self@.active.unwrap_or(Seq::empty()));
        }
        match &self.active {
            Some(active) => match find_trail(&self.trails, active) {
                Some(i) => {
                    assert(self@.trails[i as int] == self.trails@[i as int]@);
                    Some(&self.trails[i])
                },
                None => None,
            },
            None => None,
        }
    }

    /// Repairs the collection as `normalized` states it.
    pub fn normalize(&mut self)
        ensures
            final(self)@ == normalized(old(self)@),
    {
        let ghost old_ts = old(self)@.trails;
        let mut i: usize = 0;
        let ghost mut k: int = 0;
        while i < self.trails.len()
            invariant
                0 <= k <= old_ts.len(),
                trail_views(self.trails@) == with_locations(old_ts.take(k)) + old_ts.skip(k),
                i == with_locations(old_ts.take(k)).len(),
                self.active == old(self).active,
            decreases old_ts.len() - k,
        {
            let ghost before = trail_views(self.trails@);
            let ghost kept = with_locations(old_ts.take(k));
            assert(before[i as int] == self.trails@[i as int]@);
            assert(before[i as int] == old_ts[k]);
            assert(old_ts.take(k + 1).drop_last() =~= old_ts.take(k));
            assert(old_ts.take(k + 1).last() == old_ts[k]);
            if self.trails[i].locations.len() == 0 {
                let ghost vs = self.trails@;
                self.trails.remove(i);
                assert(self.trails@ == vs.remove(i as int));
                assert(trail_views(self.trails@) =~= before.remove(i as int));
                assert(before.remove(i as int) =~= kept + old_ts.skip(k + 1));
            } else {
                assert(trail_views(self.trails@) =~= kept.push(old_ts[k]) + old_ts.skip(k + 1));
                i = i + 1;
            }
            proof {
                k = k + 1;
            }
        }
        proof {
            if k < old_ts.len() {
                assert(trail_views(self.trails@).len() > i);
            }
            assert(old_ts.take(k) =~= old_ts);
            assert(trail_views(self.trails@) =~= with_locations(old_ts));
        }
        let repair = match &self.active {
            Some(active) => find_trail(&self.trails, active).is_none(),
            None => false,
        };
        if repair {
            if self.trails.len() > 0 {
                let first = self.trails[0].id.clone();
                assert(trail_views(self.trails@)[0] == self.trails@[0]@);
                self.active = Some(first);
            } else {
                self.active = None;
            }
        }
    }
}

/// Two collections with the same Trails (field by field) and the same active identifier.
pub open spec fn same_collection(a: CollectionView, b: CollectionView) -> bool {
    &&& a.trails.len() == b.trails.len()
    &&& forall|i: int| 0 <= i < a.trails.len() ==> same_trail(#[trigger] a.trails[i], b.trails[i])
    &&& a.active == b.active
}

impl Clone for TrailCollection {
    fn clone(&self) -> (r: TrailCollection)
        ensures
            r@ == self@,
    {
        let trails = self.trails.clone();
        assert(trail_views(trails@) =~= trail_views(self.trails@));
        let active = match &self.active {
            Some(a) => Some(a.clone()),
            None => None,
        };
        TrailCollection { trails, active }
    }
}

impl PartialEq for TrailCollection {
    fn eq(&self, other: &TrailCollection) -> (r: bool) {
        if self.trails.len() != other.trails.len() {
            return false;
        }
        let mut i: usize = 0;
        while i < self.trails.len()
            invariant
                i <= self.trails@.len() == other.trails@.len(),
                forall|k: int|
                    0 <= k < i ==> same_trail(#[trigger] self.trails@[k]@, other.trails@[k]@),
            decreases self.trails@.len() - i,
        {
            if !(self.trails[i] == other.trails[i]) {
                assert(self@.trails[i as int] == self.trails@[i as int]@);
                assert(other@.trails[i as int] == other.trails@[i as int]@);
                return false;
            }
            i = i + 1;
        }
        assert forall|k: int| 0 <= k < self@.trails.len() implies same_trail(
            #[trigger] self@.trails[k],
            other@.trails[k],
        ) by {
            assert(self@.trails[k] == self.trails@[k]@);
            assert(other@.trails[k] == other.trails@[k]@);
        }
        match (&self.active, &other.active) {
            (Some(a), Some(b)) => *a == *b,
            (None, None) => true,
            _ => false,
        }
    }
}

impl PartialEqSpecImpl for TrailCollection {
    open spec fn obeys_eq_spec() -> bool {
        true
    }

    open spec fn eq_spec(&self, other: &TrailCollection) -> bool {
        same_collection(self@, other@)
    }
}

impl Eq for TrailCollection {

}

impl Default for TrailCollection {
    fn default() -> (r: TrailCollection)
        ensures
            r@.trails == Seq::<TrailView>::empty(),
            r@.active is None,
    {
        let r = TrailCollection { trails: Vec::new(), active: None };
        assert(r@.trails =~= Seq::<TrailView>::empty());
        r
    }
}

/// Repairing a collection twice is the same as repairing it once.
pub proof fn lemma_normalize_idempotent(c: CollectionView)
    ensures
        normalized(normalized(c)) == normalized(c),
{
    let ts = with_locations(c.trails);
    lemma_with_locations_idempotent(c.trails);
    lemma_first_index(ts, normalized(c).active.unwrap_or(Seq::empty()));
    match c.active {
        Some(a) => {
            if first_index(ts, a) < 0 && ts.len() > 0 {
                lemma_first_index(ts, ts[0].id);
            }
        },
        None => {},
    }
}

/// A repaired collection is consistent: every Trail has a location, and when an identifier is
/// active it names a Trail.
pub proof fn lemma_normalized_consistent(c: CollectionView)
    ensures
        forall|i: int|
            0 <= i < normalized(c).trails.len() ==> #[trigger] normalized(c).trails[i].locations.len()
                > 0,
        normalized(c).active is Some ==> active_index(normalized(c)) >= 0,
{
    let ts = with_locations(c.trails);
    lemma_with_locations_nonempty(c.trails);
    match c.active {
        Some(a) => {
            lemma_first_index(ts, a);
            if first_index(ts, a) < 0 && ts.len() > 0 {
                lemma_first_index(ts, ts[0].id);
            }
        },
        None => {},
    }
}

/// Dropping the Trails without locations keeps no Trail whose identifier only Trails without
/// locations carry.
proof fn lemma_with_locations_drops_id(ts: Seq<TrailView>, a: Seq<char>)
    requires
        forall|j: int| 0 <= j < ts.len() && #[trigger] ts[j].id == a ==> ts[j].locations.len() == 0,
    ensures
        forall|k: int| 0 <= k < with_locations(ts).len() ==> #[trigger] with_locations(ts)[k].id != a,
    decreases ts.len(),
{
    if ts.len() > 0 {
        let d = ts.drop_last();
        assert forall|j: int| 0 <= j < d.len() && #[trigger] d[j].id == a implies d[j].locations.len()
            == 0 by {
            assert(d[j] == ts[j]);
        }
        lemma_with_locations_drops_id(d, a);
        assert(ts.last() == ts[ts.len() - 1]);
        let w = with_locations(ts);
        let r = with_locations(d);
        assert forall|k: int| 0 <= k < w.len() implies #[trigger] w[k].id != a by {
            if k < r.len() {
                assert(w[k] == r[k]);
            }
        }
    }
}

/// When the Trails before `i` have no locations and Trail `i` has some, Trail `i` is the first
/// Trail kept.
proof fn lemma_with_locations_first(ts: Seq<TrailView>, i: int)
    requires
        0 <= i < ts.len(),
        ts[i].locations.len() > 0,
        forall|j: int| 0 <= j < i ==> #[trigger] ts[j].locations.len() == 0,
    ensures
        with_locations(ts).len() > 0,
        with_locations(ts)[0] == ts[i],
    decreases ts.len(),
{
    let d = ts.drop_last();
    if i < ts.len() - 1 {
        assert(d[i] == ts[i]);
        assert forall|j: int| 0 <= j < i implies #[trigger] d[j].locations.len() == 0 by {
            assert(d[j] == ts[j]);
        }
        lemma_with_locations_first(d, i);
    } else {
        assert forall|j: int| 0 <= j < d.len() implies #[trigger] d[j].locations.len() == 0 by {
            assert(d[j] == ts[j]);
        }
        lemma_with_locations_none(d);
        assert(ts.last() == ts[i]);
    }
}

/// Trails none of which has a location are all dropped.
proof fn lemma_with_locations_none(ts: Seq<TrailView>)
    requires
        forall|j: int| 0 <= j < ts.len() ==> #[trigger] ts[j].locations.len() == 0,
    ensures
        with_locations(ts).len() == 0,
    decreases ts.len(),
{
    if ts.len() > 0 {
        let d = ts.drop_last();
        assert forall|j: int| 0 <= j < d.len() implies #[trigger] d[j].locations.len() == 0 by {
            assert(d[j] == ts[j]);
        }
        lemma_with_locations_none(d);
        assert(ts.last() == ts[ts.len() - 1]);
    }
}

/// Repairing a collection whose active identifier names no Trail with a location activates the
/// first Trail that has one: the Trail `i`, when the Trails before it have none.
pub proof fn lemma_normalize_activates_first_kept(c: CollectionView, i: int)
    requires
        c.active is Some,
        forall|j: int|
            0 <= j < c.trails.len() && #[trigger] c.trails[j].id == c.active.unwrap()
                ==> c.trails[j].locations.len() == 0,
        0 <= i < c.trails.len(),
        c.trails[i].locations.len() > 0,
        forall|j: int| 0 <= j < i ==> #[trigger] c.trails[j].locations.len() == 0,
    ensures
        normalized(c).active == Some(c.trails[i].id),
{
    let a = c.active.unwrap();
    let ts = with_locations(c.trails);
    lemma_with_locations_drops_id(c.trails, a);
    lemma_first_index(ts, a);
    if first_index(ts, a) >= 0 {
        assert(ts[first_index(ts, a)].id != a);
    }
    lemma_with_locations_first(c.trails, i);
}

proof fn lemma_with_locations_nonempty(ts: Seq<TrailView>)
    ensures
        forall|i: int|
            0 <= i < with_locations(ts).len() ==> #[trigger] with_locations(ts)[i].locations.len()
                > 0,
        with_locations(ts).len() <= ts.len(),
    decreases ts.len(),
{
    if ts.len() > 0 {
        lemma_with_locations_nonempty(ts.drop_last());
        let rest = with_locations(ts.drop_last());
        if ts.last().locations.len() > 0 {
            assert forall|i: int| 0 <= i < with_locations(ts).len() implies #[trigger] with_locations(
                ts,
            )[i].locations.len() > 0 by {
                if i < rest.len() {
                    assert(with_locations(ts)[i] == rest[i]);
                }
            }
        }
    }
}

proof fn lemma_with_locations_idempotent(ts: Seq<TrailView>)
    ensures
        with_locations(with_locations(ts)) == with_locations(ts),
    decreases ts.len(),
{
    if ts.len() > 0 {
        lemma_with_locations_idempotent(ts.drop_last());
        let rest = with_locations(ts.drop_last());
        if ts.last().locations.len() > 0 {
            let w = rest.push(ts.last());
            assert(w.drop_last() =~= rest);
        }
    }
}

} // verus!
