//! The Trails of a window: the collection in memory and the store that keeps it.

use vstd::prelude::*;

use crate::model::{
    breadcrumbs_of, display_name_of, lemma_breadcrumbs_nonempty, Location, LocationView,
};
use crate::services::{empty_record, StoredTrails, StoredView, TrailStore};
use crate::text::{append_decimal, blank, decimal, is_blank, lemma_decimal_injective};
use crate::trail::{
    consistent, new_trail_view_state, active_index, active_trail_of, find_trail, first_index, id_view, lemma_first_index,
    trail_location, trail_views, CollectionView, Trail, TrailId, TrailView, TrailViewState,
};

verus! {

/// The Trails of a window, kept in memory and saved through a store after each change.
pub struct Trails<S: TrailStore> {
    store: S,
    stored: StoredTrails,
}

impl<S: TrailStore> View for Trails<S> {
    type V = StoredView;

    /// The record the Trails hold, as values.
    open spec fn view(&self) -> StoredView {
        self.stored_spec()@
    }
}

/// Why a change to the Trails failed.
#[derive(Debug)]
pub enum TrailsError {
    /// The name given for a Trail is blank: empty or white space only. Nothing was changed.
    BlankName,
    /// The store failed to save the changed Trails, with this error.
    Store(std::io::Error),
}

/// The outcome of a call, with its value dropped.
pub open spec fn outcome<T>(r: std::io::Result<T>) -> std::io::Result<()> {
    match r {
        Ok(_) => Ok(()),
        Err(e) => Err(e),
    }
}

/// The identifier of the Trail made when there is none: `default`.
pub open spec fn default_id() -> Seq<char> {
    seq!['d', 'e', 'f', 'a', 'u', 'l', 't']
}

/// A Trail made at `location`: its breadcrumbs are its locations, and it is not pinned.
pub open spec fn trail_at(id: Seq<char>, name: Seq<char>, location: LocationView, view: TrailViewState) -> TrailView {
    TrailView { id, name, locations: breadcrumbs_of(location), view, pinned: false }
}

/// The collection with `id` made active.
pub open spec fn with_active(c: CollectionView, id: Seq<char>) -> CollectionView {
    CollectionView { trails: c.trails, active: Some(id) }
}

/// The collection after activating `id`: unchanged when no Trail has it.
pub open spec fn activation(c: CollectionView, id: Seq<char>) -> CollectionView {
    if first_index(c.trails, id) >= 0 {
        with_active(c, id)
    } else {
        c
    }
}

/// The index `cycle` moves to: `offset` steps from the active Trail (or from the first when none
/// is active), wrapping around.
pub open spec fn cycle_target(c: CollectionView, offset: int) -> int {
    let current = if active_index(c) >= 0 {
        active_index(c)
    } else {
        0
    };
    (current + offset) % (c.trails.len() as int)
}

/// The collection with Trail `i` renamed.
pub open spec fn renamed(c: CollectionView, i: int, name: Seq<char>) -> CollectionView {
    CollectionView { trails: c.trails.update(i, TrailView { name, ..c.trails[i] }), active: c.active }
}

/// The collection with Trail `i` pinned or unpinned.
pub open spec fn repinned(c: CollectionView, i: int) -> CollectionView {
    CollectionView {
        trails: c.trails.update(i, TrailView { pinned: !c.trails[i].pinned, ..c.trails[i] }),
        active: c.active,
    }
}

/// The collection after closing `id`: the first Trail with that identifier removed, unless it is
/// the only Trail or there is none; when it was active, its neighbour (the Trail that took its
/// place, or the new last one) becomes active.
pub open spec fn closing(c: CollectionView, id: Seq<char>) -> CollectionView {
    let i = first_index(c.trails, id);
    if c.trails.len() <= 1 || i < 0 {
        c
    } else {
        let ts = c.trails.remove(i);
        CollectionView {
            trails: ts,
            active: if c.active == Some(id) {
                Some(ts[if i < ts.len() { i } else { ts.len() - 1 }].id)
            } else {
                c.active
            },
        }
    }
}

/// The collection after the active Trail navigated to `location`: its locations become the
/// breadcrumbs of `location`; nothing changes when no Trail is active or it is already there.
pub open spec fn relocated(c: CollectionView, location: LocationView) -> CollectionView {
    let i = active_index(c);
    if i < 0 || crate::trail::same_places(c.trails[i].locations, breadcrumbs_of(location)) {
        c
    } else {
        CollectionView {
            trails: c.trails.update(i, TrailView { locations: breadcrumbs_of(location), ..c.trails[i] }),
            active: c.active,
        }
    }
}

/// The collection after the active Trail's view state became `view`.
pub open spec fn restyled(c: CollectionView, view: TrailViewState) -> CollectionView {
    let i = active_index(c);
    if i < 0 || c.trails[i].view == view {
        c
    } else {
        CollectionView {
            trails: c.trails.update(i, TrailView { view, ..c.trails[i] }),
            active: c.active,
        }
    }
}

/// Closing a Trail removes exactly it, keeping the others in order. When it was the active one,
/// the Trail that followed it becomes active, or, when it was the last, the Trail before it;
/// otherwise the active identifier stays.
pub proof fn lemma_close_selects_neighbour(c: CollectionView, id: Seq<char>)
    requires
        c.trails.len() > 1,
        first_index(c.trails, id) >= 0,
    ensures
        closing(c, id).trails == c.trails.remove(first_index(c.trails, id)),
        c.active == Some(id) && first_index(c.trails, id) + 1 < c.trails.len() ==> closing(c, id).active
            == Some(c.trails[first_index(c.trails, id) + 1].id),
        c.active == Some(id) && first_index(c.trails, id) + 1 == c.trails.len() ==> closing(c, id).active
            == Some(c.trails[first_index(c.trails, id) - 1].id),
        c.active != Some(id) ==> closing(c, id).active == c.active,
{
    let i = first_index(c.trails, id);
    lemma_first_index(c.trails, id);
    let ts = c.trails.remove(i);
    if i + 1 < c.trails.len() {
        assert(ts[i] == c.trails[i + 1]);
    } else {
        assert(ts[ts.len() - 1] == c.trails[i - 1]);
    }
}

/// Navigating with a Trail active leaves that Trail's locations denoting exactly the breadcrumbs
/// of the new location, one for one; every other Trail, the active identifier, and the active
/// Trail's identifier, name, view and pin stay as they were.
pub proof fn lemma_navigate_sets_breadcrumbs(c: CollectionView, l: LocationView)
    requires
        active_index(c) >= 0,
    ensures
        relocated(c, l).trails.len() == c.trails.len(),
        relocated(c, l).active == c.active,
        crate::trail::same_places(relocated(c, l).trails[active_index(c)].locations, breadcrumbs_of(l)),
        relocated(c, l).trails[active_index(c)].locations.len() == breadcrumbs_of(l).len(),
        relocated(c, l).trails[active_index(c)] == (TrailView {
            locations: relocated(c, l).trails[active_index(c)].locations,
            ..c.trails[active_index(c)]
        }),
        forall|j: int|
            0 <= j < c.trails.len() && j != active_index(c) ==> #[trigger] relocated(c, l).trails[j]
                == c.trails[j],
{
    let i = active_index(c);
    lemma_first_index(c.trails, c.active.unwrap());
    let b = breadcrumbs_of(l);
    assert forall|k: int| 0 <= k < b.len() implies crate::model::same_place(#[trigger] b[k], b[k]) by {
        match b[k] {
            LocationView::Native(_) => {},
            LocationView::Uri(_) => {},
        }
    }
}

/// The view of an optional location.
pub open spec fn location_opt(o: Option<Location>) -> Option<LocationView> {
    match o {
        Some(l) => Some(l@),
        None => None,
    }
}

/// Where the active Trail of a collection is.
pub open spec fn active_location_of(c: CollectionView) -> Option<LocationView> {
    match active_trail_of(c) {
        Some(t) => trail_location(t),
        None => None,
    }
}

/// The identifier `trail-<k>`.
pub open spec fn generated_id(k: nat) -> Seq<char> {
    seq!['t', 'r', 'a', 'i', 'l', '-'] + decimal(k)
}

/// Some Trail has identifier `id`.
pub open spec fn taken(ts: Seq<TrailView>, id: Seq<char>) -> bool {
    first_index(ts, id) >= 0
}

/// `id` is `trail-<j>` for some `j >= k`.
pub open spec fn generated_from(id: Seq<char>, k: nat) -> bool {
    exists|j: nat| j >= k && id == generated_id(j)
}

/// How many Trails have an identifier `trail-<j>` with `j >= k`.
pub open spec fn generated_count(ts: Seq<TrailView>, k: nat) -> nat
    decreases ts.len(),
{
    if ts.len() == 0 {
        0
    } else {
        generated_count(ts.drop_last(), k) + if generated_from(ts.last().id, k) {
            1nat
        } else {
            0nat
        }
    }
}

pub proof fn lemma_generated_id_injective(a: nat, b: nat)
    requires
        generated_id(a) == generated_id(b),
    ensures
        a == b,
{
    assert(decimal(a) =~= generated_id(a).skip(6));
    assert(decimal(b) =~= generated_id(b).skip(6));
    lemma_decimal_injective(a, b);
}

/// Taking `trail-<k>` out of the running lowers the count when some Trail has it.
pub proof fn lemma_generated_count_step(ts: Seq<TrailView>, k: nat)
    ensures
        generated_count(ts, k + 1) <= generated_count(ts, k),
        taken(ts, generated_id(k)) ==> generated_count(ts, k + 1) < generated_count(ts, k),
        generated_count(ts, k) <= ts.len(),
    decreases ts.len(),
{
    lemma_first_index(ts, generated_id(k));
    if ts.len() > 0 {
        let d = ts.drop_last();
        lemma_generated_count_step(d, k);
        lemma_first_index(d, generated_id(k));
        let id = ts.last().id;
        if generated_from(id, k + 1) {
            let j = choose|j: nat| j >= k + 1 && id == generated_id(j);
            assert(generated_from(id, k));
        }
        if id == generated_id(k) {
            assert(generated_from(id, k));
            if generated_from(id, k + 1) {
                let j = choose|j: nat| j >= k + 1 && id == generated_id(j);
                lemma_generated_id_injective(j, k);
            }
        }
        if taken(ts, generated_id(k)) && !taken(d, generated_id(k)) {
            assert(forall|j: int| 0 <= j < d.len() ==> d[j] == ts[j]);
            assert(ts.last().id == generated_id(k));
        }
    }
}

/// The suffix of the identifier a new Trail gets: the first `k` from `start` for which
/// `trail-<k>` is free.
pub open spec fn free_suffix_from(ts: Seq<TrailView>, start: nat) -> nat
    decreases generated_count(ts, start),
{
    if taken(ts, generated_id(start)) {
        proof {
            lemma_generated_count_step(ts, start);
        }
        free_suffix_from(ts, start + 1)
    } else {
        start
    }
}

/// The identifier a new Trail gets: `trail-<k>` for the first `k` past the number of Trails that
/// no Trail has yet.
pub open spec fn next_id_of(ts: Seq<TrailView>) -> Seq<char> {
    generated_id(free_suffix_from(ts, (ts.len() + 1) as nat))
}

/// What `free_suffix_from` is: free itself, with every suffix before it taken.
proof fn lemma_free_suffix(ts: Seq<TrailView>, start: nat)
    ensures
        free_suffix_from(ts, start) >= start,
        !taken(ts, generated_id(free_suffix_from(ts, start))),
        forall|k: nat|
            start <= k < free_suffix_from(ts, start) ==> taken(ts, #[trigger] generated_id(k)),
    decreases generated_count(ts, start),
{
    if taken(ts, generated_id(start)) {
        lemma_generated_count_step(ts, start);
        lemma_free_suffix(ts, start + 1);
    }
}

/// Changing one Trail but not its identifier keeps every identifier where it was; a change that
/// keeps its locations non-empty keeps the collection consistent.
pub proof fn lemma_update_keeps_ids(c: CollectionView, d: CollectionView, i: int)
    requires
        0 <= i < c.trails.len(),
        d.trails.len() == c.trails.len(),
        d.active == c.active,
        d.trails[i].id == c.trails[i].id,
        d.trails[i].locations.len() > 0 || c.trails[i].locations.len() == 0,
        forall|j: int| 0 <= j < c.trails.len() && j != i ==> d.trails[j] == c.trails[j],
    ensures
        forall|id: Seq<char>| first_index(d.trails, id) == first_index(c.trails, id),
        active_index(d) == active_index(c),
        consistent(c) ==> consistent(d),
        distinct_ids(c.trails) ==> distinct_ids(d.trails),
{
    assert forall|id: Seq<char>| first_index(d.trails, id) == first_index(c.trails, id) by {
        lemma_first_index(c.trails, id);
        crate::trail::lemma_first_index_is(d.trails, id, first_index(c.trails, id));
    }
    if consistent(c) {
        assert forall|j: int| 0 <= j < d.trails.len() implies #[trigger] d.trails[j].locations.len()
            > 0 by {
            if j != i {
                assert(d.trails[j] == c.trails[j]);
            }
        }
    }
}

/// `current + offset`, wrapped into `0..len`.
fn wrap_index(current: usize, offset: isize, len: usize) -> (r: usize)
    requires
        0 <= current < len,
    ensures
        r as int == (current + offset) % (len as int),
        r < len,
{
    let off: usize;
    let ghost c: int;
    if offset >= 0 {
        let o = offset as usize;
        off = o % len;
        proof {
            vstd::arithmetic::div_mod::lemma_fundamental_div_mod(o as int, len as int);
            c = o as int / len as int;
        }
    } else {
        let t = (-(offset + 1)) as usize;
        let m = t % len;
        let neg = (m + 1) % len;
        off = if neg == 0 {
            0
        } else {
            len - neg
        };
        proof {
            vstd::arithmetic::div_mod::lemma_fundamental_div_mod(t as int, len as int);
            let b = t as int / len as int;
            if m + 1 < len {
                vstd::arithmetic::div_mod::lemma_small_mod((m + 1) as nat, len as nat);
            } else {
                assert(m + 1 == len);
                vstd::arithmetic::div_mod::lemma_mod_self_0(len as int);
            }
            c = -(b + 1);
            assert(offset as int == off + c * len) by (nonlinear_arith)
                requires
                    t == -(offset + 1),
                    t == len * b + m,
                    off == (if m + 1 == len {
                        0
                    } else {
                        len - (m + 1)
                    }),
                    c == -(b + 1),
            ;
        }
    }
    assert(offset as int == off + c * len) by (nonlinear_arith)
        requires
            offset >= 0 ==> offset as int == len * (offset as int / len as int) + off,
            offset >= 0 ==> c == offset as int / len as int,
            offset < 0 ==> offset as int == off + c * len,
    ;
    let r = if off >= len - current {
        off - (len - current)
    } else {
        current + off
    };
    proof {
        let q = if off >= len - current {
            c + 1
        } else {
            c
        };
        assert(current + offset == q * len + r) by (nonlinear_arith)
            requires
                offset == off + c * len,
                q == (if off >= len - current {
                    c + 1
                } else {
                    c
                }),
                r == (if off >= len - current {
                    off - (len - current)
                } else {
                    current + off
                }),
        ;
        vstd::arithmetic::div_mod::lemma_fundamental_div_mod_converse(
            current + offset,
            len as int,
            q,
            r as int,
        );
    }
    r
}

/// Closing keeps distinct identifiers distinct.
pub proof fn lemma_closing_distinct(c: CollectionView, id: Seq<char>)
    requires
        distinct_ids(c.trails),
    ensures
        distinct_ids(closing(c, id).trails),
{
    let i = first_index(c.trails, id);
    lemma_first_index(c.trails, id);
    if c.trails.len() > 1 && i >= 0 {
        let ts = c.trails.remove(i);
        assert forall|x: int, y: int| 0 <= x < y < ts.len() implies ts[x].id != ts[y].id by {
            let xo = if x < i {
                x
            } else {
                x + 1
            };
            let yo = if y < i {
                y
            } else {
                y + 1
            };
            assert(ts[x] == c.trails[xo]);
            assert(ts[y] == c.trails[yo]);
        }
    }
}

/// Closing keeps a consistent collection consistent.
pub proof fn lemma_closing_consistent(c: CollectionView, id: Seq<char>)
    requires
        consistent(c),
    ensures
        consistent(closing(c, id)),
{
    let i = first_index(c.trails, id);
    lemma_first_index(c.trails, id);
    if c.trails.len() > 1 && i >= 0 {
        let ts = c.trails.remove(i);
        let d = closing(c, id);
        assert forall|j: int| 0 <= j < ts.len() implies #[trigger] ts[j].locations.len() > 0 by {
            if j < i {
                assert(ts[j] == c.trails[j]);
            } else {
                assert(ts[j] == c.trails[j + 1]);
            }
        }
        if let Some(a) = d.active {
            lemma_first_index(ts, a);
            if c.active == Some(id) {
                let k = if i < ts.len() {
                    i
                } else {
                    ts.len() - 1
                };
                assert(ts[k].id == a);
            } else {
                let j = first_index(c.trails, a);
                lemma_first_index(c.trails, a);
                assert(j != i);
                if j < i {
                    assert(ts[j].id == a);
                } else {
                    assert(ts[j - 1].id == a);
                }
            }
        }
    }
}

/// The collection after `cycle(offset)` on a non-empty collection.
pub open spec fn cycled(c: CollectionView, offset: int) -> CollectionView {
    activation(c, c.trails[cycle_target(c, offset)].id)
}

/// No two Trails share an identifier.
pub open spec fn distinct_ids(ts: Seq<TrailView>) -> bool {
    forall|i: int, j: int| 0 <= i < j < ts.len() ==> ts[i].id != ts[j].id
}

/// Cycling forward by `offset` and then back by `offset` returns to the Trail that was active,
/// when a Trail is active and no two Trails share an identifier.
pub proof fn lemma_cycle_round_trip(c: CollectionView, offset: int)
    requires
        c.trails.len() > 0,
        active_index(c) >= 0,
        distinct_ids(c.trails),
    ensures
        cycled(cycled(c, offset), -offset).active == c.active,
        cycled(cycled(c, offset), -offset).trails == c.trails,
{
    let n = c.trails.len() as int;
    let a = active_index(c);
    let ts = c.trails;
    lemma_first_index(ts, c.active.unwrap());
    let t = cycle_target(c, offset);
    assert(t == (a + offset) % n);
    vstd::arithmetic::div_mod::lemma_fundamental_div_mod(a + offset, n);
    vstd::arithmetic::div_mod::lemma_mod_bound(a + offset, n);
    let c1 = cycled(c, offset);
    crate::trail::lemma_first_index_is(ts, ts[t].id, t);
    assert(c1 == with_active(c, ts[t].id));
    assert(active_index(c1) == t);
    let u = cycle_target(c1, -offset);
    assert(u == (t - offset) % n);
    let q = (a + offset) / n;
    assert(t - offset == a + (-q) * n) by (nonlinear_arith)
        requires
            a + offset == n * q + t,
    ;
    vstd::arithmetic::div_mod::lemma_fundamental_div_mod_converse(t - offset, n, -q, a);
    assert(u == a);
    crate::trail::lemma_first_index_is(ts, ts[a].id, a);
}

/// The identifier a new Trail gets is free.
pub proof fn lemma_free_id(ts: Seq<TrailView>)
    ensures
        !taken(ts, next_id_of(ts)),
{
    lemma_free_suffix(ts, (ts.len() + 1) as nat);
}

/// The identifier for a Trail added to `trails`, as `next_id_of` states it.
fn next_id(trails: &Vec<Trail>) -> (r: TrailId)
    ensures
        r@ == next_id_of(trail_views(trails@)),
{
    let ghost ts = trail_views(trails@);
    let len: u128 = trails.len() as u128;
    let mut suffix: u128 = len + 1;
    proof {
        lemma_generated_count_step(ts, suffix as nat);
    }
    loop
        invariant
            ts == trail_views(trails@),
            len == ts.len(),
            len <= usize::MAX,
            len + 1 <= suffix,
            suffix + generated_count(ts, suffix as nat) <= 2 * len + 1,
            free_suffix_from(ts, suffix as nat) == free_suffix_from(ts, (len + 1) as nat),
        decreases generated_count(ts, suffix as nat),
    {
        let mut text = String::from_str("trail-");
        proof {
            reveal_strlit("trail-");
        }
        append_decimal(&mut text, suffix);
        assert(text@ =~= generated_id(suffix as nat));
        let candidate = TrailId(text);
        match find_trail(trails, &candidate) {
            None => {
                return candidate;
            },
            Some(_) => {
                proof {
                    assert(taken(ts, generated_id(suffix as nat)));
                    lemma_generated_count_step(ts, suffix as nat);
                    lemma_generated_count_step(ts, (suffix + 1) as nat);
                }
                suffix = suffix + 1;
            },
        }
    }
}

impl<S: TrailStore> Trails<S> {
    /// The store these Trails are saved through.
    pub closed spec fn store_spec(&self) -> S {
        self.store
    }

    /// The record these Trails hold.
    pub closed spec fn stored_spec(&self) -> StoredTrails {
        self.stored
    }

    /// `r` is what the store answered when it was handed the record these Trails hold.
    pub open spec fn saved_as(&self, r: std::io::Result<()>) -> bool {
        call_ensures(S::save, (&self.store_spec(), &self.stored_spec()), r)
    }

    /// `r` answers a change handed to the store: `Ok` when the store answered `Ok` for the record
    /// these Trails hold, the store's error when it failed.
    pub open spec fn answered<T>(&self, r: Result<T, TrailsError>) -> bool {
        match r {
            Ok(_) => self.saved_as(Ok(())),
            Err(TrailsError::Store(e)) => self.saved_as(Err(e)),
            Err(TrailsError::BlankName) => false,
        }
    }

    /// Trails holding the record that `store` loads; the store's failure when it fails.
    pub fn load(store: S) -> (r: std::io::Result<Trails<S>>)
        ensures
            r matches Ok(t) ==> t.store_spec() == store && call_ensures(
                S::load,
                (&store,),
                Ok::<StoredTrails, std::io::Error>(t.stored_spec()),
            ),
            r matches Err(e) ==> call_ensures(
                S::load,
                (&store,),
                Err::<StoredTrails, std::io::Error>(e),
            ),
    {
        match store.load() {
            Ok(stored) => Ok(Trails { store, stored }),
            Err(e) => Err(e),
        }
    }

    /// No Trails yet, saved through `store` from now on.
    pub fn empty(store: S) -> (r: Trails<S>)
        ensures
            empty_record(r@),
            r.store_spec() == store,
    {
        Trails { store, stored: StoredTrails::default() }
    }

    /// All Trails, in order.
    pub fn all(&self) -> (r: Vec<Trail>)
        ensures
            trail_views(r@) == self@.collection.trails,
    {
        let r = self.stored.collection.trails.clone();
        assert(trail_views(r@) =~= self@.collection.trails);
        r
    }

    /// The active identifier.
    pub fn active_id(&self) -> (r: Option<TrailId>)
        ensures
            id_view(r) == self@.collection.active,
    {
        match &self.stored.collection.active {
            Some(id) => Some(id.clone()),
            None => None,
        }
    }

    /// Where the active Trail is.
    pub fn active_location(&self) -> (r: Option<Location>)
        ensures
            location_opt(r) == active_location_of(self@.collection),
    {
        match self.stored.collection.active_trail() {
            Some(t) => match t.active_location() {
                Some(l) => Some(l.clone()),
                None => None,
            },
            None => None,
        }
    }

    /// When there is no Trail yet, makes a `default` Trail at `location`, named after it, and
    /// activates it; otherwise does nothing.
    pub fn ensure_default(&mut self, location: Location) -> (r: std::io::Result<()>)
        requires
            old(self)@.collection.trails.len() == 0 ==> !blank(display_name_of(location@)),
        ensures
            final(self).store_spec() == old(self).store_spec(),
            final(self)@.schema_version == old(self)@.schema_version,
            old(self)@.collection.trails.len() > 0 ==> r is Ok && final(self)@ == old(self)@,
            old(self)@.collection.trails.len() == 0 ==> final(self).saved_as(r),
            old(self)@.collection.trails.len() == 0 ==> final(self)@.collection == (CollectionView {
                trails: seq![
                    trail_at(default_id(), display_name_of(location@), location@, new_trail_view_state()),
                ],
                active: Some(default_id()),
            }),
            consistent(old(self)@.collection) ==> consistent(final(self)@.collection),
            distinct_ids(old(self)@.collection.trails) ==> distinct_ids(final(self)@.collection.trails),
    {
        if self.stored.collection.trails.len() > 0 {
            return Ok(());
        }
        let id = TrailId(String::from_str("default"));
        proof {
            reveal_strlit("default");
            lemma_breadcrumbs_nonempty(location@);
        }
        assert(id@ =~= default_id());
        let name = location.display_name();
        let crumbs = location.breadcrumbs();
        assert(crate::trail::location_views(crumbs@) == breadcrumbs_of(location@));
        match Trail::new(id.clone(), name.as_str(), crumbs) {
            Some(trail) => {
                self.stored.collection.active = Some(id);
                self.stored.collection.trails.push(trail);
                proof {
                    let c = final(self)@.collection;
                    assert(c.trails =~= seq![trail@]);
                    assert(c.trails[0].id == default_id());
                    crate::trail::lemma_first_index_is(c.trails, default_id(), 0);
                }
                self.store.save(&self.stored)
            },
            None => {
                assert(false);
                Ok(())
            },
        }
    }

    /// `ensure_default` for any location: when a Trail would have to be made but the name of
    /// `location` is blank, nothing is made and the answer is `false`; otherwise `true` once there
    /// is a Trail.
    pub fn ensure_default_if_named(&mut self, location: Location) -> (r: std::io::Result<bool>)
        ensures
            final(self).store_spec() == old(self).store_spec(),
            final(self)@.schema_version == old(self)@.schema_version,
            old(self)@.collection.trails.len() > 0 ==> (r matches Ok(true)) && final(self)@ == old(self)@,
            old(self)@.collection.trails.len() == 0 && blank(display_name_of(location@)) ==> (r matches Ok(false))
                && final(self)@ == old(self)@,
            old(self)@.collection.trails.len() == 0 && !blank(display_name_of(location@)) ==> {
                &&& final(self)@.collection == (CollectionView {
                    trails: seq![
                        trail_at(default_id(), display_name_of(location@), location@, new_trail_view_state()),
                    ],
                    active: Some(default_id()),
                })
                &&& r matches Ok(b) ==> b
            },
            old(self)@.collection.trails.len() == 0 && !blank(display_name_of(location@))
                ==> final(self).saved_as(outcome(r)),
            consistent(old(self)@.collection) ==> consistent(final(self)@.collection),
            distinct_ids(old(self)@.collection.trails) ==> distinct_ids(final(self)@.collection.trails),
    {
        if self.stored.collection.trails.len() > 0 {
            return Ok(true);
        }
        let name = location.display_name();
        if is_blank(name.as_str()) {
            return Ok(false);
        }
        match self.ensure_default(location) {
            Ok(done) => {
                assert(done == ());
                Ok(true)
            },
            Err(e) => Err(e),
        }
    }

    /// Makes a Trail named `name` at `location` with the view state `view`, and activates it.
    /// Its identifier is the first free `trail-<k>` past the number of Trails.
    pub fn create_with_view(&mut self, name: &str, location: Location, view: TrailViewState) -> (r:
        Result<TrailId, TrailsError>)
        ensures
            final(self).store_spec() == old(self).store_spec(),
            final(self)@.schema_version == old(self)@.schema_version,
            blank(name@) ==> (r matches Err(TrailsError::BlankName)) && final(self)@ == old(self)@,
            !blank(name@) ==> final(self)@.collection == (CollectionView {
                trails: old(self)@.collection.trails.push(
                    trail_at(next_id_of(old(self)@.collection.trails), name@, location@, view),
                ),
                active: Some(next_id_of(old(self)@.collection.trails)),
            }),
            r matches Ok(id) ==> id@ == next_id_of(old(self)@.collection.trails),
            !blank(name@) ==> final(self).answered(r),
            consistent(old(self)@.collection) ==> consistent(final(self)@.collection),
            distinct_ids(old(self)@.collection.trails) ==> distinct_ids(final(self)@.collection.trails),
    {
        let id = next_id(&self.stored.collection.trails);
        proof {
            lemma_breadcrumbs_nonempty(location@);
        }
        let crumbs = location.breadcrumbs();
        assert(crate::trail::location_views(crumbs@) == breadcrumbs_of(location@));
        match Trail::new(id.clone(), name, crumbs) {
            Some(trail) => {
                let mut trail = trail;
                trail.view = view;
                let ghost old_ts = self@.collection.trails;
                self.stored.collection.active = Some(id.clone());
                self.stored.collection.trails.push(trail);
                proof {
                    let c = final(self)@.collection;
                    assert(c.trails =~= old_ts.push(trail@));
                    lemma_free_id(old_ts);
                    lemma_first_index(old_ts, id@);
                    crate::trail::lemma_first_index_is(c.trails, id@, old_ts.len() as int);
                    if distinct_ids(old_ts) {
                        assert forall|x: int, y: int| 0 <= x < y < c.trails.len() implies c.trails[x].id
                            != c.trails[y].id by {
                            if y == old_ts.len() {
                                assert(c.trails[x] == old_ts[x]);
                            }
                        }
                    }
                    if consistent(old(self)@.collection) {
                        if let Some(a) = old(self)@.collection.active {
                            assert(c.trails.take(old_ts.len() as int) =~= old_ts);
                        }
                    }
                }
                match self.store.save(&self.stored) {
                    Ok(done) => {
                        assert(done == ());
                        Ok(id)
                    },
                    Err(e) => Err(TrailsError::Store(e)),
                }
            },
            None => Err(TrailsError::BlankName),
        }
    }

    /// Makes a Trail named `name` at `location`, with the view state a new Trail starts with, and
    /// activates it.
    pub fn create(&mut self, name: &str, location: Location) -> (r: Result<TrailId, TrailsError>)
        ensures
            final(self).store_spec() == old(self).store_spec(),
            final(self)@.schema_version == old(self)@.schema_version,
            blank(name@) ==> (r matches Err(TrailsError::BlankName)) && final(self)@ == old(self)@,
            !blank(name@) ==> final(self)@.collection == (CollectionView {
                trails: old(self)@.collection.trails.push(
                    trail_at(next_id_of(old(self)@.collection.trails), name@, location@, new_trail_view_state()),
                ),
                active: Some(next_id_of(old(self)@.collection.trails)),
            }),
            r matches Ok(id) ==> id@ == next_id_of(old(self)@.collection.trails),
            !blank(name@) ==> final(self).answered(r),
            consistent(old(self)@.collection) ==> consistent(final(self)@.collection),
            distinct_ids(old(self)@.collection.trails) ==> distinct_ids(final(self)@.collection.trails),
    {
        let default_view = TrailViewState::default();
        self.create_with_view(name, location, TrailViewState { sidebar_open: true, ..default_view })
    }

    /// Activates the first Trail with identifier `id` and answers where it is; `None` and no
    /// change when there is no such Trail.
    pub fn activate(&mut self, id: &TrailId) -> (r: std::io::Result<Option<Location>>)
        ensures
            final(self).store_spec() == old(self).store_spec(),
            final(self)@.schema_version == old(self)@.schema_version,
            final(self)@.collection == activation(old(self)@.collection, id@),
            first_index(old(self)@.collection.trails, id@) < 0 ==> r matches Ok(None),
            first_index(old(self)@.collection.trails, id@) >= 0 ==> (r matches Ok(o) ==> location_opt(o)
                == trail_location(old(self)@.collection.trails[first_index(old(self)@.collection.trails, id@)])),
            first_index(old(self)@.collection.trails, id@) >= 0 ==> final(self).saved_as(outcome(r)),
            consistent(old(self)@.collection) ==> consistent(final(self)@.collection),
            distinct_ids(old(self)@.collection.trails) ==> distinct_ids(final(self)@.collection.trails),
    {
        proof {
            lemma_first_index(self@.collection.trails, id@);
        }
        match find_trail(&self.stored.collection.trails, id) {
            Some(i) => {
                assert(self@.collection.trails[i as int] == self.stored.collection.trails@[i as int]@);
                let location = match self.stored.collection.trails[i].active_location() {
                    Some(l) => Some(l.clone()),
                    None => None,
                };
                self.stored.collection.active = Some(id.clone());
                match self.store.save(&self.stored) {
                    Ok(done) => {
                        assert(done == ());
                        Ok(location)
                    },
                    Err(e) => Err(e),
                }
            },
            None => Ok(None),
        }
    }

    /// Activates the Trail `offset` steps from the active one (from the first when none is
    /// active), wrapping around, and answers where it is; `None` when there are no Trails.
    pub fn cycle(&mut self, offset: isize) -> (r: std::io::Result<Option<Location>>)
        ensures
            final(self).store_spec() == old(self).store_spec(),
            final(self)@.schema_version == old(self)@.schema_version,
            old(self)@.collection.trails.len() == 0 ==> (r matches Ok(None)) && final(self)@ == old(self)@,
            old(self)@.collection.trails.len() > 0 ==> ({
                let c = old(self)@.collection;
                let id = c.trails[cycle_target(c, offset as int)].id;
                &&& 0 <= cycle_target(c, offset as int) < c.trails.len()
                &&& final(self)@.collection == activation(c, id)
                &&& r matches Ok(o) ==> location_opt(o) == trail_location(c.trails[first_index(c.trails, id)])
            }),
            old(self)@.collection.trails.len() > 0 ==> final(self).saved_as(outcome(r)),
            consistent(old(self)@.collection) ==> consistent(final(self)@.collection),
            distinct_ids(old(self)@.collection.trails) ==> distinct_ids(final(self)@.collection.trails),
    {
        let len: usize = self.stored.collection.trails.len();
        if len == 0 {
            return Ok(None);
        }
        let ghost c = self@.collection;
        proof {
            lemma_first_index(c.trails, c.active.unwrap_or(Seq::empty()));
        }
        let current: usize = match &self.stored.collection.active {
            Some(active) => match find_trail(&self.stored.collection.trails, active) {
                Some(i) => i,
                None => 0,
            },
            None => 0,
        };
        let next = wrap_index(current, offset, len);
        assert(next as int == cycle_target(c, offset as int));
        let id = self.stored.collection.trails[next].id.clone();
        assert(c.trails[next as int] == self.stored.collection.trails@[next as int]@);
        proof {
            lemma_first_index(c.trails, id@);
        }
        self.activate(&id)
    }

    /// Renames the first Trail with identifier `id`. A blank name is refused; `false` when there
    /// is no such Trail.
    pub fn rename(&mut self, id: &TrailId, name: &str) -> (r: Result<bool, TrailsError>)
        ensures
            final(self).store_spec() == old(self).store_spec(),
            final(self)@.schema_version == old(self)@.schema_version,
            blank(name@) ==> (r matches Err(TrailsError::BlankName)) && final(self)@ == old(self)@,
            !blank(name@) && first_index(old(self)@.collection.trails, id@) < 0 ==> (r matches Ok(false))
                && final(self)@ == old(self)@,
            !blank(name@) && first_index(old(self)@.collection.trails, id@) >= 0 ==> final(self)@.collection
                == renamed(old(self)@.collection, first_index(old(self)@.collection.trails, id@), name@)
                && (r matches Ok(b) ==> b),
            !blank(name@) && first_index(old(self)@.collection.trails, id@) >= 0 ==> final(self).answered(r),
            consistent(old(self)@.collection) ==> consistent(final(self)@.collection),
            distinct_ids(old(self)@.collection.trails) ==> distinct_ids(final(self)@.collection.trails),
    {
        if is_blank(name) {
            return Err(TrailsError::BlankName);
        }
        proof {
            lemma_first_index(self@.collection.trails, id@);
        }
        match find_trail(&self.stored.collection.trails, id) {
            Some(i) => {
                let ghost c = self@.collection;
                let mut trail = self.stored.collection.trails.remove(i);
                trail.name = String::from_str(name);
                self.stored.collection.trails.insert(i, trail);
                proof {
                    assert(final(self)@.collection.trails =~= c.trails.update(
                        i as int,
                        TrailView { name: name@, ..c.trails[i as int] },
                    ));
                    lemma_update_keeps_ids(c, final(self)@.collection, i as int);
                }
                match self.store.save(&self.stored) {
                    Ok(done) => {
                        assert(done == ());
                        Ok(true)
                    },
                    Err(e) => Err(TrailsError::Store(e)),
                }
            },
            None => Ok(false),
        }
    }

    /// Pins or unpins the first Trail with identifier `id`, answering whether it is now pinned;
    /// `false` when there is no such Trail.
    pub fn toggle_pinned(&mut self, id: &TrailId) -> (r: std::io::Result<bool>)
        ensures
            final(self).store_spec() == old(self).store_spec(),
            final(self)@.schema_version == old(self)@.schema_version,
            first_index(old(self)@.collection.trails, id@) < 0 ==> (r matches Ok(false)) && final(self)@ == old(self)@,
            first_index(old(self)@.collection.trails, id@) >= 0 ==> final(self)@.collection == repinned(
                old(self)@.collection,
                first_index(old(self)@.collection.trails, id@),
            ) && (r matches Ok(b) ==> b == !old(self)@.collection.trails[first_index(
                old(self)@.collection.trails,
                id@,
            )].pinned),
            first_index(old(self)@.collection.trails, id@) >= 0 ==> final(self).saved_as(outcome(r)),
            consistent(old(self)@.collection) ==> consistent(final(self)@.collection),
            distinct_ids(old(self)@.collection.trails) ==> distinct_ids(final(self)@.collection.trails),
    {
        proof {
            lemma_first_index(self@.collection.trails, id@);
        }
        match find_trail(&self.stored.collection.trails, id) {
            Some(i) => {
                let ghost c = self@.collection;
                let mut trail = self.stored.collection.trails.remove(i);
                trail.pinned = !trail.pinned;
                let pinned = trail.pinned;
                self.stored.collection.trails.insert(i, trail);
                proof {
                    assert(final(self)@.collection.trails =~= c.trails.update(
                        i as int,
                        TrailView { pinned: !c.trails[i as int].pinned, ..c.trails[i as int] },
                    ));
                    lemma_update_keeps_ids(c, final(self)@.collection, i as int);
                }
                match self.store.save(&self.stored) {
                    Ok(done) => {
                        assert(done == ());
                        Ok(pinned)
                    },
                    Err(e) => Err(e),
                }
            },
            None => Ok(false),
        }
    }

    /// Closes the first Trail with identifier `id`, unless it is the only Trail (or there is
    /// none). When it was the active one, its neighbour becomes active and the answer is where
    /// that neighbour is; otherwise the answer is `None`.
    pub fn close(&mut self, id: &TrailId) -> (r: std::io::Result<Option<Location>>)
        ensures
            final(self).store_spec() == old(self).store_spec(),
            final(self)@.schema_version == old(self)@.schema_version,
            final(self)@.collection == closing(old(self)@.collection, id@),
            old(self)@.collection.trails.len() <= 1 || first_index(old(self)@.collection.trails, id@) < 0
                ==> r matches Ok(None),
            r matches Ok(o) ==> location_opt(o) == (if old(self)@.collection.trails.len() > 1
                && first_index(old(self)@.collection.trails, id@) >= 0
                && old(self)@.collection.active == Some(id@) {
                active_location_of(final(self)@.collection)
            } else {
                None
            }),
            old(self)@.collection.trails.len() >= 1 ==> final(self)@.collection.trails.len() >= 1,
            old(self)@.collection.trails.len() > 1 && first_index(old(self)@.collection.trails, id@) >= 0
                ==> final(self).saved_as(outcome(r)),
            consistent(old(self)@.collection) ==> consistent(final(self)@.collection),
            distinct_ids(old(self)@.collection.trails) ==> distinct_ids(final(self)@.collection.trails),
    {
        let len: usize = self.stored.collection.trails.len();
        if len <= 1 {
            return Ok(None);
        }
        let ghost c = self@.collection;
        proof {
            lemma_first_index(c.trails, id@);
        }
        let position = match find_trail(&self.stored.collection.trails, id) {
            Some(i) => i,
            None => {
                return Ok(None);
            },
        };
        let was_active = match &self.stored.collection.active {
            Some(a) => *a == *id,
            None => false,
        };
        self.stored.collection.trails.remove(position);
        assert(self@.collection.trails =~= c.trails.remove(position as int));
        if was_active {
            let n: usize = self.stored.collection.trails.len();
            let next: usize = if position < n {
                position
            } else {
                n - 1
            };
            assert(self@.collection.trails[next as int] == self.stored.collection.trails@[next as int]@);
            self.stored.collection.active = Some(self.stored.collection.trails[next].id.clone());
        }
        proof {
            let d = self@.collection;
            assert(d == closing(c, id@));
            if consistent(c) {
                lemma_closing_consistent(c, id@);
            }
            if distinct_ids(c.trails) {
                lemma_closing_distinct(c, id@);
            }
        }
        let next = match self.stored.collection.active_trail() {
            Some(t) => match t.active_location() {
                Some(l) => Some(l.clone()),
                None => None,
            },
            None => None,
        };
        match self.store.save(&self.stored) {
            Ok(done) => {
                assert(done == ());
                if was_active {
                    Ok(next)
                } else {
                    Ok(None)
                }
            },
            Err(e) => Err(e),
        }
    }

    /// Moves the active Trail to `location`: its locations become the breadcrumbs of `location`.
    /// Nothing changes, and nothing is saved, when no Trail is active or it is already there.
    pub fn update_active_location(&mut self, location: Location) -> (r: std::io::Result<()>)
        ensures
            final(self).store_spec() == old(self).store_spec(),
            final(self)@.schema_version == old(self)@.schema_version,
            final(self)@.collection == relocated(old(self)@.collection, location@),
            final(self)@.collection == old(self)@.collection ==> r is Ok,
            active_index(old(self)@.collection) >= 0 && !crate::trail::same_places(
                old(self)@.collection.trails[active_index(old(self)@.collection)].locations,
                breadcrumbs_of(location@),
            ) ==> final(self).saved_as(r),
            final(self)@.collection.trails.len() == old(self)@.collection.trails.len(),
            forall|j: int|
                0 <= j < old(self)@.collection.trails.len() && j != active_index(old(self)@.collection)
                    ==> #[trigger] final(self)@.collection.trails[j] == old(self)@.collection.trails[j],
            consistent(old(self)@.collection) ==> consistent(final(self)@.collection),
            distinct_ids(old(self)@.collection.trails) ==> distinct_ids(final(self)@.collection.trails),
    {
        let ghost c = self@.collection;
        proof {
            lemma_first_index(c.trails, c.active.unwrap_or(Seq::empty()));
        }
        let found = match &self.stored.collection.active {
            Some(a) => find_trail(&self.stored.collection.trails, a),
            None => None,
        };
        match found {
            None => Ok(()),
            Some(i) => {
                assert(c.trails[i as int] == self.stored.collection.trails@[i as int]@);
                proof {
                    lemma_breadcrumbs_nonempty(location@);
                }
                let crumbs = location.breadcrumbs();
                if crate::trail::same_locations(&self.stored.collection.trails[i].locations, &crumbs) {
                    return Ok(());
                }
                let mut trail = self.stored.collection.trails.remove(i);
                trail.locations = crumbs;
                self.stored.collection.trails.insert(i, trail);
                proof {
                    assert(final(self)@.collection.trails =~= c.trails.update(
                        i as int,
                        TrailView { locations: breadcrumbs_of(location@), ..c.trails[i as int] },
                    ));
                    lemma_update_keeps_ids(c, final(self)@.collection, i as int);
                }
                self.store.save(&self.stored)
            },
        }
    }

    /// Gives the active Trail the view state `view`. Nothing changes, and nothing is saved, when
    /// no Trail is active or its view state is already `view`.
    pub fn update_active_view(&mut self, view: TrailViewState) -> (r: std::io::Result<()>)
        ensures
            final(self).store_spec() == old(self).store_spec(),
            final(self)@.schema_version == old(self)@.schema_version,
            final(self)@.collection == restyled(old(self)@.collection, view),
            final(self)@.collection == old(self)@.collection ==> r is Ok,
            active_index(old(self)@.collection) >= 0 && old(self)@.collection.trails[active_index(
                old(self)@.collection,
            )].view != view ==> final(self).saved_as(r),
            consistent(old(self)@.collection) ==> consistent(final(self)@.collection),
            distinct_ids(old(self)@.collection.trails) ==> distinct_ids(final(self)@.collection.trails),
    {
        let ghost c = self@.collection;
        proof {
            lemma_first_index(c.trails, c.active.unwrap_or(Seq::empty()));
        }
        let found = match &self.stored.collection.active {
            Some(a) => find_trail(&self.stored.collection.trails, a),
            None => None,
        };
        match found {
            None => Ok(()),
            Some(i) => {
                assert(c.trails[i as int] == self.stored.collection.trails@[i as int]@);
                if self.stored.collection.trails[i].view == view {
                    return Ok(());
                }
                let mut trail = self.stored.collection.trails.remove(i);
                trail.view = view;
                self.stored.collection.trails.insert(i, trail);
                proof {
                    assert(final(self)@.collection.trails =~= c.trails.update(
                        i as int,
                        TrailView { view, ..c.trails[i as int] },
                    ));
                    lemma_update_keeps_ids(c, final(self)@.collection, i as int);
                }
                self.store.save(&self.stored)
            },
        }
    }

    /// The view state of the active Trail.
    pub fn active_view(&self) -> (r: Option<TrailViewState>)
        ensures
            r == (match active_trail_of(self@.collection) {
                Some(t) => Some(t.view),
                None => None,
            }),
    {
        match self.stored.collection.active_trail() {
            Some(t) => Some(t.view),
            None => None,
        }
    }
}

} // verus!
