//! Browsable locations, view preferences and file entries.

use std::cmp::Ordering;
use vstd::prelude::*;
use vstd::std_specs::cmp::PartialEqSpecImpl;
use vstd::utf8::encode_utf8;

use crate::path::{
    breadcrumb_lens, components, copy_range, file_name, file_name_span, has_root, is_absolute,
    join, join_paths, lens_as_ints, ancestor_lens, lex_order, bytes_order, parent_len, token_order, token_rank,
    parent_len_of_prefix, path_order, path_order_of, path_starts_with, same_components,
    starts_with, strip_prefix, strip_prefix_of,
};
use crate::text::{lossy, lossy_text};

verus! {

/// Where a location points: a native path kept as raw bytes, or an explicit URI.
#[derive(Debug)]
enum LocationKind {
    Native(Vec<u8>),
    Uri(String),
}

/// A browsable destination. Native paths remain byte-safe and URI locations remain explicit.
#[derive(Debug)]
pub struct Location {
    kind: LocationKind,
}

/// What a location denotes: the bytes of a native path, or the characters of a URI.
pub enum LocationView {
    Native(Seq<u8>),
    Uri(Seq<char>),
}

impl View for Location {
    type V = LocationView;

    closed spec fn view(&self) -> LocationView {
        match self.kind {
            LocationKind::Native(p) => LocationView::Native(p@),
            LocationKind::Uri(u) => LocationView::Uri(u@),
        }
    }
}

/// Two locations denote the same place: native paths with the same components, or the same URI.
pub open spec fn same_place(a: LocationView, b: LocationView) -> bool {
    match (a, b) {
        (LocationView::Native(x), LocationView::Native(y)) => components(x) == components(y),
        (LocationView::Uri(x), LocationView::Uri(y)) => x == y,
        _ => false,
    }
}

/// The native path of a location, if it has one.
pub open spec fn native_of(l: LocationView) -> Option<Seq<u8>> {
    match l {
        LocationView::Native(p) => Some(p),
        LocationView::Uri(_) => None,
    }
}

/// The parent of a location: only native paths other than the root and the empty path have one.
pub open spec fn parent_of(l: LocationView) -> Option<LocationView> {
    match l {
        LocationView::Native(p) => match parent_len(p) {
            Some(n) => Some(LocationView::Native(p.subrange(0, n))),
            None => None,
        },
        LocationView::Uri(_) => None,
    }
}

/// `l` moved from under `from` to under `to`: the part of `l` below `from`, joined onto `to`.
pub open spec fn rebased(l: LocationView, from: LocationView, to: LocationView) -> Option<
    LocationView,
> {
    match (l, from, to) {
        (LocationView::Native(p), LocationView::Native(f), LocationView::Native(t)) => match strip_prefix(p, f) {
            Some(suffix) => Some(LocationView::Native(join(t, suffix))),
            None => None,
        },
        _ => None,
    }
}

/// `l` lies within `other`: both are native and `other`'s components begin `l`'s.
pub open spec fn within(l: LocationView, other: LocationView) -> bool {
    match (l, other) {
        (LocationView::Native(p), LocationView::Native(q)) => starts_with(p, q),
        _ => false,
    }
}

/// Locations in order: native paths first, by components; URIs after them, by their UTF-8 bytes.
pub open spec fn location_order(a: LocationView, b: LocationView) -> int {
    match (a, b) {
        (LocationView::Native(x), LocationView::Native(y)) => path_order(x, y),
        (LocationView::Uri(x), LocationView::Uri(y)) => lex_order(encode_utf8(x), encode_utf8(y)),
        (LocationView::Native(_), LocationView::Uri(_)) => -1,
        (LocationView::Uri(_), LocationView::Native(_)) => 1,
    }
}

/// The text shown for a location: a native path read lossily as UTF-8, or the URI itself.
pub open spec fn display_path_of(l: LocationView) -> Seq<char> {
    match l {
        LocationView::Native(p) => lossy(p),
        LocationView::Uri(u) => u,
    }
}

/// `s` without its trailing `/` characters.
pub open spec fn trim_end_slashes(s: Seq<char>) -> Seq<char>
    decreases s.len(),
{
    if s.len() > 0 && s.last() == '/' {
        trim_end_slashes(s.drop_last())
    } else {
        s
    }
}

/// The index of the last `/` in `s`, or -1.
pub open spec fn last_slash(s: Seq<char>) -> int
    decreases s.len(),
{
    if s.len() == 0 {
        -1
    } else if s.last() == '/' {
        s.len() - 1
    } else {
        last_slash(s.drop_last())
    }
}

/// The trash URI.
pub open spec fn trash_uri() -> Seq<char> {
    seq!['t', 'r', 'a', 's', 'h', ':', '/', '/', '/']
}

/// The name shown for the trash.
pub open spec fn trash_name() -> Seq<char> {
    seq!['T', 'r', 'a', 's', 'h']
}

/// The name shown for a URI: `Trash` for the trash, else its last non-empty `/` segment.
pub open spec fn uri_display_name(u: Seq<char>) -> Seq<char> {
    if u == trash_uri() {
        trash_name()
    } else {
        let t = trim_end_slashes(u);
        t.subrange(last_slash(t) + 1, t.len() as int)
    }
}

/// The name shown for a native path: its file name read lossily, unless that is empty, in which
/// case the whole path read lossily.
pub open spec fn native_display_name(p: Seq<u8>) -> Seq<char> {
    match file_name(p) {
        Some(name) => if lossy(name).len() > 0 {
            lossy(name)
        } else {
            lossy(p)
        },
        None => lossy(p),
    }
}

/// The name shown for a location.
pub open spec fn display_name_of(l: LocationView) -> Seq<char> {
    match l {
        LocationView::Native(p) => native_display_name(p),
        LocationView::Uri(u) => uri_display_name(u),
    }
}

/// The breadcrumbs of a location: for a native path, its ancestors from the outermost down to the
/// path itself; for a URI, the URI alone.
pub open spec fn breadcrumbs_of(l: LocationView) -> Seq<LocationView> {
    match l {
        LocationView::Native(p) => ancestor_lens(p, p.len() as int).reverse().map_values(
            |n: int| LocationView::Native(p.subrange(0, n)),
        ),
        LocationView::Uri(_) => seq![l],
    }
}

/// A location always has at least one breadcrumb, the last of which is the location itself.
pub proof fn lemma_breadcrumbs_nonempty(l: LocationView)
    ensures
        breadcrumbs_of(l).len() >= 1,
        breadcrumbs_of(l).last() == l,
{
    match l {
        LocationView::Native(p) => {
            crate::path::lemma_ancestor_lens_bounded(p, p.len() as int);
            let a = ancestor_lens(p, p.len() as int);
            assert(a.reverse().last() == a[0]);
            assert(p.subrange(0, p.len() as int) =~= p);
        },
        LocationView::Uri(_) => {},
    }
}

/// Rebasing keeps what lies below `from`: the result lies within `to`, and its components are
/// those of `to` followed by those of the location past `from`'s (when `from` has components).
pub proof fn lemma_rebase_lands_within(l: LocationView, from: LocationView, to: LocationView)
    requires
        native_of(from) matches Some(f) && components(f).len() > 0,
    ensures
        rebased(l, from, to) matches Some(r) ==> {
            &&& within(r, to)
            &&& components(native_of(r).unwrap()) == components(native_of(to).unwrap()) + components(
                native_of(l).unwrap(),
            ).skip(components(native_of(from).unwrap()).len() as int)
        },
{
    if let (LocationView::Native(p), LocationView::Native(f), LocationView::Native(t)) = (l, from, to) {
        if strip_prefix(p, f) is Some {
            crate::path::lemma_rebase_components(p, f, t);
        }
    }
}

/// A location can be rebased exactly when it lies within `from` and `to` is a native path.
pub proof fn lemma_rebase_some_exactly_within(l: LocationView, from: LocationView, to: LocationView)
    ensures
        rebased(l, from, to) is Some <==> (within(l, from) && to is Native),
{
}

/// Rebasing can be undone: a location moved from under `from` (a path with components) to under
/// `to` lies within `to`, and moves back from under `to` to under `from`, to the place it started
/// from.
pub proof fn lemma_rebase_round_trip(l: LocationView, from: LocationView, to: LocationView)
    requires
        native_of(from) matches Some(f) && components(f).len() > 0,
    ensures
        rebased(l, from, to) matches Some(r) ==> {
            &&& within(r, to)
            &&& rebased(r, to, from) matches Some(back) && same_place(back, l)
        },
{
    if let (LocationView::Native(p), LocationView::Native(f), LocationView::Native(t)) = (l, from, to) {
        if let Some(s) = strip_prefix(p, f) {
            let cf = components(f).len() as int;
            let q = join(t, s);
            crate::path::lemma_rebase_components(p, f, t);
            assert(components(p).take(cf) == components(f));
            if components(t).len() > 0 {
                assert(strip_prefix(q, t) is Some);
                crate::path::lemma_rebase_components(q, t, f);
                let ct = components(t).len() as int;
                assert(components(q).skip(ct) =~= components(p).skip(cf));
            } else {
                crate::path::lemma_no_components_is_empty(t);
                crate::path::lemma_strip_prefix_components(p, f);
                assert(q =~= s);
                crate::path::lemma_strip_nothing(q, t);
                let x = strip_prefix(q, t).unwrap();
                crate::path::lemma_join_components(f, x);
            }
            assert(components(f) + components(p).skip(cf) =~= components(p));
        }
    }
}

/// Native paths are ordered before URIs.
pub proof fn lemma_native_before_uri(p: Seq<u8>, u: Seq<char>)
    ensures
        location_order(LocationView::Native(p), LocationView::Uri(u)) == -1,
        location_order(LocationView::Uri(u), LocationView::Native(p)) == 1,
{
}

/// Two native locations are ordered at their first differing component (by its kind, and two
/// names by their bytes); a path whose components begin the other's, and are fewer, comes first.
pub proof fn lemma_native_order_lexicographic(p: Seq<u8>, q: Seq<u8>, k: int)
    ensures
        0 <= k < components(p).len() && k < components(q).len() && components(p)[k] != components(
            q,
        )[k] && (forall|j: int| 0 <= j < k ==> components(p)[j] == components(q)[j]) ==> {
            &&& location_order(LocationView::Native(p), LocationView::Native(q)) == token_order(
                components(p)[k],
                components(q)[k],
            )
            &&& location_order(LocationView::Native(p), LocationView::Native(q)) != 0
        },
        components(p).len() < components(q).len() && (forall|j: int|
            0 <= j < components(p).len() ==> components(p)[j] == components(q)[j]) ==> location_order(
            LocationView::Native(p),
            LocationView::Native(q),
        ) == -1,
{
    if 0 <= k < components(p).len() && k < components(q).len() && components(p)[k] != components(
        q,
    )[k] && (forall|j: int| 0 <= j < k ==> components(p)[j] == components(q)[j]) {
        crate::path::lemma_path_order_first_difference(p, q, k);
    }
    if components(p).len() < components(q).len() && (forall|j: int|
        0 <= j < components(p).len() ==> components(p)[j] == components(q)[j]) {
        crate::path::lemma_path_order_proper_prefix(p, q);
    }
}

/// Two URIs are ordered at the first differing byte of their UTF-8 forms, the smaller byte first;
/// a URI whose UTF-8 form is a proper prefix of the other's comes first.
pub proof fn lemma_uri_order_lexicographic(x: Seq<char>, y: Seq<char>, k: int)
    ensures
        0 <= k < encode_utf8(x).len() && k < encode_utf8(y).len() && encode_utf8(x)[k] != encode_utf8(
            y,
        )[k] && (forall|j: int| 0 <= j < k ==> encode_utf8(x)[j] == encode_utf8(y)[j]) ==> location_order(
            LocationView::Uri(x),
            LocationView::Uri(y),
        ) == (if encode_utf8(x)[k] < encode_utf8(y)[k] {
            -1int
        } else {
            1int
        }),
        encode_utf8(x).len() < encode_utf8(y).len() && (forall|j: int|
            0 <= j < encode_utf8(x).len() ==> encode_utf8(x)[j] == encode_utf8(y)[j]) ==> location_order(
            LocationView::Uri(x),
            LocationView::Uri(y),
        ) == -1,
{
    let (ex, ey) = (encode_utf8(x), encode_utf8(y));
    if 0 <= k < ex.len() && k < ey.len() && ex[k] != ey[k] && (forall|j: int| 0 <= j < k ==> ex[j] == ey[j]) {
        crate::path::lemma_lex_order_first_difference(ex, ey, k);
    }
    if ex.len() < ey.len() && (forall|j: int| 0 <= j < ex.len() ==> ex[j] == ey[j]) {
        crate::path::lemma_lex_order_proper_prefix(ex, ey);
    }
}

/// `compare` is antisymmetric, and calls two locations equal exactly when `==` does.
pub proof fn lemma_compare_agrees_with_eq(a: LocationView, b: LocationView)
    ensures
        location_order(a, b) == -location_order(b, a),
        location_order(a, b) == 0 <==> same_place(a, b),
{
    match (a, b) {
        (LocationView::Native(x), LocationView::Native(y)) => {
            crate::path::lemma_path_order(x, y);
        },
        (LocationView::Uri(x), LocationView::Uri(y)) => {
            crate::path::lemma_lex_order(encode_utf8(x), encode_utf8(y));
            vstd::utf8::encode_utf8_decode_utf8(x);
            vstd::utf8::encode_utf8_decode_utf8(y);
        },
        _ => {},
    }
}

/// The name shown for a native path whose last component names an entry (it is neither the
/// root, nor `.`, nor `..`) is that whole component read as text, when that text is not empty.
pub proof fn lemma_display_name_is_last_component(p: Seq<u8>)
    requires
        components(p).len() > 0,
        token_rank(components(p).last()) == 3,
        lossy(components(p).last()).len() > 0,
    ensures
        display_name_of(LocationView::Native(p)) == lossy(components(p).last()),
{
    crate::path::lemma_components_split(p);
    let parts = crate::path::parts(p);
    // Without named parts, the last component would be the root or `.`.
    assert(parts.len() > 0) by {
        assert(components(p).last() == components(p)[components(p).len() - 1]);
    }
    assert(components(p).last() == parts.last());
}

/// The breadcrumbs of a location form a chain: the first has no parent, each of the others has
/// the one before it as parent, and the last is the location itself.
pub proof fn lemma_breadcrumbs_chain(l: LocationView)
    ensures
        breadcrumbs_of(l).len() >= 1,
        breadcrumbs_of(l).last() == l,
        l is Native ==> parent_of(breadcrumbs_of(l)[0]) is None,
        l is Native ==> forall|i: int|
            0 <= i < breadcrumbs_of(l).len() - 1 ==> parent_of(#[trigger] breadcrumbs_of(l)[i + 1])
                == Some(breadcrumbs_of(l)[i]),
{
    lemma_breadcrumbs_nonempty(l);
    if let LocationView::Native(p) = l {
        let a = ancestor_lens(p, p.len() as int);
        lemma_ancestor_chain(p, p.len() as int);
        crate::path::lemma_ancestor_lens_bounded(p, p.len() as int);
        let b = breadcrumbs_of(l);
        let r = a.reverse();
        assert(b[0] == LocationView::Native(p.subrange(0, r[0])));
        assert(r[0] == a[a.len() - 1]);
        assert(p.subrange(0, r[0]).subrange(0, r[0]) =~= p.subrange(0, r[0]));
        assert forall|i: int| 0 <= i < b.len() - 1 implies parent_of(#[trigger] b[i + 1]) == Some(
            b[i],
        ) by {
            let k = a.len() - 2 - i;
            assert(r[i + 1] == a[k]);
            assert(r[i] == a[k + 1]);
            assert(parent_len(p.subrange(0, a[k])) == Some(a[k + 1]));
            crate::path::lemma_parent_components(p.subrange(0, a[k]));
            assert(p.subrange(0, a[k]).subrange(0, a[k + 1]) =~= p.subrange(0, a[k + 1]));
        }
    }
}

/// Each ancestor length is the parent of the one before it, and the last has no parent.
proof fn lemma_ancestor_chain(p: Seq<u8>, n: int)
    requires
        0 <= n <= p.len(),
    ensures
        forall|k: int|
            0 <= k < ancestor_lens(p, n).len() - 1 ==> parent_len(
                p.subrange(0, #[trigger] ancestor_lens(p, n)[k]),
            ) == Some(ancestor_lens(p, n)[k + 1]),
        parent_len(p.subrange(0, ancestor_lens(p, n).last())) is None,
    decreases n,
{
    let q = p.subrange(0, n);
    crate::path::lemma_parent_components(q);
    crate::path::lemma_ancestor_lens_bounded(p, n);
    match parent_len(q) {
        Some(m) => {
            lemma_ancestor_chain(p, m);
            crate::path::lemma_ancestor_lens_bounded(p, m);
            let rest = ancestor_lens(p, m);
            let a = ancestor_lens(p, n);
            assert(a == seq![n] + rest);
            assert forall|k: int| 0 <= k < a.len() - 1 implies parent_len(
                p.subrange(0, #[trigger] a[k]),
            ) == Some(a[k + 1]) by {
                if k > 0 {
                    assert(a[k] == rest[k - 1]);
                    assert(a[k + 1] == rest[k]);
                } else {
                    assert(a[1] == rest[0]);
                }
            }
            assert(a.last() == rest.last());
        },
        None => {},
    }
}

proof fn lemma_trim_end_slashes(s: Seq<char>)
    ensures
        trim_end_slashes(s).len() <= s.len(),
        trim_end_slashes(s) == s.subrange(0, trim_end_slashes(s).len() as int),
    decreases s.len(),
{
    if s.len() > 0 && s.last() == '/' {
        lemma_trim_end_slashes(s.drop_last());
        assert(s.drop_last().subrange(0, trim_end_slashes(s).len() as int) =~= s.subrange(
            0,
            trim_end_slashes(s).len() as int,
        ));
    } else {
        assert(s.subrange(0, s.len() as int) =~= s);
    }
}

proof fn lemma_last_slash(s: Seq<char>)
    ensures
        -1 <= last_slash(s) < s.len(),
    decreases s.len(),
{
    if s.len() > 0 && s.last() != '/' {
        lemma_last_slash(s.drop_last());
    }
}

impl Location {
    /// A native location for a path given as text.
    pub fn local(path: &str) -> (r: Location)
        ensures
            r@ == LocationView::Native(encode_utf8(path@)),
    {
        let bytes = path.as_bytes();
        let v = copy_range(bytes, 0, bytes.len());
        assert(bytes@.subrange(0, bytes@.len() as int) =~= bytes@);
        Location { kind: LocationKind::Native(v) }
    }

    /// A native location for a path given as raw bytes, which need not be UTF-8.
    pub fn native(path: Vec<u8>) -> (r: Location)
        ensures
            r@ == LocationView::Native(path@),
    {
        Location { kind: LocationKind::Native(path) }
    }

    /// A URI location.
    pub fn uri(uri: &str) -> (r: Location)
        ensures
            r@ == LocationView::Uri(uri@),
    {
        Location { kind: LocationKind::Uri(String::from_str(uri)) }
    }

    /// The native path, for a native location.
    pub fn native_path(&self) -> (r: Option<&[u8]>)
        ensures
            r matches Some(p) ==> native_of(self@) == Some(p@),
            r is None ==> native_of(self@) is None,
    {
        match &self.kind {
            LocationKind::Native(p) => Some(p.as_slice()),
            LocationKind::Uri(_) => None,
        }
    }

    /// The URI, for a URI location.
    pub fn uri_value(&self) -> (r: Option<&str>)
        ensures
            r matches Some(u) ==> self@ == LocationView::Uri(u@),
            r is None ==> self@ is Native,
    {
        match &self.kind {
            LocationKind::Native(_) => None,
            LocationKind::Uri(u) => Some(u.as_str()),
        }
    }

    /// The parent location (`Path::parent`); `None` for URIs, the root and the empty path.
    pub fn parent(&self) -> (r: Option<Location>)
        ensures
            r matches Some(l) ==> parent_of(self@) == Some(l@),
            r is None ==> parent_of(self@) is None,
    {
        match &self.kind {
            LocationKind::Native(p) => {
                let n: usize = p.len();
                assert(p@.subrange(0, n as int) =~= p@);
                match parent_len_of_prefix(p.as_slice(), n) {
                    Some(m) => {
                        proof {
                            crate::path::lemma_parent_components(p@);
                        }
                        Some(Location { kind: LocationKind::Native(copy_range(p.as_slice(), 0, m)) })
                    },
                    None => None,
                }
            },
            LocationKind::Uri(_) => None,
        }
    }

    /// Whether this is an absolute native path.
    pub fn is_absolute_native(&self) -> (r: bool)
        ensures
            r == (native_of(self@) matches Some(p) && has_root(p)),
    {
        match &self.kind {
            LocationKind::Native(p) => is_absolute(p.as_slice()),
            LocationKind::Uri(_) => false,
        }
    }

    /// This location moved from under `from` to under `to`; `None` unless all three are native
    /// and `from` begins this location.
    pub fn rebase(&self, from: &Location, to: &Location) -> (r: Option<Location>)
        requires
            native_of(self@) matches Some(p) ==> (native_of(to@) matches Some(t) ==> p.len()
                + t.len() + 1 <= usize::MAX),
        ensures
            r matches Some(l) ==> rebased(self@, from@, to@) == Some(l@),
            r is None ==> rebased(self@, from@, to@) is None,
    {
        match (&self.kind, &from.kind, &to.kind) {
            (LocationKind::Native(p), LocationKind::Native(f), LocationKind::Native(t)) => {
                match strip_prefix_of(p.as_slice(), f.as_slice()) {
                    Some(suffix) => {
                        assert(suffix@.len() <= p@.len()) by {
                            crate::path::lemma_strip_prefix_len(p@, f@);
                        }
                        let joined = join_paths(t.as_slice(), suffix.as_slice());
                        Some(Location { kind: LocationKind::Native(joined) })
                    },
                    None => None,
                }
            },
            _ => None,
        }
    }

    /// Whether this location lies within `other` (`Path::starts_with` on native paths).
    pub fn is_within(&self, other: &Location) -> (r: bool)
        ensures
            r == within(self@, other@),
    {
        match (&self.kind, &other.kind) {
            (LocationKind::Native(p), LocationKind::Native(q)) => path_starts_with(
                p.as_slice(),
                q.as_slice(),
            ),
            _ => false,
        }
    }

    /// Locations in order: native paths (by components) before URIs (by text).
    pub fn compare(&self, other: &Location) -> (r: Ordering)
        ensures
            (r == Ordering::Less) == (location_order(self@, other@) < 0),
            (r == Ordering::Equal) == (location_order(self@, other@) == 0),
            (r == Ordering::Greater) == (location_order(self@, other@) > 0),
    {
        let o: i8 = match (&self.kind, &other.kind) {
            (LocationKind::Native(x), LocationKind::Native(y)) => path_order_of(
                x.as_slice(),
                y.as_slice(),
            ),
            (LocationKind::Uri(x), LocationKind::Uri(y)) => bytes_order(
                x.as_str().as_bytes(),
                y.as_str().as_bytes(),
            ),
            (LocationKind::Native(_), LocationKind::Uri(_)) => -1,
            (LocationKind::Uri(_), LocationKind::Native(_)) => 1,
        };
        if o < 0 {
            Ordering::Less
        } else if o > 0 {
            Ordering::Greater
        } else {
            Ordering::Equal
        }
    }

    /// A UTF-8-safe representation without changing the native path.
    pub fn display_path(&self) -> (r: String)
        ensures
            r@ == display_path_of(self@),
    {
        match &self.kind {
            LocationKind::Native(p) => lossy_text(p.as_slice()),
            LocationKind::Uri(u) => u.clone(),
        }
    }

    /// The name to show for this location.
    pub fn display_name(&self) -> (r: String)
        ensures
            r@ == display_name_of(self@),
    {
        match &self.kind {
            LocationKind::Native(p) => match file_name_span(p.as_slice()) {
                Some((a, b)) => {
                    let name_bytes = copy_range(p.as_slice(), a, b);
                    let name = lossy_text(name_bytes.as_slice());
                    if name.as_str().unicode_len() > 0 {
                        name
                    } else {
                        lossy_text(p.as_slice())
                    }
                },
                None => lossy_text(p.as_slice()),
            },
            LocationKind::Uri(u) => uri_name(u),
        }
    }

    /// The chain of locations leading to this one: the ancestors of a native path from the
    /// outermost down to the path itself, or the URI alone.
    pub fn breadcrumbs(&self) -> (r: Vec<Location>)
        ensures
            r@.map_values(|l: Location| l@) == breadcrumbs_of(self@),
    {
        match &self.kind {
            LocationKind::Native(p) => {
                let lens = breadcrumb_lens(p.as_slice());
                let ghost expected = breadcrumbs_of(self@);
                let mut out: Vec<Location> = Vec::new();
                let mut i: usize = 0;
                proof {
                    assert(lens_as_ints(lens@).len() == lens@.len());
                    crate::path::lemma_ancestor_lens_bounded(p@, p@.len() as int);
                    let anc = ancestor_lens(p@, p@.len() as int);
                    assert forall|k: int| 0 <= k < lens@.len() implies 0 <= #[trigger] lens@[k]
                        <= p@.len() by {
                        assert(lens_as_ints(lens@)[k] == lens@[k] as int);
                        assert(anc.reverse()[k] == anc[anc.len() - 1 - k]);
                    }
                }
                while i < lens.len()
                    invariant
                        i <= lens@.len(),
                        self@ == LocationView::Native(p@),
                        expected == breadcrumbs_of(self@),
                        lens_as_ints(lens@) == ancestor_lens(p@, p@.len() as int).reverse(),
                        forall|k: int|
                            0 <= k < lens@.len() ==> 0 <= #[trigger] lens@[k] <= p@.len(),
                        out@.map_values(|l: Location| l@) == expected.take(i as int),
                    decreases lens@.len() - i,
                {
                    let m = lens[i];
                    assert(lens_as_ints(lens@)[i as int] == m as int);
                    let l = Location { kind: LocationKind::Native(copy_range(p.as_slice(), 0, m)) };
                    assert(expected[i as int] == LocationView::Native(p@.subrange(0, m as int)));
                    let ghost before = out@.map_values(|l: Location| l@);
                    out.push(l);
                    assert(out@.map_values(|l: Location| l@) =~= before.push(l@));
                    i = i + 1;
                    assert(out@.map_values(|l: Location| l@) =~= expected.take(i as int));
                }
                assert(expected.take(i as int) =~= expected);
                out
            },
            LocationKind::Uri(u) => {
                let mut out: Vec<Location> = Vec::new();
                out.push(self.clone());
                assert(out@.map_values(|l: Location| l@) =~= breadcrumbs_of(self@));
                out
            },
        }
    }
}

/// The name shown for a URI, as `uri_display_name` states it.
fn uri_name(u: &String) -> (r: String)
    ensures
        r@ == uri_display_name(u@),
{
    let trash = String::from_str("trash:///");
    proof {
        reveal_strlit("trash:///");
        reveal_strlit("Trash");
    }
    assert(trash@ =~= trash_uri());
    if *u == trash {
        return String::from_str("Trash");
    }
    assert(u@ != trash_uri());
    let s = u.as_str();
    let n = s.unicode_len();
    let mut end: usize = n;
    assert(s@.subrange(0, n as int) =~= s@);
    while end > 0 && s.get_char(end - 1) == '/'
        invariant
            end <= n == s@.len(),
            trim_end_slashes(s@) == trim_end_slashes(s@.subrange(0, end as int)),
        decreases end,
    {
        assert(s@.subrange(0, end as int).drop_last() =~= s@.subrange(0, end - 1));
        end = end - 1;
    }
    let ghost t = s@.subrange(0, end as int);
    assert(trim_end_slashes(t) == t);
    let mut j: usize = end;
    proof {
        lemma_last_slash(t);
    }
    while j > 0 && s.get_char(j - 1) != '/'
        invariant
            j <= end <= n == s@.len(),
            t == s@.subrange(0, end as int),
            last_slash(t) == last_slash(s@.subrange(0, j as int)),
        decreases j,
    {
        assert(s@.subrange(0, j as int).drop_last() =~= s@.subrange(0, j - 1));
        j = j - 1;
    }
    if j > 0 {
        assert(last_slash(s@.subrange(0, j as int)) == j - 1);
    } else {
        assert(s@.subrange(0, 0) =~= Seq::<char>::empty());
    }
    let seg = s.substring_char(j, end);
    assert(seg@ =~= t.subrange(last_slash(t) + 1, t.len() as int));
    String::from_str(seg)
}

impl Clone for Location {
    fn clone(&self) -> (r: Location)
        ensures
            r@ == self@,
    {
        match &self.kind {
            LocationKind::Native(p) => Location { kind: LocationKind::Native(p.clone()) },
            LocationKind::Uri(u) => Location { kind: LocationKind::Uri(u.clone()) },
        }
    }
}

impl PartialEq for Location {
    fn eq(&self, other: &Location) -> (r: bool) {
        match (&self.kind, &other.kind) {
            (LocationKind::Native(x), LocationKind::Native(y)) => same_components(
                x.as_slice(),
                y.as_slice(),
            ),
            (LocationKind::Uri(x), LocationKind::Uri(y)) => *x == *y,
            _ => false,
        }
    }
}

impl PartialEqSpecImpl for Location {
    open spec fn obeys_eq_spec() -> bool {
        true
    }

    open spec fn eq_spec(&self, other: &Location) -> bool {
        same_place(self@, other@)
    }
}

impl Eq for Location {

}

/// What entries are sorted by.
#[derive(Clone, Copy, Debug, PartialEq, Eq, Structural)]
pub enum SortKey {
    Name,
    Type,
    Size,
    Modified,
}

/// The direction of sorting.
#[derive(Clone, Copy, Debug, PartialEq, Eq, Structural)]
pub enum SortDirection {
    Ascending,
    Descending,
}

/// How a view lists entries.
#[derive(Clone, Copy, Debug, PartialEq, Eq, Structural)]
pub struct ViewPreferences {
    pub show_hidden: bool,
    pub folders_first: bool,
    pub sort_key: SortKey,
    pub sort_direction: SortDirection,
}

/// The preferences a new view starts with: hidden entries hidden, folders first, by name, ascending.
pub open spec fn default_preferences() -> ViewPreferences {
    ViewPreferences {
        show_hidden: false,
        folders_first: true,
        sort_key: SortKey::Name,
        sort_direction: SortDirection::Ascending,
    }
}

impl Default for ViewPreferences {
    fn default() -> (r: ViewPreferences)
        ensures
            r == default_preferences(),
    {
        ViewPreferences {
            show_hidden: false,
            folders_first: true,
            sort_key: SortKey::Name,
            sort_direction: SortDirection::Ascending,
        }
    }
}

/// The kind of a directory entry.
#[derive(Clone, Copy, Debug, Eq, Ord, PartialEq, PartialOrd, Structural)]
pub enum EntryKind {
    Directory,
    DirectorySymbolicLink,
    File,
    FileSymbolicLink,
    SymbolicLink,
    Other,
}

/// A piece of metadata that may not be known yet, or may not be available at all.
#[derive(Clone, Debug, Eq, PartialEq)]
pub enum MetadataValue<T> {
    Unknown,
    Known(T),
    Unavailable,
}

/// A directory entry as listed.
#[derive(Clone, Debug, Eq, PartialEq)]
pub struct FileEntry {
    pub location: Location,
    pub native_name: Vec<u8>,
    pub display_name: String,
    pub kind: EntryKind,
    pub size: MetadataValue<u64>,
    pub modified_unix_seconds: MetadataValue<i64>,
}

impl FileEntry {
    /// A directory, or a symbolic link to one.
    pub fn is_directory(&self) -> (r: bool)
        ensures
            r == (self.kind == EntryKind::Directory || self.kind
                == EntryKind::DirectorySymbolicLink),
    {
        matches!(self.kind, EntryKind::Directory | EntryKind::DirectorySymbolicLink)
    }

    /// Any kind of symbolic link.
    pub fn is_symbolic_link(&self) -> (r: bool)
        ensures
            r == (self.kind == EntryKind::DirectorySymbolicLink || self.kind
                == EntryKind::FileSymbolicLink || self.kind == EntryKind::SymbolicLink),
    {
        matches!(
            self.kind,
            EntryKind::DirectorySymbolicLink | EntryKind::FileSymbolicLink | EntryKind::SymbolicLink
        )
    }

    /// A symbolic link whose target could not be resolved.
    pub fn is_broken_symbolic_link(&self) -> (r: bool)
        ensures
            r == (self.kind == EntryKind::SymbolicLink),
    {
        self.kind == EntryKind::SymbolicLink
    }
}

} // verus!
