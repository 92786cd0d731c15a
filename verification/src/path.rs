//! Native paths as raw bytes, read component by component the way a Unix path is read:
//! an optional root `/`, an optional leading `.`, then the pieces between separators,
//! where empty pieces and `.` pieces carry no meaning.

use vstd::prelude::*;

verus! {

/// The path starts at the root directory.
pub open spec fn has_root(p: Seq<u8>) -> bool {
    p.len() > 0 && p[0] == 47u8
}

/// A relative path that starts with an explicit `.` component (`.` or `./...`).
pub open spec fn has_cur_dir(p: Seq<u8>) -> bool {
    !has_root(p) && p.len() > 0 && p[0] == 46u8 && (p.len() == 1 || p[1] == 47u8)
}

/// Where the pieces after the root or the leading `.` begin.
pub open spec fn body_start(p: Seq<u8>) -> int {
    if has_root(p) || has_cur_dir(p) {
        1
    } else {
        0
    }
}

/// A piece between separators that names a component (it is neither empty nor `.`).
pub open spec fn significant(piece: Seq<u8>) -> bool {
    piece.len() > 0 && !(piece.len() == 1 && piece[0] == 46u8)
}

/// The index of the first separator in `p[lo..hi]`, or `hi` when there is none.
pub open spec fn first_sep(p: Seq<u8>, lo: int, hi: int) -> int
    decreases hi - lo,
{
    if lo >= hi {
        hi
    } else if p[lo] == 47u8 {
        lo
    } else {
        first_sep(p, lo + 1, hi)
    }
}

pub proof fn lemma_first_sep(p: Seq<u8>, lo: int, hi: int)
    requires
        0 <= lo <= hi <= p.len(),
    ensures
        lo <= first_sep(p, lo, hi) <= hi,
        first_sep(p, lo, hi) < hi ==> p[first_sep(p, lo, hi)] == 47u8,
        forall|k: int| lo <= k < first_sep(p, lo, hi) ==> p[k] != 47u8,
    decreases hi - lo,
{
    if lo < hi && p[lo] != 47u8 {
        lemma_first_sep(p, lo + 1, hi);
    }
}

/// A separator with no separator before it (from `lo`) is the first one.
pub proof fn lemma_first_sep_is(p: Seq<u8>, lo: int, hi: int, j: int)
    requires
        0 <= lo <= j <= hi <= p.len(),
        j < hi ==> p[j] == 47u8,
        forall|k: int| lo <= k < j ==> p[k] != 47u8,
    ensures
        first_sep(p, lo, hi) == j,
    decreases j - lo,
{
    if lo < j {
        lemma_first_sep_is(p, lo + 1, hi, j);
    }
}

/// The spans `(start, end)` of the significant pieces of `p[lo..hi]`, in order.
pub open spec fn spans_from(p: Seq<u8>, lo: int, hi: int) -> Seq<(int, int)>
    decreases hi - lo,
{
    if lo >= hi || lo < 0 || hi > p.len() {
        Seq::empty()
    } else {
        let j = first_sep(p, lo, hi);
        proof {
            lemma_first_sep(p, lo, hi);
        }
        let rest = if j < hi {
            spans_from(p, j + 1, hi)
        } else {
            Seq::empty()
        };
        if significant(p.subrange(lo, j)) {
            seq![(lo, j)] + rest
        } else {
            rest
        }
    }
}

/// The spans of the components of `p` after its root or leading `.`.
pub open spec fn spans(p: Seq<u8>) -> Seq<(int, int)> {
    spans_from(p, body_start(p), p.len() as int)
}

/// Exec spans as integer pairs.
pub open spec fn as_ints(s: Seq<(usize, usize)>) -> Seq<(int, int)> {
    s.map_values(|x: (usize, usize)| (x.0 as int, x.1 as int))
}

/// The significant piece `p[lo..hi]` is recognised.
fn is_significant(p: &[u8], lo: usize, hi: usize) -> (r: bool)
    requires
        lo <= hi <= p@.len(),
    ensures
        r == significant(p@.subrange(lo as int, hi as int)),
{
    hi > lo && !(hi == lo + 1 && p[lo] == 46u8)
}

/// The spans of the significant pieces of `p[lo..hi]`.
pub fn spans_between(p: &[u8], lo: usize, hi: usize) -> (r: Vec<(usize, usize)>)
    requires
        lo <= hi <= p@.len(),
    ensures
        as_ints(r@) == spans_from(p@, lo as int, hi as int),
{
    let mut r: Vec<(usize, usize)> = Vec::new();
    let mut start: usize = lo;
    let mut i: usize = lo;
    while i < hi
        invariant
            lo <= start <= i <= hi <= p@.len(),
            forall|k: int| start <= k < i ==> p@[k] != 47u8,
            as_ints(r@) + spans_from(p@, start as int, hi as int) == spans_from(
                p@,
                lo as int,
                hi as int,
            ),
        decreases hi - i,
    {
        if p[i] == 47u8 {
            proof {
                lemma_first_sep_is(p@, start as int, hi as int, i as int);
            }
            let ghost old_r = r@;
            if is_significant(p, start, i) {
                r.push((start, i));
                assert(as_ints(r@) =~= as_ints(old_r) + seq![(start as int, i as int)]);
            }
            assert(as_ints(r@) + spans_from(p@, (i + 1) as int, hi as int) =~= spans_from(
                p@,
                lo as int,
                hi as int,
            ));
            start = i + 1;
        }
        i = i + 1;
    }
    proof {
        lemma_first_sep_is(p@, start as int, hi as int, hi as int);
    }
    let ghost old_r = r@;
    if is_significant(p, start, hi) {
        r.push((start, hi));
        assert(as_ints(r@) =~= as_ints(old_r) + seq![(start as int, hi as int)]);
    }
    assert(as_ints(r@) =~= as_ints(r@) + spans_from(p@, hi as int, hi as int));
    r
}


/// Reading `p[lo..hi]` only looks at bytes before `hi`.
pub proof fn lemma_spans_prefix_independent(p: Seq<u8>, n: int, lo: int, hi: int)
    requires
        0 <= lo <= hi <= n <= p.len(),
    ensures
        spans_from(p, lo, hi) == spans_from(p.subrange(0, n), lo, hi),
        first_sep(p, lo, hi) == first_sep(p.subrange(0, n), lo, hi),
    decreases hi - lo,
{
    let q = p.subrange(0, n);
    lemma_first_sep(p, lo, hi);
    lemma_first_sep_is(q, lo, hi, first_sep(p, lo, hi));
    if lo < hi {
        let j = first_sep(p, lo, hi);
        if j < hi {
            lemma_spans_prefix_independent(p, n, j + 1, hi);
        }
        assert(p.subrange(lo, j) =~= q.subrange(lo, j));
    }
}

/// The shape of the spans: ordered, non-overlapping, each a significant piece free of separators
/// that ends at a separator or at `hi`.
pub proof fn lemma_spans_shape(p: Seq<u8>, lo: int, hi: int)
    requires
        0 <= lo <= hi <= p.len(),
    ensures
        forall|i: int|
            #![trigger spans_from(p, lo, hi)[i]]
            0 <= i < spans_from(p, lo, hi).len() ==> {
                let s = spans_from(p, lo, hi)[i];
                &&& lo <= s.0 < s.1 <= hi
                &&& s.1 < hi ==> p[s.1] == 47u8
                &&& forall|k: int| s.0 <= k < s.1 ==> p[k] != 47u8
                &&& significant(p.subrange(s.0, s.1))
            },
        forall|i: int|
            0 <= i < spans_from(p, lo, hi).len() - 1 ==> #[trigger] spans_from(p, lo, hi)[i].1
                < spans_from(p, lo, hi)[i + 1].0,
    decreases hi - lo,
{
    if lo < hi {
        let j = first_sep(p, lo, hi);
        lemma_first_sep(p, lo, hi);
        if j < hi {
            lemma_spans_shape(p, j + 1, hi);
        }
        let s = spans_from(p, lo, hi);
        let rest = if j < hi {
            spans_from(p, j + 1, hi)
        } else {
            Seq::empty()
        };
        if significant(p.subrange(lo, j)) {
            assert(s == seq![(lo, j)] + rest);
            assert forall|i: int| 0 <= i < s.len() - 1 implies #[trigger] s[i].1 < s[i + 1].0 by {
                if i > 0 {
                    assert(s[i] == rest[i - 1]);
                    assert(s[i + 1] == rest[i]);
                } else {
                    assert(s[1] == rest[0]);
                }
            }
            assert forall|i: int| #![trigger s[i]] 0 <= i < s.len() implies {
                let t = s[i];
                &&& lo <= t.0 < t.1 <= hi
                &&& t.1 < hi ==> p[t.1] == 47u8
                &&& forall|k: int| t.0 <= k < t.1 ==> p[k] != 47u8
                &&& significant(p.subrange(t.0, t.1))
            } by {
                if i > 0 {
                    assert(s[i] == rest[i - 1]);
                }
            }
        } else {
            assert(s == rest);
        }
    }
}

/// Cutting the path right after its `k`-th component keeps exactly the first `k + 1` components.
pub proof fn lemma_spans_take(p: Seq<u8>, lo: int, hi: int, k: int)
    requires
        0 <= lo <= hi <= p.len(),
        0 <= k < spans_from(p, lo, hi).len(),
    ensures
        spans_from(p, lo, spans_from(p, lo, hi)[k].1) == spans_from(p, lo, hi).take(k + 1),
    decreases hi - lo,
{
    let s = spans_from(p, lo, hi);
    let j = first_sep(p, lo, hi);
    lemma_first_sep(p, lo, hi);
    lemma_spans_shape(p, lo, hi);
    let rest = if j < hi {
        spans_from(p, j + 1, hi)
    } else {
        Seq::empty()
    };
    if j < hi {
        lemma_spans_shape(p, j + 1, hi);
    }
    let e = s[k].1;
    if significant(p.subrange(lo, j)) {
        assert(s == seq![(lo, j)] + rest);
        if k == 0 {
            lemma_first_sep_is(p, lo, j, j);
            assert(spans_from(p, lo, j) =~= seq![(lo, j)]);
            assert(s.take(1) =~= seq![(lo, j)]);
        } else {
            assert(s[k] == rest[k - 1]);
            lemma_spans_take(p, j + 1, hi, k - 1);
            lemma_first_sep_is(p, lo, e, j);
            assert(spans_from(p, lo, e) =~= seq![(lo, j)] + spans_from(p, j + 1, e));
            assert(s.take(k + 1) =~= seq![(lo, j)] + rest.take(k));
        }
    } else {
        assert(s == rest);
        lemma_spans_take(p, j + 1, hi, k);
        lemma_first_sep_is(p, lo, e, j);
        assert(spans_from(p, lo, e) == spans_from(p, j + 1, e));
    }
}


/// The token standing for the root component.
pub open spec fn root_token() -> Seq<u8> {
    seq![47u8]
}

/// The token standing for a leading `.` component.
pub open spec fn cur_token() -> Seq<u8> {
    seq![46u8]
}

/// The pieces of `c` at the spans `y`.
pub open spec fn pieces_of(c: Seq<u8>, y: Seq<(int, int)>) -> Seq<Seq<u8>> {
    y.map_values(|x: (int, int)| c.subrange(x.0, x.1))
}

/// The named components of `p` (`..` among them), as byte strings.
pub open spec fn parts(p: Seq<u8>) -> Seq<Seq<u8>> {
    pieces_of(p, spans(p))
}

/// The components of `p`: the root (`/`) or the leading `.` when present, then the named parts.
/// Two native paths denote the same place exactly when their components are equal.
pub open spec fn components(p: Seq<u8>) -> Seq<Seq<u8>> {
    (if has_root(p) {
        seq![root_token()]
    } else {
        Seq::empty()
    }) + (if has_cur_dir(p) {
        seq![cur_token()]
    } else {
        Seq::empty()
    }) + parts(p)
}

/// The length of the prefix of `p` that is its parent, as `Path::parent` reads it: the path cut
/// right after its next-to-last part (or after the root or leading `.`); `None` for the root and
/// for an empty path.
pub open spec fn parent_len(p: Seq<u8>) -> Option<int> {
    let s = spans(p);
    if s.len() >= 2 {
        Some(s[s.len() - 2].1)
    } else if s.len() == 1 {
        Some(body_start(p))
    } else if has_cur_dir(p) {
        Some(0)
    } else {
        None
    }
}

pub(crate) proof fn lemma_components_split(p: Seq<u8>)
    ensures
        components(p) == (if has_root(p) {
            seq![root_token()]
        } else {
            Seq::empty()
        }) + (if has_cur_dir(p) {
            seq![cur_token()]
        } else {
            Seq::empty()
        }) + parts(p),
        parts(p).len() == spans(p).len(),
{
}

proof fn lemma_parent_many(p: Seq<u8>)
    requires
        spans(p).len() >= 2,
    ensures
        ({
            let n = spans(p)[spans(p).len() - 2].1;
            &&& 0 <= n < p.len()
            &&& components(p.subrange(0, n)) == components(p).drop_last()
        }),
{
    let s = spans(p);
    let bs = body_start(p);
    let len = p.len() as int;
    lemma_spans_shape(p, bs, len);
    let n = s[s.len() - 2].1;
    let q = p.subrange(0, n);
    assert(s[s.len() - 2].1 < s[s.len() - 1].0);
    assert(n >= 1);
    if n == 1 {
        assert(s[s.len() - 2].0 == 0);
        assert(p.subrange(0, 1) =~= seq![p[0]]);
    }
    if has_cur_dir(p) {
        assert(s[s.len() - 2].0 >= 1);
    }
    assert(has_root(q) == has_root(p));
    assert(has_cur_dir(q) == has_cur_dir(p));
    lemma_spans_prefix_independent(p, n, bs, n);
    lemma_spans_take(p, bs, len, s.len() - 2);
    assert(spans(q) == s.take(s.len() - 1));
    lemma_spans_shape(q, bs, n);
    assert forall|i: int| 0 <= i < parts(q).len() implies parts(q)[i] == parts(p)[i] by {
        assert(spans(q)[i] == s[i]);
        assert(q.subrange(s[i].0, s[i].1) =~= p.subrange(s[i].0, s[i].1));
    }
    assert(parts(q) =~= parts(p).drop_last());
    lemma_components_split(p);
    lemma_components_split(q);
    assert(components(q) =~= components(p).drop_last());
}

proof fn lemma_parent_few(p: Seq<u8>)
    requires
        spans(p).len() < 2,
    ensures
        parent_len(p) matches Some(n) ==> {
            &&& 0 <= n < p.len()
            &&& components(p.subrange(0, n)) == components(p).drop_last()
        },
        parent_len(p) is None ==> parts(p).len() == 0 && !has_cur_dir(p),
{
    let s = spans(p);
    let bs = body_start(p);
    lemma_spans_shape(p, bs, p.len() as int);
    lemma_components_split(p);
    if s.len() == 1 {
        let q = p.subrange(0, bs);
        assert(s[0].0 < s[0].1);
        if has_root(p) {
            assert(q =~= seq![47u8]);
        }
        if has_cur_dir(p) {
            assert(q =~= seq![46u8]);
        }
        if bs == 0 {
            assert(q =~= Seq::<u8>::empty());
        }
        assert(spans(q) == Seq::<(int, int)>::empty());
        assert(parts(q) =~= Seq::<Seq<u8>>::empty());
        lemma_components_split(q);
        assert(components(q) =~= components(p).drop_last());
    } else if has_cur_dir(p) {
        let q = p.subrange(0, 0);
        assert(q =~= Seq::<u8>::empty());
        assert(spans(q) == Seq::<(int, int)>::empty());
        assert(parts(q) =~= Seq::<Seq<u8>>::empty());
        lemma_components_split(q);
        assert(components(q) =~= components(p).drop_last());
    }
}

/// The parent of a path is a strictly shorter prefix holding all of its components but the last;
/// only the root and the empty path have none.
pub proof fn lemma_parent_components(p: Seq<u8>)
    ensures
        parent_len(p) matches Some(n) ==> {
            &&& 0 <= n < p.len()
            &&& components(p).len() > 0
            &&& components(p.subrange(0, n)) == components(p).drop_last()
        },
        parent_len(p) is None <==> (components(p) == Seq::<Seq<u8>>::empty() || components(p)
            == seq![root_token()]),
{
    let s = spans(p);
    lemma_components_split(p);
    lemma_spans_shape(p, body_start(p), p.len() as int);
    if s.len() >= 2 {
        lemma_parent_many(p);
    } else {
        lemma_parent_few(p);
    }
    if s.len() > 0 {
        let last = s[s.len() - 1];
        assert(parts(p).last() == p.subrange(last.0, last.1));
        assert(p[last.0] != 47u8);
        assert(components(p).last() == parts(p).last());
        assert(components(p) != seq![root_token()]) by {
            if components(p) == seq![root_token()] {
                assert(components(p).last() == root_token());
                assert(parts(p).last()[0] == p[last.0]);
            }
        }
    } else {
        assert(parts(p) =~= Seq::<Seq<u8>>::empty());
        if has_cur_dir(p) {
            assert(components(p) =~= seq![cur_token()]);
            assert(components(p)[0][0] != root_token()[0]);
        } else if has_root(p) {
            assert(components(p) =~= seq![root_token()]);
        } else {
            assert(components(p) =~= Seq::<Seq<u8>>::empty());
        }
    }
}

/// The start of the body of the prefix `p[..n]`.
fn body_start_of(p: &[u8], n: usize) -> (r: usize)
    requires
        n <= p@.len(),
    ensures
        r == body_start(p@.subrange(0, n as int)),
        r <= n,
{
    if n > 0 && p[0] == 47u8 {
        1
    } else if n > 0 && p[0] == 46u8 && (n == 1 || p[1] == 47u8) {
        1
    } else {
        0
    }
}

/// The spans of the components of the prefix `p[..n]`.
pub fn spans_of_prefix(p: &[u8], n: usize) -> (r: Vec<(usize, usize)>)
    requires
        n <= p@.len(),
    ensures
        as_ints(r@) == spans(p@.subrange(0, n as int)),
{
    let bs: usize = body_start_of(p, n);
    proof {
        lemma_spans_prefix_independent(p@, n as int, bs as int, n as int);
    }
    spans_between(p, bs, n)
}

/// The length of the parent of the prefix `p[..n]`, as `parent_len` states it.
pub fn parent_len_of_prefix(p: &[u8], n: usize) -> (r: Option<usize>)
    requires
        n <= p@.len(),
    ensures
        r matches Some(m) ==> parent_len(p@.subrange(0, n as int)) == Some(m as int),
        r is None ==> parent_len(p@.subrange(0, n as int)) is None,
{
    let s = spans_of_prefix(p, n);
    let bs: usize = body_start_of(p, n);
    let ghost q = p@.subrange(0, n as int);
    proof {
        assert(as_ints(s@).len() == s@.len());
    }
    if s.len() >= 2 {
        let e: usize = s[s.len() - 2].1;
        proof {
            assert(as_ints(s@)[s@.len() - 2] == (s@[s@.len() - 2].0 as int, e as int));
        }
        Some(e)
    } else if s.len() == 1 {
        Some(bs)
    } else if n > 0 && p[0] == 46u8 && (n == 1 || p[1] == 47u8) {
        Some(0)
    } else {
        None
    }
}


/// A copy of `p[a..b]`.
pub fn copy_range(p: &[u8], a: usize, b: usize) -> (r: Vec<u8>)
    requires
        a <= b <= p@.len(),
    ensures
        r@ == p@.subrange(a as int, b as int),
{
    let mut r: Vec<u8> = Vec::new();
    let mut i: usize = a;
    while i < b
        invariant
            a <= i <= b <= p@.len(),
            r@ == p@.subrange(a as int, i as int),
        decreases b - i,
    {
        r.push(p[i]);
        i = i + 1;
        assert(r@ =~= p@.subrange(a as int, i as int));
    }
    r
}

/// The views of a list of byte strings.
pub open spec fn byte_views(v: Seq<Vec<u8>>) -> Seq<Seq<u8>> {
    v.map_values(|x: Vec<u8>| x@)
}

/// The components of `p`, each as its own byte string.
pub fn components_of(p: &[u8]) -> (r: Vec<Vec<u8>>)
    ensures
        byte_views(r@) == components(p@),
{
    let n: usize = p.len();
    proof {
        assert(p@.subrange(0, n as int) =~= p@);
    }
    let s = spans_of_prefix(p, n);
    let mut r: Vec<Vec<u8>> = Vec::new();
    if n > 0 && p[0] == 47u8 {
        let mut t: Vec<u8> = Vec::new();
        t.push(47u8);
        assert(t@ =~= root_token());
        r.push(t);
    } else if n > 0 && p[0] == 46u8 && (n == 1 || p[1] == 47u8) {
        let mut t: Vec<u8> = Vec::new();
        t.push(46u8);
        assert(t@ =~= cur_token());
        r.push(t);
    }
    let ghost pre = byte_views(r@);
    proof {
        lemma_spans_shape(p@, body_start(p@), n as int);
        assert(pre =~= (if has_root(p@) {
            seq![root_token()]
        } else {
            Seq::empty()
        }) + (if has_cur_dir(p@) {
            seq![cur_token()]
        } else {
            Seq::empty()
        }));
    }
    let mut i: usize = 0;
    while i < s.len()
        invariant
            i <= s@.len(),
            n == p@.len(),
            as_ints(s@) == spans(p@),
            byte_views(r@) == pre + parts(p@).take(i as int),
            forall|k: int|
                #![trigger spans(p@)[k]]
                0 <= k < spans(p@).len() ==> 0 <= spans(p@)[k].0 <= spans(p@)[k].1 <= n,
        decreases s@.len() - i,
    {
        let (a, b) = s[i];
        assert(spans(p@)[i as int] == (a as int, b as int));
        let piece = copy_range(p, a, b);
        let ghost old_r = byte_views(r@);
        assert(parts(p@)[i as int] == p@.subrange(a as int, b as int));
        r.push(piece);
        assert(byte_views(r@) =~= old_r.push(piece@));
        assert(parts(p@).take(i + 1) =~= parts(p@).take(i as int).push(parts(p@)[i as int]));
        i = i + 1;
        assert(byte_views(r@) =~= pre + parts(p@).take(i as int));
    }
    assert(parts(p@).take(i as int) =~= parts(p@));
    r
}

/// Whether two byte strings are equal.
pub fn bytes_equal(a: &[u8], b: &[u8]) -> (r: bool)
    ensures
        r == (a@ == b@),
{
    if a.len() != b.len() {
        return false;
    }
    let mut i: usize = 0;
    while i < a.len()
        invariant
            i <= a@.len() == b@.len(),
            a@.subrange(0, i as int) == b@.subrange(0, i as int),
        decreases a@.len() - i,
    {
        if a[i] != b[i] {
            return false;
        }
        i = i + 1;
        assert(a@.subrange(0, i as int) =~= a@.subrange(0, i - 1).push(a@[i - 1]));
        assert(b@.subrange(0, i as int) =~= b@.subrange(0, i - 1).push(b@[i - 1]));
    }
    assert(a@ =~= a@.subrange(0, i as int));
    assert(b@ =~= b@.subrange(0, i as int));
    true
}

/// Whether the first `k` components of two lists agree.
fn leading_components_equal(a: &Vec<Vec<u8>>, b: &Vec<Vec<u8>>, k: usize) -> (r: bool)
    requires
        k <= a@.len(),
        k <= b@.len(),
    ensures
        r == (byte_views(a@).take(k as int) == byte_views(b@).take(k as int)),
{
    let mut i: usize = 0;
    while i < k
        invariant
            i <= k <= a@.len(),
            k <= b@.len(),
            byte_views(a@).take(i as int) == byte_views(b@).take(i as int),
        decreases k - i,
    {
        if !bytes_equal(a[i].as_slice(), b[i].as_slice()) {
            assert(byte_views(a@).take(k as int)[i as int] != byte_views(b@).take(k as int)[i as int]);
            return false;
        }
        i = i + 1;
        assert(byte_views(a@).take(i as int) =~= byte_views(b@).take(i as int));
    }
    true
}

/// `base`'s components begin the components of `p`.
pub open spec fn starts_with(p: Seq<u8>, base: Seq<u8>) -> bool {
    components(base).len() <= components(p).len() && components(p).take(
        components(base).len() as int,
    ) == components(base)
}

/// Whether two native paths have the same components.
pub fn same_components(a: &[u8], b: &[u8]) -> (r: bool)
    ensures
        r == (components(a@) == components(b@)),
{
    let ca = components_of(a);
    let cb = components_of(b);
    if ca.len() != cb.len() {
        return false;
    }
    let r = leading_components_equal(&ca, &cb, ca.len());
    proof {
        assert(byte_views(ca@).take(ca@.len() as int) =~= byte_views(ca@));
        assert(byte_views(cb@).take(cb@.len() as int) =~= byte_views(cb@));
    }
    r
}

/// Whether `p` lies within `base`, component-wise (`Path::starts_with`).
pub fn path_starts_with(p: &[u8], base: &[u8]) -> (r: bool)
    ensures
        r == starts_with(p@, base@),
{
    let cp = components_of(p);
    let cb = components_of(base);
    if cb.len() > cp.len() {
        return false;
    }
    let r = leading_components_equal(&cp, &cb, cb.len());
    proof {
        assert(byte_views(cb@).take(cb@.len() as int) =~= byte_views(cb@));
    }
    r
}

/// `p` is absolute: it starts at the root.
pub fn is_absolute(p: &[u8]) -> (r: bool)
    ensures
        r == has_root(p@),
{
    p.len() > 0 && p[0] == 47u8
}


/// The lengths of the ancestors of `p[..n]`: `n` itself, then its parent, its grandparent, and so
/// on up to the last one that has no parent (`Path::ancestors`).
pub open spec fn ancestor_lens(p: Seq<u8>, n: int) -> Seq<int>
    decreases n,
{
    if n < 0 || n > p.len() {
        seq![n]
    } else {
        match parent_len(p.subrange(0, n)) {
            Some(m) => if 0 <= m < n {
                seq![n] + ancestor_lens(p, m)
            } else {
                seq![n]
            },
            None => seq![n],
        }
    }
}

/// Exec lengths as integers.
pub open spec fn lens_as_ints(s: Seq<usize>) -> Seq<int> {
    s.map_values(|x: usize| x as int)
}

/// The lengths of the ancestors of `p`, from the outermost to `p` itself.
pub fn breadcrumb_lens(p: &[u8]) -> (r: Vec<usize>)
    ensures
        lens_as_ints(r@) == ancestor_lens(p@, p@.len() as int).reverse(),
{
    let len: usize = p.len();
    let mut out: Vec<usize> = Vec::new();
    let mut n: usize = len;
    let mut done = false;
    while !done
        invariant
            n <= len == p@.len(),
            !done ==> lens_as_ints(out@) + ancestor_lens(p@, n as int) == ancestor_lens(
                p@,
                len as int,
            ),
            done ==> lens_as_ints(out@) == ancestor_lens(p@, len as int),
        decreases n + (if done {
            0int
        } else {
            1int
        }),
    {
        let ghost before = lens_as_ints(out@);
        match parent_len_of_prefix(p, n) {
            Some(m) => {
                proof {
                    lemma_parent_components(p@.subrange(0, n as int));
                }
                out.push(n);
                assert(lens_as_ints(out@) =~= before + seq![n as int]);
                assert(ancestor_lens(p@, n as int) == seq![n as int] + ancestor_lens(p@, m as int));
                assert(lens_as_ints(out@) + ancestor_lens(p@, m as int) =~= before
                    + ancestor_lens(p@, n as int));
                n = m;
            },
            None => {
                out.push(n);
                assert(lens_as_ints(out@) =~= before + seq![n as int]);
                assert(ancestor_lens(p@, n as int) == seq![n as int]);
                done = true;
            },
        }
    }
    let mut rev: Vec<usize> = Vec::new();
    let mut i: usize = out.len();
    while i > 0
        invariant
            i <= out@.len(),
            rev@.len() == out@.len() - i,
            forall|k: int| 0 <= k < rev@.len() ==> rev@[k] == out@[out@.len() - 1 - k],
        decreases i,
    {
        i = i - 1;
        rev.push(out[i]);
    }
    assert(lens_as_ints(rev@) =~= lens_as_ints(out@).reverse());
    rev
}

/// The components `..`.
pub open spec fn dotdot() -> Seq<u8> {
    seq![46u8, 46u8]
}

/// The final component when it names an entry (`Path::file_name`): not the root, not `.`, not `..`.
pub open spec fn file_name(p: Seq<u8>) -> Option<Seq<u8>> {
    if parts(p).len() > 0 && parts(p).last() != dotdot() {
        Some(parts(p).last())
    } else {
        None
    }
}

/// The span of the final component of `p` when it names an entry.
pub fn file_name_span(p: &[u8]) -> (r: Option<(usize, usize)>)
    ensures
        r matches Some(sp) ==> {
            &&& sp.0 <= sp.1 <= p@.len()
            &&& spans(p@).len() > 0
            &&& spans(p@).last() == (sp.0 as int, sp.1 as int)
            &&& file_name(p@) == Some(p@.subrange(sp.0 as int, sp.1 as int))
        },
        r is None ==> file_name(p@) is None,
{
    let n: usize = p.len();
    proof {
        assert(p@.subrange(0, n as int) =~= p@);
        lemma_spans_shape(p@, body_start(p@), n as int);
    }
    let s = spans_of_prefix(p, n);
    if s.len() == 0 {
        return None;
    }
    let (a, b) = s[s.len() - 1];
    assert(spans(p@).last() == (a as int, b as int));
    assert(parts(p@).last() == p@.subrange(a as int, b as int));
    if b - a == 2 && p[a] == 46u8 && p[a + 1] == 46u8 {
        assert(p@.subrange(a as int, b as int) =~= dotdot());
        None
    } else {
        assert(p@.subrange(a as int, b as int) != dotdot()) by {
            if p@.subrange(a as int, b as int) == dotdot() {
                assert(p@.subrange(a as int, b as int)[0] == p@[a as int]);
                assert(p@.subrange(a as int, b as int)[1] == p@[a + 1]);
            }
        }
        Some((a, b))
    }
}

/// How many of `p`'s components come before its parts: one for a root or a leading `.`.
pub open spec fn lead_count(p: Seq<u8>) -> int {
    if has_root(p) || has_cur_dir(p) {
        1
    } else {
        0
    }
}

/// What remains of `p` once the components of `base` are taken off its front
/// (`Path::strip_prefix`), with separators and `.` pieces at its ends dropped; `None` when
/// `base` does not begin `p`.
pub open spec fn strip_prefix(p: Seq<u8>, base: Seq<u8>) -> Option<Seq<u8>> {
    let s = spans(p);
    if !starts_with(p, base) {
        None
    } else if components(base).len() == 0 {
        Some(
            p.subrange(
                0,
                if s.len() > 0 {
                    s.last().1
                } else {
                    body_start(p)
                },
            ),
        )
    } else {
        let k = components(base).len() - lead_count(p);
        if k >= s.len() {
            Some(Seq::empty())
        } else {
            Some(p.subrange(s[k].0, s.last().1))
        }
    }
}

/// `p` with the components of `base` taken off its front, as `strip_prefix` states it.
pub fn strip_prefix_of(p: &[u8], base: &[u8]) -> (r: Option<Vec<u8>>)
    ensures
        r matches Some(v) ==> strip_prefix(p@, base@) == Some(v@),
        r is None ==> strip_prefix(p@, base@) is None,
{
    if !path_starts_with(p, base) {
        return None;
    }
    let n: usize = p.len();
    proof {
        assert(p@.subrange(0, n as int) =~= p@);
        lemma_spans_shape(p@, body_start(p@), n as int);
    }
    let s = spans_of_prefix(p, n);
    let cb = components_of(base);
    let lead: usize = if n > 0 && p[0] == 47u8 {
        1
    } else if n > 0 && p[0] == 46u8 && (n == 1 || p[1] == 47u8) {
        1
    } else {
        0
    };
    let bs: usize = lead;
    assert(bs == body_start(p@));
    proof {
        assert(byte_views(cb@).len() == cb@.len());
        lemma_components_split(p@);
        assert(as_ints(s@).len() == s@.len());
    }
    if cb.len() == 0 {
        let end: usize = if s.len() > 0 {
            s[s.len() - 1].1
        } else {
            bs
        };
        proof {
            if s@.len() > 0 {
                assert(as_ints(s@).last() == (s@.last().0 as int, s@.last().1 as int));
            }
        }
        return Some(copy_range(p, 0, end));
    }
    assert(cb@.len() >= lead) by {
        if cb@.len() < lead {
            assert(components(p@).len() >= 1);
        }
    }
    let k: usize = cb.len() - lead;
    if k >= s.len() {
        let empty: Vec<u8> = Vec::new();
        assert(empty@ =~= Seq::<u8>::empty());
        Some(empty)
    } else {
        let a: usize = s[k].0;
        let b: usize = s[s.len() - 1].1;
        proof {
            assert(as_ints(s@)[k as int] == (a as int, s@[k as int].1 as int));
            assert(as_ints(s@).last() == (s@.last().0 as int, b as int));
            assert(spans(p@)[k as int].0 <= spans(p@).last().1) by {
                if k + 1 < s@.len() {
                    assert(forall|i: int|
                        0 <= i < spans(p@).len() - 1 ==> #[trigger] spans(p@)[i].1 < spans(
                            p@,
                        )[i + 1].0);
                    lemma_spans_order(p@, k as int, s@.len() - 1);
                }
            }
        }
        Some(copy_range(p, a, b))
    }
}

/// Only the empty path has no components.
pub proof fn lemma_no_components_is_empty(p: Seq<u8>)
    requires
        components(p).len() == 0,
    ensures
        p.len() == 0,
{
    lemma_components_split(p);
    if p.len() > 0 {
        let n = p.len() as int;
        lemma_first_sep(p, 0, n);
        let j = first_sep(p, 0, n);
        assert(j > 0);
        if j == 1 && p[0] == 46u8 {
            assert(has_cur_dir(p));
        }
        assert(significant(p.subrange(0, j)));
        assert(spans_from(p, 0, n).len() > 0);
    }
}

/// Taking a base with no components off a path keeps every component of the path, and its root
/// and leading `.`.
pub proof fn lemma_strip_nothing(p: Seq<u8>, base: Seq<u8>)
    requires
        components(base).len() == 0,
    ensures
        strip_prefix(p, base) matches Some(x) && components(x) == components(p) && has_root(x)
            == has_root(p) && has_cur_dir(x) == has_cur_dir(p),
{
    let s = spans(p);
    let bs = body_start(p);
    let n = p.len() as int;
    lemma_spans_shape(p, bs, n);
    let end = if s.len() > 0 {
        s.last().1
    } else {
        bs
    };
    assert(components(p).take(0) =~= components(base));
    assert(strip_prefix(p, base) == Some(p.subrange(0, end)));
    let x = p.subrange(0, end);
    if s.len() > 0 {
        assert(s[s.len() - 1] == s.last());
    }
    assert(bs <= end <= n);
    if has_cur_dir(x) && !has_cur_dir(p) {
        assert(end == 1);
        assert(s[s.len() - 1].0 == 0);
        assert(p.subrange(0, 1) =~= seq![46u8]);
    }
    assert(has_root(x) == has_root(p));
    assert(has_cur_dir(x) == has_cur_dir(p));
    lemma_spans_prefix_independent(p, end, bs, end);
    if s.len() > 0 {
        lemma_spans_take(p, bs, n, s.len() - 1);
        assert(s.take(s.len() as int) =~= s);
    }
    assert(spans(x) == s);
    assert forall|i: int| 0 <= i < s.len() implies #[trigger] parts(x)[i] == parts(p)[i] by {
        assert(x.subrange(s[i].0, s[i].1) =~= p.subrange(s[i].0, s[i].1)) by {
            if s.len() > 0 {
                lemma_spans_order(p, i, s.len() - 1);
            }
        }
    }
    assert(parts(x) =~= parts(p));
    lemma_components_split(x);
    lemma_components_split(p);
}

/// Spans come in order.
pub proof fn lemma_spans_order(p: Seq<u8>, i: int, j: int)
    requires
        0 <= i <= j < spans(p).len(),
    ensures
        spans(p)[i].0 <= spans(p)[j].0,
        spans(p)[i].1 <= spans(p)[j].1,
    decreases j - i,
{
    lemma_spans_shape(p, body_start(p), p.len() as int);
    if i < j {
        lemma_spans_order(p, i + 1, j);
        assert(spans(p)[i].1 < spans(p)[i + 1].0);
    }
}

/// `suffix` appended to `base` (`Path::join` on Unix): an absolute `suffix` replaces `base`;
/// otherwise a separator goes between them unless `base` is empty or already ends with one.
pub open spec fn join(base: Seq<u8>, suffix: Seq<u8>) -> Seq<u8> {
    if has_root(suffix) {
        suffix
    } else if base.len() > 0 && base.last() != 47u8 {
        base + seq![47u8] + suffix
    } else {
        base + suffix
    }
}

/// `suffix` appended to `base`, as `join` states it.
pub fn join_paths(base: &[u8], suffix: &[u8]) -> (r: Vec<u8>)
    requires
        base@.len() + suffix@.len() + 1 <= usize::MAX,
    ensures
        r@ == join(base@, suffix@),
{
    if is_absolute(suffix) {
        return copy_range(suffix, 0, suffix.len());
    }
    let mut r = copy_range(base, 0, base.len());
    if base.len() > 0 && base[base.len() - 1] != 47u8 {
        r.push(47u8);
    }
    let ghost head = r@;
    let mut i: usize = 0;
    while i < suffix.len()
        invariant
            i <= suffix@.len(),
            r@ == head + suffix@.subrange(0, i as int),
        decreases suffix@.len() - i,
    {
        r.push(suffix[i]);
        i = i + 1;
        assert(r@ =~= head + suffix@.subrange(0, i as int));
    }
    assert(base@.subrange(0, base@.len() as int) =~= base@);
    assert(suffix@.subrange(0, suffix@.len() as int) =~= suffix@);
    assert(r@ =~= join(base@, suffix@));
    r
}


/// The index of the last `.` in `name`, or -1 when there is none.
pub open spec fn last_dot(name: Seq<u8>) -> int
    decreases name.len(),
{
    if name.len() == 0 {
        -1
    } else if name.last() == 46u8 {
        name.len() - 1
    } else {
        last_dot(name.drop_last())
    }
}

proof fn lemma_last_dot(name: Seq<u8>)
    ensures
        -1 <= last_dot(name) < name.len(),
    decreases name.len(),
{
    if name.len() > 0 && name.last() != 46u8 {
        lemma_last_dot(name.drop_last());
    }
}

/// Where the file stem of `p` ends (`Path::file_stem`): the file name up to its last `.`, or the
/// whole file name when it has no `.` or only a leading one.
pub open spec fn stem_end(p: Seq<u8>) -> Option<int> {
    match file_name(p) {
        Some(name) => {
            let d = last_dot(name);
            if d <= 0 {
                Some(spans(p).last().1)
            } else {
                Some(spans(p).last().0 + d)
            }
        },
        None => None,
    }
}

/// `p` with its extension replaced by `ext` (`Path::with_extension`): cut after the file stem,
/// then `.` and `ext` unless `ext` is empty; unchanged when there is no file name.
pub open spec fn with_extension(p: Seq<u8>, ext: Seq<u8>) -> Seq<u8> {
    match stem_end(p) {
        Some(e) => p.subrange(0, e) + (if ext.len() > 0 {
            seq![46u8] + ext
        } else {
            Seq::empty()
        }),
        None => p,
    }
}

/// `p` with its extension replaced by `ext`, as `with_extension` states it.
pub fn with_extension_of(p: &[u8], ext: &[u8]) -> (r: Vec<u8>)
    requires
        p@.len() + ext@.len() + 1 <= usize::MAX,
    ensures
        r@ == with_extension(p@, ext@),
{
    match file_name_span(p) {
        None => {
            let r = copy_range(p, 0, p.len());
            assert(p@.subrange(0, p@.len() as int) =~= p@);
            r
        },
        Some((a, b)) => {
            proof {
                lemma_spans_shape(p@, body_start(p@), p@.len() as int);
                lemma_last_dot(p@.subrange(a as int, b as int));
            }
            let mut j: usize = b;
            while j > a && p[j - 1] != 46u8
                invariant
                    a <= j <= b <= p@.len(),
                    last_dot(p@.subrange(a as int, b as int)) == last_dot(
                        p@.subrange(a as int, j as int),
                    ),
                decreases j,
            {
                assert(p@.subrange(a as int, j as int).drop_last() =~= p@.subrange(
                    a as int,
                    j - 1,
                ));
                j = j - 1;
            }
            let ghost d = last_dot(p@.subrange(a as int, b as int));
            if j > a {
                assert(d == j - 1 - a);
            } else {
                assert(p@.subrange(a as int, j as int) =~= Seq::<u8>::empty());
            }
            let end: usize = if j > a + 1 {
                j - 1
            } else {
                b
            };
            let mut r = copy_range(p, 0, end);
            if ext.len() > 0 {
                r.push(46u8);
                let ghost head = r@;
                let mut i: usize = 0;
                while i < ext.len()
                    invariant
                        i <= ext@.len(),
                        r@ == head + ext@.subrange(0, i as int),
                    decreases ext@.len() - i,
                {
                    r.push(ext[i]);
                    i = i + 1;
                    assert(r@ =~= head + ext@.subrange(0, i as int));
                }
                assert(ext@.subrange(0, ext@.len() as int) =~= ext@);
                assert(r@ =~= with_extension(p@, ext@));
            } else {
                assert(r@ =~= with_extension(p@, ext@));
            }
            r
        },
    }
}

/// Byte strings in lexicographic order from index `i`: -1, 0 or 1.
pub open spec fn lex_order_from(a: Seq<u8>, b: Seq<u8>, i: int) -> int
    decreases a.len() - i,
{
    if i < 0 || i >= a.len() {
        if i >= b.len() {
            0
        } else {
            -1
        }
    } else if i >= b.len() {
        1
    } else if a[i] < b[i] {
        -1
    } else if a[i] > b[i] {
        1
    } else {
        lex_order_from(a, b, i + 1)
    }
}

/// Byte strings in lexicographic order: -1, 0 or 1.
pub open spec fn lex_order(a: Seq<u8>, b: Seq<u8>) -> int {
    lex_order_from(a, b, 0)
}

/// Byte strings in lexicographic order, as `lex_order` states it.
pub fn bytes_order(a: &[u8], b: &[u8]) -> (r: i8)
    ensures
        r as int == lex_order(a@, b@),
{
    let mut i: usize = 0;
    while i < a.len() && i < b.len()
        invariant
            i <= a@.len(),
            i <= b@.len(),
            lex_order_from(a@, b@, i as int) == lex_order(a@, b@),
        decreases a@.len() - i,
    {
        if a[i] < b[i] {
            return -1;
        }
        if a[i] > b[i] {
            return 1;
        }
        i = i + 1;
    }
    if i < a.len() {
        1
    } else if i < b.len() {
        -1
    } else {
        0
    }
}

/// The rank of a component kind: root, then `.`, then `..`, then named entries.
pub open spec fn token_rank(t: Seq<u8>) -> int {
    if t == root_token() {
        0
    } else if t == cur_token() {
        1
    } else if t == dotdot() {
        2
    } else {
        3
    }
}

/// Components in order: by kind, then named entries by their bytes.
pub open spec fn token_order(a: Seq<u8>, b: Seq<u8>) -> int {
    if token_rank(a) < token_rank(b) {
        -1
    } else if token_rank(a) > token_rank(b) {
        1
    } else if token_rank(a) == 3 {
        lex_order(a, b)
    } else {
        0
    }
}

/// Component lists in lexicographic order from index `i`.
pub open spec fn components_order_from(a: Seq<Seq<u8>>, b: Seq<Seq<u8>>, i: int) -> int
    decreases a.len() - i,
{
    if i < 0 || i >= a.len() {
        if i >= b.len() {
            0
        } else {
            -1
        }
    } else if i >= b.len() {
        1
    } else if token_order(a[i], b[i]) != 0 {
        token_order(a[i], b[i])
    } else {
        components_order_from(a, b, i + 1)
    }
}

/// Native paths in order (`Path::cmp`): their components, lexicographically.
pub open spec fn path_order(p: Seq<u8>, q: Seq<u8>) -> int {
    components_order_from(components(p), components(q), 0)
}

fn rank_of(t: &[u8]) -> (r: u8)
    ensures
        r as int == token_rank(t@),
{
    if t.len() == 1 && t[0] == 47u8 {
        assert(t@ =~= root_token());
        0
    } else if t.len() == 1 && t[0] == 46u8 {
        assert(t@ =~= cur_token());
        assert(t@ != root_token());
        1
    } else if t.len() == 2 && t[0] == 46u8 && t[1] == 46u8 {
        assert(t@ =~= dotdot());
        assert(t@ != root_token());
        assert(t@ != cur_token());
        2
    } else {
        assert(t@ != root_token()) by {
            if t@ == root_token() {
                assert(t@[0] == 47u8);
            }
        }
        assert(t@ != cur_token()) by {
            if t@ == cur_token() {
                assert(t@[0] == 46u8);
            }
        }
        assert(t@ != dotdot()) by {
            if t@ == dotdot() {
                assert(t@[0] == 46u8 && t@[1] == 46u8);
            }
        }
        3
    }
}

fn token_order_of(a: &[u8], b: &[u8]) -> (r: i8)
    ensures
        r as int == token_order(a@, b@),
{
    let ra = rank_of(a);
    let rb = rank_of(b);
    if ra < rb {
        -1
    } else if ra > rb {
        1
    } else if ra == 3 {
        bytes_order(a, b)
    } else {
        0
    }
}

/// Native paths in order, as `path_order` states it.
pub fn path_order_of(p: &[u8], q: &[u8]) -> (r: i8)
    ensures
        r as int == path_order(p@, q@),
{
    let a = components_of(p);
    let b = components_of(q);
    let ghost ca = components(p@);
    let ghost cb = components(q@);
    let mut i: usize = 0;
    while i < a.len() && i < b.len()
        invariant
            i <= a@.len(),
            i <= b@.len(),
            byte_views(a@) == ca,
            byte_views(b@) == cb,
            ca == components(p@),
            cb == components(q@),
            components_order_from(ca, cb, i as int) == components_order_from(ca, cb, 0),
        decreases a@.len() - i,
    {
        let t = token_order_of(a[i].as_slice(), b[i].as_slice());
        assert(ca[i as int] == a@[i as int]@);
        assert(cb[i as int] == b@[i as int]@);
        assert(byte_views(a@)[i as int] == a@[i as int]@);
        assert(byte_views(b@)[i as int] == b@[i as int]@);
        if t != 0 {
            assert(components_order_from(ca, cb, i as int) == t as int);
            return t;
        }
        i = i + 1;
    }
    if i < a.len() {
        1
    } else if i < b.len() {
        -1
    } else {
        0
    }
}


/// Ancestors are prefixes: every ancestor length lies between 0 and `n`.
pub proof fn lemma_ancestor_lens_bounded(p: Seq<u8>, n: int)
    requires
        0 <= n <= p.len(),
    ensures
        forall|k: int|
            0 <= k < ancestor_lens(p, n).len() ==> 0 <= #[trigger] ancestor_lens(p, n)[k] <= n,
        ancestor_lens(p, n).len() >= 1,
        ancestor_lens(p, n)[0] == n,
    decreases n,
{
    let q = p.subrange(0, n);
    lemma_parent_components(q);
    match parent_len(q) {
        Some(m) => {
            lemma_ancestor_lens_bounded(p, m);
            let rest = ancestor_lens(p, m);
            assert(ancestor_lens(p, n) == seq![n] + rest);
            assert forall|k: int| 0 <= k < ancestor_lens(p, n).len() implies 0
                <= #[trigger] ancestor_lens(p, n)[k] <= n by {
                if k > 0 {
                    assert(ancestor_lens(p, n)[k] == rest[k - 1]);
                }
            }
        },
        None => {},
    }
}

/// What `strip_prefix` leaves is no longer than the path.
pub proof fn lemma_strip_prefix_len(p: Seq<u8>, base: Seq<u8>)
    ensures
        strip_prefix(p, base) matches Some(r) ==> r.len() <= p.len(),
{
    let s = spans(p);
    lemma_spans_shape(p, body_start(p), p.len() as int);
    if starts_with(p, base) && components(base).len() > 0 {
        let k = components(base).len() - lead_count(p);
        if 0 <= k < s.len() {
            lemma_spans_order(p, k, s.len() - 1);
        }
    }
}


/// Lexicographic order on bytes is antisymmetric and ties only equal strings.
pub proof fn lemma_lex_order_from(a: Seq<u8>, b: Seq<u8>, i: int)
    requires
        0 <= i,
    ensures
        lex_order_from(a, b, i) == -lex_order_from(b, a, i),
        -1 <= lex_order_from(a, b, i) <= 1,
        (i <= a.len() && i <= b.len()) ==> (lex_order_from(a, b, i) == 0 <==> (a.len() == b.len()
            && forall|k: int| i <= k < a.len() ==> a[k] == b[k])),
    decreases a.len() - i,
{
    if i < a.len() && i < b.len() && a[i] == b[i] {
        lemma_lex_order_from(a, b, i + 1);
    }
}

/// Byte strings tie exactly when they are equal.
pub proof fn lemma_lex_order(a: Seq<u8>, b: Seq<u8>)
    ensures
        lex_order(a, b) == -lex_order(b, a),
        lex_order(a, b) == 0 <==> a == b,
{
    lemma_lex_order_from(a, b, 0);
    if lex_order(a, b) == 0 {
        assert(a =~= b);
    }
}

/// Reading from `i` skips a run of equal bytes up to `k`.
proof fn lemma_lex_order_from_equal_run(a: Seq<u8>, b: Seq<u8>, i: int, k: int)
    requires
        0 <= i <= k <= a.len(),
        k <= b.len(),
        forall|j: int| i <= j < k ==> a[j] == b[j],
    ensures
        lex_order_from(a, b, i) == lex_order_from(a, b, k),
    decreases k - i,
{
    if i < k {
        lemma_lex_order_from_equal_run(a, b, i + 1, k);
    }
}

/// Byte strings are ordered at their first difference: the one with the smaller byte there comes
/// first, whatever their lengths.
pub proof fn lemma_lex_order_first_difference(a: Seq<u8>, b: Seq<u8>, k: int)
    requires
        0 <= k < a.len(),
        k < b.len(),
        a[k] != b[k],
        forall|j: int| 0 <= j < k ==> a[j] == b[j],
    ensures
        lex_order(a, b) == (if a[k] < b[k] {
            -1int
        } else {
            1int
        }),
{
    lemma_lex_order_from_equal_run(a, b, 0, k);
}

/// A proper prefix comes before the byte strings it begins.
pub proof fn lemma_lex_order_proper_prefix(a: Seq<u8>, b: Seq<u8>)
    requires
        a.len() < b.len(),
        forall|j: int| 0 <= j < a.len() ==> a[j] == b[j],
    ensures
        lex_order(a, b) == -1,
        lex_order(b, a) == 1,
{
    lemma_lex_order_from_equal_run(a, b, 0, a.len() as int);
    lemma_lex_order_from(a, b, 0);
}

/// Components in order are antisymmetric and tie only equal components.
pub proof fn lemma_token_order(a: Seq<u8>, b: Seq<u8>)
    ensures
        token_order(a, b) == -token_order(b, a),
        token_order(a, b) == 0 <==> a == b,
{
    lemma_lex_order(a, b);
}

/// Component lists in order are antisymmetric and tie only equal lists.
pub proof fn lemma_components_order_from(a: Seq<Seq<u8>>, b: Seq<Seq<u8>>, i: int)
    requires
        0 <= i,
    ensures
        components_order_from(a, b, i) == -components_order_from(b, a, i),
        (i <= a.len() && i <= b.len()) ==> (components_order_from(a, b, i) == 0 <==> (a.len()
            == b.len() && forall|k: int| i <= k < a.len() ==> a[k] == b[k])),
    decreases a.len() - i,
{
    if i < a.len() && i < b.len() {
        lemma_token_order(a[i], b[i]);
        if token_order(a[i], b[i]) == 0 {
            lemma_components_order_from(a, b, i + 1);
        }
    }
}

/// Reading component lists from `i` skips a run of equal components up to `k`.
proof fn lemma_components_order_equal_run(a: Seq<Seq<u8>>, b: Seq<Seq<u8>>, i: int, k: int)
    requires
        0 <= i <= k <= a.len(),
        k <= b.len(),
        forall|j: int| i <= j < k ==> a[j] == b[j],
    ensures
        components_order_from(a, b, i) == components_order_from(a, b, k),
    decreases k - i,
{
    if i < k {
        lemma_token_order(a[i], b[i]);
        lemma_components_order_equal_run(a, b, i + 1, k);
    }
}

/// Native paths are ordered at their first differing component: by its kind (root, `.`, `..`,
/// then names), and two names by their bytes, whatever the number of components.
pub proof fn lemma_path_order_first_difference(p: Seq<u8>, q: Seq<u8>, k: int)
    requires
        0 <= k < components(p).len(),
        k < components(q).len(),
        components(p)[k] != components(q)[k],
        forall|j: int| 0 <= j < k ==> components(p)[j] == components(q)[j],
    ensures
        path_order(p, q) == token_order(components(p)[k], components(q)[k]),
        path_order(p, q) != 0,
        token_rank(components(p)[k]) < token_rank(components(q)[k]) ==> path_order(p, q) == -1,
        token_rank(components(p)[k]) == 3 && token_rank(components(q)[k]) == 3 ==> path_order(p, q)
            == lex_order(components(p)[k], components(q)[k]),
{
    lemma_components_order_equal_run(components(p), components(q), 0, k);
    lemma_token_order(components(p)[k], components(q)[k]);
}

/// A path whose components begin another's, and are fewer, comes before it.
pub proof fn lemma_path_order_proper_prefix(p: Seq<u8>, q: Seq<u8>)
    requires
        components(p).len() < components(q).len(),
        forall|j: int| 0 <= j < components(p).len() ==> components(p)[j] == components(q)[j],
    ensures
        path_order(p, q) == -1,
        path_order(q, p) == 1,
{
    lemma_components_order_equal_run(components(p), components(q), 0, components(p).len() as int);
    lemma_path_order(p, q);
}

/// Native paths in order are antisymmetric, and tie exactly when their components are equal.
pub proof fn lemma_path_order(p: Seq<u8>, q: Seq<u8>)
    ensures
        path_order(p, q) == -path_order(q, p),
        path_order(p, q) == 0 <==> components(p) == components(q),
{
    lemma_components_order_from(components(p), components(q), 0);
    if path_order(p, q) == 0 {
        assert(components(p) =~= components(q));
    }
}


/// Spans moved by `d`.
pub open spec fn shift(s: Seq<(int, int)>, d: int) -> Seq<(int, int)> {
    s.map_values(|x: (int, int)| (x.0 + d, x.1 + d))
}

/// Reading a window `p[a..e]` finds the same pieces, moved by `a`.
pub proof fn lemma_spans_window(p: Seq<u8>, a: int, e: int, lo: int, hi: int)
    requires
        0 <= a <= lo <= hi <= e <= p.len(),
    ensures
        spans_from(p.subrange(a, e), lo - a, hi - a) == shift(spans_from(p, lo, hi), -a),
        first_sep(p.subrange(a, e), lo - a, hi - a) == first_sep(p, lo, hi) - a,
    decreases hi - lo,
{
    let w = p.subrange(a, e);
    lemma_first_sep(p, lo, hi);
    let j = first_sep(p, lo, hi);
    lemma_first_sep_is(w, lo - a, hi - a, j - a);
    if lo < hi {
        if j < hi {
            lemma_spans_window(p, a, e, j + 1, hi);
        }
        assert(w.subrange(lo - a, j - a) =~= p.subrange(lo, j));
        let rest = if j < hi {
            spans_from(p, j + 1, hi)
        } else {
            Seq::empty()
        };
        if significant(p.subrange(lo, j)) {
            assert(shift(seq![(lo, j)] + rest, -a) =~= seq![(lo - a, j - a)] + shift(rest, -a));
        }
        assert(shift(Seq::<(int, int)>::empty(), -a) =~= Seq::<(int, int)>::empty());
    } else {
        assert(shift(Seq::<(int, int)>::empty(), -a) =~= Seq::<(int, int)>::empty());
    }
}

/// A separator at `m` splits the pieces of `p[lo..hi]` into those before it and those after.
pub proof fn lemma_spans_split(p: Seq<u8>, lo: int, m: int, hi: int)
    requires
        0 <= lo <= m < hi <= p.len(),
        p[m] == 47u8,
    ensures
        spans_from(p, lo, hi) == spans_from(p, lo, m) + spans_from(p, m + 1, hi),
    decreases m - lo,
{
    lemma_first_sep(p, lo, hi);
    let j = first_sep(p, lo, hi);
    assert(j <= m) by {
        if j > m {
            assert(p[m] != 47u8);
        }
    }
    lemma_first_sep_is(p, lo, m, j);
    if j < m {
        lemma_spans_split(p, j + 1, m, hi);
        if significant(p.subrange(lo, j)) {
            assert(seq![(lo, j)] + spans_from(p, j + 1, m) + spans_from(p, m + 1, hi) =~= seq![
                (lo, j),
            ] + (spans_from(p, j + 1, m) + spans_from(p, m + 1, hi)));
        }
    } else {
        if lo < m {
            if significant(p.subrange(lo, m)) {
                assert(spans_from(p, lo, m) =~= seq![(lo, m)]);
            } else {
                assert(spans_from(p, lo, m) =~= Seq::<(int, int)>::empty());
            }
        }
        assert(Seq::<(int, int)>::empty() + spans_from(p, m + 1, hi) =~= spans_from(p, m + 1, hi));
    }
}

/// Reading from the start of the `k`-th piece finds the pieces from the `k`-th on.
pub proof fn lemma_spans_skip(p: Seq<u8>, lo: int, hi: int, k: int)
    requires
        0 <= lo <= hi <= p.len(),
        0 <= k < spans_from(p, lo, hi).len(),
    ensures
        spans_from(p, spans_from(p, lo, hi)[k].0, hi) == spans_from(p, lo, hi).skip(k),
    decreases hi - lo,
{
    let s = spans_from(p, lo, hi);
    let j = first_sep(p, lo, hi);
    lemma_first_sep(p, lo, hi);
    let rest = if j < hi {
        spans_from(p, j + 1, hi)
    } else {
        Seq::empty()
    };
    if significant(p.subrange(lo, j)) {
        assert(s == seq![(lo, j)] + rest);
        if k == 0 {
            assert(s.skip(0) =~= s);
        } else {
            assert(s[k] == rest[k - 1]);
            lemma_spans_skip(p, j + 1, hi, k - 1);
            assert(s.skip(k) =~= rest.skip(k - 1));
        }
    } else {
        assert(s == rest);
        lemma_spans_skip(p, j + 1, hi, k);
    }
}


/// The tail of `p` from its `k`-th part starts with that part: no root and no leading `.`.
proof fn lemma_tail_start(p: Seq<u8>, k: int)
    requires
        0 <= k < spans(p).len(),
    ensures
        ({
            let r = p.subrange(spans(p)[k].0, spans(p).last().1);
            &&& !has_root(r)
            &&& !has_cur_dir(r)
            &&& body_start(r) == 0
        }),
{
    let s = spans(p);
    lemma_spans_shape(p, body_start(p), p.len() as int);
    let a = s[k].0;
    let e = s.last().1;
    lemma_spans_order(p, k, s.len() - 1);
    let r = p.subrange(a, e);
    assert(p.subrange(a, s[k].1) == parts(p)[k]);
    assert(significant(p.subrange(a, s[k].1)));
    assert(r[0] == p[a]);
    if p[a] == 46u8 {
        assert(s[k].1 - a >= 2) by {
            if s[k].1 - a == 1 {
                assert(p.subrange(a, s[k].1) =~= seq![46u8]);
            }
        }
        assert(r[1] == p[a + 1]);
    }
}

/// The spans of the tail of `p` from its `k`-th part are those parts' spans, moved.
proof fn lemma_tail_spans(p: Seq<u8>, k: int)
    requires
        0 <= k < spans(p).len(),
    ensures
        spans(p.subrange(spans(p)[k].0, spans(p).last().1)) == shift(
            spans(p).skip(k),
            -spans(p)[k].0,
        ),
{
    let s = spans(p);
    let bs = body_start(p);
    let n = p.len() as int;
    lemma_spans_shape(p, bs, n);
    let a = s[k].0;
    let e = s.last().1;
    lemma_spans_order(p, k, s.len() - 1);
    lemma_tail_start(p, k);
    lemma_spans_skip(p, bs, n, k);
    let t = spans_from(p, a, n);
    lemma_spans_shape(p, a, n);
    lemma_spans_take(p, a, n, t.len() - 1);
    assert(t.take(t.len() as int) =~= t);
    assert(t.last() == s.last());
    lemma_spans_window(p, a, e, a, e);
}

/// The tail of `p` from its `k`-th part to its last: relative, without a leading `.`, holding the
/// parts of `p` from the `k`-th on.
#[verifier::spinoff_prover]
proof fn lemma_tail_components(p: Seq<u8>, k: int)
    requires
        0 <= k < spans(p).len(),
    ensures
        ({
            let r = p.subrange(spans(p)[k].0, spans(p).last().1);
            &&& !has_root(r)
            &&& !has_cur_dir(r)
            &&& components(r) == parts(p).skip(k)
        }),
{
    let s = spans(p);
    let a = s[k].0;
    let e = s.last().1;
    let r = p.subrange(a, e);
    lemma_spans_shape(p, body_start(p), p.len() as int);
    lemma_spans_order(p, k, s.len() - 1);
    lemma_tail_start(p, k);
    lemma_tail_spans(p, k);
    let t = s.skip(k);
    assert forall|i: int| 0 <= i < parts(r).len() implies #[trigger] parts(r)[i] == parts(p).skip(
        k,
    )[i] by {
        assert(spans(r)[i] == (t[i].0 - a, t[i].1 - a));
        assert(t[i] == s[k + i]);
        lemma_spans_order(p, k, k + i);
        lemma_spans_order(p, k + i, s.len() - 1);
        assert(r.subrange(t[i].0 - a, t[i].1 - a) =~= p.subrange(t[i].0, t[i].1));
    }
    assert(parts(r) =~= parts(p).skip(k));
    lemma_components_split(r);
    assert(components(r) =~= parts(r));
}

/// What `strip_prefix` leaves, when `base` has components: a relative path without a leading `.`,
/// whose components are those of `p` past the components of `base`.
pub proof fn lemma_strip_prefix_components(p: Seq<u8>, base: Seq<u8>)
    ensures
        strip_prefix(p, base) matches Some(r) ==> components(base).len() > 0 ==> {
            &&& !has_root(r)
            &&& !has_cur_dir(r)
            &&& components(r) == components(p).skip(components(base).len() as int)
        },
{
    if let Some(r) = strip_prefix(p, base) {
        if components(base).len() > 0 {
            let s = spans(p);
            let lead = lead_count(p);
            let cb = components(base).len() as int;
            let k = cb - lead;
            lemma_components_split(p);
            let pre = components(p).take(lead);
            assert(components(p) =~= pre + parts(p));
            if k >= s.len() {
                assert(r =~= Seq::<u8>::empty());
                assert(spans(r) == Seq::<(int, int)>::empty());
                assert(parts(r) =~= Seq::<Seq<u8>>::empty());
                lemma_components_split(r);
                assert(components(p).skip(cb) =~= Seq::<Seq<u8>>::empty());
            } else {
                lemma_tail_components(p, k);
                assert(components(p).skip(cb) =~= parts(p).skip(k));
            }
        }
    }
}

/// A path's pieces, after a separator: the parts of `s` follow the parts of whatever comes first.
proof fn lemma_parts_after_sep(c: Seq<u8>, m: int, s: Seq<u8>)
    requires
        0 <= m < c.len(),
        c.subrange(m + 1, c.len() as int) == s,
        body_start(s) == 0,
    ensures
        pieces_of(c, spans_from(c, m + 1, c.len() as int)) == parts(s),
{
    let y = spans_from(c, m + 1, c.len() as int);
    lemma_spans_window(c, m + 1, c.len() as int, m + 1, c.len() as int);
    assert(spans(s) == shift(y, -(m + 1)));
    lemma_spans_shape(c, m + 1, c.len() as int);
    assert forall|i: int| 0 <= i < y.len() implies #[trigger] pieces_of(c, y)[i] == parts(s)[i] by {
        assert(spans(s)[i] == (y[i].0 - (m + 1), y[i].1 - (m + 1)));
        assert(c.subrange(y[i].0, y[i].1) =~= s.subrange(y[i].0 - (m + 1), y[i].1 - (m + 1)));
    }
    assert(pieces_of(c, y) =~= parts(s));
}

/// The components of `u/s` are those of `u` followed by those of `s`, when `s` is relative and has
/// no leading `.`.
pub proof fn lemma_components_concat(u: Seq<u8>, s: Seq<u8>)
    requires
        u.len() > 0,
        !has_root(s),
        !has_cur_dir(s),
    ensures
        components(u + seq![47u8] + s) == components(u) + components(s),
{
    let c = u + seq![47u8] + s;
    let m = u.len() as int;
    let n = c.len() as int;
    assert(c[m] == 47u8);
    assert(c[0] == u[0]);
    if u.len() > 1 {
        assert(c[1] == u[1]);
    }
    assert(has_root(c) == has_root(u));
    assert(has_cur_dir(c) == has_cur_dir(u));
    let bs = body_start(u);
    assert(body_start(s) == 0);
    lemma_spans_split(c, bs, m, n);
    assert(c.subrange(0, m) =~= u);
    lemma_spans_prefix_independent(c, m, bs, m);
    assert(spans_from(c, bs, m) == spans(u));
    assert(c.subrange(m + 1, n) =~= s);
    lemma_parts_after_sep(c, m, s);
    lemma_spans_shape(u, bs, m);
    let su = spans(u);
    let y = spans_from(c, m + 1, n);
    assert(spans(c) == su + y);
    assert forall|i: int| 0 <= i < parts(c).len() implies #[trigger] parts(c)[i] == (parts(u)
        + parts(s))[i] by {
        if i < su.len() {
            assert(spans(c)[i] == su[i]);
            assert(c.subrange(su[i].0, su[i].1) =~= u.subrange(su[i].0, su[i].1));
        } else {
            assert(spans(c)[i] == y[i - su.len()]);
            assert(pieces_of(c, y)[i - su.len()] == parts(s)[i - su.len()]);
        }
    }
    assert(parts(c) =~= parts(u) + parts(s));
    lemma_components_split(c);
    lemma_components_split(u);
    lemma_components_split(s);
    assert(components(c) =~= components(u) + components(s));
}

/// The components of `/s` are the root followed by those of `s`, when `s` is relative and has no
/// leading `.`.
proof fn lemma_components_rooted(s: Seq<u8>)
    requires
        !has_root(s),
        !has_cur_dir(s),
    ensures
        components(seq![47u8] + s) == seq![root_token()] + components(s),
{
    let c = seq![47u8] + s;
    assert(c[0] == 47u8);
    assert(c.subrange(1, c.len() as int) =~= s);
    lemma_parts_after_sep(c, 0, s);
    assert(parts(c) =~= parts(s));
    lemma_components_split(c);
    lemma_components_split(s);
    assert(components(c) =~= seq![root_token()] + components(s));
}

/// Joining a relative path without a leading `.` appends its components.
pub proof fn lemma_join_components(t: Seq<u8>, s: Seq<u8>)
    requires
        !has_root(s),
        !has_cur_dir(s),
    ensures
        components(join(t, s)) == components(t) + components(s),
{
    if t.len() == 0 {
        assert(join(t, s) =~= s);
        assert(spans(t) == Seq::<(int, int)>::empty());
        assert(parts(t) =~= Seq::<Seq<u8>>::empty());
        lemma_components_split(t);
        assert(components(t) =~= Seq::<Seq<u8>>::empty());
        assert(components(t) + components(s) =~= components(s));
    } else if t.last() != 47u8 {
        lemma_components_concat(t, s);
    } else {
        let u = t.drop_last();
        let empty = Seq::<u8>::empty();
        assert(!has_root(empty) && !has_cur_dir(empty));
        assert(spans(empty) == Seq::<(int, int)>::empty());
        assert(parts(empty) =~= Seq::<Seq<u8>>::empty());
        lemma_components_split(empty);
        assert(components(empty) =~= Seq::<Seq<u8>>::empty());
        if u.len() == 0 {
            assert(t =~= seq![47u8]);
            assert(join(t, s) =~= seq![47u8] + s);
            lemma_components_rooted(s);
            lemma_components_rooted(empty);
            assert(seq![47u8] + empty =~= t);
        } else {
            lemma_components_concat(u, empty);
            assert(u + seq![47u8] + empty =~= t);
            lemma_components_concat(u, s);
            assert(u + seq![47u8] + s =~= join(t, s));
        }
    }
}

/// Moving `p` from under `from` to under `to` keeps the part of `p` below `from`: the result's
/// components are those of `to` followed by those of `p` past `from`'s, so it lies within `to`.
pub proof fn lemma_rebase_components(p: Seq<u8>, from: Seq<u8>, to: Seq<u8>)
    requires
        components(from).len() > 0,
        strip_prefix(p, from) is Some,
    ensures
        components(join(to, strip_prefix(p, from).unwrap())) == components(to) + components(p).skip(
            components(from).len() as int,
        ),
        starts_with(join(to, strip_prefix(p, from).unwrap()), to),
{
    let r = strip_prefix(p, from).unwrap();
    lemma_strip_prefix_components(p, from);
    lemma_join_components(to, r);
    let j = join(to, r);
    assert(components(j).take(components(to).len() as int) =~= components(to));
}

} // verus!
