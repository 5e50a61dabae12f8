//! Filesystem paths as sequences of name segments, with a total order.
//!
//! A path is held as its components, so `/repos/a` is the two segments
//! `repos` and `a`. Paths are ordered segment by segment, and segments
//! character by character on code points; this is the order the working
//! set is sorted in.

use vstd::prelude::*;

verus! {

/// A filesystem path, split into its name segments.
#[derive(Debug, Clone)]
pub struct RepoPath {
    pub segments: Vec<String>,
}

impl View for RepoPath {
    type V = Seq<Seq<char>>;

    open spec fn view(&self) -> Seq<Seq<char>> {
        self.segments.deep_view()
    }
}

impl DeepView for RepoPath {
    type V = Seq<Seq<char>>;

    open spec fn deep_view(&self) -> Seq<Seq<char>> {
        self.view()
    }
}

/// One name segment comes before another: code-point lexicographic order.
pub open spec fn seg_lt(a: Seq<char>, b: Seq<char>) -> bool
    decreases a.len(),
{
    if b.len() == 0 {
        false
    } else if a.len() == 0 {
        true
    } else if a[0] == b[0] {
        seg_lt(a.drop_first(), b.drop_first())
    } else {
        (a[0] as u32) < (b[0] as u32)
    }
}

/// One path comes before another: lexicographic over segments.
pub open spec fn path_lt(a: Seq<Seq<char>>, b: Seq<Seq<char>>) -> bool
    decreases a.len(),
{
    if b.len() == 0 {
        false
    } else if a.len() == 0 {
        true
    } else if a[0] == b[0] {
        path_lt(a.drop_first(), b.drop_first())
    } else {
        seg_lt(a[0], b[0])
    }
}

/// `a` names a directory strictly above `b`.
pub open spec fn strict_prefix_of(a: Seq<Seq<char>>, b: Seq<Seq<char>>) -> bool {
    a.len() < b.len() && b.take(a.len() as int) == a
}

proof fn lemma_char_code_distinct(c1: char, c2: char)
    requires
        c1 != c2,
    ensures
        (c1 as u32) != (c2 as u32),
{
}

proof fn lemma_seq_head_tail_eq<T>(a: Seq<T>, b: Seq<T>)
    requires
        a.len() > 0,
        b.len() > 0,
        a[0] == b[0],
        a.drop_first() == b.drop_first(),
    ensures
        a == b,
{
    assert(a.drop_first().len() == a.len() - 1);
    assert(b.drop_first().len() == b.len() - 1);
    assert(a.len() == b.len());
    assert forall|i: int| 0 <= i < a.len() implies a[i] == b[i] by {
        if i > 0 {
            assert(a.drop_first()[i - 1] == a[i]);
            assert(b.drop_first()[i - 1] == b[i]);
        }
    }
    assert(a =~= b);
}

proof fn lemma_seg_lt_connected(a: Seq<char>, b: Seq<char>)
    requires
        a != b,
    ensures
        seg_lt(a, b) || seg_lt(b, a),
    decreases a.len() + b.len(),
{
    if a.len() == 0 || b.len() == 0 {
        if a.len() == 0 && b.len() == 0 {
            assert(a =~= b);
        }
    } else if a[0] == b[0] {
        if a.drop_first() == b.drop_first() {
            lemma_seq_head_tail_eq(a, b);
        } else {
            lemma_seg_lt_connected(a.drop_first(), b.drop_first());
        }
    } else {
        lemma_char_code_distinct(a[0], b[0]);
    }
}

proof fn lemma_seg_lt_asymmetric(a: Seq<char>, b: Seq<char>)
    requires
        seg_lt(a, b),
    ensures
        !seg_lt(b, a),
    decreases a.len() + b.len(),
{
    if a.len() == 0 || b.len() == 0 {
    } else if a[0] == b[0] {
        lemma_seg_lt_asymmetric(a.drop_first(), b.drop_first());
    }
}

proof fn lemma_seg_lt_transitive(a: Seq<char>, b: Seq<char>, c: Seq<char>)
    requires
        seg_lt(a, b),
        seg_lt(b, c),
    ensures
        seg_lt(a, c),
    decreases a.len() + b.len() + c.len(),
{
    if b.len() == 0 || c.len() == 0 {
    } else if a.len() == 0 {
    } else {
        if a[0] == b[0] && b[0] == c[0] {
            lemma_seg_lt_transitive(a.drop_first(), b.drop_first(), c.drop_first());
        }
    }
}

pub proof fn lemma_path_lt_connected(a: Seq<Seq<char>>, b: Seq<Seq<char>>)
    requires
        a != b,
    ensures
        path_lt(a, b) || path_lt(b, a),
    decreases a.len() + b.len(),
{
    if a.len() == 0 || b.len() == 0 {
        if a.len() == 0 && b.len() == 0 {
            assert(a =~= b);
        }
    } else if a[0] == b[0] {
        if a.drop_first() == b.drop_first() {
            lemma_seq_head_tail_eq(a, b);
        } else {
            lemma_path_lt_connected(a.drop_first(), b.drop_first());
        }
    } else {
        lemma_seg_lt_connected(a[0], b[0]);
    }
}

pub proof fn lemma_path_lt_asymmetric(a: Seq<Seq<char>>, b: Seq<Seq<char>>)
    requires
        path_lt(a, b),
    ensures
        !path_lt(b, a),
    decreases a.len() + b.len(),
{
    if a.len() == 0 || b.len() == 0 {
    } else if a[0] == b[0] {
        lemma_path_lt_asymmetric(a.drop_first(), b.drop_first());
    } else {
        lemma_seg_lt_asymmetric(a[0], b[0]);
    }
}

pub proof fn lemma_path_lt_transitive(a: Seq<Seq<char>>, b: Seq<Seq<char>>, c: Seq<Seq<char>>)
    requires
        path_lt(a, b),
        path_lt(b, c),
    ensures
        path_lt(a, c),
    decreases a.len() + b.len() + c.len(),
{
    if b.len() == 0 || c.len() == 0 {
    } else if a.len() == 0 {
    } else {
        if a[0] == b[0] && b[0] == c[0] {
            lemma_path_lt_transitive(a.drop_first(), b.drop_first(), c.drop_first());
        } else if a[0] == b[0] {
            lemma_seg_lt_asymmetric(b[0], c[0]);
        } else if b[0] == c[0] {
        } else {
            lemma_seg_lt_transitive(a[0], b[0], c[0]);
            lemma_seg_lt_asymmetric(a[0], c[0]);
        }
    }
}

impl RepoPath {
    /// An empty path: the scan root itself, relative to that root.
    pub fn empty() -> (r: RepoPath)
        ensures
            r@ == Seq::<Seq<char>>::empty(),
    {
        let r = RepoPath { segments: Vec::new() };
        proof {
            assert(r@ =~= Seq::<Seq<char>>::empty());
        }
        r
    }

    /// A structural copy whose view is the same path.
    pub fn duplicate(&self) -> (r: RepoPath)
        ensures
            r@ == self@,
    {
        let mut segments: Vec<String> = Vec::new();
        let mut i: usize = 0;
        while i < self.segments.len()
            invariant
                i <= self.segments.len(),
                segments@.len() == i as int,
                forall|j: int| 0 <= j < i ==> (#[trigger] segments@[j])@ == self@[j],
            decreases self.segments.len() - i,
        {
            segments.push(self.segments[i].clone());
            i = i + 1;
        }
        let r = RepoPath { segments };
        proof {
            assert(r@ =~= self@);
        }
        r
    }

    /// Whether two paths are the same sequence of segments.
    pub fn same_as(&self, other: &RepoPath) -> (r: bool)
        ensures
            r == (self@ == other@),
    {
        if self.segments.len() != other.segments.len() {
            proof {
                assert(self@.len() == self.segments.len());
                assert(other@.len() == other.segments.len());
            }
            return false;
        }
        let mut i: usize = 0;
        while i < self.segments.len()
            invariant
                i <= self.segments.len(),
                self.segments.len() == other.segments.len(),
                forall|j: int| 0 <= j < i ==> self@[j] == other@[j],
            decreases self.segments.len() - i,
        {
            if !(self.segments[i] == other.segments[i]) {
                proof {
                    assert(self@[i as int] != other@[i as int]);
                }
                return false;
            }
            i = i + 1;
        }
        proof {
            assert(self@ =~= other@);
        }
        true
    }

    /// Whether this path comes strictly before `other` in path order.
    pub fn before(&self, other: &RepoPath) -> (r: bool)
        ensures
            r == path_lt(self@, other@),
    {
        let n = if self.segments.len() < other.segments.len() {
            self.segments.len()
        } else {
            other.segments.len()
        };
        let mut i: usize = 0;
        proof {
            assert(self@.skip(0) =~= self@);
            assert(other@.skip(0) =~= other@);
        }
        while i < n
            invariant
                i <= n,
                n == if self@.len() < other@.len() {
                    self@.len()
                } else {
                    other@.len()
                },
                forall|j: int| 0 <= j < i ==> self@[j] == other@[j],
                path_lt(self@, other@) == path_lt(self@.skip(i as int), other@.skip(i as int)),
            decreases n - i,
        {
            if !(self.segments[i] == other.segments[i]) {
                let r = str_before(self.segments[i].as_str(), other.segments[i].as_str());
                proof {
                    let sa = self@.skip(i as int);
                    let sb = other@.skip(i as int);
                    assert(sa[0] == self@[i as int]);
                    assert(sb[0] == other@[i as int]);
                    assert(path_lt(sa, sb) == seg_lt(self@[i as int], other@[i as int]));
                }
                return r;
            }
            proof {
                let sa = self@.skip(i as int);
                let sb = other@.skip(i as int);
                assert(sa[0] == self@[i as int]);
                assert(sb[0] == other@[i as int]);
                assert(sa.drop_first() =~= self@.skip(i as int + 1));
                assert(sb.drop_first() =~= other@.skip(i as int + 1));
            }
            i = i + 1;
        }
        proof {
            let sa = self@.skip(i as int);
            let sb = other@.skip(i as int);
            if self@.len() < other@.len() {
                assert(sa.len() == 0 && sb.len() > 0);
            } else if self@.len() > other@.len() {
                assert(sb.len() == 0);
            } else {
                assert(sa.len() == 0 && sb.len() == 0);
            }
        }
        self.segments.len() < other.segments.len()
    }

    /// The path below `self` named by appending the segments of `rel`.
    pub fn join(&self, rel: &RepoPath) -> (r: RepoPath)
        ensures
            r@ == self@ + rel@,
    {
        let mut out = self.duplicate();
        let mut i: usize = 0;
        while i < rel.segments.len()
            invariant
                i <= rel.segments.len(),
                out@.len() == self@.len() + i as int,
                forall|j: int| 0 <= j < self@.len() ==> #[trigger] out@[j] == self@[j],
                forall|j: int| 0 <= j < i ==> #[trigger] out@[self@.len() + j] == rel@[j],
            decreases rel.segments.len() - i,
        {
            let ghost prev = out@;
            out.segments.push(rel.segments[i].clone());
            proof {
                assert forall|j: int| 0 <= j < prev.len() implies #[trigger] out@[j] == prev[j] by {
                    assert(out.segments@[j] == out.segments@.drop_last()[j]);
                }
            }
            i = i + 1;
        }
        proof {
            assert forall|k: int| 0 <= k < out@.len() implies #[trigger] out@[k] == (self@
                + rel@)[k] by {
                if k >= self@.len() {
                    assert(out@[self@.len() + (k - self@.len())] == rel@[k - self@.len()]);
                }
            }
            assert(out@ =~= self@ + rel@);
        }
        out
    }
}

/// A sequence of paths in strictly increasing order: sorted, and free of
/// duplicates.
pub open spec fn sorted_strict(s: Seq<Seq<Seq<char>>>) -> bool {
    forall|i: int, j: int| 0 <= i < j < s.len() ==> path_lt(s[i], s[j])
}

/// Two strictly sorted path sequences with the same members are the same
/// sequence. A working set is therefore determined by its member set alone:
/// resolving twice over the same registry and the same snapshots yields the
/// identical ordering.
pub proof fn lemma_sorted_same_members_equal(s1: Seq<Seq<Seq<char>>>, s2: Seq<Seq<Seq<char>>>)
    requires
        sorted_strict(s1),
        sorted_strict(s2),
        forall|p: Seq<Seq<char>>| s1.contains(p) <==> s2.contains(p),
    ensures
        s1 == s2,
    decreases s1.len(),
{
    if s1.len() == 0 {
        if s2.len() > 0 {
            assert(s2.contains(s2[0]));
        }
        assert(s1 =~= s2);
    } else if s2.len() == 0 {
        assert(s1.contains(s1[0]));
    } else {
        assert(s1.contains(s1[0]));
        assert(s2.contains(s2[0]));
        let k = choose|k: int| 0 <= k < s2.len() && s2[k] == s1[0];
        let m = choose|m: int| 0 <= m < s1.len() && s1[m] == s2[0];
        if k > 0 && m > 0 {
            assert(path_lt(s2[0], s2[k]));
            assert(path_lt(s1[0], s1[m]));
            lemma_path_lt_asymmetric(s2[0], s1[0]);
        }
        assert(s1[0] == s2[0]);
        let t1 = s1.drop_first();
        let t2 = s2.drop_first();
        assert forall|p: Seq<Seq<char>>| t1.contains(p) implies t2.contains(p) by {
            let i = choose|i: int| 0 <= i < t1.len() && t1[i] == p;
            assert(s1[i + 1] == p);
            assert(s1.contains(p));
            assert(path_lt(s1[0], p));
            lemma_path_lt_asymmetric(s1[0], p);
            let j = choose|j: int| 0 <= j < s2.len() && s2[j] == p;
            assert(j > 0);
            assert(t2[j - 1] == p);
        }
        assert forall|p: Seq<Seq<char>>| t2.contains(p) implies t1.contains(p) by {
            let i = choose|i: int| 0 <= i < t2.len() && t2[i] == p;
            assert(s2[i + 1] == p);
            assert(s2.contains(p));
            assert(path_lt(s2[0], p));
            lemma_path_lt_asymmetric(s2[0], p);
            let j = choose|j: int| 0 <= j < s1.len() && s1[j] == p;
            assert(j > 0);
            assert(t1[j - 1] == p);
        }
        assert forall|i: int, j: int| 0 <= i < j < t1.len() implies path_lt(t1[i], t1[j]) by {
            assert(s1[i + 1] == t1[i]);
            assert(s1[j + 1] == t1[j]);
        }
        assert forall|i: int, j: int| 0 <= i < j < t2.len() implies path_lt(t2[i], t2[j]) by {
            assert(s2[i + 1] == t2[i]);
            assert(s2[j + 1] == t2[j]);
        }
        lemma_sorted_same_members_equal(t1, t2);
        lemma_seq_head_tail_eq(s1, s2);
    }
}

/// After one element is pushed onto a vector, its deep view is the old deep
/// view with the new element's view pushed.
pub proof fn lemma_deep_view_after_push<T: DeepView>(prev: Seq<T>, cur: Seq<T>)
    requires
        cur.len() == prev.len() + 1,
        forall|i: int| 0 <= i < prev.len() ==> cur[i] == prev[i],
    ensures
        Seq::new(cur.len(), |i: int| cur[i].deep_view()) == Seq::new(
            prev.len(),
            |i: int| prev[i].deep_view(),
        ).push(cur.last().deep_view()),
{
    let ndv = Seq::new(cur.len(), |i: int| cur[i].deep_view());
    let pdv = Seq::new(prev.len(), |i: int| prev[i].deep_view());
    assert forall|i: int| 0 <= i < ndv.len() implies #[trigger] ndv[i] == pdv.push(
        cur.last().deep_view(),
    )[i] by {
        if i < prev.len() {
            assert(ndv[i] == prev[i].deep_view());
        }
    }
    assert(ndv =~= pdv.push(cur.last().deep_view()));
}

/// Put `x` into a strictly sorted vector at its place, unless an equal path
/// is already there.
pub fn insert_sorted_unique(out: &mut Vec<RepoPath>, x: RepoPath)
    requires
        sorted_strict(old(out).deep_view()),
    ensures
        sorted_strict(final(out).deep_view()),
        forall|p: Seq<Seq<char>>|
            #[trigger] final(out).deep_view().contains(p) <==> (old(out).deep_view().contains(p)
                || p == x@),
{
    let ghost odv = out.deep_view();
    let mut j: usize = 0;
    while j < out.len() && out[j].before(&x)
        invariant
            j <= out.len(),
            out.deep_view() == odv,
            sorted_strict(odv),
            odv.len() == out.len(),
            forall|k: int| 0 <= k < j ==> path_lt(#[trigger] odv[k], x@),
        decreases out.len() - j,
    {
        proof {
            assert(odv[j as int] == out.deep_view()[j as int]);
        }
        j = j + 1;
    }
    if j < out.len() {
        if out[j].same_as(&x) {
            proof {
                assert(out.deep_view()[j as int] == x@);
                assert(out.deep_view().contains(x@));
            }
            return ;
        }
    }
    proof {
        if j < odv.len() {
            assert(!path_lt(odv[j as int], x@));
            assert(odv[j as int] != x@);
            lemma_path_lt_connected(odv[j as int], x@);
            assert(path_lt(x@, odv[j as int]));
            assert forall|k: int| j <= k < odv.len() implies path_lt(x@, #[trigger] odv[k]) by {
                if k > j {
                    lemma_path_lt_transitive(x@, odv[j as int], odv[k]);
                }
            }
        }
    }
    let ghost ovec = out@;
    out.insert(j, x);
    proof {
        assert(out@ == ovec.insert(j as int, x));
        ovec.insert_ensures(j as int, x);
        odv.insert_ensures(j as int, x@);
        assert forall|k: int| 0 <= k < out.deep_view().len() implies #[trigger] out.deep_view()[k]
            == odv.insert(j as int, x@)[k] by {
            if k < j {
                assert(out@[k] == ovec[k]);
            } else if k == j {
                assert(out@[k] == x);
            } else {
                assert(out@[k] == ovec[k - 1]);
                assert(odv.insert(j as int, x@)[(k - 1) + 1] == odv[k - 1]);
            }
        }
        assert(out.deep_view() =~= odv.insert(j as int, x@));
        let ndv = out.deep_view();
        assert forall|u: int, v: int| 0 <= u < v < ndv.len() implies path_lt(ndv[u], ndv[v]) by {
            odv.insert_ensures(j as int, x@);
            if v < j {
            } else if u == j {
                assert(odv.insert(j as int, x@)[(v - 1) + 1] == odv[v - 1]);
                assert(path_lt(x@, odv[v - 1]));
            } else if v == j {
                assert(path_lt(odv[u], x@));
            } else if u < j && v > j {
                assert(odv.insert(j as int, x@)[(v - 1) + 1] == odv[v - 1]);
                if u == v - 1 {
                    assert(path_lt(odv[u], x@));
                    lemma_path_lt_transitive(odv[u], x@, odv[v - 1]);
                } else {
                    assert(path_lt(odv[u], odv[v - 1]));
                }
            } else {
                assert(odv.insert(j as int, x@)[(u - 1) + 1] == odv[u - 1]);
                assert(odv.insert(j as int, x@)[(v - 1) + 1] == odv[v - 1]);
                assert(path_lt(odv[u - 1], odv[v - 1]));
            }
        }
        assert forall|p: Seq<Seq<char>>| #[trigger] ndv.contains(p) implies (odv.contains(p) || p
            == x@) by {
            let i = choose|i: int| 0 <= i < ndv.len() && ndv[i] == p;
            if i < j {
                assert(odv[i] == p);
            } else if i > j {
                assert(odv.insert(j as int, x@)[(i - 1) + 1] == odv[i - 1]);
                assert(odv[i - 1] == p);
            }
        }
        assert forall|p: Seq<Seq<char>>| (odv.contains(p) || p == x@) implies #[trigger] ndv.contains(
            p,
        ) by {
            if p == x@ {
                assert(ndv[j as int] == p);
            } else {
                let i = choose|i: int| 0 <= i < odv.len() && odv[i] == p;
                if i < j {
                    assert(ndv[i] == p);
                } else {
                    assert(odv.insert(j as int, x@)[i + 1] == odv[i]);
                    assert(ndv[i + 1] == p);
                }
            }
        }
    }
}

/// A strictly sorted copy of `input` with duplicate paths dropped: same
/// members, canonical order.
pub fn sort_dedup(input: &Vec<RepoPath>) -> (r: Vec<RepoPath>)
    ensures
        sorted_strict(r.deep_view()),
        forall|p: Seq<Seq<char>>|
            #[trigger] r.deep_view().contains(p) <==> input.deep_view().contains(p),
{
    let mut out: Vec<RepoPath> = Vec::new();
    let mut i: usize = 0;
    proof {
        assert(input.deep_view().take(0) =~= Seq::<Seq<Seq<char>>>::empty());
    }
    while i < input.len()
        invariant
            i <= input.len(),
            input.deep_view().len() == input.len(),
            sorted_strict(out.deep_view()),
            forall|p: Seq<Seq<char>>|
                #[trigger] out.deep_view().contains(p) <==> input.deep_view().take(
                    i as int,
                ).contains(p),
        decreases input.len() - i,
    {
        let ghost dv = input.deep_view();
        insert_sorted_unique(&mut out, input[i].duplicate());
        proof {
            broadcast use vstd::seq_lib::lemma_seq_contains_after_push;

            assert(dv.take(i as int + 1) =~= dv.take(i as int).push(dv[i as int]));
        }
        i = i + 1;
    }
    proof {
        assert(input.deep_view().take(input.len() as int) =~= input.deep_view());
    }
    out
}

/// Whether string `a` comes strictly before `b` in segment order.
pub fn str_before(a: &str, b: &str) -> (r: bool)
    ensures
        r == seg_lt(a@, b@),
{
    let alen = a.unicode_len();
    let blen = b.unicode_len();
    let n = if alen < blen {
        alen
    } else {
        blen
    };
    let mut i: usize = 0;
    proof {
        assert(a@.skip(0) =~= a@);
        assert(b@.skip(0) =~= b@);
    }
    while i < n
        invariant
            i <= n,
            alen == a@.len(),
            blen == b@.len(),
            n == if alen < blen {
                alen
            } else {
                blen
            },
            forall|j: int| 0 <= j < i ==> a@[j] == b@[j],
            seg_lt(a@, b@) == seg_lt(a@.skip(i as int), b@.skip(i as int)),
        decreases n - i,
    {
        let ca = a.get_char(i);
        let cb = b.get_char(i);
        proof {
            let sa = a@.skip(i as int);
            let sb = b@.skip(i as int);
            assert(sa[0] == a@[i as int]);
            assert(sb[0] == b@[i as int]);
            assert(sa.drop_first() =~= a@.skip(i as int + 1));
            assert(sb.drop_first() =~= b@.skip(i as int + 1));
        }
        if ca != cb {
            return (ca as u32) < (cb as u32);
        }
        i = i + 1;
    }
    proof {
        let sa = a@.skip(i as int);
        let sb = b@.skip(i as int);
        if a@.len() < b@.len() {
            assert(sa.len() == 0 && sb.len() > 0);
        } else if a@.len() > b@.len() {
            assert(sb.len() == 0);
        } else {
            assert(sa.len() == 0 && sb.len() == 0);
        }
    }
    alen < blen
}

} // verus!
