//! A resolution: package name to chosen version, kept sorted by name so that
//! it is written out in a fixed order.

use vstd::prelude::*;

use crate::assoc::{assoc_get, lemma_assoc_find_char, lemma_assoc_find_none};
use crate::text::chars_of;
use crate::version::Version;

verus! {

/// `a` comes strictly before `b`, comparing characters by code point and a
/// proper prefix first (the order of `str`'s `Ord`).
pub open spec fn str_lt(a: Seq<char>, b: Seq<char>) -> bool
    decreases a.len(),
{
    if a.len() == 0 {
        b.len() > 0
    } else if b.len() == 0 {
        false
    } else if a[0] < b[0] {
        true
    } else if a[0] > b[0] {
        false
    } else {
        str_lt(a.drop_first(), b.drop_first())
    }
}

pub proof fn lemma_str_lt_irreflexive(a: Seq<char>)
    ensures
        !str_lt(a, a),
    decreases a.len(),
{
    if a.len() > 0 {
        lemma_str_lt_irreflexive(a.drop_first());
    }
}

pub proof fn lemma_str_lt_asymmetric(a: Seq<char>, b: Seq<char>)
    ensures
        str_lt(a, b) ==> !str_lt(b, a),
    decreases a.len(),
{
    if a.len() > 0 && b.len() > 0 {
        lemma_str_lt_asymmetric(a.drop_first(), b.drop_first());
    }
}

pub proof fn lemma_str_lt_transitive(a: Seq<char>, b: Seq<char>, c: Seq<char>)
    ensures
        str_lt(a, b) && str_lt(b, c) ==> str_lt(a, c),
    decreases a.len(),
{
    if a.len() > 0 && b.len() > 0 && c.len() > 0 {
        lemma_str_lt_transitive(a.drop_first(), b.drop_first(), c.drop_first());
    }
}

pub proof fn lemma_str_lt_total(a: Seq<char>, b: Seq<char>)
    ensures
        a != b ==> str_lt(a, b) || str_lt(b, a),
    decreases a.len(),
{
    if a.len() > 0 && b.len() > 0 {
        lemma_str_lt_total(a.drop_first(), b.drop_first());
        if a[0] == b[0] && a.drop_first() == b.drop_first() {
            assert(a =~= seq![a[0]] + a.drop_first());
            assert(b =~= seq![b[0]] + b.drop_first());
        }
    } else if a.len() == 0 && b.len() == 0 {
        assert(a =~= b);
    }
}

/// [`str_lt`] on two strings.
pub fn str_less(a: &str, b: &str) -> (r: bool)
    ensures
        r == str_lt(a@, b@),
{
    let x = chars_of(a);
    let y = chars_of(b);
    let mut i: usize = 0;
    assert(x@.skip(0) =~= x@);
    assert(y@.skip(0) =~= y@);
    while i < x.len() && i < y.len() && x[i] == y[i]
        invariant
            i <= x@.len(),
            i <= y@.len(),
            str_lt(x@, y@) == str_lt(x@.skip(i as int), y@.skip(i as int)),
        decreases x@.len() - i,
    {
        assert(x@.skip(i as int).drop_first() =~= x@.skip(i + 1));
        assert(y@.skip(i as int).drop_first() =~= y@.skip(i + 1));
        i = i + 1;
    }
    if i == x.len() {
        i < y.len()
    } else if i == y.len() {
        false
    } else {
        x[i] < y[i]
    }
}

/// A resolution as plain values: names with version components.
pub type ResolutionView = Seq<(Seq<char>, Seq<u64>)>;

/// The names strictly increase.
pub open spec fn sorted_names(s: ResolutionView) -> bool {
    forall|i: int, j: int| 0 <= i < j < s.len() ==> str_lt(#[trigger] s[i].0, #[trigger] s[j].0)
}

/// `s` with `k` mapped to `v`, the order by name kept: an entry of `k` is
/// replaced, otherwise a new entry goes before the first larger name.
pub open spec fn sorted_insert(s: ResolutionView, k: Seq<char>, v: Seq<u64>) -> ResolutionView
    decreases s.len(),
{
    if s.len() == 0 {
        seq![(k, v)]
    } else if s[0].0 == k {
        s.update(0, (k, v))
    } else if str_lt(k, s[0].0) {
        seq![(k, v)] + s
    } else {
        seq![s[0]] + sorted_insert(s.drop_first(), k, v)
    }
}

pub proof fn lemma_sorted_insert_at(s: ResolutionView, k: Seq<char>, v: Seq<u64>, i: int)
    requires
        sorted_names(s),
        0 <= i <= s.len(),
        forall|j: int| 0 <= j < i ==> str_lt(#[trigger] s[j].0, k),
        i < s.len() ==> !str_lt(s[i].0, k),
    ensures
        sorted_insert(s, k, v) == (if i < s.len() && s[i].0 == k {
            s.update(i, (k, v))
        } else {
            s.insert(i, (k, v))
        }),
    decreases i,
{
    if i == 0 {
        if s.len() > 0 && s[0].0 != k {
            lemma_str_lt_total(s[0].0, k);
        }
        if s.len() == 0 {
            assert(s.insert(0, (k, v)) =~= seq![(k, v)]);
        } else if s[0].0 != k {
            assert(s.insert(0, (k, v)) =~= seq![(k, v)] + s);
        }
    } else {
        let t = s.drop_first();
        assert(sorted_names(t)) by {
            assert forall|a: int, b: int| 0 <= a < b < t.len() implies str_lt(
                #[trigger] t[a].0,
                #[trigger] t[b].0,
            ) by {
                assert(t[a] == s[a + 1] && t[b] == s[b + 1]);
            }
        }
        assert forall|j: int| 0 <= j < i - 1 implies str_lt(#[trigger] t[j].0, k) by {
            assert(t[j] == s[j + 1]);
        }
        lemma_sorted_insert_at(t, k, v, i - 1);
        assert(str_lt(s[0].0, k));
        lemma_str_lt_irreflexive(k);
        lemma_str_lt_asymmetric(s[0].0, k);
        if i < s.len() && s[i].0 == k {
            assert(seq![s[0]] + t.update(i - 1, (k, v)) =~= s.update(i, (k, v)));
        } else {
            assert(seq![s[0]] + t.insert(i - 1, (k, v)) =~= s.insert(i, (k, v)));
        }
    }
}

/// Package names with their chosen versions, sorted by name.
#[derive(Debug, PartialEq)]
pub struct Resolution {
    entries: Vec<(String, Version)>,
}

pub open spec fn entry_views(s: Seq<(String, Version)>) -> ResolutionView {
    s.map_values(|e: (String, Version)| (e.0@, e.1@))
}

impl View for Resolution {
    type V = ResolutionView;

    closed spec fn view(&self) -> ResolutionView {
        entry_views(self.entries@)
    }
}

impl Resolution {
    /// The entries are sorted by name.
    #[verifier::type_invariant]
    pub open spec fn wf(&self) -> bool {
        sorted_names(self@)
    }

    /// The empty resolution.
    pub fn new() -> (r: Resolution)
        ensures
            r@ == Seq::<(Seq<char>, Seq<u64>)>::empty(),
            r.wf(),
    {
        let r = Resolution { entries: Vec::new() };
        assert(r@ =~= Seq::<(Seq<char>, Seq<u64>)>::empty());
        r
    }

    /// The entries, sorted by name.
    pub fn entries(&self) -> (r: &Vec<(String, Version)>)
        ensures
            entry_views(r@) == self@,
    {
        &self.entries
    }

    /// The number of packages.
    pub fn len(&self) -> (r: usize)
        ensures
            r == self@.len(),
    {
        self.entries.len()
    }

    /// Whether no package is resolved.
    pub fn is_empty(&self) -> (r: bool)
        ensures
            r == (self@.len() == 0),
    {
        self.entries.len() == 0
    }

    /// The version chosen for `name`.
    pub fn get(&self, name: &str) -> (r: Option<&Version>)
        ensures
            match r {
                Some(v) => assoc_get(self@, name@) == Some(v@),
                None => assoc_get(self@, name@) is None,
            },
    {
        let k = name.to_owned();
        let n = self.entries.len();
        let ghost s = self@;
        let mut i: usize = 0;
        while i < n
            invariant
                n == self.entries@.len(),
                s == self@,
                i <= n,
                k@ == name@,
                forall|j: int| 0 <= j < i ==> s[j].0 != name@,
            decreases n - i,
        {
            if self.entries[i].0 == k {
                proof {
                    lemma_assoc_find_char(s, name@, i as int);
                }
                return Some(&self.entries[i].1);
            }
            i = i + 1;
        }
        proof {
            lemma_assoc_find_none(s, name@);
        }
        None
    }

    /// Whether `name` has a version.
    pub fn contains_key(&self, name: &str) -> (r: bool)
        ensures
            r == (assoc_get(self@, name@) is Some),
    {
        self.get(name).is_some()
    }

    /// Records `version` for `name`, replacing an earlier choice.
    pub fn insert(&mut self, name: String, version: Version)
        ensures
            final(self)@ == sorted_insert(old(self)@, name@, version@),
    {
        proof {
            use_type_invariant(&*self);
        }
        let ghost s = self@;
        let ghost k = name@;
        let ghost vv = version@;
        let mut entries: Vec<(String, Version)> = Vec::new();
        std::mem::swap(&mut entries, &mut self.entries);
        assert(entry_views(entries@) == s);
        let n = entries.len();
        let mut i: usize = 0;
        while i < n && str_less(entries[i].0.as_str(), name.as_str())
            invariant
                n == entries@.len(),
                s == entry_views(entries@),
                sorted_names(s),
                k == name@,
                i <= n,
                forall|j: int| 0 <= j < i ==> str_lt(#[trigger] s[j].0, k),
            decreases n - i,
        {
            i = i + 1;
        }
        proof {
            lemma_sorted_insert_at(s, k, vv, i as int);
            lemma_sorted_insert_sorted(s, k, vv, i as int);
        }
        if i < n && entries[i].0 == name {
            entries.set(i, (name, version));
            assert(entry_views(entries@) =~= s.update(i as int, (k, vv)));
        } else {
            entries.insert(i, (name, version));
            assert(entry_views(entries@) =~= s.insert(i as int, (k, vv)));
        }
        self.entries = entries;
    }
}

/// `m` with every entry of `r` recorded in order, later entries replacing
/// earlier ones (`BTreeMap::extend`).
pub open spec fn merge(m: ResolutionView, r: ResolutionView) -> ResolutionView
    decreases r.len(),
{
    if r.len() == 0 {
        m
    } else {
        sorted_insert(merge(m, r.drop_last()), r.last().0, r.last().1)
    }
}

/// Merging a sorted resolution into an empty one gives it back.
pub proof fn lemma_merge_into_empty(r: ResolutionView)
    requires
        sorted_names(r),
    ensures
        merge(seq![], r) == r,
    decreases r.len(),
{
    if r.len() > 0 {
        let d = r.drop_last();
        assert(sorted_names(d)) by {
            assert forall|a: int, b: int| 0 <= a < b < d.len() implies str_lt(
                #[trigger] d[a].0,
                #[trigger] d[b].0,
            ) by {
                assert(d[a] == r[a] && d[b] == r[b]);
            }
        }
        lemma_merge_into_empty(d);
        assert forall|j: int| 0 <= j < d.len() implies str_lt(#[trigger] d[j].0, r.last().0) by {
            assert(d[j] == r[j]);
        }
        lemma_sorted_insert_at(d, r.last().0, r.last().1, d.len() as int);
        assert(d.insert(d.len() as int, (r.last().0, r.last().1)) =~= r);
    }
}

impl Resolution {
    /// Records every entry of `other`, replacing earlier choices.
    pub fn extend(&mut self, other: &Resolution)
        ensures
            final(self)@ == merge(old(self)@, other@),
    {
        let ghost m0 = self@;
        let n = other.entries.len();
        let mut i: usize = 0;
        while i < n
            invariant
                n == other.entries@.len(),
                i <= n,
                self@ == merge(m0, other@.take(i as int)),
            decreases n - i,
        {
            assert(other@.take(i + 1).drop_last() =~= other@.take(i as int));
            assert(other@.take(i + 1).last() == other@[i as int]);
            let name = other.entries[i].0.clone();
            let version = other.entries[i].1.copy();
            self.insert(name, version);
            i = i + 1;
        }
        assert(other@.take(n as int) =~= other@);
    }
}

proof fn lemma_sorted_insert_sorted(s: ResolutionView, k: Seq<char>, v: Seq<u64>, i: int)
    requires
        sorted_names(s),
        0 <= i <= s.len(),
        forall|j: int| 0 <= j < i ==> str_lt(#[trigger] s[j].0, k),
        i < s.len() ==> !str_lt(s[i].0, k),
    ensures
        sorted_names(if i < s.len() && s[i].0 == k {
            s.update(i, (k, v))
        } else {
            s.insert(i, (k, v))
        }),
{
    if i < s.len() && s[i].0 == k {
        let t = s.update(i, (k, v));
        assert forall|a: int, b: int| 0 <= a < b < t.len() implies str_lt(
            #[trigger] t[a].0,
            #[trigger] t[b].0,
        ) by {
            assert(t[a].0 == s[a].0 && t[b].0 == s[b].0);
        }
    } else {
        let t = s.insert(i, (k, v));
        if i < s.len() {
            lemma_str_lt_total(s[i].0, k);
        }
        assert forall|a: int, b: int| 0 <= a < b < t.len() implies str_lt(
            #[trigger] t[a].0,
            #[trigger] t[b].0,
        ) by {
            if b < i {
                assert(t[a] == s[a] && t[b] == s[b]);
            } else if b == i {
                assert(t[a] == s[a]);
            } else if a == i {
                assert(t[b] == s[b - 1]);
                if b - 1 > i {
                    assert(str_lt(s[i].0, s[b - 1].0));
                    lemma_str_lt_transitive(k, s[i].0, s[b - 1].0);
                }
            } else if a < i {
                assert(t[a] == s[a] && t[b] == s[b - 1]);
                if a < b - 1 {
                    assert(str_lt(s[a].0, s[b - 1].0));
                } else {
                    assert(str_lt(s[a].0, k));
                    lemma_str_lt_transitive(s[a].0, k, s[b - 1].0);
                }
            } else {
                assert(t[a] == s[a - 1] && t[b] == s[b - 1]);
            }
        }
    }
}

/// The number of leading entries whose names come before `k`.
pub open spec fn insert_pos(s: ResolutionView, k: Seq<char>) -> int
    decreases s.len(),
{
    if s.len() == 0 || !str_lt(s[0].0, k) {
        0
    } else {
        1 + insert_pos(s.drop_first(), k)
    }
}

proof fn lemma_insert_pos(s: ResolutionView, k: Seq<char>)
    requires
        sorted_names(s),
    ensures
        0 <= insert_pos(s, k) <= s.len(),
        forall|j: int| 0 <= j < insert_pos(s, k) ==> str_lt(#[trigger] s[j].0, k),
        insert_pos(s, k) < s.len() ==> !str_lt(s[insert_pos(s, k)].0, k),
    decreases s.len(),
{
    if s.len() > 0 && str_lt(s[0].0, k) {
        let t = s.drop_first();
        assert(sorted_names(t)) by {
            assert forall|a: int, b: int| 0 <= a < b < t.len() implies str_lt(
                #[trigger] t[a].0,
                #[trigger] t[b].0,
            ) by {
                assert(t[a] == s[a + 1] && t[b] == s[b + 1]);
            }
        }
        lemma_insert_pos(t, k);
        assert forall|j: int| 0 <= j < insert_pos(s, k) implies str_lt(#[trigger] s[j].0, k) by {
            if j > 0 {
                assert(s[j] == t[j - 1]);
            }
        }
    }
}

/// Keys that strictly increase are distinct, so the entry holding a key is
/// the one a lookup finds.
pub proof fn lemma_sorted_get(s: ResolutionView, k: Seq<char>)
    requires
        sorted_names(s),
    ensures
        forall|j: int| 0 <= j < s.len() && s[j].0 == k ==> assoc_get(s, k) == Some(s[j].1),
        (forall|j: int| 0 <= j < s.len() ==> s[j].0 != k) ==> assoc_get(s, k) is None,
{
    assert forall|j: int| 0 <= j < s.len() && s[j].0 == k implies assoc_get(s, k) == Some(
        s[j].1,
    ) by {
        assert forall|m: int| 0 <= m < j implies s[m].0 != k by {
            assert(str_lt(s[m].0, s[j].0));
            lemma_str_lt_irreflexive(k);
        }
        lemma_assoc_find_char(s, k, j);
    }
    if forall|j: int| 0 <= j < s.len() ==> s[j].0 != k {
        lemma_assoc_find_none(s, k);
    }
}

proof fn lemma_get_after_update(s: ResolutionView, i: int, k: Seq<char>, v: Seq<u64>, k2: Seq<char>)
    requires
        sorted_names(s),
        sorted_names(s.update(i, (k, v))),
        0 <= i < s.len(),
        s[i].0 == k,
    ensures
        assoc_get(s.update(i, (k, v)), k2) == (if k2 == k {
            Some(v)
        } else {
            assoc_get(s, k2)
        }),
{
    let t = s.update(i, (k, v));
    lemma_sorted_get(s, k2);
    lemma_sorted_get(t, k2);
    assert(t[i] == (k, v));
    if k2 != k {
        if exists|j: int| 0 <= j < s.len() && s[j].0 == k2 {
            let j = choose|j: int| 0 <= j < s.len() && s[j].0 == k2;
            assert(t[j] == s[j]);
        } else {
            assert forall|j: int| 0 <= j < t.len() implies t[j].0 != k2 by {
                if j != i {
                    assert(t[j] == s[j]);
                }
            }
        }
    }
}

proof fn lemma_get_after_insert(s: ResolutionView, i: int, k: Seq<char>, v: Seq<u64>, k2: Seq<char>)
    requires
        sorted_names(s),
        sorted_names(s.insert(i, (k, v))),
        0 <= i <= s.len(),
    ensures
        assoc_get(s.insert(i, (k, v)), k2) == (if k2 == k {
            Some(v)
        } else {
            assoc_get(s, k2)
        }),
{
    let t = s.insert(i, (k, v));
    lemma_sorted_get(s, k2);
    lemma_sorted_get(t, k2);
    assert(t[i] == (k, v));
    if k2 != k {
        if exists|j: int| 0 <= j < s.len() && s[j].0 == k2 {
            let j = choose|j: int| 0 <= j < s.len() && s[j].0 == k2;
            if j < i {
                assert(t[j] == s[j]);
            } else {
                assert(t[j + 1] == s[j]);
            }
        } else {
            assert forall|j: int| 0 <= j < t.len() implies t[j].0 != k2 by {
                if j < i {
                    assert(t[j] == s[j]);
                } else if j > i {
                    assert(t[j] == s[j - 1]);
                }
            }
        }
    }
}

/// Inserting keeps the names sorted; afterwards the name inserted gives the
/// version inserted and every other name what it gave before.
pub proof fn lemma_resolution_insert(s: ResolutionView, k: Seq<char>, v: Seq<u64>, k2: Seq<char>)
    requires
        sorted_names(s),
    ensures
        sorted_names(sorted_insert(s, k, v)),
        assoc_get(s, k) is None ==> sorted_insert(s, k, v).len() == s.len() + 1,
        assoc_get(sorted_insert(s, k, v), k2) == (if k2 == k {
            Some(v)
        } else {
            assoc_get(s, k2)
        }),
{
    lemma_insert_pos(s, k);
    let i = insert_pos(s, k);
    lemma_sorted_insert_at(s, k, v, i);
    lemma_sorted_insert_sorted(s, k, v, i);
    if i < s.len() && s[i].0 == k {
        lemma_sorted_get(s, k);
        lemma_get_after_update(s, i, k, v, k2);
    } else {
        lemma_get_after_insert(s, i, k, v, k2);
    }
}

} // verus!
