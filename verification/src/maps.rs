//! The grouped key/value model: a document is an ordered mapping of group
//! name to group, a group an ordered mapping of key to field, and a field a
//! default value with an ordered mapping of locale tag to localized value.
//!
//! Each mapping keeps its pairs in first-insertion order with unique keys,
//! so decoding is deterministic down to iteration order.  The view of a
//! mapping is the sequence of its pairs; `assoc` looks a key up in such a
//! sequence and `aset` updates it.

use crate::strutil::str_eq;
use vstd::prelude::*;

verus! {

/// Look `k` up in an ordered pair sequence.
pub open spec fn assoc<V>(s: Seq<(Seq<char>, V)>, k: Seq<char>) -> Option<V>
    decreases s.len(),
{
    if s.len() == 0 {
        None
    } else if s[0].0 == k {
        Some(s[0].1)
    } else {
        assoc(s.drop_first(), k)
    }
}

/// Bind `k` to `v` in an ordered pair sequence: in place if `k` is present,
/// appended at the end otherwise.
pub open spec fn aset<V>(s: Seq<(Seq<char>, V)>, k: Seq<char>, v: V) -> Seq<(Seq<char>, V)>
    decreases s.len(),
{
    if s.len() == 0 {
        seq![(k, v)]
    } else if s[0].0 == k {
        seq![(k, v)] + s.drop_first()
    } else {
        seq![s[0]] + aset(s.drop_first(), k, v)
    }
}

/// All keys of the pair sequence are distinct.
pub open spec fn adistinct<V>(s: Seq<(Seq<char>, V)>) -> bool {
    forall|i: int, j: int| 0 <= i < j < s.len() ==> s[i].0 != s[j].0
}

pub proof fn lemma_assoc_aset<V>(s: Seq<(Seq<char>, V)>, k: Seq<char>, v: V, k2: Seq<char>)
    ensures
        assoc(aset(s, k, v), k2) == if k2 == k {
            Some(v)
        } else {
            assoc(s, k2)
        },
    decreases s.len(),
{
    let r = aset(s, k, v);
    if s.len() == 0 {
        assert(r =~= seq![(k, v)]);
        assert(r[0] == (k, v));
        if k2 != k {
            assert(r.drop_first() =~= Seq::<(Seq<char>, V)>::empty());
            assert(assoc(r, k2) == assoc(r.drop_first(), k2));
        }
    } else if s[0].0 == k {
        assert(r =~= seq![(k, v)] + s.drop_first());
        assert(r[0] == (k, v));
        if k2 != k {
            assert(r.drop_first() =~= s.drop_first());
            assert(assoc(r, k2) == assoc(s.drop_first(), k2));
            assert(assoc(s, k2) == assoc(s.drop_first(), k2));
        }
    } else {
        lemma_assoc_aset(s.drop_first(), k, v, k2);
        assert(r =~= seq![s[0]] + aset(s.drop_first(), k, v));
        assert(r[0] == s[0]);
        assert(r.drop_first() =~= aset(s.drop_first(), k, v));
        if k2 == s[0].0 {
            assert(assoc(r, k2) == Some(s[0].1));
            assert(assoc(s, k2) == Some(s[0].1));
        } else {
            assert(assoc(r, k2) == assoc(aset(s.drop_first(), k, v), k2));
            assert(assoc(s, k2) == assoc(s.drop_first(), k2));
        }
    }
}

pub proof fn lemma_aset_distinct<V>(s: Seq<(Seq<char>, V)>, k: Seq<char>, v: V)
    requires
        adistinct(s),
    ensures
        adistinct(aset(s, k, v)),
    decreases s.len(),
{
    let r = aset(s, k, v);
    if s.len() == 0 {
        assert(r =~= seq![(k, v)]);
    } else if s[0].0 == k {
        assert(adistinct(s.drop_first())) by {
            assert(forall|i: int, j: int|
                0 <= i < j < s.drop_first().len() ==> s.drop_first()[i] == s[i + 1]
                    && s.drop_first()[j] == s[j + 1]);
        }
        assert(r =~= seq![(k, v)] + s.drop_first());
        assert forall|i: int, j: int| 0 <= i < j < r.len() implies r[i].0 != r[j].0 by {
            if i == 0 {
                assert(r[j] == s[j]);
                assert(s[0].0 != s[j].0 || s[0].0 == k);
                assert(r[j].0 != k);
            } else {
                assert(r[i] == s[i] && r[j] == s[j]);
            }
        }
    } else {
        assert(adistinct(s.drop_first())) by {
            assert(forall|i: int, j: int|
                0 <= i < j < s.drop_first().len() ==> s.drop_first()[i] == s[i + 1]
                    && s.drop_first()[j] == s[j + 1]);
        }
        lemma_aset_distinct(s.drop_first(), k, v);
        lemma_aset_keys(s.drop_first(), k, v);
        let r1 = aset(s.drop_first(), k, v);
        assert(r =~= seq![s[0]] + r1);
        assert forall|i: int, j: int| 0 <= i < j < r.len() implies r[i].0 != r[j].0 by {
            if i == 0 {
                assert(r[j] == r1[j - 1]);
                // every key of r1 is either k or a key of s.drop_first()
                assert(r1[j - 1].0 == k || exists|m: int|
                    0 <= m < s.drop_first().len() && s.drop_first()[m].0 == r1[j - 1].0);
                assert(r[0] == s[0]);
            } else {
                assert(r[i] == r1[i - 1] && r[j] == r1[j - 1]);
            }
        }
    }
}

/// Every key of `aset(s, k, v)` is `k` or a key of `s`.
pub proof fn lemma_aset_keys<V>(s: Seq<(Seq<char>, V)>, k: Seq<char>, v: V)
    ensures
        forall|j: int|
            0 <= j < aset(s, k, v).len() ==> aset(s, k, v)[j].0 == k || exists|m: int|
                0 <= m < s.len() && s[m].0 == #[trigger] aset(s, k, v)[j].0,
    decreases s.len(),
{
    let r = aset(s, k, v);
    if s.len() == 0 {
        assert(r =~= seq![(k, v)]);
    } else if s[0].0 == k {
        assert(r =~= seq![(k, v)] + s.drop_first());
        assert forall|j: int| 0 <= j < r.len() implies r[j].0 == k || exists|m: int|
            0 <= m < s.len() && s[m].0 == r[j].0 by {
            if j > 0 {
                assert(r[j] == s[j]);
            }
        }
    } else {
        lemma_aset_keys(s.drop_first(), k, v);
        let r1 = aset(s.drop_first(), k, v);
        assert(r =~= seq![s[0]] + r1);
        assert forall|j: int| 0 <= j < r.len() implies r[j].0 == k || exists|m: int|
            0 <= m < s.len() && s[m].0 == r[j].0 by {
            if j == 0 {
                assert(r[0] == s[0]);
                assert(s[0].0 == s[0].0);
            } else {
                assert(r[j] == r1[j - 1]);
                if r1[j - 1].0 != k {
                    let m = choose|m: int|
                        0 <= m < s.drop_first().len() && s.drop_first()[m].0 == r1[j - 1].0;
                    assert(s[m + 1].0 == r[j].0);
                }
            }
        }
    }
}

/// Updating a present key in place is `aset`.
pub proof fn lemma_aset_update<V>(s: Seq<(Seq<char>, V)>, i: int, v: V)
    requires
        adistinct(s),
        0 <= i < s.len(),
    ensures
        aset(s, s[i].0, v) =~= s.update(i, (s[i].0, v)),
    decreases s.len(),
{
    if i == 0 {
        assert(aset(s, s[0].0, v) =~= seq![(s[0].0, v)] + s.drop_first());
    } else {
        assert(s[0].0 != s[i].0);
        assert(adistinct(s.drop_first())) by {
            assert(forall|a: int, b: int|
                0 <= a < b < s.drop_first().len() ==> s.drop_first()[a] == s[a + 1]
                    && s.drop_first()[b] == s[b + 1]);
        }
        assert(s.drop_first()[i - 1] == s[i]);
        lemma_aset_update(s.drop_first(), i - 1, v);
        assert(aset(s, s[i].0, v) =~= seq![s[0]] + aset(s.drop_first(), s[i].0, v));
    }
}

/// Binding an absent key is a push at the end.
pub proof fn lemma_aset_push<V>(s: Seq<(Seq<char>, V)>, k: Seq<char>, v: V)
    requires
        assoc(s, k) is None,
    ensures
        aset(s, k, v) =~= s.push((k, v)),
    decreases s.len(),
{
    if s.len() > 0 {
        assert(s[0].0 != k);
        lemma_aset_push(s.drop_first(), k, v);
        assert(aset(s, k, v) =~= seq![s[0]] + aset(s.drop_first(), k, v));
    }
}

/// A present pair is found by `assoc`.
pub proof fn lemma_assoc_index<V>(s: Seq<(Seq<char>, V)>, i: int)
    requires
        adistinct(s),
        0 <= i < s.len(),
    ensures
        assoc(s, s[i].0) == Some(s[i].1),
    decreases s.len(),
{
    if i > 0 {
        assert(s[0].0 != s[i].0);
        assert(adistinct(s.drop_first())) by {
            assert(forall|a: int, b: int|
                0 <= a < b < s.drop_first().len() ==> s.drop_first()[a] == s[a + 1]
                    && s.drop_first()[b] == s[b + 1]);
        }
        assert(s.drop_first()[i - 1] == s[i]);
        lemma_assoc_index(s.drop_first(), i - 1);
    }
}

/// A found key's `assoc` result, given that no earlier pair has the key.
pub proof fn lemma_assoc_skip<V>(s: Seq<(Seq<char>, V)>, k: Seq<char>, i: int)
    requires
        0 <= i <= s.len(),
        forall|j: int| 0 <= j < i ==> s[j].0 != k,
    ensures
        assoc(s, k) == assoc(s.skip(i), k),
    decreases i,
{
    if i == 0 {
        assert(s.skip(0) =~= s);
    } else {
        lemma_assoc_skip(s, k, i - 1);
        let t = s.skip(i - 1);
        assert(t[0] == s[i - 1]);
        assert(t[0].0 != k);
        assert(t.len() > 0);
        assert(t.drop_first() =~= s.skip(i));
        assert(assoc(t, k) == assoc(s.skip(i), k));
    }
}

/// One key's value set: the required default value and the optional
/// locale-qualified overrides.
#[derive(Debug)]
pub struct Field {
    pub default_value: String,
    pub locales: LocaleMap,
}

#[verifier::ext_equal]
pub struct FieldView {
    pub default_value: Seq<char>,
    pub locales: Seq<(Seq<char>, Seq<char>)>,
}

impl View for Field {
    type V = FieldView;

    open spec fn view(&self) -> FieldView {
        FieldView { default_value: self.default_value@, locales: self.locales@ }
    }
}

impl Field {
    pub open spec fn wf(&self) -> bool {
        adistinct(self@.locales)
    }

    /// A field with the given default value and no localized values.
    pub fn plain(default_value: String) -> (r: Field)
        ensures
            r@.default_value == default_value@,
            r@.locales == Seq::<(Seq<char>, Seq<char>)>::empty(),
            r.wf(),
    {
        Field { default_value, locales: LocaleMap::new() }
    }
}

/// Ordered mapping of locale tag to localized value.
#[derive(Debug)]
pub struct LocaleMap {
    pairs: Vec<(String, String)>,
}

impl View for LocaleMap {
    type V = Seq<(Seq<char>, Seq<char>)>;

    closed spec fn view(&self) -> Seq<(Seq<char>, Seq<char>)> {
        self.pairs@.map_values(|p: (String, String)| (p.0@, p.1@))
    }
}

impl LocaleMap {
    pub open spec fn wf(&self) -> bool {
        adistinct(self@)
    }

    pub fn new() -> (r: Self)
        ensures
            r@ == Seq::<(Seq<char>, Seq<char>)>::empty(),
            r.wf(),
    {
        let r = LocaleMap { pairs: Vec::new() };
        proof {
            assert(r@ =~= Seq::<(Seq<char>, Seq<char>)>::empty());
        }
        r
    }

    pub fn len(&self) -> (n: usize)
        ensures
            n == self@.len(),
    {
        self.pairs.len()
    }

    /// The pair at one position, for ordered iteration.
    pub fn pair<'a>(&'a self, i: usize) -> (r: (&'a String, &'a String))
        requires
            i < self@.len(),
        ensures
            r.0@ == self@[i as int].0,
            r.1@ == self@[i as int].1,
    {
        (&self.pairs[i].0, &self.pairs[i].1)
    }

    pub fn get<'a>(&'a self, key: &str) -> (r: Option<&'a String>)
        ensures
            match r {
                Some(v) => assoc(self@, key@) == Some(v@),
                None => assoc(self@, key@) is None,
            },
    {
        let n = self.pairs.len();
        let mut i: usize = 0;
        while i < n
            invariant
                i <= n,
                n == self@.len(),
                n == self.pairs@.len(),
                forall|j: int| 0 <= j < i ==> self@[j].0 != key@,
            decreases n - i,
        {
            if str_eq(self.pairs[i].0.as_str(), key) {
                proof {
                    lemma_assoc_skip(self@, key@, i as int);
                    assert(self@.skip(i as int)[0] == self@[i as int]);
                }
                return Some(&self.pairs[i].1);
            }
            i += 1;
        }
        proof {
            lemma_assoc_skip(self@, key@, n as int);
            assert(self@.skip(n as int) =~= Seq::<(Seq<char>, Seq<char>)>::empty());
        }
        None
    }

    pub fn insert(&mut self, key: String, value: String)
        requires
            old(self).wf(),
        ensures
            final(self)@ == aset(old(self)@, key@, value@),
            final(self).wf(),
    {
        let ghost s0 = self@;
        let ghost p0 = self.pairs@;
        let n = self.pairs.len();
        let mut i: usize = 0;
        while i < n
            invariant
                i <= n,
                s0 == old(self)@,
                p0 == old(self).pairs@,
                self@ == s0,
                self.pairs@ == p0,
                adistinct(s0),
                n == self.pairs@.len(),
                n == self@.len(),
                forall|j: int| 0 <= j < i ==> self@[j].0 != key@,
            decreases n - i,
        {
            if str_eq(self.pairs[i].0.as_str(), key.as_str()) {
                let ghost vv = value@;
                let pair = self.pairs.remove(i);
                self.pairs.insert(i, (pair.0, value));
                proof {
                    assert(pair.0 == p0[i as int].0);
                    assert(pair.0@ == s0[i as int].0);
                    assert(self.pairs@.len() == n);
                    assert forall|j: int| 0 <= j < n implies self@[j] == s0.update(
                        i as int,
                        (s0[i as int].0, vv),
                    )[j] by {
                        if j < i as int {
                            assert(self.pairs@[j] == p0[j]);
                        } else if j == i as int {
                            assert(self.pairs@[j] == (pair.0, value));
                        } else {
                            assert(self.pairs@[j] == p0.remove(i as int)[j - 1]);
                            assert(p0.remove(i as int)[j - 1] == p0[j]);
                        }
                    }
                    assert(self@ =~= s0.update(i as int, (s0[i as int].0, vv)));
                    lemma_aset_update(s0, i as int, vv);
                    assert(s0[i as int].0 == key@);
                    assert(aset(s0, key@, vv) == aset(s0, s0[i as int].0, vv));
                    lemma_aset_distinct(s0, key@, vv);
                }
                return ;
            }
            i += 1;
        }
        self.pairs.push((key, value));
        proof {
            lemma_assoc_skip(s0, key@, n as int);
            assert(s0.skip(n as int) =~= Seq::<(Seq<char>, Seq<char>)>::empty());
            lemma_aset_push(s0, key@, value@);
            assert(self@ =~= s0.push((key@, value@)));
            lemma_aset_distinct(s0, key@, value@);
        }
    }
}

/// The view of a whole group: its keys with their fields, in order.
pub type GroupView = Seq<(Seq<char>, FieldView)>;

/// The view of a whole document body: its groups, in order.
pub type GroupsView = Seq<(Seq<char>, GroupView)>;

pub open spec fn field_view_wf(f: FieldView) -> bool {
    adistinct(f.locales)
}

pub open spec fn group_view_wf(g: GroupView) -> bool {
    &&& adistinct(g)
    &&& forall|i: int| 0 <= i < g.len() ==> field_view_wf(#[trigger] g[i].1)
}

pub open spec fn groups_view_wf(gs: GroupsView) -> bool {
    &&& adistinct(gs)
    &&& forall|i: int| 0 <= i < gs.len() ==> group_view_wf(#[trigger] gs[i].1)
}

/// The field a key is absent with: empty default, no locales.
pub open spec fn empty_field() -> FieldView {
    FieldView { default_value: Seq::empty(), locales: Seq::empty() }
}

/// A named section of a document: ordered mapping of key to field.
#[derive(Debug)]
pub struct Group {
    pairs: Vec<(String, Field)>,
}

impl View for Group {
    type V = GroupView;

    closed spec fn view(&self) -> GroupView {
        self.pairs@.map_values(|p: (String, Field)| (p.0@, p.1@))
    }
}

impl Group {
    pub open spec fn wf(&self) -> bool {
        group_view_wf(self@)
    }

    pub fn new() -> (r: Self)
        ensures
            r@ == Seq::<(Seq<char>, FieldView)>::empty(),
            r.wf(),
    {
        let r = Group { pairs: Vec::new() };
        proof {
            assert(r@ =~= Seq::<(Seq<char>, FieldView)>::empty());
        }
        r
    }

    pub fn len(&self) -> (n: usize)
        ensures
            n == self@.len(),
    {
        self.pairs.len()
    }

    /// The pair at one position, for ordered iteration.
    pub fn pair<'a>(&'a self, i: usize) -> (r: (&'a String, &'a Field))
        requires
            i < self@.len(),
        ensures
            r.0@ == self@[i as int].0,
            r.1@ == self@[i as int].1,
    {
        (&self.pairs[i].0, &self.pairs[i].1)
    }

    pub fn get<'a>(&'a self, key: &str) -> (r: Option<&'a Field>)
        ensures
            match r {
                Some(f) => assoc(self@, key@) == Some(f@),
                None => assoc(self@, key@) is None,
            },
    {
        let n = self.pairs.len();
        let mut i: usize = 0;
        while i < n
            invariant
                i <= n,
                n == self@.len(),
                n == self.pairs@.len(),
                forall|j: int| 0 <= j < i ==> self@[j].0 != key@,
            decreases n - i,
        {
            if str_eq(self.pairs[i].0.as_str(), key) {
                proof {
                    lemma_assoc_skip(self@, key@, i as int);
                    assert(self@.skip(i as int)[0] == self@[i as int]);
                }
                return Some(&self.pairs[i].1);
            }
            i += 1;
        }
        proof {
            lemma_assoc_skip(self@, key@, n as int);
            assert(self@.skip(n as int) =~= Seq::<(Seq<char>, FieldView)>::empty());
        }
        None
    }

    /// Bind `key` to `field`, replacing default value and locales alike.
    pub fn insert(&mut self, key: String, field: Field)
        requires
            old(self).wf(),
            field.wf(),
        ensures
            final(self)@ == aset(old(self)@, key@, field@),
            final(self).wf(),
    {
        let ghost s0 = self@;
        let ghost p0 = self.pairs@;
        let ghost fv = field@;
        let n = self.pairs.len();
        let mut i: usize = 0;
        while i < n
            invariant
                i <= n,
                s0 == old(self)@,
                p0 == old(self).pairs@,
                self@ == s0,
                self.pairs@ == p0,
                group_view_wf(s0),
                field_view_wf(fv),
                fv == field@,
                n == self.pairs@.len(),
                n == self@.len(),
                forall|j: int| 0 <= j < i ==> self@[j].0 != key@,
            decreases n - i,
        {
            if str_eq(self.pairs[i].0.as_str(), key.as_str()) {
                let pair = self.pairs.remove(i);
                self.pairs.insert(i, (pair.0, field));
                proof {
                    assert(pair.0@ == s0[i as int].0);
                    assert forall|j: int| 0 <= j < n implies self@[j] == s0.update(
                        i as int,
                        (s0[i as int].0, fv),
                    )[j] by {
                        if j < i as int {
                            assert(self.pairs@[j] == p0[j]);
                        } else if j == i as int {
                            assert(self.pairs@[j] == (pair.0, field));
                        } else {
                            assert(self.pairs@[j] == p0.remove(i as int)[j - 1]);
                            assert(p0.remove(i as int)[j - 1] == p0[j]);
                        }
                    }
                    assert(self@ =~= s0.update(i as int, (s0[i as int].0, fv)));
                    lemma_aset_update(s0, i as int, fv);
                    assert(s0[i as int].0 == key@);
                    lemma_aset_distinct(s0, key@, fv);
                    assert forall|j: int| 0 <= j < self@.len() implies field_view_wf(
                        #[trigger] self@[j].1,
                    ) by {
                        if j != i as int {
                            assert(self@[j] == s0[j]);
                        }
                    }
                }
                return ;
            }
            i += 1;
        }
        self.pairs.push((key, field));
        proof {
            lemma_assoc_skip(s0, key@, n as int);
            assert(s0.skip(n as int) =~= Seq::<(Seq<char>, FieldView)>::empty());
            lemma_aset_push(s0, key@, fv);
            assert(self@ =~= s0.push((key@, fv)));
            lemma_aset_distinct(s0, key@, fv);
            assert forall|j: int| 0 <= j < self@.len() implies field_view_wf(
                #[trigger] self@[j].1,
            ) by {
                if j < n as int {
                    assert(self@[j] == s0[j]);
                }
            }
        }
    }

    /// Set the default value of `key`, keeping its locales; a missing key is
    /// created with no locales.
    pub fn set_default(&mut self, key: String, value: String)
        requires
            old(self).wf(),
        ensures
            final(self)@ == aset(
                old(self)@,
                key@,
                FieldView {
                    default_value: value@,
                    locales: match assoc(old(self)@, key@) {
                        Some(f) => f.locales,
                        None => Seq::empty(),
                    },
                },
            ),
            final(self).wf(),
    {
        let ghost s0 = self@;
        let ghost p0 = self.pairs@;
        let ghost vv = value@;
        let n = self.pairs.len();
        let mut i: usize = 0;
        while i < n
            invariant
                i <= n,
                s0 == old(self)@,
                p0 == old(self).pairs@,
                self@ == s0,
                self.pairs@ == p0,
                group_view_wf(s0),
                vv == value@,
                n == self.pairs@.len(),
                n == self@.len(),
                forall|j: int| 0 <= j < i ==> self@[j].0 != key@,
            decreases n - i,
        {
            if str_eq(self.pairs[i].0.as_str(), key.as_str()) {
                let pair = self.pairs.remove(i);
                let f = Field { default_value: value, locales: pair.1.locales };
                let ghost fv = f@;
                self.pairs.insert(i, (pair.0, f));
                proof {
                    assert(pair.0@ == s0[i as int].0);
                    assert(pair.1@ == s0[i as int].1);
                    lemma_assoc_skip(s0, key@, i as int);
                    assert(s0.skip(i as int)[0] == s0[i as int]);
                    assert(assoc(s0, key@) == Some(s0[i as int].1));
                    assert(fv == FieldView { default_value: vv, locales: s0[i as int].1.locales });
                    assert forall|j: int| 0 <= j < n implies self@[j] == s0.update(
                        i as int,
                        (s0[i as int].0, fv),
                    )[j] by {
                        if j < i as int {
                            assert(self.pairs@[j] == p0[j]);
                        } else if j > i as int {
                            assert(self.pairs@[j] == p0.remove(i as int)[j - 1]);
                            assert(p0.remove(i as int)[j - 1] == p0[j]);
                        }
                    }
                    assert(self@ =~= s0.update(i as int, (s0[i as int].0, fv)));
                    lemma_aset_update(s0, i as int, fv);
                    assert(s0[i as int].0 == key@);
                    lemma_aset_distinct(s0, key@, fv);
                    assert forall|j: int| 0 <= j < self@.len() implies field_view_wf(
                        #[trigger] self@[j].1,
                    ) by {
                        if j != i as int {
                            assert(self@[j] == s0[j]);
                        } else {
                            assert(field_view_wf(s0[j].1));
                        }
                    }
                }
                return ;
            }
            i += 1;
        }
        let f = Field::plain(value);
        let ghost fv = f@;
        self.pairs.push((key, f));
        proof {
            lemma_assoc_skip(s0, key@, n as int);
            assert(s0.skip(n as int) =~= Seq::<(Seq<char>, FieldView)>::empty());
            assert(assoc(s0, key@) is None);
            lemma_aset_push(s0, key@, fv);
            assert(self@ =~= s0.push((key@, fv)));
            lemma_aset_distinct(s0, key@, fv);
            assert forall|j: int| 0 <= j < self@.len() implies field_view_wf(
                #[trigger] self@[j].1,
            ) by {
                if j < n as int {
                    assert(self@[j] == s0[j]);
                }
            }
        }
    }

    /// Attach a localized value to an existing key.  Reports whether the key
    /// was present; an absent key leaves the group unchanged.
    pub fn set_locale(&mut self, key: &str, locale: String, value: String) -> (r: bool)
        requires
            old(self).wf(),
        ensures
            final(self).wf(),
            match assoc(old(self)@, key@) {
                Some(f) => r && final(self)@ == aset(
                    old(self)@,
                    key@,
                    FieldView {
                        default_value: f.default_value,
                        locales: aset(f.locales, locale@, value@),
                    },
                ),
                None => !r && final(self)@ == old(self)@,
            },
    {
        let ghost s0 = self@;
        let ghost p0 = self.pairs@;
        let n = self.pairs.len();
        let mut i: usize = 0;
        while i < n
            invariant
                i <= n,
                s0 == old(self)@,
                p0 == old(self).pairs@,
                self@ == s0,
                self.pairs@ == p0,
                group_view_wf(s0),
                n == self.pairs@.len(),
                n == self@.len(),
                forall|j: int| 0 <= j < i ==> self@[j].0 != key@,
            decreases n - i,
        {
            if str_eq(self.pairs[i].0.as_str(), key) {
                let ghost lv = locale@;
                let ghost vv = value@;
                let pair = self.pairs.remove(i);
                let mut f = pair.1;
                proof {
                    assert(pair.0@ == s0[i as int].0);
                    assert(f@ == s0[i as int].1);
                    assert(field_view_wf(f@));
                }
                f.locales.insert(locale, value);
                let ghost fv = f@;
                self.pairs.insert(i, (pair.0, f));
                proof {
                    lemma_assoc_skip(s0, key@, i as int);
                    assert(s0.skip(i as int)[0] == s0[i as int]);
                    assert(assoc(s0, key@) == Some(s0[i as int].1));
                    assert(fv == FieldView {
                        default_value: s0[i as int].1.default_value,
                        locales: aset(s0[i as int].1.locales, lv, vv),
                    });
                    assert forall|j: int| 0 <= j < n implies self@[j] == s0.update(
                        i as int,
                        (s0[i as int].0, fv),
                    )[j] by {
                        if j < i as int {
                            assert(self.pairs@[j] == p0[j]);
                        } else if j > i as int {
                            assert(self.pairs@[j] == p0.remove(i as int)[j - 1]);
                            assert(p0.remove(i as int)[j - 1] == p0[j]);
                        }
                    }
                    assert(self@ =~= s0.update(i as int, (s0[i as int].0, fv)));
                    lemma_aset_update(s0, i as int, fv);
                    assert(s0[i as int].0 == key@);
                    lemma_aset_distinct(s0, key@, fv);
                    assert forall|j: int| 0 <= j < self@.len() implies field_view_wf(
                        #[trigger] self@[j].1,
                    ) by {
                        if j != i as int {
                            assert(self@[j] == s0[j]);
                        }
                    }
                }
                return true;
            }
            i += 1;
        }
        proof {
            lemma_assoc_skip(s0, key@, n as int);
            assert(s0.skip(n as int) =~= Seq::<(Seq<char>, FieldView)>::empty());
        }
        false
    }
}

/// Merging one group's fields into another, field by field in order, the
/// merged-in side winning per key.
pub open spec fn merge_fields(base: GroupView, add: GroupView) -> GroupView
    decreases add.len(),
{
    if add.len() == 0 {
        base
    } else {
        merge_fields(aset(base, add[0].0, add[0].1), add.drop_first())
    }
}

/// What flushing a finished group into the document does: merge into the
/// group of the same name if one exists, else append.
pub open spec fn gs_absorb(gs: GroupsView, name: Seq<char>, g: GroupView) -> GroupsView {
    match assoc(gs, name) {
        Some(g0) => aset(gs, name, merge_fields(g0, g)),
        None => gs.push((name, g)),
    }
}

/// The group of that name, or an empty one.
pub open spec fn group_or_empty(gs: GroupsView, name: Seq<char>) -> GroupView {
    match assoc(gs, name) {
        Some(g) => g,
        None => Seq::empty(),
    }
}

/// Binding a key to a fresh field (value, no locales) inside a named group.
pub open spec fn gs_replace_entry(
    gs: GroupsView,
    name: Seq<char>,
    k: Seq<char>,
    v: Seq<char>,
) -> GroupsView {
    aset(
        gs,
        name,
        aset(
            group_or_empty(gs, name),
            k,
            FieldView { default_value: v, locales: Seq::empty() },
        ),
    )
}

pub proof fn lemma_assoc_none<V>(s: Seq<(Seq<char>, V)>, k: Seq<char>)
    ensures
        (assoc(s, k) is None) <==> (forall|i: int| 0 <= i < s.len() ==> s[i].0 != k),
    decreases s.len(),
{
    if s.len() > 0 {
        lemma_assoc_none(s.drop_first(), k);
        assert(forall|i: int|
            0 <= i < s.drop_first().len() ==> s.drop_first()[i] == s[i + 1]);
        if s[0].0 != k && (forall|i: int|
            0 <= i < s.drop_first().len() ==> s.drop_first()[i].0 != k) {
            assert forall|i: int| 0 <= i < s.len() implies s[i].0 != k by {
                if i > 0 {
                    assert(s.drop_first()[i - 1] == s[i]);
                }
            }
        }
    }
}

/// The ordered collection of a document's groups.
#[derive(Debug)]
pub struct Groups {
    pairs: Vec<(String, Group)>,
}

impl View for Groups {
    type V = GroupsView;

    closed spec fn view(&self) -> GroupsView {
        self.pairs@.map_values(|p: (String, Group)| (p.0@, p.1@))
    }
}

impl Groups {
    pub open spec fn wf(&self) -> bool {
        groups_view_wf(self@)
    }

    pub fn new() -> (r: Self)
        ensures
            r@ == Seq::<(Seq<char>, GroupView)>::empty(),
            r.wf(),
    {
        let r = Groups { pairs: Vec::new() };
        proof {
            assert(r@ =~= Seq::<(Seq<char>, GroupView)>::empty());
        }
        r
    }

    pub fn len(&self) -> (n: usize)
        ensures
            n == self@.len(),
    {
        self.pairs.len()
    }

    /// The pair at one position, for ordered iteration.
    pub fn pair<'a>(&'a self, i: usize) -> (r: (&'a String, &'a Group))
        requires
            i < self@.len(),
        ensures
            r.0@ == self@[i as int].0,
            r.1@ == self@[i as int].1,
    {
        (&self.pairs[i].0, &self.pairs[i].1)
    }

    /// Retrieve a group under its header name.
    pub fn group<'a>(&'a self, key: &str) -> (r: Option<&'a Group>)
        ensures
            match r {
                Some(g) => assoc(self@, key@) == Some(g@),
                None => assoc(self@, key@) is None,
            },
    {
        let n = self.pairs.len();
        let mut i: usize = 0;
        while i < n
            invariant
                i <= n,
                n == self@.len(),
                n == self.pairs@.len(),
                forall|j: int| 0 <= j < i ==> self@[j].0 != key@,
            decreases n - i,
        {
            if str_eq(self.pairs[i].0.as_str(), key) {
                proof {
                    lemma_assoc_skip(self@, key@, i as int);
                    assert(self@.skip(i as int)[0] == self@[i as int]);
                }
                return Some(&self.pairs[i].1);
            }
            i += 1;
        }
        proof {
            lemma_assoc_skip(self@, key@, n as int);
            assert(self@.skip(n as int) =~= Seq::<(Seq<char>, GroupView)>::empty());
        }
        None
    }

    /// Bind `name` to `g` outright, replacing any group of that name.
    pub fn insert_group(&mut self, name: String, g: Group)
        requires
            old(self).wf(),
            g.wf(),
        ensures
            final(self)@ == aset(old(self)@, name@, g@),
            final(self).wf(),
    {
        let ghost s0 = self@;
        let ghost p0 = self.pairs@;
        let ghost gv = g@;
        let n = self.pairs.len();
        let mut i: usize = 0;
        while i < n
            invariant
                i <= n,
                s0 == old(self)@,
                p0 == old(self).pairs@,
                self@ == s0,
                self.pairs@ == p0,
                groups_view_wf(s0),
                gv == g@,
                group_view_wf(gv),
                n == self.pairs@.len(),
                n == self@.len(),
                forall|j: int| 0 <= j < i ==> self@[j].0 != name@,
            decreases n - i,
        {
            if str_eq(self.pairs[i].0.as_str(), name.as_str()) {
                let pair = self.pairs.remove(i);
                self.pairs.insert(i, (pair.0, g));
                proof {
                    assert(pair.0@ == s0[i as int].0);
                    assert forall|j: int| 0 <= j < n implies self@[j] == s0.update(
                        i as int,
                        (s0[i as int].0, gv),
                    )[j] by {
                        if j < i as int {
                            assert(self.pairs@[j] == p0[j]);
                        } else if j == i as int {
                            assert(self.pairs@[j] == (pair.0, g));
                        } else {
                            assert(self.pairs@[j] == p0.remove(i as int)[j - 1]);
                            assert(p0.remove(i as int)[j - 1] == p0[j]);
                        }
                    }
                    assert(self@ =~= s0.update(i as int, (s0[i as int].0, gv)));
                    lemma_aset_update(s0, i as int, gv);
                    assert(s0[i as int].0 == name@);
                    lemma_aset_distinct(s0, name@, gv);
                    assert forall|j: int| 0 <= j < self@.len() implies group_view_wf(
                        #[trigger] self@[j].1,
                    ) by {
                        if j != i as int {
                            assert(self@[j] == s0[j]);
                        }
                    }
                }
                return ;
            }
            i += 1;
        }
        self.pairs.push((name, g));
        proof {
            lemma_assoc_skip(s0, name@, n as int);
            assert(s0.skip(n as int) =~= Seq::<(Seq<char>, GroupView)>::empty());
            lemma_aset_push(s0, name@, gv);
            assert(self@ =~= s0.push((name@, gv)));
            lemma_aset_distinct(s0, name@, gv);
            assert forall|j: int| 0 <= j < self@.len() implies group_view_wf(
                #[trigger] self@[j].1,
            ) by {
                if j < n as int {
                    assert(self@[j] == s0[j]);
                }
            }
        }
    }

    /// Make sure a group of that name exists, creating it empty if absent.
    pub fn ensure_group(&mut self, name: String)
        requires
            old(self).wf(),
        ensures
            final(self)@ == (match assoc(old(self)@, name@) {
                Some(_) => old(self)@,
                None => old(self)@.push((name@, Seq::<(Seq<char>, FieldView)>::empty())),
            }),
            final(self).wf(),
    {
        let ghost s0 = self@;
        let n = self.pairs.len();
        let mut i: usize = 0;
        while i < n
            invariant
                i <= n,
                s0 == old(self)@,
                self@ == s0,
                groups_view_wf(s0),
                n == self.pairs@.len(),
                n == self@.len(),
                forall|j: int| 0 <= j < i ==> self@[j].0 != name@,
            decreases n - i,
        {
            if str_eq(self.pairs[i].0.as_str(), name.as_str()) {
                proof {
                    lemma_assoc_skip(s0, name@, i as int);
                    assert(s0.skip(i as int)[0] == s0[i as int]);
                }
                return ;
            }
            i += 1;
        }
        proof {
            lemma_assoc_skip(s0, name@, n as int);
            assert(s0.skip(n as int) =~= Seq::<(Seq<char>, GroupView)>::empty());
            assert(assoc(s0, name@) is None);
            lemma_assoc_none(s0, name@);
        }
        self.pairs.push((name, Group::new()));
        proof {
            assert(self@ =~= s0.push((name@, Seq::<(Seq<char>, FieldView)>::empty())));
            assert forall|a: int, b: int| 0 <= a < b < self@.len() implies self@[a].0
                != self@[b].0 by {
                if b < n as int {
                    assert(self@[a] == s0[a] && self@[b] == s0[b]);
                } else if a < n as int {
                    assert(self@[a] == s0[a]);
                }
            }
            assert forall|j: int| 0 <= j < self@.len() implies group_view_wf(
                #[trigger] self@[j].1,
            ) by {
                if j < n as int {
                    assert(self@[j] == s0[j]);
                }
            }
        }
    }

    /// Flush a finished group into the document, merging into a group of the
    /// same name if one exists.
    pub fn absorb(&mut self, name: String, g: Group)
        requires
            old(self).wf(),
            g.wf(),
        ensures
            final(self)@ == gs_absorb(old(self)@, name@, g@),
            final(self).wf(),
    {
        let ghost s0 = self@;
        let ghost p0 = self.pairs@;
        let ghost gv = g@;
        let n = self.pairs.len();
        let mut i: usize = 0;
        while i < n
            invariant
                i <= n,
                s0 == old(self)@,
                p0 == old(self).pairs@,
                self@ == s0,
                self.pairs@ == p0,
                groups_view_wf(s0),
                gv == g@,
                group_view_wf(gv),
                n == self.pairs@.len(),
                n == self@.len(),
                forall|j: int| 0 <= j < i ==> self@[j].0 != name@,
            decreases n - i,
        {
            if str_eq(self.pairs[i].0.as_str(), name.as_str()) {
                proof {
                    lemma_assoc_skip(s0, name@, i as int);
                    assert(s0.skip(i as int)[0] == s0[i as int]);
                    assert(assoc(s0, name@) == Some(s0[i as int].1));
                }
                let pair = self.pairs.remove(i);
                let mut target = pair.1;
                let mut rest = g;
                proof {
                    assert(pair.0@ == s0[i as int].0);
                    assert(target@ == s0[i as int].1);
                }
                let ghost g0 = s0[i as int].1;
                while rest.pairs.len() > 0
                    invariant
                        group_view_wf(target@),
                        group_view_wf(rest@),
                        rest@.len() == rest.pairs@.len(),
                        merge_fields(g0, gv) == merge_fields(target@, rest@),
                    decreases rest.pairs@.len(),
                {
                    let ghost r0 = rest@;
                    let p = rest.pairs.remove(0);
                    proof {
                        assert(p.0@ == r0[0].0);
                        assert(p.1@ == r0[0].1);
                        assert(rest@ =~= r0.drop_first());
                        assert(field_view_wf(r0[0].1));
                        assert(adistinct(rest@)) by {
                            assert(forall|a: int, b: int|
                                0 <= a < b < rest@.len() ==> rest@[a] == r0[a + 1]
                                    && rest@[b] == r0[b + 1]);
                        }
                        assert(forall|a: int|
                            0 <= a < rest@.len() ==> rest@[a] == r0[a + 1]);
                    }
                    target.insert(p.0, p.1);
                }
                proof {
                    assert(rest@.len() == 0);
                    assert(rest@ =~= Seq::<(Seq<char>, FieldView)>::empty());
                    assert(merge_fields(target@, rest@) == target@);
                    assert(target@ == merge_fields(g0, gv));
                }
                let ghost tv = target@;
                self.pairs.insert(i, (pair.0, target));
                proof {
                    assert forall|j: int| 0 <= j < n implies self@[j] == s0.update(
                        i as int,
                        (s0[i as int].0, tv),
                    )[j] by {
                        if j < i as int {
                            assert(self.pairs@[j] == p0[j]);
                        } else if j > i as int {
                            assert(self.pairs@[j] == p0.remove(i as int)[j - 1]);
                            assert(p0.remove(i as int)[j - 1] == p0[j]);
                        }
                    }
                    assert(self@ =~= s0.update(i as int, (s0[i as int].0, tv)));
                    lemma_aset_update(s0, i as int, tv);
                    assert(s0[i as int].0 == name@);
                    lemma_aset_distinct(s0, name@, tv);
                    assert forall|j: int| 0 <= j < self@.len() implies group_view_wf(
                        #[trigger] self@[j].1,
                    ) by {
                        if j != i as int {
                            assert(self@[j] == s0[j]);
                        }
                    }
                }
                return ;
            }
            i += 1;
        }
        proof {
            lemma_assoc_skip(s0, name@, n as int);
            assert(s0.skip(n as int) =~= Seq::<(Seq<char>, GroupView)>::empty());
            assert(assoc(s0, name@) is None);
        }
        self.pairs.push((name, g));
        proof {
            assert(self@ =~= s0.push((name@, gv)));
            lemma_assoc_none(s0, name@);
            assert forall|a: int, b: int| 0 <= a < b < self@.len() implies self@[a].0
                != self@[b].0 by {
                if b < n as int {
                    assert(self@[a] == s0[a] && self@[b] == s0[b]);
                } else {
                    if a < n as int {
                        assert(self@[a] == s0[a]);
                    }
                }
            }
            assert forall|j: int| 0 <= j < self@.len() implies group_view_wf(
                #[trigger] self@[j].1,
            ) by {
                if j < n as int {
                    assert(self@[j] == s0[j]);
                }
            }
        }
    }
}

/// Setting a key's default value inside a group view, keeping its locales.
pub open spec fn g_set_default(g: GroupView, k: Seq<char>, v: Seq<char>) -> GroupView {
    let locs = match assoc(g, k) {
        Some(f) => f.locales,
        None => Seq::empty(),
    };
    aset(g, k, FieldView { default_value: v, locales: locs })
}

/// Attaching a localized value to a key inside a group view, creating the
/// key with an empty default when absent.
pub open spec fn g_set_locale(g: GroupView, k: Seq<char>, l: Seq<char>, v: Seq<char>) -> GroupView {
    let f0 = match assoc(g, k) {
        Some(f) => f,
        None => empty_field(),
    };
    aset(g, k, FieldView { default_value: f0.default_value, locales: aset(f0.locales, l, v) })
}

impl Group {
    /// Attach a localized value to `key`, creating it with an empty default
    /// value when absent.
    pub fn set_locale_or_create(&mut self, key: String, locale: String, value: String)
        requires
            old(self).wf(),
        ensures
            final(self)@ == g_set_locale(old(self)@, key@, locale@, value@),
            final(self).wf(),
    {
        let ghost s0 = self@;
        let ghost lv = locale@;
        let ghost vv = value@;
        let present = match self.get(key.as_str()) {
            Some(_) => true,
            None => false,
        };
        if present {
            let r = self.set_locale(key.as_str(), locale, value);
            proof {
                assert(r);
            }
        } else {
            let mut locs = LocaleMap::new();
            locs.insert(locale, value);
            let f = Field { default_value: String::new(), locales: locs };
            proof {
                assert(f@.locales == aset(Seq::<(Seq<char>, Seq<char>)>::empty(), lv, vv));
                assert(f@.default_value =~= empty_field().default_value);
                assert(field_view_wf(f@)) by {
                    lemma_aset_distinct(Seq::<(Seq<char>, Seq<char>)>::empty(), lv, vv);
                }
            }
            self.insert(key, f);
        }
    }
}

impl Groups {
    /// Bind `key` to a bare `value` in the named group, dropping any previous
    /// localized values of that key; group and key are created as needed.
    pub fn replace_entry(&mut self, group_name: String, key: String, value: String)
        requires
            old(self).wf(),
        ensures
            final(self)@ == gs_replace_entry(old(self)@, group_name@, key@, value@),
            final(self).wf(),
    {
        let ghost s0 = self@;
        let ghost p0 = self.pairs@;
        let ghost kv = key@;
        let ghost vv = value@;
        let n = self.pairs.len();
        let mut i: usize = 0;
        while i < n
            invariant
                i <= n,
                s0 == old(self)@,
                p0 == old(self).pairs@,
                self@ == s0,
                self.pairs@ == p0,
                groups_view_wf(s0),
                kv == key@,
                vv == value@,
                n == self.pairs@.len(),
                n == self@.len(),
                forall|j: int| 0 <= j < i ==> self@[j].0 != group_name@,
            decreases n - i,
        {
            if str_eq(self.pairs[i].0.as_str(), group_name.as_str()) {
                proof {
                    lemma_assoc_skip(s0, group_name@, i as int);
                    assert(s0.skip(i as int)[0] == s0[i as int]);
                    assert(assoc(s0, group_name@) == Some(s0[i as int].1));
                }
                let pair = self.pairs.remove(i);
                let mut target = pair.1;
                proof {
                    assert(pair.0@ == s0[i as int].0);
                    assert(target@ == s0[i as int].1);
                }
                target.insert(key, Field::plain(value));
                let ghost tv = target@;
                self.pairs.insert(i, (pair.0, target));
                proof {
                    assert(tv == aset(
                        s0[i as int].1,
                        kv,
                        FieldView { default_value: vv, locales: Seq::empty() },
                    ));
                    assert forall|j: int| 0 <= j < n implies self@[j] == s0.update(
                        i as int,
                        (s0[i as int].0, tv),
                    )[j] by {
                        if j < i as int {
                            assert(self.pairs@[j] == p0[j]);
                        } else if j > i as int {
                            assert(self.pairs@[j] == p0.remove(i as int)[j - 1]);
                            assert(p0.remove(i as int)[j - 1] == p0[j]);
                        }
                    }
                    assert(self@ =~= s0.update(i as int, (s0[i as int].0, tv)));
                    lemma_aset_update(s0, i as int, tv);
                    assert(s0[i as int].0 == group_name@);
                    lemma_aset_distinct(s0, group_name@, tv);
                    assert forall|j: int| 0 <= j < self@.len() implies group_view_wf(
                        #[trigger] self@[j].1,
                    ) by {
                        if j != i as int {
                            assert(self@[j] == s0[j]);
                        }
                    }
                }
                return ;
            }
            i += 1;
        }
        proof {
            lemma_assoc_skip(s0, group_name@, n as int);
            assert(s0.skip(n as int) =~= Seq::<(Seq<char>, GroupView)>::empty());
            assert(assoc(s0, group_name@) is None);
        }
        let mut target = Group::new();
        target.insert(key, Field::plain(value));
        let ghost tv = target@;
        self.pairs.push((group_name, target));
        proof {
            assert(tv == aset(
                Seq::<(Seq<char>, FieldView)>::empty(),
                kv,
                FieldView { default_value: vv, locales: Seq::empty() },
            ));
            assert(self@ =~= s0.push((group_name@, tv)));
            lemma_aset_push(s0, group_name@, tv);
            lemma_aset_distinct(s0, group_name@, tv);
            assert forall|j: int| 0 <= j < self@.len() implies group_view_wf(
                #[trigger] self@[j].1,
            ) by {
                if j < n as int {
                    assert(self@[j] == s0[j]);
                }
            }
        }
    }

    /// Set a key's default value in the named group, keeping its localized
    /// values; group and key are created as needed.
    pub fn set_entry_default(&mut self, group_name: String, key: String, value: String)
        requires
            old(self).wf(),
        ensures
            final(self)@ == aset(
                old(self)@,
                group_name@,
                g_set_default(group_or_empty(old(self)@, group_name@), key@, value@),
            ),
            final(self).wf(),
    {
        let ghost s0 = self@;
        let ghost p0 = self.pairs@;
        let ghost kv = key@;
        let ghost vv = value@;
        let n = self.pairs.len();
        let mut i: usize = 0;
        while i < n
            invariant
                i <= n,
                s0 == old(self)@,
                p0 == old(self).pairs@,
                self@ == s0,
                self.pairs@ == p0,
                groups_view_wf(s0),
                kv == key@,
                vv == value@,
                n == self.pairs@.len(),
                n == self@.len(),
                forall|j: int| 0 <= j < i ==> self@[j].0 != group_name@,
            decreases n - i,
        {
            if str_eq(self.pairs[i].0.as_str(), group_name.as_str()) {
                proof {
                    lemma_assoc_skip(s0, group_name@, i as int);
                    assert(s0.skip(i as int)[0] == s0[i as int]);
                    assert(assoc(s0, group_name@) == Some(s0[i as int].1));
                }
                let pair = self.pairs.remove(i);
                let mut target = pair.1;
                proof {
                    assert(pair.0@ == s0[i as int].0);
                    assert(target@ == s0[i as int].1);
                }
                target.set_default(key, value);
                let ghost tv = target@;
                self.pairs.insert(i, (pair.0, target));
                proof {
                    assert(tv == g_set_default(s0[i as int].1, kv, vv));
                    assert forall|j: int| 0 <= j < n implies self@[j] == s0.update(
                        i as int,
                        (s0[i as int].0, tv),
                    )[j] by {
                        if j < i as int {
                            assert(self.pairs@[j] == p0[j]);
                        } else if j > i as int {
                            assert(self.pairs@[j] == p0.remove(i as int)[j - 1]);
                            assert(p0.remove(i as int)[j - 1] == p0[j]);
                        }
                    }
                    assert(self@ =~= s0.update(i as int, (s0[i as int].0, tv)));
                    lemma_aset_update(s0, i as int, tv);
                    assert(s0[i as int].0 == group_name@);
                    lemma_aset_distinct(s0, group_name@, tv);
                    assert forall|j: int| 0 <= j < self@.len() implies group_view_wf(
                        #[trigger] self@[j].1,
                    ) by {
                        if j != i as int {
                            assert(self@[j] == s0[j]);
                        }
                    }
                }
                return ;
            }
            i += 1;
        }
        proof {
            lemma_assoc_skip(s0, group_name@, n as int);
            assert(s0.skip(n as int) =~= Seq::<(Seq<char>, GroupView)>::empty());
            assert(assoc(s0, group_name@) is None);
        }
        let mut target = Group::new();
        target.set_default(key, value);
        let ghost tv = target@;
        self.pairs.push((group_name, target));
        proof {
            assert(tv == g_set_default(Seq::<(Seq<char>, FieldView)>::empty(), kv, vv));
            assert(group_or_empty(s0, group_name@) =~= Seq::<(Seq<char>, FieldView)>::empty());
            assert(self@ =~= s0.push((group_name@, tv)));
            lemma_aset_push(s0, group_name@, tv);
            lemma_aset_distinct(s0, group_name@, tv);
            assert forall|j: int| 0 <= j < self@.len() implies group_view_wf(
                #[trigger] self@[j].1,
            ) by {
                if j < n as int {
                    assert(self@[j] == s0[j]);
                }
            }
        }
    }

    /// Attach a localized value to a key in the named group; group and key
    /// (with an empty default) are created as needed.
    pub fn set_entry_locale(&mut self, group_name: String, key: String, locale: String, value: String)
        requires
            old(self).wf(),
        ensures
            final(self)@ == aset(
                old(self)@,
                group_name@,
                g_set_locale(group_or_empty(old(self)@, group_name@), key@, locale@, value@),
            ),
            final(self).wf(),
    {
        let ghost s0 = self@;
        let ghost p0 = self.pairs@;
        let ghost kv = key@;
        let ghost lv = locale@;
        let ghost vv = value@;
        let n = self.pairs.len();
        let mut i: usize = 0;
        while i < n
            invariant
                i <= n,
                s0 == old(self)@,
                p0 == old(self).pairs@,
                self@ == s0,
                self.pairs@ == p0,
                groups_view_wf(s0),
                kv == key@,
                lv == locale@,
                vv == value@,
                n == self.pairs@.len(),
                n == self@.len(),
                forall|j: int| 0 <= j < i ==> self@[j].0 != group_name@,
            decreases n - i,
        {
            if str_eq(self.pairs[i].0.as_str(), group_name.as_str()) {
                proof {
                    lemma_assoc_skip(s0, group_name@, i as int);
                    assert(s0.skip(i as int)[0] == s0[i as int]);
                    assert(assoc(s0, group_name@) == Some(s0[i as int].1));
                }
                let pair = self.pairs.remove(i);
                let mut target = pair.1;
                proof {
                    assert(pair.0@ == s0[i as int].0);
                    assert(target@ == s0[i as int].1);
                }
                target.set_locale_or_create(key, locale, value);
                let ghost tv = target@;
                self.pairs.insert(i, (pair.0, target));
                proof {
                    assert(tv == g_set_locale(s0[i as int].1, kv, lv, vv));
                    assert forall|j: int| 0 <= j < n implies self@[j] == s0.update(
                        i as int,
                        (s0[i as int].0, tv),
                    )[j] by {
                        if j < i as int {
                            assert(self.pairs@[j] == p0[j]);
                        } else if j > i as int {
                            assert(self.pairs@[j] == p0.remove(i as int)[j - 1]);
                            assert(p0.remove(i as int)[j - 1] == p0[j]);
                        }
                    }
                    assert(self@ =~= s0.update(i as int, (s0[i as int].0, tv)));
                    lemma_aset_update(s0, i as int, tv);
                    assert(s0[i as int].0 == group_name@);
                    lemma_aset_distinct(s0, group_name@, tv);
                    assert forall|j: int| 0 <= j < self@.len() implies group_view_wf(
                        #[trigger] self@[j].1,
                    ) by {
                        if j != i as int {
                            assert(self@[j] == s0[j]);
                        }
                    }
                }
                return ;
            }
            i += 1;
        }
        proof {
            lemma_assoc_skip(s0, group_name@, n as int);
            assert(s0.skip(n as int) =~= Seq::<(Seq<char>, GroupView)>::empty());
            assert(assoc(s0, group_name@) is None);
        }
        let mut target = Group::new();
        target.set_locale_or_create(key, locale, value);
        let ghost tv = target@;
        self.pairs.push((group_name, target));
        proof {
            assert(tv == g_set_locale(Seq::<(Seq<char>, FieldView)>::empty(), kv, lv, vv));
            assert(group_or_empty(s0, group_name@) =~= Seq::<(Seq<char>, FieldView)>::empty());
            assert(self@ =~= s0.push((group_name@, tv)));
            lemma_aset_push(s0, group_name@, tv);
            lemma_aset_distinct(s0, group_name@, tv);
            assert forall|j: int| 0 <= j < self@.len() implies group_view_wf(
                #[trigger] self@[j].1,
            ) by {
                if j < n as int {
                    assert(self@[j] == s0[j]);
                }
            }
        }
    }
}

} // verus!
