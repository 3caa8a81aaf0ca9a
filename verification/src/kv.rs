//! Verified containers keyed by strings.
//!
//! `StringSet` is a set of strings kept as a duplicate-free vector and
//! viewed as a `Set<Seq<char>>`.  `KvList<V>` is a keyspace: an
//! association list from string keys to record values, viewed as a
//! `Map<Seq<char>, V::V>`.  Both keep insertion order, so replaying the
//! same operations always yields the same layout.

use vstd::prelude::*;

verus! {

/// String equality, decided on the character sequences.
pub fn str_eq(a: &String, b: &String) -> (r: bool)
    ensures
        r == (a@ == b@),
{
    *a == *b
}

/// The set of character sequences held by a vector of strings.
pub open spec fn set_of(s: Seq<String>) -> Set<Seq<char>>
    decreases s.len(),
{
    if s.len() == 0 {
        Set::empty()
    } else {
        set_of(s.drop_last()).insert(s.last()@)
    }
}

/// No two strings of the vector read the same.
pub open spec fn uniq(s: Seq<String>) -> bool {
    forall|i: int, j: int| 0 <= i < j < s.len() ==> s[i]@ != s[j]@
}

proof fn lemma_set_of_contains(s: Seq<String>, x: Seq<char>)
    ensures
        set_of(s).contains(x) <==> (exists|i: int| 0 <= i < s.len() && s[i]@ == x),
    decreases s.len(),
{
    if s.len() > 0 {
        lemma_set_of_contains(s.drop_last(), x);
        if s.last()@ == x {
            assert(s[s.len() - 1]@ == x);
        } else if set_of(s).contains(x) {
            let i = choose|i: int| 0 <= i < s.drop_last().len() && s.drop_last()[i]@ == x;
            assert(s[i]@ == x);
        } else if exists|i: int| 0 <= i < s.len() && s[i]@ == x {
            let i = choose|i: int| 0 <= i < s.len() && s[i]@ == x;
            assert(i < s.len() - 1 ==> s.drop_last()[i]@ == x);
        }
    }
}

proof fn lemma_set_of_finite_len(s: Seq<String>)
    ensures
        set_of(s).finite(),
        uniq(s) ==> set_of(s).len() == s.len(),
        !uniq(s) ==> set_of(s).len() <= s.len(),
    decreases s.len(),
{
    if s.len() > 0 {
        lemma_set_of_finite_len(s.drop_last());
        lemma_set_of_contains(s.drop_last(), s.last()@);
        if uniq(s) {
            assert(uniq(s.drop_last()));
            assert(forall|i: int| 0 <= i < s.len() - 1 ==> s[i]@ != s.last()@);
            assert(!set_of(s.drop_last()).contains(s.last()@));
        }
    }
}

/// A set of strings: a vector free of duplicates, in insertion order.
pub struct StringSet {
    items: Vec<String>,
}

impl View for StringSet {
    type V = Set<Seq<char>>;

    closed spec fn view(&self) -> Set<Seq<char>> {
        set_of(self.items@)
    }
}

impl StringSet {
    /// The items as an ordered sequence of character sequences.
    pub closed spec fn seq_view(&self) -> Seq<Seq<char>> {
        self.items@.map_values(|s: String| s@)
    }

    pub closed spec fn wf(&self) -> bool {
        uniq(self.items@)
    }

    pub proof fn lemma_view(&self)
        ensures
            self@.finite(),
            self.wf() ==> self@.len() == self.seq_view().len(),
            forall|x: Seq<char>|
                self@.contains(x) <==> (exists|i: int|
                    0 <= i < self.seq_view().len() && self.seq_view()[i] == x),
    {
        lemma_set_of_finite_len(self.items@);
        assert forall|x: Seq<char>| #[trigger] self@.contains(x) implies (exists|i: int|
            0 <= i < self.seq_view().len() && self.seq_view()[i] == x) by {
            lemma_set_of_contains(self.items@, x);
            let i = choose|i: int| 0 <= i < self.items@.len() && self.items@[i]@ == x;
            assert(self.seq_view()[i] == x);
        }
        assert forall|x: Seq<char>|
            (exists|i: int|
                0 <= i < self.seq_view().len() && self.seq_view()[i] == x) implies #[trigger] self@.contains(
            x,
        ) by {
            let i = choose|i: int| 0 <= i < self.seq_view().len() && self.seq_view()[i] == x;
            assert(self.items@[i]@ == x);
            lemma_set_of_contains(self.items@, x);
        }
    }

    pub fn new() -> (r: StringSet)
        ensures
            r@ == Set::<Seq<char>>::empty(),
            r.wf(),
            r.seq_view() == Seq::<Seq<char>>::empty(),
    {
        let r = StringSet { items: Vec::new() };
        proof {
            assert(r.seq_view() =~= Seq::<Seq<char>>::empty());
        }
        r
    }

    /// How many strings the set holds.
    pub fn count(&self) -> (n: usize)
        ensures
            n == self.seq_view().len(),
            self.wf() ==> n == self@.len(),
    {
        proof {
            lemma_set_of_finite_len(self.items@);
        }
        self.items.len()
    }

    /// The string at one position of the insertion order.
    pub fn item_at(&self, i: usize) -> (r: &String)
        requires
            i < self.seq_view().len(),
        ensures
            r@ == self.seq_view()[i as int],
    {
        &self.items[i]
    }

    #[verifier::loop_isolation(false)]
    pub fn contains(&self, x: &String) -> (r: bool)
        ensures
            r == self@.contains(x@),
    {
        proof {
            lemma_set_of_contains(self.items@, x@);
        }
        let n = self.items.len();
        for i in 0..n
            invariant
                n == self.items@.len(),
                forall|j: int| 0 <= j < i ==> self.items@[j]@ != x@,
        {
            if str_eq(&self.items[i], x) {
                return true;
            }
        }
        false
    }

    pub fn insert(&mut self, x: String)
        requires
            old(self).wf(),
        ensures
            final(self).wf(),
            final(self)@ == old(self)@.insert(x@),
            old(self)@.contains(x@) ==> final(self).seq_view() == old(self).seq_view(),
            !old(self)@.contains(x@) ==> final(self).seq_view() == old(self).seq_view().push(x@),
    {
        if self.contains(&x) {
            proof {
                lemma_set_of_contains(self.items@, x@);
                assert(self@ =~= self@.insert(x@));
            }
        } else {
            let ghost prior = self.items@;
            self.items.push(x);
            proof {
                assert(self.items@.drop_last() =~= prior);
                lemma_set_of_contains(prior, x@);
                assert(self.seq_view() =~= old(self).seq_view().push(x@));
            }
        }
    }

    #[verifier::loop_isolation(false)]
    pub fn remove(&mut self, x: &String)
        requires
            old(self).wf(),
        ensures
            final(self).wf(),
            final(self)@ == old(self)@.remove(x@),
    {
        let n = self.items.len();
        for i in 0..n
            invariant
                n == self.items@.len(),
                self == old(self),
                forall|j: int| 0 <= j < i ==> self.items@[j]@ != x@,
        {
            if str_eq(&self.items[i], x) {
                let ghost prior = self.items@;
                self.items.remove(i);
                proof {
                    lemma_remove_keeps_uniq(prior, i as int);
                    lemma_set_of_remove(prior, i as int);
                    assert(self@ =~= old(self)@.remove(x@));
                }
                return ;
            }
        }
        proof {
            lemma_set_of_contains(self.items@, x@);
            assert(self@ =~= self@.remove(x@));
        }
    }

    /// A copy holding the same strings.
    #[verifier::loop_isolation(false)]
    pub fn duplicate(&self) -> (r: StringSet)
        ensures
            r@ == self@,
            r.seq_view() == self.seq_view(),
            r.wf() == self.wf(),
    {
        let mut items: Vec<String> = Vec::new();
        let n = self.items.len();
        for i in 0..n
            invariant
                n == self.items@.len(),
                items@.len() == i,
                forall|j: int| 0 <= j < i ==> items@[j]@ == self.items@[j]@,
        {
            items.push(self.items[i].clone());
        }
        let r = StringSet { items };
        proof {
            lemma_set_of_pointwise(r.items@, self.items@);
            assert(r.seq_view() =~= self.seq_view());
            assert(uniq(r.items@) == uniq(self.items@));
        }
        r
    }

    /// Add every string of `other`.
    #[verifier::loop_isolation(false)]
    pub fn union_with(&mut self, other: &StringSet)
        requires
            old(self).wf(),
        ensures
            final(self).wf(),
            final(self)@ == old(self)@.union(other@),
    {
        let n = other.items.len();
        proof {
            other.lemma_view();
        }
        for i in 0..n
            invariant
                n == other.seq_view().len(),
                self.wf(),
                self@ == old(self)@.union(set_of(other.items@.take(i as int))),
        {
            let ghost before = self@;
            self.insert(other.items[i].clone());
            proof {
                assert(other.items@.take(i + 1).drop_last() =~= other.items@.take(i as int));
                assert(other.items@.take(i + 1).last()@ == other.items@[i as int]@);
                assert(self@ =~= old(self)@.union(set_of(other.items@.take(i + 1))));
            }
        }
        proof {
            assert(other.items@.take(n as int) =~= other.items@);
        }
    }

    /// The strings of `self` that `other` lacks.
    #[verifier::loop_isolation(false)]
    pub fn minus(&self, other: &StringSet) -> (r: StringSet)
        requires
            self.wf(),
        ensures
            r.wf(),
            r@ == self@.difference(other@),
    {
        let mut r = StringSet::new();
        let n = self.items.len();
        for i in 0..n
            invariant
                n == self.items@.len(),
                self.wf(),
                r.wf(),
                r@ == set_of(self.items@.take(i as int)).difference(other@),
        {
            let ghost before = r@;
            if !other.contains(&self.items[i]) {
                r.insert(self.items[i].clone());
            }
            proof {
                assert(self.items@.take(i + 1).drop_last() =~= self.items@.take(i as int));
                assert(self.items@.take(i + 1).last()@ == self.items@[i as int]@);
                assert(r@ =~= set_of(self.items@.take(i + 1)).difference(other@));
            }
        }
        proof {
            assert(self.items@.take(n as int) =~= self.items@);
        }
        r
    }
}

/// A value that a keyspace can hold: it has a well-formedness
/// condition and can be copied without changing its view.
pub trait Stored: View + Sized {
    spec fn inv(&self) -> bool;

    fn deep_clone(&self) -> (r: Self)
        ensures
            r@ == self@,
            r.inv() == self.inv(),
    ;
}

impl Stored for String {
    open spec fn inv(&self) -> bool {
        true
    }

    fn deep_clone(&self) -> (r: Self) {
        self.clone()
    }
}

impl Stored for u64 {
    open spec fn inv(&self) -> bool {
        true
    }

    fn deep_clone(&self) -> (r: Self) {
        *self
    }
}

impl Stored for StringSet {
    open spec fn inv(&self) -> bool {
        self.wf()
    }

    fn deep_clone(&self) -> (r: Self) {
        self.duplicate()
    }
}

/// The map that an association list denotes: later entries win,
/// keys compared as character sequences.
pub open spec fn map_of<V: View>(s: Seq<(String, V)>) -> Map<Seq<char>, V::V>
    decreases s.len(),
{
    if s.len() == 0 {
        Map::empty()
    } else {
        map_of(s.drop_last()).insert(s.last().0@, s.last().1@)
    }
}

/// No two entries share a key.
pub open spec fn kuniq<V: View>(s: Seq<(String, V)>) -> bool {
    forall|i: int, j: int| 0 <= i < j < s.len() ==> s[i].0@ != s[j].0@
}

proof fn lemma_map_of_contains<V: View>(s: Seq<(String, V)>, k: Seq<char>)
    ensures
        map_of(s).contains_key(k) <==> (exists|i: int| 0 <= i < s.len() && s[i].0@ == k),
    decreases s.len(),
{
    if s.len() > 0 {
        lemma_map_of_contains(s.drop_last(), k);
        if s.last().0@ == k {
            assert(s[s.len() - 1].0@ == k);
        } else if map_of(s).contains_key(k) {
            let i = choose|i: int| 0 <= i < s.drop_last().len() && s.drop_last()[i].0@ == k;
            assert(s[i].0@ == k);
        } else if exists|i: int| 0 <= i < s.len() && s[i].0@ == k {
            let i = choose|i: int| 0 <= i < s.len() && s[i].0@ == k;
            assert(i < s.len() - 1 ==> s.drop_last()[i].0@ == k);
        }
    }
}

proof fn lemma_map_of_index<V: View>(s: Seq<(String, V)>, i: int)
    requires
        kuniq(s),
        0 <= i < s.len(),
    ensures
        map_of(s).contains_key(s[i].0@),
        map_of(s)[s[i].0@] == s[i].1@,
    decreases s.len(),
{
    lemma_map_of_contains(s, s[i].0@);
    if i == s.len() - 1 {
    } else {
        assert(s.drop_last()[i] == s[i]);
        lemma_map_of_index(s.drop_last(), i);
        assert(s.last().0@ != s[i].0@);
    }
}

proof fn lemma_map_of_finite<V: View>(s: Seq<(String, V)>)
    ensures
        map_of(s).dom().finite(),
    decreases s.len(),
{
    if s.len() > 0 {
        lemma_map_of_finite(s.drop_last());
    }
}

proof fn lemma_map_of_update<V: View>(s: Seq<(String, V)>, i: int, e: (String, V))
    requires
        kuniq(s),
        0 <= i < s.len(),
        e.0@ == s[i].0@,
    ensures
        kuniq(s.update(i, e)),
        map_of(s.update(i, e)) == map_of(s).insert(e.0@, e.1@),
    decreases s.len(),
{
    assert forall|p: int, q: int| 0 <= p < q < s.len() implies s.update(i, e)[p].0@ != s.update(
        i,
        e,
    )[q].0@ by {
        assert(s.update(i, e)[p].0@ == s[p].0@);
        assert(s.update(i, e)[q].0@ == s[q].0@);
    }
    if i == s.len() - 1 {
        assert(s.update(i, e).drop_last() =~= s.drop_last());
        assert(map_of(s.update(i, e)) =~= map_of(s).insert(e.0@, e.1@));
    } else {
        lemma_map_of_update(s.drop_last(), i, e);
        assert(s.update(i, e).drop_last() =~= s.drop_last().update(i, e));
        assert(s.update(i, e).last() == s.last());
        assert(s.last().0@ != s[i].0@);
        assert(map_of(s.update(i, e)) =~= map_of(s).insert(e.0@, e.1@));
    }
}

proof fn lemma_map_of_remove<V: View>(s: Seq<(String, V)>, i: int)
    requires
        kuniq(s),
        0 <= i < s.len(),
    ensures
        kuniq(s.remove(i)),
        map_of(s.remove(i)) == map_of(s).remove(s[i].0@),
    decreases s.len(),
{
    assert forall|p: int, q: int| 0 <= p < q < s.remove(i).len() implies s.remove(i)[p].0@
        != s.remove(i)[q].0@ by {
        let p0: int = if p < i {
            p
        } else {
            p + 1
        };
        let q0: int = if q < i {
            q
        } else {
            q + 1
        };
        assert(s.remove(i)[p] == s[p0]);
        assert(s.remove(i)[q] == s[q0]);
    }
    lemma_map_of_contains(s.remove(i), s[i].0@);
    if i == s.len() - 1 {
        assert(s.remove(i) =~= s.drop_last());
        lemma_map_of_contains(s.drop_last(), s[i].0@);
        assert(map_of(s.remove(i)) =~= map_of(s).remove(s[i].0@));
    } else {
        lemma_map_of_remove(s.drop_last(), i);
        assert(s.remove(i).drop_last() =~= s.drop_last().remove(i));
        assert(s.remove(i).last() == s.last());
        assert(map_of(s.remove(i)) == map_of(s.drop_last().remove(i)).insert(
            s.last().0@,
            s.last().1@,
        ));
        assert(s.last().0@ != s[i].0@);
        assert(map_of(s.remove(i)) =~= map_of(s).remove(s[i].0@));
    }
}

/// A keyspace: string keys to record values, in insertion order.
pub struct KvList<V> {
    entries: Vec<(String, V)>,
}

impl<V: View> View for KvList<V> {
    type V = Map<Seq<char>, V::V>;

    closed spec fn view(&self) -> Map<Seq<char>, V::V> {
        map_of(self.entries@)
    }
}

impl<V: Stored> KvList<V> {
    /// The entries in insertion order.
    pub closed spec fn kseq(&self) -> Seq<(String, V)> {
        self.entries@
    }

    pub closed spec fn wf(&self) -> bool {
        kuniq(self.entries@)
    }

    pub proof fn lemma_view(&self)
        requires
            self.wf(),
        ensures
            self@.dom().finite(),
            self@.len() == self.kseq().len(),
            forall|i: int|
                0 <= i < self.kseq().len() ==> self@.contains_key(#[trigger] self.kseq()[i].0@)
                    && self@[self.kseq()[i].0@] == self.kseq()[i].1@,
            forall|k: Seq<char>|
                self@.contains_key(k) <==> (exists|i: int|
                    0 <= i < self.kseq().len() && #[trigger] self.kseq()[i].0@ == k),
    {
        lemma_map_of_finite(self.entries@);
        assert forall|i: int| 0 <= i < self.kseq().len() implies self@.contains_key(
            #[trigger] self.kseq()[i].0@,
        ) && self@[self.kseq()[i].0@] == self.kseq()[i].1@ by {
            lemma_map_of_index(self.entries@, i);
        }
        assert forall|k: Seq<char>| self@.contains_key(k) implies (exists|i: int|
            0 <= i < self.kseq().len() && #[trigger] self.kseq()[i].0@ == k) by {
            lemma_map_of_contains(self.entries@, k);
            let i = choose|i: int| 0 <= i < self.entries@.len() && self.entries@[i].0@ == k;
            assert(self.kseq()[i].0@ == k);
        }
        assert forall|k: Seq<char>|
            (exists|i: int|
                0 <= i < self.kseq().len() && #[trigger] self.kseq()[i].0@
                    == k) implies self@.contains_key(k) by {
            lemma_map_of_contains(self.entries@, k);
        }
        lemma_map_len_of_kseq(self.entries@);
    }

    /// The map a keyspace denotes is exactly the map of its entries.
    pub proof fn lemma_view_is_map_of(&self)
        ensures
            self@ == map_of(self.kseq()),
    {
    }

    pub fn new() -> (r: KvList<V>)
        ensures
            r@ == Map::<Seq<char>, V::V>::empty(),
            r.wf(),
            r.inv(),
            r.kseq().len() == 0,
    {
        KvList { entries: Vec::new() }
    }

    /// How many keys the keyspace holds.
    pub fn len(&self) -> (n: usize)
        ensures
            n == self.kseq().len(),
    {
        self.entries.len()
    }

    /// The entry at one position of the insertion order.
    pub fn entry_at(&self, i: usize) -> (r: &(String, V))
        requires
            i < self.kseq().len(),
        ensures
            *r == self.kseq()[i as int],
    {
        &self.entries[i]
    }

    #[verifier::loop_isolation(false)]
    pub fn contains_key(&self, key: &String) -> (r: bool)
        ensures
            r == self@.contains_key(key@),
    {
        proof {
            lemma_map_of_contains(self.entries@, key@);
        }
        let n = self.entries.len();
        for i in 0..n
            invariant
                n == self.entries@.len(),
                forall|j: int| 0 <= j < i ==> self.entries@[j].0@ != key@,
        {
            if str_eq(&self.entries[i].0, key) {
                return true;
            }
        }
        false
    }

    /// The value under a key, if the key is present.
    #[verifier::loop_isolation(false)]
    pub fn get<'a>(&'a self, key: &String) -> (r: Option<&'a V>)
        requires
            self.wf(),
        ensures
            match r {
                Some(v) => self@.contains_key(key@) && v@ == self@[key@] && (self.inv()
                    ==> v.inv()),
                None => !self@.contains_key(key@),
            },
    {
        proof {
            lemma_map_of_contains(self.entries@, key@);
        }
        let n = self.entries.len();
        for i in 0..n
            invariant
                n == self.entries@.len(),
                self.wf(),
                forall|j: int| 0 <= j < i ==> self.entries@[j].0@ != key@,
        {
            if str_eq(&self.entries[i].0, key) {
                proof {
                    lemma_map_of_index(self.entries@, i as int);
                    if self.inv() {
                        assert(self.kseq()[i as int].1.inv());
                    }
                }
                return Some(&self.entries[i].1);
            }
        }
        None
    }

    /// Write a value under a key, replacing any prior value.
    #[verifier::loop_isolation(false)]
    pub fn put(&mut self, key: String, value: V)
        requires
            old(self).wf(),
        ensures
            final(self).wf(),
            final(self)@ == old(self)@.insert(key@, value@),
            old(self)@.contains_key(key@) ==> (exists|i: int|
                0 <= i < old(self).kseq().len() && #[trigger] old(self).kseq()[i].0@ == key@
                    && final(self).kseq() == old(self).kseq().update(i, (key, value))),
            !old(self)@.contains_key(key@) ==> final(self).kseq() == old(self).kseq().push(
                (key, value),
            ),
            old(self).inv() && value.inv() ==> final(self).inv(),
    {
        let n = self.entries.len();
        for i in 0..n
            invariant
                n == self.entries@.len(),
                self == old(self),
                forall|j: int| 0 <= j < i ==> self.entries@[j].0@ != key@,
        {
            if str_eq(&self.entries[i].0, &key) {
                let ghost prior = self.entries@;
                proof {
                    lemma_map_of_contains(prior, key@);
                }
                self.entries[i] = (key, value);
                proof {
                    lemma_map_of_update(prior, i as int, self.entries@[i as int]);
                    assert(old(self).kseq()[i as int].0@ == key@);
                    assert(self.kseq() =~= old(self).kseq().update(i as int, (key, value)));
                    if old(self).inv() && value.inv() {
                        assert forall|j: int|
                            0 <= j < self.kseq().len() implies #[trigger] self.kseq()[j].1.inv() by {
                            if j != i {
                                assert(self.kseq()[j] == old(self).kseq()[j]);
                                assert(old(self).kseq()[j].1.inv());
                            }
                        }
                    }
                }
                return ;
            }
        }
        let ghost prior = self.entries@;
        self.entries.push((key, value));
        proof {
            assert(self.entries@.drop_last() =~= prior);
            lemma_map_of_contains(prior, key@);
            if old(self).inv() && value.inv() {
                assert forall|j: int|
                    0 <= j < self.kseq().len() implies #[trigger] self.kseq()[j].1.inv() by {
                    if j < prior.len() {
                        assert(self.kseq()[j] == old(self).kseq()[j]);
                        assert(old(self).kseq()[j].1.inv());
                    } else {
                        assert(self.kseq()[j].1 == value);
                    }
                }
            }
        }
    }

    /// Drop a key and its value; a missing key is left alone.
    #[verifier::loop_isolation(false)]
    pub fn remove(&mut self, key: &String)
        requires
            old(self).wf(),
        ensures
            final(self).wf(),
            final(self)@ == old(self)@.remove(key@),
            old(self)@.contains_key(key@) ==> (exists|i: int|
                0 <= i < old(self).kseq().len() && #[trigger] old(self).kseq()[i].0@ == key@
                    && final(self).kseq() == old(self).kseq().remove(i)),
            !old(self)@.contains_key(key@) ==> final(self).kseq() == old(self).kseq(),
            old(self).inv() ==> final(self).inv(),
    {
        let n = self.entries.len();
        for i in 0..n
            invariant
                n == self.entries@.len(),
                self == old(self),
                forall|j: int| 0 <= j < i ==> self.entries@[j].0@ != key@,
        {
            if str_eq(&self.entries[i].0, key) {
                let ghost prior = self.entries@;
                proof {
                    lemma_map_of_contains(prior, key@);
                }
                self.entries.remove(i);
                proof {
                    lemma_map_of_remove(prior, i as int);
                    assert(old(self).kseq()[i as int].0@ == key@);
                    assert(self.kseq() == old(self).kseq().remove(i as int));
                    if old(self).inv() {
                        assert forall|j: int|
                            0 <= j < self.kseq().len() implies #[trigger] self.kseq()[j].1.inv() by {
                            let j0: int = if j < i { j } else { j + 1 };
                            assert(self.kseq()[j] == old(self).kseq()[j0]);
                            assert(old(self).kseq()[j0].1.inv());
                        }
                    }
                }
                return ;
            }
        }
        proof {
            lemma_map_of_contains(self.entries@, key@);
            assert(self@ =~= self@.remove(key@));
        }
    }
}

proof fn lemma_map_of_pointwise<V: View>(a: Seq<(String, V)>, b: Seq<(String, V)>)
    requires
        a.len() == b.len(),
        forall|i: int| 0 <= i < a.len() ==> a[i].0@ == b[i].0@ && a[i].1@ == b[i].1@,
    ensures
        map_of(a) == map_of(b),
        kuniq(a) == kuniq(b),
    decreases a.len(),
{
    if a.len() > 0 {
        lemma_map_of_pointwise(a.drop_last(), b.drop_last());
    } else {
        assert(map_of(a) =~= map_of(b));
    }
}

impl<V: Stored> Stored for KvList<V> {
    open spec fn inv(&self) -> bool {
        self.wf() && (forall|i: int|
            0 <= i < self.kseq().len() ==> #[trigger] self.kseq()[i].1.inv())
    }

    #[verifier::loop_isolation(false)]
    fn deep_clone(&self) -> (r: Self) {
        let mut entries: Vec<(String, V)> = Vec::new();
        let n = self.entries.len();
        for i in 0..n
            invariant
                n == self.entries@.len(),
                entries@.len() == i,
                forall|j: int| #![trigger entries@[j]]
                    0 <= j < i ==> entries@[j].0@ == self.entries@[j].0@ && entries@[j].1@
                        == self.entries@[j].1@ && entries@[j].1.inv()
                        == self.entries@[j].1.inv(),
        {
            let e = &self.entries[i];
            let c = e.0.clone();
            let d = e.1.deep_clone();
            entries.push((c, d));
            proof {
                assert(entries@[i as int].0@ == self.entries@[i as int].0@);
                assert(entries@[i as int].1@ == self.entries@[i as int].1@);
                assert(entries@[i as int].1.inv() == self.entries@[i as int].1.inv());
            }
        }
        let r = KvList { entries };
        proof {
            lemma_map_of_pointwise(r.entries@, self.entries@);
            if self.inv() {
                assert forall|i: int| 0 <= i < r.kseq().len() implies #[trigger] r.kseq()[i].1.inv() by {
                    assert(self.kseq()[i].1.inv());
                }
            }
            if r.inv() {
                assert forall|i: int| 0 <= i < self.kseq().len() implies #[trigger] self.kseq()[i].1.inv() by {
                    assert(r.kseq()[i].1.inv());
                }
            }
        }
        r
    }
}

proof fn lemma_map_len_of_kseq<V: View>(s: Seq<(String, V)>)
    requires
        kuniq(s),
    ensures
        map_of(s).dom().finite(),
        map_of(s).len() == s.len(),
    decreases s.len(),
{
    lemma_map_of_finite(s);
    if s.len() > 0 {
        assert(kuniq(s.drop_last()));
        lemma_map_len_of_kseq(s.drop_last());
        lemma_map_of_contains(s.drop_last(), s.last().0@);
        assert(!map_of(s.drop_last()).contains_key(s.last().0@));
    }
}

proof fn lemma_set_of_pointwise(a: Seq<String>, b: Seq<String>)
    requires
        a.len() == b.len(),
        forall|i: int| 0 <= i < a.len() ==> a[i]@ == b[i]@,
    ensures
        set_of(a) == set_of(b),
        uniq(a) == uniq(b),
    decreases a.len(),
{
    if a.len() > 0 {
        lemma_set_of_pointwise(a.drop_last(), b.drop_last());
    } else {
        assert(set_of(a) =~= set_of(b));
    }
}

proof fn lemma_remove_keeps_uniq(s: Seq<String>, i: int)
    requires
        uniq(s),
        0 <= i < s.len(),
    ensures
        uniq(s.remove(i)),
{
    assert forall|p: int, q: int| 0 <= p < q < s.remove(i).len() implies s.remove(i)[p]@
        != s.remove(i)[q]@ by {
        let p0: int = if p < i {
            p
        } else {
            p + 1
        };
        let q0: int = if q < i {
            q
        } else {
            q + 1
        };
        assert(s.remove(i)[p] == s[p0]);
        assert(s.remove(i)[q] == s[q0]);
    }
}

proof fn lemma_set_of_remove(s: Seq<String>, i: int)
    requires
        uniq(s),
        0 <= i < s.len(),
    ensures
        set_of(s.remove(i)) == set_of(s).remove(s[i]@),
    decreases s.len(),
{
    lemma_set_of_contains(s, s[i]@);
    lemma_set_of_contains(s.remove(i), s[i]@);
    if i == s.len() - 1 {
        assert(s.remove(i) =~= s.drop_last());
        assert(!set_of(s.drop_last()).contains(s[i]@)) by {
            lemma_set_of_contains(s.drop_last(), s[i]@);
        }
        assert(set_of(s.remove(i)) =~= set_of(s).remove(s[i]@));
    } else {
        lemma_set_of_remove(s.drop_last(), i);
        assert(s.remove(i).drop_last() =~= s.drop_last().remove(i));
        assert(s.remove(i).last() == s.last());
        assert(set_of(s.remove(i)) == set_of(s.drop_last().remove(i)).insert(s.last()@));
        assert(set_of(s.remove(i)) =~= set_of(s).remove(s[i]@));
    }
}

} // verus!
