//! A map from strings to strings, kept as a vector of entries in strictly
//! increasing key order.
use vstd::prelude::*;

verus! {

/// Lexicographic order on character sequences, by code point (the order of
/// `String`'s `Ord`).
pub open spec fn key_lt(a: Seq<char>, b: Seq<char>) -> bool
    decreases a.len(),
{
    if a.len() == 0 {
        b.len() > 0
    } else if b.len() == 0 {
        false
    } else if a[0] < b[0] {
        true
    } else if a[0] == b[0] {
        key_lt(a.drop_first(), b.drop_first())
    } else {
        false
    }
}

pub proof fn lemma_key_lt_irreflexive(a: Seq<char>)
    ensures
        !key_lt(a, a),
    decreases a.len(),
{
    if a.len() > 0 {
        lemma_key_lt_irreflexive(a.drop_first());
    }
}

pub proof fn lemma_key_lt_total(a: Seq<char>, b: Seq<char>)
    ensures
        a == b || key_lt(a, b) || key_lt(b, a),
    decreases a.len(),
{
    if a.len() > 0 && b.len() > 0 && a[0] == b[0] {
        lemma_key_lt_total(a.drop_first(), b.drop_first());
        if a.drop_first() == b.drop_first() {
            assert(a =~= seq![a[0]] + a.drop_first());
            assert(b =~= seq![b[0]] + b.drop_first());
        }
    } else if a.len() == 0 && b.len() == 0 {
        assert(a =~= b);
    }
}

pub proof fn lemma_key_lt_transitive(a: Seq<char>, b: Seq<char>, c: Seq<char>)
    requires
        key_lt(a, b),
        key_lt(b, c),
    ensures
        key_lt(a, c),
    decreases a.len(),
{
    if a.len() > 0 && b.len() > 0 && c.len() > 0 && a[0] == b[0] && b[0] == c[0] {
        lemma_key_lt_transitive(a.drop_first(), b.drop_first(), c.drop_first());
    }
}

/// Compares two strings in `key_lt` order: negative, zero or positive.
pub fn compare_keys(a: &str, b: &str) -> (r: i8)
    ensures
        r < 0 <==> key_lt(a@, b@),
        r == 0 <==> a@ == b@,
        r > 0 <==> key_lt(b@, a@),
{
    proof {
        lemma_key_lt_total(a@, b@);
        lemma_key_lt_irreflexive(a@);
        if key_lt(a@, b@) && key_lt(b@, a@) {
            lemma_key_lt_transitive(a@, b@, a@);
        }
    }
    let la = a.unicode_len();
    let lb = b.unicode_len();
    let mut i: usize = 0;
    assert(a@.skip(0) =~= a@);
    assert(b@.skip(0) =~= b@);
    while i < la && i < lb
        invariant
            la == a@.len(),
            lb == b@.len(),
            i <= la,
            i <= lb,
            a@.subrange(0, i as int) == b@.subrange(0, i as int),
            key_lt(a@, b@) == key_lt(a@.skip(i as int), b@.skip(i as int)),
            key_lt(b@, a@) == key_lt(b@.skip(i as int), a@.skip(i as int)),
        decreases la - i,
    {
        let ca = a.get_char(i);
        let cb = b.get_char(i);
        if ca < cb {
            return -1;
        }
        if cb < ca {
            return 1;
        }
        proof {
            assert(a@.skip(i as int).drop_first() =~= a@.skip(i + 1));
            assert(b@.skip(i as int).drop_first() =~= b@.skip(i + 1));
            assert(a@.subrange(0, i + 1) =~= a@.subrange(0, i as int).push(ca));
            assert(b@.subrange(0, i + 1) =~= b@.subrange(0, i as int).push(cb));
        }
        i = i + 1;
    }
    if la < lb {
        -1
    } else if lb < la {
        1
    } else {
        proof {
            assert(a@ =~= a@.subrange(0, i as int));
            assert(b@ =~= b@.subrange(0, i as int));
        }
        0
    }
}

/// String-to-string map whose entries stand in strictly increasing key order.
pub struct StrMap {
    pub entries: Vec<(String, String)>,
}

impl StrMap {
    /// The keys, in stored order.
    pub open spec fn keys_seq(&self) -> Seq<Seq<char>> {
        self.entries@.map_values(|e: (String, String)| e.0@)
    }

    /// The entries, in stored order.
    pub open spec fn pairs(&self) -> Seq<(Seq<char>, Seq<char>)> {
        self.entries@.map_values(|e: (String, String)| (e.0@, e.1@))
    }

    /// Keys strictly increase along the entries (so they are also distinct).
    pub open spec fn wf(&self) -> bool {
        forall|i: int, j: int|
            0 <= i < j < self.entries@.len() ==> key_lt(
                #[trigger] self.entries@[i].0@,
                #[trigger] self.entries@[j].0@,
            )
    }

    pub open spec fn key_at(&self, i: int) -> Seq<char> {
        self.entries@[i].0@
    }

    pub open spec fn value_at(&self, i: int) -> Seq<char> {
        self.entries@[i].1@
    }

    pub open spec fn has_key(&self, k: Seq<char>) -> bool {
        exists|i: int| 0 <= i < self.entries@.len() && #[trigger] self.key_at(i) == k
    }

    pub open spec fn index_of(&self, k: Seq<char>) -> int {
        choose|i: int| 0 <= i < self.entries@.len() && #[trigger] self.key_at(i) == k
    }

    pub open spec fn view(&self) -> Map<Seq<char>, Seq<char>> {
        Map::new(|k: Seq<char>| self.has_key(k), |k: Seq<char>| self.value_at(self.index_of(k)))
    }

    /// The value stored at the entry of a key, as seen through the map view.
    pub proof fn lemma_view_at(&self, i: int)
        requires
            self.wf(),
            0 <= i < self.entries@.len(),
        ensures
            self.view().contains_key(self.key_at(i)),
            self.view()[self.key_at(i)] == self.value_at(i),
    {
        let k = self.key_at(i);
        assert(self.has_key(k));
        let j = self.index_of(k);
        if j != i {
            if j < i {
                lemma_key_lt_irreflexive(k);
                assert(key_lt(self.entries@[j].0@, self.entries@[i].0@));
            } else {
                lemma_key_lt_irreflexive(k);
                assert(key_lt(self.entries@[i].0@, self.entries@[j].0@));
            }
        }
    }

    pub fn new() -> (r: StrMap)
        ensures
            r.wf(),
            r.entries@.len() == 0,
            r.view() == Map::<Seq<char>, Seq<char>>::empty(),
    {
        let r = StrMap { entries: Vec::new() };
        assert(r.view() =~= Map::<Seq<char>, Seq<char>>::empty());
        r
    }

    pub fn len(&self) -> (r: usize)
        ensures
            r == self.entries@.len(),
    {
        self.entries.len()
    }

    /// The key of the entry at `i`.
    pub fn key(&self, i: usize) -> (r: &String)
        requires
            i < self.entries@.len(),
        ensures
            r@ == self.key_at(i as int),
    {
        &self.entries[i].0
    }

    /// The value of the entry at `i`.
    pub fn value(&self, i: usize) -> (r: &String)
        requires
            i < self.entries@.len(),
        ensures
            r@ == self.value_at(i as int),
    {
        &self.entries[i].1
    }

    /// The position of the first entry whose key is not below `k`.
    fn lower_bound(&self, k: &str) -> (r: usize)
        requires
            self.wf(),
        ensures
            r <= self.entries@.len(),
            forall|i: int| 0 <= i < r ==> key_lt(#[trigger] self.key_at(i), k@),
            r < self.entries@.len() ==> !key_lt(self.key_at(r as int), k@),
    {
        let mut i: usize = 0;
        while i < self.entries.len()
            invariant
                i <= self.entries@.len(),
                forall|j: int| 0 <= j < i ==> key_lt(#[trigger] self.key_at(j), k@),
            decreases self.entries@.len() - i,
        {
            if compare_keys(self.entries[i].0.as_str(), k) >= 0 {
                return i;
            }
            i = i + 1;
        }
        i
    }

    /// The value stored under `k`, if any.
    pub fn get(&self, k: &str) -> (r: Option<&String>)
        requires
            self.wf(),
        ensures
            r.is_some() == self.view().contains_key(k@),
            r.is_some() ==> r.unwrap()@ == self.view()[k@],
    {
        let p = self.lower_bound(k);
        if p < self.entries.len() && compare_keys(self.entries[p].0.as_str(), k) == 0 {
            proof {
                self.lemma_view_at(p as int);
            }
            Some(&self.entries[p].1)
        } else {
            proof {
                if self.has_key(k@) {
                    let j = choose|j: int| 0 <= j < self.entries@.len() && #[trigger] self.key_at(j) == k@;
                    lemma_key_lt_irreflexive(k@);
                    if (j as int) > (p as int) {
                        lemma_key_lt_total(self.key_at(p as int), k@);
                        assert(key_lt(self.key_at(p as int), self.key_at(j)));
                    }
                }
            }
            None
        }
    }

    pub fn contains(&self, k: &str) -> (r: bool)
        requires
            self.wf(),
        ensures
            r == self.view().contains_key(k@),
    {
        self.get(k).is_some()
    }

    /// Stores `v` under `k`, replacing any value that was there.
    pub fn insert(&mut self, k: String, v: String)
        requires
            old(self).wf(),
        ensures
            final(self).wf(),
            final(self).view() == old(self).view().insert(k@, v@),
    {
        let p = self.lower_bound(k.as_str());
        let ghost old_self = *self;
        if p < self.entries.len() && compare_keys(self.entries[p].0.as_str(), k.as_str()) == 0 {
            self.entries.set(p, (k, v));
            proof {
                assert(self.key_at(p as int) == old_self.key_at(p as int));
                assert(forall|i: int| 0 <= i < self.entries@.len() ==> #[trigger] self.key_at(i) == old_self.key_at(i));
                assert forall|i: int, j: int| 0 <= i < j < self.entries@.len() implies key_lt(
                    #[trigger] self.entries@[i].0@,
                    #[trigger] self.entries@[j].0@,
                ) by {
                    assert(old_self.key_at(i) == self.key_at(i));
                    assert(old_self.key_at(j) == self.key_at(j));
                    assert(key_lt(old_self.entries@[i].0@, old_self.entries@[j].0@));
                }
                self.lemma_view_same_keys(&old_self, p as int);
            }
        } else {
            let ghost kv = k@;
            let ghost vv = v@;
            self.entries.insert(p, (k, v));
            proof {
                if p < old_self.entries@.len() {
                    lemma_key_lt_total(old_self.key_at(p as int), kv);
                }
                assert forall|i: int, j: int| 0 <= i < j < self.entries@.len() implies key_lt(
                    #[trigger] self.entries@[i].0@,
                    #[trigger] self.entries@[j].0@,
                ) by {
                    assert(self.entries@ == old_self.entries@.insert(p as int, self.entries@[p as int]));
                    if j < p {
                        assert(key_lt(old_self.entries@[i].0@, old_self.entries@[j].0@));
                    } else if j == p {
                        assert(key_lt(old_self.key_at(i), kv));
                    } else if i < p {
                        assert(key_lt(old_self.key_at(i), kv));
                        if j - 1 > p {
                            assert(key_lt(old_self.entries@[p as int].0@, old_self.entries@[j - 1].0@));
                            lemma_key_lt_transitive(kv, old_self.key_at(p as int), old_self.key_at(j - 1));
                        }
                        lemma_key_lt_transitive(old_self.key_at(i), kv, old_self.key_at(j - 1));
                    } else if i == p {
                        if j - 1 > p {
                            assert(key_lt(old_self.entries@[p as int].0@, old_self.entries@[j - 1].0@));
                            lemma_key_lt_transitive(kv, old_self.key_at(p as int), old_self.key_at(j - 1));
                        }
                    } else {
                        assert(key_lt(old_self.entries@[i - 1].0@, old_self.entries@[j - 1].0@));
                    }
                }
                self.lemma_view_after_insert(&old_self, p as int, kv, vv);
            }
        }
    }

    proof fn lemma_view_same_keys(&self, old_self: &StrMap, p: int)
        requires
            old_self.wf(),
            self.wf(),
            0 <= p < self.entries@.len(),
            self.entries@.len() == old_self.entries@.len(),
            forall|i: int| 0 <= i < self.entries@.len() ==> #[trigger] self.key_at(i) == old_self.key_at(i),
            forall|i: int| 0 <= i < self.entries@.len() && i != p ==> #[trigger] self.value_at(i) == old_self.value_at(i),
        ensures
            self.view() == old_self.view().insert(self.key_at(p), self.value_at(p)),
    {
        let m = old_self.view().insert(self.key_at(p), self.value_at(p));
        assert forall|k: Seq<char>| #[trigger] self.view().contains_key(k) == m.contains_key(k) by {
            if self.has_key(k) {
                let i = choose|i: int| 0 <= i < self.entries@.len() && #[trigger] self.key_at(i) == k;
                assert(old_self.key_at(i) == k);
            }
            if old_self.has_key(k) {
                let i = choose|i: int| 0 <= i < old_self.entries@.len() && #[trigger] old_self.key_at(i) == k;
                assert(self.key_at(i) == k);
            }
        }
        assert forall|k: Seq<char>| #[trigger] self.view().contains_key(k) implies self.view()[k] == m[k] by {
            let i = choose|i: int| 0 <= i < self.entries@.len() && #[trigger] self.key_at(i) == k;
            self.lemma_view_at(i);
            if i != p {
                assert(old_self.key_at(i) == k);
                old_self.lemma_view_at(i);
                lemma_key_lt_irreflexive(k);
                if i < p {
                    assert(key_lt(self.entries@[i].0@, self.entries@[p].0@));
                } else {
                    assert(key_lt(self.entries@[p].0@, self.entries@[i].0@));
                }
            }
        }
        assert(self.view() =~= m);
    }

    proof fn lemma_view_after_insert(&self, old_self: &StrMap, p: int, kv: Seq<char>, vv: Seq<char>)
        requires
            old_self.wf(),
            self.wf(),
            0 <= p <= old_self.entries@.len(),
            self.entries@.len() == old_self.entries@.len() + 1,
            self.key_at(p) == kv,
            self.value_at(p) == vv,
            forall|i: int| 0 <= i < p ==> #[trigger] self.entries@[i] == old_self.entries@[i],
            forall|i: int| p < i < self.entries@.len() ==> #[trigger] self.entries@[i] == old_self.entries@[i - 1],
        ensures
            self.view() == old_self.view().insert(kv, vv),
    {
        let m = old_self.view().insert(kv, vv);
        assert forall|k: Seq<char>| #[trigger] self.view().contains_key(k) == m.contains_key(k) by {
            if self.has_key(k) {
                let i = choose|i: int| 0 <= i < self.entries@.len() && #[trigger] self.key_at(i) == k;
                if i < p {
                    assert(old_self.key_at(i) == k);
                } else if i > p {
                    assert(old_self.key_at(i - 1) == k);
                }
            }
            if old_self.has_key(k) {
                let i = choose|i: int| 0 <= i < old_self.entries@.len() && #[trigger] old_self.key_at(i) == k;
                if i < p {
                    assert(self.key_at(i) == k);
                } else {
                    assert(self.key_at(i + 1) == k);
                }
            }
        }
        assert forall|k: Seq<char>| #[trigger] self.view().contains_key(k) implies self.view()[k] == m[k] by {
            let i = choose|i: int| 0 <= i < self.entries@.len() && #[trigger] self.key_at(i) == k;
            self.lemma_view_at(i);
            if i < p {
                assert(old_self.key_at(i) == k);
                old_self.lemma_view_at(i);
                lemma_key_lt_irreflexive(k);
            } else if i > p {
                assert(old_self.key_at(i - 1) == k);
                old_self.lemma_view_at(i - 1);
                lemma_key_lt_irreflexive(k);
            }
        }
        assert(self.view() =~= m);
    }
}

} // verus!
