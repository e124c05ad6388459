use vstd::prelude::*;
use crate::text::{chars_lt, lemma_chars_lt_irrefl, lemma_chars_lt_total, lemma_chars_lt_trans, str_lt};

verus! {

/// The views (as character sequences) of a sequence of strings.
pub open spec fn views_set(vs: Seq<String>) -> Set<Seq<char>> {
    Set::new(|x: Seq<char>| exists|j: int| 0 <= j < vs.len() && vs[j]@ == x)
}

/// No two strings of the sequence have the same characters.
pub open spec fn distinct_views(vs: Seq<String>) -> bool {
    forall|a: int, b: int| 0 <= a < b < vs.len() ==> vs[a]@ != vs[b]@
}

/// The views are in strictly ascending lexicographic order.
pub open spec fn sorted_views(vs: Seq<String>) -> bool {
    forall|i: int, j: int| 0 <= i < j < vs.len() ==> chars_lt((#[trigger] vs[i])@, (#[trigger] vs[j])@)
}

/// Sorts strings with pairwise distinct views into ascending lexicographic
/// order, keeping exactly their views.
pub fn sort_strings(v: Vec<String>) -> (r: Vec<String>)
    requires
        distinct_views(v@),
    ensures
        distinct_views(r@),
        sorted_views(r@),
        views_set(r@) == views_set(v@),
{
    let mut rem = v;
    let mut out: Vec<String> = Vec::new();
    while rem.len() > 0
        invariant
            distinct_views(rem@),
            distinct_views(out@),
            sorted_views(out@),
            forall|x: int, y: int|
                0 <= x < out@.len() && 0 <= y < rem@.len() ==> chars_lt(
                    (#[trigger] out@[x])@,
                    (#[trigger] rem@[y])@,
                ),
            views_set(out@).union(views_set(rem@)) == views_set(v@),
        decreases rem@.len(),
    {
        let n = rem.len();
        let mut mi: usize = 0;
        let mut k: usize = 1;
        proof {
            lemma_chars_lt_irrefl(rem@[0]@);
        }
        while k < n
            invariant
                n == rem@.len(),
                0 < n,
                mi < k,
                k <= n,
                forall|j: int|
                    0 <= j < k ==> !chars_lt((#[trigger] rem@[j])@, rem@[mi as int]@),
            decreases n - k,
        {
            if str_lt(&rem[k], &rem[mi]) {
                let ghost old_mi = mi as int;
                mi = k;
                proof {
                    assert forall|j: int| 0 <= j < k + 1 implies !chars_lt(
                        (#[trigger] rem@[j])@,
                        rem@[mi as int]@,
                    ) by {
                        if j < k {
                            if chars_lt(rem@[j]@, rem@[k as int]@) {
                                lemma_chars_lt_trans(
                                    rem@[j]@,
                                    rem@[k as int]@,
                                    rem@[old_mi]@,
                                );
                            }
                        } else {
                            lemma_chars_lt_irrefl(rem@[k as int]@);
                        }
                    }
                }
            }
            k += 1;
        }
        proof {
            assert forall|j: int| 0 <= j < n && j != mi implies chars_lt(
                rem@[mi as int]@,
                (#[trigger] rem@[j])@,
            ) by {
                assert(!chars_lt(rem@[j]@, rem@[mi as int]@));
                if j < mi {
                    assert(rem@[j]@ != rem@[mi as int]@);
                } else {
                    assert(rem@[mi as int]@ != rem@[j]@);
                }
                lemma_chars_lt_total(rem@[mi as int]@, rem@[j]@);
            }
        }
        let ghost old_rem = rem@;
        let ghost old_out = out@;
        let picked = rem.remove(mi);
        out.push(picked);
        proof {
            let mv = old_rem[mi as int]@;
            lemma_views_set_push(old_out, old_rem[mi as int]);
            lemma_views_set_remove(old_rem, mi as int, mv);
            assert forall|x: int, y: int| 0 <= x < y < out@.len() implies chars_lt(
                (#[trigger] out@[x])@,
                (#[trigger] out@[y])@,
            ) by {
                if y == out@.len() - 1 {
                    assert(chars_lt(old_out[x]@, old_rem[mi as int]@));
                } else {
                    assert(chars_lt(old_out[x]@, old_out[y]@));
                }
            }
            assert forall|x: int, y: int| 0 <= x < y < out@.len() implies (#[trigger] out@[x])@
                != (#[trigger] out@[y])@ by {
                if y == out@.len() - 1 {
                    assert(chars_lt(old_out[x]@, mv));
                    if out@[x]@ == mv {
                        lemma_chars_lt_irrefl(mv);
                    }
                } else {
                    assert(old_out[x]@ != old_out[y]@);
                }
            }
            assert forall|x: int, y: int|
                0 <= x < out@.len() && 0 <= y < rem@.len() implies chars_lt(
                (#[trigger] out@[x])@,
                (#[trigger] rem@[y])@,
            ) by {
                let oy = if y < mi { y } else { y + 1 };
                assert(rem@[y] == old_rem[oy]);
                if x < out@.len() - 1 {
                    assert(chars_lt(old_out[x]@, old_rem[oy]@));
                } else {
                    assert(chars_lt(old_rem[mi as int]@, old_rem[oy]@));
                }
            }
            assert(views_set(old_rem).contains(mv));
            assert(views_set(out@).union(views_set(rem@)) =~= views_set(old_out).union(
                views_set(old_rem),
            ));
        }
    }
    proof {
        assert(views_set(rem@) =~= Set::<Seq<char>>::empty());
        assert(views_set(out@) =~= views_set(out@).union(views_set(rem@)));
    }
    out
}

/// Removing one value from the set a key maps to, dropping the key when its
/// set becomes empty; the identity when the key is absent.
pub open spec fn map_remove_val(
    m: Map<Seq<char>, Set<Seq<char>>>,
    k: Seq<char>,
    v: Seq<char>,
) -> Map<Seq<char>, Set<Seq<char>>> {
    if m.dom().contains(k) {
        if m[k].remove(v) == Set::<Seq<char>>::empty() {
            m.remove(k)
        } else {
            m.insert(k, m[k].remove(v))
        }
    } else {
        m
    }
}

/// One direction of the index: a map from a string key to a non-empty set of
/// string values, stored as an association list with pairwise distinct keys.
pub(crate) struct SubscriptionHashMap {
    entries: Vec<(String, Vec<String>)>,
}

impl SubscriptionHashMap {
    pub(crate) closed spec fn key_at(self, i: int) -> Seq<char> {
        self.entries@[i].0@
    }

    pub(crate) closed spec fn vals_at(self, i: int) -> Seq<String> {
        self.entries@[i].1@
    }

    pub(crate) closed spec fn num_entries(self) -> int {
        self.entries@.len() as int
    }

    pub(crate) open spec fn has_key(self, k: Seq<char>) -> bool {
        exists|i: int| 0 <= i < self.num_entries() && self.key_at(i) == k
    }

    pub(crate) open spec fn wf(self) -> bool {
        &&& forall|i: int, j: int|
            0 <= i < j < self.num_entries() ==> self.key_at(i) != self.key_at(j)
        &&& forall|i: int| 0 <= i < self.num_entries() ==> self.vals_at(i).len() > 0
        &&& forall|i: int| 0 <= i < self.num_entries() ==> distinct_views(self.vals_at(i))
    }

    /// The abstract contents: key views mapped to the set of value views.
    pub(crate) open spec fn m(self) -> Map<Seq<char>, Set<Seq<char>>> {
        Map::new(
            |k: Seq<char>| self.has_key(k),
            |k: Seq<char>|
                views_set(
                    self.vals_at(
                        choose|i: int| 0 <= i < self.num_entries() && self.key_at(i) == k,
                    ),
                ),
        )
    }

    /// Under distinct keys, the entry at `i` is what the map holds for its key.
    pub(crate) proof fn lemma_at(self, i: int)
        requires
            self.wf(),
            0 <= i < self.num_entries(),
        ensures
            self.m().dom().contains(self.key_at(i)),
            self.m()[self.key_at(i)] == views_set(self.vals_at(i)),
    {
        assert(self.has_key(self.key_at(i)));
        let j = choose|j: int| 0 <= j < self.num_entries() && self.key_at(j) == self.key_at(i);
        if i < j {
            assert(self.key_at(i) != self.key_at(j));
        } else if j < i {
            assert(self.key_at(j) != self.key_at(i));
        }
        assert(j == i);
    }

    /// Every key of the map holds a non-empty set.
    pub(crate) proof fn lemma_nonempty(self, k: Seq<char>)
        requires
            self.wf(),
            self.has_key(k),
        ensures
            exists|x: Seq<char>| self.m()[k].contains(x),
    {
        let i = choose|i: int| 0 <= i < self.num_entries() && self.key_at(i) == k;
        self.lemma_at(i);
        assert(self.m()[k].contains(self.vals_at(i)[0]@));
    }

    pub(crate) fn new() -> (r: SubscriptionHashMap)
        ensures
            r.wf(),
            r.m() == Map::<Seq<char>, Set<Seq<char>>>::empty(),
    {
        let r = SubscriptionHashMap { entries: Vec::new() };
        proof {
            assert(r.m() =~= Map::<Seq<char>, Set<Seq<char>>>::empty());
        }
        r
    }

    /// The index of the entry holding `key`, if one does.
    fn find_key(&self, key: &String) -> (r: Option<usize>)
        ensures
            match r {
                Some(i) => i < self.num_entries() && self.key_at(i as int) == key@,
                None => !self.has_key(key@),
            },
    {
        let n = self.entries.len();
        let mut i: usize = 0;
        while i < n
            invariant
                i <= n,
                n == self.num_entries(),
                forall|j: int| 0 <= j < i ==> self.key_at(j) != key@,
            decreases n - i,
        {
            if self.entries[i].0 == *key {
                return Some(i);
            }
            i += 1;
        }
        None
    }

    /// The values under `key`, ascending; empty when the key is absent.
    pub(crate) fn get(&self, key: &String) -> (r: Vec<String>)
        requires
            self.wf(),
        ensures
            distinct_views(r@),
            sorted_views(r@),
            views_set(r@) == if self.has_key(key@) {
                self.m()[key@]
            } else {
                Set::<Seq<char>>::empty()
            },
    {
        match self.find_key(key) {
            None => {
                let r: Vec<String> = Vec::new();
                proof {
                    assert(views_set(r@) =~= Set::<Seq<char>>::empty());
                }
                r
            },
            Some(i) => {
                let src = &self.entries[i].1;
                let n = src.len();
                let mut out: Vec<String> = Vec::new();
                let mut j: usize = 0;
                while j < n
                    invariant
                        j <= n,
                        n == src@.len(),
                        out@.len() == j,
                        forall|a: int| 0 <= a < j ==> out@[a]@ == src@[a]@,
                    decreases n - j,
                {
                    out.push(src[j].clone());
                    j += 1;
                }
                proof {
                    self.lemma_at(i as int);
                    assert(views_set(out@) =~= views_set(self.vals_at(i as int)));
                }
                sort_strings(out)
            },
        }
    }

    /// Adds `value` under `key`; reports whether the key itself was created.
    pub(crate) fn insert(&mut self, key: &String, value: &String) -> (row_change: bool)
        requires
            old(self).wf(),
        ensures
            final(self).wf(),
            row_change == !old(self).has_key(key@),
            final(self).m() == old(self).m().insert(
                key@,
                (if old(self).has_key(key@) {
                    old(self).m()[key@]
                } else {
                    Set::<Seq<char>>::empty()
                }).insert(value@),
            ),
    {
        match self.find_key(key) {
            None => {
                let mut vs: Vec<String> = Vec::new();
                vs.push(value.clone());
                self.entries.push((key.clone(), vs));
                proof {
                    let oldm = old(self).m();
                    let n = old(self).num_entries();
                    assert(forall|i: int|
                        0 <= i < n ==> self.key_at(i) == old(self).key_at(i) && self.vals_at(i)
                            == old(self).vals_at(i));
                    assert(self.key_at(n) == key@);
                    assert(self.vals_at(n) =~= seq![*value]);
                    assert(self.wf());
                    self.lemma_at(n);
                    lemma_views_set_push(Seq::<String>::empty(), *value);
                    assert(seq![*value] =~= Seq::<String>::empty().push(*value));
                    assert(views_set(Seq::<String>::empty()) =~= Set::<Seq<char>>::empty());
                    assert(views_set(seq![*value]) == Set::<Seq<char>>::empty().insert(value@));
                    assert forall|k2: Seq<char>| #[trigger] old(self).has_key(k2) implies self.has_key(
                        k2,
                    ) && self.m()[k2] == oldm[k2] by {
                        let i = choose|i: int| 0 <= i < n && old(self).key_at(i) == k2;
                        old(self).lemma_at(i);
                        self.lemma_at(i);
                    }
                    assert forall|k2: Seq<char>| self.has_key(k2) && k2 != key@ implies old(
                        self,
                    ).has_key(k2) by {
                        let i = choose|i: int|
                            0 <= i < self.num_entries() && self.key_at(i) == k2;
                        assert(i < n);
                    }
                    assert(self.m() =~= oldm.insert(
                        key@,
                        Set::<Seq<char>>::empty().insert(value@),
                    ));
                }
                true
            },
            Some(i) => {
                let present = {
                    let vs = &self.entries[i].1;
                    let n = vs.len();
                    let mut found = false;
                    let mut j: usize = 0;
                    while j < n
                        invariant
                            j <= n,
                            n == vs@.len(),
                            found == exists|a: int| 0 <= a < j && vs@[a]@ == value@,
                        decreases n - j,
                    {
                        if vs[j] == *value {
                            found = true;
                        }
                        j += 1;
                    }
                    found
                };
                proof {
                    self.lemma_at(i as int);
                    assert(self.m()[key@] == views_set(self.vals_at(i as int)));
                }
                if present {
                    proof {
                        let oldm = old(self).m();
                        assert(oldm[key@].contains(value@));
                        assert(oldm[key@].insert(value@) =~= oldm[key@]);
                        assert(oldm.insert(key@, oldm[key@]) =~= oldm);
                    }
                    false
                } else {
                    let mut entry = self.entries.remove(i);
                    entry.1.push(value.clone());
                    self.entries.insert(i, entry);
                    proof {
                        let oldm = old(self).m();
                        let n = old(self).num_entries();
                        assert(self.entries@ =~= old(self).entries@.update(
                            i as int,
                            (old(self).entries@[i as int].0, self.entries@[i as int].1),
                        ));
                        assert(self.vals_at(i as int) =~= old(self).vals_at(i as int).push(
                            *value,
                        ));
                        assert(forall|a: int|
                            0 <= a < n && a != i ==> self.key_at(a) == old(self).key_at(a)
                                && self.vals_at(a) == old(self).vals_at(a));
                        assert(self.key_at(i as int) == key@);
                        assert(distinct_views(self.vals_at(i as int))) by {
                            let vs = old(self).vals_at(i as int);
                            assert(forall|a: int|
                                0 <= a < vs.len() ==> #[trigger] vs[a]@ != value@);
                        }
                        assert(self.wf());
                        self.lemma_at(i as int);
                        lemma_views_set_push(old(self).vals_at(i as int), *value);
                        assert(views_set(old(self).vals_at(i as int).push(*value)) == views_set(
                            old(self).vals_at(i as int),
                        ).insert(value@));
                        assert forall|k2: Seq<char>| #[trigger] old(self).has_key(k2) && k2 != key@
                            implies self.has_key(k2) && self.m()[k2] == oldm[k2] by {
                            let a = choose|a: int| 0 <= a < n && old(self).key_at(a) == k2;
                            old(self).lemma_at(a);
                            self.lemma_at(a);
                        }
                        assert forall|k2: Seq<char>| self.has_key(k2) implies old(self).has_key(
                            k2,
                        ) by {
                            let a = choose|a: int|
                                0 <= a < self.num_entries() && self.key_at(a) == k2;
                        }
                        assert(self.m() =~= oldm.insert(key@, oldm[key@].insert(value@)));
                    }
                    false
                }
            },
        }
    }

    /// Removes `value` under `key`; reports whether the key was dropped
    /// because its set became empty.
    pub(crate) fn remove(&mut self, key: &String, value: &String) -> (row_change: bool)
        requires
            old(self).wf(),
        ensures
            final(self).wf(),
            row_change == (old(self).has_key(key@) && old(self).m()[key@] == set![value@]),
            final(self).m() == map_remove_val(old(self).m(), key@, value@),
    {
        match self.find_key(key) {
            None => {
                proof {
                    assert(self.m() == map_remove_val(old(self).m(), key@, value@));
                }
                false
            },
            Some(i) => {
                let pos = {
                    let vs = &self.entries[i].1;
                    let n = vs.len();
                    let mut r: Option<usize> = None;
                    let mut j: usize = 0;
                    while j < n
                        invariant
                            j <= n,
                            n == vs@.len(),
                            match r {
                                Some(p) => p < j && vs@[p as int]@ == value@,
                                None => forall|a: int| 0 <= a < j ==> vs@[a]@ != value@,
                            },
                        decreases n - j,
                    {
                        if r.is_none() && vs[j] == *value {
                            r = Some(j);
                        }
                        j += 1;
                    }
                    r
                };
                proof {
                    self.lemma_at(i as int);
                }
                match pos {
                    None => {
                        proof {
                            let oldm = old(self).m();
                            assert(!oldm[key@].contains(value@));
                            assert(oldm[key@].remove(value@) =~= oldm[key@]);
                            old(self).lemma_nonempty(key@);
                            assert(oldm[key@].remove(value@) != Set::<Seq<char>>::empty()) by {
                                let x = choose|x: Seq<char>| oldm[key@].contains(x);
                                assert(oldm[key@].remove(value@).contains(x));
                            }
                            assert(oldm.insert(key@, oldm[key@]) =~= oldm);
                            assert(oldm[key@] != set![value@]) by {
                                assert(set![value@].contains(value@));
                            }
                        }
                        false
                    },
                    Some(p) => {
                        let mut entry = self.entries.remove(i);
                        entry.1.remove(p);
                        proof {
                            let vs = old(self).vals_at(i as int);
                            assert(entry.1@ =~= vs.remove(p as int));
                            lemma_views_set_remove(vs, p as int, value@);
                        }
                        if entry.1.len() == 0 {
                            proof {
                                let oldm = old(self).m();
                                let n = old(self).num_entries();
                                let vs = old(self).vals_at(i as int);
                                assert(vs.len() == 1);
                                assert(oldm[key@] =~= set![value@]) by {
                                    assert(forall|x: Seq<char>|
                                        views_set(vs).contains(x) ==> x == vs[0]@);
                                    assert(views_set(vs).contains(vs[0]@));
                                }
                                assert(self.entries@ =~= old(self).entries@.remove(i as int));
                                assert(forall|a: int|
                                    0 <= a < i ==> self.key_at(a) == old(self).key_at(a)
                                        && self.vals_at(a) == old(self).vals_at(a));
                                assert(forall|a: int|
                                    i <= a < n - 1 ==> self.key_at(a) == old(self).key_at(a + 1)
                                        && self.vals_at(a) == old(self).vals_at(a + 1));
                                assert(self.wf());
                                assert(oldm[key@].remove(value@) =~= Set::<Seq<char>>::empty());
                                assert forall|k2: Seq<char>| #[trigger] old(self).has_key(k2) && k2
                                    != key@ implies self.has_key(k2) && self.m()[k2] == oldm[k2] by {
                                    let a = choose|a: int|
                                        0 <= a < n && old(self).key_at(a) == k2;
                                    old(self).lemma_at(a);
                                    if a < i {
                                        self.lemma_at(a);
                                    } else {
                                        assert(a != i);
                                        self.lemma_at(a - 1);
                                    }
                                }
                                assert forall|k2: Seq<char>| self.has_key(k2) implies old(
                                    self,
                                ).has_key(k2) && k2 != key@ by {
                                    let a = choose|a: int|
                                        0 <= a < self.num_entries() && self.key_at(a) == k2;
                                    if a < i {
                                        assert(old(self).key_at(a) == k2);
                                        assert(a != i);
                                    } else {
                                        assert(old(self).key_at(a + 1) == k2);
                                        assert(a + 1 != i);
                                    }
                                }
                                assert(self.m() =~= oldm.remove(key@));
                            }
                            true
                        } else {
                            self.entries.insert(i, entry);
                            proof {
                                let oldm = old(self).m();
                                let n = old(self).num_entries();
                                let vs = old(self).vals_at(i as int);
                                assert(self.entries@ =~= old(self).entries@.update(
                                    i as int,
                                    (old(self).entries@[i as int].0, self.entries@[i as int].1),
                                ));
                                assert(self.vals_at(i as int) =~= vs.remove(p as int));
                                assert(forall|a: int|
                                    0 <= a < n && a != i ==> self.key_at(a) == old(self).key_at(a)
                                        && self.vals_at(a) == old(self).vals_at(a));
                                assert(self.wf());
                                self.lemma_at(i as int);
                                let after = vs.remove(p as int);
                                assert(views_set(after).contains(after[0]@));
                                assert(oldm[key@].remove(value@).contains(after[0]@));
                                assert(oldm[key@].remove(value@) != Set::<Seq<char>>::empty());
                                assert(oldm[key@] != set![value@]) by {
                                    assert(oldm[key@].contains(after[0]@) && after[0]@ != value@);
                                    assert(!set![value@].contains(after[0]@));
                                }
                                assert forall|k2: Seq<char>| #[trigger] old(self).has_key(k2) && k2
                                    != key@ implies self.has_key(k2) && self.m()[k2] == oldm[k2] by {
                                    let a = choose|a: int|
                                        0 <= a < n && old(self).key_at(a) == k2;
                                    old(self).lemma_at(a);
                                    self.lemma_at(a);
                                }
                                assert forall|k2: Seq<char>| self.has_key(k2) implies old(
                                    self,
                                ).has_key(k2) by {
                                    let a = choose|a: int|
                                        0 <= a < self.num_entries() && self.key_at(a) == k2;
                                }
                                assert(self.m() =~= oldm.insert(key@, oldm[key@].remove(value@)));
                            }
                            false
                        }
                    },
                }
            },
        }
    }

    /// Drops `key` and everything under it.
    pub(crate) fn remove_all(&mut self, key: &String)
        requires
            old(self).wf(),
        ensures
            final(self).wf(),
            final(self).m() == old(self).m().remove(key@),
    {
        match self.find_key(key) {
            None => {
                proof {
                    assert(self.m() =~= old(self).m().remove(key@));
                }
            },
            Some(i) => {
                self.entries.remove(i);
                proof {
                    let oldm = old(self).m();
                    let n = old(self).num_entries();
                    assert(self.entries@ =~= old(self).entries@.remove(i as int));
                    assert(forall|a: int|
                        0 <= a < i ==> self.key_at(a) == old(self).key_at(a) && self.vals_at(a)
                            == old(self).vals_at(a));
                    assert(forall|a: int|
                        i <= a < n - 1 ==> self.key_at(a) == old(self).key_at(a + 1)
                            && self.vals_at(a) == old(self).vals_at(a + 1));
                    assert(self.wf());
                    assert forall|k2: Seq<char>| #[trigger] old(self).has_key(k2) && k2 != key@
                        implies self.has_key(k2) && self.m()[k2] == oldm[k2] by {
                        let a = choose|a: int| 0 <= a < n && old(self).key_at(a) == k2;
                        old(self).lemma_at(a);
                        if a < i {
                            self.lemma_at(a);
                        } else {
                            assert(a != i);
                            self.lemma_at(a - 1);
                        }
                    }
                    assert forall|k2: Seq<char>| self.has_key(k2) implies old(self).has_key(k2)
                        && k2 != key@ by {
                        let a = choose|a: int|
                            0 <= a < self.num_entries() && self.key_at(a) == k2;
                        if a < i {
                            assert(old(self).key_at(a) == k2);
                            assert(a != i);
                        } else {
                            assert(old(self).key_at(a + 1) == k2);
                            assert(a + 1 != i);
                        }
                    }
                    assert(self.m() =~= oldm.remove(key@));
                }
            },
        }
    }
}

/// A key maps to a set containing the value.
pub open spec fn pair_in(m: Map<Seq<char>, Set<Seq<char>>>, k: Seq<char>, v: Seq<char>) -> bool {
    m.dom().contains(k) && m[k].contains(v)
}

/// Adding one value to the set a key maps to, creating the key when absent.
pub open spec fn map_add_val(
    m: Map<Seq<char>, Set<Seq<char>>>,
    k: Seq<char>,
    v: Seq<char>,
) -> Map<Seq<char>, Set<Seq<char>>> {
    m.insert(
        k,
        (if m.dom().contains(k) {
            m[k]
        } else {
            Set::<Seq<char>>::empty()
        }).insert(v),
    )
}

/// How `map_remove_val` acts on single pairs.
pub proof fn lemma_map_remove_val_pair(
    m: Map<Seq<char>, Set<Seq<char>>>,
    k: Seq<char>,
    v: Seq<char>,
    k2: Seq<char>,
    v2: Seq<char>,
)
    ensures
        pair_in(map_remove_val(m, k, v), k2, v2) <==> (pair_in(m, k2, v2) && !(k2 == k && v2
            == v)),
{
    if m.dom().contains(k) {
        if m[k].remove(v) == Set::<Seq<char>>::empty() {
            if k2 == k {
                assert forall|x: Seq<char>| m[k].contains(x) implies x == v by {
                    if x != v {
                        assert(m[k].remove(v).contains(x));
                    }
                }
            }
        }
    }
}

/// The topic appears among the first `k` strings of the sequence.
pub open spec fn in_prefix(ts: Seq<String>, k: int, t: Seq<char>) -> bool {
    exists|j: int| 0 <= j < k && ts[j]@ == t
}

/// The bidirectional subscription index of one gateway instance: which
/// sockets subscribe to a topic, and which topics a socket subscribes to,
/// kept mutually consistent behind a single mutation interface.
pub struct SubscriptionTable {
    topic_subscriptions: SubscriptionHashMap,
    socket_subscriptions: SubscriptionHashMap,
}

impl SubscriptionTable {
    /// Topic view: each present topic mapped to its non-empty set of sockets.
    pub closed spec fn topic_sockets(self) -> Map<Seq<char>, Set<Seq<char>>> {
        self.topic_subscriptions.m()
    }

    /// Socket view: each present socket mapped to its non-empty set of topics.
    pub closed spec fn socket_topics(self) -> Map<Seq<char>, Set<Seq<char>>> {
        self.socket_subscriptions.m()
    }

    /// The socket currently subscribes to the topic.
    pub open spec fn subscribed(self, s: Seq<char>, t: Seq<char>) -> bool {
        pair_in(self.topic_sockets(), t, s)
    }

    pub open spec fn topic_present(self, t: Seq<char>) -> bool {
        self.topic_sockets().dom().contains(t)
    }

    pub open spec fn socket_present(self, s: Seq<char>) -> bool {
        self.socket_topics().dom().contains(s)
    }

    pub closed spec fn wf(self) -> bool {
        &&& self.topic_subscriptions.wf()
        &&& self.socket_subscriptions.wf()
        &&& forall|s: Seq<char>, t: Seq<char>|
            #![trigger pair_in(self.socket_subscriptions.m(), s, t)]
            #![trigger pair_in(self.topic_subscriptions.m(), t, s)]
            pair_in(self.socket_subscriptions.m(), s, t) <==> pair_in(
                self.topic_subscriptions.m(),
                t,
                s,
            )
    }

    /// Law: after every operation the two maps stay mutually consistent — a
    /// socket's entry lists a topic exactly when that topic's entry lists the
    /// socket — and an entry exists on either side exactly while it still has
    /// at least one member.
    pub proof fn lemma_bidirectional_consistent(self)
        requires
            self.wf(),
        ensures
            forall|s: Seq<char>, t: Seq<char>| #[trigger]
                pair_in(self.socket_topics(), s, t) <==> self.subscribed(s, t),
            forall|t: Seq<char>| #[trigger]
                self.topic_present(t) <==> exists|s: Seq<char>| self.subscribed(s, t),
            forall|s: Seq<char>| #[trigger]
                self.socket_present(s) <==> exists|t: Seq<char>|
                    pair_in(self.socket_topics(), s, t),
    {
        assert forall|t: Seq<char>| #[trigger] self.topic_present(t) implies exists|s: Seq<char>|
            self.subscribed(s, t) by {
            self.topic_subscriptions.lemma_nonempty(t);
            let s = choose|s: Seq<char>| self.topic_sockets()[t].contains(s);
            assert(self.subscribed(s, t));
        }
        assert forall|s: Seq<char>| #[trigger] self.socket_present(s) implies exists|t: Seq<char>|
            pair_in(self.socket_topics(), s, t) by {
            self.socket_subscriptions.lemma_nonempty(s);
            let t = choose|t: Seq<char>| self.socket_topics()[s].contains(t);
            assert(pair_in(self.socket_topics(), s, t));
        }
    }

    pub fn new() -> (r: SubscriptionTable)
        ensures
            r.wf(),
            r.topic_sockets() == Map::<Seq<char>, Set<Seq<char>>>::empty(),
            r.socket_topics() == Map::<Seq<char>, Set<Seq<char>>>::empty(),
    {
        SubscriptionTable {
            topic_subscriptions: SubscriptionHashMap::new(),
            socket_subscriptions: SubscriptionHashMap::new(),
        }
    }

    /// The sockets subscribed to `topic`, each exactly once and in
    /// ascending lexicographic order, so fan-out iterates deterministically;
    /// empty when none.
    pub fn get(&self, topic: &String) -> (socks: Vec<String>)
        requires
            self.wf(),
        ensures
            distinct_views(socks@),
            sorted_views(socks@),
            views_set(socks@) == if self.topic_present(topic@) {
                self.topic_sockets()[topic@]
            } else {
                Set::<Seq<char>>::empty()
            },
    {
        self.topic_subscriptions.get(topic)
    }

    /// Adds the pair to both maps. `row_change` is true exactly when this is
    /// the first subscriber to `topic` on this instance.
    pub fn insert(&mut self, socket_id: &String, topic: &String) -> (row_change: bool)
        requires
            old(self).wf(),
        ensures
            final(self).wf(),
            row_change == !old(self).topic_present(topic@),
            final(self).topic_sockets() == map_add_val(
                old(self).topic_sockets(),
                topic@,
                socket_id@,
            ),
            final(self).socket_topics() == map_add_val(
                old(self).socket_topics(),
                socket_id@,
                topic@,
            ),
            forall|s: Seq<char>, t: Seq<char>| #[trigger]
                final(self).subscribed(s, t) <==> (old(self).subscribed(s, t) || (s == socket_id@
                    && t == topic@)),
    {
        self.socket_subscriptions.insert(socket_id, topic);
        let row_change = self.topic_subscriptions.insert(topic, socket_id);
        proof {
            let s0 = socket_id@;
            let t0 = topic@;
            let otop = old(self).topic_subscriptions.m();
            let osock = old(self).socket_subscriptions.m();
            let ntop = self.topic_subscriptions.m();
            let nsock = self.socket_subscriptions.m();
            assert forall|s: Seq<char>, t: Seq<char>| #[trigger]
                pair_in(nsock, s, t) <==> (pair_in(osock, s, t) || (s == s0 && t == t0)) by {}
            assert forall|s: Seq<char>, t: Seq<char>| #[trigger]
                pair_in(ntop, t, s) <==> (pair_in(otop, t, s) || (s == s0 && t == t0)) by {}
            assert(self.wf());
        }
        row_change
    }

    /// Removes the pair from both maps. `row_change` is true exactly when the
    /// pair's removal emptied the topic's entry — the last subscriber left.
    pub fn remove(&mut self, socket_id: &String, topic: &String) -> (row_change: bool)
        requires
            old(self).wf(),
        ensures
            final(self).wf(),
            row_change == (old(self).topic_present(topic@) && old(self).topic_sockets()[topic@]
                == set![socket_id@]),
            final(self).topic_sockets() == map_remove_val(
                old(self).topic_sockets(),
                topic@,
                socket_id@,
            ),
            final(self).socket_topics() == map_remove_val(
                old(self).socket_topics(),
                socket_id@,
                topic@,
            ),
            forall|s: Seq<char>, t: Seq<char>| #[trigger]
                final(self).subscribed(s, t) <==> (old(self).subscribed(s, t) && !(s == socket_id@
                    && t == topic@)),
    {
        self.socket_subscriptions.remove(socket_id, topic);
        let row_change = self.topic_subscriptions.remove(topic, socket_id);
        proof {
            let s0 = socket_id@;
            let t0 = topic@;
            let otop = old(self).topic_subscriptions.m();
            let osock = old(self).socket_subscriptions.m();
            let ntop = self.topic_subscriptions.m();
            let nsock = self.socket_subscriptions.m();
            assert forall|s: Seq<char>, t: Seq<char>| #[trigger]
                pair_in(nsock, s, t) <==> (pair_in(osock, s, t) && !(s == s0 && t == t0)) by {
                lemma_map_remove_val_pair(osock, s0, t0, s, t);
            }
            assert forall|s: Seq<char>, t: Seq<char>| #[trigger]
                pair_in(ntop, t, s) <==> (pair_in(otop, t, s) && !(s == s0 && t == t0)) by {
                lemma_map_remove_val_pair(otop, t0, s0, t, s);
            }
            assert(self.wf());
        }
        row_change
    }

    /// Removes every pair involving `socket_id` and returns exactly the
    /// topics for which it was the sole remaining subscriber, each once.
    pub fn remove_all(&mut self, socket_id: &String) -> (removed: Vec<String>)
        requires
            old(self).wf(),
        ensures
            final(self).wf(),
            distinct_views(removed@),
            sorted_views(removed@),
            views_set(removed@) == Set::new(
                |t: Seq<char>|
                    old(self).topic_present(t) && old(self).topic_sockets()[t] == set![
                        socket_id@,
                    ],
            ),
            final(self).socket_topics() == old(self).socket_topics().remove(socket_id@),
            !final(self).socket_present(socket_id@),
            forall|s: Seq<char>, t: Seq<char>| #[trigger]
                final(self).subscribed(s, t) <==> (old(self).subscribed(s, t) && s != socket_id@),
    {
        let ghost s0 = socket_id@;
        let ghost otop = old(self).topic_subscriptions.m();
        let ghost osock = old(self).socket_subscriptions.m();
        let topics = self.socket_subscriptions.get(socket_id);
        let mut removed: Vec<String> = Vec::new();
        let n = topics.len();
        let mut k: usize = 0;
        while k < n
            invariant
                k <= n,
                n == topics@.len(),
                old(self).wf(),
                s0 == socket_id@,
                otop == old(self).topic_subscriptions.m(),
                osock == old(self).socket_subscriptions.m(),
                self.socket_subscriptions == old(self).socket_subscriptions,
                self.topic_subscriptions.wf(),
                distinct_views(topics@),
                sorted_views(topics@),
                views_set(topics@) == if osock.dom().contains(s0) {
                    osock[s0]
                } else {
                    Set::<Seq<char>>::empty()
                },
                forall|t: Seq<char>| #![trigger otop.dom().contains(t)]
                    !in_prefix(topics@, k as int, t) ==> {
                        &&& self.topic_subscriptions.m().dom().contains(t) == otop.dom().contains(
                            t,
                        )
                        &&& (otop.dom().contains(t) ==> self.topic_subscriptions.m()[t] == otop[t])
                    },
                forall|t: Seq<char>| #![trigger otop.dom().contains(t)]
                    in_prefix(topics@, k as int, t) ==> {
                        &&& self.topic_subscriptions.m().dom().contains(t) == (otop.dom().contains(
                            t,
                        ) && otop[t].remove(s0) != Set::<Seq<char>>::empty())
                        &&& (self.topic_subscriptions.m().dom().contains(t)
                            ==> self.topic_subscriptions.m()[t] == otop[t].remove(s0))
                    },
                distinct_views(removed@),
                sorted_views(removed@),
                views_set(removed@) == Set::new(
                    |t: Seq<char>|
                        in_prefix(topics@, k as int, t) && otop.dom().contains(t) && otop[t]
                            == set![s0],
                ),
            decreases n - k,
        {
            let ghost pretop = self.topic_subscriptions.m();
            let ghost tk = topics@[k as int]@;
            proof {
                assert(!in_prefix(topics@, k as int, tk)) by {
                    if in_prefix(topics@, k as int, tk) {
                        let j = choose|j: int| 0 <= j < k && topics@[j]@ == tk;
                        assert(topics@[j]@ != topics@[k as int]@);
                    }
                }
                let _d = otop.dom().contains(tk);
                assert(self.topic_subscriptions.m().dom().contains(tk) == otop.dom().contains(
                    tk,
                ));
                assert(otop.dom().contains(tk) ==> self.topic_subscriptions.m()[tk] == otop[tk]);
            }
            let row = self.topic_subscriptions.remove(&topics[k], socket_id);
            let ghost pre_removed = removed@;
            if row {
                removed.push(topics[k].clone());
            }
            proof {
                // the removal touched only the entry for `tk`
                assert forall|t: Seq<char>| t != tk implies {
                    &&& self.topic_subscriptions.m().dom().contains(t) == pretop.dom().contains(t)
                    &&& (pretop.dom().contains(t) ==> self.topic_subscriptions.m()[t]
                        == pretop[t])
                } by {}
                assert forall|t: Seq<char>| in_prefix(topics@, k as int + 1, t) implies {
                    &&& self.topic_subscriptions.m().dom().contains(t) == (otop.dom().contains(t)
                        && otop[t].remove(s0) != Set::<Seq<char>>::empty())
                    &&& (self.topic_subscriptions.m().dom().contains(t)
                        ==> self.topic_subscriptions.m()[t] == otop[t].remove(s0))
                } by {
                    let _d = otop.dom().contains(t);
                    if t == tk {
                        assert(pretop.dom().contains(tk) == otop.dom().contains(tk));
                    } else {
                        let j = choose|j: int| 0 <= j < k + 1 && topics@[j]@ == t;
                        assert(j < k);
                        assert(in_prefix(topics@, k as int, t));
                    }
                }
                assert forall|t: Seq<char>| !in_prefix(topics@, k as int + 1, t) implies {
                    &&& self.topic_subscriptions.m().dom().contains(t) == otop.dom().contains(t)
                    &&& (otop.dom().contains(t) ==> self.topic_subscriptions.m()[t] == otop[t])
                } by {
                    let _d = otop.dom().contains(t);
                    assert(t != tk) by {
                        if t == tk {
                            assert(topics@[k as int]@ == t);
                        }
                    }
                    assert(!in_prefix(topics@, k as int, t)) by {
                        if in_prefix(topics@, k as int, t) {
                            let j = choose|j: int| 0 <= j < k && topics@[j]@ == t;
                            assert(0 <= j < k + 1 && topics@[j]@ == t);
                        }
                    }
                }
                // `row` is true exactly on the topics whose sole subscriber leaves
                assert(row == (otop.dom().contains(tk) && otop[tk] == set![s0]));
                if row {
                    lemma_views_set_push(pre_removed, topics@[k as int]);
                    assert(removed@ == pre_removed.push(topics@[k as int]));
                    assert(!views_set(pre_removed).contains(tk)) by {
                        if views_set(pre_removed).contains(tk) {
                            assert(in_prefix(topics@, k as int, tk));
                        }
                    }
                    assert forall|a: int, b: int|
                        0 <= a < b < removed@.len() implies removed@[a]@ != removed@[b]@ by {
                        if b == removed@.len() - 1 {
                            assert(views_set(pre_removed).contains(removed@[a]@));
                        } else {
                            assert(pre_removed[a]@ != pre_removed[b]@);
                        }
                    }
                    assert forall|a: int, b: int|
                        0 <= a < b < removed@.len() implies chars_lt(
                        (#[trigger] removed@[a])@,
                        (#[trigger] removed@[b])@,
                    ) by {
                        if b == removed@.len() - 1 {
                            assert(views_set(pre_removed).contains(pre_removed[a]@));
                            assert(in_prefix(topics@, k as int, pre_removed[a]@));
                            let j = choose|j: int| 0 <= j < k && topics@[j]@ == pre_removed[a]@;
                            assert(chars_lt(topics@[j]@, topics@[k as int]@));
                        } else {
                            assert(chars_lt(pre_removed[a]@, pre_removed[b]@));
                        }
                    }
                    assert(views_set(removed@) =~= Set::new(
                        |t: Seq<char>|
                            in_prefix(topics@, k as int + 1, t) && otop.dom().contains(t)
                                && otop[t] == set![s0],
                    )) by {
                        assert forall|t: Seq<char>|
                            in_prefix(topics@, k as int + 1, t) && otop.dom().contains(t)
                                && otop[t] == set![s0] implies views_set(removed@).contains(t) by {
                            if t == tk {
                            } else {
                                let j = choose|j: int| 0 <= j < k + 1 && topics@[j]@ == t;
                                assert(in_prefix(topics@, k as int, t));
                            }
                        }
                    }
                } else {
                    assert(views_set(removed@) =~= Set::new(
                        |t: Seq<char>|
                            in_prefix(topics@, k as int + 1, t) && otop.dom().contains(t)
                                && otop[t] == set![s0],
                    )) by {
                        assert forall|t: Seq<char>|
                            in_prefix(topics@, k as int + 1, t) && otop.dom().contains(t)
                                && otop[t] == set![s0] implies views_set(removed@).contains(t) by {
                            assert(t != tk);
                            let j = choose|j: int| 0 <= j < k + 1 && topics@[j]@ == t;
                            assert(in_prefix(topics@, k as int, t));
                        }
                        assert forall|t: Seq<char>| views_set(removed@).contains(t) implies
                            in_prefix(topics@, k as int + 1, t) && otop.dom().contains(t)
                                && otop[t] == set![s0] by {
                            assert(in_prefix(topics@, k as int, t));
                            let j = choose|j: int| 0 <= j < k && topics@[j]@ == t;
                            assert(0 <= j < k + 1 && topics@[j]@ == t);
                        }
                    }
                }
            }
            k += 1;
        }
        self.socket_subscriptions.remove_all(socket_id);
        proof {
            let ntop = self.topic_subscriptions.m();
            let nsock = self.socket_subscriptions.m();
            assert(nsock == osock.remove(s0));
            assert forall|t: Seq<char>|
                pair_in(otop, t, s0) implies in_prefix(topics@, n as int, t) by {
                assert(pair_in(osock, s0, t));
                assert(osock[s0].contains(t));
                assert(views_set(topics@).contains(t));
            }
            assert forall|s: Seq<char>, t: Seq<char>| #[trigger]
                pair_in(ntop, t, s) <==> (pair_in(otop, t, s) && s != s0) by {
                let _d = otop.dom().contains(t);
                if in_prefix(topics@, n as int, t) {
                    assert(ntop.dom().contains(t) == (otop.dom().contains(t) && otop[t].remove(
                        s0,
                    ) != Set::<Seq<char>>::empty()));
                    assert(ntop.dom().contains(t) ==> ntop[t] == otop[t].remove(s0));
                    if otop.dom().contains(t) && otop[t].remove(s0) == Set::<Seq<char>>::empty() {
                        if otop[t].contains(s) && s != s0 {
                            assert(otop[t].remove(s0).contains(s));
                        }
                    }
                } else {
                    assert(ntop.dom().contains(t) == otop.dom().contains(t));
                    assert(otop.dom().contains(t) ==> ntop[t] == otop[t]);
                    if pair_in(otop, t, s) && s == s0 {
                        assert(in_prefix(topics@, n as int, t));
                    }
                }
            }
            assert forall|s: Seq<char>, t: Seq<char>| #[trigger]
                pair_in(nsock, s, t) <==> (pair_in(osock, s, t) && s != s0) by {}
            assert(self.wf());
            assert(views_set(removed@) =~= Set::new(
                |t: Seq<char>|
                    old(self).topic_present(t) && old(self).topic_sockets()[t] == set![s0],
            )) by {
                assert forall|t: Seq<char>|
                    otop.dom().contains(t) && otop[t] == set![s0] implies in_prefix(
                    topics@,
                    n as int,
                    t,
                ) by {
                    assert(otop[t].contains(s0));
                    assert(pair_in(otop, t, s0));
                }
            }
        }
        removed
    }
}

/// Law: subscribing, then unsubscribing, then subscribing the same pair again
/// leaves the index exactly where a single subscribe leaves it — membership
/// round-trips.
pub proof fn lemma_subscribe_round_trip(
    m: Map<Seq<char>, Set<Seq<char>>>,
    k: Seq<char>,
    v: Seq<char>,
)
    ensures
        map_add_val(map_remove_val(map_add_val(m, k, v), k, v), k, v) == map_add_val(m, k, v),
{
    let m1 = map_add_val(m, k, v);
    let m2 = map_remove_val(m1, k, v);
    let m3 = map_add_val(m2, k, v);
    assert(m1.dom().contains(k));
    if m1[k].remove(v) == Set::<Seq<char>>::empty() {
        assert(m3 =~~= m1);
    } else {
        assert(m2 == m1.insert(k, m1[k].remove(v)));
        assert(m3[k] =~= m1[k]);
        assert(m3 =~~= m1);
    }
}

/// Appending a string adds exactly its view to the view set.
pub proof fn lemma_views_set_push(vs: Seq<String>, v: String)
    ensures
        views_set(vs.push(v)) == views_set(vs).insert(v@),
{
    let pushed = vs.push(v);
    assert forall|x: Seq<char>| views_set(pushed).contains(x) implies views_set(vs).insert(
        v@,
    ).contains(x) by {
        let j = choose|j: int| 0 <= j < pushed.len() && pushed[j]@ == x;
        if j < vs.len() {
            assert(vs[j]@ == x);
        }
    }
    assert forall|x: Seq<char>| views_set(vs).insert(v@).contains(x) implies views_set(
        pushed,
    ).contains(x) by {
        if x == v@ {
            assert(pushed[vs.len() as int]@ == x);
        } else {
            let j = choose|j: int| 0 <= j < vs.len() && vs[j]@ == x;
            assert(pushed[j]@ == x);
        }
    }
    assert(views_set(pushed) =~= views_set(vs).insert(v@));
}

/// Removing the entry at `p` from a duplicate-free sequence removes exactly
/// its view from the view set, and keeps the rest duplicate-free.
proof fn lemma_views_set_remove(vs: Seq<String>, p: int, v: Seq<char>)
    requires
        distinct_views(vs),
        0 <= p < vs.len(),
        vs[p]@ == v,
    ensures
        views_set(vs.remove(p)) == views_set(vs).remove(v),
        distinct_views(vs.remove(p)),
{
    let after = vs.remove(p);
    assert forall|x: Seq<char>| views_set(after).contains(x) implies views_set(vs).remove(
        v,
    ).contains(x) by {
        let j = choose|j: int| 0 <= j < after.len() && after[j]@ == x;
        if j < p {
            assert(vs[j]@ == x);
            assert(vs[j]@ != vs[p]@);
        } else {
            assert(vs[j + 1]@ == x);
            assert(vs[p]@ != vs[j + 1]@);
        }
    }
    assert forall|x: Seq<char>| views_set(vs).remove(v).contains(x) implies views_set(
        after,
    ).contains(x) by {
        let j = choose|j: int| 0 <= j < vs.len() && vs[j]@ == x;
        assert(j != p);
        if j < p {
            assert(after[j]@ == x);
        } else {
            assert(after[j - 1]@ == x);
        }
    }
    assert(views_set(vs.remove(p)) =~= views_set(vs).remove(v));
    assert forall|a: int, b: int| 0 <= a < b < after.len() implies after[a]@ != after[b]@ by {
        if b < p {
        } else if a < p {
            assert(after[b]@ == vs[b + 1]@);
        } else {
            assert(after[a]@ == vs[a + 1]@);
            assert(after[b]@ == vs[b + 1]@);
        }
    }
}

} // verus!
