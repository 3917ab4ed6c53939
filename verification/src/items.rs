use vstd::prelude::*;

verus! {

/// How many units of the item with this id the entry list `s` holds: the
/// count of the first entry whose id matches, or zero when none does.
pub open spec fn count_of(s: Seq<(u64, u64)>, id: u64) -> u64
    decreases s.len(),
{
    if s.len() == 0 {
        0
    } else if s[0].0 == id {
        s[0].1
    } else {
        count_of(s.drop_first(), id)
    }
}

/// Canonical form of a multiset of items: ids strictly increasing, every
/// count strictly positive. Two canonical lists with the same counts are
/// the same list.
pub open spec fn counts_wf(s: Seq<(u64, u64)>) -> bool {
    &&& forall|i: int, j: int| 0 <= i < j < s.len() ==> s[i].0 < s[j].0
    &&& forall|i: int| 0 <= i < s.len() ==> s[i].1 >= 1
}

/// Both lists assign the same count to every id.
pub open spec fn same_counts(a: Seq<(u64, u64)>, b: Seq<(u64, u64)>) -> bool {
    forall|id: u64| count_of(a, id) == count_of(b, id)
}

/// One unit more of `c`, capped at the largest representable count.
pub open spec fn bump(c: u64) -> u64 {
    if c == u64::MAX {
        c
    } else {
        (c + 1) as u64
    }
}

pub proof fn lemma_wf_drop_first(s: Seq<(u64, u64)>)
    requires
        counts_wf(s),
        s.len() > 0,
    ensures
        counts_wf(s.drop_first()),
{
    assert forall|i: int, j: int| 0 <= i < j < s.drop_first().len() implies s.drop_first()[i].0
        < s.drop_first()[j].0 by {
        assert(s[i + 1].0 < s[j + 1].0);
    }
    assert forall|i: int| 0 <= i < s.drop_first().len() implies s.drop_first()[i].1 >= 1 by {
        assert(s[i + 1].1 >= 1);
    }
}

/// In a canonical list the count of the id at index `i` is that entry's count.
pub proof fn lemma_count_at(s: Seq<(u64, u64)>, i: int)
    requires
        counts_wf(s),
        0 <= i < s.len(),
    ensures
        count_of(s, s[i].0) == s[i].1,
    decreases i,
{
    if i > 0 {
        assert(s[0].0 < s[i].0);
        lemma_wf_drop_first(s);
        assert(s.drop_first()[i - 1] == s[i]);
        lemma_count_at(s.drop_first(), i - 1);
    }
}

/// An id that appears in no entry has count zero.
pub proof fn lemma_count_absent(s: Seq<(u64, u64)>, id: u64)
    requires
        forall|i: int| 0 <= i < s.len() ==> s[i].0 != id,
    ensures
        count_of(s, id) == 0,
    decreases s.len(),
{
    if s.len() > 0 {
        assert forall|i: int| 0 <= i < s.drop_first().len() implies s.drop_first()[i].0 != id by {
            assert(s[i + 1].0 != id);
        }
        lemma_count_absent(s.drop_first(), id);
    }
}

/// Replacing the count stored at index `i` changes exactly that id's count.
pub proof fn lemma_count_update(s: Seq<(u64, u64)>, i: int, c: u64)
    requires
        counts_wf(s),
        0 <= i < s.len(),
    ensures
        count_of(s.update(i, (s[i].0, c)), s[i].0) == c,
        forall|id: u64|
            id != s[i].0 ==> count_of(s.update(i, (s[i].0, c)), id) == count_of(s, id),
    decreases i,
{
    let s2 = s.update(i, (s[i].0, c));
    if i == 0 {
        assert(s2[0] == (s[0].0, c));
        assert(s2.drop_first() =~= s.drop_first());
    } else {
        assert(s2[0] == s[0]);
        assert(s2.drop_first() =~= s.drop_first().update(i - 1, (s[i].0, c)));
        lemma_wf_drop_first(s);
        assert(s.drop_first()[i - 1] == s[i]);
        lemma_count_update(s.drop_first(), i - 1, c);
        assert(s[0].0 < s[i].0);
        assert forall|id: u64| id != s[i].0 implies count_of(s2, id) == count_of(s, id) by {
            if id != s[0].0 {
                assert(count_of(s2, id) == count_of(s2.drop_first(), id));
                assert(count_of(s.drop_first().update(i - 1, (s[i].0, c)), id) == count_of(
                    s.drop_first(),
                    id,
                ));
            }
        }
    }
}

/// Inserting an entry for a fresh id gives that id the inserted count and
/// leaves every other count unchanged.
pub proof fn lemma_count_insert(s: Seq<(u64, u64)>, k: int, id: u64, c: u64)
    requires
        0 <= k <= s.len(),
        forall|i: int| 0 <= i < s.len() ==> s[i].0 != id,
    ensures
        count_of(s.insert(k, (id, c)), id) == c,
        forall|id2: u64| id2 != id ==> count_of(s.insert(k, (id, c)), id2) == count_of(s, id2),
    decreases k,
{
    let s2 = s.insert(k, (id, c));
    if k == 0 {
        assert(s2[0] == (id, c));
        assert(s2.drop_first() =~= s);
        assert forall|id2: u64| id2 != id implies count_of(s2, id2) == count_of(s, id2) by {
            assert(count_of(s2, id2) == count_of(s2.drop_first(), id2));
        }
    } else {
        assert(s2[0] == s[0]);
        assert(s2.drop_first() =~= s.drop_first().insert(k - 1, (id, c)));
        assert forall|i: int| 0 <= i < s.drop_first().len() implies s.drop_first()[i].0 != id by {
            assert(s[i + 1].0 != id);
        }
        lemma_count_insert(s.drop_first(), k - 1, id, c);
        assert(s[0].0 != id);
        assert forall|id2: u64| id2 != id implies count_of(s2, id2) == count_of(s, id2) by {
            if id2 != s[0].0 {
                assert(count_of(s2, id2) == count_of(s2.drop_first(), id2));
                assert(count_of(s, id2) == count_of(s.drop_first(), id2));
            }
        }
    }
}

/// Appending an entry with a fresh id only adds that id's count.
pub proof fn lemma_count_snoc(t: Seq<(u64, u64)>, x: (u64, u64), id: u64)
    requires
        forall|i: int| 0 <= i < t.len() ==> (#[trigger] t[i]).0 != x.0,
    ensures
        count_of(t.push(x), id) == if x.0 == id {
            x.1
        } else {
            count_of(t, id)
        },
    decreases t.len(),
{
    let t2 = t.push(x);
    if t.len() == 0 {
        assert(t2.len() == 1);
        assert(t2[0] == x);
        assert(t2.drop_first() =~= Seq::<(u64, u64)>::empty());
        assert(count_of(t, id) == 0);
        if x.0 == id {
            assert(count_of(t2, id) == x.1);
        } else {
            assert(count_of(t2, id) == count_of(t2.drop_first(), id));
            assert(count_of(t2.drop_first(), id) == 0);
        }
    } else {
        assert(t2[0] == t[0]);
        assert(t2.drop_first() =~= t.drop_first().push(x));
        assert forall|i: int|
            0 <= i < t.drop_first().len() implies (#[trigger] t.drop_first()[i]).0 != x.0 by {
            assert(t[i + 1].0 != x.0);
        }
        lemma_count_snoc(t.drop_first(), x, id);
        if t[0].0 == id {
            assert(count_of(t2, id) == t[0].1);
            assert(count_of(t, id) == t[0].1);
        } else {
            assert(count_of(t2, id) == count_of(t2.drop_first(), id));
            assert(count_of(t, id) == count_of(t.drop_first(), id));
        }
    }
}

/// One more prefix entry of a canonical list adds exactly that entry's
/// count for its id.
pub proof fn lemma_count_take_snoc(s: Seq<(u64, u64)>, k: int, id: u64)
    requires
        counts_wf(s),
        0 <= k < s.len(),
    ensures
        count_of(s.take(k + 1), id) == if s[k].0 == id {
            s[k].1
        } else {
            count_of(s.take(k), id)
        },
{
    assert(s.take(k + 1) =~= s.take(k).push(s[k]));
    assert forall|i: int|
        0 <= i < s.take(k).len() implies (#[trigger] s.take(k)[i]).0 != s[k].0 by {
        assert(s[i].0 < s[k].0);
    }
    lemma_count_snoc(s.take(k), s[k], id);
}

/// The canonical entry list after adding one unit of `id`: the existing
/// entry is bumped, or a fresh entry is inserted at its sorted place.
pub open spec fn counts_add(s: Seq<(u64, u64)>, id: u64) -> Seq<(u64, u64)>
    decreases s.len(),
{
    if s.len() == 0 {
        seq![(id, 1u64)]
    } else if s[0].0 < id {
        seq![s[0]] + counts_add(s.drop_first(), id)
    } else if s[0].0 == id {
        s.update(0, (id, bump(s[0].1)))
    } else {
        seq![(id, 1u64)] + s
    }
}

/// `counts_add` keeps the canonical form and changes exactly the count of
/// the added id, by one unit.
pub proof fn lemma_counts_add(s: Seq<(u64, u64)>, id: u64)
    requires
        counts_wf(s),
    ensures
        counts_wf(counts_add(s, id)),
        count_of(counts_add(s, id), id) == bump(count_of(s, id)),
        forall|x: u64| x != id ==> count_of(counts_add(s, id), x) == count_of(s, x),
    decreases s.len(),
{
    let r = counts_add(s, id);
    if s.len() == 0 {
        assert(r =~= seq![(id, 1u64)]);
        assert(r.drop_first() =~= Seq::<(u64, u64)>::empty());
        assert forall|x: u64| x != id implies count_of(r, x) == count_of(s, x) by {
            assert(count_of(r, x) == count_of(r.drop_first(), x));
        }
    } else if s[0].0 < id {
        lemma_wf_drop_first(s);
        lemma_counts_add(s.drop_first(), id);
        let rt = counts_add(s.drop_first(), id);
        assert(r =~= seq![s[0]] + rt);
        assert(r[0] == s[0]);
        assert(r.drop_first() =~= rt);
        // sortedness: the head is below the tail, whose ids are the old
        // tail's ids plus `id`, all above the head
        assert forall|i: int, j: int| 0 <= i < j < r.len() implies r[i].0 < r[j].0 by {
            if i > 0 {
                assert(rt[i - 1].0 < rt[j - 1].0);
            } else {
                // every id in rt is an id of s.drop_first() or `id` itself
                assert(count_of(rt, rt[j - 1].0) == rt[j - 1].1 >= 1) by {
                    lemma_count_at(rt, j - 1);
                }
                let e = rt[j - 1].0;
                if e != id {
                    assert(count_of(s.drop_first(), e) >= 1);
                    if forall|k: int|
                        0 <= k < s.drop_first().len() ==> (#[trigger] s.drop_first()[k]).0 != e {
                        lemma_count_absent(s.drop_first(), e);
                        assert(false);
                    }
                    let w = choose|k: int|
                        0 <= k < s.drop_first().len() && (#[trigger] s.drop_first()[k]).0 == e;
                    assert(s[w + 1].0 == e);
                    assert(s[0].0 < s[w + 1].0);
                }
            }
        }
        assert forall|i: int| 0 <= i < r.len() implies r[i].1 >= 1 by {
            if i > 0 {
                assert(rt[i - 1].1 >= 1);
            }
        }
        assert(count_of(r, id) == count_of(rt, id));
        assert forall|x: u64| x != id implies count_of(r, x) == count_of(s, x) by {
            if x != s[0].0 {
                assert(count_of(r, x) == count_of(rt, x));
                assert(count_of(s, x) == count_of(s.drop_first(), x));
            }
        }
    } else if s[0].0 == id {
        lemma_count_update(s, 0, bump(s[0].1));
        assert(count_of(s, id) == s[0].1) by {
            lemma_count_at(s, 0);
        }
    } else {
        assert(r =~= seq![(id, 1u64)] + s);
        assert(r[0] == (id, 1u64));
        assert(r.drop_first() =~= s);
        assert forall|i: int, j: int| 0 <= i < j < r.len() implies r[i].0 < r[j].0 by {
            if i > 0 {
                assert(s[i - 1].0 < s[j - 1].0);
            } else {
                if j - 1 > 0 {
                    assert(s[0].0 < s[j - 1].0);
                }
            }
        }
        assert forall|i: int| 0 <= i < r.len() implies r[i].1 >= 1 by {
            if i > 0 {
                assert(s[i - 1].1 >= 1);
            }
        }
        assert(count_of(s, id) == 0) by {
            assert forall|k: int| 0 <= k < s.len() implies (#[trigger] s[k]).0 != id by {
                if k > 0 {
                    assert(s[0].0 < s[k].0);
                }
            }
            lemma_count_absent(s, id);
        }
        assert forall|x: u64| x != id implies count_of(r, x) == count_of(s, x) by {
            assert(count_of(r, x) == count_of(r.drop_first(), x));
        }
    }
}

/// Canonical lists are unique: equal counts for every id force equal lists.
pub proof fn lemma_counts_canonical(a: Seq<(u64, u64)>, b: Seq<(u64, u64)>)
    requires
        counts_wf(a),
        counts_wf(b),
        same_counts(a, b),
    ensures
        a =~= b,
    decreases a.len(),
{
    if a.len() == 0 {
        if b.len() > 0 {
            lemma_count_at(b, 0);
            assert(count_of(a, b[0].0) == 0);
            assert(false);
        }
    } else if b.len() == 0 {
        lemma_count_at(a, 0);
        assert(count_of(b, a[0].0) == 0);
        assert(false);
    } else {
        lemma_count_at(a, 0);
        lemma_count_at(b, 0);
        if a[0].0 < b[0].0 {
            assert forall|i: int| 0 <= i < b.len() implies b[i].0 != a[0].0 by {
                if i > 0 {
                    assert(b[0].0 < b[i].0);
                }
            }
            lemma_count_absent(b, a[0].0);
            assert(false);
        }
        if b[0].0 < a[0].0 {
            assert forall|i: int| 0 <= i < a.len() implies a[i].0 != b[0].0 by {
                if i > 0 {
                    assert(a[0].0 < a[i].0);
                }
            }
            lemma_count_absent(a, b[0].0);
            assert(false);
        }
        assert(a[0].0 == b[0].0);
        assert(a[0].1 == b[0].1);
        lemma_wf_drop_first(a);
        lemma_wf_drop_first(b);
        assert forall|id: u64| count_of(a.drop_first(), id) == count_of(
            b.drop_first(),
            id,
        ) by {
            if id == a[0].0 {
                assert forall|i: int| 0 <= i < a.drop_first().len() implies a.drop_first()[i].0
                    != id by {
                    assert(a[0].0 < a[i + 1].0);
                }
                assert forall|i: int| 0 <= i < b.drop_first().len() implies b.drop_first()[i].0
                    != id by {
                    assert(b[0].0 < b[i + 1].0);
                }
                lemma_count_absent(a.drop_first(), id);
                lemma_count_absent(b.drop_first(), id);
            } else {
                assert(count_of(a, id) == count_of(a.drop_first(), id));
                assert(count_of(b, id) == count_of(b.drop_first(), id));
            }
        }
        lemma_counts_canonical(a.drop_first(), b.drop_first());
        assert forall|j: int| 0 <= j < a.len() implies a[j] == b[j] by {
            if j > 0 {
                assert(a.drop_first()[j - 1] == b.drop_first()[j - 1]);
            } else {
                assert(a[0] == b[0]);
            }
        }
    }
}

/// A multiset of items, keyed by item id. The entries hold each id at most
/// once, in increasing id order, with a strictly positive count, so that a
/// multiset has exactly one representation.
#[derive(Debug)]
pub struct ItemCounts {
    entries: Vec<(u64, u64)>,
}

impl View for ItemCounts {
    type V = Seq<(u64, u64)>;

    closed spec fn view(&self) -> Seq<(u64, u64)> {
        self.entries@
    }
}

impl ItemCounts {
    pub open spec fn wf(&self) -> bool {
        counts_wf(self@)
    }

    /// The empty multiset.
    pub fn new() -> (r: ItemCounts)
        ensures
            r@ =~= Seq::<(u64, u64)>::empty(),
            r.wf(),
    {
        ItemCounts { entries: Vec::new() }
    }

    /// How many units of item `id` are held.
    pub fn get(&self, id: u64) -> (r: u64)
        ensures
            r == count_of(self@, id),
    {
        let n = self.entries.len();
        let mut i: usize = 0;
        proof {
            assert(self@.skip(0) =~= self@);
        }
        while i < n
            invariant
                0 <= i <= n,
                n == self.entries.len(),
                count_of(self@, id) == count_of(self@.skip(i as int), id),
            decreases n - i,
        {
            if self.entries[i].0 == id {
                proof {
                    assert(self@.skip(i as int)[0] == self@[i as int]);
                }
                return self.entries[i].1;
            }
            proof {
                assert(self@.skip(i as int)[0] == self@[i as int]);
                assert(self@.skip(i as int).drop_first() =~= self@.skip(i as int + 1));
            }
            i = i + 1;
        }
        proof {
            assert(self@.skip(n as int) =~= Seq::<(u64, u64)>::empty());
        }
        0
    }

    /// How many distinct item ids are held.
    pub fn len(&self) -> (r: usize)
        ensures
            r == self@.len(),
    {
        self.entries.len()
    }

    /// The entry at index `k`: an item id and its count.
    pub fn entry_at(&self, k: usize) -> (r: (u64, u64))
        requires
            k < self@.len(),
        ensures
            r == self@[k as int],
    {
        self.entries[k]
    }

    /// Whether no units of any item are held.
    pub fn is_empty(&self) -> (r: bool)
        ensures
            r == (self@.len() == 0),
    {
        self.entries.len() == 0
    }

    /// Add one unit of item `id`, keeping the canonical form. A count that
    /// has reached the largest representable value stays there.
    pub fn add(&mut self, id: u64)
        requires
            old(self).wf(),
        ensures
            final(self).wf(),
            count_of(final(self)@, id) == bump(count_of(old(self)@, id)),
            forall|id2: u64|
                id2 != id ==> count_of(final(self)@, id2) == count_of(old(self)@, id2),
    {
        let n = self.entries.len();
        let mut i: usize = 0;
        while i < n && self.entries[i].0 < id
            invariant
                0 <= i <= n,
                n == self.entries.len(),
                counts_wf(self@),
                forall|j: int| 0 <= j < i ==> self@[j].0 < id,
            decreases n - i,
        {
            i = i + 1;
        }
        if i < self.entries.len() && self.entries[i].0 == id {
            let c = self.entries[i].1;
            let c2 = if c == u64::MAX {
                c
            } else {
                c + 1
            };
            proof {
                lemma_count_at(self@, i as int);
                lemma_count_update(self@, i as int, c2);
            }
            self.entries.set(i, (id, c2));
            proof {
                assert forall|a: int, b: int|
                    0 <= a < b < self@.len() implies self@[a].0 < self@[b].0 by {
                    assert(old(self)@[a].0 < old(self)@[b].0);
                }
            }
        } else {
            proof {
                assert forall|j: int| 0 <= j < self@.len() implies self@[j].0 != id by {
                    if j < i {
                        assert(self@[j].0 < id);
                    } else {
                        assert(i < self@.len());
                        assert(self@[i as int].0 >= id);
                        assert(self@[i as int].0 != id);
                        if j > i {
                            assert(self@[i as int].0 < self@[j].0);
                        }
                    }
                }
                lemma_count_absent(self@, id);
                lemma_count_insert(self@, i as int, id, 1);
            }
            self.entries.insert(i, (id, 1));
            proof {
                let s = self@;
                let olds = old(self)@;
                assert forall|a: int, b: int| 0 <= a < b < s.len() implies s[a].0 < s[b].0 by {
                    if b < i {
                        assert(olds[a].0 < olds[b].0);
                    } else if a < i && b == i {
                        assert(s[a] == olds[a]);
                    } else if a < i && b > i {
                        assert(s[a] == olds[a]);
                        assert(s[b] == olds[b - 1]);
                        if a < i - 1 {
                            assert(olds[a].0 < olds[b - 1].0);
                        }
                    } else if a == i {
                        assert(s[b] == olds[b - 1]);
                        assert(i < olds.len());
                        assert(olds[i as int].0 >= id);
                        assert(olds[i as int].0 != id);
                        if b - 1 > i {
                            assert(olds[i as int].0 < olds[b - 1].0);
                        }
                    } else {
                        assert(s[a] == olds[a - 1]);
                        assert(s[b] == olds[b - 1]);
                        assert(olds[a - 1].0 < olds[b - 1].0);
                    }
                }
                assert forall|j: int| 0 <= j < s.len() implies s[j].1 >= 1 by {
                    if j < i {
                        assert(s[j] == olds[j]);
                    } else if j > i {
                        assert(s[j] == olds[j - 1]);
                    }
                }
            }
        }
    }

    /// Append an entry whose id lies above every held id, keeping the
    /// canonical form.
    pub fn push_entry(&mut self, id: u64, count: u64)
        requires
            old(self).wf(),
            count >= 1,
            forall|k: int| 0 <= k < old(self)@.len() ==> (#[trigger] old(self)@[k]).0 < id,
        ensures
            final(self)@ == old(self)@.push((id, count)),
            final(self).wf(),
    {
        self.entries.push((id, count));
        proof {
            let s = self@;
            assert forall|a: int, b: int| 0 <= a < b < s.len() implies s[a].0 < s[b].0 by {
                if b < s.len() - 1 {
                    assert(old(self)@[a].0 < old(self)@[b].0);
                }
            }
        }
    }

    /// Drop everything that is held.
    pub fn clear(&mut self)
        ensures
            final(self)@ =~= Seq::<(u64, u64)>::empty(),
            final(self).wf(),
    {
        self.entries = Vec::new();
    }

    /// Whether this multiset holds exactly the same counts as `other`.
    pub fn eq_counts(&self, other: &ItemCounts) -> (r: bool)
        requires
            self.wf(),
            other.wf(),
        ensures
            r == same_counts(self@, other@),
    {
        if self.entries.len() != other.entries.len() {
            proof {
                if same_counts(self@, other@) {
                    lemma_counts_canonical(self@, other@);
                }
            }
            return false;
        }
        let n = self.entries.len();
        let mut i: usize = 0;
        while i < n
            invariant
                0 <= i <= n,
                n == self.entries.len(),
                n == other.entries.len(),
                self.wf(),
                other.wf(),
                forall|j: int| 0 <= j < i ==> self@[j] == other@[j],
            decreases n - i,
        {
            let a = self.entries[i];
            let b = other.entries[i];
            if a.0 != b.0 || a.1 != b.1 {
                proof {
                    if same_counts(self@, other@) {
                        lemma_counts_canonical(self@, other@);
                        assert(self@[i as int] == other@[i as int]);
                    }
                }
                return false;
            }
            i = i + 1;
        }
        proof {
            assert(self@ =~= other@);
        }
        true
    }

    /// A fresh multiset with the same contents.
    pub fn duplicate(&self) -> (r: ItemCounts)
        ensures
            r@ =~= self@,
    {
        let n = self.entries.len();
        let mut v: Vec<(u64, u64)> = Vec::new();
        let mut i: usize = 0;
        while i < n
            invariant
                0 <= i <= n,
                n == self.entries.len(),
                v@ =~= self@.take(i as int),
            decreases n - i,
        {
            v.push(self.entries[i]);
            i = i + 1;
        }
        ItemCounts { entries: v }
    }
}

/// A recipe node: a stable id (identity is the id alone), a production time
/// in milliseconds, and the multiset of component items its recipe consumes.
/// An empty recipe marks a base item that spawners can produce from nothing.
#[derive(Debug)]
pub struct Item {
    pub id: u64,
    pub time: u64,
    pub components: ItemCounts,
}

/// Item identity is the stable id alone: two items with the same id are
/// the same item, whatever their recipes or times say.
impl PartialEq for Item {
    fn eq(&self, other: &Item) -> (r: bool) {
        self.id == other.id
    }
}

impl vstd::std_specs::cmp::PartialEqSpecImpl for Item {
    open spec fn obeys_eq_spec() -> bool {
        true
    }

    open spec fn eq_spec(&self, other: &Item) -> bool {
        self.id == other.id
    }
}

impl Item {
    pub open spec fn wf(&self) -> bool {
        &&& self.components.wf()
        &&& forall|k: int|
            0 <= k < self.components@.len() ==> #[trigger] self.components@[k].0 < self.id
    }

    /// A fresh item with the same id, time and recipe.
    pub fn duplicate(&self) -> (r: Item)
        ensures
            r.id == self.id,
            r.time == self.time,
            r.components@ =~= self.components@,
    {
        Item { id: self.id, time: self.time, components: self.components.duplicate() }
    }
}

/// Entry `k` of item `i`'s recipe names an earlier item of the catalog.
pub open spec fn component_in_catalog(items: Seq<Item>, i: int, k: int) -> bool {
    exists|j: int| 0 <= j < i && (#[trigger] items[j]).id == items[i].components@[k].0
}

/// A pruned catalog: every item except the last — the point item — is a
/// component of some later item, so nothing in the catalog is unused.
pub open spec fn pruned_catalog(items: Seq<Item>) -> bool {
    forall|i: int| #![trigger items[i]]
        0 <= i < items.len() - 1 ==> exists|j: int|
            i < j < items.len() && count_of((#[trigger] items[j]).components@, items[i].id) >= 1
}

/// The item catalog is a list of items with strictly increasing ids whose
/// recipes are acyclic: every component id is strictly smaller than the id
/// of the item that contains it, and names another item of the catalog.
pub open spec fn catalog_wf(items: Seq<Item>) -> bool {
    &&& forall|i: int, j: int| 0 <= i < j < items.len() ==> items[i].id < items[j].id
    &&& forall|i: int| 0 <= i < items.len() ==> (#[trigger] items[i]).wf()
    &&& forall|i: int, k: int|
        0 <= i < items.len() && 0 <= k < items[i].components@.len()
            ==> #[trigger] component_in_catalog(items, i, k)
}

} // verus!
