//! The bill store: an in-memory mapping from bill name to bill record.
//!
//! The store owns at most one bill per distinct name; adding a bill whose
//! name is already present overwrites the stored amount. Its abstract state
//! is a `Map<Seq<char>, u64>` from the name's characters to the amount.

use vstd::prelude::*;

verus! {

/// A named amount tracked by the store.
///
/// Verus has no floating-point support, so the amount is carried as the
/// bit pattern of an IEEE-754 binary64 value; the unverified front end
/// converts to and from `f64` at the edge. The store never computes with
/// the amount, it only keeps and returns it.
pub struct Bill {
    pub name: String,
    pub amount: u64,
}

/// Whether some bill in `s` carries the name `n`.
spec fn seq_has_name(s: Seq<Bill>, n: Seq<char>) -> bool {
    exists|i: int| 0 <= i < s.len() && s[i].name@ == n
}

/// The index of a bill named `n` in `s` (meaningful when one exists and
/// names are distinct).
spec fn index_of_name(s: Seq<Bill>, n: Seq<char>) -> int {
    choose|i: int| 0 <= i < s.len() && s[i].name@ == n
}

/// No two bills in `s` share a name.
pub open spec fn distinct_names(s: Seq<Bill>) -> bool {
    forall|i: int, j: int| 0 <= i < j < s.len() ==> s[i].name@ != s[j].name@
}

/// The mapping from name to amount that a sequence of bills represents.
spec fn map_of(s: Seq<Bill>) -> Map<Seq<char>, u64> {
    Map::new(|n: Seq<char>| seq_has_name(s, n), |n: Seq<char>| s[index_of_name(s, n)].amount)
}

/// In-memory collection of bills, keyed by name: at most one bill per
/// distinct name. Insertion order carries no meaning; the view is the
/// name-to-amount map alone.
pub struct Bills {
    inner: Vec<Bill>,
}

impl View for Bills {
    type V = Map<Seq<char>, u64>;

    closed spec fn view(&self) -> Map<Seq<char>, u64> {
        map_of(self.inner@)
    }
}

/// When names are distinct, the bill at index `i` is the one the map
/// speaks of under its name.
proof fn lemma_value_at(s: Seq<Bill>, i: int)
    requires
        distinct_names(s),
        0 <= i < s.len(),
    ensures
        seq_has_name(s, s[i].name@),
        index_of_name(s, s[i].name@) == i,
        map_of(s).dom().contains(s[i].name@),
        map_of(s)[s[i].name@] == s[i].amount,
{
    assert(seq_has_name(s, s[i].name@));
    let j = index_of_name(s, s[i].name@);
    assert(0 <= j < s.len() && s[j].name@ == s[i].name@);
    assert(j == i);
}

/// Pushing a bill whose name is fresh inserts its pair into the map.
proof fn lemma_map_of_push(s: Seq<Bill>, b: Bill)
    requires
        distinct_names(s),
        !seq_has_name(s, b.name@),
    ensures
        distinct_names(s.push(b)),
        map_of(s.push(b)) == map_of(s).insert(b.name@, b.amount),
{
    let t = s.push(b);
    assert forall|i: int, j: int| 0 <= i < j < t.len() implies t[i].name@ != t[j].name@ by {
        if j == s.len() {
            assert(t[i] == s[i]);
            if t[i].name@ == b.name@ {
                assert(seq_has_name(s, b.name@));
            }
        } else {
            assert(t[i] == s[i] && t[j] == s[j]);
        }
    }
    assert forall|n: Seq<char>| #[trigger] seq_has_name(t, n) implies seq_has_name(s, n)
        || n == b.name@ by {
        let i = choose|i: int| 0 <= i < t.len() && t[i].name@ == n;
        if i < s.len() {
            assert(s[i].name@ == n);
        }
    }
    assert forall|n: Seq<char>| seq_has_name(s, n) implies #[trigger] seq_has_name(t, n) by {
        let i = choose|i: int| 0 <= i < s.len() && s[i].name@ == n;
        assert(t[i].name@ == n);
    }
    assert(t[s.len() as int].name@ == b.name@);
    assert(seq_has_name(t, b.name@));
    assert forall|n: Seq<char>| #[trigger] seq_has_name(t, n) implies map_of(t)[n] == map_of(
        s,
    ).insert(b.name@, b.amount)[n] by {
        let i = index_of_name(t, n);
        lemma_value_at(t, i);
        if n == b.name@ {
            assert(t[s.len() as int].name@ == n);
            lemma_value_at(t, s.len() as int);
        } else {
            assert(seq_has_name(s, n));
            let j = index_of_name(s, n);
            assert(0 <= j < s.len() && s[j].name@ == n);
            assert(t[j].name@ == n);
            lemma_value_at(t, j);
            lemma_value_at(s, j);
        }
    }
    assert(map_of(t) =~= map_of(s).insert(b.name@, b.amount));
}

/// Removing the bill at index `i` removes exactly its name from the map.
proof fn lemma_map_of_remove(s: Seq<Bill>, i: int)
    requires
        distinct_names(s),
        0 <= i < s.len(),
    ensures
        distinct_names(s.remove(i)),
        !seq_has_name(s.remove(i), s[i].name@),
        map_of(s.remove(i)) == map_of(s).remove(s[i].name@),
{
    let t = s.remove(i);
    // Each element of `t` is an element of `s` at an index other than `i`.
    assert forall|k: int| 0 <= k < t.len() implies t[k] == s[if k < i {
        k
    } else {
        k + 1
    }] by {}
    assert forall|p: int, q: int| 0 <= p < q < t.len() implies t[p].name@ != t[q].name@ by {
        let sp: int = if p < i { p } else { p + 1 };
        let sq: int = if q < i { q } else { q + 1 };
        assert(t[p] == s[sp] && t[q] == s[sq]);
        assert(sp < sq);
    }
    if seq_has_name(t, s[i].name@) {
        let k = choose|k: int| 0 <= k < t.len() && t[k].name@ == s[i].name@;
        let sk: int = if k < i { k } else { k + 1 };
        assert(s[sk].name@ == s[i].name@ && sk != i);
        assert(false);
    }
    assert forall|n: Seq<char>| #[trigger] seq_has_name(t, n) implies seq_has_name(s, n) && n
        != s[i].name@ by {
        let k = choose|k: int| 0 <= k < t.len() && t[k].name@ == n;
        let sk: int = if k < i { k } else { k + 1 };
        assert(s[sk].name@ == n);
    }
    assert forall|n: Seq<char>| seq_has_name(s, n) && n != s[i].name@ implies #[trigger]
    seq_has_name(t, n) by {
        let k = choose|k: int| 0 <= k < s.len() && s[k].name@ == n;
        assert(k != i);
        let tk: int = if k < i { k } else { k - 1 };
        assert(t[tk] == s[k]);
    }
    assert forall|n: Seq<char>| #[trigger] seq_has_name(t, n) implies map_of(t)[n] == map_of(
        s,
    )[n] by {
        let k = index_of_name(t, n);
        lemma_value_at(t, k);
        let sk: int = if k < i { k } else { k + 1 };
        assert(s[sk].name@ == n);
        lemma_value_at(s, sk);
        assert(t[k].amount == s[sk].amount);
    }
    assert(map_of(t) =~= map_of(s).remove(s[i].name@));
}

/// When names are distinct, the map has exactly one entry per bill.
proof fn lemma_dom_len(s: Seq<Bill>)
    requires
        distinct_names(s),
    ensures
        map_of(s).dom().finite(),
        map_of(s).dom().len() == s.len(),
    decreases s.len(),
{
    if s.len() == 0 {
        assert(map_of(s).dom() =~= Set::<Seq<char>>::empty());
    } else {
        let s0 = s.drop_last();
        let b = s.last();
        assert(distinct_names(s0));
        lemma_dom_len(s0);
        assert(s0.push(b) =~= s);
        if seq_has_name(s0, b.name@) {
            let k = choose|k: int| 0 <= k < s0.len() && s0[k].name@ == b.name@;
            assert(s[k].name@ == s[s.len() - 1].name@);
            assert(false);
        }
        lemma_map_of_push(s0, b);
        assert(map_of(s).dom() =~= map_of(s0).dom().insert(b.name@));
        assert(!map_of(s0).dom().contains(b.name@));
    }
}

/// The index of the bill named `name@`, when one is stored.
fn position_of(v: &Vec<Bill>, name: &String) -> (r: Option<usize>)
    ensures
        match r {
            Some(i) => i < v@.len() && v@[i as int].name@ == name@,
            None => !seq_has_name(v@, name@),
        },
{
    let mut i: usize = 0;
    while i < v.len()
        invariant
            i <= v@.len(),
            forall|k: int| 0 <= k < i ==> v@[k].name@ != name@,
        decreases v@.len() - i,
    {
        if v[i].name == *name {
            return Some(i);
        }
        i += 1;
    }
    None
}

impl Bills {
    /// The store's internal invariant: no two stored bills share a name.
    pub closed spec fn wf(&self) -> bool {
        distinct_names(self.inner@)
    }

    /// Create a new, empty bills collection.
    pub fn new() -> (r: Bills)
        ensures
            r.wf(),
            r@ == Map::<Seq<char>, u64>::empty(),
    {
        let r = Bills { inner: Vec::new() };
        proof {
            assert(r@ =~= Map::<Seq<char>, u64>::empty());
        }
        r
    }

    /// Add a bill. If a bill with the same name exists, its amount is
    /// overwritten; otherwise a new record is created. Always succeeds.
    pub fn add(&mut self, bill: Bill)
        requires
            old(self).wf(),
        ensures
            final(self).wf(),
            final(self)@ == old(self)@.insert(bill.name@, bill.amount),
    {
        let ghost s0 = self.inner@;
        match position_of(&self.inner, &bill.name) {
            Some(i) => {
                proof {
                    lemma_value_at(s0, i as int);
                    lemma_map_of_remove(s0, i as int);
                }
                let _ = self.inner.remove(i);
                proof {
                    lemma_map_of_push(self.inner@, bill);
                }
                self.inner.push(bill);
                proof {
                    assert(map_of(s0).remove(bill.name@).insert(bill.name@, bill.amount)
                        =~= map_of(s0).insert(bill.name@, bill.amount));
                }
            },
            None => {
                proof {
                    lemma_map_of_push(s0, bill);
                }
                self.inner.push(bill);
            },
        }
    }

    /// Remove the bill with the given name, if present. Returns whether a
    /// record existed and was removed; an absent name leaves the store
    /// unchanged.
    pub fn remove(&mut self, name: &str) -> (r: bool)
        requires
            old(self).wf(),
        ensures
            final(self).wf(),
            r == old(self)@.dom().contains(name@),
            r ==> final(self)@ == old(self)@.remove(name@),
            !r ==> final(self)@ == old(self)@,
    {
        let needle = name.to_owned();
        match position_of(&self.inner, &needle) {
            Some(i) => {
                proof {
                    lemma_value_at(self.inner@, i as int);
                    lemma_map_of_remove(self.inner@, i as int);
                }
                let _ = self.inner.remove(i);
                true
            },
            None => false,
        }
    }

    /// Set the amount of the bill with the given name. Returns whether a
    /// record existed and was updated; an absent name leaves the store
    /// unchanged.
    pub fn update(&mut self, name: &str, amount: u64) -> (r: bool)
        requires
            old(self).wf(),
        ensures
            final(self).wf(),
            r == old(self)@.dom().contains(name@),
            r ==> final(self)@ == old(self)@.insert(name@, amount),
            !r ==> final(self)@ == old(self)@,
    {
        let ghost s0 = self.inner@;
        let needle = name.to_owned();
        match position_of(&self.inner, &needle) {
            Some(i) => {
                proof {
                    lemma_value_at(s0, i as int);
                    lemma_map_of_remove(s0, i as int);
                }
                let mut bill = self.inner.remove(i);
                bill.amount = amount;
                proof {
                    lemma_map_of_push(self.inner@, bill);
                }
                self.inner.push(bill);
                proof {
                    assert(map_of(s0).remove(name@).insert(name@, amount)
                        =~= map_of(s0).insert(name@, amount));
                }
                true
            },
            None => false,
        }
    }

    /// Return all current bills, one per stored name, in unspecified
    /// order: every returned bill is a pair of the store's map, the names
    /// are distinct, and every stored name appears.
    pub fn get_all(&self) -> (r: Vec<Bill>)
        requires
            self.wf(),
        ensures
            r@.len() == self@.dom().len(),
            forall|i: int|
                0 <= i < r@.len() ==> self@.contains_pair(#[trigger] r@[i].name@, r@[i].amount),
            forall|i: int, j: int| 0 <= i < j < r@.len() ==> r@[i].name@ != r@[j].name@,
            forall|n: Seq<char>|
                #[trigger] self@.dom().contains(n) ==> exists|i: int|
                    0 <= i < r@.len() && r@[i].name@ == n,
    {
        let ghost s = self.inner@;
        let mut r: Vec<Bill> = Vec::new();
        let mut i: usize = 0;
        while i < self.inner.len()
            invariant
                s == self.inner@,
                i <= s.len(),
                r@.len() == i,
                forall|k: int|
                    0 <= k < i ==> #[trigger] r@[k].name@ == s[k].name@ && r@[k].amount
                        == s[k].amount,
            decreases s.len() - i,
        {
            let b = &self.inner[i];
            r.push(Bill { name: b.name.clone(), amount: b.amount });
            i += 1;
        }
        proof {
            lemma_dom_len(s);
            assert forall|k: int|
                0 <= k < r@.len() implies self@.contains_pair(
                #[trigger] r@[k].name@,
                r@[k].amount,
            ) by {
                lemma_value_at(s, k);
            }
            assert forall|n: Seq<char>| #[trigger] self@.dom().contains(n) implies exists|k: int|
                0 <= k < r@.len() && r@[k].name@ == n by {
                let k = index_of_name(s, n);
                assert(0 <= k < s.len() && s[k].name@ == n);
                assert(r@[k].name@ == n);
            }
        }
        r
    }
}

/// The store's abstract state after adding each bill of `s` in turn to a
/// store whose state was `m`, as `Bills::add` describes one step.
pub open spec fn store_after_adds(m: Map<Seq<char>, u64>, s: Seq<Bill>) -> Map<Seq<char>, u64>
    decreases s.len(),
{
    if s.len() == 0 {
        m
    } else {
        store_after_adds(m, s.drop_last()).insert(s.last().name@, s.last().amount)
    }
}

/// After any sequence of adds with distinct names to an empty store, the
/// store contains exactly those bills with their given amounts, and its
/// size equals the number of names used.
pub proof fn lemma_distinct_adds(s: Seq<Bill>)
    requires
        distinct_names(s),
    ensures
        store_after_adds(Map::empty(), s).dom().finite(),
        store_after_adds(Map::empty(), s).dom().len() == s.len(),
        forall|i: int|
            0 <= i < s.len() ==> store_after_adds(Map::empty(), s).contains_pair(
                #[trigger] s[i].name@,
                s[i].amount,
            ),
        forall|n: Seq<char>|
            #[trigger] store_after_adds(Map::empty(), s).dom().contains(n) ==> exists|i: int|
                0 <= i < s.len() && s[i].name@ == n,
    decreases s.len(),
{
    if s.len() > 0 {
        let s0 = s.drop_last();
        let b = s.last();
        let m0 = store_after_adds(Map::empty(), s0);
        let m = store_after_adds(Map::empty(), s);
        assert(distinct_names(s0));
        lemma_distinct_adds(s0);
        if m0.dom().contains(b.name@) {
            let i = choose|i: int| 0 <= i < s0.len() && s0[i].name@ == b.name@;
            assert(s[i].name@ == s[s.len() - 1].name@);
            assert(false);
        }
        assert(m == m0.insert(b.name@, b.amount));
        assert forall|i: int|
            0 <= i < s.len() implies m.contains_pair(#[trigger] s[i].name@, s[i].amount) by {
            if i < s.len() - 1 {
                assert(m0.contains_pair(s0[i].name@, s0[i].amount));
                assert(s[i].name@ != b.name@);
            }
        }
        assert forall|n: Seq<char>| #[trigger] m.dom().contains(n) implies exists|i: int|
            0 <= i < s.len() && s[i].name@ == n by {
            if n == b.name@ {
                assert(s[s.len() - 1].name@ == n);
            } else {
                let i = choose|i: int| 0 <= i < s0.len() && s0[i].name@ == n;
                assert(s[i].name@ == n);
            }
        }
    }
}

/// Adding a bill whose name is already present overwrites the amount: the
/// store's set of names and its size are unchanged, the name now carries
/// the new amount, and the prior amount is no longer retrievable.
pub proof fn lemma_add_overwrites(m: Map<Seq<char>, u64>, name: Seq<char>, amount: u64)
    requires
        m.dom().finite(),
        m.dom().contains(name),
    ensures
        m.insert(name, amount).dom() == m.dom(),
        m.insert(name, amount).dom().len() == m.dom().len(),
        m.insert(name, amount)[name] == amount,
{
    assert(m.insert(name, amount).dom() =~= m.dom());
}

/// A removed name is absent from the store afterwards.
pub proof fn lemma_removed_name_absent(m: Map<Seq<char>, u64>, name: Seq<char>)
    ensures
        !m.remove(name).dom().contains(name),
{
}

} // verus!
