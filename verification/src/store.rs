//! An ordered byte-keyed store with atomic batches.
//!
//! The store maps byte-string keys to byte-string values and keeps its
//! entries in lexicographic key order, so a forward range scan hands entries
//! back sorted.  Every mutation of the array engine goes through one
//! [`Batch`], committed as a whole: the batch's effect on the store's map is
//! a single spec function, [`apply_batch`], so no reader of the model ever
//! sees a batch half applied.
//!
//! Merge entries in a batch do not overwrite: they combine the stored value
//! with a delta through the counter merge function of [`crate::merge`].

use vstd::prelude::*;

use crate::bytes::{bytes_eq, copy_bytes, lemma_lex_lt_asymmetric, lemma_lex_lt_irreflexive,
    lemma_lex_lt_transitive, lemma_lex_lt_trichotomy, lex_le, lex_le_bytes, lex_lt, lex_lt_bytes};
use crate::merge::{counter_bytes, decode_counter, encode_counter, merged_counter, wrap_add,
    counter_of, sum_deltas};

verus! {

/// Does some entry of `s` carry the key `k`?
pub open spec fn has_key(s: Seq<(Vec<u8>, Vec<u8>)>, k: Seq<u8>) -> bool {
    exists|i: int| 0 <= i < s.len() && s[i].0@ == k
}

/// The index of the entry of `s` carrying the key `k`.
pub open spec fn key_index(s: Seq<(Vec<u8>, Vec<u8>)>, k: Seq<u8>) -> int {
    choose|i: int| 0 <= i < s.len() && s[i].0@ == k
}

/// The map a sequence of entries denotes.
pub open spec fn entries_map(s: Seq<(Vec<u8>, Vec<u8>)>) -> Map<Seq<u8>, Seq<u8>> {
    Map::new(|k: Seq<u8>| has_key(s, k), |k: Seq<u8>| s[key_index(s, k)].1@)
}

/// Entries in strictly ascending key order.
pub open spec fn sorted_entries(s: Seq<(Vec<u8>, Vec<u8>)>) -> bool {
    forall|i: int, j: int| 0 <= i < j < s.len() ==> lex_lt(s[i].0@, s[j].0@)
}

/// Is `k` in the half-open key interval `[from, to)`?
pub open spec fn in_range(from: Seq<u8>, k: Seq<u8>, to: Seq<u8>) -> bool {
    lex_le(from, k) && lex_lt(k, to)
}

/// The entry `e` carries the same key and value as entry `j` of `s`.
pub open spec fn entry_from(e: (Vec<u8>, Vec<u8>), s: Seq<(Vec<u8>, Vec<u8>)>, j: int) -> bool {
    e.0@ == s[j].0@ && e.1@ == s[j].1@
}

pub proof fn lemma_sorted_unique(s: Seq<(Vec<u8>, Vec<u8>)>, i: int, j: int)
    requires
        sorted_entries(s),
        0 <= i < s.len(),
        0 <= j < s.len(),
        s[i].0@ == s[j].0@,
    ensures
        i == j,
{
    if i < j {
        lemma_lex_lt_irreflexive(s[i].0@);
    }
    if j < i {
        lemma_lex_lt_irreflexive(s[i].0@);
    }
}

/// Each entry of a sorted sequence is what its map holds under its key.
pub proof fn lemma_map_entry(s: Seq<(Vec<u8>, Vec<u8>)>, i: int)
    requires
        sorted_entries(s),
        0 <= i < s.len(),
    ensures
        entries_map(s).contains_key(s[i].0@),
        entries_map(s)[s[i].0@] == s[i].1@,
{
    let k = s[i].0@;
    assert(has_key(s, k));
    let j = key_index(s, k);
    lemma_sorted_unique(s, i, j);
}

/// Overwriting the entry at `p` with an equal key updates the map pointwise.
proof fn lemma_map_update(s: Seq<(Vec<u8>, Vec<u8>)>, p: int, e: (Vec<u8>, Vec<u8>))
    requires
        sorted_entries(s),
        0 <= p < s.len(),
        e.0@ == s[p].0@,
    ensures
        sorted_entries(s.update(p, e)),
        entries_map(s.update(p, e)) == entries_map(s).insert(e.0@, e.1@),
{
    let t = s.update(p, e);
    assert forall|i: int, j: int| 0 <= i < j < t.len() implies lex_lt(t[i].0@, t[j].0@) by {
        assert(t[i].0@ == s[i].0@);
        assert(t[j].0@ == s[j].0@);
    }
    let mt = entries_map(t);
    let target = entries_map(s).insert(e.0@, e.1@);
    assert forall|k: Seq<u8>| #[trigger] mt.dom().contains(k) implies target.dom().contains(k)
        && mt[k] == target[k] by {
        let i = key_index(t, k);
        lemma_map_entry(t, i);
        if i == p {
            lemma_sorted_unique(t, i, p);
        } else {
            assert(t[i].0@ == s[i].0@ && t[i].1@ == s[i].1@);
            if s[i].0@ == e.0@ {
                lemma_sorted_unique(s, i, p);
            }
            lemma_map_entry(s, i);
            assert(has_key(s, k));
        }
    }
    assert forall|k: Seq<u8>| #[trigger] target.dom().contains(k) implies mt.dom().contains(k) by {
        if k == e.0@ {
            assert(t[p].0@ == k);
        } else {
            let i = key_index(s, k);
            assert(s[i].0@ == k);
            if i == p {
                assert(false);
            }
            assert(t[i].0@ == k);
        }
    }
    assert(mt =~= target);
}

/// Inserting an entry at its sorted position inserts its key into the map.
proof fn lemma_map_insert(s: Seq<(Vec<u8>, Vec<u8>)>, p: int, e: (Vec<u8>, Vec<u8>))
    requires
        sorted_entries(s),
        0 <= p <= s.len(),
        forall|j: int| 0 <= j < p ==> lex_lt(#[trigger] s[j].0@, e.0@),
        forall|j: int| p <= j < s.len() ==> lex_lt(e.0@, #[trigger] s[j].0@),
    ensures
        sorted_entries(s.insert(p, e)),
        entries_map(s.insert(p, e)) == entries_map(s).insert(e.0@, e.1@),
{
    let t = s.insert(p, e);
    s.insert_ensures(p, e);
    assert forall|i: int, j: int| 0 <= i < j < t.len() implies lex_lt(t[i].0@, t[j].0@) by {
        if i < p && j == p {
        } else if i < p && j > p {
            lemma_lex_lt_transitive(s[i].0@, e.0@, s[j - 1].0@);
        } else if i == p && j > p {
        } else if i > p && j > p {
            assert(t[i].0@ == s[i - 1].0@);
            assert(t[j].0@ == s[j - 1].0@);
        }
    }
    let mt = entries_map(t);
    let target = entries_map(s).insert(e.0@, e.1@);
    assert forall|k: Seq<u8>| #[trigger] mt.dom().contains(k) implies target.dom().contains(k)
        && mt[k] == target[k] by {
        let i = key_index(t, k);
        lemma_map_entry(t, i);
        if i == p {
        } else if i < p {
            assert(t[i].0@ == s[i].0@ && t[i].1@ == s[i].1@);
            lemma_map_entry(s, i);
            if s[i].0@ == e.0@ {
                lemma_lex_lt_irreflexive(e.0@);
            }
        } else {
            assert(t[i].0@ == s[i - 1].0@ && t[i].1@ == s[i - 1].1@);
            lemma_map_entry(s, i - 1);
            if s[i - 1].0@ == e.0@ {
                lemma_lex_lt_irreflexive(e.0@);
            }
        }
    }
    assert forall|k: Seq<u8>| #[trigger] target.dom().contains(k) implies mt.dom().contains(k) by {
        if k == e.0@ {
            assert(t[p].0@ == k);
        } else {
            let i = key_index(s, k);
            assert(s[i].0@ == k);
            if i < p {
                assert(t[i].0@ == k);
            } else {
                assert(t[i + 1].0@ == k);
            }
        }
    }
    assert(mt =~= target);
}

/// Removing the entry at `p` removes its key from the map.
proof fn lemma_map_remove_at(s: Seq<(Vec<u8>, Vec<u8>)>, p: int)
    requires
        sorted_entries(s),
        0 <= p < s.len(),
    ensures
        sorted_entries(s.remove(p)),
        entries_map(s.remove(p)) == entries_map(s).remove(s[p].0@),
{
    let t = s.remove(p);
    s.remove_ensures(p);
    assert forall|i: int, j: int| 0 <= i < j < t.len() implies lex_lt(t[i].0@, t[j].0@) by {
        if i < p && j < p {
        } else if i < p {
            assert(t[j].0@ == s[j + 1].0@);
        } else {
            assert(t[i].0@ == s[i + 1].0@);
            assert(t[j].0@ == s[j + 1].0@);
        }
    }
    let mt = entries_map(t);
    let target = entries_map(s).remove(s[p].0@);
    assert forall|k: Seq<u8>| #[trigger] mt.dom().contains(k) implies target.dom().contains(k)
        && mt[k] == target[k] by {
        let i = key_index(t, k);
        lemma_map_entry(t, i);
        if i < p {
            lemma_map_entry(s, i);
            if s[i].0@ == s[p].0@ {
                lemma_sorted_unique(s, i, p);
            }
        } else {
            assert(t[i].0@ == s[i + 1].0@ && t[i].1@ == s[i + 1].1@);
            lemma_map_entry(s, i + 1);
            if s[i + 1].0@ == s[p].0@ {
                lemma_sorted_unique(s, i + 1, p);
            }
        }
    }
    assert forall|k: Seq<u8>| #[trigger] target.dom().contains(k) implies mt.dom().contains(k) by {
        let i = key_index(s, k);
        assert(s[i].0@ == k);
        if i == p {
            assert(false);
        } else if i < p {
            assert(t[i].0@ == k);
        } else {
            assert(t[i - 1].0@ == k);
        }
    }
    assert(mt =~= target);
}

/// One atomic set of writes: applied to the store as a whole or not at all.
/// Its effect is `apply_batch`: the puts, then the deletes, then the merges,
/// then the range deletes, each kind in the order listed.
pub struct Batch {
    pub puts: Vec<(Vec<u8>, Vec<u8>)>,
    pub deletes: Vec<Vec<u8>>,
    pub merges: Vec<(Vec<u8>, Vec<u8>)>,
    pub range_deletes: Vec<(Vec<u8>, Vec<u8>)>,
}

impl Batch {
    pub fn new() -> (b: Batch)
        ensures
            b.puts@ =~= Seq::<(Vec<u8>, Vec<u8>)>::empty(),
            b.deletes@ =~= Seq::<Vec<u8>>::empty(),
            b.merges@ =~= Seq::<(Vec<u8>, Vec<u8>)>::empty(),
            b.range_deletes@ =~= Seq::<(Vec<u8>, Vec<u8>)>::empty(),
    {
        Batch { puts: Vec::new(), deletes: Vec::new(), merges: Vec::new(), range_deletes: Vec::new() }
    }
}

/// What one merge write leaves under `k`: the stored value (absent counts as
/// zero) combined with the delta operand `d`.
pub open spec fn merged_value(m: Map<Seq<u8>, Seq<u8>>, k: Seq<u8>, d: Seq<u8>) -> Seq<u8> {
    counter_bytes(
        merged_counter(
            if m.contains_key(k) {
                Some(m[k])
            } else {
                None
            },
            seq![d],
        ),
    )
}

pub open spec fn apply_puts(m: Map<Seq<u8>, Seq<u8>>, s: Seq<(Vec<u8>, Vec<u8>)>) -> Map<
    Seq<u8>,
    Seq<u8>,
>
    decreases s.len(),
{
    if s.len() == 0 {
        m
    } else {
        apply_puts(m, s.drop_last()).insert(s.last().0@, s.last().1@)
    }
}

pub open spec fn apply_deletes(m: Map<Seq<u8>, Seq<u8>>, s: Seq<Vec<u8>>) -> Map<Seq<u8>, Seq<u8>>
    decreases s.len(),
{
    if s.len() == 0 {
        m
    } else {
        apply_deletes(m, s.drop_last()).remove(s.last()@)
    }
}

pub open spec fn apply_merges(m: Map<Seq<u8>, Seq<u8>>, s: Seq<(Vec<u8>, Vec<u8>)>) -> Map<
    Seq<u8>,
    Seq<u8>,
>
    decreases s.len(),
{
    if s.len() == 0 {
        m
    } else {
        let m1 = apply_merges(m, s.drop_last());
        m1.insert(s.last().0@, merged_value(m1, s.last().0@, s.last().1@))
    }
}

/// The map without every key in `[from, to)`.
pub open spec fn range_delete_map(m: Map<Seq<u8>, Seq<u8>>, from: Seq<u8>, to: Seq<u8>) -> Map<
    Seq<u8>,
    Seq<u8>,
> {
    Map::new(|k: Seq<u8>| m.dom().contains(k) && !in_range(from, k, to), |k: Seq<u8>| m[k])
}

pub open spec fn apply_range_deletes(m: Map<Seq<u8>, Seq<u8>>, s: Seq<(Vec<u8>, Vec<u8>)>) -> Map<
    Seq<u8>,
    Seq<u8>,
>
    decreases s.len(),
{
    if s.len() == 0 {
        m
    } else {
        range_delete_map(apply_range_deletes(m, s.drop_last()), s.last().0@, s.last().1@)
    }
}

/// The store's map after a batch commits.
pub open spec fn apply_batch(m: Map<Seq<u8>, Seq<u8>>, b: Batch) -> Map<Seq<u8>, Seq<u8>> {
    apply_range_deletes(
        apply_merges(apply_deletes(apply_puts(m, b.puts@), b.deletes@), b.merges@),
        b.range_deletes@,
    )
}

/// The ordered store: entries sorted strictly by key.
pub struct Store {
    entries: Vec<(Vec<u8>, Vec<u8>)>,
}

impl View for Store {
    type V = Map<Seq<u8>, Seq<u8>>;

    closed spec fn view(&self) -> Map<Seq<u8>, Seq<u8>> {
        entries_map(self.entries@)
    }
}

impl Store {
    /// The store keeps its entries in strictly ascending key order.
    pub closed spec fn wf(&self) -> bool {
        sorted_entries(self.entries@)
    }

    /// A fresh, empty store.
    pub fn new() -> (s: Store)
        ensures
            s.wf(),
            s@ == Map::<Seq<u8>, Seq<u8>>::empty(),
    {
        let s = Store { entries: Vec::new() };
        proof {
            assert(s@ =~= Map::<Seq<u8>, Seq<u8>>::empty());
        }
        s
    }

    /// Point lookup.
    pub fn get<'a>(&'a self, key: &Vec<u8>) -> (r: Option<&'a Vec<u8>>)
        requires
            self.wf(),
        ensures
            (match r {
                Some(v) => self@.contains_key(key@) && v@ == self@[key@],
                None => !self@.contains_key(key@),
            }),
    {
        let mut i: usize = 0;
        while i < self.entries.len()
            invariant
                self.wf(),
                0 <= i <= self.entries@.len(),
                forall|j: int| 0 <= j < i ==> self.entries@[j].0@ != key@,
            decreases self.entries@.len() - i,
        {
            if bytes_eq(&self.entries[i].0, key) {
                proof {
                    lemma_map_entry(self.entries@, i as int);
                }
                return Some(&self.entries[i].1);
            }
            i = i + 1;
        }
        proof {
            assert(!has_key(self.entries@, key@));
        }
        None
    }

    /// The position where `key` stands or would be inserted.
    fn find_at_least(&self, key: &Vec<u8>) -> (p: usize)
        requires
            self.wf(),
        ensures
            0 <= p <= self.entries@.len(),
            forall|j: int| 0 <= j < p ==> lex_lt(self.entries@[j].0@, key@),
            p < self.entries@.len() ==> !lex_lt(self.entries@[p as int].0@, key@),
    {
        let n = self.entries.len();
        let mut p: usize = 0;
        loop
            invariant
                self.wf(),
                n == self.entries@.len(),
                0 <= p <= n,
                forall|j: int| 0 <= j < p ==> lex_lt(self.entries@[j].0@, key@),
            ensures
                0 <= p <= n,
                forall|j: int| 0 <= j < p ==> lex_lt(self.entries@[j].0@, key@),
                p < n ==> !lex_lt(self.entries@[p as int].0@, key@),
            decreases n - p,
        {
            if p >= n {
                break ;
            }
            if !lex_lt_bytes(&self.entries[p].0, key) {
                break ;
            }
            p = p + 1;
        }
        p
    }

    /// Write `value` under `key`, creating or overwriting.
    pub fn put(&mut self, key: Vec<u8>, value: Vec<u8>)
        requires
            old(self).wf(),
        ensures
            final(self).wf(),
            final(self)@ == old(self)@.insert(key@, value@),
    {
        let ghost s0 = self.entries@;
        let p = self.find_at_least(&key);
        let mut replace = false;
        if p < self.entries.len() {
            if bytes_eq(&self.entries[p].0, &key) {
                replace = true;
            }
        }
        if replace {
            let _removed = self.entries.remove(p);
            self.entries.insert(p, (key, value));
            proof {
                let e = self.entries@[p as int];
                assert(self.entries@ =~= s0.update(p as int, e)) by {
                    s0.remove_ensures(p as int);
                    s0.remove(p as int).insert_ensures(p as int, e);
                }
                lemma_map_update(s0, p as int, e);
                assert(self@ =~= old(self)@.insert(key@, value@));
            }
        } else {
            self.entries.insert(p, (key, value));
            proof {
                let e = self.entries@[p as int];
                assert(e.0@ == key@ && e.1@ == value@) by {
                    s0.insert_ensures(p as int, e);
                }
                assert forall|j: int| p <= j < s0.len() implies lex_lt(key@, s0[j].0@) by {
                    lemma_lex_lt_trichotomy(key@, s0[p as int].0@);
                    if s0[p as int].0@ == key@ {
                        assert(false);
                    }
                    if j > p {
                        lemma_lex_lt_transitive(key@, s0[p as int].0@, s0[j].0@);
                    }
                }
                lemma_map_insert(s0, p as int, e);
                assert(self.entries@ =~= s0.insert(p as int, e));
                assert(self@ =~= old(self)@.insert(key@, value@));
            }
        }
    }

    /// Remove `key` if present.
    pub fn delete(&mut self, key: &Vec<u8>)
        requires
            old(self).wf(),
        ensures
            final(self).wf(),
            final(self)@ == old(self)@.remove(key@),
    {
        let ghost s0 = self.entries@;
        let p = self.find_at_least(key);
        let mut found = false;
        if p < self.entries.len() {
            if bytes_eq(&self.entries[p].0, key) {
                found = true;
            }
        }
        if found {
            let _removed = self.entries.remove(p);
            proof {
                lemma_map_remove_at(s0, p as int);
                assert(self@ =~= old(self)@.remove(key@));
            }
        } else {
            proof {
                assert(!has_key(s0, key@)) by {
                    if has_key(s0, key@) {
                        let j = choose|j: int| 0 <= j < s0.len() && s0[j].0@ == key@;
                        if j < p {
                            lemma_lex_lt_irreflexive(key@);
                        } else if j == p {
                            assert(false);
                        } else {
                            lemma_lex_lt_trichotomy(key@, s0[p as int].0@);
                            if lex_lt(key@, s0[p as int].0@) {
                                lemma_lex_lt_asymmetric(key@, s0[p as int].0@);
                                lemma_lex_lt_irreflexive(key@);
                            }
                        }
                    }
                }
                assert(self@ =~= old(self)@.remove(key@));
            }
        }
    }

    /// Combine the stored counter under `key` with the delta operand `d`.
    pub fn merge(&mut self, key: Vec<u8>, d: &Vec<u8>)
        requires
            old(self).wf(),
        ensures
            final(self).wf(),
            final(self)@ == old(self)@.insert(key@, merged_value(old(self)@, key@, d@)),
    {
        let cur: i32 = match self.get(&key) {
            Some(v) => decode_counter(v),
            None => 0,
        };
        let delta = decode_counter(d);
        let n = cur.wrapping_add(delta);
        proof {
            assert(seq![d@].drop_last() =~= Seq::<Seq<u8>>::empty());
            assert(sum_deltas(Seq::<Seq<u8>>::empty()) == 0);
            assert(seq![d@].last() == d@);
            assert(sum_deltas(seq![d@]) == wrap_add(0, counter_of(d@)));
        }
        self.put(key, encode_counter(n));
    }

    /// Remove every key in `[from, to)`.
    pub fn delete_range(&mut self, from: &Vec<u8>, to: &Vec<u8>)
        requires
            old(self).wf(),
        ensures
            final(self).wf(),
            final(self)@ == range_delete_map(old(self)@, from@, to@),
    {
        let ghost s0 = self.entries@;
        let (kept, wit) = filter_entries(&self.entries, from, to, false);
        proof {
            lemma_filtered_map(s0, kept@, wit@, from@, to@);
        }
        self.entries = kept;
        proof {
            assert(self@ =~= range_delete_map(old(self)@, from@, to@));
        }
    }

    /// All entries with keys in `[from, to)`, in ascending key order.
    pub fn scan(&self, from: &Vec<u8>, to: &Vec<u8>) -> (r: Vec<(Vec<u8>, Vec<u8>)>)
        requires
            self.wf(),
        ensures
            sorted_entries(r@),
            forall|a: int|
                0 <= a < r@.len() ==> self@.contains_key(#[trigger] r@[a].0@) && r@[a].1@
                    == self@[r@[a].0@] && in_range(from@, r@[a].0@, to@),
            forall|k: Seq<u8>|
                self@.contains_key(k) && in_range(from@, k, to@) ==> has_key(r@, k),
    {
        let (r, wit) = filter_entries(&self.entries, from, to, true);
        proof {
            assert forall|a: int| 0 <= a < r@.len() implies self@.contains_key(#[trigger] r@[a].0@)
                && r@[a].1@ == self@[r@[a].0@] && in_range(from@, r@[a].0@, to@) by {
                assert(entry_from(r@[a], self.entries@, wit@[a]));
                lemma_map_entry(self.entries@, wit@[a]);
            }
            assert forall|k: Seq<u8>|
                self@.contains_key(k) && in_range(from@, k, to@) implies has_key(r@, k) by {
                let j = key_index(self.entries@, k);
            }
        }
        r
    }

    /// Commit a batch: its whole effect or none of it.
    pub fn commit(&mut self, b: &Batch)
        requires
            old(self).wf(),
        ensures
            final(self).wf(),
            final(self)@ == apply_batch(old(self)@, *b),
    {
        let ghost m0 = self@;
        let mut i: usize = 0;
        while i < b.puts.len()
            invariant
                self.wf(),
                0 <= i <= b.puts@.len(),
                self@ == apply_puts(m0, b.puts@.take(i as int)),
            decreases b.puts@.len() - i,
        {
            let e = &b.puts[i];
            self.put(copy_bytes(&e.0), copy_bytes(&e.1));
            proof {
                assert(b.puts@.take(i + 1).drop_last() =~= b.puts@.take(i as int));
                assert(b.puts@.take(i + 1).last() == b.puts@[i as int]);
            }
            i = i + 1;
        }
        proof {
            assert(b.puts@.take(b.puts@.len() as int) =~= b.puts@);
        }
        let ghost m1 = self@;
        let mut i: usize = 0;
        while i < b.deletes.len()
            invariant
                self.wf(),
                0 <= i <= b.deletes@.len(),
                self@ == apply_deletes(m1, b.deletes@.take(i as int)),
            decreases b.deletes@.len() - i,
        {
            self.delete(&b.deletes[i]);
            proof {
                assert(b.deletes@.take(i + 1).drop_last() =~= b.deletes@.take(i as int));
                assert(b.deletes@.take(i + 1).last() == b.deletes@[i as int]);
            }
            i = i + 1;
        }
        proof {
            assert(b.deletes@.take(b.deletes@.len() as int) =~= b.deletes@);
        }
        let ghost m2 = self@;
        let mut i: usize = 0;
        while i < b.merges.len()
            invariant
                self.wf(),
                0 <= i <= b.merges@.len(),
                self@ == apply_merges(m2, b.merges@.take(i as int)),
            decreases b.merges@.len() - i,
        {
            let e = &b.merges[i];
            self.merge(copy_bytes(&e.0), &e.1);
            proof {
                assert(b.merges@.take(i + 1).drop_last() =~= b.merges@.take(i as int));
                assert(b.merges@.take(i + 1).last() == b.merges@[i as int]);
            }
            i = i + 1;
        }
        proof {
            assert(b.merges@.take(b.merges@.len() as int) =~= b.merges@);
        }
        let ghost m3 = self@;
        let mut i: usize = 0;
        while i < b.range_deletes.len()
            invariant
                self.wf(),
                0 <= i <= b.range_deletes@.len(),
                self@ == apply_range_deletes(m3, b.range_deletes@.take(i as int)),
            decreases b.range_deletes@.len() - i,
        {
            let e = &b.range_deletes[i];
            self.delete_range(&e.0, &e.1);
            proof {
                assert(b.range_deletes@.take(i + 1).drop_last() =~= b.range_deletes@.take(i as int));
                assert(b.range_deletes@.take(i + 1).last() == b.range_deletes@[i as int]);
            }
            i = i + 1;
        }
        proof {
            assert(b.range_deletes@.take(b.range_deletes@.len() as int) =~= b.range_deletes@);
        }
    }
}

/// Keep exactly the entries whose membership in `[from, to)` equals
/// `inside`.  The ghost result says, entry by entry, where in `entries` each
/// kept entry comes from.
#[verifier::rlimit(50)]
fn filter_entries(
    entries: &Vec<(Vec<u8>, Vec<u8>)>,
    from: &Vec<u8>,
    to: &Vec<u8>,
    inside: bool,
) -> (res: (Vec<(Vec<u8>, Vec<u8>)>, Ghost<Seq<int>>))
    requires
        sorted_entries(entries@),
    ensures
        sorted_entries(res.0@),
        res.1@.len() == res.0@.len(),
        forall|a: int|
            #![trigger res.0@[a]]
            #![trigger res.1@[a]]
            0 <= a < res.0@.len() ==> 0 <= res.1@[a] < entries@.len() && entry_from(
                res.0@[a],
                entries@,
                res.1@[a],
            ) && (in_range(from@, res.0@[a].0@, to@) == inside),
        forall|j: int|
            0 <= j < entries@.len() && (in_range(from@, #[trigger] entries@[j].0@, to@) == inside)
                ==> has_key(res.0@, entries@[j].0@),
{
    let mut out: Vec<(Vec<u8>, Vec<u8>)> = Vec::new();
    let ghost mut wit: Seq<int> = Seq::empty();
    let mut i: usize = 0;
    while i < entries.len()
        invariant
            sorted_entries(entries@),
            0 <= i <= entries@.len(),
            sorted_entries(out@),
            wit.len() == out@.len(),
            forall|a: int|
                #![trigger out@[a]]
                #![trigger wit[a]]
                0 <= a < out@.len() ==> 0 <= wit[a] < i && entry_from(out@[a], entries@, wit[a])
                    && (in_range(from@, out@[a].0@, to@) == inside),
            forall|j: int|
                0 <= j < i && (in_range(from@, #[trigger] entries@[j].0@, to@) == inside)
                    ==> has_key(out@, entries@[j].0@),
        decreases entries@.len() - i,
    {
        let e = &entries[i];
        let le = lex_le_bytes(from, &e.0);
        let lt = lex_lt_bytes(&e.0, to);
        let is_in = le && lt;
        let ghost out0 = out@;
        let ghost wit0 = wit;
        if is_in == inside {
            out.push((copy_bytes(&e.0), copy_bytes(&e.1)));
            proof {
                wit = wit.push(i as int);
                let a_new = out@.len() - 1;
                assert(out@[a_new].0@ == entries@[i as int].0@);
                assert(out@[a_new].1@ == entries@[i as int].1@);
                assert forall|a: int|
                    #![trigger out@[a]]
                    #![trigger wit[a]]
                    0 <= a < out@.len() implies 0 <= wit[a] < i + 1 && entry_from(
                    out@[a],
                    entries@,
                    wit[a],
                ) && (in_range(from@, out@[a].0@, to@) == inside) by {
                    if a < a_new {
                        assert(out@[a] == out0[a]);
                        assert(wit[a] == wit0[a]);
                        assert(entry_from(out0[a], entries@, wit0[a]));
                    } else {
                        assert(wit[a] == i as int);
                        assert(entry_from(out@[a], entries@, i as int));
                        assert(in_range(from@, out@[a].0@, to@) == is_in);
                    }
                }
                assert forall|a: int, b: int| 0 <= a < b < out@.len() implies lex_lt(
                    out@[a].0@,
                    out@[b].0@,
                ) by {
                    if b == a_new {
                        assert(out0[a] == out@[a]);
                        assert(lex_lt(entries@[wit[a]].0@, entries@[i as int].0@));
                    }
                }
                assert forall|j: int|
                    0 <= j < i + 1 && (in_range(from@, #[trigger] entries@[j].0@, to@)
                        == inside) implies has_key(out@, entries@[j].0@) by {
                    if j < i {
                        assert(has_key(out0, entries@[j].0@));
                        let a = choose|a: int| 0 <= a < out0.len() && out0[a].0@ == entries@[j].0@;
                        assert(out@[a].0@ == entries@[j].0@);
                    } else {
                        assert(out@[a_new].0@ == entries@[j].0@);
                    }
                }
            }
        } else {
            proof {
                assert forall|j: int|
                    0 <= j < i + 1 && (in_range(from@, #[trigger] entries@[j].0@, to@)
                        == inside) implies has_key(out@, entries@[j].0@) by {
                    if j < i {
                        assert(has_key(out0, entries@[j].0@));
                    }
                }
                assert forall|a: int|
                    #![trigger out@[a]]
                    #![trigger wit[a]]
                    0 <= a < out@.len() implies 0 <= wit[a] < i + 1 && entry_from(
                    out@[a],
                    entries@,
                    wit[a],
                ) && (in_range(from@, out@[a].0@, to@) == inside) by {
                    assert(0 <= wit[a] < i);
                }
            }
        }
        i = i + 1;
    }
    proof {
        assert(i == entries@.len());
        assert forall|a: int|
            #![trigger out@[a]]
            #![trigger wit[a]]
            0 <= a < out@.len() implies 0 <= wit[a] < entries@.len() && entry_from(
            out@[a],
            entries@,
            wit[a],
        ) && (in_range(from@, out@[a].0@, to@) == inside) by {
            assert(0 <= a < out@.len());
            assert(0 <= wit[a] < i);
        }
    }
    (out, Ghost(wit))
}

/// The map of a filtered entry sequence, when filtering keeps what lies
/// outside `[from, to)`.
proof fn lemma_filtered_map(
    s: Seq<(Vec<u8>, Vec<u8>)>,
    r: Seq<(Vec<u8>, Vec<u8>)>,
    wit: Seq<int>,
    from: Seq<u8>,
    to: Seq<u8>,
)
    requires
        sorted_entries(s),
        sorted_entries(r),
        wit.len() == r.len(),
        forall|a: int|
            #![trigger r[a]]
            #![trigger wit[a]]
            0 <= a < r.len() ==> 0 <= wit[a] < s.len() && entry_from(r[a], s, wit[a]) && (
            in_range(from, r[a].0@, to) == false),
        forall|j: int|
            0 <= j < s.len() && (in_range(from, #[trigger] s[j].0@, to) == false) ==> has_key(
                r,
                s[j].0@,
            ),
    ensures
        entries_map(r) == range_delete_map(entries_map(s), from, to),
{
    let mr = entries_map(r);
    let md = range_delete_map(entries_map(s), from, to);
    assert forall|k: Seq<u8>| #[trigger] mr.dom().contains(k) implies md.dom().contains(k)
        && mr[k] == md[k] by {
        let a = key_index(r, k);
        assert(r[a].0@ == k);
        assert(entry_from(r[a], s, wit[a]));
        lemma_map_entry(s, wit[a]);
        lemma_map_entry(r, a);
    }
    assert forall|k: Seq<u8>| #[trigger] md.dom().contains(k) implies mr.dom().contains(k) by {
        let j = key_index(s, k);
        assert(s[j].0@ == k);
        assert(!(in_range(from, k, to)));
        assert(has_key(r, k));
    }
    assert(mr =~= md);
}

} // verus!
