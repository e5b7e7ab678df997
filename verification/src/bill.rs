//! Bills, what each of them records, and the result of splitting them.
use std::collections::BTreeMap;
use vstd::prelude::*;
use crate::who::Who;
use crate::text::{seq_lt, pair_lt, lemma_pair_lt_order, lemma_seq_lt_order};
use vstd::std_specs::iter::IteratorSpec;
use vstd::std_specs::cmp::OrdSpec;

verus! {

/// One bill: who paid, why, how much (in hundredths of the currency unit),
/// and the people it is split between.
pub struct BillItem {
    pub who_paid: Who,
    pub reason: String,
    pub paid: i64,
    pub split: Vec<Who>,
}

/// What a bill records, as plain values.
pub struct BillView {
    pub payer: Seq<char>,
    pub reason: Seq<char>,
    pub paid: int,
    pub split: Seq<Seq<char>>,
}

/// The names of a list of people.
pub open spec fn names_of(ws: Seq<Who>) -> Seq<Seq<char>> {
    ws.map_values(|w: Who| w@)
}

impl View for BillItem {
    type V = BillView;

    open spec fn view(&self) -> BillView {
        BillView {
            payer: self.who_paid@,
            reason: self.reason@,
            paid: self.paid as int,
            split: names_of(self.split@),
        }
    }
}

/// All bills, each under its own 128-bit identifier (the value of a random UUID).
pub struct Bills {
    pub items: BTreeMap<u128, BillItem>,
}

impl View for Bills {
    type V = Map<u128, BillView>;

    open spec fn view(&self) -> Map<u128, BillView> {
        self.items@.map_values(|b: BillItem| b@)
    }
}

/// One thing a person should pay: to whom, how much (in hundredths) and why.
pub struct SplitResultItem {
    pub payee: Who,
    pub bill: i64,
    pub reason: String,
}

/// What a payment record holds, as plain values.
pub struct RecordView {
    pub payee: Seq<char>,
    pub bill: int,
    pub reason: Seq<char>,
}

impl View for SplitResultItem {
    type V = RecordView;

    open spec fn view(&self) -> RecordView {
        RecordView { payee: self.payee@, bill: self.bill as int, reason: self.reason@ }
    }
}

/// The views of a list of payment records.
pub open spec fn records_of(v: Seq<SplitResultItem>) -> Seq<RecordView> {
    v.map_values(|r: SplitResultItem| r@)
}

/// The result of splitting bills: for each person who should pay, everything they
/// should pay (ordered by name), and the simplest settlement between each pair of
/// people (ordered by payer, then payee).
pub struct SplitResult {
    pub items: Vec<(Who, Vec<SplitResultItem>)>,
    pub final_result: Vec<((Who, Who), i64)>,
}

/// What a split result holds, as plain values.
pub struct SplitResultView {
    pub items: Seq<(Seq<char>, Seq<RecordView>)>,
    pub final_result: Seq<((Seq<char>, Seq<char>), int)>,
}

/// The plain view of the per-person records.
pub open spec fn entries_view(v: Seq<(Who, Vec<SplitResultItem>)>) -> Seq<(Seq<char>, Seq<RecordView>)> {
    v.map_values(|e: (Who, Vec<SplitResultItem>)| (e.0@, records_of(e.1@)))
}

/// The plain view of a settlement: (payer, payee) and amount.
pub open spec fn pairs_view(v: Seq<((Who, Who), i64)>) -> Seq<((Seq<char>, Seq<char>), int)> {
    v.map_values(|e: ((Who, Who), i64)| ((e.0.0@, e.0.1@), e.1 as int))
}

impl View for SplitResult {
    type V = SplitResultView;

    open spec fn view(&self) -> SplitResultView {
        SplitResultView { items: entries_view(self.items@), final_result: pairs_view(self.final_result@) }
    }
}

/// Entries keyed by name, in strictly increasing order of name.
pub open spec fn keys_sorted<T>(s: Seq<(Seq<char>, T)>) -> bool {
    forall|i: int, j: int| 0 <= i < j < s.len() ==> seq_lt(#[trigger] s[i].0, #[trigger] s[j].0)
}

/// Entries keyed by pairs of names, in strictly increasing order of pair.
pub open spec fn pairs_sorted(s: Seq<((Seq<char>, Seq<char>), int)>) -> bool {
    forall|i: int, j: int| 0 <= i < j < s.len() ==> pair_lt(#[trigger] s[i].0, #[trigger] s[j].0)
}

/// Whether some entry has key `k`.
pub open spec fn has_key<K, T>(s: Seq<(K, T)>, k: K) -> bool {
    exists|i: int| 0 <= i < s.len() && #[trigger] s[i].0 == k
}

/// The value under key `k`, or `d` where there is none.
pub open spec fn value_or<K, T>(s: Seq<(K, T)>, k: K, d: T) -> T {
    if has_key(s, k) {
        s[choose|i: int| 0 <= i < s.len() && #[trigger] s[i].0 == k].1
    } else {
        d
    }
}

/// Whether no two entries have the same key.
pub open spec fn distinct_keys<K, T>(s: Seq<(K, T)>) -> bool {
    forall|i: int, j: int| 0 <= i < j < s.len() ==> #[trigger] s[i].0 != #[trigger] s[j].0
}

/// Where the entry with key `k` is.
pub open spec fn key_index<K, T>(s: Seq<(K, T)>, k: K) -> int {
    choose|i: int| 0 <= i < s.len() && #[trigger] s[i].0 == k
}

/// In a list whose keys are distinct, the entry at `i` is the one found by its key.
pub proof fn lemma_entry_at<K, T>(s: Seq<(K, T)>, i: int, d: T)
    requires
        distinct_keys(s),
        0 <= i < s.len(),
    ensures
        has_key(s, s[i].0),
        key_index(s, s[i].0) == i,
        value_or(s, s[i].0, d) == s[i].1,
{
    assert(s[i].0 == s[i].0);
    let j = key_index(s, s[i].0);
    if j < i {
        assert(s[j].0 != s[i].0);
    } else if i < j {
        assert(s[i].0 != s[j].0);
    }
}

/// Pairs in strictly increasing order are distinct; the entry at `i` is the one found by key.
pub proof fn lemma_value_at_pair(s: Seq<((Seq<char>, Seq<char>), int)>, i: int)
    requires
        pairs_sorted(s),
        0 <= i < s.len(),
    ensures
        has_key(s, s[i].0),
        value_or(s, s[i].0, 0) == s[i].1,
{
    assert forall|a: int, b: int| 0 <= a < b < s.len() implies #[trigger] s[a].0 != #[trigger] s[b].0 by {
        lemma_pair_lt_order(s[a].0, s[b].0, s[b].0);
    }
    lemma_entry_at(s, i, 0int);
}

/// Names in strictly increasing order are distinct; the entry with the name at `i` is at `i`.
pub proof fn lemma_key_index<T>(s: Seq<(Seq<char>, T)>, i: int)
    requires
        keys_sorted(s),
        0 <= i < s.len(),
    ensures
        key_index(s, s[i].0) == i,
{
    lemma_value_at_name(s, i, s[i].1);
}

/// The records of the entry at `i`, to change in place.
fn records_at(v: &mut Vec<(Who, Vec<SplitResultItem>)>, i: usize) -> (r: &mut Vec<SplitResultItem>)
    requires
        i < old(v)@.len(),
    ensures
        *r == old(v)@[i as int].1,
        final(v)@ == old(v)@.update(i as int, (old(v)@[i as int].0, *final(r))),
{
    &mut v[i].1
}

/// Names in strictly increasing order are distinct; the entry at `i` is the one found by name.
pub proof fn lemma_value_at_name<T>(s: Seq<(Seq<char>, T)>, i: int, d: T)
    requires
        keys_sorted(s),
        0 <= i < s.len(),
    ensures
        has_key(s, s[i].0),
        key_index(s, s[i].0) == i,
        value_or(s, s[i].0, d) == s[i].1,
{
    assert forall|a: int, b: int| 0 <= a < b < s.len() implies #[trigger] s[a].0 != #[trigger] s[b].0 by {
        lemma_seq_lt_order(s[a].0, s[b].0, s[b].0);
    }
    lemma_entry_at(s, i, d);
}

/// Calls `uuid::Uuid::new_v4` and takes the 128-bit value of the new UUID
/// (`Uuid::as_u128`). The value is random; the only fact claimed is what `new_v4` fixes in
/// every UUID it makes: the version field (4) and the variant field (binary 10).
#[verifier::external_body]
fn random_id() -> (id: u128)
    ensures
        (id >> 76u128) & 0xfu128 == 4,
        (id >> 62u128) & 0x3u128 == 2,
{
    uuid::Uuid::new_v4().as_u128()
}

/// Calls `BTreeMap::get_mut`: a mutable reference to the bill under `k`, if there is one;
/// the map then holds, under `k`, whatever the reference holds in the end. Without such a
/// bill the map is left as it was.
#[verifier::external_body]
fn bill_get_mut<'a>(m: &'a mut BTreeMap<u128, BillItem>, k: &u128) -> (r: Option<&'a mut BillItem>)
    ensures
        match r {
            Some(v) => old(m)@.contains_key(*k) && *v == old(m)@[*k] && final(m)@ == old(m)@.insert(*k, *final(v)),
            None => !old(m)@.contains_key(*k) && final(m)@ == old(m)@,
        },
{
    m.get_mut(k)
}

/// What a read gives back of a write, over the bills by identifier (the view that `add_item`,
/// `update_item`, `delete_item`, `get_item` and `contains_item` speak of): a bill written
/// under an identifier is what a read under it gives back, bills under other identifiers stay
/// as they were, and after a delete no bill is left under the deleted identifier.
pub proof fn lemma_read_after_write(m: Map<u128, BillView>, id: u128, v: BillView, other: u128)
    ensures
        m.insert(id, v).contains_key(id),
        m.insert(id, v)[id] == v,
        other != id ==> m.insert(id, v).contains_key(other) == m.contains_key(other),
        other != id && m.contains_key(other) ==> m.insert(id, v)[other] == m[other],
        !m.remove(id).contains_key(id),
        other != id ==> m.remove(id).contains_key(other) == m.contains_key(other),
{
}

impl Default for Bills {
    fn default() -> (b: Bills)
        ensures
            b@ == Map::<u128, BillView>::empty(),
    {
        let b = Bills { items: BTreeMap::new() };
        assert(b@ =~= Map::<u128, BillView>::empty());
        b
    }
}

impl Bills {
    /// Adds a bill: `who_paid` paid `paid` (in hundredths) for `reason`, split between the
    /// people named in `split`. Returns the bill's new random identifier.
    pub fn add_bill(&mut self, who_paid: &str, reason: &str, paid: i64, split: Vec<&str>) -> (id: u128)
        ensures
            final(self)@ == old(self)@.insert(id, BillView {
                payer: who_paid@,
                reason: reason@,
                paid: paid as int,
                split: split@.map_values(|s: &str| s@),
            }),
            (id >> 76u128) & 0xfu128 == 4,
            (id >> 62u128) & 0x3u128 == 2,
    {
        let mut people: Vec<Who> = Vec::new();
        let mut i: usize = 0;
        while i < split.len()
            invariant
                i <= split.len(),
                names_of(people@) =~= split@.take(i as int).map_values(|s: &str| s@),
            decreases split.len() - i,
        {
            let ghost before = names_of(people@);
            let w = Who::new(split[i]);
            assert(w@ == split@[i as int]@);
            people.push(w);
            assert(names_of(people@) =~= before.push(split@[i as int]@));
            assert(split@.take(i + 1) =~= split@.take(i as int).push(split@[i as int]));
            assert(split@.take(i + 1).map_values(|s: &str| s@) =~= split@.take(i as int).map_values(|s: &str| s@).push(split@[i as int]@));
            i = i + 1;
        }
        assert(split@.take(split.len() as int) =~= split@);
        let item = BillItem { who_paid: Who::new(who_paid), reason: reason.to_owned(), paid, split: people };
        self.add_item(item)
    }

    /// Adds a bill under a new random identifier, which it returns.
    pub fn add_item(&mut self, item: BillItem) -> (id: u128)
        ensures
            final(self)@ == old(self)@.insert(id, item@),
            (id >> 76u128) & 0xfu128 == 4,
            (id >> 62u128) & 0x3u128 == 2,
    {
        let id = random_id();
        let ghost v = item@;
        self.items.insert(id, item);
        assert(self@ =~= old(self)@.insert(id, v));
        id
    }

    /// The bill with identifier `id`, if there is one.
    pub fn get_item(&self, id: &u128) -> (r: Option<&BillItem>)
        ensures
            match r {
                Some(b) => self@.contains_key(*id) && b@ == self@[*id],
                None => !self@.contains_key(*id),
            },
    {
        self.items.get(id)
    }

    /// The bill with identifier `id`, to change in place, if there is one.
    pub fn get_item_mut(&mut self, id: &u128) -> (r: Option<&mut BillItem>)
        ensures
            match r {
                Some(b) => old(self)@.contains_key(*id) && b@ == old(self)@[*id]
                    && final(self)@ == old(self)@.insert(*id, final(b)@),
                None => !old(self)@.contains_key(*id) && final(self)@ == old(self)@,
            },
    {
        bill_get_mut(&mut self.items, id)
    }

    /// Replaces the bill with identifier `id` by `item`, if there is such a bill; says
    /// whether there was.
    pub fn update_item(&mut self, id: &u128, item: BillItem) -> (r: bool)
        ensures
            r == old(self)@.contains_key(*id),
            r ==> final(self)@ == old(self)@.insert(*id, item@),
            !r ==> final(self)@ == old(self)@,
    {
        if self.items.contains_key(id) {
            let ghost v = item@;
            self.items.insert(*id, item);
            assert(self@ =~= old(self)@.insert(*id, v));
            true
        } else {
            false
        }
    }

    /// Removes the bill with identifier `id` and gives it back, if there is one.
    pub fn delete_item(&mut self, id: &u128) -> (r: Option<BillItem>)
        ensures
            final(self)@ == old(self)@.remove(*id),
            match r {
                Some(b) => old(self)@.contains_key(*id) && b@ == old(self)@[*id],
                None => !old(self)@.contains_key(*id),
            },
    {
        let r = self.items.remove(id);
        assert(self@ =~= old(self)@.remove(*id));
        r
    }

    /// All bills, by identifier.
    pub fn get_all_items(&self) -> (r: &BTreeMap<u128, BillItem>)
        ensures
            r@.map_values(|b: BillItem| b@) == self@,
    {
        &self.items
    }

    /// Whether there is a bill with identifier `id`.
    pub fn contains_item(&self, id: &u128) -> (r: bool)
        ensures
            r == self@.contains_key(*id),
    {
        self.items.contains_key(id)
    }

    /// Removes every bill.
    pub fn clear_items(&mut self)
        ensures
            final(self)@ == Map::<u128, BillView>::empty(),
    {
        self.items.clear();
        assert(self@ =~= Map::<u128, BillView>::empty());
    }
}

/// Inserting an entry where its name belongs keeps a list ordered by name, and adds that
/// name with that value.
pub proof fn lemma_sorted_insert<T>(ev0: Seq<(Seq<char>, T)>, pos: int, k: Seq<char>, v: T, d: T)
    requires
        keys_sorted(ev0),
        0 <= pos <= ev0.len(),
        forall|j: int| 0 <= j < pos ==> seq_lt(#[trigger] ev0[j].0, k),
        pos < ev0.len() ==> seq_lt(k, ev0[pos].0),
    ensures
        keys_sorted(ev0.insert(pos, (k, v))),
        forall|x: Seq<char>| #[trigger] has_key(ev0.insert(pos, (k, v)), x) <==> (has_key(ev0, x) || x == k),
        forall|x: Seq<char>| #[trigger] value_or(ev0.insert(pos, (k, v)), x, d) == if x == k { v } else { value_or(ev0, x, d) },
{
    let ev1 = ev0.insert(pos, (k, v));
    assert forall|a: int, b: int| 0 <= a < b < ev1.len() implies seq_lt(#[trigger] ev1[a].0, #[trigger] ev1[b].0) by {
        if b < pos {
        } else if b == pos {
            assert(ev1[a] == ev0[a]);
        } else if a < pos {
            assert(ev1[a] == ev0[a] && ev1[b] == ev0[b - 1]);
        } else if a == pos {
            assert(ev1[b] == ev0[b - 1]);
            if pos < b - 1 {
                lemma_seq_lt_order(k, ev0[pos].0, ev0[b - 1].0);
            }
        } else {
            assert(ev1[a] == ev0[a - 1] && ev1[b] == ev0[b - 1]);
        }
    }
    assert forall|x: Seq<char>| #[trigger] has_key(ev1, x) <==> (has_key(ev0, x) || x == k) by {
        if has_key(ev1, x) {
            let i = choose|i: int| 0 <= i < ev1.len() && #[trigger] ev1[i].0 == x;
            if i < pos {
                assert(ev0[i].0 == x);
            } else if i > pos {
                assert(ev0[i - 1].0 == x);
            }
        }
        if has_key(ev0, x) {
            let i = choose|i: int| 0 <= i < ev0.len() && #[trigger] ev0[i].0 == x;
            if i < pos {
                assert(ev1[i].0 == x);
            } else {
                assert(ev1[i + 1].0 == x);
            }
        }
        if x == k {
            assert(ev1[pos].0 == x);
        }
    }
    assert forall|x: Seq<char>| #[trigger] value_or(ev1, x, d) == if x == k { v } else { value_or(ev0, x, d) } by {
        if x == k {
            lemma_value_at_name(ev1, pos, d);
        } else if has_key(ev0, x) {
            let i = choose|i: int| 0 <= i < ev0.len() && #[trigger] ev0[i].0 == x;
            lemma_value_at_name(ev0, i, d);
            if i < pos {
                assert(ev1[i] == ev0[i]);
                lemma_value_at_name(ev1, i, d);
            } else {
                assert(ev1[i + 1] == ev0[i]);
                lemma_value_at_name(ev1, i + 1, d);
            }
        } else {
            assert(!has_key(ev1, x));
        }
    }
}

/// Changing the value of an entry keeps a list ordered by name, and changes the value under
/// that name only.
pub proof fn lemma_sorted_update<T>(ev0: Seq<(Seq<char>, T)>, pos: int, v: T, d: T)
    requires
        keys_sorted(ev0),
        0 <= pos < ev0.len(),
    ensures
        keys_sorted(ev0.update(pos, (ev0[pos].0, v))),
        forall|x: Seq<char>| #[trigger] has_key(ev0.update(pos, (ev0[pos].0, v)), x) <==> has_key(ev0, x),
        forall|x: Seq<char>| #[trigger] value_or(ev0.update(pos, (ev0[pos].0, v)), x, d) == if x == ev0[pos].0 { v } else { value_or(ev0, x, d) },
{
    let k = ev0[pos].0;
    let ev1 = ev0.update(pos, (k, v));
    assert forall|i: int, j: int| 0 <= i < j < ev1.len() implies seq_lt(#[trigger] ev1[i].0, #[trigger] ev1[j].0) by {
        assert(ev1[i].0 == ev0[i].0 && ev1[j].0 == ev0[j].0);
    }
    assert forall|x: Seq<char>| #[trigger] has_key(ev1, x) <==> has_key(ev0, x) by {
        if has_key(ev1, x) {
            let i = choose|i: int| 0 <= i < ev1.len() && #[trigger] ev1[i].0 == x;
            assert(ev0[i].0 == x);
        }
        if has_key(ev0, x) {
            let i = choose|i: int| 0 <= i < ev0.len() && #[trigger] ev0[i].0 == x;
            assert(ev1[i].0 == x);
        }
    }
    assert forall|x: Seq<char>| #[trigger] value_or(ev1, x, d) == if x == k { v } else { value_or(ev0, x, d) } by {
        if x == k {
            lemma_value_at_name(ev1, pos, d);
        } else if has_key(ev0, x) {
            let i = choose|i: int| 0 <= i < ev0.len() && #[trigger] ev0[i].0 == x;
            lemma_value_at_name(ev0, i, d);
            assert(ev1[i].0 == x);
            lemma_value_at_name(ev1, i, d);
        }
    }
}

/// Removing an entry keeps a list ordered by name, and drops that name only.
pub proof fn lemma_sorted_remove<T>(ev0: Seq<(Seq<char>, T)>, pos: int, d: T)
    requires
        keys_sorted(ev0),
        0 <= pos < ev0.len(),
    ensures
        keys_sorted(ev0.remove(pos)),
        forall|x: Seq<char>| #[trigger] has_key(ev0.remove(pos), x) <==> (has_key(ev0, x) && x != ev0[pos].0),
        forall|x: Seq<char>| x != ev0[pos].0 ==> #[trigger] value_or(ev0.remove(pos), x, d) == value_or(ev0, x, d),
{
    let k = ev0[pos].0;
    let ev1 = ev0.remove(pos);
    assert forall|a: int, b: int| 0 <= a < b < ev1.len() implies seq_lt(#[trigger] ev1[a].0, #[trigger] ev1[b].0) by {
        if b < pos {
        } else if a < pos {
            assert(ev1[a] == ev0[a] && ev1[b] == ev0[b + 1]);
        } else {
            assert(ev1[a] == ev0[a + 1] && ev1[b] == ev0[b + 1]);
        }
    }
    assert forall|x: Seq<char>| #[trigger] has_key(ev1, x) <==> (has_key(ev0, x) && x != k) by {
        if has_key(ev1, x) {
            let i = choose|i: int| 0 <= i < ev1.len() && #[trigger] ev1[i].0 == x;
            if i < pos {
                assert(ev0[i].0 == x);
                lemma_seq_lt_order(x, k, k);
            } else {
                assert(ev0[i + 1].0 == x);
                lemma_seq_lt_order(k, x, x);
            }
        }
        if has_key(ev0, x) && x != k {
            let i = choose|i: int| 0 <= i < ev0.len() && #[trigger] ev0[i].0 == x;
            if i < pos {
                assert(ev1[i].0 == x);
            } else {
                assert(i != pos);
                assert(ev1[i - 1].0 == x);
            }
        }
    }
    assert forall|x: Seq<char>| x != k implies #[trigger] value_or(ev1, x, d) == value_or(ev0, x, d) by {
        if has_key(ev0, x) {
            let i = choose|i: int| 0 <= i < ev0.len() && #[trigger] ev0[i].0 == x;
            lemma_value_at_name(ev0, i, d);
            if i < pos {
                assert(ev1[i] == ev0[i]);
                lemma_value_at_name(ev1, i, d);
            } else {
                assert(ev1[i - 1] == ev0[i]);
                lemma_value_at_name(ev1, i - 1, d);
            }
        }
    }
}

impl Default for SplitResult {
    fn default() -> (r: SplitResult)
        ensures
            r@.items.len() == 0,
            r@.final_result.len() == 0,
    {
        SplitResult { items: Vec::new(), final_result: Vec::new() }
    }
}

impl SplitResult {
    /// The records are in strictly increasing order of payer, and the settlement in strictly
    /// increasing order of (payer, payee).
    pub open spec fn wf(&self) -> bool {
        keys_sorted(self@.items) && pairs_sorted(self@.final_result)
    }

    /// Where `payer`'s entry is, or would go: the first position whose name is not before it;
    /// and whether the entry there is `payer`'s.
    fn position_of(&self, payer: &Who) -> (r: (usize, bool))
        requires
            keys_sorted(self@.items),
        ensures
            r.0 <= self.items@.len(),
            forall|j: int| 0 <= j < r.0 ==> seq_lt(#[trigger] self@.items[j].0, payer@),
            r.0 < self.items@.len() ==> !seq_lt(self@.items[r.0 as int].0, payer@),
            r.1 == (r.0 < self.items@.len() && self@.items[r.0 as int].0 == payer@),
            r.1 == has_key(self@.items, payer@),
            r.1 ==> value_or(self@.items, payer@, Seq::empty()) == self@.items[r.0 as int].1,
    {
        let ghost ev = self@.items;
        let mut i: usize = 0;
        while i < self.items.len() && self.items[i].0.before(payer)
            invariant
                i <= self.items@.len(),
                ev == self@.items,
                forall|j: int| 0 <= j < i ==> seq_lt(#[trigger] ev[j].0, payer@),
            decreases self.items.len() - i,
        {
            i = i + 1;
        }
        let found = i < self.items.len() && self.items[i].0.same(payer);
        proof {
            if found {
                lemma_value_at_name(ev, i as int, Seq::<RecordView>::empty());
            } else {
                assert forall|j: int| 0 <= j < ev.len() implies ev[j].0 != payer@ by {
                    lemma_seq_lt_order(payer@, payer@, payer@);
                    if j > i {
                        lemma_seq_lt_order(ev[i as int].0, payer@, payer@);
                        assert(seq_lt(ev[i as int].0, ev[j].0));
                        lemma_seq_lt_order(payer@, ev[i as int].0, ev[j].0);
                    }
                }
            }
        }
        (i, found)
    }

    /// Adds to what `payer` should pay: `amount` to `payee` for `reason`.
    pub fn add_bill(&mut self, payer: Who, payee: Who, amount: i64, reason: String)
        requires
            old(self).wf(),
        ensures
            final(self).wf(),
            final(self)@.final_result == old(self)@.final_result,
            forall|x: Seq<char>| #[trigger] has_key(final(self)@.items, x) <==> (has_key(old(self)@.items, x) || x == payer@),
            forall|x: Seq<char>| #[trigger] value_or(final(self)@.items, x, Seq::empty()) == if x == payer@ {
                value_or(old(self)@.items, x, Seq::empty()).push(RecordView { payee: payee@, bill: amount as int, reason: reason@ })
            } else {
                value_or(old(self)@.items, x, Seq::empty())
            },
    {
        let ghost ev0 = self@.items;
        let ghost rec = RecordView { payee: payee@, bill: amount as int, reason: reason@ };
        let (pos, found) = self.position_of(&payer);
        let item = SplitResultItem { payee, bill: amount, reason };
        if found {
            let ghost items0 = self.items@;
            let ghost iv = item@;
            let (who, mut list) = self.items.remove(pos);
            let ghost l0 = records_of(list@);
            list.push(item);
            assert(records_of(list@) =~= l0.push(iv));
            let ghost entry = (who, list);
            self.items.insert(pos, (who, list));
            assert(self.items@ =~= items0.update(pos as int, entry));
            assert(self@.items =~= ev0.update(pos as int, (ev0[pos as int].0, ev0[pos as int].1.push(rec))));
            proof {
                lemma_sorted_update(ev0, pos as int, ev0[pos as int].1.push(rec), Seq::empty());
            }
        } else {
            let ghost items0 = self.items@;
            let mut list: Vec<SplitResultItem> = Vec::new();
            list.push(item);
            assert(records_of(list@) =~= seq![rec]);
            let ghost entry = (payer, list);
            self.items.insert(pos, (payer, list));
            assert(self.items@ =~= items0.insert(pos as int, entry));
            assert(self@.items =~= ev0.insert(pos as int, (payer@, seq![rec])));
            proof {
                if pos < ev0.len() {
                    lemma_seq_lt_order(ev0[pos as int].0, payer@, payer@);
                }
                lemma_sorted_insert(ev0, pos as int, payer@, seq![rec], Seq::empty());
                assert(seq![rec] =~= Seq::<RecordView>::empty().push(rec));
            }
        }
    }
}

impl SplitResult {
    /// Everything `payer` should pay, if they should pay anything.
    pub fn get_bills(&self, payer: &Who) -> (r: Option<&Vec<SplitResultItem>>)
        requires
            self.wf(),
        ensures
            match r {
                Some(v) => has_key(self@.items, payer@) && records_of(v@) == value_or(self@.items, payer@, Seq::empty()),
                None => !has_key(self@.items, payer@),
            },
    {
        let (pos, found) = self.position_of(payer);
        if found {
            Some(&self.items[pos].1)
        } else {
            None
        }
    }

    /// Everything `payer` should pay, to change in place, if they should pay anything.
    pub fn get_bills_mut(&mut self, payer: &Who) -> (r: Option<&mut Vec<SplitResultItem>>)
        requires
            old(self).wf(),
        ensures
            final(self)@.final_result == old(self)@.final_result,
            match r {
                Some(v) => has_key(old(self)@.items, payer@)
                    && records_of(v@) == value_or(old(self)@.items, payer@, Seq::empty())
                    && final(self)@.items == old(self)@.items.update(
                        key_index(old(self)@.items, payer@),
                        (payer@, records_of(final(v)@)),
                    ),
                None => !has_key(old(self)@.items, payer@) && final(self)@ == old(self)@,
            },
    {
        let (pos, found) = self.position_of(payer);
        proof {
            if found {
                lemma_key_index(self@.items, pos as int);
            }
        }
        if found {
            Some(records_at(&mut self.items, pos))
        } else {
            None
        }
    }

    /// Sets everything `payer` should pay to `bills`; gives back what was there before.
    pub fn update_bills(&mut self, payer: Who, bills: Vec<SplitResultItem>) -> (r: Option<Vec<SplitResultItem>>)
        requires
            old(self).wf(),
        ensures
            final(self).wf(),
            final(self)@.final_result == old(self)@.final_result,
            forall|x: Seq<char>| #[trigger] has_key(final(self)@.items, x) <==> (has_key(old(self)@.items, x) || x == payer@),
            forall|x: Seq<char>| #[trigger] value_or(final(self)@.items, x, Seq::empty())
                == if x == payer@ { records_of(bills@) } else { value_or(old(self)@.items, x, Seq::empty()) },
            match r {
                Some(v) => has_key(old(self)@.items, payer@) && records_of(v@) == value_or(old(self)@.items, payer@, Seq::empty()),
                None => !has_key(old(self)@.items, payer@),
            },
    {
        let ghost ev0 = self@.items;
        let ghost nv = records_of(bills@);
        let (pos, found) = self.position_of(&payer);
        if found {
            let ghost items0 = self.items@;
            let (who, old_bills) = self.items.remove(pos);
            let ghost entry = (who, bills);
            self.items.insert(pos, (who, bills));
            assert(self.items@ =~= items0.update(pos as int, entry));
            assert(self@.items =~= ev0.update(pos as int, (ev0[pos as int].0, nv)));
            proof {
                lemma_sorted_update(ev0, pos as int, nv, Seq::empty());
            }
            Some(old_bills)
        } else {
            let ghost items0 = self.items@;
            let ghost entry = (payer, bills);
            self.items.insert(pos, (payer, bills));
            assert(self.items@ =~= items0.insert(pos as int, entry));
            assert(self@.items =~= ev0.insert(pos as int, (payer@, nv)));
            proof {
                if pos < ev0.len() {
                    lemma_seq_lt_order(ev0[pos as int].0, payer@, payer@);
                }
                lemma_sorted_insert(ev0, pos as int, payer@, nv, Seq::empty());
            }
            None
        }
    }

    /// Removes everything `payer` should pay and gives it back, if there was anything.
    pub fn delete_bills(&mut self, payer: &Who) -> (r: Option<Vec<SplitResultItem>>)
        requires
            old(self).wf(),
        ensures
            final(self).wf(),
            final(self)@.final_result == old(self)@.final_result,
            forall|x: Seq<char>| #[trigger] has_key(final(self)@.items, x) <==> (has_key(old(self)@.items, x) && x != payer@),
            forall|x: Seq<char>| x != payer@ ==> #[trigger] value_or(final(self)@.items, x, Seq::empty())
                == value_or(old(self)@.items, x, Seq::empty()),
            match r {
                Some(v) => has_key(old(self)@.items, payer@) && records_of(v@) == value_or(old(self)@.items, payer@, Seq::empty()),
                None => !has_key(old(self)@.items, payer@) && final(self)@ == old(self)@,
            },
    {
        let ghost ev0 = self@.items;
        let (pos, found) = self.position_of(payer);
        if found {
            let ghost items0 = self.items@;
            let (_who, bills) = self.items.remove(pos);
            assert(self@.items =~= ev0.remove(pos as int));
            proof {
                lemma_sorted_remove(ev0, pos as int, Seq::<RecordView>::empty());
            }
            Some(bills)
        } else {
            proof {
                assert forall|x: Seq<char>| #[trigger] has_key(self@.items, x) <==> (has_key(ev0, x) && x != payer@) by {}
            }
            None
        }
    }

    /// Everything everyone should pay, by payer.
    pub fn get_all_bills(&self) -> (r: &Vec<(Who, Vec<SplitResultItem>)>)
        ensures
            entries_view(r@) == self@.items,
    {
        &self.items
    }

    /// Whether `payer` should pay anything.
    pub fn contains_payer(&self, payer: &Who) -> (r: bool)
        requires
            self.wf(),
        ensures
            r == has_key(self@.items, payer@),
    {
        self.position_of(payer).1
    }

    /// Forgets everything everyone should pay.
    pub fn clear_bills(&mut self)
        ensures
            final(self)@.items.len() == 0,
            final(self)@.final_result == old(self)@.final_result,
    {
        self.items.clear();
    }

    /// Sets the settlement.
    pub fn set_final_result(&mut self, result: Vec<((Who, Who), i64)>)
        ensures
            final(self)@.final_result == pairs_view(result@),
            final(self)@.items == old(self)@.items,
    {
        self.final_result = result;
    }

    /// The settlement.
    pub fn get_final_result(&self) -> (r: &Vec<((Who, Who), i64)>)
        ensures
            pairs_view(r@) == self@.final_result,
    {
        &self.final_result
    }

    /// The settlement, to change in place.
    pub fn get_final_result_mut(&mut self) -> (r: &mut Vec<((Who, Who), i64)>)
        ensures
            pairs_view(r@) == old(self)@.final_result,
            final(self)@.final_result == pairs_view(final(r)@),
            final(self)@.items == old(self)@.items,
    {
        &mut self.final_result
    }

    /// Forgets the settlement.
    pub fn clear_final_result(&mut self)
        ensures
            final(self)@.final_result.len() == 0,
            final(self)@.items == old(self)@.items,
    {
        self.final_result.clear();
    }

    /// What `payer` should pay `payee` in the settlement, if anything.
    pub fn get_final_result_item(&self, payer: Who, payee: Who) -> (r: Option<i64>)
        requires
            pairs_sorted(self@.final_result),
        ensures
            match r {
                Some(a) => has_key(self@.final_result, (payer@, payee@)) && a == value_or(self@.final_result, (payer@, payee@), 0int),
                None => !has_key(self@.final_result, (payer@, payee@)),
            },
    {
        let ghost fv = self@.final_result;
        let mut i: usize = 0;
        while i < self.final_result.len()
            invariant
                i <= self.final_result@.len(),
                fv == self@.final_result,
                pairs_sorted(fv),
                forall|j: int| 0 <= j < i ==> fv[j].0 != (payer@, payee@),
            decreases self.final_result.len() - i,
        {
            if self.final_result[i].0.0.same(&payer) && self.final_result[i].0.1.same(&payee) {
                proof {
                    lemma_value_at_pair(fv, i as int);
                }
                return Some(self.final_result[i].1);
            }
            i = i + 1;
        }
        None
    }
}

/// `s` lists the entries of `m` in increasing order of key.
pub open spec fn is_listing(s: Seq<(u128, BillView)>, m: Map<u128, BillView>) -> bool {
    &&& forall|i: int, j: int| 0 <= i < j < s.len() ==> s[i].0 < s[j].0
    &&& forall|i: int| 0 <= i < s.len() ==> m.contains_key(#[trigger] s[i].0) && m[s[i].0] == s[i].1
    &&& forall|k: u128| m.contains_key(k) ==> exists|i: int| 0 <= i < s.len() && #[trigger] s[i].0 == k
}

/// The bills of `m` in increasing order of identifier: the order in which they are split.
pub open spec fn listing(m: Map<u128, BillView>) -> Seq<(u128, BillView)> {
    choose|s: Seq<(u128, BillView)>| is_listing(s, m)
}

/// The bills of `m` in the order in which they are split, without their identifiers.
pub open spec fn ordered_bills(m: Map<u128, BillView>) -> Seq<BillView> {
    listing(m).map_values(|e: (u128, BillView)| e.1)
}

/// A map has at most one listing.
pub proof fn lemma_listing_unique(s: Seq<(u128, BillView)>, t: Seq<(u128, BillView)>, m: Map<u128, BillView>)
    requires
        is_listing(s, m),
        is_listing(t, m),
    ensures
        s == t,
{
    assert forall|i: int| 0 <= i < s.len() && 0 <= i < t.len() implies s[i].0 == t[i].0 by {
        lemma_listing_prefix_keys(s, t, m, i);
    }
    if s.len() < t.len() {
        let k = t[s.len() as int].0;
        let j = choose|j: int| 0 <= j < s.len() && s[j].0 == k;
        assert(s[j].0 == t[j].0);
        assert(t[j].0 < t[s.len() as int].0);
    } else if t.len() < s.len() {
        let k = s[t.len() as int].0;
        let j = choose|j: int| 0 <= j < t.len() && t[j].0 == k;
        assert(s[j].0 == t[j].0);
        assert(s[j].0 < s[t.len() as int].0);
    }
    assert(s =~= t);
}

proof fn lemma_listing_prefix_keys(s: Seq<(u128, BillView)>, t: Seq<(u128, BillView)>, m: Map<u128, BillView>, i: int)
    requires
        is_listing(s, m),
        is_listing(t, m),
        0 <= i < s.len(),
        i < t.len(),
    ensures
        s[i].0 == t[i].0,
    decreases i,
{
    if i > 0 {
        lemma_listing_prefix_keys(s, t, m, i - 1);
    }
    let ks = s[i].0;
    let kt = t[i].0;
    if ks < kt {
        assert(m.contains_key(ks));
        let j = choose|j: int| 0 <= j < t.len() && t[j].0 == ks;
        if j < i {
            assert forall|a: int| 0 <= a < i implies s[a].0 == t[a].0 by {
                lemma_listing_prefix_keys(s, t, m, a);
            }
            assert(s[j].0 == t[j].0);
            assert(s[j].0 < s[i].0);
        } else {
            assert(t[i].0 <= t[j].0);
        }
    } else if kt < ks {
        assert(m.contains_key(kt));
        let j = choose|j: int| 0 <= j < s.len() && s[j].0 == kt;
        if j < i {
            assert forall|a: int| 0 <= a < i implies s[a].0 == t[a].0 by {
                lemma_listing_prefix_keys(s, t, m, a);
            }
            assert(s[j].0 == t[j].0);
            assert(t[j].0 < t[i].0);
        } else {
            assert(s[i].0 <= s[j].0);
        }
    }
}

/// The bills of `b`, in increasing order of identifier.
pub fn bills_in_order(b: &Bills) -> (r: Vec<&BillItem>)
    ensures
        r@.map_values(|x: &BillItem| x@) == ordered_bills(b@),
{
    broadcast use vstd::std_specs::btree::group_btree_axioms;
    let ghost all = vstd::std_specs::btree::spec_btree_map_iter(&b.items).remaining();
    let mut r: Vec<&BillItem> = Vec::new();
    for e in it: b.items.iter()
        invariant
            it.seq() == all,
            all == vstd::std_specs::btree::spec_btree_map_iter(&b.items).remaining(),
            r.len() == it.index(),
            forall|i: int| 0 <= i < it.index() ==> *(#[trigger] all[i]).1 == *r@[i],
    {
        let (k, v) = e;
        r.push(v);
    }
    let ghost s = all.map_values(|e: (&u128, &BillItem)| (*e.0, e.1@));
    assert(all.len() == b.items@.dom().len());
    assert(vstd::std_specs::btree::increasing_seq(all.map_values(|kv: (&u128, &BillItem)| *kv.0)));
    let ghost ks = all.map_values(|kv: (&u128, &BillItem)| *kv.0);
    assert forall|i: int, j: int| 0 <= i < j < s.len() implies s[i].0 < s[j].0 by {
        broadcast use vstd::laws_cmp::group_laws_cmp;
        assert(vstd::laws_cmp::obeys_cmp::<u128>());
        vstd::std_specs::btree::axiom_increasing_seq_meaning::<u128>(ks);
        assert(ks[i].cmp_spec(&ks[j]) is Less);
        assert(ks[i] == s[i].0 && ks[j] == s[j].0);
    }
    assert forall|i: int| 0 <= i < s.len() implies b@.contains_key(#[trigger] s[i].0) && b@[s[i].0] == s[i].1 by {
        assert(b.items@.contains_key(*all[i].0));
    }
    assert forall|k: u128| b@.contains_key(k) implies exists|i: int| 0 <= i < s.len() && #[trigger] s[i].0 == k by {
        assert(b.items@.contains_key(k));
        assert(all.contains((&k, &b.items@[k])));
        let i = choose|i: int| 0 <= i < all.len() && all[i] == (&k, &b.items@[k]);
        assert(s[i].0 == k);
    }
    assert(is_listing(s, b@));
    proof { lemma_listing_unique(s, listing(b@), b@); }
    assert(r@.map_values(|x: &BillItem| x@) =~= ordered_bills(b@));
    r
}

} // verus!
