//! Splitting bills: each person's share of each bill, and the net settlement between people.
use vstd::prelude::*;
use crate::amount::{share, share_of, lemma_share_bounds};
use crate::bill::{BillItem, BillView, Bills, RecordView, SplitResult, SplitResultItem, names_of, records_of, entries_view, pairs_view, keys_sorted, pairs_sorted, has_key, value_or, lemma_value_at_pair, ordered_bills, bills_in_order};
use crate::error::BillSplitError;
use crate::text::{texts_of, seq_lt, pair_lt, names_sorted, lemma_seq_lt_order};
use crate::who::Who;

verus! {

/// The plain views of a list of bills.
pub open spec fn views(bs: Seq<&BillItem>) -> Seq<BillView> {
    bs.map_values(|b: &BillItem| b@)
}

/// Whether some name occurs twice in `s`.
pub open spec fn has_dup(s: Seq<Seq<char>>) -> bool {
    exists|i: int, j: int| 0 <= i < j < s.len() && s[i] == s[j]
}

/// The first reason, in bill order, for refusing the bills `bs`: a negative paid amount,
/// or a person named twice in the split of the same bill (checked in that order per bill).
pub open spec fn check_bills(bs: Seq<BillView>) -> Result<(), BillSplitError>
    decreases bs.len(),
{
    if bs.len() == 0 {
        Ok(())
    } else if bs[0].paid < 0 {
        Err(BillSplitError::NegativePaidAmount)
    } else if has_dup(bs[0].split) {
        Err(BillSplitError::DuplicateSplitMembers)
    } else {
        check_bills(bs.drop_first())
    }
}

/// Each person's share of bill `b`.
pub open spec fn bill_share(b: BillView) -> int {
    share_of(b.paid, b.split.len() as int)
}

/// Whether bill `b` makes `x` owe its payer `y` a share.
pub open spec fn charges(b: BillView, x: Seq<char>, y: Seq<char>) -> bool {
    b.payer == y && x != y && b.split.contains(x)
}

/// What `x` owes `y` by the bills `bs`: `x`'s share of each bill that `y` paid and
/// that is split with `x`.
pub open spec fn owed(bs: Seq<BillView>, x: Seq<char>, y: Seq<char>) -> int
    decreases bs.len(),
{
    if bs.len() == 0 {
        0
    } else {
        owed(bs.drop_last(), x, y) + if charges(bs.last(), x, y) { bill_share(bs.last()) } else { 0 }
    }
}

/// Whether some bill of `bs` makes `x` owe `y`.
pub open spec fn recorded(bs: Seq<BillView>, x: Seq<char>, y: Seq<char>) -> bool {
    exists|i: int| 0 <= i < bs.len() && charges(#[trigger] bs[i], x, y)
}

/// The sum of the paid amounts of `bs` that are not negative.
pub open spec fn total_paid(bs: Seq<BillView>) -> int
    decreases bs.len(),
{
    if bs.len() == 0 {
        0
    } else {
        total_paid(bs.drop_last()) + if bs.last().paid > 0 { bs.last().paid } else { 0 }
    }
}

/// Whether `x` pays or takes part in some bill of `bs`.
pub open spec fn is_member(bs: Seq<BillView>, x: Seq<char>) -> bool {
    exists|i: int| 0 <= i < bs.len() && ((#[trigger] bs[i]).payer == x || bs[i].split.contains(x))
}

/// What `x` should pay, bill by bill in the order of `bs`: for each bill split with `x`
/// and paid by someone else, its payer, `x`'s share and the bill's reason.
pub open spec fn records(bs: Seq<BillView>, x: Seq<char>) -> Seq<RecordView>
    decreases bs.len(),
{
    if bs.len() == 0 {
        Seq::empty()
    } else {
        let b = bs.last();
        let rest = records(bs.drop_last(), x);
        if b.payer != x && b.split.contains(x) {
            rest.push(RecordView { payee: b.payer, bill: bill_share(b), reason: b.reason })
        } else {
            rest
        }
    }
}

/// Whether `v` is `owed` of `bs` between the pairs with a record: the pairs that some
/// bill makes owe, in increasing order, each with what is owed.
pub open spec fn is_direct(v: Seq<((Seq<char>, Seq<char>), int)>, bs: Seq<BillView>) -> bool {
    &&& pairs_sorted(v)
    &&& forall|k: (Seq<char>, Seq<char>)| #[trigger] has_key(v, k) <==> recorded(bs, k.0, k.1)
    &&& forall|i: int| 0 <= i < v.len() ==> (#[trigger] v[i]).1 == owed(bs, v[i].0.0, v[i].0.1)
}

/// Whether `f` is the net settlement of what `bs` makes people owe each other: exactly the
/// pairs `(x, y)` where `x` owes `y` more than `y` owes `x`, each with the difference, in
/// increasing order of pair.
pub open spec fn is_settlement(f: Seq<((Seq<char>, Seq<char>), int)>, bs: Seq<BillView>) -> bool {
    &&& pairs_sorted(f)
    &&& forall|x: Seq<char>, y: Seq<char>| #[trigger] has_key(f, (x, y)) <==> owed(bs, x, y) > owed(bs, y, x)
    &&& forall|i: int| 0 <= i < f.len() ==> (#[trigger] f[i]).1 == owed(bs, f[i].0.0, f[i].0.1) - owed(bs, f[i].0.1, f[i].0.0)
}

/// Whether `its` holds, for each person who should pay something, the records of what
/// they should pay, each reason followed by `suffix`, in increasing order of name.
pub open spec fn is_itemization(its: Seq<(Seq<char>, Seq<RecordView>)>, bs: Seq<BillView>, suffix: Seq<char>) -> bool {
    &&& keys_sorted(its)
    &&& forall|x: Seq<char>| #[trigger] has_key(its, x) <==> records(bs, x).len() > 0
    &&& forall|i: int| 0 <= i < its.len() ==> (#[trigger] its[i]).1 == with_suffix(records(bs, its[i].0), suffix)
}

/// The records `rs` with `suffix` appended to each reason.
pub open spec fn with_suffix(rs: Seq<RecordView>, suffix: Seq<char>) -> Seq<RecordView> {
    rs.map_values(|r: RecordView| RecordView { payee: r.payee, bill: r.bill, reason: r.reason + suffix })
}

/// Whether `x` is among the people `v`.
fn contains_who(v: &Vec<Who>, x: &Who) -> (r: bool)
    ensures
        r == names_of(v@).contains(x@),
{
    let mut i: usize = 0;
    while i < v.len()
        invariant
            i <= v.len(),
            forall|j: int| 0 <= j < i ==> v@[j]@ != x@,
        decreases v.len() - i,
    {
        if v[i].same(x) {
            assert(names_of(v@)[i as int] == x@);
            return true;
        }
        i = i + 1;
    }
    assert(!names_of(v@).contains(x@)) by {
        assert forall|j: int| 0 <= j < names_of(v@).len() implies names_of(v@)[j] != x@ by {
            assert(v@[j]@ != x@);
        }
    }
    false
}

/// Whether some person occurs twice in `v`.
fn has_duplicate(v: &Vec<Who>) -> (r: bool)
    ensures
        r == has_dup(names_of(v@)),
{
    let ghost s = names_of(v@);
    let mut j: usize = 0;
    while j < v.len()
        invariant
            j <= v.len(),
            s == names_of(v@),
            forall|a: int, b: int| 0 <= a < b < j ==> s[a] != s[b],
        decreases v.len() - j,
    {
        let mut i: usize = 0;
        while i < j
            invariant
                i <= j < v.len(),
                s == names_of(v@),
                forall|a: int| 0 <= a < i ==> s[a] != s[j as int],
            decreases j - i,
        {
            if v[i].same(&v[j]) {
                assert(s[i as int] == s[j as int]);
                return true;
            }
            i = i + 1;
        }
        j = j + 1;
    }
    false
}

/// Refuses bills with a negative paid amount or a person twice in a split: the first such
/// bill in order decides the error.
fn precheck(bs: &Vec<&BillItem>) -> (r: Result<(), BillSplitError>)
    ensures
        r == check_bills(views(bs@)),
{
    let ghost all = views(bs@);
    assert(all.skip(0) =~= all);
    let mut i: usize = 0;
    while i < bs.len()
        invariant
            i <= bs.len(),
            all == views(bs@),
            check_bills(all) == check_bills(all.skip(i as int)),
        decreases bs.len() - i,
    {
        assert(all.skip(i as int).drop_first() =~= all.skip(i + 1));
        if bs[i].paid < 0 {
            return Err(BillSplitError::NegativePaidAmount);
        }
        if has_duplicate(&bs[i].split) {
            return Err(BillSplitError::DuplicateSplitMembers);
        }
        i = i + 1;
    }
    Ok(())
}

/// Bills whose checks pass have no negative amount and no person twice in a split.
proof fn lemma_checked_bills(bs: Seq<BillView>)
    requires
        check_bills(bs) is Ok,
    ensures
        forall|i: int| 0 <= i < bs.len() ==> (#[trigger] bs[i]).paid >= 0 && !has_dup(bs[i].split),
    decreases bs.len(),
{
    if bs.len() > 0 {
        lemma_checked_bills(bs.drop_first());
        assert forall|i: int| 0 <= i < bs.len() implies (#[trigger] bs[i]).paid >= 0 && !has_dup(bs[i].split) by {
            if i > 0 {
                assert(bs[i] == bs.drop_first()[i - 1]);
            }
        }
    }
}

/// What a list of bills without negative amounts makes anyone owe is at most all that was paid.
proof fn lemma_owed_bounds(bs: Seq<BillView>, x: Seq<char>, y: Seq<char>)
    requires
        forall|i: int| 0 <= i < bs.len() ==> (#[trigger] bs[i]).paid >= 0,
    ensures
        0 <= owed(bs, x, y) <= total_paid(bs),
    decreases bs.len(),
{
    if bs.len() > 0 {
        let b = bs.last();
        assert forall|i: int| 0 <= i < bs.drop_last().len() implies (#[trigger] bs.drop_last()[i]).paid >= 0 by {
            assert(bs.drop_last()[i] == bs[i]);
        }
        lemma_owed_bounds(bs.drop_last(), x, y);
        assert(b.paid >= 0);
        if charges(b, x, y) {
            assert(b.split.len() > 0);
            lemma_share_bounds(b.paid, b.split.len() as int);
        }
    }
}

/// The total of a prefix of the bills is at most the total of all of them.
proof fn lemma_total_prefix(bs: Seq<BillView>, i: int)
    requires
        0 <= i <= bs.len(),
    ensures
        total_paid(bs.take(i)) <= total_paid(bs),
    decreases bs.len(),
{
    if i < bs.len() {
        assert(bs.drop_last().take(i) =~= bs.take(i));
        lemma_total_prefix(bs.drop_last(), i);
    } else {
        assert(bs.take(i) =~= bs);
    }
}

/// Without a bill that makes `x` owe `y`, `x` owes `y` nothing.
proof fn lemma_unrecorded_owes_nothing(bs: Seq<BillView>, x: Seq<char>, y: Seq<char>)
    requires
        !recorded(bs, x, y),
    ensures
        owed(bs, x, y) == 0,
    decreases bs.len(),
{
    if bs.len() > 0 {
        assert(!charges(bs[bs.len() - 1], x, y));
        assert forall|i: int| 0 <= i < bs.drop_last().len() implies !charges(#[trigger] bs.drop_last()[i], x, y) by {
            assert(bs.drop_last()[i] == bs[i]);
        }
        lemma_unrecorded_owes_nothing(bs.drop_last(), x, y);
    }
}

/// What `x` owes `y` over the bills `bs` (and whether some bill makes `x` owe `y`).
fn owed_between(bs: &Vec<&BillItem>, x: &Who, y: &Who) -> (r: (bool, i64))
    requires
        forall|i: int| 0 <= i < bs@.len() ==> (#[trigger] bs@[i]).paid >= 0,
        total_paid(views(bs@)) <= i64::MAX,
    ensures
        r.0 == recorded(views(bs@), x@, y@),
        r.1 == owed(views(bs@), x@, y@),
{
    let ghost all = views(bs@);
    let mut acc: i64 = 0;
    let mut rec = false;
    let mut i: usize = 0;
    while i < bs.len()
        invariant
            i <= bs.len(),
            all == views(bs@),
            forall|j: int| 0 <= j < bs@.len() ==> (#[trigger] bs@[j]).paid >= 0,
            total_paid(all) <= i64::MAX,
            acc == owed(all.take(i as int), x@, y@),
            rec == recorded(all.take(i as int), x@, y@),
        decreases bs.len() - i,
    {
        let ghost pre = all.take(i as int);
        let ghost next = all.take(i + 1);
        assert(next.drop_last() =~= pre);
        assert(next.last() == all[i as int]);
        let b = bs[i];
        if b.who_paid.same(y) && !x.same(y) && contains_who(&b.split, x) {
            proof {
                assert forall|j: int| 0 <= j < next.len() implies (#[trigger] next[j]).paid >= 0 by {
                    assert(next[j] == all[j]);
                    assert(bs@[j].paid >= 0);
                }
                lemma_owed_bounds(next, x@, y@);
                lemma_total_prefix(all, i + 1);
            }
            let s = share(b.paid, b.split.len());
            acc = acc + s;
            rec = true;
            assert(charges(next[i as int], x@, y@));
        } else {
            assert(!charges(next.last(), x@, y@));
            assert(rec == recorded(next, x@, y@)) by {
                if recorded(next, x@, y@) {
                    let j = choose|j: int| 0 <= j < next.len() && charges(#[trigger] next[j], x@, y@);
                    assert(j < i);
                    assert(pre[j] == next[j]);
                }
            }
        }
        assert(rec == recorded(next, x@, y@)) by {
            if recorded(next, x@, y@) && !charges(next.last(), x@, y@) {
                let j = choose|j: int| 0 <= j < next.len() && charges(#[trigger] next[j], x@, y@);
                assert(pre[j] == next[j]);
            }
            if recorded(pre, x@, y@) {
                let j = choose|j: int| 0 <= j < pre.len() && charges(#[trigger] pre[j], x@, y@);
                assert(pre[j] == next[j]);
            }
        }
        i = i + 1;
    }
    assert(all.take(bs.len() as int) =~= all);
    (rec, acc)
}

/// The records of what `x` should pay by the bills `bs`, in bill order.
fn records_for(bs: &Vec<&BillItem>, x: &Who) -> (r: Vec<SplitResultItem>)
    requires
        forall|i: int| 0 <= i < bs@.len() ==> (#[trigger] bs@[i]).paid >= 0,
    ensures
        records_of(r@) == records(views(bs@), x@),
{
    let ghost all = views(bs@);
    let mut r: Vec<SplitResultItem> = Vec::new();
    let mut i: usize = 0;
    while i < bs.len()
        invariant
            i <= bs.len(),
            all == views(bs@),
            forall|j: int| 0 <= j < bs@.len() ==> (#[trigger] bs@[j]).paid >= 0,
            records_of(r@) == records(all.take(i as int), x@),
        decreases bs.len() - i,
    {
        let ghost pre = all.take(i as int);
        let ghost next = all.take(i + 1);
        assert(next.drop_last() =~= pre);
        assert(next.last() == all[i as int]);
        let b = bs[i];
        if !b.who_paid.same(x) && contains_who(&b.split, x) {
            assert(bs@[i as int].paid >= 0);
            let s = share(b.paid, b.split.len());
            let rec = SplitResultItem { payee: b.who_paid.duplicate(), bill: s, reason: b.reason.clone() };
            r.push(rec);
            assert(records_of(r@) =~= records(next, x@));
        }
        i = i + 1;
    }
    assert(all.take(bs.len() as int) =~= all);
    r
}

/// Adds `w` to the list of people `v`, kept in strictly increasing order of name, unless
/// `w` is there already.
pub fn insert_name(v: &mut Vec<Who>, w: &Who)
    requires
        names_sorted(names_of(old(v)@)),
    ensures
        names_sorted(names_of(final(v)@)),
        forall|n: Seq<char>| #[trigger] names_of(final(v)@).contains(n) <==> (names_of(old(v)@).contains(n) || n == w@),
{
    let ghost s0 = names_of(v@);
    let mut i: usize = 0;
    while i < v.len() && v[i].before(w)
        invariant
            i <= v.len(),
            names_of(v@) == s0,
            names_sorted(s0),
            forall|j: int| 0 <= j < i ==> seq_lt(#[trigger] s0[j], w@),
        decreases v.len() - i,
    {
        i = i + 1;
    }
    if i < v.len() && v[i].same(w) {
        assert(s0[i as int] == w@);
        return;
    }
    proof {
        if i < s0.len() {
            lemma_seq_lt_order(s0[i as int], w@, w@);
        }
    }
    v.insert(i, w.duplicate());
    let ghost s1 = names_of(v@);
    assert(s1 =~= s0.insert(i as int, w@));
    assert forall|a: int, b: int| 0 <= a < b < s1.len() implies seq_lt(#[trigger] s1[a], #[trigger] s1[b]) by {
        if b < i {
        } else if b == i {
            assert(s1[a] == s0[a]);
        } else if a < i {
            assert(s1[a] == s0[a] && s1[b] == s0[b - 1]);
        } else if a == i {
            assert(s1[b] == s0[b - 1]);
            if i < b - 1 {
                lemma_seq_lt_order(w@, s0[i as int], s0[b - 1]);
            }
        } else {
            assert(s1[a] == s0[a - 1] && s1[b] == s0[b - 1]);
        }
    }
    assert forall|n: Seq<char>| #[trigger] s1.contains(n) <==> (s0.contains(n) || n == w@) by {
        if s1.contains(n) {
            let j = choose|j: int| 0 <= j < s1.len() && s1[j] == n;
            if j < i {
                assert(s0[j] == n);
            } else if j > i {
                assert(s0[j - 1] == n);
            }
        }
        if s0.contains(n) {
            let j = choose|j: int| 0 <= j < s0.len() && s0[j] == n;
            if j < i {
                assert(s1[j] == n);
            } else {
                assert(s1[j + 1] == n);
            }
        }
        if n == w@ {
            assert(s1[i as int] == n);
        }
    }
}

/// Everyone who pays or takes part in some bill, in strictly increasing order of name.
fn member_list(bs: &Vec<&BillItem>) -> (r: Vec<Who>)
    ensures
        names_sorted(names_of(r@)),
        forall|n: Seq<char>| #[trigger] names_of(r@).contains(n) <==> is_member(views(bs@), n),
{
    let ghost all = views(bs@);
    let mut r: Vec<Who> = Vec::new();
    let mut i: usize = 0;
    while i < bs.len()
        invariant
            i <= bs.len(),
            all == views(bs@),
            names_sorted(names_of(r@)),
            forall|n: Seq<char>| #[trigger] names_of(r@).contains(n) <==> is_member(all.take(i as int), n),
        decreases bs.len() - i,
    {
        let b = bs[i];
        let ghost pre = all.take(i as int);
        let ghost next = all.take(i + 1);
        assert(next[i as int] == b@);
        insert_name(&mut r, &b.who_paid);
        let mut j: usize = 0;
        while j < b.split.len()
            invariant
                j <= b.split.len(),
                i < bs.len(),
                next.len() == i + 1,
                b@ == next[i as int],
                names_sorted(names_of(r@)),
                forall|n: Seq<char>| #[trigger] names_of(r@).contains(n) <==> (is_member(pre, n) || n == b@.payer || b@.split.take(j as int).contains(n)),
            decreases b.split.len() - j,
        {
            let ghost before = names_of(r@);
            insert_name(&mut r, &b.split[j]);
            assert(b@.split[j as int] == b.split@[j as int]@);
            assert forall|n: Seq<char>| b@.split.take(j + 1).contains(n) <==> (b@.split.take(j as int).contains(n) || n == b.split@[j as int]@) by {
                if b@.split.take(j + 1).contains(n) {
                    let k = choose|k: int| 0 <= k < j + 1 && #[trigger] b@.split.take(j + 1)[k] == n;
                    if k < j {
                        assert(b@.split.take(j as int)[k] == n);
                    }
                }
                if b@.split.take(j as int).contains(n) {
                    let k = choose|k: int| 0 <= k < j && #[trigger] b@.split.take(j as int)[k] == n;
                    assert(b@.split.take(j + 1)[k] == n);
                }
                if n == b.split@[j as int]@ {
                    assert(b@.split.take(j + 1)[j as int] == n);
                }
            }
            assert forall|n: Seq<char>| #[trigger] names_of(r@).contains(n) <==> (is_member(pre, n) || n == b@.payer || b@.split.take(j + 1).contains(n)) by {
                assert(names_of(r@).contains(n) <==> (before.contains(n) || n == b.split@[j as int]@));
                assert(before.contains(n) <==> (is_member(pre, n) || n == b@.payer || b@.split.take(j as int).contains(n)));
            }
            j = j + 1;
        }
        assert(b@.split.take(b.split.len() as int) =~= b@.split);
        assert forall|n: Seq<char>| is_member(next, n) <==> (is_member(pre, n) || n == b@.payer || b@.split.contains(n)) by {
            if is_member(next, n) {
                let k = choose|k: int| 0 <= k < next.len() && ((#[trigger] next[k]).payer == n || next[k].split.contains(n));
                if k < i {
                    assert(pre[k] == next[k]);
                }
            }
            if is_member(pre, n) {
                let k = choose|k: int| 0 <= k < pre.len() && ((#[trigger] pre[k]).payer == n || pre[k].split.contains(n));
                assert(pre[k] == next[k]);
            }
        }
        i = i + 1;
    }
    assert(all.take(bs.len() as int) =~= all);
    r
}

impl Bills {
    /// The names of everyone who pays or takes part in some bill, in strictly increasing order.
    pub fn get_members(&self) -> (r: Vec<String>)
        ensures
            names_sorted(texts_of(r@)),
            forall|n: Seq<char>| #[trigger] texts_of(r@).contains(n) <==> is_member(ordered_bills(self@), n),
    {
        let bs = bills_in_order(self);
        assert(views(bs@) =~= ordered_bills(self@));
        let people = member_list(&bs);
        let mut r: Vec<String> = Vec::new();
        let mut i: usize = 0;
        while i < people.len()
            invariant
                i <= people.len(),
                texts_of(r@) =~= names_of(people@).take(i as int),
            decreases people.len() - i,
        {
            r.push(people[i].to_string());
            assert(names_of(people@).take(i + 1) =~= names_of(people@).take(i as int).push(people@[i as int]@));
            i = i + 1;
        }
        assert(names_of(people@).take(people.len() as int) =~= names_of(people@));
        r
    }
}

/// Lexicographic order on pairs of positions.
spec fn idx_lt(p: (int, int), q: (int, int)) -> bool {
    p.0 < q.0 || (p.0 == q.0 && p.1 < q.1)
}

/// In a list of names in increasing order, pairs of positions and pairs of names are in
/// the same order.
proof fn lemma_idx_pairs(m: Seq<Seq<char>>, p: (int, int), q: (int, int))
    requires
        names_sorted(m),
        idx_lt(p, q),
        0 <= p.0 < m.len(),
        0 <= p.1 < m.len(),
        0 <= q.0 < m.len(),
        0 <= q.1 < m.len(),
    ensures
        pair_lt((m[p.0], m[p.1]), (m[q.0], m[q.1])),
{
    if p.0 < q.0 {
        assert(seq_lt(m[p.0], m[q.0]));
    } else {
        assert(seq_lt(m[p.1], m[q.1]));
    }
}

/// Whoever a bill makes owe, and whoever it is owed to, pays or takes part in it.
proof fn lemma_recorded_members(bs: Seq<BillView>, x: Seq<char>, y: Seq<char>)
    requires
        recorded(bs, x, y),
    ensures
        is_member(bs, x),
        is_member(bs, y),
        x != y,
{
    let i = choose|i: int| 0 <= i < bs.len() && charges(#[trigger] bs[i], x, y);
    assert(bs[i].split.contains(x));
    assert(bs[i].payer == y);
}

/// Whoever has a record to pay takes part in some bill.
proof fn lemma_records_member(bs: Seq<BillView>, x: Seq<char>)
    requires
        records(bs, x).len() > 0,
    ensures
        is_member(bs, x),
    decreases bs.len(),
{
    let b = bs.last();
    if b.payer != x && b.split.contains(x) {
        assert(bs[bs.len() - 1] == b);
    } else {
        lemma_records_member(bs.drop_last(), x);
        let k = choose|k: int| 0 <= k < bs.drop_last().len() && ((#[trigger] bs.drop_last()[k]).payer == x || bs.drop_last()[k].split.contains(x));
        assert(bs[k] == bs.drop_last()[k]);
    }
}

/// For every pair of people some bill makes owe, what is owed; and for every person who
/// should pay something, the records of what they should pay. The bills are those that passed
/// the check: no negative amount, and nobody named twice in one split (so each person named in
/// a split owes one share of it).
fn calculate_balances_and_transactions(bs: &Vec<&BillItem>) -> (r: (Vec<((Who, Who), i64)>, Vec<(Who, Vec<SplitResultItem>)>))
    requires
        forall|i: int| 0 <= i < bs@.len() ==> (#[trigger] bs@[i]).paid >= 0,
        forall|i: int| 0 <= i < bs@.len() ==> !has_dup((#[trigger] bs@[i])@.split),
        total_paid(views(bs@)) <= i64::MAX,
    ensures
        is_direct(pairs_view(r.0@), views(bs@)),
        keys_sorted(entries_view(r.1@)),
        forall|x: Seq<char>| #[trigger] has_key(entries_view(r.1@), x) <==> records(views(bs@), x).len() > 0,
        forall|i: int| 0 <= i < r.1@.len() ==> (#[trigger] entries_view(r.1@)[i]).1 == records(views(bs@), entries_view(r.1@)[i].0),
{
    let ghost all = views(bs@);
    let members = member_list(bs);
    let ghost m = names_of(members@);
    let n = members.len();
    let mut direct: Vec<((Who, Who), i64)> = Vec::new();
    let mut items: Vec<(Who, Vec<SplitResultItem>)> = Vec::new();
    let ghost mut idx: Seq<(int, int)> = Seq::empty();
    let ghost mut iidx: Seq<int> = Seq::empty();
    let mut a: usize = 0;
    while a < n
        invariant
            a <= n,
            n == members.len(),
            all == views(bs@),
            m == names_of(members@),
            names_sorted(m),
            forall|x: Seq<char>| #[trigger] m.contains(x) <==> is_member(all, x),
            forall|i: int| 0 <= i < bs@.len() ==> (#[trigger] bs@[i]).paid >= 0,
            total_paid(all) <= i64::MAX,
            idx.len() == direct.len(),
            forall|t: int| 0 <= t < idx.len() ==> 0 <= (#[trigger] idx[t]).0 < a && 0 <= idx[t].1 < n && idx[t].0 != idx[t].1,
            forall|t: int, u: int| 0 <= t < u < idx.len() ==> idx_lt(#[trigger] idx[t], #[trigger] idx[u]),
            forall|t: int| 0 <= t < idx.len() ==> (#[trigger] pairs_view(direct@)[t]).0 == (m[idx[t].0], m[idx[t].1]),
            forall|t: int| 0 <= t < idx.len() ==> recorded(all, (#[trigger] pairs_view(direct@)[t]).0.0, pairs_view(direct@)[t].0.1)
                && pairs_view(direct@)[t].1 == owed(all, pairs_view(direct@)[t].0.0, pairs_view(direct@)[t].0.1),
            forall|p: int, q: int| 0 <= p < a && 0 <= q < n && p != q && recorded(all, #[trigger] m[p], #[trigger] m[q])
                ==> exists|t: int| 0 <= t < idx.len() && idx[t] == (p, q),
            iidx.len() == items.len(),
            forall|t: int| 0 <= t < iidx.len() ==> 0 <= #[trigger] iidx[t] < a,
            forall|t: int, u: int| 0 <= t < u < iidx.len() ==> #[trigger] iidx[t] < #[trigger] iidx[u],
            forall|t: int| 0 <= t < iidx.len() ==> (#[trigger] entries_view(items@)[t]).0 == m[iidx[t]]
                && entries_view(items@)[t].1 == records(all, m[iidx[t]])
                && records(all, m[iidx[t]]).len() > 0,
            forall|p: int| 0 <= p < a && records(all, #[trigger] m[p]).len() > 0 ==> exists|t: int| 0 <= t < iidx.len() && iidx[t] == p,
        decreases n - a,
    {
        let ghost iidx0 = iidx;
        let recs = records_for(bs, &members[a]);
        assert(records_of(recs@).len() == recs@.len());
        assert(m[a as int] == members@[a as int]@);
        if recs.len() > 0 {
            let ghost old_items = entries_view(items@);
            items.push((members[a].duplicate(), recs));
            proof {
                iidx = iidx.push(a as int);
                assert(entries_view(items@) =~= old_items.push((m[a as int], records(all, m[a as int]))));
                assert(iidx[iidx.len() - 1] == a);
            }
        }
        assert forall|p: int| 0 <= p < a + 1 && records(all, #[trigger] m[p]).len() > 0 implies exists|t: int| 0 <= t < iidx.len() && iidx[t] == p by {
            if p == a {
                assert(recs.len() > 0);
                assert(iidx[iidx.len() - 1] == p);
            } else {
                assert(p < a);
                let t = choose|t: int| 0 <= t < iidx0.len() && iidx0[t] == p;
                assert(iidx[t] == p);
            }
        }
        let mut b: usize = 0;
        while b < n
            invariant
                a < n,
                b <= n,
                n == members.len(),
                all == views(bs@),
                m == names_of(members@),
                names_sorted(m),
                forall|i: int| 0 <= i < bs@.len() ==> (#[trigger] bs@[i]).paid >= 0,
                total_paid(all) <= i64::MAX,
                idx.len() == direct.len(),
                forall|t: int| 0 <= t < idx.len() ==> 0 <= (#[trigger] idx[t]).0 < n && 0 <= idx[t].1 < n && idx[t].0 != idx[t].1
                    && idx_lt(idx[t], (a as int, b as int)),
                forall|t: int, u: int| 0 <= t < u < idx.len() ==> idx_lt(#[trigger] idx[t], #[trigger] idx[u]),
                forall|t: int| 0 <= t < idx.len() ==> (#[trigger] pairs_view(direct@)[t]).0 == (m[idx[t].0], m[idx[t].1]),
                forall|t: int| 0 <= t < idx.len() ==> recorded(all, (#[trigger] pairs_view(direct@)[t]).0.0, pairs_view(direct@)[t].0.1)
                    && pairs_view(direct@)[t].1 == owed(all, pairs_view(direct@)[t].0.0, pairs_view(direct@)[t].0.1),
                forall|p: int, q: int| 0 <= p < n && 0 <= q < n && p != q && idx_lt((p, q), (a as int, b as int)) && recorded(all, #[trigger] m[p], #[trigger] m[q])
                    ==> exists|t: int| 0 <= t < idx.len() && idx[t] == (p, q),
                forall|x: Seq<char>| #[trigger] m.contains(x) <==> is_member(all, x),
                iidx.len() == items.len(),
                forall|t: int| 0 <= t < iidx.len() ==> 0 <= #[trigger] iidx[t] < a + 1,
                forall|t: int, u: int| 0 <= t < u < iidx.len() ==> #[trigger] iidx[t] < #[trigger] iidx[u],
                forall|t: int| 0 <= t < iidx.len() ==> (#[trigger] entries_view(items@)[t]).0 == m[iidx[t]]
                    && entries_view(items@)[t].1 == records(all, m[iidx[t]])
                    && records(all, m[iidx[t]]).len() > 0,
                forall|p: int| 0 <= p < a + 1 && records(all, #[trigger] m[p]).len() > 0 ==> exists|t: int| 0 <= t < iidx.len() && iidx[t] == p,
            decreases n - b,
        {
            let ghost mut pushed = false;
            let ghost idx0 = idx;
            if a != b {
                let (rec, amount) = owed_between(bs, &members[a], &members[b]);
                assert(m[a as int] == members@[a as int]@);
                assert(m[b as int] == members@[b as int]@);
                if rec {
                    let ghost old_pv = pairs_view(direct@);
                    direct.push(((members[a].duplicate(), members[b].duplicate()), amount));
                    proof {
                        idx = idx.push((a as int, b as int));
                        assert(pairs_view(direct@) =~= old_pv.push(((m[a as int], m[b as int]), amount as int)));
                        pushed = true;
                    }
                }
                assert(recorded(all, m[a as int], m[b as int]) ==> pushed && idx[idx.len() - 1] == (a as int, b as int));
            }
            proof {
                assert forall|p: int, q: int| 0 <= p < n && 0 <= q < n && p != q && idx_lt((p, q), (a as int, b + 1)) && recorded(all, #[trigger] m[p], #[trigger] m[q])
                    implies exists|t: int| 0 <= t < idx.len() && idx[t] == (p, q) by {
                    if p == a && q == b {
                        assert(m[a as int] == members@[a as int]@);
                        assert(m[b as int] == members@[b as int]@);
                        assert(pushed);
                        assert(idx[idx.len() - 1] == (p, q));
                    } else {
                        assert(idx_lt((p, q), (a as int, b as int)));
                        let t = choose|t: int| 0 <= t < idx0.len() && idx0[t] == (p, q);
                        assert(idx[t] == (p, q));
                    }
                }
            }
            b = b + 1;
        }
        a = a + 1;
    }
    let ghost pv = pairs_view(direct@);
    let ghost ev = entries_view(items@);
    assert forall|t: int, u: int| 0 <= t < u < pv.len() implies pair_lt(#[trigger] pv[t].0, #[trigger] pv[u].0) by {
        lemma_idx_pairs(m, idx[t], idx[u]);
    }
    assert forall|k: (Seq<char>, Seq<char>)| #[trigger] has_key(pv, k) <==> recorded(all, k.0, k.1) by {
        if recorded(all, k.0, k.1) {
            lemma_recorded_members(all, k.0, k.1);
            assert(m.contains(k.0) && m.contains(k.1));
            let p = choose|p: int| 0 <= p < m.len() && m[p] == k.0;
            let q = choose|q: int| 0 <= q < m.len() && m[q] == k.1;
            assert(recorded(all, m[p], m[q]));
            let t = choose|t: int| 0 <= t < idx.len() && idx[t] == (p, q);
            assert(pv[t].0 == k);
        }
        if has_key(pv, k) {
            let t = choose|t: int| 0 <= t < pv.len() && #[trigger] pv[t].0 == k;
        }
    }
    assert forall|t: int, u: int| 0 <= t < u < ev.len() implies seq_lt(#[trigger] ev[t].0, #[trigger] ev[u].0) by {
        assert(iidx[t] < iidx[u]);
    }
    assert forall|x: Seq<char>| #[trigger] has_key(ev, x) <==> records(all, x).len() > 0 by {
        if records(all, x).len() > 0 {
            lemma_records_member(all, x);
            assert(m.contains(x));
            let p = choose|p: int| 0 <= p < m.len() && m[p] == x;
            assert(records(all, m[p]).len() > 0);
            let t = choose|t: int| 0 <= t < iidx.len() && iidx[t] == p;
            assert(ev[t].0 == x);
        }
        if has_key(ev, x) {
            let t = choose|t: int| 0 <= t < ev.len() && #[trigger] ev[t].0 == x;
        }
    }
    (direct, items)
}

/// What the list `d` holds for the pair `(x, y)`, or 0 where it holds nothing for it.
fn amount_between(d: &Vec<((Who, Who), i64)>, x: &Who, y: &Who) -> (r: i64)
    requires
        pairs_sorted(pairs_view(d@)),
    ensures
        r == value_or(pairs_view(d@), (x@, y@), 0int),
{
    let ghost pv = pairs_view(d@);
    let mut i: usize = 0;
    while i < d.len()
        invariant
            i <= d.len(),
            pv == pairs_view(d@),
            pairs_sorted(pv),
            forall|j: int| 0 <= j < i ==> pv[j].0 != (x@, y@),
        decreases d.len() - i,
    {
        if d[i].0.0.same(x) && d[i].0.1.same(y) {
            proof {
                lemma_value_at_pair(pv, i as int);
                assert(pv[i as int].0 == (x@, y@));
            }
            return d[i].1;
        }
        i = i + 1;
    }
    assert(!has_key(pv, (x@, y@)));
    0
}

/// The simplest settlement between each pair of people: for each pair `(x, y)` listed in
/// `direct`, what `x` owes `y` less what `y` owes `x`, kept where it is above zero. The
/// amounts are debts, none below zero: its only caller, `calculate_from`, hands it what
/// `calculate_balances_and_transactions` gives for bills that passed the check.
fn calculate_net_settlements(direct: &Vec<((Who, Who), i64)>) -> (f: Vec<((Who, Who), i64)>)
    requires
        pairs_sorted(pairs_view(direct@)),
        forall|i: int| 0 <= i < direct@.len() ==> (#[trigger] direct@[i]).1 >= 0,
    ensures
        pairs_sorted(pairs_view(f@)),
        forall|k: (Seq<char>, Seq<char>)| #[trigger] has_key(pairs_view(f@), k) <==> (has_key(pairs_view(direct@), k)
            && value_or(pairs_view(direct@), k, 0int) - value_or(pairs_view(direct@), (k.1, k.0), 0int) > 0),
        forall|i: int| 0 <= i < f@.len() ==> (#[trigger] pairs_view(f@)[i]).1 == value_or(pairs_view(direct@), pairs_view(f@)[i].0, 0int)
            - value_or(pairs_view(direct@), (pairs_view(f@)[i].0.1, pairs_view(f@)[i].0.0), 0int),
{
    let ghost d = pairs_view(direct@);
    let mut f: Vec<((Who, Who), i64)> = Vec::new();
    let ghost mut fidx: Seq<int> = Seq::empty();
    let mut t: usize = 0;
    while t < direct.len()
        invariant
            t <= direct.len(),
            d == pairs_view(direct@),
            pairs_sorted(d),
            forall|i: int| 0 <= i < direct@.len() ==> (#[trigger] direct@[i]).1 >= 0,
            fidx.len() == f.len(),
            forall|u: int| 0 <= u < fidx.len() ==> 0 <= #[trigger] fidx[u] < t,
            forall|u: int, w: int| 0 <= u < w < fidx.len() ==> #[trigger] fidx[u] < #[trigger] fidx[w],
            forall|u: int| 0 <= u < fidx.len() ==> (#[trigger] pairs_view(f@)[u]).0 == d[fidx[u]].0
                && pairs_view(f@)[u].1 == d[fidx[u]].1 - value_or(d, (d[fidx[u]].0.1, d[fidx[u]].0.0), 0int)
                && pairs_view(f@)[u].1 > 0,
            forall|j: int| 0 <= j < t && d[j].1 - value_or(d, ((#[trigger] d[j]).0.1, d[j].0.0), 0int) > 0
                ==> exists|u: int| 0 <= u < fidx.len() && fidx[u] == j,
        decreases direct.len() - t,
    {
        let x = &direct[t].0.0;
        let y = &direct[t].0.1;
        let a = direct[t].1;
        let back = amount_between(direct, y, x);
        let ghost fidx0 = fidx;
        assert(d[t as int].0 == (x@, y@));
        if a - back > 0 {
            let ghost f0 = pairs_view(f@);
            f.push(((x.duplicate(), y.duplicate()), a - back));
            proof {
                fidx = fidx.push(t as int);
                assert(pairs_view(f@) =~= f0.push((d[t as int].0, (a - back) as int)));
            }
        }
        assert forall|j: int| 0 <= j < t + 1 && d[j].1 - value_or(d, ((#[trigger] d[j]).0.1, d[j].0.0), 0int) > 0
            implies exists|u: int| 0 <= u < fidx.len() && fidx[u] == j by {
            if j == t {
                assert(fidx[fidx.len() - 1] == j);
            } else {
                let u = choose|u: int| 0 <= u < fidx0.len() && fidx0[u] == j;
                assert(fidx[u] == j);
            }
        }
        t = t + 1;
    }
    let ghost fv = pairs_view(f@);
    assert forall|u: int, w: int| 0 <= u < w < fv.len() implies pair_lt(#[trigger] fv[u].0, #[trigger] fv[w].0) by {
        assert(fidx[u] < fidx[w]);
    }
    assert forall|u: int| 0 <= u < fv.len() implies (#[trigger] fv[u]).1 == value_or(d, fv[u].0, 0int) - value_or(d, (fv[u].0.1, fv[u].0.0), 0int) by {
        lemma_value_at_pair(d, fidx[u]);
    }
    assert forall|k: (Seq<char>, Seq<char>)| #[trigger] has_key(fv, k) <==> (has_key(d, k)
        && value_or(d, k, 0int) - value_or(d, (k.1, k.0), 0int) > 0) by {
        if has_key(fv, k) {
            let u = choose|u: int| 0 <= u < fv.len() && #[trigger] fv[u].0 == k;
            lemma_value_at_pair(d, fidx[u]);
        }
        if has_key(d, k) && value_or(d, k, 0int) - value_or(d, (k.1, k.0), 0int) > 0 {
            let j = choose|j: int| 0 <= j < d.len() && #[trigger] d[j].0 == k;
            lemma_value_at_pair(d, j);
            let u = choose|u: int| 0 <= u < fidx.len() && fidx[u] == j;
            assert(fv[u].0 == k);
        }
    }
    f
}

/// Appends " (Total)" to the reason of every record.
fn add_total_reason(items: &mut Vec<(Who, Vec<SplitResultItem>)>)
    ensures
        entries_view(final(items)@) == entries_view(old(items)@).map_values(
            |e: (Seq<char>, Seq<RecordView>)| (e.0, with_suffix(e.1, " (Total)"@)),
        ),
{
    let ghost before = entries_view(items@);
    let mut out: Vec<(Who, Vec<SplitResultItem>)> = Vec::new();
    let mut i: usize = 0;
    while i < items.len()
        invariant
            i <= items.len(),
            before == entries_view(items@),
            entries_view(out@) =~= before.take(i as int).map_values(
                |e: (Seq<char>, Seq<RecordView>)| (e.0, with_suffix(e.1, " (Total)"@)),
            ),
        decreases items.len() - i,
    {
        let ghost rs = records_of(items@[i as int].1@);
        let mut bills: Vec<SplitResultItem> = Vec::new();
        let mut j: usize = 0;
        while j < items[i].1.len()
            invariant
                i < items.len(),
                j <= items@[i as int].1.len(),
                rs == records_of(items@[i as int].1@),
                records_of(bills@) =~= with_suffix(rs.take(j as int), " (Total)"@),
            decreases items@[i as int].1.len() - j,
        {
            let r = &items[i].1[j];
            let reason = r.reason.clone().concat(" (Total)");
            let ghost b0 = records_of(bills@);
            bills.push(SplitResultItem { payee: r.payee.duplicate(), bill: r.bill, reason });
            proof {
                assert(rs[j as int] == r@);
                assert(rs.take(j + 1) =~= rs.take(j as int).push(rs[j as int]));
                assert(records_of(bills@) =~= b0.push(RecordView { payee: rs[j as int].payee, bill: rs[j as int].bill, reason: rs[j as int].reason + " (Total)"@ }));
                assert(with_suffix(rs.take(j + 1), " (Total)"@) =~= with_suffix(rs.take(j as int), " (Total)"@).push(RecordView { payee: rs[j as int].payee, bill: rs[j as int].bill, reason: rs[j as int].reason + " (Total)"@ }));
            }
            j = j + 1;
        }
        assert(rs.take(rs.len() as int) =~= rs);
        let ghost o0 = entries_view(out@);
        out.push((items[i].0.duplicate(), bills));
        proof {
            assert(before[i as int] == (items@[i as int].0@, rs));
            assert(before.take(i + 1) =~= before.take(i as int).push(before[i as int]));
            assert(entries_view(out@) =~= o0.push((items@[i as int].0@, with_suffix(rs, " (Total)"@))));
        }
        i = i + 1;
    }
    assert(before.take(before.len() as int) =~= before);
    *items = out;
}

/// Splits the bills: refuses them if one has a negative amount or names a person twice in
/// its split (the first such bill in order of identifier decides the error); otherwise gives
/// everyone's records and the net settlement between each pair of people.
pub fn calculate_from(item: Bills) -> (r: Result<SplitResult, BillSplitError>)
    requires
        total_paid(ordered_bills(item@)) <= i64::MAX,
    ensures
        check_bills(ordered_bills(item@)) is Err ==> r == Err::<SplitResult, BillSplitError>(check_bills(ordered_bills(item@))->Err_0),
        check_bills(ordered_bills(item@)) is Ok ==> r is Ok
            && is_settlement(r->Ok_0@.final_result, ordered_bills(item@))
            && is_itemization(r->Ok_0@.items, ordered_bills(item@), " (Total)"@),
{
    let bs = bills_in_order(&item);
    let ghost all = views(bs@);
    assert(all =~= ordered_bills(item@));
    match precheck(&bs) {
        Err(e) => {
            return Err(e);
        },
        Ok(()) => {},
    }
    proof {
        lemma_checked_bills(all);
        assert forall|i: int| 0 <= i < bs@.len() implies (#[trigger] bs@[i]).paid >= 0 && !has_dup(bs@[i]@.split) by {
            assert(all[i].paid >= 0 && !has_dup(all[i].split));
        }
    }
    let (direct, mut items) = calculate_balances_and_transactions(&bs);
    let ghost d = pairs_view(direct@);
    proof {
        assert forall|i: int| 0 <= i < direct@.len() implies (#[trigger] direct@[i]).1 >= 0 by {
            assert(d[i].1 == owed(all, d[i].0.0, d[i].0.1));
            lemma_owed_bounds(all, d[i].0.0, d[i].0.1);
        }
    }
    let final_result = calculate_net_settlements(&direct);
    let ghost items0 = entries_view(items@);
    add_total_reason(&mut items);
    let ghost fv = pairs_view(final_result@);
    let ghost ev = entries_view(items@);
    proof {
        assert forall|k: (Seq<char>, Seq<char>)| value_or(d, k, 0int) == owed(all, k.0, k.1) by {
            if has_key(d, k) {
                let j = choose|j: int| 0 <= j < d.len() && #[trigger] d[j].0 == k;
                lemma_value_at_pair(d, j);
            } else {
                lemma_unrecorded_owes_nothing(all, k.0, k.1);
            }
        }
        assert forall|x: Seq<char>, y: Seq<char>| #[trigger] has_key(fv, (x, y)) <==> owed(all, x, y) > owed(all, y, x) by {
            assert(value_or(d, (x, y), 0int) == owed(all, x, y));
            assert(value_or(d, (y, x), 0int) == owed(all, y, x));
            lemma_owed_bounds(all, y, x);
            if !recorded(all, x, y) {
                lemma_unrecorded_owes_nothing(all, x, y);
            }
        }
        assert forall|i: int| 0 <= i < fv.len() implies (#[trigger] fv[i]).1 == owed(all, fv[i].0.0, fv[i].0.1) - owed(all, fv[i].0.1, fv[i].0.0) by {
            assert(value_or(d, fv[i].0, 0int) == owed(all, fv[i].0.0, fv[i].0.1));
            assert(value_or(d, (fv[i].0.1, fv[i].0.0), 0int) == owed(all, fv[i].0.1, fv[i].0.0));
        }
        assert forall|i: int, j: int| 0 <= i < j < ev.len() implies seq_lt(#[trigger] ev[i].0, #[trigger] ev[j].0) by {
            assert(ev[i].0 == items0[i].0 && ev[j].0 == items0[j].0);
        }
        assert forall|x: Seq<char>| #[trigger] has_key(ev, x) <==> records(all, x).len() > 0 by {
            assert(ev.len() == items0.len());
            if has_key(ev, x) {
                let i = choose|i: int| 0 <= i < ev.len() && #[trigger] ev[i].0 == x;
                assert(ev[i] == (items0[i].0, with_suffix(items0[i].1, " (Total)"@)));
                assert(items0[i].0 == x);
                assert(has_key(items0, x));
            }
            if records(all, x).len() > 0 {
                assert(has_key(items0, x));
                let i = choose|i: int| 0 <= i < items0.len() && #[trigger] items0[i].0 == x;
                assert(ev[i] == (items0[i].0, with_suffix(items0[i].1, " (Total)"@)));
                assert(ev[i].0 == x);
            }
        }
    }
    Ok(SplitResult { items, final_result })
}

impl Bills {
    /// Whether the paid amounts that are not negative add up to at most `i64::MAX`, the
    /// largest total that splitting can count in.
    pub fn total_fits(&self) -> (r: bool)
        ensures
            r == (total_paid(ordered_bills(self@)) <= i64::MAX),
    {
        let bs = bills_in_order(self);
        let ghost all = views(bs@);
        assert(all =~= ordered_bills(self@));
        let mut sum: i64 = 0;
        let mut i: usize = 0;
        while i < bs.len()
            invariant
                i <= bs@.len(),
                all == views(bs@),
                all == ordered_bills(self@),
                sum == total_paid(all.take(i as int)),
            decreases bs.len() - i,
        {
            assert(all.take(i + 1).drop_last() =~= all.take(i as int));
            assert(all.take(i + 1).last() == bs@[i as int]@);
            let p = bs[i].paid;
            if p > 0 {
                match sum.checked_add(p) {
                    Some(v) => {
                        sum = v;
                    },
                    None => {
                        proof {
                            lemma_total_prefix(all, i + 1);
                        }
                        return false;
                    },
                }
            }
            i = i + 1;
        }
        assert(all.take(bs@.len() as int) =~= all);
        true
    }
}

/// A bill split between nobody changes nothing, wherever it stands among the bills and
/// whatever its payer, reason and amount: nobody owes anybody more by it, no pair gets a
/// debt from it, and nobody gets a record of it.
pub proof fn lemma_empty_split_changes_nothing(bs: Seq<BillView>, k: int, b: BillView, x: Seq<char>, y: Seq<char>)
    requires
        0 <= k <= bs.len(),
        b.split.len() == 0,
    ensures
        owed(bs.insert(k, b), x, y) == owed(bs, x, y),
        recorded(bs.insert(k, b), x, y) == recorded(bs, x, y),
        records(bs.insert(k, b), x) == records(bs, x),
    decreases bs.len(),
{
    let ins = bs.insert(k, b);
    assert(!b.split.contains(x));
    if k == bs.len() {
        assert(ins =~= bs.push(b));
        assert(ins.drop_last() =~= bs);
        assert(ins.last() == b);
    } else {
        assert(ins.drop_last() =~= bs.drop_last().insert(k, b));
        assert(ins.last() == bs.last());
        lemma_empty_split_changes_nothing(bs.drop_last(), k, b, x, y);
    }
    if recorded(ins, x, y) {
        let i = choose|i: int| 0 <= i < ins.len() && charges(#[trigger] ins[i], x, y);
        if i < k {
            assert(ins[i] == bs[i]);
        } else if i > k {
            assert(ins[i] == bs[i - 1]);
        }
    }
    if recorded(bs, x, y) {
        let i = choose|i: int| 0 <= i < bs.len() && charges(#[trigger] bs[i], x, y);
        if i < k {
            assert(ins[i] == bs[i]);
        } else {
            assert(ins[i + 1] == bs[i]);
        }
    }
}

/// Each bill paid by `y` makes every other person `x` it is split between owe `y` that bill's
/// share (the amount divided by the number of people in the split, rounded), whatever the
/// number of people, one included: what `x` owes `y` grows by exactly that share.
pub proof fn lemma_bill_adds_share(bs: Seq<BillView>, b: BillView, x: Seq<char>, y: Seq<char>)
    requires
        b.payer == y,
        x != y,
        b.split.contains(x),
    ensures
        owed(bs.push(b), x, y) == owed(bs, x, y) + share_of(b.paid, b.split.len() as int),
        recorded(bs.push(b), x, y),
{
    let ext = bs.push(b);
    assert(ext.drop_last() =~= bs);
    assert(ext.last() == b);
    assert(ext[bs.len() as int] == b);
}

/// A bill paid by `y` for people who do not include `x` (or paid by someone else, or where
/// `x` is `y`) changes nothing of what `x` owes `y`.
pub proof fn lemma_bill_adds_nothing(bs: Seq<BillView>, b: BillView, x: Seq<char>, y: Seq<char>)
    requires
        b.payer != y || x == y || !b.split.contains(x),
    ensures
        owed(bs.push(b), x, y) == owed(bs, x, y),
{
    let ext = bs.push(b);
    assert(ext.drop_last() =~= bs);
    assert(ext.last() == b);
}

/// With one bill, paid by `y` and split between people who include `x` (someone else), the
/// settlement has `x` pay `y` exactly that bill's share, and `y` pay `x` nothing; so a bill
/// paid for one other person alone makes that person pay the whole amount.
pub proof fn lemma_one_bill_settlement(f: Seq<((Seq<char>, Seq<char>), int)>, b: BillView, x: Seq<char>, y: Seq<char>)
    requires
        is_settlement(f, seq![b]),
        b.payer == y,
        x != y,
        b.split.contains(x),
        b.paid >= 0,
    ensures
        value_or(f, (x, y), 0int) == share_of(b.paid, b.split.len() as int),
        share_of(b.paid, b.split.len() as int) > 0 ==> has_key(f, (x, y)),
        !has_key(f, (y, x)),
        b.split.len() == 1 ==> value_or(f, (x, y), 0int) == b.paid,
{
    let empty = Seq::<BillView>::empty();
    assert(seq![b] =~= empty.push(b));
    assert(owed(empty, x, y) == 0);
    assert(owed(empty, y, x) == 0);
    lemma_bill_adds_share(empty, b, x, y);
    lemma_bill_adds_nothing(empty, b, y, x);
    assert(b.split.len() > 0);
    lemma_share_bounds(b.paid, b.split.len() as int);
    lemma_settlement_keeps_balance(f, seq![b], x, y);
    lemma_settlement_one_way(f, seq![b], x, y);
    lemma_settlement_one_way(f, seq![b], y, x);
    assert(has_key(f, (y, x)) <==> owed(seq![b], y, x) > owed(seq![b], x, y));
    if b.split.len() == 1 {
        assert(share_of(b.paid, 1) == b.paid);
    }
}

/// A bill that names the same person twice in its split, at any two places, makes the bills
/// refused; alone (and with an amount of zero or more), it is refused for naming someone twice.
pub proof fn lemma_repeated_name_refused(bs: Seq<BillView>, k: int, i: int, j: int)
    requires
        0 <= k < bs.len(),
        0 <= i < j < bs[k].split.len(),
        bs[k].split[i] == bs[k].split[j],
    ensures
        check_bills(bs) is Err,
        bs.len() == 1 && bs[0].paid >= 0 ==> check_bills(bs) == Err::<(), BillSplitError>(BillSplitError::DuplicateSplitMembers),
    decreases k,
{
    if k == 0 {
        assert(has_dup(bs[0].split));
    } else {
        if !(bs[0].paid < 0 || has_dup(bs[0].split)) {
            assert(bs.drop_first()[k - 1] == bs[k]);
            lemma_repeated_name_refused(bs.drop_first(), k - 1, i, j);
        }
    }
}

/// Bills whose amounts are all zero or more and whose splits each name every person at most
/// once are accepted.
pub proof fn lemma_valid_bills_accepted(bs: Seq<BillView>)
    requires
        forall|k: int| 0 <= k < bs.len() ==> #[trigger] bs[k].paid >= 0,
        forall|k: int, i: int, j: int| 0 <= k < bs.len() && 0 <= i < j < bs[k].split.len() ==> #[trigger] bs[k].split[i] != #[trigger] bs[k].split[j],
    ensures
        check_bills(bs) == Ok::<(), BillSplitError>(()),
    decreases bs.len(),
{
    if bs.len() > 0 {
        let rest = bs.drop_first();
        assert(bs[0].paid >= 0);
        assert(!has_dup(bs[0].split)) by {
            if has_dup(bs[0].split) {
                let (i, j) = choose|i: int, j: int| 0 <= i < j < bs[0].split.len() && bs[0].split[i] == bs[0].split[j];
                assert(bs[0].split[i] != bs[0].split[j]);
            }
        }
        assert forall|k: int| 0 <= k < rest.len() implies #[trigger] rest[k].paid >= 0 by {
            assert(rest[k] == bs[k + 1]);
        }
        assert forall|k: int, i: int, j: int| 0 <= k < rest.len() && 0 <= i < j < rest[k].split.len() implies #[trigger] rest[k].split[i] != #[trigger] rest[k].split[j] by {
            assert(rest[k] == bs[k + 1]);
        }
        lemma_valid_bills_accepted(rest);
    }
}

/// A bill with an amount below zero makes the bills refused; alone, it is refused for that.
pub proof fn lemma_negative_amount_refused(bs: Seq<BillView>, k: int)
    requires
        0 <= k < bs.len(),
        bs[k].paid < 0,
    ensures
        check_bills(bs) is Err,
        bs.len() == 1 ==> check_bills(bs) == Err::<(), BillSplitError>(BillSplitError::NegativePaidAmount),
    decreases k,
{
    if k > 0 && !(bs[0].paid < 0 || has_dup(bs[0].split)) {
        assert(bs.drop_first()[k - 1] == bs[k]);
        lemma_negative_amount_refused(bs.drop_first(), k - 1);
    }
}

/// A settlement never has two people paying each other, and every amount in it is above zero.
pub proof fn lemma_settlement_one_way(f: Seq<((Seq<char>, Seq<char>), int)>, bs: Seq<BillView>, x: Seq<char>, y: Seq<char>)
    requires
        is_settlement(f, bs),
    ensures
        !(has_key(f, (x, y)) && has_key(f, (y, x))),
        has_key(f, (x, y)) ==> value_or(f, (x, y), 0int) > 0,
        !has_key(f, (x, x)),
{
    assert(has_key(f, (x, y)) <==> owed(bs, x, y) > owed(bs, y, x));
    assert(has_key(f, (y, x)) <==> owed(bs, y, x) > owed(bs, x, y));
    assert(has_key(f, (x, x)) <==> owed(bs, x, x) > owed(bs, x, x));
    if has_key(f, (x, y)) {
        let i = choose|i: int| 0 <= i < f.len() && #[trigger] f[i].0 == (x, y);
        lemma_value_at_pair(f, i);
    }
}

/// Settling keeps what each pair of people owe each other on balance: what `x` pays `y`
/// less what `y` pays `x` in the settlement is what `x` owes `y` less what `y` owes `x`.
pub proof fn lemma_settlement_keeps_balance(f: Seq<((Seq<char>, Seq<char>), int)>, bs: Seq<BillView>, x: Seq<char>, y: Seq<char>)
    requires
        is_settlement(f, bs),
    ensures
        value_or(f, (x, y), 0int) - value_or(f, (y, x), 0int) == owed(bs, x, y) - owed(bs, y, x),
{
    assert(has_key(f, (x, y)) <==> owed(bs, x, y) > owed(bs, y, x));
    assert(has_key(f, (y, x)) <==> owed(bs, y, x) > owed(bs, x, y));
    if has_key(f, (x, y)) {
        let i = choose|i: int| 0 <= i < f.len() && #[trigger] f[i].0 == (x, y);
        lemma_value_at_pair(f, i);
    }
    if has_key(f, (y, x)) {
        let i = choose|i: int| 0 <= i < f.len() && #[trigger] f[i].0 == (y, x);
        lemma_value_at_pair(f, i);
    }
}

/// Nobody owes anything by a bill that only its payer takes part in.
pub proof fn lemma_own_bill_owes_nothing(b: BillView, x: Seq<char>, y: Seq<char>)
    requires
        forall|i: int| 0 <= i < b.split.len() ==> b.split[i] == b.payer,
    ensures
        owed(seq![b], x, y) == 0,
        records(seq![b], x).len() == 0,
{
    let bs = seq![b];
    assert(bs.drop_last() =~= Seq::<BillView>::empty());
    assert(bs.last() == b);
    assert(owed(bs.drop_last(), x, y) == 0);
    assert(records(bs.drop_last(), x).len() == 0);
    if b.split.contains(x) {
        let i = choose|i: int| 0 <= i < b.split.len() && b.split[i] == x;
        assert(b.split[i] == b.payer);
    }
}

} // verus!
