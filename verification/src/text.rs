//! Character-level helpers on strings: ordering, slicing and building.
use vstd::prelude::*;

verus! {

/// Strict lexicographic order on character sequences, compared from index `i` on.
pub open spec fn lt_from(a: Seq<char>, b: Seq<char>, i: int) -> bool
    decreases a.len() - i,
{
    if i < 0 || i >= a.len() {
        0 <= i < b.len()
    } else if i >= b.len() {
        false
    } else if a[i] != b[i] {
        (a[i] as u32) < (b[i] as u32)
    } else {
        lt_from(a, b, i + 1)
    }
}

/// Strict lexicographic order on character sequences: the order of `str` and `String`.
pub open spec fn seq_lt(a: Seq<char>, b: Seq<char>) -> bool {
    lt_from(a, b, 0)
}

/// No sequence comes before itself.
pub proof fn lemma_lt_irreflexive(a: Seq<char>, i: int)
    requires
        0 <= i,
    ensures
        !lt_from(a, a, i),
    decreases a.len() - i,
{
    if i < a.len() {
        lemma_lt_irreflexive(a, i + 1);
    }
}

/// The order is transitive.
pub proof fn lemma_lt_transitive(a: Seq<char>, b: Seq<char>, c: Seq<char>, i: int)
    requires
        0 <= i,
        lt_from(a, b, i),
        lt_from(b, c, i),
    ensures
        lt_from(a, c, i),
    decreases a.len() - i,
{
    if i < a.len() && i < b.len() && i < c.len() && a[i] == b[i] && b[i] == c[i] {
        lemma_lt_transitive(a, b, c, i + 1);
    }
}

/// Of two sequences that agree before `i`, either they are equal or one comes first.
pub proof fn lemma_lt_total(a: Seq<char>, b: Seq<char>, i: int)
    requires
        0 <= i <= a.len(),
        i <= b.len(),
        a.take(i) == b.take(i),
    ensures
        a == b || lt_from(a, b, i) || lt_from(b, a, i),
    decreases a.len() - i,
{
    if i < a.len() && i < b.len() && a[i] == b[i] {
        assert(a.take(i + 1) =~= a.take(i).push(a[i]));
        assert(b.take(i + 1) =~= b.take(i).push(b[i]));
        lemma_lt_total(a, b, i + 1);
    } else if i < a.len() && i < b.len() {
        vstd::utf8::char_u32_cast(a[i], a[i] as u32);
        vstd::utf8::char_u32_cast(b[i], b[i] as u32);
    } else if i == a.len() && i == b.len() {
        assert(a =~= a.take(i));
        assert(b =~= b.take(i));
    }
}

/// The order is asymmetric.
pub proof fn lemma_lt_asymmetric(a: Seq<char>, b: Seq<char>, i: int)
    requires
        0 <= i,
        lt_from(a, b, i),
    ensures
        !lt_from(b, a, i),
    decreases a.len() - i,
{
    if i < a.len() && i < b.len() && a[i] == b[i] {
        lemma_lt_asymmetric(a, b, i + 1);
    }
}

/// The facts about `seq_lt` that make it a strict total order.
pub proof fn lemma_seq_lt_order(a: Seq<char>, b: Seq<char>, c: Seq<char>)
    ensures
        !seq_lt(a, a),
        seq_lt(a, b) ==> !seq_lt(b, a),
        seq_lt(a, b) && seq_lt(b, c) ==> seq_lt(a, c),
        a == b || seq_lt(a, b) || seq_lt(b, a),
{
    lemma_lt_irreflexive(a, 0);
    if seq_lt(a, b) {
        lemma_lt_asymmetric(a, b, 0);
    }
    if seq_lt(a, b) && seq_lt(b, c) {
        lemma_lt_transitive(a, b, c, 0);
    }
    assert(a.take(0) =~= b.take(0));
    lemma_lt_total(a, b, 0);
}

/// The characters of each string of `v`.
pub open spec fn texts_of(v: Seq<String>) -> Seq<Seq<char>> {
    v.map_values(|s: String| s@)
}

/// The order of pairs of names: by the first name, then by the second.
pub open spec fn pair_lt(p: (Seq<char>, Seq<char>), q: (Seq<char>, Seq<char>)) -> bool {
    seq_lt(p.0, q.0) || (p.0 == q.0 && seq_lt(p.1, q.1))
}

/// Names in strictly increasing order (so no name twice).
pub open spec fn names_sorted(s: Seq<Seq<char>>) -> bool {
    forall|i: int, j: int| 0 <= i < j < s.len() ==> seq_lt(#[trigger] s[i], #[trigger] s[j])
}

/// The facts about `pair_lt` that make it a strict total order.
pub proof fn lemma_pair_lt_order(p: (Seq<char>, Seq<char>), q: (Seq<char>, Seq<char>), r: (Seq<char>, Seq<char>))
    ensures
        !pair_lt(p, p),
        pair_lt(p, q) ==> !pair_lt(q, p),
        pair_lt(p, q) && pair_lt(q, r) ==> pair_lt(p, r),
        p == q || pair_lt(p, q) || pair_lt(q, p),
{
    lemma_seq_lt_order(p.0, q.0, r.0);
    lemma_seq_lt_order(p.1, q.1, r.1);
    lemma_seq_lt_order(q.0, p.0, r.0);
    lemma_seq_lt_order(q.1, p.1, r.1);
    lemma_seq_lt_order(p.0, r.0, q.0);
}

/// Whether `a` comes strictly before `b` in the order of `str`.
pub fn str_lt(a: &str, b: &str) -> (r: bool)
    ensures
        r == seq_lt(a@, b@),
{
    let x = chars_of(a);
    let y = chars_of(b);
    let mut i: usize = 0;
    while i < x.len() && i < y.len()
        invariant
            x@ == a@,
            y@ == b@,
            i <= x.len(),
            i <= y.len(),
            lt_from(a@, b@, 0) == lt_from(a@, b@, i as int),
        decreases x.len() - i,
    {
        let cx = x[i];
        let cy = y[i];
        if cx != cy {
            return (cx as u32) < (cy as u32);
        }
        i = i + 1;
    }
    i < y.len()
}

/// Calls `String::push`: appends the character `c` to `s`.
#[verifier::external_body]
pub(crate) fn push_char(s: &mut String, c: char)
    ensures
        final(s)@ == old(s)@.push(c),
{
    s.push(c);
}

/// The string made of the characters `cs[lo..hi]`.
pub fn string_of(cs: &Vec<char>, lo: usize, hi: usize) -> (s: String)
    requires
        lo <= hi <= cs@.len(),
    ensures
        s@ == cs@.subrange(lo as int, hi as int),
{
    let mut s = String::new();
    let mut i = lo;
    while i < hi
        invariant
            lo <= i <= hi <= cs@.len(),
            s@ =~= cs@.subrange(lo as int, i as int),
        decreases hi - i,
    {
        push_char(&mut s, cs[i]);
        i = i + 1;
    }
    s
}

/// Whether `c` is white space: a character with the Unicode `White_Space` property (the
/// characters `char::is_whitespace` accepts).
pub open spec fn is_ws(c: char) -> bool {
    let u = c as u32;
    (9 <= u <= 13) || u == 32 || u == 0x85 || u == 0xA0 || u == 0x1680 || (0x2000 <= u <= 0x200A)
        || u == 0x2028 || u == 0x2029 || u == 0x202F || u == 0x205F || u == 0x3000
}

/// Whether `c` is white space.
pub fn is_space(c: char) -> (r: bool)
    ensures
        r == is_ws(c),
{
    let u = c as u32;
    (9 <= u && u <= 13) || u == 32 || u == 0x85 || u == 0xA0 || u == 0x1680 || (0x2000 <= u && u <= 0x200A)
        || u == 0x2028 || u == 0x2029 || u == 0x202F || u == 0x205F || u == 0x3000
}

/// `s` without the white space at its start.
pub open spec fn trim_start(s: Seq<char>) -> Seq<char>
    decreases s.len(),
{
    if s.len() > 0 && is_ws(s[0]) {
        trim_start(s.drop_first())
    } else {
        s
    }
}

/// `s` without the white space at its end.
pub open spec fn trim_end(s: Seq<char>) -> Seq<char>
    decreases s.len(),
{
    if s.len() > 0 && is_ws(s.last()) {
        trim_end(s.drop_last())
    } else {
        s
    }
}

/// `s` without the white space at either end (what `str::trim` gives).
pub open spec fn trim(s: Seq<char>) -> Seq<char> {
    trim_end(trim_start(s))
}

/// The pieces of `s` between occurrences of `c` (what `str::split` gives for a character):
/// one more piece than there are occurrences, empty pieces included.
pub open spec fn split_on(s: Seq<char>, c: char) -> Seq<Seq<char>>
    decreases s.len(),
{
    if s.len() == 0 {
        seq![Seq::empty()]
    } else {
        let p = split_on(s.drop_last(), c);
        if s.last() == c {
            p.push(Seq::empty())
        } else {
            p.update(p.len() - 1, p.last().push(s.last()))
        }
    }
}

/// A split has at least one piece.
pub proof fn lemma_split_nonempty(s: Seq<char>, c: char)
    ensures
        split_on(s, c).len() >= 1,
    decreases s.len(),
{
    if s.len() > 0 {
        lemma_split_nonempty(s.drop_last(), c);
    }
}

/// The range of `cs[lo..hi]` left once white space is taken off both ends.
pub fn trim_range(cs: &Vec<char>, lo: usize, hi: usize) -> (r: (usize, usize))
    requires
        lo <= hi <= cs@.len(),
    ensures
        lo <= r.0 <= r.1 <= hi,
        cs@.subrange(r.0 as int, r.1 as int) == trim(cs@.subrange(lo as int, hi as int)),
{
    let mut a = lo;
    while a < hi && is_space(cs[a])
        invariant
            lo <= a <= hi <= cs@.len(),
            trim_start(cs@.subrange(lo as int, hi as int)) == trim_start(cs@.subrange(a as int, hi as int)),
        decreases hi - a,
    {
        assert(cs@.subrange(a as int, hi as int).drop_first() =~= cs@.subrange(a + 1, hi as int));
        a = a + 1;
    }
    assert(trim_start(cs@.subrange(a as int, hi as int)) == cs@.subrange(a as int, hi as int));
    let mut b = hi;
    while b > a && is_space(cs[b - 1])
        invariant
            lo <= a <= b <= hi <= cs@.len(),
            trim_end(cs@.subrange(a as int, hi as int)) == trim_end(cs@.subrange(a as int, b as int)),
        decreases b,
    {
        assert(cs@.subrange(a as int, b as int).drop_last() =~= cs@.subrange(a as int, b - 1));
        b = b - 1;
    }
    assert(trim_end(cs@.subrange(a as int, b as int)) == cs@.subrange(a as int, b as int));
    (a, b)
}

/// The pieces of `cs[lo..hi]` between occurrences of `c`, as ranges.
pub fn split_ranges(cs: &Vec<char>, lo: usize, hi: usize, c: char) -> (r: Vec<(usize, usize)>)
    requires
        lo <= hi <= cs@.len(),
    ensures
        forall|k: int| 0 <= k < r@.len() ==> lo <= (#[trigger] r@[k]).0 <= r@[k].1 <= hi,
        r@.map_values(|p: (usize, usize)| cs@.subrange(p.0 as int, p.1 as int)) == split_on(cs@.subrange(lo as int, hi as int), c),
{
    let mut r: Vec<(usize, usize)> = Vec::new();
    let mut cur = lo;
    let mut i = lo;
    assert(cs@.subrange(lo as int, lo as int) =~= Seq::<char>::empty());
    assert(r@.map_values(|p: (usize, usize)| cs@.subrange(p.0 as int, p.1 as int)).push(cs@.subrange(cur as int, i as int)) =~= seq![Seq::<char>::empty()]);
    while i < hi
        invariant
            lo <= cur <= i <= hi <= cs@.len(),
            forall|k: int| 0 <= k < r@.len() ==> lo <= (#[trigger] r@[k]).0 <= r@[k].1 <= hi,
            r@.map_values(|p: (usize, usize)| cs@.subrange(p.0 as int, p.1 as int)).push(cs@.subrange(cur as int, i as int))
                == split_on(cs@.subrange(lo as int, i as int), c),
        decreases hi - i,
    {
        let ghost before = r@.map_values(|p: (usize, usize)| cs@.subrange(p.0 as int, p.1 as int));
        let ghost sub = cs@.subrange(lo as int, i + 1);
        assert(sub.drop_last() =~= cs@.subrange(lo as int, i as int));
        assert(sub.last() == cs@[i as int]);
        if cs[i] == c {
            r.push((cur, i));
            assert(r@.map_values(|p: (usize, usize)| cs@.subrange(p.0 as int, p.1 as int)) =~= before.push(cs@.subrange(cur as int, i as int)));
            cur = i + 1;
            assert(cs@.subrange(cur as int, i + 1) =~= Seq::<char>::empty());
        } else {
            assert(cs@.subrange(cur as int, i + 1) =~= cs@.subrange(cur as int, i as int).push(cs@[i as int]));
            assert(before.push(cs@.subrange(cur as int, i + 1)) =~= before.push(cs@.subrange(cur as int, i as int)).update(before.len() as int, cs@.subrange(cur as int, i as int).push(cs@[i as int])));
        }
        i = i + 1;
    }
    let ghost before = r@.map_values(|p: (usize, usize)| cs@.subrange(p.0 as int, p.1 as int));
    r.push((cur, hi));
    assert(r@.map_values(|p: (usize, usize)| cs@.subrange(p.0 as int, p.1 as int)) =~= before.push(cs@.subrange(cur as int, hi as int)));
    r
}

/// The characters of `s`, one by one.
pub fn chars_of(s: &str) -> (v: Vec<char>)
    ensures
        v@ == s@,
{
    let mut v: Vec<char> = Vec::new();
    for c in it: s.chars()
        invariant
            v@ == it.seq().take(it.index() as int),
            it.seq() == s@,
    {
        v.push(c);
    }
    v
}


/// Whether every character of `s` is white space.
pub open spec fn all_ws(s: Seq<char>) -> bool {
    forall|i: int| 0 <= i < s.len() ==> is_ws(#[trigger] s[i])
}

/// Cutting at an occurrence of `c` splits the pieces there: the pieces of `a`, then those of `b`.
pub proof fn lemma_split_concat(a: Seq<char>, b: Seq<char>, c: char)
    ensures
        split_on(a + seq![c] + b, c) == split_on(a, c) + split_on(b, c),
    decreases b.len(),
{
    let s = a + seq![c] + b;
    if b.len() == 0 {
        assert(s.drop_last() =~= a);
        assert(s.last() == c);
        assert(split_on(b, c) == seq![Seq::<char>::empty()]);
        assert(split_on(s, c) =~= split_on(a, c) + split_on(b, c));
    } else {
        assert(s.drop_last() =~= a + seq![c] + b.drop_last());
        assert(s.last() == b.last());
        lemma_split_concat(a, b.drop_last(), c);
        lemma_split_nonempty(b.drop_last(), c);
        let pa = split_on(a, c);
        let pb = split_on(b.drop_last(), c);
        if b.last() == c {
            assert(split_on(s, c) =~= pa + pb.push(Seq::empty()));
        } else {
            let q = pa + pb;
            assert(q.last() == pb.last());
            assert(q.update(q.len() - 1, q.last().push(b.last())) =~= pa + pb.update(pb.len() - 1, pb.last().push(b.last())));
        }
    }
}

/// Text without `c` is a single piece.
pub proof fn lemma_split_none(s: Seq<char>, c: char)
    requires
        !s.contains(c),
    ensures
        split_on(s, c) == seq![s],
    decreases s.len(),
{
    if s.len() > 0 {
        assert(!s.drop_last().contains(c)) by {
            if s.drop_last().contains(c) {
                let i = choose|i: int| 0 <= i < s.drop_last().len() && s.drop_last()[i] == c;
                assert(s[i] == c);
            }
        }
        lemma_split_none(s.drop_last(), c);
        assert(s.last() != c) by {
            assert(s[s.len() - 1] == s.last());
        }
        assert(s.drop_last().push(s.last()) =~= s);
        assert(split_on(s, c) =~= seq![s]);
    } else {
        assert(s =~= Seq::<char>::empty());
    }
}

/// White space in front is dropped by `trim_start`.
pub proof fn lemma_trim_start_ws(w: Seq<char>, x: Seq<char>)
    requires
        all_ws(w),
    ensures
        trim_start(w + x) == trim_start(x),
    decreases w.len(),
{
    if w.len() > 0 {
        assert((w + x)[0] == w[0]);
        assert((w + x).drop_first() =~= w.drop_first() + x);
        assert(all_ws(w.drop_first())) by {
            assert forall|i: int| 0 <= i < w.drop_first().len() implies is_ws(#[trigger] w.drop_first()[i]) by {
                assert(w.drop_first()[i] == w[i + 1]);
            }
        }
        lemma_trim_start_ws(w.drop_first(), x);
    } else {
        assert(w + x =~= x);
    }
}

/// White space at the end is dropped by `trim_end`.
pub proof fn lemma_trim_end_ws(x: Seq<char>, w: Seq<char>)
    requires
        all_ws(w),
    ensures
        trim_end(x + w) == trim_end(x),
    decreases w.len(),
{
    if w.len() > 0 {
        assert((x + w).last() == w.last());
        assert(is_ws(w[w.len() - 1]));
        assert((x + w).drop_last() =~= x + w.drop_last());
        assert(all_ws(w.drop_last())) by {
            assert forall|i: int| 0 <= i < w.drop_last().len() implies is_ws(#[trigger] w.drop_last()[i]) by {
                assert(w.drop_last()[i] == w[i]);
            }
        }
        lemma_trim_end_ws(x, w.drop_last());
    } else {
        assert(x + w =~= x);
    }
}

/// `trim_start` stops at the first character that is not white space.
pub proof fn lemma_trim_start_keeps(a: Seq<char>, y: Seq<char>)
    requires
        y.len() > 0,
        !is_ws(y[0]),
    ensures
        trim_start(a + y) == trim_start(a) + y,
    decreases a.len(),
{
    if a.len() == 0 {
        assert(a + y =~= y);
        assert(trim_start(a) =~= a);
        assert(trim_start(a) + y =~= y);
    } else if is_ws(a[0]) {
        assert((a + y)[0] == a[0]);
        assert((a + y).drop_first() =~= a.drop_first() + y);
        lemma_trim_start_keeps(a.drop_first(), y);
    } else {
        assert((a + y)[0] == a[0]);
    }
}

/// `trim_end` stops at the last character that is not white space.
pub proof fn lemma_trim_end_keeps(x: Seq<char>, b: Seq<char>)
    requires
        x.len() > 0,
        !is_ws(x.last()),
    ensures
        trim_end(x + b) == x + trim_end(b),
    decreases b.len(),
{
    if b.len() == 0 {
        assert(x + b =~= x);
        assert(x + trim_end(b) =~= x);
        assert(x[x.len() - 1] == x.last());
    } else if is_ws(b.last()) {
        assert((x + b).last() == b.last());
        assert((x + b).drop_last() =~= x + b.drop_last());
        lemma_trim_end_keeps(x, b.drop_last());
    } else {
        assert((x + b).last() == b.last());
    }
}

/// `trim_start` and `trim_end` never lengthen, and shorten text that starts (ends) with
/// white space.
proof fn lemma_trim_lengths(x: Seq<char>)
    ensures
        trim_start(x).len() <= x.len(),
        x.len() > 0 && is_ws(x[0]) ==> trim_start(x).len() < x.len(),
        trim_end(x).len() <= x.len(),
        x.len() > 0 && is_ws(x.last()) ==> trim_end(x).len() < x.len(),
    decreases x.len(),
{
    if x.len() > 0 {
        lemma_trim_lengths(x.drop_first());
        lemma_trim_lengths(x.drop_last());
    }
}

/// Trimmed text that is not empty starts and ends with a character that is not white space.
pub proof fn lemma_trimmed_ends(x: Seq<char>)
    requires
        trim(x) == x,
        x.len() > 0,
    ensures
        !is_ws(x[0]),
        !is_ws(x.last()),
{
    lemma_trim_lengths(x);
    lemma_trim_lengths(trim_start(x));
    if is_ws(x.last()) {
        if trim_start(x) == x {
            assert(trim(x).len() < x.len());
        }
    }
}

/// Trimming text with white space around trimmed text gives that text.
pub proof fn lemma_trim_padded(u: Seq<char>, x: Seq<char>, v: Seq<char>)
    requires
        all_ws(u),
        all_ws(v),
        trim(x) == x,
    ensures
        trim(u + x + v) == x,
{
    assert(u + x + v =~= u + (x + v));
    lemma_trim_start_ws(u, x + v);
    if x.len() == 0 {
        assert(x + v =~= v);
        assert(v + Seq::<char>::empty() =~= v);
        lemma_trim_start_ws(v, Seq::<char>::empty());
        assert(trim_start(Seq::<char>::empty()) =~= Seq::<char>::empty());
        assert(trim_end(Seq::<char>::empty()) =~= Seq::<char>::empty());
    } else {
        lemma_trimmed_ends(x);
        assert((x + v)[0] == x[0]);
        assert(trim_start(x + v) == x + v);
        lemma_trim_end_ws(x, v);
        assert(x[x.len() - 1] == x.last());
        assert(trim_end(x) == x);
    }
}


/// Text without white space is its own trim.
pub proof fn lemma_trim_no_ws(x: Seq<char>)
    requires
        forall|i: int| 0 <= i < x.len() ==> !is_ws(#[trigger] x[i]),
    ensures
        trim(x) == x,
{
    if x.len() > 0 {
        assert(!is_ws(x[0]));
        assert(trim_start(x) == x);
        assert(!is_ws(x[x.len() - 1]));
        assert(trim_end(x) == x);
    } else {
        assert(trim_start(x) == x);
        assert(trim_end(x) == x);
    }
}

/// Two texts without `c`, one after the other, have no `c`.
pub proof fn lemma_concat_free(a: Seq<char>, b: Seq<char>, c: char)
    requires
        !a.contains(c),
        !b.contains(c),
    ensures
        !(a + b).contains(c),
{
    if (a + b).contains(c) {
        let i = choose|i: int| 0 <= i < (a + b).len() && (a + b)[i] == c;
        if i < a.len() {
            assert(a[i] == c);
        } else {
            assert(b[i - a.len()] == c);
        }
    }
}


/// `trim_start` stops within text that has a character that is not white space.
pub proof fn lemma_trim_start_within(y: Seq<char>, z: Seq<char>, i: int)
    requires
        0 <= i < y.len(),
        !is_ws(y[i]),
    ensures
        trim_start(y + z) == trim_start(y) + z,
    decreases y.len(),
{
    assert((y + z)[0] == y[0]);
    if is_ws(y[0]) {
        assert((y + z).drop_first() =~= y.drop_first() + z);
        assert(y.drop_first()[i - 1] == y[i]);
        lemma_trim_start_within(y.drop_first(), z, i - 1);
    }
}

/// Trimming ignores white space at the end: dropping a last character that is white space
/// leaves the trim as it was.
pub proof fn lemma_trim_drop_ws_last(x: Seq<char>)
    requires
        x.len() > 0,
        is_ws(x.last()),
    ensures
        trim(x.drop_last()) == trim(x),
{
    let y = x.drop_last();
    let c = seq![x.last()];
    assert(x =~= y + c);
    assert(all_ws(c)) by {
        assert(c[0] == x.last());
    }
    if exists|i: int| 0 <= i < y.len() && !is_ws(#[trigger] y[i]) {
        let i = choose|i: int| 0 <= i < y.len() && !is_ws(#[trigger] y[i]);
        lemma_trim_start_within(y, c, i);
        lemma_trim_end_ws(trim_start(y), c);
    } else {
        assert(all_ws(x)) by {
            assert forall|k: int| 0 <= k < x.len() implies is_ws(#[trigger] x[k]) by {
                if k < y.len() {
                    assert(x[k] == y[k]);
                }
            }
        }
        assert(all_ws(y));
        assert(x + Seq::<char>::empty() =~= x);
        assert(y + Seq::<char>::empty() =~= y);
        lemma_trim_start_ws(x, Seq::<char>::empty());
        lemma_trim_start_ws(y, Seq::<char>::empty());
        assert(trim_start(Seq::<char>::empty()) =~= Seq::<char>::empty());
    }
}

} // verus!
