//! What is kept of text written in an editor: every line but the comment lines.
use vstd::prelude::*;
use crate::text::{chars_of, push_char, split_on, trim, split_ranges, trim_range};
use vstd::string::StringExecFns;

verus! {

/// `s` without one '\r' at its end, if it has one.
pub open spec fn strip_cr(s: Seq<char>) -> Seq<char> {
    if s.len() > 0 && s.last() == '\r' { s.drop_last() } else { s }
}

/// The lines of `s` (what `str::lines` gives): the pieces between newlines, each without the
/// '\r' of a "\r\n" line ending; a final newline ends the last line and starts none.
pub open spec fn lines_of(s: Seq<char>) -> Seq<Seq<char>> {
    let p = split_on(s, '\n');
    let n = p.len();
    let ended = Seq::new((n - 1) as nat, |k: int| strip_cr(p[k]));
    if p[n - 1].len() == 0 { ended } else { ended.push(p[n - 1]) }
}

/// Whether `s` starts with `prefix`.
pub open spec fn starts_with(s: Seq<char>, prefix: Seq<char>) -> bool {
    prefix.len() <= s.len() && s.take(prefix.len() as int) == prefix
}

/// The lines of `ls` that, trimmed, do not start with `prefix`.
pub open spec fn uncommented(ls: Seq<Seq<char>>, prefix: Seq<char>) -> Seq<Seq<char>>
    decreases ls.len(),
{
    if ls.len() == 0 {
        Seq::empty()
    } else {
        let r = uncommented(ls.drop_last(), prefix);
        if starts_with(trim(ls.last()), prefix) { r } else { r.push(ls.last()) }
    }
}

/// `parts` one after another, with a newline between each two.
pub open spec fn join_lines(parts: Seq<Seq<char>>) -> Seq<char>
    decreases parts.len(),
{
    if parts.len() == 0 {
        Seq::empty()
    } else if parts.len() == 1 {
        parts[0]
    } else {
        join_lines(parts.drop_last()) + seq!['\n'] + parts.last()
    }
}

/// Whether `cs[lo..hi]` starts with the characters `p`.
fn range_starts_with(cs: &Vec<char>, lo: usize, hi: usize, p: &Vec<char>) -> (r: bool)
    requires
        lo <= hi <= cs@.len(),
    ensures
        r == starts_with(cs@.subrange(lo as int, hi as int), p@),
{
    if p.len() > hi - lo {
        return false;
    }
    let mut i: usize = 0;
    while i < p.len()
        invariant
            p@.len() <= hi - lo,
            lo <= hi <= cs@.len(),
            i <= p@.len(),
            forall|j: int| 0 <= j < i ==> cs@[lo + j] == p@[j],
        decreases p.len() - i,
    {
        if cs[lo + i] != p[i] {
            assert(cs@.subrange(lo as int, hi as int).take(p@.len() as int)[i as int] != p@[i as int]);
            return false;
        }
        i = i + 1;
    }
    assert(cs@.subrange(lo as int, hi as int).take(p@.len() as int) =~= p@);
    true
}

/// The text written in an editor without its comment lines: the lines whose trimmed text
/// starts with `comment_prefix` are dropped, the others are kept as they are and joined with
/// newlines.
pub fn remove_comment_lines(content: &str, comment_prefix: &str) -> (r: String)
    ensures
        r@ == join_lines(uncommented(lines_of(content@), comment_prefix@)),
{
    let cs = chars_of(content);
    let prefix = chars_of(comment_prefix);
    let pieces = split_ranges(&cs, 0, cs.len(), '\n');
    assert(cs@.subrange(0, cs@.len() as int) =~= cs@);
    let ghost ps = pieces@.map_values(|p: (usize, usize)| cs@.subrange(p.0 as int, p.1 as int));
    let ghost ls = lines_of(content@);
    let n = pieces.len();
    proof {
        crate::text::lemma_split_nonempty(content@, '\n');
    }
    let last_empty = pieces[n - 1].0 == pieces[n - 1].1;
    let count = if last_empty { n - 1 } else { n };
    assert(ls.len() == count);
    let mut out = String::new();
    let mut kept_any: bool = false;
    let mut k: usize = 0;
    while k < count
        invariant
            k <= count <= n,
            n == pieces@.len(),
            n >= 1,
            ps == pieces@.map_values(|p: (usize, usize)| cs@.subrange(p.0 as int, p.1 as int)),
            ps == split_on(content@, '\n'),
            ls == lines_of(content@),
            ls.len() == count,
            count == n || count == n - 1,
            forall|j: int| 0 <= j < n ==> 0 <= (#[trigger] pieces@[j]).0 <= pieces@[j].1 <= cs@.len(),
            kept_any == (uncommented(ls.take(k as int), prefix@).len() > 0),
            out@ == join_lines(uncommented(ls.take(k as int), prefix@)),
            prefix@ == comment_prefix@,
        decreases count - k,
    {
        let (lo, hi0) = pieces[k];
        let hi = if k + 1 < n && hi0 > lo && cs[hi0 - 1] == '\r' { hi0 - 1 } else { hi0 };
        proof {
            if k + 1 < n {
                assert(ls[k as int] == strip_cr(ps[k as int]));
                if hi0 > lo {
                    assert(ps[k as int].last() == cs@[hi0 - 1]);
                    assert(ps[k as int].drop_last() =~= cs@.subrange(lo as int, hi0 - 1));
                }
            } else {
                assert(ls[k as int] == ps[k as int]);
            }
            assert(ls[k as int] == cs@.subrange(lo as int, hi as int));
        }
        let (a, b) = trim_range(&cs, lo, hi);
        let comment = range_starts_with(&cs, a, b, &prefix);
        let ghost u0 = uncommented(ls.take(k as int), prefix@);
        assert(ls.take(k + 1).drop_last() =~= ls.take(k as int));
        assert(ls.take(k + 1).last() == ls[k as int]);
        if !comment {
            let line = crate::text::string_of(&cs, lo, hi);
            if kept_any {
                push_char(&mut out, '\n');
            }
            out.append(line.as_str());
            kept_any = true;
            proof {
                let u1 = u0.push(ls[k as int]);
                assert(u1.drop_last() =~= u0);
                if u0.len() == 0 {
                    assert(out@ =~= join_lines(u1));
                } else {
                    assert(out@ =~= join_lines(u1));
                }
            }
        }
        k = k + 1;
    }
    assert(ls.take(count as int) =~= ls);
    out
}

} // verus!
