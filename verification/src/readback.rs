//! Reading the bills table back: what is written as a table is read back as the same bills.
use vstd::prelude::*;
use crate::amount::{amount_text, amount_of, decimal, digit_char, is_digit, lemma_decimal, lemma_digit_char, lemma_amount_roundtrip};
use crate::bill::{BillView, ordered_bills};
use crate::edit::{strip_cr, lines_of, starts_with, uncommented, join_lines};
use crate::display::{line_text, rows_text, cell_text, spaces, padded_width, display_width_of, column_widths};
use crate::sheet::{inserted, join, insert_desc, sort_desc, bills_header, bill_row, bills_text, nonempty, trimmed, split_names, parse_line, parse_lines, parsed_bills};
use crate::text::{is_ws, trim, trim_start, trim_end, split_on, all_ws, lemma_split_concat, lemma_split_none, lemma_trim_start_ws,
    lemma_trim_end_ws, lemma_trim_start_keeps, lemma_trim_end_keeps, lemma_trimmed_ends, lemma_trim_padded, lemma_trim_no_ws, lemma_concat_free, lemma_trim_drop_ws_last};

verus! {

/// Whether a cell reads back from the table as itself: no white space at either end, and no
/// '|' or newline in it.
pub open spec fn plain_cell(s: Seq<char>) -> bool {
    trim(s) == s && !s.contains('|') && !s.contains('\n')
}

/// Whether a bill reads back from the bills table as itself: its payer and reason are plain
/// cells, the payer does not start with '#', each person it is split between has a name that
/// is a plain cell, not empty and without ',', and the amount fits in an `i64`.
pub open spec fn readable(b: BillView) -> bool {
    &&& plain_cell(b.payer)
    &&& (b.payer.len() == 0 || b.payer[0] != '#')
    &&& plain_cell(b.reason)
    &&& i64::MIN <= b.paid <= i64::MAX
    &&& forall|i: int| 0 <= i < b.split.len() ==> plain_cell(#[trigger] b.split[i]) && b.split[i].len() > 0 && !b.split[i].contains(',')
}

/// The separator between names in the Split column.
spec fn name_sep() -> Seq<char> {
    seq![',', ' ']
}

/// Spaces are white space, and hold no '|', newline or ','.
proof fn lemma_spaces(k: int)
    ensures
        all_ws(spaces(k)),
        !spaces(k).contains('|'),
        !spaces(k).contains('\n'),
        !spaces(k).contains(','),
{
    assert(is_ws(' '));
    assert forall|i: int| 0 <= i < spaces(k).len() implies is_ws(#[trigger] spaces(k)[i]) by {
        assert(spaces(k)[i] == ' ');
    }
}

/// Each character of a written amount is a digit, '-' or '.'; none is white space, '|' or a
/// newline.
proof fn lemma_amount_plain(c: int)
    ensures
        forall|i: int| 0 <= i < amount_text(c).len() ==> {
            let ch = #[trigger] amount_text(c)[i];
            !is_ws(ch) && ch != '|' && ch != '\n'
        },
{
    let m = if c < 0 { -c } else { c };
    let whole = m / 100;
    let frac = m % 100;
    let sign: Seq<char> = if c < 0 { seq!['-'] } else { Seq::empty() };
    let digits = decimal(whole as nat);
    let tail: Seq<char> = if frac == 0 {
        Seq::empty()
    } else if frac % 10 == 0 {
        seq!['.', digit_char(frac / 10)]
    } else {
        seq!['.', digit_char(frac / 10), digit_char(frac % 10)]
    };
    lemma_decimal(whole as nat);
    lemma_digit_char(frac / 10);
    lemma_digit_char(frac % 10);
    let t = amount_text(c);
    assert(t == sign + digits + tail);
    assert forall|i: int| 0 <= i < t.len() implies {
        let ch = #[trigger] t[i];
        !is_ws(ch) && ch != '|' && ch != '\n'
    } by {
        let ch = t[i];
        if i < sign.len() {
            assert(ch == '-');
        } else if i < sign.len() + digits.len() {
            assert(ch == digits[i - sign.len()]);
            assert(is_digit(ch));
        } else {
            let j = i - sign.len() - digits.len();
            assert(ch == tail[j]);
            if j == 0 {
                assert(ch == '.');
            } else if j == 1 {
                assert(is_digit(ch));
            } else {
                assert(is_digit(ch));
            }
        }
    }
}

/// A line holds no `c` (other than a space) that none of its cells holds.
proof fn lemma_line_free(cells: Seq<Seq<char>>, widths: Seq<int>, padding: int, c: char)
    requires
        c != ' ',
        forall|i: int| 0 <= i < cells.len() ==> !(#[trigger] cells[i]).contains(c),
    ensures
        !line_text(cells, widths, padding).contains(c),
    decreases cells.len(),
{
    if cells.len() > 0 {
        let rest = cells.drop_last();
        assert forall|i: int| 0 <= i < rest.len() implies !(#[trigger] rest[i]).contains(c) by {
            assert(rest[i] == cells[i]);
        }
        lemma_line_free(rest, widths, padding, c);
        let k = padded_width(widths[cells.len() - 1], padding) - display_width_of(cells.last());
        assert(!spaces(k).contains(c)) by {
            if spaces(k).contains(c) {
                let i = choose|i: int| 0 <= i < spaces(k).len() && spaces(k)[i] == c;
                assert(spaces(k)[i] == ' ');
            }
        }
        assert(!cells.last().contains(c)) by {
            assert(cells[cells.len() - 1] == cells.last());
        }
        lemma_concat_free(cells.last(), spaces(k), c);
        lemma_concat_free(line_text(rest, widths, padding), cell_text(cells.last(), widths[cells.len() - 1], padding), c);
    }
}

/// A line starts with the first character of its first cell.
proof fn lemma_line_first(cells: Seq<Seq<char>>, widths: Seq<int>, padding: int)
    requires
        cells.len() > 0,
        cells[0].len() > 0,
    ensures
        line_text(cells, widths, padding).len() > 0,
        line_text(cells, widths, padding)[0] == cells[0][0],
    decreases cells.len(),
{
    let rest = cells.drop_last();
    let ct = cell_text(cells.last(), widths[cells.len() - 1], padding);
    if cells.len() == 1 {
        assert(line_text(rest, widths, padding) =~= Seq::<char>::empty());
        assert(cells.last() == cells[0]);
        assert(line_text(cells, widths, padding) =~= ct);
    } else {
        assert(rest[0] == cells[0]);
        lemma_line_first(rest, widths, padding);
    }
}

/// A line of the first `k + 1` cells is the line of the first `k` followed by cell `k`.
proof fn lemma_line_step(cells: Seq<Seq<char>>, widths: Seq<int>, padding: int, k: int)
    requires
        0 <= k < cells.len(),
    ensures
        line_text(cells.take(k + 1), widths, padding) == line_text(cells.take(k), widths, padding) + cell_text(cells[k], widths[k], padding),
{
    assert(cells.take(k + 1).drop_last() =~= cells.take(k));
    assert(cells.take(k + 1).last() == cells[k]);
}

/// Names joined with ", " start with the first name's first character and end with the last
/// name's last character.
proof fn lemma_join_ends(names: Seq<Seq<char>>)
    requires
        names.len() > 0,
        forall|i: int| 0 <= i < names.len() ==> (#[trigger] names[i]).len() > 0,
    ensures
        join(names, name_sep()).len() > 0,
        join(names, name_sep())[0] == names[0][0],
        join(names, name_sep()).last() == names.last().last(),
    decreases names.len(),
{
    if names.len() == 1 {
        assert(names.last() == names[0]);
    } else {
        let rest = names.drop_last();
        assert(rest[0] == names[0]);
        assert forall|i: int| 0 <= i < rest.len() implies (#[trigger] rest[i]).len() > 0 by {
            assert(rest[i] == names[i]);
        }
        lemma_join_ends(rest);
        assert(names[names.len() - 1] == names.last());
    }
}

/// Names joined with ", " hold no `c` (other than ',' and ' ') that no name holds.
proof fn lemma_join_free(names: Seq<Seq<char>>, c: char)
    requires
        c != ',',
        c != ' ',
        forall|i: int| 0 <= i < names.len() ==> !(#[trigger] names[i]).contains(c),
    ensures
        !join(names, name_sep()).contains(c),
    decreases names.len(),
{
    if names.len() == 1 {
        assert(!names[0].contains(c));
    } else if names.len() > 1 {
        let rest = names.drop_last();
        assert forall|i: int| 0 <= i < rest.len() implies !(#[trigger] rest[i]).contains(c) by {
            assert(rest[i] == names[i]);
        }
        lemma_join_free(rest, c);
        assert(!name_sep().contains(c)) by {
            if name_sep().contains(c) {
                let i = choose|i: int| 0 <= i < name_sep().len() && name_sep()[i] == c;
                assert(i == 0 || i == 1);
            }
        }
        assert(!names.last().contains(c)) by {
            assert(names[names.len() - 1] == names.last());
        }
        lemma_concat_free(join(rest, name_sep()), name_sep(), c);
        lemma_concat_free(join(rest, name_sep()) + name_sep(), names.last(), c);
    } else {
        assert(join(names, name_sep()) =~= Seq::<char>::empty());
    }
}

/// Cutting names joined with ", " at ',' gives the first name, then each other name after a
/// space.
proof fn lemma_join_split(names: Seq<Seq<char>>)
    requires
        names.len() > 0,
        forall|i: int| 0 <= i < names.len() ==> !(#[trigger] names[i]).contains(','),
    ensures
        split_on(join(names, name_sep()), ',') == Seq::new(names.len(), |i: int| if i == 0 { names[0] } else { seq![' '] + names[i] }),
    decreases names.len(),
{
    if names.len() == 1 {
        lemma_split_none(names[0], ',');
        assert(split_on(join(names, name_sep()), ',') =~= Seq::new(names.len(), |i: int| if i == 0 { names[0] } else { seq![' '] + names[i] }));
    } else {
        let rest = names.drop_last();
        let last = names.last();
        assert forall|i: int| 0 <= i < rest.len() implies !(#[trigger] rest[i]).contains(',') by {
            assert(rest[i] == names[i]);
        }
        lemma_join_split(rest);
        assert(join(names, name_sep()) =~= join(rest, name_sep()) + seq![','] + (seq![' '] + last));
        lemma_split_concat(join(rest, name_sep()), seq![' '] + last, ',');
        assert(!last.contains(',')) by {
            assert(names[names.len() - 1] == last);
        }
        assert(!seq![' '].contains(',')) by {
            if seq![' '].contains(',') {
                let i = choose|i: int| 0 <= i < 1 && seq![' '][i] == ',';
            }
        }
        lemma_concat_free(seq![' '], last, ',');
        lemma_split_none(seq![' '] + last, ',');
        assert(split_on(join(names, name_sep()), ',') =~= Seq::new(names.len(), |i: int| if i == 0 { names[0] } else { seq![' '] + names[i] }));
    }
}

/// Pieces that are all non-empty are kept by `nonempty`.
proof fn lemma_nonempty_all(ps: Seq<Seq<char>>)
    requires
        forall|i: int| 0 <= i < ps.len() ==> (#[trigger] ps[i]).len() > 0,
    ensures
        nonempty(ps) == ps,
    decreases ps.len(),
{
    if ps.len() > 0 {
        let rest = ps.drop_last();
        assert forall|i: int| 0 <= i < rest.len() implies (#[trigger] rest[i]).len() > 0 by {
            assert(rest[i] == ps[i]);
        }
        lemma_nonempty_all(rest);
        assert(ps[ps.len() - 1] == ps.last());
        assert(rest.push(ps.last()) =~= ps);
    } else {
        assert(ps =~= Seq::<Seq<char>>::empty());
    }
}

/// The empty text is its own trim.
proof fn lemma_trim_empty()
    ensures
        trim(Seq::<char>::empty()) == Seq::<char>::empty(),
{
    assert(trim_start(Seq::<char>::empty()) == Seq::<char>::empty());
    assert(trim_end(Seq::<char>::empty()) == Seq::<char>::empty());
}

/// The names in a cell written by joining plain names with ", " are those names, and the cell
/// is a plain cell.
proof fn lemma_join_reads_back(names: Seq<Seq<char>>)
    requires
        forall|i: int| 0 <= i < names.len() ==> plain_cell(#[trigger] names[i]) && names[i].len() > 0 && !names[i].contains(','),
    ensures
        split_names(join(names, name_sep())) == names,
        plain_cell(join(names, name_sep())),
{
    let j = join(names, name_sep());
    lemma_trim_empty();
    assert forall|i: int| 0 <= i < names.len() implies !(#[trigger] names[i]).contains('|') && !names[i].contains('\n') by {
        assert(plain_cell(names[i]));
    }
    lemma_join_free(names, '|');
    lemma_join_free(names, '\n');
    if names.len() == 0 {
        assert(j =~= Seq::<char>::empty());
        assert(split_on(j, ',') == seq![Seq::<char>::empty()]);
        let t = trimmed(split_on(j, ','));
        assert(t =~= seq![Seq::<char>::empty()]);
        assert(t.drop_last() =~= Seq::<Seq<char>>::empty());
        assert(t.last() =~= Seq::<char>::empty());
        assert(nonempty(t.drop_last()) =~= Seq::<Seq<char>>::empty());
        assert(names =~= Seq::<Seq<char>>::empty());
        assert(nonempty(t) =~= names);
    } else {
        assert forall|i: int| 0 <= i < names.len() implies !(#[trigger] names[i]).contains(',') by {
            assert(plain_cell(names[i]) && names[i].len() > 0 && !names[i].contains(','));
        }
        lemma_join_split(names);
        let pieces = split_on(j, ',');
        assert forall|i: int| 0 <= i < names.len() implies trim(#[trigger] pieces[i]) == names[i] by {
            assert(plain_cell(names[i]));
            if i > 0 {
                assert(pieces[i] == seq![' '] + names[i]);
                assert(all_ws(seq![' '])) by {
                    assert(is_ws(' '));
                }
                assert(all_ws(Seq::<char>::empty()));
                assert(seq![' '] + names[i] + Seq::<char>::empty() =~= seq![' '] + names[i]);
                lemma_trim_padded(seq![' '], names[i], Seq::<char>::empty());
            }
        }
        assert(trimmed(pieces) =~= names);
        assert forall|i: int| 0 <= i < names.len() implies (#[trigger] names[i]).len() > 0 by {
            assert(plain_cell(names[i]) && names[i].len() > 0);
        }
        lemma_nonempty_all(names);
        lemma_join_ends(names);
        lemma_trimmed_ends(names[0]);
        assert(plain_cell(names[names.len() - 1]));
        assert(names[names.len() - 1] == names.last());
        lemma_trimmed_ends(names.last());
        assert(trim_start(j) == j);
        assert(j[j.len() - 1] == j.last());
        assert(trim_end(j) == j);
    }
}

/// The first cell of a line, with white space around it, once white space is taken off its
/// start: no '|' in it, and trimmed it is the cell.
proof fn lemma_first_cell(u: Seq<char>, x: Seq<char>, v: Seq<char>)
    requires
        all_ws(u),
        all_ws(v),
        !v.contains('|'),
        trim(x) == x,
        !x.contains('|'),
    ensures
        !trim_start(u + x + v).contains('|'),
        trim(trim_start(u + x + v)) == x,
        x.len() > 0 ==> trim_start(u + x + v).len() > 0 && trim_start(u + x + v)[0] == x[0],
        x.len() == 0 ==> trim_start(u + x + v).len() == 0,
{
    lemma_trim_empty();
    assert(all_ws(Seq::<char>::empty()));
    assert(u + x + v =~= u + (x + v));
    lemma_trim_start_ws(u, x + v);
    if x.len() > 0 {
        lemma_trimmed_ends(x);
        assert((x + v)[0] == x[0]);
        assert(trim_start(x + v) == x + v);
        assert(Seq::<char>::empty() + x + v =~= x + v);
        lemma_trim_padded(Seq::<char>::empty(), x, v);
        lemma_concat_free(x, v, '|');
    } else {
        assert(x + v =~= v + Seq::<char>::empty());
        lemma_trim_start_ws(v, Seq::<char>::empty());
    }
}

/// The last cell of a line, with white space around it, once white space is taken off its
/// end: no '|' in it, and trimmed it is the cell.
proof fn lemma_last_cell(u: Seq<char>, x: Seq<char>, v: Seq<char>)
    requires
        all_ws(u),
        all_ws(v),
        !u.contains('|'),
        trim(x) == x,
        !x.contains('|'),
    ensures
        !trim_end(u + x + v).contains('|'),
        trim(trim_end(u + x + v)) == x,
{
    lemma_trim_empty();
    assert(all_ws(Seq::<char>::empty()));
    lemma_trim_end_ws(u + x, v);
    if x.len() > 0 {
        lemma_trimmed_ends(x);
        assert((u + x).last() == x.last());
        assert(x[x.len() - 1] == x.last());
        assert(trim_end(u + x) == u + x);
        assert(u + x + Seq::<char>::empty() =~= u + x);
        lemma_trim_padded(u, x, Seq::<char>::empty());
        lemma_concat_free(u, x, '|');
    } else {
        assert(u + x =~= Seq::<char>::empty() + u);
        lemma_trim_end_ws(Seq::<char>::empty(), u);
    }
}

/// A middle cell with white space around it: no '|' in it, and trimmed it is the cell.
proof fn lemma_middle_cell(u: Seq<char>, x: Seq<char>, v: Seq<char>)
    requires
        all_ws(u),
        all_ws(v),
        !u.contains('|'),
        !v.contains('|'),
        trim(x) == x,
        !x.contains('|'),
    ensures
        !(u + x + v).contains('|'),
        trim(u + x + v) == x,
        split_on(u + x + v, '|') == seq![u + x + v],
{
    lemma_trim_padded(u, x, v);
    lemma_concat_free(u, x, '|');
    lemma_concat_free(u + x, v, '|');
    lemma_split_none(u + x + v, '|');
}

/// A line of four cells with white space around each and '|' between them: trimmed and cut at
/// '|', then each piece trimmed, it gives back the cells; trimmed, it starts with the first
/// cell's first character, or with '|' where the first cell is empty.
proof fn lemma_four_cells(
    u0: Seq<char>, x0: Seq<char>, v0: Seq<char>,
    u1: Seq<char>, x1: Seq<char>, v1: Seq<char>,
    u2: Seq<char>, x2: Seq<char>, v2: Seq<char>,
    u3: Seq<char>, x3: Seq<char>, v3: Seq<char>,
)
    requires
        all_ws(u0) && all_ws(v0) && all_ws(u1) && all_ws(v1),
        all_ws(u2) && all_ws(v2) && all_ws(u3) && all_ws(v3),
        !u0.contains('|') && !v0.contains('|') && !u1.contains('|') && !v1.contains('|'),
        !u2.contains('|') && !v2.contains('|') && !u3.contains('|') && !v3.contains('|'),
        trim(x0) == x0 && trim(x1) == x1 && trim(x2) == x2 && trim(x3) == x3,
        !x0.contains('|') && !x1.contains('|') && !x2.contains('|') && !x3.contains('|'),
    ensures
        ({
            let line = (u0 + x0 + v0) + seq!['|'] + (u1 + x1 + v1) + seq!['|'] + (u2 + x2 + v2) + seq!['|'] + (u3 + x3 + v3);
            &&& trimmed(split_on(trim(line), '|')) == seq![x0, x1, x2, x3]
            &&& trim(line).len() > 0
            &&& (x0.len() > 0 ==> trim(line)[0] == x0[0])
            &&& (x0.len() == 0 ==> trim(line)[0] == '|')
        }),
{
    let a = u0 + x0 + v0;
    let bb = u1 + x1 + v1;
    let c = u2 + x2 + v2;
    let d = u3 + x3 + v3;
    let line = a + seq!['|'] + bb + seq!['|'] + c + seq!['|'] + d;
    let z = bb + seq!['|'] + c + seq!['|'] + d;
    assert(line =~= a + (seq!['|'] + z));
    assert(!is_ws('|'));
    lemma_trim_start_keeps(a, seq!['|'] + z);
    let ta = trim_start(a);
    let x = ta + seq!['|'] + bb + seq!['|'] + c + seq!['|'];
    assert(trim_start(line) =~= x + d);
    assert(x.last() == '|');
    lemma_trim_end_keeps(x, d);
    let td = trim_end(d);
    let t = trim(line);
    assert(t == x + td);
    lemma_first_cell(u0, x0, v0);
    lemma_last_cell(u3, x3, v3);
    lemma_middle_cell(u1, x1, v1);
    lemma_middle_cell(u2, x2, v2);
    let rest2 = c + seq!['|'] + td;
    let rest1 = bb + seq!['|'] + rest2;
    assert(t =~= ta + seq!['|'] + rest1);
    lemma_split_concat(ta, rest1, '|');
    lemma_split_concat(bb, rest2, '|');
    lemma_split_concat(c, td, '|');
    lemma_split_none(ta, '|');
    lemma_split_none(td, '|');
    assert(split_on(t, '|') =~= seq![ta, bb, c, td]);
    assert(trimmed(split_on(t, '|')) =~= seq![x0, x1, x2, x3]);
    if x0.len() > 0 {
        assert(t[0] == ta[0]);
    } else {
        assert(t[0] == '|');
    }
}

/// The spaces after cell `i` of a bill's row.
spec fn row_pad(b: BillView, widths: Seq<int>, padding: int, i: int) -> Seq<char> {
    spaces(padded_width(widths[i], padding) - display_width_of(bill_row(b)[i]))
}

/// The line of a bill's row: the payer, the amount, the names and the reason, each with spaces
/// around it, and '|' between them.
#[verifier::spinoff_prover]
#[verifier::rlimit(40)]
proof fn lemma_row_line(b: BillView, widths: Seq<int>, padding: int)
    ensures
        line_text(bill_row(b), widths, padding) == (row_pad(b, widths, padding, 0) + b.payer + row_pad(b, widths, padding, 1)) + seq!['|']
            + (row_pad(b, widths, padding, 2) + amount_text(b.paid) + row_pad(b, widths, padding, 3)) + seq!['|']
            + (row_pad(b, widths, padding, 4) + join(b.split, name_sep()) + row_pad(b, widths, padding, 5)) + seq!['|']
            + (row_pad(b, widths, padding, 6) + b.reason + row_pad(b, widths, padding, 7)),
{
    let cells = bill_row(b);
    assert(name_sep() == seq![',', ' ']);
    lemma_line_step(cells, widths, padding, 0);
    lemma_line_step(cells, widths, padding, 1);
    lemma_line_step(cells, widths, padding, 2);
    lemma_line_step(cells, widths, padding, 3);
    lemma_line_step(cells, widths, padding, 4);
    lemma_line_step(cells, widths, padding, 5);
    lemma_line_step(cells, widths, padding, 6);
    lemma_line_step(cells, widths, padding, 7);
    assert(cells.take(0) =~= Seq::<Seq<char>>::empty());
    assert(cells.take(8) =~= cells);
    assert(cells[0] == Seq::<char>::empty());
    assert(cells[2] == seq!['|'] && cells[4] == seq!['|'] && cells[6] == seq!['|']);
    assert(line_text(cells, widths, padding) =~= (row_pad(b, widths, padding, 0) + b.payer + row_pad(b, widths, padding, 1)) + seq!['|']
        + (row_pad(b, widths, padding, 2) + amount_text(b.paid) + row_pad(b, widths, padding, 3)) + seq!['|']
        + (row_pad(b, widths, padding, 4) + join(b.split, name_sep()) + row_pad(b, widths, padding, 5)) + seq!['|']
        + (row_pad(b, widths, padding, 6) + b.reason + row_pad(b, widths, padding, 7)));
}

/// A line whose trimmed text does not start with '#' and whose four cells are a bill's payer,
/// amount, names and reason reads back as that bill.
proof fn lemma_line_reads_as(line: Seq<char>, b: BillView)
    requires
        trim(line).len() > 0,
        trim(line)[0] != '#',
        trimmed(split_on(trim(line), '|')) == seq![b.payer, amount_text(b.paid), join(b.split, name_sep()), b.reason],
        amount_of(amount_text(b.paid)) == Some(b.paid),
        split_names(join(b.split, name_sep())) == b.split,
    ensures
        parse_line(line) == Some(b),
{
    let parts = trimmed(split_on(trim(line), '|'));
    assert(parts.len() == 4);
    assert(parse_line(line) == Some(BillView { payer: parts[0], reason: parts[3], paid: b.paid, split: split_names(parts[2]) }));
}

/// The line of a bill's row reads back as that bill.
proof fn lemma_row_reads_back(b: BillView, widths: Seq<int>, padding: int)
    requires
        readable(b),
    ensures
        parse_line(line_text(bill_row(b), widths, padding)) == Some(b),
        trim(line_text(bill_row(b), widths, padding)).len() > 0,
        trim(line_text(bill_row(b), widths, padding))[0] != '#',
{
    let amt = amount_text(b.paid);
    lemma_row_line(b, widths, padding);
    lemma_spaces(padded_width(widths[0], padding) - display_width_of(bill_row(b)[0]));
    lemma_spaces(padded_width(widths[1], padding) - display_width_of(bill_row(b)[1]));
    lemma_spaces(padded_width(widths[2], padding) - display_width_of(bill_row(b)[2]));
    lemma_spaces(padded_width(widths[3], padding) - display_width_of(bill_row(b)[3]));
    lemma_spaces(padded_width(widths[4], padding) - display_width_of(bill_row(b)[4]));
    lemma_spaces(padded_width(widths[5], padding) - display_width_of(bill_row(b)[5]));
    lemma_spaces(padded_width(widths[6], padding) - display_width_of(bill_row(b)[6]));
    lemma_spaces(padded_width(widths[7], padding) - display_width_of(bill_row(b)[7]));
    lemma_amount_plain(b.paid);
    lemma_trim_no_ws(amt);
    assert(!amt.contains('|')) by {
        if amt.contains('|') {
            let i = choose|i: int| 0 <= i < amt.len() && amt[i] == '|';
        }
    }
    lemma_join_reads_back(b.split);
    lemma_four_cells(
        row_pad(b, widths, padding, 0), b.payer, row_pad(b, widths, padding, 1),
        row_pad(b, widths, padding, 2), amt, row_pad(b, widths, padding, 3),
        row_pad(b, widths, padding, 4), join(b.split, name_sep()), row_pad(b, widths, padding, 5),
        row_pad(b, widths, padding, 6), b.reason, row_pad(b, widths, padding, 7),
    );
    lemma_amount_roundtrip(b.paid);
    lemma_line_reads_as(line_text(bill_row(b), widths, padding), b);
}

/// The header line reads back as no bill, and holds no newline.
proof fn lemma_header_reads_back(widths: Seq<int>, padding: int)
    ensures
        parse_line(line_text(bills_header(), widths, padding)) is None,
        !line_text(bills_header(), widths, padding).contains('\n'),
        trim(line_text(bills_header(), widths, padding)).len() > 0,
        trim(line_text(bills_header(), widths, padding))[0] == '#',
{
    let h = bills_header();
    let line = line_text(h, widths, padding);
    assert(h[0] == seq!['#']);
    lemma_line_first(h, widths, padding);
    assert(line[0] == '#');
    assert(!is_ws('#'));
    assert(trim_start(line) == line);
    assert(line =~= seq![line[0]] + line.drop_first());
    lemma_trim_end_keeps(seq![line[0]], line.drop_first());
    assert(trim(line)[0] == '#');
    assert forall|i: int| 0 <= i < h.len() implies !(#[trigger] h[i]).contains('\n') by {
        if h[i].contains('\n') {
            let j = choose|j: int| 0 <= j < h[i].len() && h[i][j] == '\n';
        }
    }
    lemma_line_free(h, widths, padding, '\n');
}

/// The rows' lines, each ended by a newline, then `y`, cut at newlines: each row's line, then `y`.
proof fn lemma_rows_split(rows: Seq<Seq<Seq<char>>>, widths: Seq<int>, padding: int, y: Seq<char>)
    requires
        !y.contains('\n'),
        forall|i: int| 0 <= i < rows.len() ==> !line_text(#[trigger] rows[i], widths, padding).contains('\n'),
    ensures
        split_on(rows_text(rows, widths, padding) + y, '\n') == rows.map_values(|r: Seq<Seq<char>>| line_text(r, widths, padding)).push(y),
    decreases rows.len(),
{
    if rows.len() == 0 {
        assert(rows_text(rows, widths, padding) + y =~= y);
        lemma_split_none(y, '\n');
        assert(rows.map_values(|r: Seq<Seq<char>>| line_text(r, widths, padding)).push(y) =~= seq![y]);
    } else {
        let rest = rows.drop_last();
        let last = line_text(rows.last(), widths, padding);
        assert(rows_text(rows, widths, padding) + y =~= (rows_text(rest, widths, padding) + last) + seq!['\n'] + y);
        lemma_split_concat(rows_text(rest, widths, padding) + last, y, '\n');
        lemma_split_none(y, '\n');
        assert forall|i: int| 0 <= i < rest.len() implies !line_text(#[trigger] rest[i], widths, padding).contains('\n') by {
            assert(rest[i] == rows[i]);
        }
        assert(rows[rows.len() - 1] == rows.last());
        lemma_rows_split(rest, widths, padding, last);
        assert(rows.map_values(|r: Seq<Seq<char>>| line_text(r, widths, padding)).push(y)
            =~= rest.map_values(|r: Seq<Seq<char>>| line_text(r, widths, padding)).push(last) + seq![y]);
    }
}

/// The bills that lines describe, one group of lines after another.
proof fn lemma_parse_lines_concat(a: Seq<Seq<char>>, b: Seq<Seq<char>>)
    ensures
        parse_lines(a + b) == parse_lines(a) + parse_lines(b),
    decreases b.len(),
{
    if b.len() == 0 {
        assert(a + b =~= a);
        assert(parse_lines(a) + parse_lines(b) =~= parse_lines(a));
    } else {
        assert((a + b).drop_last() =~= a + b.drop_last());
        assert((a + b).last() == b.last());
        lemma_parse_lines_concat(a, b.drop_last());
        match parse_line(b.last()) {
            Some(x) => {
                assert((parse_lines(a) + parse_lines(b.drop_last())).push(x) =~= parse_lines(a) + parse_lines(b.drop_last()).push(x));
            },
            None => {},
        }
    }
}

/// Lines that each describe a bill describe those bills, in order.
proof fn lemma_parse_each(lines: Seq<Seq<char>>, vs: Seq<BillView>)
    requires
        lines.len() == vs.len(),
        forall|i: int| 0 <= i < lines.len() ==> parse_line(#[trigger] lines[i]) == Some(vs[i]),
    ensures
        parse_lines(lines) == vs,
    decreases lines.len(),
{
    if lines.len() > 0 {
        let rest = lines.drop_last();
        assert forall|i: int| 0 <= i < rest.len() implies parse_line(#[trigger] rest[i]) == Some(vs.drop_last()[i]) by {
            assert(rest[i] == lines[i]);
        }
        lemma_parse_each(rest, vs.drop_last());
        assert(lines[lines.len() - 1] == lines.last());
        assert(vs.drop_last().push(vs[vs.len() - 1]) =~= vs);
    } else {
        assert(vs =~= Seq::<BillView>::empty());
    }
}

/// Placing a bill by amount adds it to the bills.
proof fn lemma_insert_desc_multiset(s: Seq<BillView>, b: BillView)
    ensures
        insert_desc(s, b).to_multiset() == s.to_multiset().insert(b),
    decreases s.len(),
{
    broadcast use vstd::seq_lib::group_to_multiset_ensures;

    if s.len() == 0 {
        assert(s =~= Seq::<BillView>::empty());
        assert(seq![b] =~= s.push(b));
    } else if s.last().paid >= b.paid {
    } else {
        lemma_insert_desc_multiset(s.drop_last(), b);
        assert(s =~= s.drop_last().push(s.last()));
        assert(s.drop_last().to_multiset().insert(b).insert(s.last()) =~= s.drop_last().to_multiset().insert(s.last()).insert(b));
    }
}

/// Sorting by amount keeps the bills: each as often as before.
pub proof fn lemma_sort_desc_multiset(bs: Seq<BillView>)
    ensures
        sort_desc(bs).to_multiset() == bs.to_multiset(),
    decreases bs.len(),
{
    broadcast use vstd::seq_lib::group_to_multiset_ensures;

    if bs.len() == 0 {
        assert(sort_desc(bs) =~= bs);
    } else {
        lemma_sort_desc_multiset(bs.drop_last());
        lemma_insert_desc_multiset(sort_desc(bs.drop_last()), bs.last());
        assert(bs =~= bs.drop_last().push(bs.last()));
    }
}

/// Placing a bill by amount in bills sorted from the greatest amount keeps them sorted.
proof fn lemma_insert_desc_sorted(s: Seq<BillView>, b: BillView)
    requires
        forall|i: int, j: int| 0 <= i < j < s.len() ==> (#[trigger] s[i]).paid >= (#[trigger] s[j]).paid,
    ensures
        forall|i: int, j: int| 0 <= i < j < insert_desc(s, b).len() ==> (#[trigger] insert_desc(s, b)[i]).paid >= (#[trigger] insert_desc(s, b)[j]).paid,
    decreases s.len(),
{
    broadcast use vstd::seq_lib::group_to_multiset_ensures;

    if s.len() == 0 {
    } else if s.last().paid >= b.paid {
        let r = s.push(b);
        assert forall|i: int, j: int| 0 <= i < j < r.len() implies (#[trigger] r[i]).paid >= (#[trigger] r[j]).paid by {
            if j == s.len() && i < s.len() - 1 {
                assert(s[i].paid >= s[s.len() - 1].paid);
            }
        }
    } else {
        let rest = s.drop_last();
        assert forall|i: int, j: int| 0 <= i < j < rest.len() implies (#[trigger] rest[i]).paid >= (#[trigger] rest[j]).paid by {
            assert(rest[i] == s[i] && rest[j] == s[j]);
        }
        lemma_insert_desc_sorted(rest, b);
        lemma_insert_desc_multiset(rest, b);
        let p = insert_desc(rest, b);
        let r = p.push(s.last());
        assert(insert_desc(s, b) == r);
        assert forall|i: int, j: int| 0 <= i < j < r.len() implies (#[trigger] r[i]).paid >= (#[trigger] r[j]).paid by {
            if j == p.len() {
                let e = p[i];
                assert(p.contains(e));
                assert(p.to_multiset().count(e) > 0);
                if e == b {
                } else {
                    assert(rest.to_multiset().count(e) > 0);
                    assert(rest.contains(e));
                    let k = choose|k: int| 0 <= k < rest.len() && rest[k] == e;
                    assert(s[k] == e);
                    assert(s[k].paid >= s[s.len() - 1].paid);
                }
            }
        }
    }
}

/// Bills sorted by amount run from the greatest amount to the smallest.
pub proof fn lemma_sort_desc_sorted(bs: Seq<BillView>)
    ensures
        forall|i: int, j: int| 0 <= i < j < sort_desc(bs).len() ==> (#[trigger] sort_desc(bs)[i]).paid >= (#[trigger] sort_desc(bs)[j]).paid,
    decreases bs.len(),
{
    if bs.len() > 0 {
        lemma_sort_desc_sorted(bs.drop_last());
        lemma_insert_desc_sorted(sort_desc(bs.drop_last()), bs.last());
    }
}

/// The rows of the bills table for the bills `bs`.
spec fn table_rows(bs: Seq<BillView>) -> Seq<Seq<Seq<char>>> {
    sort_desc(bs).map_values(|b: BillView| bill_row(b))
}

/// The column widths of the bills table for the bills `bs`.
spec fn table_widths(bs: Seq<BillView>) -> Seq<int> {
    column_widths(bills_header(), table_rows(bs))
}

/// The header line of the bills table for the bills `bs`.
spec fn header_line(bs: Seq<BillView>) -> Seq<char> {
    line_text(bills_header(), table_widths(bs), 2)
}

/// The lines of the rows of the bills table for the bills `bs`.
spec fn row_lines(bs: Seq<BillView>) -> Seq<Seq<char>> {
    table_rows(bs).map_values(|r: Seq<Seq<char>>| line_text(r, table_widths(bs), 2))
}

/// The bills table cut at newlines: the header line, one line per bill, and an empty piece
/// after the last newline. The header line describes no bill and, trimmed, starts with '#';
/// each bill's line describes that bill, holds no newline and, trimmed, does not start with '#'.
proof fn lemma_table_pieces(bs: Seq<BillView>)
    requires
        forall|i: int| 0 <= i < bs.len() ==> readable(#[trigger] bs[i]),
    ensures
        split_on(bills_text(bs), '\n') == seq![header_line(bs)] + row_lines(bs).push(Seq::<char>::empty()),
        parse_line(header_line(bs)) is None,
        !header_line(bs).contains('\n'),
        trim(header_line(bs)).len() > 0,
        trim(header_line(bs))[0] == '#',
        row_lines(bs).len() == sort_desc(bs).len(),
        forall|i: int| 0 <= i < row_lines(bs).len() ==> parse_line(#[trigger] row_lines(bs)[i]) == Some(sort_desc(bs)[i])
            && !row_lines(bs)[i].contains('\n') && trim(row_lines(bs)[i]).len() > 0 && trim(row_lines(bs)[i])[0] != '#',
        sort_desc(bs).to_multiset() == bs.to_multiset(),
{
    broadcast use vstd::seq_lib::group_to_multiset_ensures;

    let sorted = sort_desc(bs);
    lemma_sort_desc_multiset(bs);
    assert forall|i: int| 0 <= i < sorted.len() implies readable(#[trigger] sorted[i]) by {
        let e = sorted[i];
        assert(sorted.contains(e));
        assert(bs.to_multiset().count(e) > 0);
        assert(bs.contains(e));
        let k = choose|k: int| 0 <= k < bs.len() && bs[k] == e;
        assert(readable(bs[k]));
    }
    let rows = table_rows(bs);
    let widths = table_widths(bs);
    let header = header_line(bs);
    let lines = row_lines(bs);
    assert forall|i: int| 0 <= i < rows.len() implies !line_text(#[trigger] rows[i], widths, 2).contains('\n') by {
        let b = sorted[i];
        assert(rows[i] == bill_row(b));
        assert(readable(b));
        lemma_join_reads_back(b.split);
        lemma_amount_plain(b.paid);
        let cells = bill_row(b);
        assert forall|k: int| 0 <= k < cells.len() implies !(#[trigger] cells[k]).contains('\n') by {
            if cells[k].contains('\n') {
                let j = choose|j: int| 0 <= j < cells[k].len() && cells[k][j] == '\n';
                if k == 3 {
                    assert(cells[k] == amount_text(b.paid));
                }
            }
        }
        lemma_line_free(cells, widths, 2, '\n');
    }
    assert(!Seq::<char>::empty().contains('\n'));
    lemma_rows_split(rows, widths, 2, Seq::<char>::empty());
    assert(rows_text(rows, widths, 2) + Seq::<char>::empty() =~= rows_text(rows, widths, 2));
    lemma_header_reads_back(widths, 2);
    let text = bills_text(bs);
    assert(text =~= header + seq!['\n'] + rows_text(rows, widths, 2));
    lemma_split_concat(header, rows_text(rows, widths, 2), '\n');
    lemma_split_none(header, '\n');
    assert(split_on(text, '\n') =~= seq![header] + lines.push(Seq::<char>::empty()));
    assert forall|i: int| 0 <= i < lines.len() implies parse_line(#[trigger] lines[i]) == Some(sorted[i])
        && !lines[i].contains('\n') && trim(lines[i]).len() > 0 && trim(lines[i])[0] != '#' by {
        assert(lines[i] == line_text(rows[i], widths, 2));
        lemma_row_reads_back(sorted[i], widths, 2);
    }
}

/// Writing bills as the bills table and reading the table back gives the same bills, from the
/// greatest paid amount to the smallest, when each of them reads back (see `readable`).
pub proof fn lemma_table_reads_back(bs: Seq<BillView>)
    requires
        forall|i: int| 0 <= i < bs.len() ==> readable(#[trigger] bs[i]),
    ensures
        parsed_bills(bills_text(bs)) == sort_desc(bs),
        sort_desc(bs).to_multiset() == bs.to_multiset(),
{
    lemma_table_pieces(bs);
    let header = header_line(bs);
    let lines = row_lines(bs);
    let pieces = split_on(bills_text(bs), '\n');
    lemma_parse_lines_concat(seq![header], lines.push(Seq::<char>::empty()));
    assert(seq![header].drop_last() =~= Seq::<Seq<char>>::empty());
    assert(seq![header].last() == header);
    assert(parse_lines(Seq::<Seq<char>>::empty()) =~= Seq::<BillView>::empty());
    assert(parse_lines(seq![header]) =~= Seq::<BillView>::empty());
    lemma_trim_empty();
    assert(parse_line(Seq::<char>::empty()) is None);
    assert(lines.push(Seq::<char>::empty()).drop_last() =~= lines);
    lemma_parse_each(lines, sort_desc(bs));
    assert(parse_lines(pieces) =~= sort_desc(bs));
}


/// A line without the '\r' of a "\r\n" ending trims to the same text, and has no newline
/// where the line has none.
proof fn lemma_strip_cr_trim(x: Seq<char>)
    ensures
        trim(strip_cr(x)) == trim(x),
        !x.contains('\n') ==> !strip_cr(x).contains('\n'),
{
    if x.len() > 0 && x.last() == '\r' {
        assert(is_ws('\r'));
        lemma_trim_drop_ws_last(x);
        if strip_cr(x).contains('\n') {
            let i = choose|i: int| 0 <= i < strip_cr(x).len() && strip_cr(x)[i] == '\n';
            assert(x[i] == '\n');
        }
    }
}

/// Lines none of which is a comment are all kept.
proof fn lemma_uncommented_keeps(ls: Seq<Seq<char>>, prefix: Seq<char>)
    requires
        forall|i: int| 0 <= i < ls.len() ==> !starts_with(trim(#[trigger] ls[i]), prefix),
    ensures
        uncommented(ls, prefix) == ls,
    decreases ls.len(),
{
    if ls.len() > 0 {
        let rest = ls.drop_last();
        assert forall|i: int| 0 <= i < rest.len() implies !starts_with(trim(#[trigger] rest[i]), prefix) by {
            assert(rest[i] == ls[i]);
        }
        lemma_uncommented_keeps(rest, prefix);
        assert(ls[ls.len() - 1] == ls.last());
        assert(rest.push(ls.last()) =~= ls);
    } else {
        assert(ls =~= Seq::<Seq<char>>::empty());
    }
}

/// Dropping comment lines from two groups of lines, one after the other.
proof fn lemma_uncommented_concat(a: Seq<Seq<char>>, b: Seq<Seq<char>>, prefix: Seq<char>)
    ensures
        uncommented(a + b, prefix) == uncommented(a, prefix) + uncommented(b, prefix),
    decreases b.len(),
{
    if b.len() == 0 {
        assert(a + b =~= a);
        assert(uncommented(a, prefix) + uncommented(b, prefix) =~= uncommented(a, prefix));
    } else {
        assert((a + b).drop_last() =~= a + b.drop_last());
        assert((a + b).last() == b.last());
        lemma_uncommented_concat(a, b.drop_last(), prefix);
        let ua = uncommented(a, prefix);
        let ub = uncommented(b.drop_last(), prefix);
        assert((ua + ub).push(b.last()) =~= ua + ub.push(b.last()));
    }
}

/// Lines without newlines, joined with newlines and cut at newlines, are the same lines.
proof fn lemma_join_lines_split(ls: Seq<Seq<char>>)
    requires
        ls.len() > 0,
        forall|i: int| 0 <= i < ls.len() ==> !(#[trigger] ls[i]).contains('\n'),
    ensures
        split_on(join_lines(ls), '\n') == ls,
    decreases ls.len(),
{
    if ls.len() == 1 {
        lemma_split_none(ls[0], '\n');
        assert(seq![ls[0]] =~= ls);
    } else {
        let rest = ls.drop_last();
        assert forall|i: int| 0 <= i < rest.len() implies !(#[trigger] rest[i]).contains('\n') by {
            assert(rest[i] == ls[i]);
        }
        lemma_join_lines_split(rest);
        lemma_split_concat(join_lines(rest), ls.last(), '\n');
        assert(ls[ls.len() - 1] == ls.last());
        lemma_split_none(ls.last(), '\n');
        assert(rest + seq![ls.last()] =~= ls);
    }
}

/// Editing the bills table without changing it leaves the bills as they were: once the lines
/// that start with '#' are dropped, the edited text reads back as the same bills, from the
/// greatest paid amount to the smallest, when each of them reads back (see `readable`).
pub proof fn lemma_unchanged_edit_reads_back(bs: Seq<BillView>)
    requires
        forall|i: int| 0 <= i < bs.len() ==> readable(#[trigger] bs[i]),
    ensures
        parsed_bills(join_lines(uncommented(lines_of(bills_text(bs)), seq!['#']))) == sort_desc(bs),
{
    broadcast use vstd::seq_lib::group_to_multiset_ensures;

    lemma_table_pieces(bs);
    let header = header_line(bs);
    let lines = row_lines(bs);
    let sorted = sort_desc(bs);
    let pieces = split_on(bills_text(bs), '\n');
    let kept = lines.map_values(|l: Seq<char>| strip_cr(l));
    let ls = lines_of(bills_text(bs));
    assert(pieces[pieces.len() - 1] == Seq::<char>::empty());
    assert(ls =~= seq![strip_cr(header)] + kept);
    let hash = seq!['#'];
    lemma_strip_cr_trim(header);
    assert(trim(strip_cr(header)).take(1) =~= hash);
    assert(starts_with(trim(strip_cr(header)), hash));
    assert(uncommented(seq![strip_cr(header)], hash) =~= Seq::<Seq<char>>::empty()) by {
        assert(seq![strip_cr(header)].drop_last() =~= Seq::<Seq<char>>::empty());
        assert(seq![strip_cr(header)].last() == strip_cr(header));
        assert(uncommented(Seq::<Seq<char>>::empty(), hash) =~= Seq::<Seq<char>>::empty());
    }
    assert forall|i: int| 0 <= i < kept.len() implies !starts_with(trim(#[trigger] kept[i]), hash)
        && !kept[i].contains('\n') && parse_line(kept[i]) == Some(sorted[i]) by {
        lemma_strip_cr_trim(lines[i]);
        assert(kept[i] == strip_cr(lines[i]));
        if starts_with(trim(kept[i]), hash) {
            assert(trim(kept[i]).take(1)[0] == hash[0]);
        }
    }
    lemma_uncommented_concat(seq![strip_cr(header)], kept, hash);
    lemma_uncommented_keeps(kept, hash);
    assert(uncommented(ls, hash) =~= kept);
    lemma_parse_each(kept, sorted);
    if kept.len() == 0 {
        lemma_trim_empty();
        assert(join_lines(kept) =~= Seq::<char>::empty());
        assert(split_on(Seq::<char>::empty(), '\n') == seq![Seq::<char>::empty()]);
        assert(parse_line(Seq::<char>::empty()) is None);
        assert(seq![Seq::<char>::empty()].drop_last() =~= Seq::<Seq<char>>::empty());
        assert(parse_lines(Seq::<Seq<char>>::empty()) =~= Seq::<BillView>::empty());
        assert(parse_lines(seq![Seq::<char>::empty()]) =~= sorted);
    } else {
        lemma_join_lines_split(kept);
    }
}


/// Bills inserted under identifiers that all differ are each found under their own
/// identifier, and under no other.
pub proof fn lemma_inserted_distinct(ids: Seq<u128>, vs: Seq<BillView>)
    requires
        ids.len() == vs.len(),
        ids.no_duplicates(),
    ensures
        forall|k: int| 0 <= k < ids.len() ==> inserted(ids, vs).contains_key(#[trigger] ids[k]) && inserted(ids, vs)[ids[k]] == vs[k],
        forall|key: u128| #[trigger] inserted(ids, vs).contains_key(key) ==> ids.contains(key),
    decreases ids.len(),
{
    if ids.len() > 0 {
        let pi = ids.drop_last();
        let pv = vs.drop_last();
        assert(pi.no_duplicates()) by {
            assert forall|a: int, b: int| 0 <= a < pi.len() && 0 <= b < pi.len() && a != b implies pi[a] != pi[b] by {
                assert(pi[a] == ids[a] && pi[b] == ids[b]);
            }
        }
        lemma_inserted_distinct(pi, pv);
        let m = inserted(ids, vs);
        assert(m == inserted(pi, pv).insert(ids.last(), vs.last()));
        assert forall|k: int| 0 <= k < ids.len() implies m.contains_key(#[trigger] ids[k]) && m[ids[k]] == vs[k] by {
            if k < ids.len() - 1 {
                assert(pi[k] == ids[k] && pv[k] == vs[k]);
                assert(ids[k] != ids[ids.len() - 1]);
            }
        }
        assert forall|key: u128| #[trigger] m.contains_key(key) implies ids.contains(key) by {
            if key != ids.last() {
                assert(inserted(pi, pv).contains_key(key));
                let j = choose|j: int| 0 <= j < pi.len() && pi[j] == key;
                assert(ids[j] == key);
            } else {
                assert(ids[ids.len() - 1] == key);
            }
        }
    }
}


/// Editing the bills without changing them keeps them: where every bill reads back and the
/// new identifiers all differ, the bills that `from_table_str` reads from what `table` writes
/// stand exactly under the new identifiers, and, listed by those identifiers, they are the
/// bills there were, each as often as before (from the greatest amount to the smallest).
pub proof fn lemma_edit_keeps_bills(m: Map<u128, BillView>, ids: Seq<u128>, r: Map<u128, BillView>)
    requires
        forall|i: int| 0 <= i < ordered_bills(m).len() ==> readable(#[trigger] ordered_bills(m)[i]),
        ids.len() == parsed_bills(bills_text(ordered_bills(m))).len(),
        ids.no_duplicates(),
        r == inserted(ids, parsed_bills(bills_text(ordered_bills(m)))),
    ensures
        r.dom() == ids.to_set(),
        ids.map_values(|id: u128| r[id]) == sort_desc(ordered_bills(m)),
        ids.map_values(|id: u128| r[id]).to_multiset() == ordered_bills(m).to_multiset(),
{
    let bs = ordered_bills(m);
    lemma_table_reads_back(bs);
    lemma_inserted_distinct(ids, parsed_bills(bills_text(bs)));
    assert(r.dom() =~= ids.to_set()) by {
        assert forall|key: u128| r.dom().contains(key) <==> ids.to_set().contains(key) by {
            if ids.contains(key) {
                let k = choose|k: int| 0 <= k < ids.len() && ids[k] == key;
                assert(r.contains_key(ids[k]));
            }
        }
    }
    assert(ids.map_values(|id: u128| r[id]) =~= sort_desc(bs));
}

} // verus!
