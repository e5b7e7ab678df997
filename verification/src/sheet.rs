//! Bills as an editable text table, and back.
use vstd::prelude::*;
use crate::amount::{amount_text, format_amount, amount_of, parse_amount};
use crate::bill::{BillItem, BillView, Bills, SplitResult, names_of, ordered_bills, bills_in_order};
use crate::calc::views;
use crate::display::{SimpleTable, table_text, column_widths, fit_row};
use crate::text::{texts_of, trim, split_on, trim_range, split_ranges, chars_of};
use crate::who::Who;
use vstd::string::StringExecFns;

verus! {

/// `parts` one after another, with `sep` between each two.
pub open spec fn join(parts: Seq<Seq<char>>, sep: Seq<char>) -> Seq<char>
    decreases parts.len(),
{
    if parts.len() == 0 {
        Seq::empty()
    } else if parts.len() == 1 {
        parts[0]
    } else {
        join(parts.drop_last(), sep) + sep + parts.last()
    }
}

/// `s` with `b` placed after every bill that paid at least as much, and before the others.
pub open spec fn insert_desc(s: Seq<BillView>, b: BillView) -> Seq<BillView>
    decreases s.len(),
{
    if s.len() == 0 {
        seq![b]
    } else if s.last().paid >= b.paid {
        s.push(b)
    } else {
        insert_desc(s.drop_last(), b).push(s.last())
    }
}

/// The bills from the greatest paid amount to the smallest, bills that paid the same
/// keeping their order.
pub open spec fn sort_desc(bs: Seq<BillView>) -> Seq<BillView>
    decreases bs.len(),
{
    if bs.len() == 0 {
        Seq::empty()
    } else {
        insert_desc(sort_desc(bs.drop_last()), bs.last())
    }
}

/// The header of the bills table.
pub open spec fn bills_header() -> Seq<Seq<char>> {
    seq![seq!['#'], seq!['W', 'h', 'o'], seq!['|'], seq!['P', 'a', 'i', 'd'], seq!['|'], seq!['S', 'p', 'l', 'i', 't'], seq!['|'], seq!['R', 'e', 'a', 's', 'o', 'n']]
}

/// The row of the bills table for bill `b`: an empty cell, the payer, the amount, the
/// people it is split between (separated by ", ") and the reason, with "|" cells between.
pub open spec fn bill_row(b: BillView) -> Seq<Seq<char>> {
    seq![Seq::empty(), b.payer, seq!['|'], amount_text(b.paid), seq!['|'], join(b.split, seq![',', ' ']), seq!['|'], b.reason]
}

/// The text of the bills table for the bills `bs`: the header, then one row per bill from the
/// greatest paid amount to the smallest, each column as wide as its widest cell plus two spaces.
pub open spec fn bills_text(bs: Seq<BillView>) -> Seq<char> {
    let rows = sort_desc(bs).map_values(|b: BillView| bill_row(b));
    table_text(bills_header(), rows, column_widths(bills_header(), rows), 2)
}

/// Where the last bill of a list sorted by amount goes, when every bill from `j` on paid less.
proof fn lemma_insert_desc_at(p: Seq<BillView>, x: BillView, j: int)
    requires
        0 <= j <= p.len(),
        forall|k: int| j <= k < p.len() ==> (#[trigger] p[k]).paid < x.paid,
        j == 0 || p[j - 1].paid >= x.paid,
    ensures
        insert_desc(p, x) == p.take(j).push(x) + p.skip(j),
    decreases p.len(),
{
    if p.len() == j {
        assert(p.skip(j) =~= Seq::<BillView>::empty());
        assert(p.take(j) =~= p);
    } else {
        assert(p.last().paid < x.paid);
        lemma_insert_desc_at(p.drop_last(), x, j);
        assert(p.drop_last().take(j) =~= p.take(j));
        assert(p.skip(j) =~= p.drop_last().skip(j).push(p.last()));
        assert(insert_desc(p, x) =~= p.take(j).push(x) + p.skip(j));
    }
}

/// Sorts bills from the greatest paid amount to the smallest, keeping the order of bills that
/// paid the same.
fn sort_by_paid_desc(v: &mut Vec<&BillItem>)
    ensures
        views(final(v)@) == sort_desc(views(old(v)@)),
{
    let ghost orig = views(v@);
    let n = v.len();
    let mut i: usize = 0;
    while i < n
        invariant
            i <= n,
            n == v@.len(),
            orig.len() == n,
            views(v@).take(i as int) == sort_desc(orig.take(i as int)),
            views(v@).skip(i as int) == orig.skip(i as int),
        decreases n - i,
    {
        let ghost p = views(v@).take(i as int);
        let ghost x = orig[i as int];
        assert(views(v@)[i as int] == orig.skip(i as int)[0]);
        assert(views(v@).take(i + 1) =~= p.take(i as int).push(x) + p.skip(i as int));
        assert forall|k: int| 0 <= k < views(v@).skip(i + 1).len() implies #[trigger] views(v@).skip(i + 1)[k] == orig.skip(i + 1)[k] by {
            assert(views(v@).skip(i as int)[k + 1] == orig.skip(i as int)[k + 1]);
        }
        assert(views(v@).skip(i + 1) =~= orig.skip(i + 1));
        let mut j = i;
        while j > 0 && v[j - 1].paid < v[j].paid
            invariant
                j <= i < n,
                n == v@.len(),
                views(v@).take(i + 1) == p.take(j as int).push(x) + p.skip(j as int),
                views(v@).skip(i + 1) == orig.skip(i + 1),
                p.len() == i,
                forall|k: int| j <= k < i ==> (#[trigger] p[k]).paid < x.paid,
            decreases j,
        {
            let ghost before = views(v@);
            let a = v[j - 1];
            let b = v[j];
            v.set(j - 1, b);
            v.set(j, a);
            proof {
                let q = p.take(j as int).push(x) + p.skip(j as int);
                assert(q[j as int] == x);
                assert(q[j - 1] == p[j - 1]);
                assert(before.take(i + 1)[j as int] == before[j as int]);
                assert(before.take(i + 1)[j - 1] == before[j - 1]);
                assert(before[j as int] == x);
                assert(before[j - 1] == p[j - 1]);
                let q2 = p.take(j - 1).push(x) + p.skip(j - 1);
                assert(views(v@) =~= before.update(j - 1, x).update(j as int, p[j - 1]));
                assert forall|k: int| 0 <= k < i + 1 implies #[trigger] views(v@).take(i + 1)[k] == q2[k] by {
                    assert(before.take(i + 1)[k] == q[k]);
                    if k < j - 1 {
                        assert(q[k] == p[k] && q2[k] == p[k]);
                    } else if k > j {
                        assert(q[k] == p[k - 1] && q2[k] == p[k - 1]);
                    }
                }
                assert(views(v@).take(i + 1) =~= q2);
                assert(views(v@).skip(i + 1) =~= before.skip(i + 1));
            }
            j = j - 1;
        }
        proof {
            let cur = views(v@);
            let q = p.take(j as int).push(x) + p.skip(j as int);
            assert(q[j as int] == x);
            assert(cur.take(i + 1)[j as int] == cur[j as int]);
            if j > 0 {
                assert(q[j - 1] == p[j - 1]);
                assert(cur.take(i + 1)[j - 1] == cur[j - 1]);
                assert(cur[j - 1] == p[j - 1]);
                assert(cur[j as int] == x);
            }
            lemma_insert_desc_at(p, x, j as int);
            assert(orig.take(i + 1).drop_last() =~= orig.take(i as int));
            assert(orig.take(i + 1).last() == x);
            assert(cur.take(i + 1) =~= insert_desc(p, x));
            assert(cur.skip(i + 1) =~= orig.skip(i + 1));
        }
        i = i + 1;
    }
    assert(views(v@).take(n as int) =~= views(v@));
    assert(orig.take(n as int) =~= orig);
}

/// The names of `v`, with ", " between each two.
fn join_names(v: &Vec<Who>) -> (s: String)
    ensures
        s@ == join(names_of(v@), seq![',', ' ']),
{
    let ghost names = names_of(v@);
    let mut s = String::new();
    let mut i: usize = 0;
    while i < v.len()
        invariant
            i <= v@.len(),
            names == names_of(v@),
            s@ == join(names.take(i as int), seq![',', ' ']),
        decreases v.len() - i,
    {
        let ghost s0 = s@;
        if i > 0 {
            crate::text::push_char(&mut s, ',');
            crate::text::push_char(&mut s, ' ');
        }
        s.append(v[i].name().as_str());
        proof {
            let t = names.take(i + 1);
            assert(t.drop_last() =~= names.take(i as int));
            assert(t.last() == v@[i as int]@);
            if i == 0 {
                assert(t.len() == 1);
                assert(s@ =~= join(t, seq![',', ' ']));
            } else {
                assert(s@ =~= join(t, seq![',', ' ']));
            }
        }
        i = i + 1;
    }
    assert(names.take(v@.len() as int) =~= names);
    s
}

/// The string of a single character.
fn single(c: char) -> (s: String)
    ensures
        s@ == seq![c],
{
    let mut s = String::new();
    crate::text::push_char(&mut s, c);
    assert(s@ =~= seq![c]);
    s
}

/// The string of the characters of `a` then `b`.
fn joined(a: String, b: String) -> (s: String)
    ensures
        s@ == a@ + b@,
{
    a.concat(b.as_str())
}

/// The cells of the header of the bills table.
fn header_cells() -> (r: Vec<String>)
    ensures
        texts_of(r@) == bills_header(),
{
    let mut r: Vec<String> = Vec::new();
    r.push(single('#'));
    r.push(joined(joined(single('W'), single('h')), single('o')));
    r.push(single('|'));
    r.push(joined(joined(single('P'), single('a')), joined(single('i'), single('d'))));
    r.push(single('|'));
    r.push(joined(joined(joined(single('S'), single('p')), joined(single('l'), single('i'))), single('t')));
    r.push(single('|'));
    r.push(joined(joined(joined(single('R'), single('e')), joined(single('a'), single('s'))), joined(single('o'), single('n'))));
    proof {
        let h = bills_header();
        assert(texts_of(r@)[1] =~= h[1]);
        assert(texts_of(r@)[3] =~= h[3]);
        assert(texts_of(r@)[5] =~= h[5]);
        assert(texts_of(r@)[7] =~= h[7]);
        assert(texts_of(r@) =~= h);
    }
    r
}

/// The cells of the row of the bills table for bill `b`.
fn row_cells(b: &BillItem) -> (r: Vec<String>)
    ensures
        texts_of(r@) == bill_row(b@),
{
    let mut r: Vec<String> = Vec::new();
    r.push(String::new());
    r.push(b.who_paid.to_string());
    r.push(single('|'));
    r.push(format_amount(b.paid));
    r.push(single('|'));
    r.push(join_names(&b.split));
    r.push(single('|'));
    r.push(b.reason.clone());
    assert(texts_of(r@) =~= bill_row(b@));
    r
}

impl Bills {
    /// The bills as a text table: a header line, then one line per bill with its payer,
    /// amount, the people it is split between and its reason, from the greatest amount to
    /// the smallest.
    pub fn table(self) -> (s: String)
        ensures
            s@ == bills_text(ordered_bills(self@)),
    {
        let mut bs = bills_in_order(&self);
        sort_by_paid_desc(&mut bs);
        let ghost sorted = views(bs@);
        let ghost rows = sorted.map_values(|b: BillView| bill_row(b));
        let mut t = SimpleTable::new(header_cells());
        let mut i: usize = 0;
        while i < bs.len()
            invariant
                i <= bs@.len(),
                sorted == views(bs@),
                rows == sorted.map_values(|b: BillView| bill_row(b)),
                t.wf(),
                t@.header == bills_header(),
                t@.padding == 2,
                t@.rows == rows.take(i as int),
            decreases bs.len() - i,
        {
            let cells = row_cells(bs[i]);
            let ghost row = texts_of(cells@);
            t.push_item(cells);
            proof {
                assert(fit_row(row, 8) =~= row);
                assert(rows.take(i + 1) =~= rows.take(i as int).push(row));
            }
            i = i + 1;
        }
        assert(rows.take(bs@.len() as int) =~= rows);
        t.to_string()
    }
}

/// The pieces of `ps` that are not empty.
pub open spec fn nonempty(ps: Seq<Seq<char>>) -> Seq<Seq<char>>
    decreases ps.len(),
{
    if ps.len() == 0 {
        Seq::empty()
    } else {
        let r = nonempty(ps.drop_last());
        if ps.last().len() > 0 { r.push(ps.last()) } else { r }
    }
}

/// Each piece of `ps` without white space at either end.
pub open spec fn trimmed(ps: Seq<Seq<char>>) -> Seq<Seq<char>> {
    ps.map_values(|p: Seq<char>| trim(p))
}

/// The names in a cell of the Split column: the pieces between commas, trimmed, empty ones left out.
pub open spec fn split_names(s: Seq<char>) -> Seq<Seq<char>> {
    nonempty(trimmed(split_on(s, ',')))
}

/// The bill a line of the bills table describes, if it describes one: lines that are blank or
/// start with '#' (after white space) describe none, nor do lines that '|' does not cut in
/// exactly four cells. Otherwise the cells, trimmed, are the payer, the amount (0 where it is
/// not a number), the people it is split between, and the reason.
pub open spec fn parse_line(line: Seq<char>) -> Option<BillView> {
    let t = trim(line);
    if t.len() == 0 || t[0] == '#' {
        None
    } else {
        let parts = trimmed(split_on(t, '|'));
        if parts.len() != 4 {
            None
        } else {
            Some(BillView {
                payer: parts[0],
                reason: parts[3],
                paid: match amount_of(parts[1]) { Some(v) => v, None => 0 },
                split: split_names(parts[2]),
            })
        }
    }
}

/// The bills that the lines describe, in order.
pub open spec fn parse_lines(lines: Seq<Seq<char>>) -> Seq<BillView>
    decreases lines.len(),
{
    if lines.len() == 0 {
        Seq::empty()
    } else {
        let r = parse_lines(lines.drop_last());
        match parse_line(lines.last()) {
            Some(b) => r.push(b),
            None => r,
        }
    }
}

/// The bills that a text table describes, line by line.
pub open spec fn parsed_bills(text: Seq<char>) -> Seq<BillView> {
    parse_lines(split_on(text, '\n'))
}

/// The map that inserting the bills `vs` under the identifiers `ids`, in order, gives.
pub open spec fn inserted(ids: Seq<u128>, vs: Seq<BillView>) -> Map<u128, BillView>
    decreases vs.len(),
{
    if vs.len() == 0 || ids.len() == 0 {
        Map::empty()
    } else {
        inserted(ids.drop_last(), vs.drop_last()).insert(ids.last(), vs.last())
    }
}

/// The people named in the cell `cs[lo..hi]` of the Split column.
fn parse_names(cs: &Vec<char>, lo: usize, hi: usize) -> (r: Vec<Who>)
    requires
        lo <= hi <= cs@.len(),
    ensures
        names_of(r@) == split_names(cs@.subrange(lo as int, hi as int)),
{
    let ps = split_ranges(cs, lo, hi, ',');
    let ghost pieces = ps@.map_values(|p: (usize, usize)| cs@.subrange(p.0 as int, p.1 as int));
    let mut r: Vec<Who> = Vec::new();
    let mut k: usize = 0;
    while k < ps.len()
        invariant
            k <= ps@.len(),
            pieces == ps@.map_values(|p: (usize, usize)| cs@.subrange(p.0 as int, p.1 as int)),
            forall|j: int| 0 <= j < ps@.len() ==> lo <= (#[trigger] ps@[j]).0 <= ps@[j].1 <= hi,
            hi <= cs@.len(),
            names_of(r@) == nonempty(trimmed(pieces).take(k as int)),
        decreases ps.len() - k,
    {
        let (a, b) = trim_range(cs, ps[k].0, ps[k].1);
        let ghost t = trimmed(pieces);
        assert(t.take(k + 1).drop_last() =~= t.take(k as int));
        assert(t.take(k + 1).last() == trim(pieces[k as int]));
        if a < b {
            let ghost before = names_of(r@);
            let name = crate::text::string_of(cs, a, b);
            r.push(Who::new(name.as_str()));
            assert(names_of(r@) =~= before.push(cs@.subrange(a as int, b as int)));
        }
        k = k + 1;
    }
    assert(trimmed(pieces).take(ps@.len() as int) =~= trimmed(pieces));
    r
}

/// The bill the line `cs[lo..hi]` of a bills table describes, if it describes one.
fn parse_row(cs: &Vec<char>, lo: usize, hi: usize) -> (r: Option<BillItem>)
    requires
        lo <= hi <= cs@.len(),
    ensures
        match r {
            Some(b) => parse_line(cs@.subrange(lo as int, hi as int)) == Some(b@),
            None => parse_line(cs@.subrange(lo as int, hi as int)) is None,
        },
{
    let (a, b) = trim_range(cs, lo, hi);
    let ghost t = cs@.subrange(a as int, b as int);
    if a == b {
        return None;
    }
    assert(t[0] == cs@[a as int]);
    if cs[a] == '#' {
        return None;
    }
    let parts = split_ranges(cs, a, b, '|');
    let ghost pieces = parts@.map_values(|p: (usize, usize)| cs@.subrange(p.0 as int, p.1 as int));
    if parts.len() != 4 {
        return None;
    }
    let (w0, w1) = trim_range(cs, parts[0].0, parts[0].1);
    let (p0, p1) = trim_range(cs, parts[1].0, parts[1].1);
    let (s0, s1) = trim_range(cs, parts[2].0, parts[2].1);
    let (r0, r1) = trim_range(cs, parts[3].0, parts[3].1);
    let who = crate::text::string_of(cs, w0, w1);
    let paid_text = crate::text::string_of(cs, p0, p1);
    let paid = match parse_amount(paid_text.as_str()) {
        Some(v) => v,
        None => 0,
    };
    let split = parse_names(cs, s0, s1);
    let reason = crate::text::string_of(cs, r0, r1);
    let item = BillItem { who_paid: Who::new(who.as_str()), reason, paid, split };
    proof {
        let parts_t = trimmed(split_on(t, '|'));
        assert(pieces[0] == cs@.subrange(parts@[0].0 as int, parts@[0].1 as int));
        assert(parts_t[0] == cs@.subrange(w0 as int, w1 as int));
        assert(parts_t[1] == cs@.subrange(p0 as int, p1 as int));
        assert(parts_t[2] == cs@.subrange(s0 as int, s1 as int));
        assert(parts_t[3] == cs@.subrange(r0 as int, r1 as int));
    }
    Some(item)
}

impl Bills {
    /// The bills that a text table describes (as `table` writes it, perhaps edited), each
    /// under a new random identifier.
    pub fn from_table_str(table_str: &str) -> (r: Bills)
        ensures
            exists|ids: Seq<u128>| ids.len() == parsed_bills(table_str@).len() && r@ == #[trigger] inserted(ids, parsed_bills(table_str@))
                && forall|k: int| 0 <= k < ids.len() ==> (#[trigger] ids[k] >> 76u128) & 0xfu128 == 4 && (ids[k] >> 62u128) & 0x3u128 == 2,
    {
        let cs = chars_of(table_str);
        let lines = split_ranges(&cs, 0, cs.len(), '\n');
        let ghost pieces = lines@.map_values(|p: (usize, usize)| cs@.subrange(p.0 as int, p.1 as int));
        assert(cs@.subrange(0, cs@.len() as int) =~= cs@);
        let mut bills = Bills::default();
        let ghost mut ids: Seq<u128> = Seq::empty();
        let mut k: usize = 0;
        while k < lines.len()
            invariant
                k <= lines@.len(),
                pieces == lines@.map_values(|p: (usize, usize)| cs@.subrange(p.0 as int, p.1 as int)),
                pieces == split_on(table_str@, '\n'),
                forall|j: int| 0 <= j < lines@.len() ==> 0 <= (#[trigger] lines@[j]).0 <= lines@[j].1 <= cs@.len(),
                ids.len() == parse_lines(pieces.take(k as int)).len(),
                forall|q: int| 0 <= q < ids.len() ==> (#[trigger] ids[q] >> 76u128) & 0xfu128 == 4 && (ids[q] >> 62u128) & 0x3u128 == 2,
                bills@ == inserted(ids, parse_lines(pieces.take(k as int))),
            decreases lines.len() - k,
        {
            let ghost pre = parse_lines(pieces.take(k as int));
            assert(pieces.take(k + 1).drop_last() =~= pieces.take(k as int));
            assert(pieces.take(k + 1).last() == pieces[k as int]);
            match parse_row(&cs, lines[k].0, lines[k].1) {
                Some(item) => {
                    let ghost v = item@;
                    let id = bills.add_item(item);
                    proof {
                        let ids0 = ids;
                        ids = ids.push(id);
                        assert(ids.drop_last() =~= ids0);
                        assert(pre.push(v).drop_last() =~= pre);
                    }
                },
                None => {},
            }
            k = k + 1;
        }
        assert(pieces.take(lines@.len() as int) =~= pieces);
        assert(parse_lines(pieces) == parsed_bills(table_str@));
        assert(bills@ == inserted(ids, parsed_bills(table_str@)));
        bills
    }
}


/// The header of the settlement table.
pub open spec fn settlement_header() -> Seq<Seq<char>> {
    seq!["Who"@, "|"@, "Should Pay"@, "|"@, "To"@]
}

/// The row of the settlement table for one settlement: who pays, how much, and to whom.
pub open spec fn settlement_row(e: ((Seq<char>, Seq<char>), int)) -> Seq<Seq<char>> {
    seq![e.0.0, "->"@, amount_text(e.1), "->"@, e.0.1]
}

impl SplitResult {
    /// The net settlement as a table: the header "Who | Should Pay | To", then one row per
    /// settlement in its order, with two spaces after every cell.
    pub fn settlement_table(&self) -> (t: SimpleTable)
        ensures
            t.wf(),
            t@.header == settlement_header(),
            t@.padding == 2,
            t@.rows == self@.final_result.map_values(|e: ((Seq<char>, Seq<char>), int)| settlement_row(e)),
            t@.rows.len() == self@.final_result.len(),
            forall|i: int| 0 <= i < t@.rows.len() ==> (#[trigger] t@.rows[i]).len() == 5
                && t@.rows[i][0] == self@.final_result[i].0.0
                && t@.rows[i][1] == "->"@
                && t@.rows[i][2] == amount_text(self@.final_result[i].1)
                && t@.rows[i][3] == "->"@
                && t@.rows[i][4] == self@.final_result[i].0.1,
    {
        let ghost rows = self@.final_result.map_values(|e: ((Seq<char>, Seq<char>), int)| settlement_row(e));
        let mut header: Vec<String> = Vec::new();
        header.push("Who".to_owned());
        header.push("|".to_owned());
        header.push("Should Pay".to_owned());
        header.push("|".to_owned());
        header.push("To".to_owned());
        assert(texts_of(header@) =~= settlement_header());
        let mut t = SimpleTable::new(header);
        let mut i: usize = 0;
        while i < self.final_result.len()
            invariant
                i <= self.final_result@.len(),
                rows == self@.final_result.map_values(|e: ((Seq<char>, Seq<char>), int)| settlement_row(e)),
                t.wf(),
                t@.header == settlement_header(),
                t@.padding == 2,
                t@.rows == rows.take(i as int),
            decreases self.final_result.len() - i,
        {
            let entry = &self.final_result[i];
            let mut cells: Vec<String> = Vec::new();
            cells.push(entry.0.0.to_string());
            cells.push("->".to_owned());
            cells.push(format_amount(entry.1));
            cells.push("->".to_owned());
            cells.push(entry.0.1.to_string());
            let ghost row = texts_of(cells@);
            proof {
                assert(self@.final_result[i as int] == ((entry.0.0@, entry.0.1@), entry.1 as int));
                assert(row =~= settlement_row(self@.final_result[i as int]));
                assert(fit_row(row, 5) =~= row);
            }
            t.push_item(cells);
            assert(rows.take(i + 1) =~= rows.take(i as int).push(row));
            i = i + 1;
        }
        assert(rows.take(self.final_result@.len() as int) =~= rows);
        proof {
            assert forall|i: int| 0 <= i < rows.len() implies (#[trigger] rows[i]).len() == 5
                && rows[i][0] == self@.final_result[i].0.0
                && rows[i][2] == amount_text(self@.final_result[i].1)
                && rows[i][4] == self@.final_result[i].0.1 by {
                lemma_settlement_row(self@.final_result[i]);
            }
        }
        t
    }
}


/// A settlement's row names, first, who pays, then how much, then to whom: the payer in the
/// first column and the payee in the last, whatever the order of their names.
pub proof fn lemma_settlement_row(e: ((Seq<char>, Seq<char>), int))
    ensures
        settlement_row(e).len() == 5,
        settlement_row(e)[0] == e.0.0,
        settlement_row(e)[1] == "->"@,
        settlement_row(e)[2] == amount_text(e.1),
        settlement_row(e)[3] == "->"@,
        settlement_row(e)[4] == e.0.1,
{
}

} // verus!
