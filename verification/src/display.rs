//! Plain-text tables whose columns are padded to a common width.
use vstd::prelude::*;
use vstd::utf8::{valid_utf8, decode_utf8, encode_utf8};
use vstd::string::StringSliceAdditionalSpecFns;
use crate::text::{chars_of, push_char};
use vstd::string::StringExecFns;

verus! {

/// What `strip_ansi_escapes::strip` gives for `data`: the bytes without ANSI escape sequences.
pub uninterp spec fn ansi_stripped(data: Seq<u8>) -> Seq<u8>;

/// Calls `strip_ansi_escapes::strip`. Its result is a function of the input bytes alone
/// (it runs a deterministic parser over them); what that function is is not stated.
#[verifier::external_body]
fn strip_escapes(data: &[u8]) -> (r: Vec<u8>)
    ensures
        r@ == ansi_stripped(data@),
{
    strip_ansi_escapes::strip(data)
}

/// Calls `std::str::from_utf8`: the text the bytes encode, where they are valid UTF-8.
#[verifier::external_body]
fn utf8_text(bytes: &[u8]) -> (r: Option<&str>)
    ensures
        match r {
            Some(t) => valid_utf8(bytes@) && t@ == decode_utf8(bytes@),
            None => !valid_utf8(bytes@),
        },
{
    std::str::from_utf8(bytes).ok()
}

/// How many columns a character takes: one for ASCII, two for any other.
pub open spec fn char_width(c: char) -> nat {
    if (c as u32) < 128 { 1 } else { 2 }
}

/// How many columns the characters `s` take.
pub open spec fn chars_width(s: Seq<char>) -> nat
    decreases s.len(),
{
    if s.len() == 0 { 0 } else { chars_width(s.drop_last()) + char_width(s.last()) }
}

/// How many columns the text `s` takes, given the bytes `stripped` left of it once ANSI escape
/// sequences are stripped: the width of those bytes read as UTF-8 (or of `s` itself, should
/// they not be UTF-8), capped at `usize::MAX`.
pub open spec fn width_after(stripped: Seq<u8>, s: Seq<char>) -> nat {
    let w = if valid_utf8(stripped) { chars_width(decode_utf8(stripped)) } else { chars_width(s) };
    if w > usize::MAX { usize::MAX as nat } else { w }
}

/// How many columns the text `s` takes on screen: the width of what is left once ANSI escape
/// sequences are stripped.
pub open spec fn display_width_of(s: Seq<char>) -> nat {
    width_after(ansi_stripped(encode_utf8(s)), s)
}

/// How many columns the characters `s` take, capped at `usize::MAX`.
fn width_of_chars(s: &str) -> (w: usize)
    ensures
        w == if chars_width(s@) > usize::MAX { usize::MAX as nat } else { chars_width(s@) },
{
    let cs = chars_of(s);
    let mut w: usize = 0;
    let mut i: usize = 0;
    while i < cs.len()
        invariant
            i <= cs.len(),
            cs@ == s@,
            w == if chars_width(cs@.take(i as int)) > usize::MAX { usize::MAX as nat } else { chars_width(cs@.take(i as int)) },
        decreases cs.len() - i,
    {
        let c = cs[i];
        let cw: usize = if (c as u32) < 128 { 1 } else { 2 };
        assert(cs@.take(i + 1).drop_last() =~= cs@.take(i as int));
        assert(cs@.take(i + 1).last() == c);
        w = w.saturating_add(cw);
        i = i + 1;
    }
    assert(cs@.take(cs.len() as int) =~= cs@);
    w
}

/// How many columns the text `s` takes, given the bytes `stripped` left of it once ANSI escape
/// sequences are stripped: one per ASCII character, two per other character, of those bytes
/// read as UTF-8, or of `s` where they are not UTF-8.
pub fn width_after_strip(stripped: &[u8], s: &str) -> (w: usize)
    ensures
        w == width_after(stripped@, s@),
{
    match utf8_text(stripped) {
        Some(t) => width_of_chars(t),
        None => width_of_chars(s),
    }
}

/// How many columns the text `s` takes on screen, ignoring ANSI escape sequences: one per
/// ASCII character, two per other character.
pub fn display_width(s: &str) -> (w: usize)
    ensures
        w == display_width_of(s@),
{
    let stripped = strip_escapes(s.as_bytes());
    width_after_strip(stripped.as_slice(), s)
}

/// Appends `k` spaces to `s`.
fn push_spaces(s: &mut String, k: usize)
    ensures
        final(s)@ == old(s)@ + spaces(k as int),
{
    let ghost s0 = s@;
    let mut i: usize = 0;
    while i < k
        invariant
            i <= k,
            s@ =~= s0 + spaces(i as int),
        decreases k - i,
    {
        push_char(s, ' ');
        i = i + 1;
    }
}

/// A table: a header row, data rows with one cell per header cell, the width of each column
/// and the spaces added after every cell.
pub struct SimpleTable {
    items: Vec<String>,
    line: Vec<Vec<String>>,
    length: Vec<usize>,
    padding: usize,
}

/// What a table holds, as plain values.
pub struct TableView {
    pub header: Seq<Seq<char>>,
    pub rows: Seq<Seq<Seq<char>>>,
    pub widths: Seq<int>,
    pub padding: int,
}

/// The greatest display width in column `i` of a table with this header and these rows.
pub open spec fn column_max(header: Seq<Seq<char>>, rows: Seq<Seq<Seq<char>>>, i: int) -> nat
    decreases rows.len(),
{
    if rows.len() == 0 {
        display_width_of(header[i])
    } else {
        let w = column_max(header, rows.drop_last(), i);
        let c = display_width_of(rows.last()[i]);
        if w >= c { w } else { c }
    }
}

/// The greatest width in a column does not depend on where a row stands.
pub proof fn lemma_column_max_insert(header: Seq<Seq<char>>, rows: Seq<Seq<Seq<char>>>, k: int, r: Seq<Seq<char>>, i: int)
    requires
        0 <= k <= rows.len(),
    ensures
        column_max(header, rows.insert(k, r), i) == column_max(header, rows.push(r), i),
    decreases rows.len(),
{
    if k < rows.len() {
        let ins = rows.insert(k, r);
        assert(ins.drop_last() =~= rows.drop_last().insert(k, r));
        assert(ins.last() == rows.last());
        lemma_column_max_insert(header, rows.drop_last(), k, r, i);
        assert(rows.push(r).drop_last() =~= rows);
        assert(rows.push(r).last() == r);
        assert(rows.drop_last().push(r).drop_last() =~= rows.drop_last());
        assert(rows.drop_last().push(r).last() == r);
        let a = column_max(header, rows.drop_last(), i);
        let dr = display_width_of(r[i]);
        let dl = display_width_of(rows.last()[i]);
        assert(column_max(header, rows.drop_last().push(r), i) == if a >= dr { a } else { dr });
        assert(column_max(header, rows, i) == if a >= dl { a } else { dl });
        assert(column_max(header, ins, i) == {
            let b = column_max(header, ins.drop_last(), i);
            if b >= dl { b } else { dl }
        });
    } else {
        assert(rows.insert(k, r) =~= rows.push(r));
    }
}

/// No cell is wider than its column's greatest width.
pub proof fn lemma_column_max_bounds(header: Seq<Seq<char>>, rows: Seq<Seq<Seq<char>>>, i: int)
    ensures
        display_width_of(header[i]) <= column_max(header, rows, i),
        forall|r: int| 0 <= r < rows.len() ==> display_width_of(#[trigger] rows[r][i]) <= column_max(header, rows, i),
    decreases rows.len(),
{
    if rows.len() > 0 {
        lemma_column_max_bounds(header, rows.drop_last(), i);
        assert forall|r: int| 0 <= r < rows.len() implies display_width_of(#[trigger] rows[r][i]) <= column_max(header, rows, i) by {
            if r < rows.len() - 1 {
                assert(rows[r] == rows.drop_last()[r]);
            }
        }
    }
}

/// The width of each column: the greatest display width in it.
pub open spec fn column_widths(header: Seq<Seq<char>>, rows: Seq<Seq<Seq<char>>>) -> Seq<int> {
    Seq::new(header.len(), |i: int| column_max(header, rows, i) as int)
}

/// The cells `items` fitted to `n` columns: extra cells dropped, missing ones empty.
pub open spec fn fit_row(items: Seq<Seq<char>>, n: int) -> Seq<Seq<char>> {
    Seq::new(n as nat, |i: int| if i < items.len() { items[i] } else { Seq::empty() })
}

/// `k` spaces.
pub open spec fn spaces(k: int) -> Seq<char> {
    Seq::new(k as nat, |i: int| ' ')
}

/// A column's width plus the padding, capped at `usize::MAX`.
pub open spec fn padded_width(w: int, padding: int) -> int {
    if w + padding > usize::MAX { usize::MAX as int } else { w + padding }
}

/// A cell followed by the spaces that bring it to width `w` plus the padding.
pub open spec fn cell_text(cell: Seq<char>, w: int, padding: int) -> Seq<char> {
    cell + spaces(padded_width(w, padding) - display_width_of(cell))
}

/// A row's cells, each padded to its column's width, one after another.
pub open spec fn line_text(cells: Seq<Seq<char>>, widths: Seq<int>, padding: int) -> Seq<char>
    decreases cells.len(),
{
    if cells.len() == 0 {
        Seq::empty()
    } else {
        line_text(cells.drop_last(), widths, padding) + cell_text(cells.last(), widths[cells.len() - 1], padding)
    }
}

/// The rows, each as a line ended by a newline.
pub open spec fn rows_text(rows: Seq<Seq<Seq<char>>>, widths: Seq<int>, padding: int) -> Seq<char>
    decreases rows.len(),
{
    if rows.len() == 0 {
        Seq::empty()
    } else {
        rows_text(rows.drop_last(), widths, padding) + line_text(rows.last(), widths, padding) + seq!['\n']
    }
}

/// The text of a table: the header line, then one line per row, each ended by a newline.
pub open spec fn table_text(header: Seq<Seq<char>>, rows: Seq<Seq<Seq<char>>>, widths: Seq<int>, padding: int) -> Seq<char> {
    line_text(header, widths, padding) + seq!['\n'] + rows_text(rows, widths, padding)
}

impl View for SimpleTable {
    type V = TableView;

    closed spec fn view(&self) -> TableView {
        TableView {
            header: crate::text::texts_of(self.items@),
            rows: self.line@.map_values(|r: Vec<String>| crate::text::texts_of(r@)),
            widths: self.length@.map_values(|w: usize| w as int),
            padding: self.padding as int,
        }
    }
}

impl SimpleTable {
    /// Every row has one cell per header cell, and each column's width is the greatest
    /// display width in it. Every table keeps this.
    #[verifier::type_invariant]
    pub open spec fn wf(&self) -> bool {
        &&& forall|r: int| 0 <= r < self@.rows.len() ==> (#[trigger] self@.rows[r]).len() == self@.header.len()
        &&& self@.widths == column_widths(self@.header, self@.rows)
    }

    /// A table with this header, no rows, and two spaces after every cell.
    pub fn new(items: Vec<String>) -> (t: SimpleTable)
        ensures
            t.wf(),
            t@.header == crate::text::texts_of(items@),
            t@.rows.len() == 0,
            t@.padding == 2,
    {
        Self::new_with_padding(items, 2)
    }

    /// A table with this header, no rows, and `padding` spaces after every cell.
    pub fn new_with_padding(items: Vec<String>, padding: usize) -> (t: SimpleTable)
        ensures
            t.wf(),
            t@.header == crate::text::texts_of(items@),
            t@.rows.len() == 0,
            t@.padding == padding,
    {
        let mut length: Vec<usize> = Vec::new();
        let mut i: usize = 0;
        while i < items.len()
            invariant
                i <= items.len(),
                length@.len() == i,
                forall|j: int| 0 <= j < i ==> length@[j] == display_width_of(#[trigger] items@[j]@),
            decreases items.len() - i,
        {
            length.push(display_width(items[i].as_str()));
            i = i + 1;
        }
        let line: Vec<Vec<String>> = Vec::new();
        assert(length@.map_values(|w: usize| w as int) =~= column_widths(
            crate::text::texts_of(items@),
            line@.map_values(|r: Vec<String>| crate::text::texts_of(r@)),
        ));
        let t = SimpleTable { items, line, length, padding };
        proof {
            use_type_invariant(&t);
        }
        t
    }

    /// The cells `items` fitted to the number of columns.
    fn fit(&self, items: Vec<String>) -> (r: Vec<String>)
        ensures
            crate::text::texts_of(r@) == fit_row(crate::text::texts_of(items@), self@.header.len() as int),
    {
        let mut processed: Vec<String> = Vec::new();
        let mut i: usize = 0;
        while i < self.items.len()
            invariant
                i <= self.items@.len(),
                crate::text::texts_of(processed@) =~= fit_row(crate::text::texts_of(items@), self@.header.len() as int).take(i as int),
                self@.header.len() == self.items@.len(),
            decreases self.items.len() - i,
        {
            let ghost before = crate::text::texts_of(processed@);
            if i < items.len() {
                processed.push(items[i].clone());
            } else {
                processed.push(String::new());
            }
            assert(crate::text::texts_of(processed@) =~= before.push(fit_row(crate::text::texts_of(items@), self@.header.len() as int)[i as int]));
            i = i + 1;
        }
        processed
    }

    /// The widths with the cells `row` taken into account.
    fn widened(&self, row: &Vec<String>) -> (w: Vec<usize>)
        requires
            row@.len() == self@.header.len(),
            self.wf(),
        ensures
            w@.map_values(|x: usize| x as int) == column_widths(self@.header, self@.rows.push(crate::text::texts_of(row@))),
    {
        let ghost rows1 = self@.rows.push(crate::text::texts_of(row@));
        assert(self@.widths.len() == self.length@.len());
        assert(self@.header.len() == self.items@.len());
        assert(rows1.len() == self@.rows.len() + 1);
        let mut w: Vec<usize> = Vec::new();
        let mut i: usize = 0;
        while i < self.length.len()
            invariant
                i <= self.length@.len(),
                self.length@.len() == self@.header.len(),
                row@.len() == self@.header.len(),
                self.wf(),
                rows1 == self@.rows.push(crate::text::texts_of(row@)),
                w@.len() == i,
                forall|j: int| 0 <= j < i ==> w@[j] == column_max(self@.header, rows1, j),
            decreases self.length.len() - i,
        {
            let d = display_width(row[i].as_str());
            let cur = self.length[i];
            proof {
                assert(rows1.drop_last() =~= self@.rows);
                assert(rows1.last()[i as int] == row@[i as int]@);
                assert(self@.widths[i as int] == cur as int);
                assert(column_widths(self@.header, self@.rows)[i as int] == column_max(self@.header, self@.rows, i as int));
                assert(cur == column_max(self@.header, self@.rows, i as int));
            }
            if d > cur {
                w.push(d);
            } else {
                w.push(cur);
            }
            i = i + 1;
        }
        assert(w@.map_values(|x: usize| x as int) =~= column_widths(self@.header, rows1));
        w
    }

    /// Adds a row at the end; its cells are fitted to the columns, which widen to hold them.
    pub fn push_item(&mut self, items: Vec<String>)
        ensures
            final(self).wf(),
            final(self)@.header == old(self)@.header,
            final(self)@.padding == old(self)@.padding,
            final(self)@.rows == old(self)@.rows.push(fit_row(crate::text::texts_of(items@), old(self)@.header.len() as int)),
    {
        proof {
            use_type_invariant(&*self);
        }
        let processed = self.fit(items);
        assert(processed@.len() == crate::text::texts_of(processed@).len());
        let w = self.widened(&processed);
        let ghost before = self@;
        let ghost row = crate::text::texts_of(processed@);
        let mut t = SimpleTable::new_with_padding(Vec::new(), 0);
        std::mem::swap(&mut t, self);
        let SimpleTable { items: header, line: mut rows, length: _, padding } = t;
        assert(crate::text::texts_of(header@) == before.header);
        assert(rows@.map_values(|r: Vec<String>| crate::text::texts_of(r@)) == before.rows);
        let ghost rows0 = rows@;
        rows.push(processed);
        assert(rows@.map_values(|r: Vec<String>| crate::text::texts_of(r@)) =~= before.rows.push(row));
        proof {
            assert forall|r: int| 0 <= r < before.rows.push(row).len() implies (#[trigger] before.rows.push(row)[r]).len() == before.header.len() by {
                if r < before.rows.len() {
                    assert(before.rows.push(row)[r] == before.rows[r]);
                }
            }
        }
        *self = SimpleTable { items: header, line: rows, length: w, padding };
        proof {
            use_type_invariant(&*self);
            assert(self@.rows =~= before.rows.push(row));
        }
    }

    /// Adds a row at position `index`; its cells are fitted to the columns, which widen to
    /// hold them.
    pub fn insert_item(&mut self, index: usize, items: Vec<String>)
        requires
            index <= old(self)@.rows.len(),
        ensures
            final(self).wf(),
            final(self)@.header == old(self)@.header,
            final(self)@.padding == old(self)@.padding,
            final(self)@.rows == old(self)@.rows.insert(index as int, fit_row(crate::text::texts_of(items@), old(self)@.header.len() as int)),
    {
        proof {
            use_type_invariant(&*self);
        }
        let processed = self.fit(items);
        assert(processed@.len() == crate::text::texts_of(processed@).len());
        let w = self.widened(&processed);
        let ghost row = crate::text::texts_of(processed@);
        let ghost before = self@;
        proof {
            assert forall|i: int| 0 <= i < self@.header.len() implies column_max(self@.header, self@.rows.insert(index as int, row), i)
                == column_max(self@.header, self@.rows.push(row), i) by {
                lemma_column_max_insert(self@.header, self@.rows, index as int, row, i);
            }
            assert(column_widths(self@.header, self@.rows.insert(index as int, row)) =~= column_widths(self@.header, self@.rows.push(row)));
        }
        let mut t = SimpleTable::new_with_padding(Vec::new(), 0);
        std::mem::swap(&mut t, self);
        let SimpleTable { items: header, line: mut rows, length: _, padding } = t;
        assert(crate::text::texts_of(header@) == before.header);
        assert(rows@.map_values(|r: Vec<String>| crate::text::texts_of(r@)) == before.rows);
        rows.insert(index, processed);
        assert(rows@.map_values(|r: Vec<String>| crate::text::texts_of(r@)) =~= before.rows.insert(index as int, row));
        proof {
            assert forall|r: int| 0 <= r < before.rows.insert(index as int, row).len() implies (#[trigger] before.rows.insert(index as int, row)[r]).len() == before.header.len() by {
                if r < index {
                    assert(before.rows.insert(index as int, row)[r] == before.rows[r]);
                } else if r > index {
                    assert(before.rows.insert(index as int, row)[r] == before.rows[r - 1]);
                }
            }
        }
        *self = SimpleTable { items: header, line: rows, length: w, padding };
        proof {
            use_type_invariant(&*self);
            assert(self@.rows =~= before.rows.insert(index as int, row));
        }
    }

    /// Appends the cells, each padded to its column's width, and a newline.
    fn push_line(&self, s: &mut String, cells: &Vec<String>)
        requires
            self.wf(),
            cells@.len() == self@.header.len(),
            forall|i: int| 0 <= i < cells@.len() ==> display_width_of(#[trigger] cells@[i]@) <= self@.widths[i],
        ensures
            final(s)@ == old(s)@ + line_text(crate::text::texts_of(cells@), self@.widths, self@.padding) + seq!['\n'],
    {
        let ghost s0 = s@;
        let ghost cv = crate::text::texts_of(cells@);
        let mut i: usize = 0;
        while i < cells.len()
            invariant
                i <= cells@.len(),
                cells@.len() == self@.header.len(),
                self.wf(),
                cv == crate::text::texts_of(cells@),
                forall|j: int| 0 <= j < cells@.len() ==> display_width_of(#[trigger] cells@[j]@) <= self@.widths[j],
                s@ == s0 + line_text(cv.take(i as int), self@.widths, self@.padding),
            decreases cells.len() - i,
        {
            let cell = &cells[i];
            let cur = display_width(cell.as_str());
            assert(self@.widths.len() == self@.header.len());
            assert(self@.widths[i as int] == self.length@[i as int]);
            assert(self@.padding == self.padding);
            let target = self.length[i].saturating_add(self.padding);
            s.append(cell.as_str());
            push_spaces(s, target - cur);
            proof {
                assert(cv.take(i + 1).drop_last() =~= cv.take(i as int));
                assert(cv.take(i + 1).last() == cell@);
                assert(s@ =~= s0 + line_text(cv.take(i + 1), self@.widths, self@.padding));
            }
            i = i + 1;
        }
        assert(cv.take(cells@.len() as int) =~= cv);
        push_char(s, '\n');
        assert(s@ =~= s0 + line_text(cv, self@.widths, self@.padding) + seq!['\n']);
    }

    /// The table as text: the header line, then one line per row, each cell padded to its
    /// column's width plus the padding (what `Display` writes).
    pub fn to_string(&self) -> (s: String)
        ensures
            s@ == table_text(self@.header, self@.rows, self@.widths, self@.padding),
    {
        proof {
            use_type_invariant(self);
        }
        let mut s = String::new();
        proof {
            assert forall|i: int| 0 <= i < self.items@.len() implies display_width_of(#[trigger] self.items@[i]@) <= self@.widths[i] by {
                lemma_column_max_bounds(self@.header, self@.rows, i);
            }
        }
        self.push_line(&mut s, &self.items);
        let ghost h = s@;
        let mut r: usize = 0;
        while r < self.line.len()
            invariant
                r <= self.line@.len(),
                self.wf(),
                h == line_text(self@.header, self@.widths, self@.padding) + seq!['\n'],
                s@ == h + rows_text(self@.rows.take(r as int), self@.widths, self@.padding),
            decreases self.line.len() - r,
        {
            let ghost s1 = s@;
            proof {
                assert(self@.rows[r as int] == crate::text::texts_of(self.line@[r as int]@));
                assert(self@.rows[r as int].len() == self@.header.len());
                assert forall|i: int| 0 <= i < self.line@[r as int]@.len() implies display_width_of(#[trigger] self.line@[r as int]@[i]@) <= self@.widths[i] by {
                    lemma_column_max_bounds(self@.header, self@.rows, i);
                    assert(self@.rows[r as int][i] == self.line@[r as int]@[i]@);
                }
            }
            self.push_line(&mut s, &self.line[r]);
            proof {
                let rows = self@.rows;
                assert(rows.take(r + 1).drop_last() =~= rows.take(r as int));
                assert(rows.take(r + 1).last() == rows[r as int]);
                assert(s@ =~= h + rows_text(rows.take(r + 1), self@.widths, self@.padding));
            }
            r = r + 1;
        }
        assert(self@.rows.take(self.line@.len() as int) =~= self@.rows);
        s
    }

    /// The width of each column.
    pub fn get_column_widths(&self) -> (r: &[usize])
        ensures
            r@.map_values(|x: usize| x as int) == self@.widths,
    {
        self.length.as_slice()
    }
}

} // verus!
