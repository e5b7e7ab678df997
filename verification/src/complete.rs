//! Shell completion for the people a bill is split between.
use vstd::prelude::*;
use crate::text::texts_of;

verus! {

/// Whether `w` is the flag that introduces the people a bill is split between.
pub open spec fn is_for_flag(w: Seq<char>) -> bool {
    w == "-f"@ || w == "--for"@
}

/// Whether `w` is a flag: a word that starts with '-'.
pub open spec fn is_flag(w: Seq<char>) -> bool {
    w.len() > 0 && w[0] == '-'
}

/// Where the run of words from `j` on ends: at the first flag at or after `j`, or at `end`.
pub open spec fn run_end(ws: Seq<Seq<char>>, j: int, end: int) -> int
    decreases end - j,
{
    if j >= end || is_flag(ws[j]) { j } else { run_end(ws, j + 1, end) }
}

/// The words after the flag at `i`, up to the next flag or to `end`.
pub open spec fn names_after(ws: Seq<Seq<char>>, i: int, end: int) -> Seq<Seq<char>> {
    ws.subrange(i + 1, run_end(ws, i + 1, end))
}

/// The names typed after each split flag among the first `k` words, flag by flag, when the
/// words before `end` are looked at.
pub open spec fn typed_upto(ws: Seq<Seq<char>>, k: int, end: int) -> Seq<Seq<char>>
    decreases k,
{
    if k <= 0 {
        Seq::empty()
    } else {
        typed_upto(ws, k - 1, end) + if is_for_flag(ws[k - 1]) { names_after(ws, k - 1, end) } else { Seq::empty() }
    }
}

/// Whether a split flag stands among the first `end` words.
pub open spec fn has_for_flag(ws: Seq<Seq<char>>, end: int) -> bool {
    exists|i: int| 0 <= i < end && is_for_flag(#[trigger] ws[i])
}

/// The names `ms` that are not among `typed`, in their order.
pub open spec fn not_typed(ms: Seq<Seq<char>>, typed: Seq<Seq<char>>) -> Seq<Seq<char>>
    decreases ms.len(),
{
    if ms.len() == 0 {
        Seq::empty()
    } else {
        let r = not_typed(ms.drop_last(), typed);
        if typed.contains(ms.last()) { r } else { r.push(ms.last()) }
    }
}

/// The run of words from `j` on is no longer than the words up to `end`.
pub proof fn lemma_run_end_bounds(ws: Seq<Seq<char>>, j: int, end: int)
    requires
        j <= end,
    ensures
        j <= run_end(ws, j, end) <= end,
    decreases end - j,
{
    if !(j >= end || is_flag(ws[j])) {
        lemma_run_end_bounds(ws, j + 1, end);
    }
}

/// Whether the word `w` starts with '-'.
fn starts_with_dash(w: &String) -> (r: bool)
    ensures
        r == is_flag(w@),
{
    let cs = crate::text::chars_of(w.as_str());
    cs.len() > 0 && cs[0] == '-'
}

/// The names typed so far after the split flags ("-f" or "--for") among the words before
/// `word_index`: for each such flag, the words after it up to the next flag or to
/// `word_index`. `None` when no such flag was typed.
pub fn typed_names(words: &Vec<String>, word_index: usize) -> (r: Option<Vec<String>>)
    requires
        word_index <= words@.len(),
    ensures
        match r {
            Some(v) => has_for_flag(texts_of(words@), word_index as int)
                && texts_of(v@) == typed_upto(texts_of(words@), word_index as int, word_index as int),
            None => !has_for_flag(texts_of(words@), word_index as int),
        },
{
    let ghost ws = texts_of(words@);
    let ghost end = word_index as int;
    let short_flag = "-f".to_owned();
    let long_flag = "--for".to_owned();
    let mut found = false;
    let mut typed: Vec<String> = Vec::new();
    let mut i: usize = 0;
    while i < word_index
        invariant
            i <= word_index <= words@.len(),
            ws == texts_of(words@),
            end == word_index as int,
            short_flag@ == "-f"@,
            long_flag@ == "--for"@,
            texts_of(typed@) == typed_upto(ws, i as int, end),
            found == has_for_flag(ws, i as int),
        decreases word_index - i,
    {
        let flag = words[i] == short_flag || words[i] == long_flag;
        assert(flag == is_for_flag(ws[i as int]));
        let ghost before = texts_of(typed@);
        if flag {
            let mut j = i + 1;
            proof {
                lemma_run_end_bounds(ws, i + 1, end);
            }
            while j < word_index && !starts_with_dash(&words[j])
                invariant
                    i < j <= word_index <= words@.len(),
                    ws == texts_of(words@),
                    end == word_index as int,
                    run_end(ws, i + 1, end) == run_end(ws, j as int, end),
                    texts_of(typed@) == before + ws.subrange(i + 1, j as int),
                decreases word_index - j,
            {
                let w = words[j].clone();
                assert(w@ == ws[j as int]);
                let ghost t0 = texts_of(typed@);
                typed.push(w);
                assert(texts_of(typed@) =~= t0.push(ws[j as int]));
                assert(ws.subrange(i + 1, j + 1) =~= ws.subrange(i + 1, j as int).push(ws[j as int]));
                assert(texts_of(typed@) =~= before + ws.subrange(i + 1, j + 1));
                j = j + 1;
            }
            assert(run_end(ws, j as int, end) == j);
            found = true;
        } else {
            assert(texts_of(typed@) =~= before + Seq::<Seq<char>>::empty());
        }
        proof {
            assert(typed_upto(ws, i + 1, end) == typed_upto(ws, i as int, end) + if is_for_flag(ws[i as int]) { names_after(ws, i as int, end) } else { Seq::empty() });
            if flag {
                assert(is_for_flag(ws[i as int]));
            } else if has_for_flag(ws, i + 1) {
                let k = choose|k: int| 0 <= k < i + 1 && is_for_flag(#[trigger] ws[k]);
                assert(k != i);
            }
        }
        i = i + 1;
    }
    if found {
        Some(typed)
    } else {
        None
    }
}

/// The people to offer when completing a name: the members not typed yet, in their order.
pub fn suggest_names(members: &Vec<String>, typed: &Vec<String>) -> (r: Vec<String>)
    ensures
        texts_of(r@) == not_typed(texts_of(members@), texts_of(typed@)),
        forall|n: Seq<char>| #[trigger] texts_of(r@).contains(n) <==> (texts_of(members@).contains(n) && !texts_of(typed@).contains(n)),
{
    let ghost ms = texts_of(members@);
    let ghost ts = texts_of(typed@);
    let mut r: Vec<String> = Vec::new();
    let mut i: usize = 0;
    while i < members.len()
        invariant
            i <= members@.len(),
            ms == texts_of(members@),
            ts == texts_of(typed@),
            texts_of(r@) == not_typed(ms.take(i as int), ts),
        decreases members.len() - i,
    {
        let mut seen = false;
        let mut j: usize = 0;
        while j < typed.len()
            invariant
                j <= typed@.len(),
                ts == texts_of(typed@),
                i < members@.len(),
                seen == exists|k: int| 0 <= k < j && ts[k] == members@[i as int]@,
            decreases typed.len() - j,
        {
            let same = typed[j] == members[i];
            assert(same == (ts[j as int] == members@[i as int]@));
            if same {
                seen = true;
            }
            proof {
                if exists|k: int| 0 <= k < j + 1 && ts[k] == members@[i as int]@ {
                    if !same {
                        let k = choose|k: int| 0 <= k < j + 1 && ts[k] == members@[i as int]@;
                        assert(k != j);
                    }
                }
                if same {
                    assert(ts[j as int] == members@[i as int]@);
                }
            }
            j = j + 1;
        }
        assert(ms.take(i + 1).drop_last() =~= ms.take(i as int));
        assert(ms.take(i + 1).last() == ms[i as int]);
        assert(seen == ts.contains(ms[i as int]));
        if !seen {
            r.push(members[i].clone());
            assert(texts_of(r@) =~= not_typed(ms.take(i as int), ts).push(ms[i as int]));
        }
        i = i + 1;
    }
    assert(ms.take(members@.len() as int) =~= ms);
    proof {
        lemma_not_typed(ms, ts);
    }
    r
}


/// What to offer the shell when it completes a word: nothing, names, or flags with what each
/// is for.
#[derive(Debug, PartialEq, Eq)]
pub enum Completion {
    Nothing,
    Names(Vec<String>),
    Flags(Vec<(String, String)>),
}

/// What a completion offers, as plain values.
pub enum CompletionView {
    Nothing,
    Names(Seq<Seq<char>>),
    Flags(Seq<(Seq<char>, Seq<char>)>),
}

/// The characters of each pair of words.
pub open spec fn pair_texts(v: Seq<(String, String)>) -> Seq<(Seq<char>, Seq<char>)> {
    v.map_values(|p: (String, String)| (p.0@, p.1@))
}

impl View for Completion {
    type V = CompletionView;

    open spec fn view(&self) -> CompletionView {
        match self {
            Completion::Nothing => CompletionView::Nothing,
            Completion::Names(v) => CompletionView::Names(texts_of(v@)),
            Completion::Flags(v) => CompletionView::Flags(pair_texts(v@)),
        }
    }
}

/// How many of `flags` equal `w`.
pub open spec fn flag_matches(w: Seq<char>, flags: Seq<Seq<char>>) -> nat
    decreases flags.len(),
{
    if flags.len() == 0 {
        0
    } else {
        flag_matches(w, flags.drop_last()) + if flags.last() == w { 1nat } else { 0nat }
    }
}

/// How many times the words `ws` hold one of `flags`: one count per word and equal flag.
pub open spec fn flag_hits(ws: Seq<Seq<char>>, flags: Seq<Seq<char>>) -> nat
    decreases ws.len(),
{
    if ws.len() == 0 {
        0
    } else {
        flag_hits(ws.drop_last(), flags) + flag_matches(ws.last(), flags)
    }
}

/// `n`, or 2 where it is more.
pub open spec fn at_most_two(n: nat) -> nat {
    if n < 2 { n } else { 2 }
}

/// Whether the word being completed is the value of one of `flags`, given once: the previous
/// word is one of them, and they occur fewer than twice among the words.
pub open spec fn filling_first(ws: Seq<Seq<char>>, previous: Seq<char>, flags: Seq<Seq<char>>) -> bool {
    flags.contains(previous) && flag_hits(ws, flags) < 2
}

/// The flags of `items` that are not typed yet: that no word of `ws` that is a flag equals.
pub open spec fn untyped_flags(items: Seq<(Seq<char>, Seq<char>)>, ws: Seq<Seq<char>>) -> Seq<(Seq<char>, Seq<char>)>
    decreases items.len(),
{
    if items.len() == 0 {
        Seq::empty()
    } else {
        let r = untyped_flags(items.drop_last(), ws);
        let it = items.last();
        if exists|i: int| 0 <= i < ws.len() && #[trigger] ws[i] == it.0 && is_flag(ws[i]) { r } else { r.push(it) }
    }
}

/// The flags of `add`, each with what it is for.
pub open spec fn add_flags() -> Seq<(Seq<char>, Seq<char>)> {
    seq![
        ("-p"@, "Payment amount"@),
        ("--paid"@, "Payment amount"@),
        ("-r"@, "Payment reason"@),
        ("--reason"@, "Payment reason"@),
        ("-f"@, "Who to pay for"@),
        ("--for"@, "Who to pay for"@),
    ]
}

/// What completing a word of `add` offers: nothing for the value of the amount or of the
/// reason; every member right after "add"; the members not typed yet after a split flag;
/// the flags not typed yet while a flag is being typed; nothing otherwise.
pub open spec fn add_completion(ws: Seq<Seq<char>>, word_index: int, previous: Seq<char>, current: Seq<char>, members: Seq<Seq<char>>) -> CompletionView {
    if filling_first(ws, previous, seq!["-p"@, "--paid"@]) {
        CompletionView::Nothing
    } else if filling_first(ws, previous, seq!["-r"@, "--reason"@]) {
        CompletionView::Nothing
    } else if previous == "add"@ {
        CompletionView::Names(not_typed(members, Seq::empty()))
    } else if has_for_flag(ws, word_index) {
        CompletionView::Names(not_typed(members, typed_upto(ws, word_index, word_index)))
    } else if is_flag(current) {
        CompletionView::Flags(untyped_flags(add_flags(), ws))
    } else {
        CompletionView::Nothing
    }
}

/// The editors that `edit` offers.
pub open spec fn editor_names() -> Seq<Seq<char>> {
    seq!["vi"@, "vim"@, "nvim"@, "helix"@, "nano"@]
}

/// The flags of `edit`, each with what it is for.
pub open spec fn edit_flags() -> Seq<(Seq<char>, Seq<char>)> {
    seq![("-e"@, "Specify editor to use"@), ("--editor"@, "Specify editor to use"@)]
}

/// What completing a word of `edit` offers: the editors for the value of the editor flag; the
/// flags not typed yet while a flag is being typed; nothing otherwise.
pub open spec fn edit_completion(ws: Seq<Seq<char>>, previous: Seq<char>, current: Seq<char>) -> CompletionView {
    if filling_first(ws, previous, seq!["-e"@, "--editor"@]) {
        CompletionView::Names(editor_names())
    } else if is_flag(current) {
        CompletionView::Flags(untyped_flags(edit_flags(), ws))
    } else {
        CompletionView::Nothing
    }
}

/// The flags of `ls`, each with what it is for.
pub open spec fn ls_flags() -> Seq<(Seq<char>, Seq<char>)> {
    seq![
        ("-O"@, "Output the bill optimized to the simplest result"@),
        ("--optimize"@, "Output the bill optimized to the simplest result"@),
    ]
}

/// What completing a word of `ls` offers: its flags while a flag is being typed.
pub open spec fn ls_completion(current: Seq<char>) -> CompletionView {
    if is_flag(current) { CompletionView::Flags(ls_flags()) } else { CompletionView::Nothing }
}

/// Whether the word being completed is the value of one of `flags`, given once: the previous
/// word is one of them, and they occur fewer than twice among all the words.
pub fn filling_argument_first(all_words: &Vec<String>, previous_word: &str, flags: &Vec<String>) -> (r: bool)
    ensures
        r == filling_first(texts_of(all_words@), previous_word@, texts_of(flags@)),
{
    let ghost ws = texts_of(all_words@);
    let ghost fs = texts_of(flags@);
    let prev = previous_word.to_owned();
    let mut is_value = false;
    let mut j: usize = 0;
    while j < flags.len()
        invariant
            j <= flags@.len(),
            fs == texts_of(flags@),
            prev@ == previous_word@,
            is_value == fs.take(j as int).contains(previous_word@),
        decreases flags.len() - j,
    {
        assert(fs.take(j + 1) =~= fs.take(j as int).push(fs[j as int]));
        if flags[j] == prev {
            is_value = true;
        }
        proof {
            let t = fs.take(j + 1);
            if t.contains(previous_word@) && !fs.take(j as int).contains(previous_word@) {
                let k = choose|k: int| 0 <= k < t.len() && t[k] == previous_word@;
                if k < j {
                    assert(fs.take(j as int)[k] == t[k]);
                }
            }
            if fs.take(j as int).contains(previous_word@) {
                let k = choose|k: int| 0 <= k < j && fs.take(j as int)[k] == previous_word@;
                assert(t[k] == previous_word@);
            }
            if flags@[j as int]@ == previous_word@ {
                assert(t[j as int] == previous_word@);
            }
        }
        j = j + 1;
    }
    assert(fs.take(flags@.len() as int) =~= fs);
    if !is_value {
        return false;
    }
    let mut hits: usize = 0;
    let mut i: usize = 0;
    while i < all_words.len()
        invariant
            i <= all_words@.len(),
            ws == texts_of(all_words@),
            fs == texts_of(flags@),
            hits == at_most_two(flag_hits(ws.take(i as int), fs)),
        decreases all_words.len() - i,
    {
        let mut k: usize = 0;
        while k < flags.len()
            invariant
                k <= flags@.len(),
                i < all_words@.len(),
                ws == texts_of(all_words@),
                fs == texts_of(flags@),
                hits == at_most_two(flag_hits(ws.take(i as int), fs) + flag_matches(ws[i as int], fs.take(k as int))),
            decreases flags.len() - k,
        {
            assert(fs.take(k + 1).drop_last() =~= fs.take(k as int));
            assert(fs.take(k + 1).last() == fs[k as int]);
            if all_words[i] == flags[k] && hits < 2 {
                hits = hits + 1;
            }
            k = k + 1;
        }
        assert(fs.take(flags@.len() as int) =~= fs);
        assert(ws.take(i + 1).drop_last() =~= ws.take(i as int));
        assert(ws.take(i + 1).last() == ws[i as int]);
        i = i + 1;
    }
    assert(ws.take(all_words@.len() as int) =~= ws);
    hits < 2
}

/// Whether a flag is being typed: the word being completed starts with '-'.
pub fn typing_argument(current_word: &str) -> (r: bool)
    ensures
        r == is_flag(current_word@),
{
    let cs = crate::text::chars_of(current_word);
    cs.len() > 0 && cs[0] == '-'
}

/// The flags of `items` that are not typed yet: that no word that is a flag equals.
pub fn strip_typed_arguments(all_words: &Vec<String>, items: Vec<(String, String)>) -> (r: Vec<(String, String)>)
    ensures
        pair_texts(r@) == untyped_flags(pair_texts(items@), texts_of(all_words@)),
{
    let ghost ws = texts_of(all_words@);
    let ghost its = pair_texts(items@);
    let mut r: Vec<(String, String)> = Vec::new();
    let mut i: usize = 0;
    while i < items.len()
        invariant
            i <= items@.len(),
            ws == texts_of(all_words@),
            its == pair_texts(items@),
            pair_texts(r@) == untyped_flags(its.take(i as int), ws),
        decreases items.len() - i,
    {
        let mut typed = false;
        let mut j: usize = 0;
        while j < all_words.len()
            invariant
                j <= all_words@.len(),
                i < items@.len(),
                ws == texts_of(all_words@),
                typed == exists|k: int| 0 <= k < j && #[trigger] ws[k] == items@[i as int].0@ && is_flag(ws[k]),
            decreases all_words.len() - j,
        {
            let same = all_words[j] == items[i].0;
            let flag = starts_with_dash(&all_words[j]);
            proof {
                if same && flag {
                    assert(ws[j as int] == items@[i as int].0@);
                }
                if exists|k: int| 0 <= k < j + 1 && #[trigger] ws[k] == items@[i as int].0@ && is_flag(ws[k]) {
                    if !(same && flag) {
                        let k = choose|k: int| 0 <= k < j + 1 && #[trigger] ws[k] == items@[i as int].0@ && is_flag(ws[k]);
                        assert(k != j);
                    }
                }
            }
            if same && flag {
                typed = true;
            }
            j = j + 1;
        }
        assert(its.take(i + 1).drop_last() =~= its.take(i as int));
        assert(its.take(i + 1).last() == its[i as int]);
        if !typed {
            let ghost r0 = pair_texts(r@);
            let item = (items[i].0.clone(), items[i].1.clone());
            r.push(item);
            assert(pair_texts(r@) =~= r0.push(its[i as int]));
        }
        i = i + 1;
    }
    assert(its.take(items@.len() as int) =~= its);
    r
}

/// A word as an owned string.
fn owned(s: &str) -> (r: String)
    ensures
        r@ == s@,
{
    s.to_owned()
}

/// Completes a word of `add`, given the words typed, the position of the word being completed,
/// the word before it, the word itself, and the members of the bills. The position may lie
/// beyond the words only where the answer does not look at them: while the value of the
/// amount or of the reason is being filled, or right after "add".
pub fn complete_add(all_words: &Vec<String>, word_index: usize, previous_word: &str, current_word: &str, members: &Vec<String>) -> (r: Completion)
    requires
        word_index <= all_words@.len() || filling_first(texts_of(all_words@), previous_word@, seq!["-p"@, "--paid"@])
            || filling_first(texts_of(all_words@), previous_word@, seq!["-r"@, "--reason"@]) || previous_word@ == "add"@,
    ensures
        r@ == add_completion(texts_of(all_words@), word_index as int, previous_word@, current_word@, texts_of(members@)),
{
    let paid_flags = vec![owned("-p"), owned("--paid")];
    assert(texts_of(paid_flags@) =~= seq!["-p"@, "--paid"@]);
    if filling_argument_first(all_words, previous_word, &paid_flags) {
        return Completion::Nothing;
    }
    let reason_flags = vec![owned("-r"), owned("--reason")];
    assert(texts_of(reason_flags@) =~= seq!["-r"@, "--reason"@]);
    if filling_argument_first(all_words, previous_word, &reason_flags) {
        return Completion::Nothing;
    }
    let prev = owned(previous_word);
    if prev == owned("add") {
        let none: Vec<String> = Vec::new();
        assert(texts_of(none@) =~= Seq::<Seq<char>>::empty());
        return Completion::Names(suggest_names(members, &none));
    }
    match typed_names(all_words, word_index) {
        Some(typed) => {
            return Completion::Names(suggest_names(members, &typed));
        },
        None => {},
    }
    if typing_argument(current_word) {
        let flags = vec![
            (owned("-p"), owned("Payment amount")),
            (owned("--paid"), owned("Payment amount")),
            (owned("-r"), owned("Payment reason")),
            (owned("--reason"), owned("Payment reason")),
            (owned("-f"), owned("Who to pay for")),
            (owned("--for"), owned("Who to pay for")),
        ];
        assert(pair_texts(flags@) =~= add_flags());
        return Completion::Flags(strip_typed_arguments(all_words, flags));
    }
    Completion::Nothing
}

/// Completes a word of `edit`, given the words typed, the word before the one being completed,
/// and that word itself.
pub fn complete_edit(all_words: &Vec<String>, previous_word: &str, current_word: &str) -> (r: Completion)
    ensures
        r@ == edit_completion(texts_of(all_words@), previous_word@, current_word@),
{
    let editor_flags = vec![owned("-e"), owned("--editor")];
    assert(texts_of(editor_flags@) =~= seq!["-e"@, "--editor"@]);
    if filling_argument_first(all_words, previous_word, &editor_flags) {
        let editors = vec![owned("vi"), owned("vim"), owned("nvim"), owned("helix"), owned("nano")];
        assert(texts_of(editors@) =~= editor_names());
        return Completion::Names(editors);
    }
    if typing_argument(current_word) {
        let flags = vec![(owned("-e"), owned("Specify editor to use")), (owned("--editor"), owned("Specify editor to use"))];
        assert(pair_texts(flags@) =~= edit_flags());
        return Completion::Flags(strip_typed_arguments(all_words, flags));
    }
    Completion::Nothing
}

/// Completes a word of `ls`, given the word being completed.
pub fn complete_ls(current_word: &str) -> (r: Completion)
    ensures
        r@ == ls_completion(current_word@),
{
    if typing_argument(current_word) {
        let flags = vec![
            (owned("-O"), owned("Output the bill optimized to the simplest result")),
            (owned("--optimize"), owned("Output the bill optimized to the simplest result")),
        ];
        assert(pair_texts(flags@) =~= ls_flags());
        return Completion::Flags(flags);
    }
    Completion::Nothing
}


/// The names offered are exactly the members that are not among the names typed: no typed
/// name is ever offered again, whichever of the typed names it is, and every other member is.
pub proof fn lemma_not_typed(ms: Seq<Seq<char>>, typed: Seq<Seq<char>>)
    ensures
        forall|n: Seq<char>| #[trigger] not_typed(ms, typed).contains(n) <==> (ms.contains(n) && !typed.contains(n)),
    decreases ms.len(),
{
    if ms.len() > 0 {
        let rest = ms.drop_last();
        lemma_not_typed(rest, typed);
        assert forall|n: Seq<char>| #[trigger] not_typed(ms, typed).contains(n) <==> (ms.contains(n) && !typed.contains(n)) by {
            let r = not_typed(rest, typed);
            if ms.contains(n) {
                let i = choose|i: int| 0 <= i < ms.len() && ms[i] == n;
                if i < ms.len() - 1 {
                    assert(rest[i] == n);
                    assert(rest.contains(n));
                }
            }
            if rest.contains(n) {
                let i = choose|i: int| 0 <= i < rest.len() && rest[i] == n;
                assert(ms[i] == n);
            }
            assert(ms[ms.len() - 1] == ms.last());
            if !typed.contains(ms.last()) {
                let r2 = r.push(ms.last());
                assert(r2[r.len() as int] == ms.last());
                if r2.contains(n) {
                    let i = choose|i: int| 0 <= i < r2.len() && r2[i] == n;
                    if i < r.len() {
                        assert(r[i] == n);
                    }
                }
                if r.contains(n) {
                    let i = choose|i: int| 0 <= i < r.len() && r[i] == n;
                    assert(r2[i] == n);
                }
            }
        }
    }
}

/// The names offered keep the members' order: offering from two lists one after the other is
/// offering from the first, then from the second; and with nothing typed, every member is
/// offered, in order.
pub proof fn lemma_not_typed_order(a: Seq<Seq<char>>, b: Seq<Seq<char>>, typed: Seq<Seq<char>>)
    ensures
        not_typed(a + b, typed) == not_typed(a, typed) + not_typed(b, typed),
        not_typed(a, Seq::empty()) == a,
    decreases b.len(),
{
    if b.len() == 0 {
        assert(a + b =~= a);
        assert(not_typed(a, typed) + not_typed(b, typed) =~= not_typed(a, typed));
    } else {
        lemma_not_typed_order(a, b.drop_last(), typed);
        assert((a + b).drop_last() =~= a + b.drop_last());
        assert((a + b).last() == b.last());
        let l = not_typed(a, typed);
        let r = not_typed(b.drop_last(), typed);
        assert((l + r).push(b.last()) =~= l + r.push(b.last()));
    }
    lemma_nothing_typed(a);
}

/// With nothing typed, every member is offered, in order.
proof fn lemma_nothing_typed(a: Seq<Seq<char>>)
    ensures
        not_typed(a, Seq::empty()) == a,
    decreases a.len(),
{
    if a.len() > 0 {
        lemma_nothing_typed(a.drop_last());
        assert(!Seq::<Seq<char>>::empty().contains(a.last()));
        assert(a.drop_last().push(a.last()) =~= a);
    }
}

} // verus!
