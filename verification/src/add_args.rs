//! The arguments of the `add` command: who paid, how much, for whom, and why.
use vstd::prelude::*;
use crate::amount::{amount_of, parse_amount};
use crate::bill::{BillItem, BillView};
use crate::complete::{is_for_flag, is_flag, run_end, lemma_run_end_bounds};
use crate::text::texts_of;
use crate::who::Who;

verus! {

/// What is missing from the arguments of `add`.
#[derive(Debug, Clone, Copy, PartialEq, Eq, Structural)]
pub enum AddArgsError {
    /// No amount after "--paid" or "-p", or one that is not a number.
    PaidRequired,
    /// No "--for" or "-f".
    ForMembersRequired,
    /// No payer.
    MemberRequired,
}

/// What has been read of the arguments of `add` so far.
pub struct AddScan {
    pub paid: Option<Seq<char>>,
    pub members: Option<Seq<Seq<char>>>,
    pub reason: Option<Seq<char>>,
    pub who: Option<Seq<char>>,
}

/// Whether `w` introduces the amount.
pub open spec fn is_paid_flag(w: Seq<char>) -> bool {
    w == "--paid"@ || w == "-p"@
}

/// Whether `w` introduces the reason.
pub open spec fn is_reason_flag(w: Seq<char>) -> bool {
    w == "--reason"@ || w == "-r"@ || w == "--message"@ || w == "-m"@
}

/// The word after position `i`, if there is one.
pub open spec fn next_word(args: Seq<Seq<char>>, i: int) -> Option<Seq<char>> {
    if i + 1 < args.len() { Some(args[i + 1]) } else { None }
}

/// Reads the arguments from position `i` on, left to right: an amount flag takes the next
/// word as the amount, a split flag takes the words up to the next flag as the people, a
/// reason flag takes the next word as the reason (each replacing what an earlier flag of its
/// kind gave), and the first other word is the payer.
pub open spec fn scan_add(args: Seq<Seq<char>>, i: int, s: AddScan) -> AddScan
    decreases args.len() + 1 - i,
{
    if i < 0 || i >= args.len() {
        s
    } else if is_paid_flag(args[i]) {
        scan_add(args, i + 2, AddScan { paid: next_word(args, i), ..s })
    } else if is_for_flag(args[i]) {
        proof {
            lemma_run_end_bounds(args, i + 1, args.len() as int);
        }
        let e = run_end(args, i + 1, args.len() as int);
        scan_add(args, e, AddScan { members: Some(args.subrange(i + 1, e)), ..s })
    } else if is_reason_flag(args[i]) {
        scan_add(args, i + 2, AddScan { reason: next_word(args, i), ..s })
    } else {
        scan_add(args, i + 1, AddScan { who: if s.who is Some { s.who } else { Some(args[i]) }, ..s })
    }
}

/// Nothing read yet.
pub open spec fn scan_start() -> AddScan {
    AddScan { paid: None, members: None, reason: None, who: None }
}

/// The bill that the arguments of `add` describe, or what is missing from them (checked in the
/// order: the amount, the people, the payer). Without a reason, the reason is "No reason".
pub open spec fn add_result(args: Seq<Seq<char>>) -> Result<BillView, AddArgsError> {
    let s = scan_add(args, 0, scan_start());
    if !(s.paid is Some && amount_of(s.paid->0) is Some) {
        Err(AddArgsError::PaidRequired)
    } else if s.members is None {
        Err(AddArgsError::ForMembersRequired)
    } else if s.who is None {
        Err(AddArgsError::MemberRequired)
    } else {
        Ok(BillView {
            payer: s.who->0,
            reason: match s.reason { Some(r) => r, None => "No reason"@ },
            paid: amount_of(s.paid->0)->0,
            split: s.members->0,
        })
    }
}

/// The characters of an optional word.
spec fn text_view(o: Option<String>) -> Option<Seq<char>> {
    match o {
        Some(t) => Some(t@),
        None => None,
    }
}

/// The characters of each of an optional list of words.
spec fn texts_view(o: Option<Vec<String>>) -> Option<Seq<Seq<char>>> {
    match o {
        Some(v) => Some(texts_of(v@)),
        None => None,
    }
}

/// What has been read, as plain values.
spec fn scan_view(paid: Option<String>, members: Option<Vec<String>>, reason: Option<String>, who: Option<String>) -> AddScan {
    AddScan { paid: text_view(paid), members: texts_view(members), reason: text_view(reason), who: text_view(who) }
}

/// The word after position `i`, if there is one.
fn word_after(args: &Vec<String>, i: usize) -> (r: Option<String>)
    requires
        i < args@.len(),
    ensures
        match r {
            Some(w) => next_word(texts_of(args@), i as int) == Some(w@),
            None => next_word(texts_of(args@), i as int) is None,
        },
{
    if i < args.len() - 1 {
        Some(args[i + 1].clone())
    } else {
        None
    }
}

/// Whether the word `w` starts with '-'.
fn dash_first(w: &String) -> (r: bool)
    ensures
        r == is_flag(w@),
{
    let cs = crate::text::chars_of(w.as_str());
    cs.len() > 0 && cs[0] == '-'
}

/// The bill that the arguments of `add` describe: the payer, "--paid"/"-p" and the amount,
/// "--for"/"-f" and the people (up to the next flag), "--reason"/"-r"/"--message"/"-m" and
/// the reason; or what is missing from them.
pub fn parse_add_args(args: &Vec<String>) -> (r: Result<BillItem, AddArgsError>)
    ensures
        match r {
            Ok(b) => add_result(texts_of(args@)) == Ok::<BillView, AddArgsError>(b@),
            Err(e) => add_result(texts_of(args@)) == Err::<BillView, AddArgsError>(e),
        },
{
    let ghost ws = texts_of(args@);
    let paid_long = "--paid".to_owned();
    let paid_short = "-p".to_owned();
    let for_long = "--for".to_owned();
    let for_short = "-f".to_owned();
    let reason_long = "--reason".to_owned();
    let reason_short = "-r".to_owned();
    let message_long = "--message".to_owned();
    let message_short = "-m".to_owned();
    let mut paid_text: Option<String> = None;
    let mut members: Option<Vec<String>> = None;
    let mut reason: Option<String> = None;
    let mut who: Option<String> = None;
    let mut i: usize = 0;
    while i < args.len()
        invariant
            i <= args@.len(),
            ws == texts_of(args@),
            paid_long@ == "--paid"@ && paid_short@ == "-p"@,
            for_long@ == "--for"@ && for_short@ == "-f"@,
            reason_long@ == "--reason"@ && reason_short@ == "-r"@,
            message_long@ == "--message"@ && message_short@ == "-m"@,
            scan_add(ws, i as int, scan_view(paid_text, members, reason, who)) == scan_add(ws, 0, scan_start()),
        decreases args.len() - i,
    {
        let w = &args[i];
        let ghost before = scan_view(paid_text, members, reason, who);
        let ghost i0 = i as int;
        assert(w@ == ws[i as int]);
        if *w == paid_long || *w == paid_short {
            paid_text = word_after(args, i);
            i = if i < args.len() - 1 { i + 2 } else { args.len() };
            assert(is_paid_flag(ws[i0]));
            assert(scan_add(ws, i0, before) == scan_add(ws, i0 + 2, AddScan { paid: next_word(ws, i0), ..before }));
            assert(scan_add(ws, i0 + 2, AddScan { paid: next_word(ws, i0), ..before }) == scan_add(ws, i as int, scan_view(paid_text, members, reason, who)));
        } else if *w == for_long || *w == for_short {
            let mut names: Vec<String> = Vec::new();
            let mut j = i + 1;
            proof {
                lemma_run_end_bounds(ws, i + 1, ws.len() as int);
            }
            while j < args.len() && !dash_first(&args[j])
                invariant
                    i < j <= args@.len(),
                    ws == texts_of(args@),
                    run_end(ws, i + 1, ws.len() as int) == run_end(ws, j as int, ws.len() as int),
                    texts_of(names@) == ws.subrange(i + 1, j as int),
                decreases args.len() - j,
            {
                let name = args[j].clone();
                assert(name@ == ws[j as int]);
                let ghost n0 = texts_of(names@);
                names.push(name);
                assert(texts_of(names@) =~= n0.push(ws[j as int]));
                assert(ws.subrange(i + 1, j + 1) =~= ws.subrange(i + 1, j as int).push(ws[j as int]));
                j = j + 1;
            }
            assert(run_end(ws, j as int, ws.len() as int) == j);
            proof {
                assert(!is_paid_flag(ws[i0]));
                assert(is_for_flag(ws[i0]));
                lemma_run_end_bounds(ws, i0 + 1, ws.len() as int);
                assert(scan_add(ws, i0, before) == scan_add(ws, j as int, AddScan { members: Some(ws.subrange(i0 + 1, j as int)), ..before }));
            }
            members = Some(names);
            i = j;
        } else if *w == reason_long || *w == reason_short || *w == message_long || *w == message_short {
            reason = word_after(args, i);
            i = if i < args.len() - 1 { i + 2 } else { args.len() };
            assert(!is_paid_flag(ws[i0]) && !is_for_flag(ws[i0]) && is_reason_flag(ws[i0]));
            assert(scan_add(ws, i0, before) == scan_add(ws, i0 + 2, AddScan { reason: next_word(ws, i0), ..before }));
        } else {
            assert(!is_paid_flag(ws[i0]) && !is_for_flag(ws[i0]) && !is_reason_flag(ws[i0]));
            if who.is_none() {
                who = Some(w.clone());
            }
            i = i + 1;
        }
    }
    let ghost s = scan_add(ws, 0, scan_start());
    assert(s == scan_view(paid_text, members, reason, who));
    let paid = match paid_text {
        Some(t) => parse_amount(t.as_str()),
        None => None,
    };
    let paid = match paid {
        Some(p) => p,
        None => {
            return Err(AddArgsError::PaidRequired);
        },
    };
    let members = match members {
        Some(m) => m,
        None => {
            return Err(AddArgsError::ForMembersRequired);
        },
    };
    let who = match who {
        Some(w) => w,
        None => {
            return Err(AddArgsError::MemberRequired);
        },
    };
    let reason = match reason {
        Some(r) => r,
        None => "No reason".to_owned(),
    };
    let mut split: Vec<Who> = Vec::new();
    let mut k: usize = 0;
    while k < members.len()
        invariant
            k <= members@.len(),
            crate::bill::names_of(split@) == texts_of(members@).take(k as int),
        decreases members.len() - k,
    {
        let ghost s0 = crate::bill::names_of(split@);
        split.push(Who::new(members[k].as_str()));
        assert(crate::bill::names_of(split@) =~= s0.push(members@[k as int]@));
        assert(texts_of(members@).take(k + 1) =~= texts_of(members@).take(k as int).push(members@[k as int]@));
        k = k + 1;
    }
    assert(texts_of(members@).take(members@.len() as int) =~= texts_of(members@));
    Ok(BillItem { who_paid: Who::new(who.as_str()), reason, paid, split })
}


/// A run of words that are not flags, followed by a flag, ends at that flag.
proof fn lemma_run_to_flag(ws: Seq<Seq<char>>, j: int, m: int)
    requires
        0 <= j,
        0 <= m,
        j + m < ws.len(),
        forall|q: int| j <= q < j + m ==> !is_flag(#[trigger] ws[q]),
        is_flag(ws[j + m]),
    ensures
        run_end(ws, j, ws.len() as int) == j + m,
    decreases m,
{
    if m > 0 {
        assert(!is_flag(ws[j]));
        lemma_run_to_flag(ws, j + 1, m - 1);
    }
}

/// The amount flags, the split flags and the reason flags are flags, and no word is of two kinds.
proof fn lemma_flag_kinds(w: Seq<char>)
    ensures
        (w == "--paid"@ || w == "-p"@) ==> is_paid_flag(w) && !is_for_flag(w) && !is_reason_flag(w) && is_flag(w),
        (w == "--for"@ || w == "-f"@) ==> !is_paid_flag(w) && is_for_flag(w) && !is_reason_flag(w) && is_flag(w),
        is_reason_flag(w) ==> !is_paid_flag(w) && !is_for_flag(w) && is_flag(w),
        !is_flag(w) ==> !is_paid_flag(w) && !is_for_flag(w) && !is_reason_flag(w),
{
    reveal_strlit("-p");
    reveal_strlit("--paid");
    reveal_strlit("-f");
    reveal_strlit("--for");
    reveal_strlit("-r");
    reveal_strlit("--reason");
    reveal_strlit("-m");
    reveal_strlit("--message");
    assert("-p"@.len() == 2 && "-f"@.len() == 2 && "-r"@.len() == 2 && "-m"@.len() == 2);
    assert("--paid"@.len() == 6 && "--for"@.len() == 5 && "--reason"@.len() == 8 && "--message"@.len() == 9);
    assert("-p"@[1] == 'p' && "-f"@[1] == 'f' && "-r"@[1] == 'r' && "-m"@[1] == 'm');
    assert("-p"@[0] == '-' && "-f"@[0] == '-' && "-r"@[0] == '-' && "-m"@[0] == '-');
    assert("--paid"@[0] == '-' && "--for"@[0] == '-' && "--reason"@[0] == '-' && "--message"@[0] == '-');
}

/// What `add` reads from a payer, an amount flag ("--paid" or "-p") and an amount, a split
/// flag ("--for" or "-f") and the people, then a reason flag ("--reason", "-r", "--message"
/// or "-m") and a reason: the bill of that payer, amount and people, whose reason is the word
/// after the reason flag, whatever that word is.
pub proof fn lemma_add_reads_reason(who: Seq<char>, pflag: Seq<char>, a: Seq<char>, fflag: Seq<char>, names: Seq<Seq<char>>, flag: Seq<char>, reason: Seq<char>)
    requires
        !is_flag(who),
        pflag == "--paid"@ || pflag == "-p"@,
        amount_of(a) is Some,
        fflag == "--for"@ || fflag == "-f"@,
        forall|q: int| 0 <= q < names.len() ==> !is_flag(#[trigger] names[q]),
        flag == "--reason"@ || flag == "-r"@ || flag == "--message"@ || flag == "-m"@,
    ensures
        add_result(seq![who, pflag, a, fflag] + names + seq![flag, reason]) == Ok::<BillView, AddArgsError>(BillView {
            payer: who,
            reason: reason,
            paid: amount_of(a)->0,
            split: names,
        }),
{
    lemma_flag_kinds(who);
    lemma_flag_kinds(pflag);
    lemma_flag_kinds(fflag);
    lemma_flag_kinds(flag);
    let ws = seq![who, pflag, a, fflag] + names + seq![flag, reason];
    let m = names.len() as int;
    assert(ws.len() == m + 6);
    assert(ws[0] == who);
    assert(ws[1] == pflag);
    assert(ws[3] == fflag);
    assert(ws[4 + m] == flag);
    assert(next_word(ws, 1) == Some(a));
    assert forall|q: int| 4 <= q < 4 + m implies !is_flag(#[trigger] ws[q]) by {
        assert(ws[q] == names[q - 4]);
    }
    lemma_run_to_flag(ws, 4, m);
    assert(ws.subrange(4, 4 + m) =~= names);
    assert(next_word(ws, 4 + m) == Some(reason));
    let s0 = scan_start();
    let s1 = AddScan { who: Some(who), ..s0 };
    let s2 = AddScan { paid: Some(a), ..s1 };
    let s3 = AddScan { members: Some(names), ..s2 };
    let s4 = AddScan { reason: Some(reason), ..s3 };
    assert(scan_add(ws, 6 + m, s4) == s4);
    assert(scan_add(ws, 4 + m, s3) == s4);
    assert(scan_add(ws, 3, s2) == scan_add(ws, 4 + m, s3));
    assert(scan_add(ws, 1, s1) == scan_add(ws, 3, s2));
    assert(scan_add(ws, 0, s0) == scan_add(ws, 1, s1));
}

/// Without a reason flag, `add` reads a payer, an amount flag and an amount, and a split flag
/// and the people as the bill of that payer, amount and people, with the reason "No reason".
pub proof fn lemma_add_default_reason(who: Seq<char>, pflag: Seq<char>, a: Seq<char>, fflag: Seq<char>, names: Seq<Seq<char>>)
    requires
        !is_flag(who),
        pflag == "--paid"@ || pflag == "-p"@,
        amount_of(a) is Some,
        fflag == "--for"@ || fflag == "-f"@,
        forall|q: int| 0 <= q < names.len() ==> !is_flag(#[trigger] names[q]),
    ensures
        add_result(seq![who, pflag, a, fflag] + names) == Ok::<BillView, AddArgsError>(BillView {
            payer: who,
            reason: "No reason"@,
            paid: amount_of(a)->0,
            split: names,
        }),
{
    lemma_flag_kinds(who);
    lemma_flag_kinds(pflag);
    lemma_flag_kinds(fflag);
    let ws = seq![who, pflag, a, fflag] + names;
    let m = names.len() as int;
    assert(ws.len() == m + 4);
    assert(ws[0] == who);
    assert(ws[1] == pflag);
    assert(ws[3] == fflag);
    assert(next_word(ws, 1) == Some(a));
    assert forall|q: int| 4 <= q < 4 + m implies !is_flag(#[trigger] ws[q]) by {
        assert(ws[q] == names[q - 4]);
    }
    lemma_run_to_end(ws, 4, m);
    assert(ws.subrange(4, 4 + m) =~= names);
    let s0 = scan_start();
    let s1 = AddScan { who: Some(who), ..s0 };
    let s2 = AddScan { paid: Some(a), ..s1 };
    let s3 = AddScan { members: Some(names), ..s2 };
    assert(scan_add(ws, 4 + m, s3) == s3);
    assert(scan_add(ws, 3, s2) == scan_add(ws, 4 + m, s3));
    assert(scan_add(ws, 1, s1) == scan_add(ws, 3, s2));
    assert(scan_add(ws, 0, s0) == scan_add(ws, 1, s1));
}

/// A run of words that are not flags up to the end of the words ends at the end.
proof fn lemma_run_to_end(ws: Seq<Seq<char>>, j: int, m: int)
    requires
        0 <= j,
        0 <= m,
        j + m == ws.len(),
        forall|q: int| j <= q < j + m ==> !is_flag(#[trigger] ws[q]),
    ensures
        run_end(ws, j, ws.len() as int) == j + m,
    decreases m,
{
    if m > 0 {
        assert(!is_flag(ws[j]));
        lemma_run_to_end(ws, j + 1, m - 1);
    }
}

} // verus!
