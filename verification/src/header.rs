//! The header line that names the watched process.
use vstd::prelude::*;
use crate::diff_view::{styled_views, Styled, StyledView, TextColor};
use crate::error::FileErr;
use crate::text::{
    chars_of, dec_chars, dec_text, extend_chars, is_white_space, lemma_scan_space, lemma_scan_word,
    no_white_space, split_whitespace, string_from_chars, word_scan, words,
};

verus! {

pub open spec fn process_name_label() -> Seq<char> {
    seq!['P', 'r', 'o', 'c', 'e', 's', 's', ' ', 'n', 'a', 'm', 'e', ' ']
}

pub open spec fn pid_label() -> Seq<char> {
    seq![' ', 'p', 'i', 'd', ' ']
}

/// The description of a process: `"Process name "`, its name and `" pid "`
/// and its id, joined by single spaces
/// (`format!("{} {} {} {}", "Process name ", name, " pid ", pid)`).
pub open spec fn description_text(name: Seq<char>, pid: u32) -> Seq<char> {
    process_name_label() + seq![' '] + name + seq![' '] + pid_label() + seq![' '] + dec_text(
        pid as nat,
    )
}

/// Describes the process `name` with id `pid`, as the header shows it.
pub fn process_description(name: &str, pid: u32) -> (r: String)
    ensures
        r@ == description_text(name@, pid),
{
    let mut out = chars_of("Process name ");
    proof {
        reveal_strlit("Process name ");
    }
    assert(out@ =~= process_name_label());
    out.push(' ');
    extend_chars(&mut out, &chars_of(name));
    out.push(' ');
    let label = chars_of(" pid ");
    proof {
        reveal_strlit(" pid ");
    }
    assert(label@ =~= pid_label());
    extend_chars(&mut out, &label);
    out.push(' ');
    extend_chars(&mut out, &dec_chars(pid as u64));
    assert(out@ =~= description_text(name@, pid));
    string_from_chars(&out)
}

pub open spec fn colon_separator() -> Seq<char> {
    seq![' ', ':', ' ']
}

/// The styled pieces of the header for a description whose words are `w`:
/// the first, second and fourth words in white, the third and fifth in red,
/// separated by `" "`, `" : "`, `" "` and `" : "`.
pub open spec fn header_spans(w: Seq<Seq<char>>) -> Seq<StyledView> {
    seq![
        StyledView { text: w[0], color: TextColor::White },
        StyledView { text: seq![' '], color: TextColor::Plain },
        StyledView { text: w[1], color: TextColor::White },
        StyledView { text: colon_separator(), color: TextColor::Plain },
        StyledView { text: w[2], color: TextColor::Red },
        StyledView { text: seq![' '], color: TextColor::Plain },
        StyledView { text: w[3], color: TextColor::White },
        StyledView { text: colon_separator(), color: TextColor::Plain },
        StyledView { text: w[4], color: TextColor::Red },
    ]
}

fn plain(text: &str) -> (r: Styled)
    ensures
        r@ == (StyledView { text: text@, color: TextColor::Plain }),
{
    Styled { text: string_from_chars(&chars_of(text)), color: TextColor::Plain }
}

/// The styled header for a process description: its first five
/// white-space separated words, coloured and separated as
/// [`header_spans`] states.
pub fn info_proc_spans(info: &str) -> (r: Vec<Styled>)
    requires
        words(info@).len() >= 5,
    ensures
        styled_views(r@) == header_spans(words(info@)),
{
    let w = split_whitespace(info);
    let mut r: Vec<Styled> = Vec::new();
    proof {
        reveal_strlit(" ");
        reveal_strlit(" : ");
    }
    r.push(Styled { text: w[0].clone(), color: TextColor::White });
    r.push(plain(" "));
    r.push(Styled { text: w[1].clone(), color: TextColor::White });
    r.push(plain(" : "));
    r.push(Styled { text: w[2].clone(), color: TextColor::Red });
    r.push(plain(" "));
    r.push(Styled { text: w[3].clone(), color: TextColor::White });
    r.push(plain(" : "));
    r.push(Styled { text: w[4].clone(), color: TextColor::Red });
    assert(" "@ =~= seq![' ']);
    assert(" : "@ =~= colon_separator());
    assert(styled_views(r@) =~= header_spans(words(info@)));
    r
}


/// The words of a process description: `Process`, `name`, the process
/// name, `pid` and the id's digits.
pub open spec fn description_words(name: Seq<char>, pid: u32) -> Seq<Seq<char>> {
    seq![
        seq!['P', 'r', 'o', 'c', 'e', 's', 's'],
        seq!['n', 'a', 'm', 'e'],
        name,
        seq!['p', 'i', 'd'],
        dec_text(pid as nat),
    ]
}

proof fn lemma_dec_text_no_space(n: nat)
    ensures
        no_white_space(dec_text(n)),
        dec_text(n).len() > 0,
    decreases n,
{
    let t = dec_text(n);
    if n >= 10 {
        lemma_dec_text_no_space(n / 10);
        assert forall|j: int| 0 <= j < t.len() implies !is_white_space(#[trigger] t[j]) by {
            if j < t.len() - 1 {
                assert(t[j] == dec_text(n / 10)[j]);
            }
        }
    }
}

/// Law: a description of a process whose name is one non-empty word splits
/// into exactly five words, the name third and the id fifth; so the
/// header shows the name and the id in red.
pub proof fn lemma_description_words(name: Seq<char>, pid: u32)
    requires
        name.len() > 0,
        no_white_space(name),
    ensures
        words(description_text(name, pid)) == description_words(name, pid),
{
    let w_process = seq!['P', 'r', 'o', 'c', 'e', 's', 's'];
    let w_name = seq!['n', 'a', 'm', 'e'];
    let w_pid = seq!['p', 'i', 'd'];
    let sp1 = seq![' '];
    let sp2 = seq![' ', ' '];
    let digits = dec_text(pid as nat);
    lemma_dec_text_no_space(pid as nat);
    assert(no_white_space(w_process)) by {
        assert forall|j: int| 0 <= j < w_process.len() implies !is_white_space(
            #[trigger] w_process[j],
        ) by {}
    }
    assert(no_white_space(w_name)) by {
        assert forall|j: int| 0 <= j < w_name.len() implies !is_white_space(#[trigger] w_name[j]) by {}
    }
    assert(no_white_space(w_pid)) by {
        assert forall|j: int| 0 <= j < w_pid.len() implies !is_white_space(#[trigger] w_pid[j]) by {}
    }
    let e = Seq::<char>::empty();
    let a1 = e + w_process;
    let a2 = a1 + sp1;
    let a3 = a2 + w_name;
    let a4 = a3 + sp2;
    let a5 = a4 + name;
    let a6 = a5 + sp2;
    let a7 = a6 + w_pid;
    let a8 = a7 + sp2;
    let a9 = a8 + digits;
    assert(a9 =~= description_text(name, pid));
    assert(word_scan(e) == (Seq::<Seq<char>>::empty(), e));
    lemma_scan_word(e, w_process);
    assert(e + w_process =~= w_process);
    lemma_scan_space(a1, sp1);
    assert(words(a1) =~= seq![w_process]);
    lemma_scan_word(a2, w_name);
    assert(e + w_name =~= w_name);
    lemma_scan_space(a3, sp2);
    assert(words(a3) =~= seq![w_process, w_name]);
    lemma_scan_word(a4, name);
    assert(e + name =~= name);
    lemma_scan_space(a5, sp2);
    assert(words(a5) =~= seq![w_process, w_name, name]);
    lemma_scan_word(a6, w_pid);
    assert(e + w_pid =~= w_pid);
    lemma_scan_space(a7, sp2);
    assert(words(a7) =~= seq![w_process, w_name, name, w_pid]);
    lemma_scan_word(a8, digits);
    assert(e + digits =~= digits);
    assert(words(a9) =~= description_words(name, pid));
}

/// The description and the id that looking a process up by name gives,
/// from the matching processes in the order the process table lists them,
/// each with its name (`None` where the name is not valid UTF-8) and its
/// id: a process whose name is not UTF-8 makes the lookup fail; otherwise
/// the last match is described; no match fails.
pub open spec fn pick_process(c: Seq<(Option<Seq<char>>, u32)>) -> (Seq<char>, Result<u32, FileErr>) {
    if exists|i: int| 0 <= i < c.len() && (#[trigger] c[i]).0 is None {
        (Seq::<char>::empty(), Err(FileErr::ProcessErr))
    } else if c.len() == 0 {
        (Seq::<char>::empty(), Err(FileErr::ProcessErr))
    } else {
        (description_text(c.last().0->0, c.last().1), Ok(c.last().1))
    }
}

pub open spec fn candidate_views(c: Seq<(Option<String>, u32)>) -> Seq<(Option<Seq<char>>, u32)> {
    c.map_values(
        |x: (Option<String>, u32)|
            (
                match x.0 {
                    Some(n) => Some(n@),
                    None => None,
                },
                x.1,
            ),
    )
}

/// Chooses the process that a lookup by name reports, as [`pick_process`]
/// states.
pub fn choose_process(candidates: &Vec<(Option<String>, u32)>) -> (r: (String, Result<u32, FileErr>))
    ensures
        (r.0@, r.1) == pick_process(candidate_views(candidates@)),
{
    let ghost c = candidate_views(candidates@);
    let mut ret_string = String::new();
    let mut pid: Option<u32> = None;
    for i in 0..candidates.len()
        invariant
            c == candidate_views(candidates@),
            c.len() == candidates.len(),
            forall|j: int| 0 <= j < i ==> (#[trigger] c[j]).0 is Some,
            i == 0 ==> pid is None,
            i > 0 ==> pid == Some(c[i - 1].1) && ret_string@ == description_text(
                c[i - 1].0->0,
                c[i - 1].1,
            ),
    {
        let (name, p) = &candidates[i];
        assert(c[i as int].1 == *p);
        match name {
            None => {
                assert(c[i as int].0 is None);
                return (String::new(), Err(FileErr::ProcessErr));
            },
            Some(n) => {
                assert(c[i as int].0 == Some(n@));
                ret_string = process_description(n.as_str(), *p);
                pid = Some(*p);
            },
        }
    }
    match pid {
        Some(p) => {
            assert(c.last() == c[c.len() - 1]);
            (ret_string, Ok(p))
        },
        None => (String::new(), Err(FileErr::ProcessErr)),
    }
}

/// Law: a successful lookup describes one candidate, the last one listed:
/// the id returned is its id, and the description shows that same
/// candidate's name and id.
pub proof fn lemma_described_candidate(c: Seq<(Option<Seq<char>>, u32)>)
    ensures
        pick_process(c).1 matches Ok(p) ==> {
            &&& c.len() > 0
            &&& p == c[c.len() - 1].1
            &&& c[c.len() - 1].0 is Some
            &&& pick_process(c).0 == description_text(c[c.len() - 1].0->0, p)
        },
        pick_process(c).1 matches Ok(p) ==> exists|k: int|
            0 <= k < c.len() && (#[trigger] c[k]).1 == p && c[k].0 is Some && pick_process(c).0
                == description_text(c[k].0->0, p),
{
    if pick_process(c).1 is Ok {
        assert(c[c.len() - 1] == c.last());
    }
}

} // verus!
