//! Line diffs between two snapshot texts, and how they are coloured.
use vstd::prelude::*;

verus! {

/// Colour of a piece of text on screen.
#[derive(Debug, Clone, Copy, PartialEq, Eq, Structural)]
pub enum TextColor {
    /// The terminal's default style.
    Plain,
    White,
    Red,
    Green,
}

/// A piece of text with its colour.
#[derive(Debug, Clone, PartialEq, Eq)]
pub struct Styled {
    pub text: String,
    pub color: TextColor,
}

/// Mathematical form of a [`Styled`] piece.
pub struct StyledView {
    pub text: Seq<char>,
    pub color: TextColor,
}

impl View for Styled {
    type V = StyledView;

    open spec fn view(&self) -> StyledView {
        StyledView { text: self.text@, color: self.color }
    }
}

pub open spec fn styled_views(s: Seq<Styled>) -> Seq<StyledView> {
    s.map_values(|x: Styled| x@)
}

/// One line of a line diff: only in the left text, in both, or only in the
/// right text.
#[derive(Debug, Clone, PartialEq, Eq)]
pub enum DiffLine {
    Left(String),
    Both(String, String),
    Right(String),
}

/// Mathematical form of a [`DiffLine`].
pub enum DiffLineView {
    Left(Seq<char>),
    Both(Seq<char>, Seq<char>),
    Right(Seq<char>),
}

impl View for DiffLine {
    type V = DiffLineView;

    open spec fn view(&self) -> DiffLineView {
        match self {
            DiffLine::Left(l) => DiffLineView::Left(l@),
            DiffLine::Both(l, r) => DiffLineView::Both(l@, r@),
            DiffLine::Right(r) => DiffLineView::Right(r@),
        }
    }
}

pub open spec fn diff_views(d: Seq<DiffLine>) -> Seq<DiffLineView> {
    d.map_values(|x: DiffLine| x@)
}

/// The line diff that `diff::lines` computes between two texts (a longest
/// common subsequence of their lines, aligned as that crate aligns it).
pub uninterp spec fn line_diff(left: Seq<char>, right: Seq<char>) -> Seq<DiffLineView>;

/// Left-to-right scan of `s` into the lines finished so far and the line
/// being read.
pub open spec fn newline_scan(s: Seq<char>) -> (Seq<Seq<char>>, Seq<char>)
    decreases s.len(),
{
    if s.len() == 0 {
        (seq![], seq![])
    } else {
        let (done, cur) = newline_scan(s.drop_last());
        if s.last() == '\n' {
            (done.push(cur), seq![])
        } else {
            (done, cur.push(s.last()))
        }
    }
}

/// The lines that `diff::lines` compares for a text without carriage
/// returns: nothing for the empty text, else the pieces between newlines,
/// including the empty piece after a final newline.
pub open spec fn text_lines(s: Seq<char>) -> Seq<Seq<char>> {
    if s.len() == 0 {
        seq![]
    } else {
        let (done, cur) = newline_scan(s);
        done.push(cur)
    }
}

/// The lines of the left text as a diff lists them, in order.
pub open spec fn left_lines(d: Seq<DiffLineView>) -> Seq<Seq<char>>
    decreases d.len(),
{
    if d.len() == 0 {
        seq![]
    } else {
        match d.last() {
            DiffLineView::Left(l) => left_lines(d.drop_last()).push(l),
            DiffLineView::Both(l, _) => left_lines(d.drop_last()).push(l),
            DiffLineView::Right(_) => left_lines(d.drop_last()),
        }
    }
}

/// The lines of the right text as a diff lists them, in order.
pub open spec fn right_lines(d: Seq<DiffLineView>) -> Seq<Seq<char>>
    decreases d.len(),
{
    if d.len() == 0 {
        seq![]
    } else {
        match d.last() {
            DiffLineView::Left(_) => right_lines(d.drop_last()),
            DiffLineView::Both(_, r) => right_lines(d.drop_last()).push(r),
            DiffLineView::Right(r) => right_lines(d.drop_last()).push(r),
        }
    }
}

/// Computes the line diff of two texts.
///
/// Trusted: wraps `diff::lines` (diff 0.1.13), converting each
/// `diff::Result` to a [`DiffLine`] of owned strings. Stated of it: the
/// result is [`line_diff`] of the two texts; a `Both` pair holds equal
/// lines; two equal texts give only `Both` lines (their common prefix is
/// taken whole before the LCS table, and a final newline on both sides adds
/// one more `Both`); and for a text without carriage returns, the
/// `Left`/`Both` lines (resp. `Both`/`Right`) are exactly its lines in
/// order, as the crate's backtracking over its LCS table and its special
/// case for a final newline show. Which alignment it picks for texts that
/// differ is not stated beyond the name.
#[verifier::external_body]
pub(crate) fn lines_diff(left: &str, right: &str) -> (r: Vec<DiffLine>)
    ensures
        diff_views(r@) == line_diff(left@, right@),
        forall|i: int|
            0 <= i < r@.len() ==> (#[trigger] diff_views(r@)[i] matches DiffLineView::Both(
                l,
                rr,
            ) ==> l == rr),
        left@ == right@ ==> forall|i: int|
            0 <= i < r@.len() ==> #[trigger] diff_views(r@)[i] is Both,
        !left@.contains('\r') ==> left_lines(diff_views(r@)) == text_lines(left@),
        !right@.contains('\r') ==> right_lines(diff_views(r@)) == text_lines(right@),
{
    diff::lines(left, right).into_iter().map(
        |d| match d {
            diff::Result::Left(l) => DiffLine::Left(l.to_string()),
            diff::Result::Both(l, r) => DiffLine::Both(l.to_string(), r.to_string()),
            diff::Result::Right(r) => DiffLine::Right(r.to_string()),
        },
    ).collect()
}

/// How a diff line is shown: a left-only line with `-` in red, a line of
/// both texts as it is in white, a right-only line with `+` in green.
pub open spec fn style_of(d: DiffLineView) -> StyledView {
    match d {
        DiffLineView::Left(l) => StyledView { text: seq!['-'] + l, color: TextColor::Red },
        DiffLineView::Both(l, _) => StyledView { text: l, color: TextColor::White },
        DiffLineView::Right(r) => StyledView { text: seq!['+'] + r, color: TextColor::Green },
    }
}

fn prefixed(c: char, s: &String) -> (r: String)
    ensures
        r@ == seq![c] + s@,
{
    let mut v: Vec<char> = Vec::new();
    v.push(c);
    let rest = crate::text::chars_of(s.as_str());
    crate::text::extend_chars(&mut v, &rest);
    assert(v@ =~= seq![c] + s@);
    crate::text::string_from_chars(&v)
}

/// The coloured lines that show a diff, one per diff line.
pub fn style_diff(d: &Vec<DiffLine>) -> (r: Vec<Styled>)
    ensures
        r.len() == d.len(),
        forall|i: int| 0 <= i < d.len() ==> #[trigger] r@[i]@ == style_of(d@[i]@),
{
    let mut r: Vec<Styled> = Vec::new();
    for i in 0..d.len()
        invariant
            r.len() == i,
            forall|k: int| 0 <= k < i ==> #[trigger] r@[k]@ == style_of(d@[k]@),
    {
        let s = match &d[i] {
            DiffLine::Left(l) => Styled { text: prefixed('-', l), color: TextColor::Red },
            DiffLine::Both(l, _) => Styled { text: l.clone(), color: TextColor::White },
            DiffLine::Right(rr) => Styled { text: prefixed('+', rr), color: TextColor::Green },
        };
        r.push(s);
    }
    r
}

} // verus!
