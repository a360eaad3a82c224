//! Reading the lines of `/proc/<pid>/maps`.
//!
//! Each line reads `start-end perms offset dev inode [path]`. A line gives a
//! memory segment: its start address, its length rounded up to whole pages,
//! its permissions and a short name for what is mapped there.
use vstd::prelude::*;
use crate::error::InfoErr;
use crate::text::{
    chars_of, hex_u64, lemma_no_carriage_return_concat, lemma_word_no_carriage_return,
    lemma_words_well_split, no_carriage_return, no_white_space, parse_hex_u64, split_words,
    string_from_chars, well_split, words,
};
use crate::units::{round_up_to_page, round_up_to_page_size};

verus! {

/// One memory segment read from a line of the maps listing.
pub struct MapsEntry {
    /// Start address of the segment.
    pub address: u64,
    /// Length of the segment in bytes, rounded up to whole pages.
    pub size: u64,
    /// The permission column, such as `r-xp`.
    pub permissions: String,
    /// What is mapped: the file name, a pseudo-path such as `[heap]`,
    /// `[anon]` for an anonymous mapping, or empty.
    pub path: String,
}

/// Mathematical form of a [`MapsEntry`].
pub struct MapsEntryView {
    pub address: u64,
    pub size: u64,
    pub permissions: Seq<char>,
    pub path: Seq<char>,
}

impl View for MapsEntry {
    type V = MapsEntryView;

    open spec fn view(&self) -> MapsEntryView {
        MapsEntryView {
            address: self.address,
            size: self.size,
            permissions: self.permissions@,
            path: self.path@,
        }
    }
}

/// The segments read from a maps listing, and how reading it ended: with the
/// total size of the segments rounded up to whole pages, or with an error.
pub struct MapsListing {
    pub entries: Vec<MapsEntry>,
    pub outcome: Result<u64, InfoErr>,
}

/// Mathematical form of a [`MapsListing`].
pub struct MapsListingView {
    pub entries: Seq<MapsEntryView>,
    pub outcome: Result<u64, InfoErr>,
}

impl View for MapsListing {
    type V = MapsListingView;

    open spec fn view(&self) -> MapsListingView {
        MapsListingView { entries: entry_views(self.entries@), outcome: self.outcome }
    }
}

pub open spec fn entry_views(es: Seq<MapsEntry>) -> Seq<MapsEntryView> {
    es.map_values(|e: MapsEntry| e@)
}

pub open spec fn line_views(lines: Seq<String>) -> Seq<Seq<char>> {
    lines.map_values(|l: String| l@)
}

// ---------------------------------------------------------------------------
// The meaning of a line
// ---------------------------------------------------------------------------

/// Position of the first `c` in `s`.
pub open spec fn first_index_of(s: Seq<char>, c: char) -> Option<nat>
    decreases s.len(),
{
    if s.len() == 0 {
        None
    } else if s[0] == c {
        Some(0)
    } else {
        match first_index_of(s.drop_first(), c) {
            Some(k) => Some(k + 1),
            None => None,
        }
    }
}

/// `s` without its leading `'-'` characters.
pub open spec fn trim_dashes(s: Seq<char>) -> Seq<char>
    decreases s.len(),
{
    if s.len() > 0 && s[0] == '-' {
        trim_dashes(s.drop_first())
    } else {
        s
    }
}

/// What follows the last `'/'` of `s` (all of `s` when it has none).
pub open spec fn last_component(s: Seq<char>) -> Seq<char>
    decreases s.len(),
{
    if s.len() == 0 {
        s
    } else if s.last() == '/' {
        seq![]
    } else {
        last_component(s.drop_last()).push(s.last())
    }
}

pub open spec fn anon_path() -> Seq<char> {
    seq!['[', 'a', 'n', 'o', 'n', ']']
}

/// The name shown for a segment with the given columns: the file name of an
/// absolute path, a path column that is not absolute as it stands, `[anon]`
/// where the path column is missing, and nothing for a line with any other
/// number of columns.
pub open spec fn segment_path(tokens: Seq<Seq<char>>) -> Seq<char> {
    if tokens.len() == 6 {
        let p = tokens[5];
        if p.len() > 0 && p[0] == '/' {
            last_component(p)
        } else {
            p
        }
    } else if tokens.len() == 5 {
        anon_path()
    } else {
        seq![]
    }
}

/// How reading one line ends.
pub enum LineOutcome {
    /// The reader aborts: the line has no address column, the address column
    /// has no `-`, the range ends before it starts, rounding its length
    /// overflows or divides by a zero page size, or the permission column is
    /// missing.
    Aborts,
    /// An address of the range is not a hexadecimal number.
    Rejected,
    /// The line gives this segment.
    Accepted(MapsEntryView),
}

/// The outcome of reading a line split into its columns `tokens`.
pub open spec fn line_outcome(tokens: Seq<Seq<char>>, page: u64) -> LineOutcome {
    if tokens.len() == 0 {
        LineOutcome::Aborts
    } else {
        let a = tokens[0];
        match first_index_of(a, '-') {
            None => LineOutcome::Aborts,
            Some(k) => match hex_u64(a.take(k as int)) {
                None => LineOutcome::Rejected,
                Some(start) => match hex_u64(trim_dashes(a.skip(k as int))) {
                    None => LineOutcome::Rejected,
                    Some(end) => if end < start || page == 0 || (end - start) + page > u64::MAX
                        || tokens.len() < 2 {
                        LineOutcome::Aborts
                    } else {
                        LineOutcome::Accepted(
                            MapsEntryView {
                                address: start,
                                size: round_up_to_page((end - start) as nat, page as nat) as u64,
                                permissions: tokens[1],
                                path: segment_path(tokens),
                            },
                        )
                    },
                },
            },
        }
    }
}

/// State of reading the lines in order.
pub enum ScanState {
    /// The reader aborted.
    Aborted,
    /// All lines so far gave segments; `total` is the sum of their sizes.
    Running { entries: Seq<MapsEntryView>, total: nat },
    /// Reading stopped with an error after the given segments.
    Stopped { entries: Seq<MapsEntryView>, error: InfoErr },
}

/// The state after reading `lines` in order. Summing the sizes aborts when
/// the sum overflows 64 bits.
pub open spec fn scan_lines(lines: Seq<Seq<char>>, page: u64) -> ScanState
    decreases lines.len(),
{
    if lines.len() == 0 {
        ScanState::Running { entries: seq![], total: 0 }
    } else {
        match scan_lines(lines.drop_last(), page) {
            ScanState::Running { entries, total } => match line_outcome(
                words(lines.last()),
                page,
            ) {
                LineOutcome::Aborts => ScanState::Aborted,
                LineOutcome::Rejected => ScanState::Stopped {
                    entries,
                    error: InfoErr::AddrFmtErr,
                },
                LineOutcome::Accepted(e) => if total + e.size > u64::MAX {
                    ScanState::Aborted
                } else {
                    ScanState::Running { entries: entries.push(e), total: (total + e.size) as nat }
                },
            },
            other => other,
        }
    }
}

/// The listing read from `lines`, where `read_error` says that reading
/// the next line failed; `None` where the reader aborts.
pub open spec fn maps_listing(lines: Seq<Seq<char>>, read_error: bool, page: u64) -> Option<
    MapsListingView,
> {
    match scan_lines(lines, page) {
        ScanState::Aborted => None,
        ScanState::Stopped { entries, error } => Some(
            MapsListingView { entries, outcome: Err(error) },
        ),
        ScanState::Running { entries, total } => if read_error {
            Some(MapsListingView { entries, outcome: Err(InfoErr::LineErr) })
        } else if entries.len() == 0 {
            Some(MapsListingView { entries, outcome: Ok(0) })
        } else if total + page > u64::MAX {
            None
        } else {
            Some(
                MapsListingView {
                    entries,
                    outcome: Ok(round_up_to_page(total, page as nat) as u64),
                },
            )
        },
    }
}

// ---------------------------------------------------------------------------
// Reading
// ---------------------------------------------------------------------------

proof fn lemma_first_index_found(s: Seq<char>, c: char, k: int)
    requires
        0 <= k < s.len(),
        s[k] == c,
        forall|j: int| 0 <= j < k ==> s[j] != c,
    ensures
        first_index_of(s, c) == Some(k as nat),
    decreases k,
{
    if k > 0 {
        lemma_first_index_found(s.drop_first(), c, k - 1);
    }
}

proof fn lemma_first_index_absent(s: Seq<char>, c: char)
    requires
        forall|j: int| 0 <= j < s.len() ==> s[j] != c,
    ensures
        first_index_of(s, c) is None,
    decreases s.len(),
{
    if s.len() > 0 {
        lemma_first_index_absent(s.drop_first(), c);
    }
}

fn find_char(s: &Vec<char>, c: char) -> (r: Option<usize>)
    ensures
        match r {
            Some(k) => first_index_of(s@, c) == Some(k as nat) && k < s.len(),
            None => first_index_of(s@, c) is None,
        },
{
    for i in 0..s.len()
        invariant
            forall|j: int| 0 <= j < i ==> s@[j] != c,
    {
        if s[i] == c {
            proof {
                lemma_first_index_found(s@, c, i as int);
            }
            return Some(i);
        }
    }
    proof {
        lemma_first_index_absent(s@, c);
    }
    None
}

fn subrange_chars(s: &Vec<char>, from: usize, to: usize) -> (r: Vec<char>)
    requires
        from <= to <= s.len(),
    ensures
        r@ == s@.subrange(from as int, to as int),
{
    let mut r: Vec<char> = Vec::new();
    let mut i = from;
    while i < to
        invariant
            from <= i <= to <= s.len(),
            r@ == s@.subrange(from as int, i as int),
        decreases to - i,
    {
        r.push(s[i]);
        assert(s@.subrange(from as int, i + 1) =~= s@.subrange(from as int, i as int).push(
            s@[i as int],
        ));
        i = i + 1;
    }
    r
}

/// The range end: what follows position `k`, without leading dashes.
fn range_end_chars(s: &Vec<char>, k: usize) -> (r: Vec<char>)
    requires
        k <= s.len(),
    ensures
        r@ == trim_dashes(s@.skip(k as int)),
{
    let mut j = k;
    while j < s.len() && s[j] == '-'
        invariant
            k <= j <= s.len(),
            trim_dashes(s@.skip(k as int)) == trim_dashes(s@.skip(j as int)),
        decreases s.len() - j,
    {
        assert(s@.skip(j as int).drop_first() =~= s@.skip(j + 1));
        j = j + 1;
    }
    assert(s@.skip(j as int) =~= s@.subrange(j as int, s.len() as int));
    subrange_chars(s, j, s.len())
}

proof fn lemma_last_component_step(s: Seq<char>, j: int)
    requires
        0 < j <= s.len(),
        s[j - 1] != '/',
    ensures
        last_component(s.take(j)) + s.subrange(j, s.len() as int) == last_component(
            s.take(j - 1),
        ) + s.subrange(j - 1, s.len() as int),
{
    assert(s.take(j).drop_last() =~= s.take(j - 1));
    assert(s.take(j).last() == s[j - 1]);
    assert(last_component(s.take(j)) == last_component(s.take(j - 1)).push(s[j - 1]));
    assert(last_component(s.take(j - 1)).push(s[j - 1]) + s.subrange(j, s.len() as int)
        =~= last_component(s.take(j - 1)) + s.subrange(j - 1, s.len() as int));
}

fn last_component_chars(s: &Vec<char>) -> (r: Vec<char>)
    ensures
        r@ == last_component(s@),
{
    let mut j = s.len();
    assert(s@.take(j as int) =~= s@);
    assert(s@.subrange(j as int, j as int) =~= Seq::<char>::empty());
    while j > 0 && s[j - 1] != '/'
        invariant
            j <= s.len(),
            last_component(s@) == last_component(s@.take(j as int)) + s@.subrange(
                j as int,
                s.len() as int,
            ),
        decreases j,
    {
        proof {
            lemma_last_component_step(s@, j as int);
        }
        j = j - 1;
    }
    if j > 0 {
        assert(s@.take(j as int).last() == '/');
    } else {
        assert(s@.take(0) =~= Seq::<char>::empty());
    }
    assert(last_component(s@.take(j as int)) =~= Seq::<char>::empty());
    assert(last_component(s@) =~= s@.subrange(j as int, s.len() as int));
    subrange_chars(s, j, s.len())
}

fn segment_path_chars(tokens: &Vec<Vec<char>>) -> (r: Vec<char>)
    ensures
        r@ == segment_path(tokens.deep_view()),
{
    proof {
        assert(tokens.deep_view().len() == tokens.len());
    }
    if tokens.len() == 6 {
        let p = &tokens[5];
        assert(tokens.deep_view()[5] =~= p@);
        if p.len() > 0 && p[0] == '/' {
            last_component_chars(p)
        } else {
            subrange_chars(p, 0, p.len())
        }
    } else if tokens.len() == 5 {
        let mut v = Vec::new();
        v.push('[');
        v.push('a');
        v.push('n');
        v.push('o');
        v.push('n');
        v.push(']');
        assert(v@ =~= anon_path());
        v
    } else {
        let v = Vec::new();
        assert(v@ =~= Seq::<char>::empty());
        v
    }
}

/// Reads one line, split into its columns. `None` where the reader aborts,
/// `Some(Err(()))` where an address is not hexadecimal.
fn read_line(tokens: &Vec<Vec<char>>, page: u64) -> (r: Option<Result<MapsEntry, ()>>)
    ensures
        match r {
            None => line_outcome(tokens.deep_view(), page) is Aborts,
            Some(Err(_)) => line_outcome(tokens.deep_view(), page) is Rejected,
            Some(Ok(e)) => line_outcome(tokens.deep_view(), page) == LineOutcome::Accepted(e@),
        },
{
    let ghost t = tokens.deep_view();
    if tokens.len() == 0 {
        return None;
    }
    let a = &tokens[0];
    assert(t[0] =~= a@);
    let k = match find_char(a, '-') {
        None => {
            return None;
        },
        Some(k) => k,
    };
    let start_chars = subrange_chars(a, 0, k);
    assert(start_chars@ =~= a@.take(k as int));
    let start = match parse_hex_u64(&start_chars) {
        None => {
            return Some(Err(()));
        },
        Some(v) => v,
    };
    let end_chars = range_end_chars(a, k);
    let end = match parse_hex_u64(&end_chars) {
        None => {
            return Some(Err(()));
        },
        Some(v) => v,
    };
    if end < start || page == 0 || end - start > u64::MAX - page || tokens.len() < 2 {
        return None;
    }
    let size = round_up_to_page_size(end - start, page);
    let permissions = string_from_chars(&tokens[1]);
    assert(t[1] =~= tokens[1]@);
    let path_chars = segment_path_chars(tokens);
    let path = string_from_chars(&path_chars);
    Some(Ok(MapsEntry { address: start, size, permissions, path }))
}

proof fn lemma_scan_settled(lines: Seq<Seq<char>>, i: int, page: u64)
    requires
        0 <= i <= lines.len(),
        !(scan_lines(lines.take(i), page) is Running),
    ensures
        scan_lines(lines, page) == scan_lines(lines.take(i), page),
    decreases lines.len() - i,
{
    if i < lines.len() {
        assert(lines.take(i + 1).drop_last() =~= lines.take(i));
        lemma_scan_settled(lines, i + 1, page);
    } else {
        assert(lines.take(i) =~= lines);
    }
}

/// Reads the lines of a maps listing in order, as the snapshot reader does:
/// each line must give a segment; the first line whose address range is not
/// hexadecimal stops reading with `AddrFmtErr`; `read_error` says that
/// reading a line after the given ones failed (`LineErr`). When all lines
/// give segments, the outcome is their total size rounded up to whole pages.
/// `None` exactly where the reader aborts (see [`LineOutcome::Aborts`], and
/// where the total overflows 64 bits).
pub fn parse_maps(lines: &Vec<String>, read_error: bool, page_size: u64) -> (r: Option<MapsListing>)
    ensures
        match r {
            None => maps_listing(line_views(lines@), read_error, page_size) is None,
            Some(l) => maps_listing(line_views(lines@), read_error, page_size) == Some(l@),
        },
{
    let ghost ls = line_views(lines@);
    let mut entries: Vec<MapsEntry> = Vec::new();
    let mut total: u64 = 0;
    assert(ls.take(0) =~= Seq::<Seq<char>>::empty());
    assert(entry_views(entries@) =~= Seq::<MapsEntryView>::empty());
    for i in 0..lines.len()
        invariant
            ls == line_views(lines@),
            ls.len() == lines.len(),
            total > 0 ==> page_size > 0,
            entries.len() > 0 ==> page_size > 0,
            scan_lines(ls.take(i as int), page_size) == (ScanState::Running {
                entries: entry_views(entries@),
                total: total as nat,
            }),
    {
        let cs = chars_of(lines[i].as_str());
        let tokens = split_words(&cs);
        assert(ls[i as int] == lines@[i as int]@);
        assert(ls.take(i + 1).drop_last() =~= ls.take(i as int));
        assert(ls.take(i + 1).last() == ls[i as int]);
        match read_line(&tokens, page_size) {
            None => {
                proof {
                    lemma_scan_settled(ls, i + 1, page_size);
                }
                return None;
            },
            Some(Err(_)) => {
                proof {
                    lemma_scan_settled(ls, i + 1, page_size);
                }
                return Some(MapsListing { entries, outcome: Err(InfoErr::AddrFmtErr) });
            },
            Some(Ok(e)) => {
                if e.size > u64::MAX - total {
                    proof {
                        lemma_scan_settled(ls, i + 1, page_size);
                    }
                    return None;
                }
                total = total + e.size;
                let ghost before = entry_views(entries@);
                entries.push(e);
                assert(entry_views(entries@) =~= before.push(e@));
            },
        }
    }
    assert(ls.take(lines.len() as int) =~= ls);
    if read_error {
        return Some(MapsListing { entries, outcome: Err(InfoErr::LineErr) });
    }
    if entries.len() == 0 {
        return Some(MapsListing { entries, outcome: Ok(0) });
    }
    if total > u64::MAX - page_size {
        return None;
    }
    let rounded = round_up_to_page_size(total, page_size);
    Some(MapsListing { entries, outcome: Ok(rounded) })
}


/// Every segment spans whole pages.
pub open spec fn whole_pages(es: Seq<MapsEntryView>, page: u64) -> bool {
    forall|i: int| 0 <= i < es.len() ==> #[trigger] es[i].size % page == 0
}

proof fn lemma_scan_whole_pages(lines: Seq<Seq<char>>, page: u64)
    requires
        page > 0,
    ensures
        match scan_lines(lines, page) {
            ScanState::Running { entries, total } => whole_pages(entries, page),
            ScanState::Stopped { entries, error } => whole_pages(entries, page),
            ScanState::Aborted => true,
        },
    decreases lines.len(),
{
    if lines.len() > 0 {
        lemma_scan_whole_pages(lines.drop_last(), page);
        match scan_lines(lines.drop_last(), page) {
            ScanState::Running { entries, total } => {
                match line_outcome(words(lines.last()), page) {
                    LineOutcome::Accepted(e) => {
                        let t = words(lines.last());
                        let a = t[0];
                        let k = first_index_of(a, '-')->0;
                        let start = hex_u64(a.take(k as int))->0;
                        let end = hex_u64(trim_dashes(a.skip(k as int)))->0;
                        crate::units::lemma_round_up_to_page((end - start) as nat, page as nat);
                        if total + e.size <= u64::MAX {
                            assert forall|i: int| 0 <= i < entries.push(e).len() implies #[trigger] entries.push(
                                e,
                            )[i].size % page == 0 by {
                                if i < entries.len() {
                                    assert(entries.push(e)[i] == entries[i]);
                                }
                            }
                        }
                    },
                    _ => {},
                }
            },
            _ => {},
        }
    }
}

/// Law: every segment read from a listing spans whole pages, and so does
/// the total of a listing that was read completely.
pub proof fn lemma_listing_whole_pages(lines: Seq<Seq<char>>, read_error: bool, page: u64)
    requires
        page > 0,
    ensures
        match maps_listing(lines, read_error, page) {
            Some(v) => whole_pages(v.entries, page) && match v.outcome {
                Ok(t) => t % page == 0,
                Err(_) => true,
            },
            None => true,
        },
{
    lemma_scan_whole_pages(lines, page);
    match scan_lines(lines, page) {
        ScanState::Running { entries, total } => {
            crate::units::lemma_round_up_to_page(total, page as nat);
            if !read_error && entries.len() > 0 && total + page <= u64::MAX {
                let t = round_up_to_page(total, page as nat);
                assert((t as u64) as nat == t);
            }
            assert(0u64 % page == 0) by (nonlinear_arith)
                requires
                    page > 0,
            ;
        },
        _ => {},
    }
}


/// No segment's permission or path column holds a carriage return.
pub open spec fn entries_carriage_free(es: Seq<MapsEntryView>) -> bool {
    forall|i: int|
        0 <= i < es.len() ==> no_carriage_return(#[trigger] es[i].permissions)
            && no_carriage_return(es[i].path)
}

proof fn lemma_last_component_no_carriage_return(s: Seq<char>)
    requires
        no_carriage_return(s),
    ensures
        no_carriage_return(last_component(s)),
    decreases s.len(),
{
    if s.len() > 0 && s.last() != '/' {
        assert(no_carriage_return(s.drop_last())) by {
            assert forall|i: int| 0 <= i < s.drop_last().len() implies #[trigger] s.drop_last()[i]
                != '\r' by {
                assert(s.drop_last()[i] == s[i]);
            }
        }
        lemma_last_component_no_carriage_return(s.drop_last());
        assert(last_component(s.drop_last()).push(s.last()) =~= last_component(s.drop_last())
            + seq![s.last()]);
        lemma_no_carriage_return_concat(last_component(s.drop_last()), seq![s.last()]);
    }
}

proof fn lemma_accepted_carriage_free(tokens: Seq<Seq<char>>, page: u64)
    requires
        well_split(tokens),
    ensures
        line_outcome(tokens, page) matches LineOutcome::Accepted(e) ==> no_carriage_return(
            e.permissions,
        ) && no_carriage_return(e.path),
{
    if tokens.len() >= 2 {
        assert(no_white_space(tokens[1])) by {
            assert(tokens[1].len() > 0);
        }
        lemma_word_no_carriage_return(tokens[1]);
        if tokens.len() == 6 {
            assert(no_white_space(tokens[5])) by {
                assert(tokens[5].len() > 0);
            }
            lemma_word_no_carriage_return(tokens[5]);
            lemma_last_component_no_carriage_return(tokens[5]);
        }
        assert(no_carriage_return(anon_path()));
        assert(no_carriage_return(Seq::<char>::empty()));
    }
}

proof fn lemma_scan_carriage_free(lines: Seq<Seq<char>>, page: u64)
    ensures
        match scan_lines(lines, page) {
            ScanState::Running { entries, total } => entries_carriage_free(entries),
            ScanState::Stopped { entries, error } => entries_carriage_free(entries),
            ScanState::Aborted => true,
        },
    decreases lines.len(),
{
    if lines.len() == 0 {
        assert(entries_carriage_free(Seq::<MapsEntryView>::empty()));
    } else {
        lemma_scan_carriage_free(lines.drop_last(), page);
        lemma_words_well_split(lines.last());
        lemma_accepted_carriage_free(words(lines.last()), page);
        match scan_lines(lines.drop_last(), page) {
            ScanState::Running { entries, total } => {
                match line_outcome(words(lines.last()), page) {
                    LineOutcome::Accepted(e) => {
                        if total + e.size <= u64::MAX {
                            let grown = entries.push(e);
                            assert forall|i: int| 0 <= i < grown.len() implies no_carriage_return(
                                #[trigger] grown[i].permissions,
                            ) && no_carriage_return(grown[i].path) by {
                                if i < entries.len() {
                                    assert(grown[i] == entries[i]);
                                } else {
                                    assert(grown[i] == e);
                                }
                            }
                            assert(scan_lines(lines, page) == ScanState::Running {
                                entries: grown,
                                total: (total + e.size) as nat,
                            });
                        }
                    },
                    _ => {},
                }
            },
            _ => {},
        }
    }
}

/// Law: no column that a listing gives holds a carriage return: the
/// columns are white-space separated words, and a carriage return is white
/// space.
pub proof fn lemma_listing_carriage_free(lines: Seq<Seq<char>>, read_error: bool, page: u64)
    ensures
        maps_listing(lines, read_error, page) matches Some(v) ==> entries_carriage_free(
            v.entries,
        ),
{
    lemma_scan_carriage_free(lines, page);
}

} // verus!
