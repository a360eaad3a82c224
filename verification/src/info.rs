//! Snapshots of a process's memory map and the history of them.
use vstd::prelude::*;
use crate::diff_view::{
    diff_views, left_lines, line_diff, lines_diff, right_lines, style_diff, style_of, text_lines,
    Styled, TextColor,
};
use crate::error::InfoErr;
use crate::maps::{entries_carriage_free, MapsEntryView, MapsListing, MapsListingView};
use crate::text::{
    chars_of, extend_chars, hex_chars, hex_text, lemma_no_carriage_return_concat,
    lemma_no_carriage_return_contains, lemma_numerals_no_carriage_return,
    lemma_padding_no_carriage_return, no_carriage_return, pad_left, pad_right, push_padded_left,
    push_padded_right, string_from_chars,
};
use crate::units::{byte_size_text, format_byte_size, lemma_byte_size_no_carriage_return};

verus! {

/// What recording a snapshot found.
#[derive(Debug, Clone, Copy, PartialEq, Eq, Structural)]
pub enum State {
    /// It is the first snapshot.
    Initial,
    /// It differs from the previous snapshot and was kept.
    Changed,
    /// It equals the previous snapshot and was dropped.
    NotChanged,
}

/// One memory segment of a snapshot.
#[derive(Debug, PartialEq, Eq)]
pub struct InfoMemorySegment {
    address: u64,
    size: String,
    permissions: String,
    path: String,
    physical: u64,
}

/// Mathematical form of an [`InfoMemorySegment`].
pub struct SegmentView {
    pub address: u64,
    pub size: Seq<char>,
    pub permissions: Seq<char>,
    pub path: Seq<char>,
    pub physical: u64,
}

impl View for InfoMemorySegment {
    type V = SegmentView;

    closed spec fn view(&self) -> SegmentView {
        SegmentView {
            address: self.address,
            size: self.size@,
            permissions: self.permissions@,
            path: self.path@,
            physical: self.physical,
        }
    }
}

/// A snapshot: the segments of a memory map and its total line.
#[derive(Debug, PartialEq, Eq)]
pub struct InfoMemoryMap {
    memory_segments: Vec<InfoMemorySegment>,
    size_total: String,
}

/// Mathematical form of an [`InfoMemoryMap`].
pub struct MapView {
    pub segments: Seq<SegmentView>,
    pub size_total: Seq<char>,
}

impl View for InfoMemoryMap {
    type V = MapView;

    closed spec fn view(&self) -> MapView {
        MapView { segments: segment_views(self.memory_segments@), size_total: self.size_total@ }
    }
}

pub open spec fn segment_views(s: Seq<InfoMemorySegment>) -> Seq<SegmentView> {
    s.map_values(|x: InfoMemorySegment| x@)
}

pub open spec fn map_views(s: Seq<InfoMemoryMap>) -> Seq<MapView> {
    s.map_values(|x: InfoMemoryMap| x@)
}

/// The snapshots of one process, oldest first.
#[derive(Debug)]
pub struct InfoAll {
    memory_map: Vec<InfoMemoryMap>,
    pid: u32,
}

/// Mathematical form of an [`InfoAll`].
pub struct InfoView {
    pub maps: Seq<MapView>,
    pub pid: u32,
}

impl View for InfoAll {
    type V = InfoView;

    closed spec fn view(&self) -> InfoView {
        InfoView { maps: map_views(self.memory_map@), pid: self.pid }
    }
}

// ---------------------------------------------------------------------------
// Texts
// ---------------------------------------------------------------------------

/// The line that shows a segment: the address as 16 zero-padded hex digits,
/// the physical address as hex right-aligned in 14 columns, then size,
/// permissions and path right-aligned in 6, 4 and 6 columns
/// (`"{:0>16x} {:>14x}  {:>6} {:>4} {:>6}\n"`).
pub open spec fn segment_line(s: SegmentView) -> Seq<char> {
    pad_left(hex_text(s.address as nat), 16, '0') + seq![' '] + pad_left(
        hex_text(s.physical as nat),
        14,
        ' ',
    ) + seq![' ', ' '] + pad_left(s.size, 6, ' ') + seq![' '] + pad_left(s.permissions, 4, ' ')
        + seq![' '] + pad_left(s.path, 6, ' ') + seq!['\n']
}

/// The lines of the given segments, in order.
pub open spec fn segments_text(s: Seq<SegmentView>) -> Seq<char>
    decreases s.len(),
{
    if s.len() == 0 {
        seq![]
    } else {
        segments_text(s.drop_last()) + segment_line(s.last())
    }
}

/// The text of a snapshot: its segment lines, then its total line.
pub open spec fn map_text(m: MapView) -> Seq<char> {
    segments_text(m.segments) + m.size_total
}

/// The texts of the given snapshots, one after the other.
pub open spec fn maps_text(ms: Seq<MapView>) -> Seq<char>
    decreases ms.len(),
{
    if ms.len() == 0 {
        seq![]
    } else {
        maps_text(ms.drop_last()) + map_text(ms.last())
    }
}

pub open spec fn total_word() -> Seq<char> {
    seq!['t', 'o', 't', 'a', 'l']
}

/// The total line of a snapshot (`"{:<16} {:>6} \n"` of `"total"` and the
/// total size).
pub open spec fn total_line(total: u64) -> Seq<char> {
    pad_right(total_word(), 16, ' ') + seq![' '] + pad_left(byte_size_text(total as nat), 6, ' ')
        + seq![' ', '\n']
}

// ---------------------------------------------------------------------------
// Recording a snapshot
// ---------------------------------------------------------------------------

/// The segment that a listing entry gives, with its physical address.
pub open spec fn entry_segment(e: MapsEntryView, physical: u64) -> SegmentView {
    SegmentView {
        address: e.address,
        size: byte_size_text(e.size as nat),
        permissions: e.permissions,
        path: e.path,
        physical,
    }
}

/// The physical address given for entry `i`; 0 (unknown) where none is.
pub open spec fn physical_at(physical: Seq<u64>, i: int) -> u64 {
    if 0 <= i < physical.len() {
        physical[i]
    } else {
        0
    }
}

/// The snapshot that a listing gives: one segment per entry, and the total
/// line where the listing was read completely and holds a segment.
pub open spec fn listing_map(l: MapsListingView, physical: Seq<u64>) -> MapView {
    MapView {
        segments: Seq::new(
            l.entries.len(),
            |i: int| entry_segment(l.entries[i], physical_at(physical, i)),
        ),
        size_total: match l.outcome {
            Ok(total) => if l.entries.len() > 0 {
                total_line(total)
            } else {
                seq![]
            },
            Err(_) => seq![],
        },
    }
}

/// Recording a listing: its snapshot is appended; a listing that ended
/// with an error gives that error, one without segments `OutputErr`; a first
/// snapshot is `Initial`; one equal to the previous snapshot is dropped
/// again (`NotChanged`); any other is kept (`Changed`).
pub open spec fn record_outcome(old: InfoView, l: MapsListingView, physical: Seq<u64>) -> (
    InfoView,
    Result<State, InfoErr>,
) {
    let m = listing_map(l, physical);
    let appended = InfoView { maps: old.maps.push(m), pid: old.pid };
    match l.outcome {
        Err(e) => (appended, Err(e)),
        Ok(_) => if l.entries.len() == 0 {
            (appended, Err(InfoErr::OutputErr))
        } else if old.maps.len() == 0 {
            (appended, Ok(State::Initial))
        } else if old.maps.last() == m {
            (old, Ok(State::NotChanged))
        } else {
            (appended, Ok(State::Changed))
        },
    }
}

impl InfoMemorySegment {
    /// A segment with the given columns.
    pub fn new(address: u64, size: String, permissions: String, path: String, physical: u64) -> (s:
        Self)
        ensures
            s@ == (SegmentView {
                address,
                size: size@,
                permissions: permissions@,
                path: path@,
                physical,
            }),
    {
        InfoMemorySegment { address, size, permissions, path, physical }
    }

    /// Start address.
    pub fn address(&self) -> (r: u64)
        ensures
            r == self@.address,
    {
        self.address
    }

    /// Physical address of the first page, or 0 where it is unknown.
    pub fn physical(&self) -> (r: u64)
        ensures
            r == self@.physical,
    {
        self.physical
    }

    /// The size column.
    pub fn size(&self) -> (r: &str)
        ensures
            r@ == self@.size,
    {
        self.size.as_str()
    }

    /// The permission column.
    pub fn permissions(&self) -> (r: &str)
        ensures
            r@ == self@.permissions,
    {
        self.permissions.as_str()
    }

    /// The path column.
    pub fn path(&self) -> (r: &str)
        ensures
            r@ == self@.path,
    {
        self.path.as_str()
    }

    fn push_line(&self, out: &mut Vec<char>)
        ensures
            final(out)@ == old(out)@ + segment_line(self@),
    {
        let ghost start = out@;
        push_padded_left(out, &hex_chars(self.address), 16, '0');
        out.push(' ');
        push_padded_left(out, &hex_chars(self.physical), 14, ' ');
        out.push(' ');
        out.push(' ');
        push_padded_left(out, &chars_of(self.size.as_str()), 6, ' ');
        out.push(' ');
        push_padded_left(out, &chars_of(self.permissions.as_str()), 4, ' ');
        out.push(' ');
        push_padded_left(out, &chars_of(self.path.as_str()), 6, ' ');
        out.push('\n');
        assert(out@ =~= start + segment_line(self@));
    }

    /// The line that shows this segment (its `Display` form).
    pub fn to_text(&self) -> (r: String)
        ensures
            r@ == segment_line(self@),
    {
        let mut out: Vec<char> = Vec::new();
        self.push_line(&mut out);
        assert(out@ =~= segment_line(self@));
        string_from_chars(&out)
    }
}

impl InfoMemoryMap {
    /// An empty snapshot.
    pub fn new() -> (m: Self)
        ensures
            m@.segments.len() == 0,
            m@.size_total.len() == 0,
    {
        InfoMemoryMap { memory_segments: Vec::new(), size_total: String::new() }
    }

    /// The segments, in listing order.
    pub fn segments(&self) -> (r: &Vec<InfoMemorySegment>)
        ensures
            segment_views(r@) == self@.segments,
    {
        &self.memory_segments
    }

    /// The total line; empty where reading the listing failed.
    pub fn size_total(&self) -> (r: &str)
        ensures
            r@ == self@.size_total,
    {
        self.size_total.as_str()
    }

    fn push_text(&self, out: &mut Vec<char>)
        ensures
            final(out)@ == old(out)@ + map_text(self@),
    {
        let ghost start = out@;
        let ghost segs = self@.segments;
        assert(segs.take(0) =~= Seq::<SegmentView>::empty());
        for i in 0..self.memory_segments.len()
            invariant
                segs == self@.segments,
                segs.len() == self.memory_segments.len(),
                out@ == start + segments_text(segs.take(i as int)),
        {
            assert(segs.take(i + 1).drop_last() =~= segs.take(i as int));
            assert(segs[i as int] == self.memory_segments[i as int]@);
            self.memory_segments[i].push_line(out);
            assert(out@ =~= start + segments_text(segs.take(i + 1)));
        }
        assert(segs.take(segs.len() as int) =~= segs);
        extend_chars(out, &chars_of(self.size_total.as_str()));
        assert(out@ =~= start + map_text(self@));
    }

    /// The text of this snapshot (its `Display` form).
    pub fn to_text(&self) -> (r: String)
        ensures
            r@ == map_text(self@),
    {
        let mut out: Vec<char> = Vec::new();
        self.push_text(&mut out);
        assert(out@ =~= map_text(self@));
        string_from_chars(&out)
    }

    /// Whether two snapshots are equal, field by field.
    pub fn same_as(&self, other: &InfoMemoryMap) -> (r: bool)
        ensures
            r == (self@ == other@),
    {
        if self.memory_segments.len() != other.memory_segments.len() {
            assert(self@.segments.len() != other@.segments.len());
            return false;
        }
        for i in 0..self.memory_segments.len()
            invariant
                self.memory_segments.len() == other.memory_segments.len(),
                forall|k: int| 0 <= k < i ==> #[trigger] self@.segments[k] == other@.segments[k],
        {
            let a = &self.memory_segments[i];
            let b = &other.memory_segments[i];
            assert(self@.segments[i as int] == a@);
            assert(other@.segments[i as int] == b@);
            if a.address != b.address || a.physical != b.physical || a.size != b.size
                || a.permissions != b.permissions || a.path != b.path {
                assert(self@.segments[i as int] != other@.segments[i as int]);
                return false;
            }
            assert(a@.size =~= b@.size);
            assert(a@.permissions =~= b@.permissions);
            assert(a@.path =~= b@.path);
        }
        assert(self@.segments =~= other@.segments);
        if self.size_total != other.size_total {
            return false;
        }
        assert(self@.size_total =~= other@.size_total);
        true
    }
}

impl InfoAll {
    /// No snapshot yet, for the process `pid`.
    pub fn new(pid: u32) -> (s: Self)
        ensures
            s@.maps.len() == 0,
            s@.pid == pid,
    {
        InfoAll { memory_map: Vec::new(), pid }
    }

    /// The number of snapshots kept.
    pub fn get_count(&self) -> (r: usize)
        ensures
            r == self@.maps.len(),
    {
        self.memory_map.len()
    }

    /// The process the snapshots are of.
    pub fn pid(&self) -> (r: u32)
        ensures
            r == self@.pid,
    {
        self.pid
    }

    /// The snapshot at `index`, oldest first.
    pub fn snapshot(&self, index: usize) -> (r: &InfoMemoryMap)
        requires
            index < self@.maps.len(),
        ensures
            r@ == self@.maps[index as int],
    {
        &self.memory_map[index]
    }

    /// The text of the snapshot at `index`.
    pub fn map_text(&self, index: usize) -> (r: String)
        requires
            index < self@.maps.len(),
        ensures
            r@ == map_text(self@.maps[index as int]),
    {
        self.memory_map[index].to_text()
    }

    /// The texts of all snapshots, oldest first (the `Display` form).
    pub fn to_text(&self) -> (r: String)
        ensures
            r@ == maps_text(self@.maps),
    {
        let mut out: Vec<char> = Vec::new();
        let ghost ms = self@.maps;
        assert(ms.take(0) =~= Seq::<MapView>::empty());
        for i in 0..self.memory_map.len()
            invariant
                ms == self@.maps,
                ms.len() == self.memory_map.len(),
                out@ == maps_text(ms.take(i as int)),
        {
            assert(ms.take(i + 1).drop_last() =~= ms.take(i as int));
            assert(ms[i as int] == self.memory_map[i as int]@);
            self.memory_map[i].push_text(&mut out);
        }
        assert(ms.take(ms.len() as int) =~= ms);
        string_from_chars(&out)
    }

    /// The coloured diff between the snapshot before `index` and the one at
    /// `index`. Two equal texts are shown all in white. Where neither text
    /// holds a carriage return (as in every history recorded from read
    /// listings, see [`lemma_record_carriage_free`]), the lines shown in red
    /// or white are the earlier snapshot's lines in order, and those shown in
    /// white or green are the later one's.
    pub fn diff_lines(&self, index: usize) -> (r: Vec<Styled>)
        requires
            0 < index < self@.maps.len(),
        ensures
            ({
                let prev = map_text(self@.maps[index - 1]);
                let curr = map_text(self@.maps[index as int]);
                let d = line_diff(prev, curr);
                &&& r.len() == d.len()
                &&& forall|i: int| 0 <= i < d.len() ==> #[trigger] r@[i]@ == style_of(d[i])
                &&& prev == curr ==> forall|i: int|
                    0 <= i < r.len() ==> (#[trigger] r@[i]@).color == TextColor::White
                &&& !prev.contains('\r') ==> left_lines(d) == text_lines(prev)
                &&& !curr.contains('\r') ==> right_lines(d) == text_lines(curr)
                &&& history_carriage_free(self@) ==> left_lines(d) == text_lines(prev)
                    && right_lines(d) == text_lines(curr)
            }),
    {
        let ghost pv = map_text(self@.maps[index - 1]);
        let ghost cv = map_text(self@.maps[index as int]);
        let prev = self.map_text(index - 1);
        let curr = self.map_text(index);
        let d = lines_diff(prev.as_str(), curr.as_str());
        let r = style_diff(&d);
        assert forall|i: int| 0 <= i < d.len() implies #[trigger] r@[i]@ == style_of(
            line_diff(pv, cv)[i],
        ) by {
            assert(diff_views(d@)[i] == d@[i]@);
        }
        proof {
            if pv == cv {
                assert forall|i: int| 0 <= i < r.len() implies (#[trigger] r@[i]@).color
                    == TextColor::White by {
                    assert(diff_views(d@)[i] is Both);
                    assert(diff_views(d@)[i] == d@[i]@);
                }
            }
            if history_carriage_free(self@) {
                assert(no_carriage_return(map_text(self@.maps[index - 1])));
                assert(no_carriage_return(map_text(self@.maps[index as int])));
                lemma_no_carriage_return_contains(pv);
                lemma_no_carriage_return_contains(cv);
            }
        }
        r
    }

    /// Records the snapshot that a maps listing gives, with the physical
    /// address of each entry's first page (`physical[i]` for entry `i`, 0
    /// where unknown or not given), as [`record_outcome`] states.
    pub fn record_snapshot(&mut self, listing: MapsListing, physical: &Vec<u64>) -> (r: Result<
        State,
        InfoErr,
    >)
        ensures
            (final(self)@, r) == record_outcome(old(self)@, listing@, physical@),
    {
        let ghost l = listing@;
        let ghost m = listing_map(l, physical@);
        let ghost old_view = self@;
        let mut segments: Vec<InfoMemorySegment> = Vec::new();
        let n = listing.entries.len();
        for i in 0..n
            invariant
                n == listing.entries.len(),
                l == listing@,
                segments.len() == i,
                forall|k: int|
                    0 <= k < i ==> #[trigger] segments@[k]@ == entry_segment(
                        l.entries[k],
                        physical_at(physical@, k),
                    ),
        {
            let e = &listing.entries[i];
            assert(l.entries[i as int] == e@);
            let seg = InfoMemorySegment {
                address: e.address,
                size: format_byte_size(e.size),
                permissions: e.permissions.clone(),
                path: e.path.clone(),
                physical: if i < physical.len() {
                    physical[i]
                } else {
                    0
                },
            };
            segments.push(seg);
        }
        let size_total = match listing.outcome {
            Ok(total) => if n > 0 {
                let mut t: Vec<char> = Vec::new();
                let word = chars_of("total");
                proof {
                    reveal_strlit("total");
                }
                assert(word@ =~= crate::info::total_word());
                push_padded_right(&mut t, &word, 16, ' ');
                t.push(' ');
                push_padded_left(&mut t, &chars_of(format_byte_size(total).as_str()), 6, ' ');
                t.push(' ');
                t.push('\n');
                assert(t@ =~= total_line(total));
                string_from_chars(&t)
            } else {
                String::new()
            },
            Err(_) => String::new(),
        };
        let map = InfoMemoryMap { memory_segments: segments, size_total };
        assert(map@.segments =~= m.segments);
        assert(map@.size_total =~= m.size_total);
        assert(map@ == m);
        let ghost before = self.memory_map@;
        self.memory_map.push(map);
        assert(self@.maps =~= old_view.maps.push(m));
        match listing.outcome {
            Err(e) => {
                return Err(e);
            },
            Ok(_) => {},
        }
        if n == 0 {
            return Err(InfoErr::OutputErr);
        }
        let count = self.memory_map.len();
        if count > 1 {
            let same = self.memory_map[count - 1].same_as(&self.memory_map[count - 2]);
            assert(self@.maps[count - 2] == old_view.maps.last());
            if same {
                self.memory_map.pop();
                assert(self.memory_map@ =~= before);
                assert(self@.maps =~= old_view.maps);
                Ok(State::NotChanged)
            } else {
                Ok(State::Changed)
            }
        } else {
            Ok(State::Initial)
        }
    }
}


/// Law: recording keeps the history in order and never drops a kept
/// snapshot. Afterwards the history is the old one (exactly when the new
/// snapshot was `NotChanged`) or the old one with the new snapshot
/// appended; a first snapshot is the only one; and a `Changed` snapshot
/// differs from the one before it.
pub proof fn lemma_record_history(old: InfoView, l: MapsListingView, physical: Seq<u64>)
    ensures
        ({
            let (new, r) = record_outcome(old, l, physical);
            &&& new.pid == old.pid
            &&& r == Ok::<State, InfoErr>(State::NotChanged) ==> new == old
            &&& r != Ok::<State, InfoErr>(State::NotChanged) ==> new.maps == old.maps.push(
                listing_map(l, physical),
            )
            &&& r == Ok::<State, InfoErr>(State::Initial) ==> new.maps.len() == 1
            &&& r == Ok::<State, InfoErr>(State::Changed) ==> new.maps.len() >= 2 && new.maps[new.maps.len() - 1]
                != new.maps[new.maps.len() - 2]
        }),
{
    let (new, r) = record_outcome(old, l, physical);
    if r == Ok::<State, InfoErr>(State::Changed) {
        assert(new.maps[new.maps.len() - 2] == old.maps.last());
    }
}

// ---------------------------------------------------------------------------
// Texts without carriage returns
// ---------------------------------------------------------------------------

/// Every snapshot text of the history is free of carriage returns.
pub open spec fn history_carriage_free(v: InfoView) -> bool {
    forall|i: int| 0 <= i < v.maps.len() ==> no_carriage_return(#[trigger] map_text(v.maps[i]))
}

proof fn lemma_segment_line_carriage_free(s: SegmentView)
    requires
        no_carriage_return(s.size),
        no_carriage_return(s.permissions),
        no_carriage_return(s.path),
    ensures
        no_carriage_return(segment_line(s)),
{
    lemma_numerals_no_carriage_return(s.address as nat);
    lemma_numerals_no_carriage_return(s.physical as nat);
    let a = pad_left(hex_text(s.address as nat), 16, '0');
    let b = pad_left(hex_text(s.physical as nat), 14, ' ');
    let c = pad_left(s.size, 6, ' ');
    let p = pad_left(s.permissions, 4, ' ');
    let q = pad_left(s.path, 6, ' ');
    lemma_padding_no_carriage_return(hex_text(s.address as nat), 16, '0');
    lemma_padding_no_carriage_return(hex_text(s.physical as nat), 14, ' ');
    lemma_padding_no_carriage_return(s.size, 6, ' ');
    lemma_padding_no_carriage_return(s.permissions, 4, ' ');
    lemma_padding_no_carriage_return(s.path, 6, ' ');
    let sp = seq![' '];
    let sp2 = seq![' ', ' '];
    let nl = seq!['\n'];
    assert(no_carriage_return(sp));
    assert(no_carriage_return(sp2));
    assert(no_carriage_return(nl));
    lemma_no_carriage_return_concat(a, sp);
    lemma_no_carriage_return_concat(a + sp, b);
    lemma_no_carriage_return_concat(a + sp + b, sp2);
    lemma_no_carriage_return_concat(a + sp + b + sp2, c);
    lemma_no_carriage_return_concat(a + sp + b + sp2 + c, sp);
    lemma_no_carriage_return_concat(a + sp + b + sp2 + c + sp, p);
    lemma_no_carriage_return_concat(a + sp + b + sp2 + c + sp + p, sp);
    lemma_no_carriage_return_concat(a + sp + b + sp2 + c + sp + p + sp, q);
    lemma_no_carriage_return_concat(a + sp + b + sp2 + c + sp + p + sp + q, nl);
}

proof fn lemma_segments_text_carriage_free(s: Seq<SegmentView>)
    requires
        forall|i: int| 0 <= i < s.len() ==> no_carriage_return(#[trigger] segment_line(s[i])),
    ensures
        no_carriage_return(segments_text(s)),
    decreases s.len(),
{
    if s.len() == 0 {
        assert(no_carriage_return(Seq::<char>::empty()));
    } else {
        let rest = s.drop_last();
        assert forall|i: int| 0 <= i < rest.len() implies no_carriage_return(
            #[trigger] segment_line(rest[i]),
        ) by {
            assert(rest[i] == s[i]);
        }
        lemma_segments_text_carriage_free(rest);
        assert(no_carriage_return(segment_line(s[s.len() - 1])));
        lemma_no_carriage_return_concat(segments_text(rest), segment_line(s.last()));
    }
}

proof fn lemma_total_line_carriage_free(total: u64)
    ensures
        no_carriage_return(total_line(total)),
{
    let w = total_word();
    assert(no_carriage_return(w));
    lemma_padding_no_carriage_return(w, 16, ' ');
    lemma_byte_size_no_carriage_return(total as nat);
    lemma_padding_no_carriage_return(byte_size_text(total as nat), 6, ' ');
    let a = pad_right(w, 16, ' ');
    let b = pad_left(byte_size_text(total as nat), 6, ' ');
    let sp = seq![' '];
    let end = seq![' ', '\n'];
    assert(no_carriage_return(sp));
    assert(no_carriage_return(end));
    lemma_no_carriage_return_concat(a, sp);
    lemma_no_carriage_return_concat(a + sp, b);
    lemma_no_carriage_return_concat(a + sp + b, end);
}

proof fn lemma_listing_map_carriage_free(l: MapsListingView, physical: Seq<u64>)
    requires
        entries_carriage_free(l.entries),
    ensures
        no_carriage_return(map_text(listing_map(l, physical))),
{
    let m = listing_map(l, physical);
    assert forall|i: int| 0 <= i < m.segments.len() implies no_carriage_return(
        #[trigger] segment_line(m.segments[i]),
    ) by {
        assert(no_carriage_return(l.entries[i].permissions));
        assert(no_carriage_return(l.entries[i].path));
        let e = l.entries[i];
        lemma_byte_size_no_carriage_return(e.size as nat);
        assert(m.segments[i] == entry_segment(e, physical_at(physical, i)));
        lemma_segment_line_carriage_free(m.segments[i]);
    }
    lemma_segments_text_carriage_free(m.segments);
    match l.outcome {
        Ok(total) => {
            lemma_total_line_carriage_free(total);
        },
        Err(_) => {},
    }
    assert(no_carriage_return(Seq::<char>::empty()));
    lemma_no_carriage_return_concat(segments_text(m.segments), m.size_total);
}

/// Law: recording keeps every snapshot text of a history free of carriage
/// returns, where the listing's columns hold none, as the columns of every
/// listing read from maps lines do
/// ([`crate::maps::lemma_listing_carriage_free`]). A new history
/// ([`InfoAll::new`]) holds no snapshot, so every history recorded from
/// read listings is free of them.
pub proof fn lemma_record_carriage_free(old: InfoView, l: MapsListingView, physical: Seq<u64>)
    requires
        history_carriage_free(old),
        entries_carriage_free(l.entries),
    ensures
        history_carriage_free(record_outcome(old, l, physical).0),
{
    lemma_listing_map_carriage_free(l, physical);
    let m = listing_map(l, physical);
    let new = record_outcome(old, l, physical).0;
    assert forall|i: int| 0 <= i < new.maps.len() implies no_carriage_return(
        #[trigger] map_text(new.maps[i]),
    ) by {
        if i < old.maps.len() {
            assert(new.maps[i] == old.maps[i]);
        } else {
            assert(new.maps[i] == m);
        }
    }
}

/// Law: a snapshot is dropped as `NotChanged` only when the history holds
/// a previous snapshot that equals it in its total line and in every field
/// of every segment: address, size, permissions, path and physical address.
/// A complete listing with segments whose snapshot differs from the
/// previous one in any of these, a physical address included, is kept as
/// `Changed`, after the previous one.
pub proof fn lemma_unchanged_only_when_equal(old: InfoView, l: MapsListingView, physical: Seq<u64>)
    ensures
        ({
            let (new, r) = record_outcome(old, l, physical);
            let m = listing_map(l, physical);
            let same = old.maps.len() > 0 && old.maps.last().size_total == m.size_total
                && old.maps.last().segments.len() == l.entries.len() && forall|k: int|
                0 <= k < l.entries.len() ==> {
                    let g = #[trigger] old.maps.last().segments[k];
                    &&& g.address == l.entries[k].address
                    &&& g.size == byte_size_text(l.entries[k].size as nat)
                    &&& g.permissions == l.entries[k].permissions
                    &&& g.path == l.entries[k].path
                    &&& g.physical == physical_at(physical, k)
                };
            &&& r == Ok::<State, InfoErr>(State::NotChanged) ==> same && new == old
            &&& (l.outcome is Ok && l.entries.len() > 0 && old.maps.len() > 0 && !same)
                ==> r == Ok::<State, InfoErr>(State::Changed) && new.maps == old.maps.push(m)
                && new.maps.len() == old.maps.len() + 1
        }),
{
    let m = listing_map(l, physical);
    if old.maps.len() > 0 {
        let prev = old.maps.last();
        if prev == m {
            assert forall|k: int| 0 <= k < l.entries.len() implies {
                let g = #[trigger] prev.segments[k];
                &&& g.address == l.entries[k].address
                &&& g.size == byte_size_text(l.entries[k].size as nat)
                &&& g.permissions == l.entries[k].permissions
                &&& g.path == l.entries[k].path
                &&& g.physical == physical_at(physical, k)
            } by {
                assert(m.segments[k] == entry_segment(l.entries[k], physical_at(physical, k)));
            }
        } else {
            if prev.size_total == m.size_total && prev.segments.len() == l.entries.len()
                && forall|k: int|
                0 <= k < l.entries.len() ==> {
                    let g = #[trigger] prev.segments[k];
                    &&& g.address == l.entries[k].address
                    &&& g.size == byte_size_text(l.entries[k].size as nat)
                    &&& g.permissions == l.entries[k].permissions
                    &&& g.path == l.entries[k].path
                    &&& g.physical == physical_at(physical, k)
                } {
                assert forall|k: int| 0 <= k < m.segments.len() implies prev.segments[k]
                    == m.segments[k] by {
                    assert(m.segments[k] == entry_segment(l.entries[k], physical_at(physical, k)));
                    let g = prev.segments[k];
                    assert(g.address == l.entries[k].address);
                }
                assert(prev.segments =~= m.segments);
                assert(prev == m);
            }
        }
    }
}

/// Law: the first sixteen characters of a segment's line are its address
/// in hexadecimal, and read back as that address.
pub proof fn lemma_address_column(s: SegmentView)
    ensures
        segment_line(s).take(16) == pad_left(hex_text(s.address as nat), 16, '0'),
        crate::text::hex_u64(segment_line(s).take(16)) == Some(s.address),
{
    crate::text::lemma_hex_text_len(s.address as nat);
    crate::text::lemma_hex_roundtrip(s.address, 16);
    let p = pad_left(hex_text(s.address as nat), 16, '0');
    assert(p.len() == 16);
    assert(segment_line(s).take(16) =~= p);
}

} // verus!
