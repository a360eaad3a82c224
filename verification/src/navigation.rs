//! What the viewer does on a key press: which snapshot it shows, whether as
//! a diff against the previous snapshot, and when it quits.
use vstd::prelude::*;

verus! {

/// Which snapshot is shown, and whether as a diff.
#[derive(Debug, Clone, Copy, PartialEq, Eq, Structural)]
pub struct ViewState {
    /// Position of the shown snapshot, oldest first.
    pub index: usize,
    /// Whether the diff against the previous snapshot is shown.
    pub diff: bool,
}

/// A screen to draw: the snapshot at `index`, alone or as a diff against the
/// one before it, with `total` (the position of the newest snapshot) in the
/// status line.
#[derive(Debug, Clone, Copy, PartialEq, Eq, Structural)]
pub struct Screen {
    pub index: usize,
    pub total: usize,
    pub with_diff: bool,
}

/// What the viewer does after a key press.
#[derive(Debug, Clone, Copy, PartialEq, Eq, Structural)]
pub enum Action {
    /// Leave the viewer.
    Quit,
    /// Redraw the terminal.
    Draw(Screen),
    /// Nothing to draw.
    Stay,
}

/// The keys that read the number of snapshots.
pub open spec fn uses_snapshots(key: char) -> bool {
    key == 'n' || key == 'p' || key == 'r' || key == 'd' || key == 's' || key == 'e'
}

/// The screen for a state with `count` snapshots: a diff is shown only where
/// the diff view is on and a previous snapshot exists.
pub open spec fn screen_of(s: ViewState, count: nat, with_diff: bool) -> Action {
    Action::Draw(Screen { index: s.index, total: (count - 1) as usize, with_diff })
}

/// The effect of a key with `count` snapshots kept:
/// `q` quits; `n` shows the next snapshot (the newest stays), `p` the
/// previous (the oldest stays), `s` the oldest, `e` the newest; `r` redraws;
/// `d` switches the diff view. A diff is never drawn for the oldest
/// snapshot, and `s`, `e` and `p` at the two oldest draw without the diff;
/// `n` with the diff view on and nothing to compare draws nothing. Other
/// keys do nothing.
pub open spec fn key_step(s: ViewState, key: char, count: nat) -> (ViewState, Action) {
    if key == 'q' {
        (s, Action::Quit)
    } else if key == 'n' {
        let i = if s.index + 1 == count || s.index + 2 == count {
            (count - 1) as usize
        } else {
            (s.index + 1) as usize
        };
        let t = ViewState { index: i, diff: s.diff };
        if !s.diff {
            (t, screen_of(t, count, false))
        } else if i != 0 {
            (t, screen_of(t, count, true))
        } else {
            (t, Action::Stay)
        }
    } else if key == 'p' {
        if s.index <= 1 {
            let t = ViewState { index: 0, diff: s.diff };
            (t, screen_of(t, count, false))
        } else {
            let t = ViewState { index: (s.index - 1) as usize, diff: s.diff };
            (t, screen_of(t, count, s.diff))
        }
    } else if key == 'r' {
        (s, screen_of(s, count, s.diff && s.index != 0))
    } else if key == 'd' {
        let t = ViewState { index: s.index, diff: !s.diff };
        (t, screen_of(t, count, t.diff && t.index != 0))
    } else if key == 's' {
        let t = ViewState { index: 0, diff: s.diff };
        (t, screen_of(t, count, false))
    } else if key == 'e' {
        let t = ViewState { index: (count - 1) as usize, diff: s.diff };
        (t, screen_of(t, count, false))
    } else {
        (s, Action::Stay)
    }
}

/// What the viewer does on the key `key` with `count` snapshots kept, as
/// [`key_step`] states. Where the shown snapshot exists, the next one does
/// too, and a drawn diff has a snapshot before it.
pub fn on_key(state: ViewState, key: char, count: usize) -> (r: (ViewState, Action))
    requires
        uses_snapshots(key) ==> count >= 1,
        key == 'n' && state.index + 1 != count ==> count >= 2,
        key == 'n' && state.index + 1 != count && state.index + 2 != count ==> state.index
            < usize::MAX,
    ensures
        r == key_step(state, key, count as nat),
        state.index < count ==> r.0.index < count,
        r.1 matches Action::Draw(sc) ==> sc.index == r.0.index && (sc.with_diff ==> sc.index
            > 0),
{
    let total = if uses_snapshots_exec(key) {
        count - 1
    } else {
        0
    };
    if key == 'q' {
        (state, Action::Quit)
    } else if key == 'n' {
        let i = if state.index == count - 1 || state.index == count - 2 {
            count - 1
        } else {
            state.index + 1
        };
        let t = ViewState { index: i, diff: state.diff };
        if !state.diff {
            (t, Action::Draw(Screen { index: i, total, with_diff: false }))
        } else if i != 0 {
            (t, Action::Draw(Screen { index: i, total, with_diff: true }))
        } else {
            (t, Action::Stay)
        }
    } else if key == 'p' {
        if state.index == 0 || state.index == 1 {
            let t = ViewState { index: 0, diff: state.diff };
            (t, Action::Draw(Screen { index: 0, total, with_diff: false }))
        } else {
            let i = state.index - 1;
            let t = ViewState { index: i, diff: state.diff };
            (t, Action::Draw(Screen { index: i, total, with_diff: state.diff }))
        }
    } else if key == 'r' {
        let with_diff = state.index != 0 && state.diff;
        (state, Action::Draw(Screen { index: state.index, total, with_diff }))
    } else if key == 'd' {
        let t = ViewState { index: state.index, diff: !state.diff };
        let with_diff = state.index != 0 && t.diff;
        (t, Action::Draw(Screen { index: state.index, total, with_diff }))
    } else if key == 's' {
        let t = ViewState { index: 0, diff: state.diff };
        (t, Action::Draw(Screen { index: 0, total, with_diff: false }))
    } else if key == 'e' {
        let t = ViewState { index: count - 1, diff: state.diff };
        (t, Action::Draw(Screen { index: count - 1, total, with_diff: false }))
    } else {
        (state, Action::Stay)
    }
}

fn uses_snapshots_exec(key: char) -> (b: bool)
    ensures
        b == uses_snapshots(key),
{
    key == 'n' || key == 'p' || key == 'r' || key == 'd' || key == 's' || key == 'e'
}

/// Law: with at least one snapshot and a shown snapshot that exists, every
/// key leaves the shown snapshot existing.
pub proof fn lemma_index_stays_in_range(s: ViewState, key: char, count: nat)
    requires
        count >= 1,
        s.index < count,
    ensures
        key_step(s, key, count).0.index < count,
{
}

/// Law: a drawn diff always has a snapshot before the one it shows.
pub proof fn lemma_diff_has_predecessor(s: ViewState, key: char, count: nat)
    ensures
        key_step(s, key, count).1 matches Action::Draw(sc) ==> (sc.with_diff ==> sc.index > 0),
{
}

/// Law: switching the diff view twice restores the state.
pub proof fn lemma_toggle_twice(s: ViewState, count: nat)
    ensures
        key_step(key_step(s, 'd', count).0, 'd', count).0 == s,
{
}

/// Law: `p` after `n` returns to the shown snapshot wherever a newer one
/// exists.
pub proof fn lemma_next_then_previous(s: ViewState, count: nat)
    requires
        s.index + 1 < count,
        count <= usize::MAX,
    ensures
        key_step(key_step(s, 'n', count).0, 'p', count).0 == s,
{
}

/// Law: `s` and `e` show the oldest and the newest snapshot, and keep the
/// diff view as it was.
pub proof fn lemma_start_and_end(s: ViewState, count: nat)
    requires
        count >= 1,
        count <= usize::MAX,
    ensures
        key_step(s, 's', count).0 == (ViewState { index: 0, diff: s.diff }),
        key_step(s, 'e', count).0 == (ViewState { index: (count - 1) as usize, diff: s.diff }),
{
}

/// Law: `n` at the newest snapshot and `p` at the oldest leave the state as
/// it is.
pub proof fn lemma_ends_are_fixed(s: ViewState, count: nat)
    requires
        count >= 1,
    ensures
        s.index + 1 == count ==> key_step(s, 'n', count).0 == s,
        s.index == 0 ==> key_step(s, 'p', count).0 == s,
{
}

/// Law: only `d` switches the diff view; every other key keeps it as it
/// was. A drawn screen shows a diff only while the diff view of the new
/// state is on, and never for the oldest snapshot; for every key but `e`
/// it shows one exactly then, and `s` and `e` never show one.
pub proof fn lemma_diff_follows_the_view(s: ViewState, key: char, count: nat)
    ensures
        key != 'd' ==> key_step(s, key, count).0.diff == s.diff,
        key == 'd' ==> key_step(s, key, count).0.diff == !s.diff,
        key_step(s, key, count).1 matches Action::Draw(sc) ==> (sc.with_diff ==> key_step(
            s,
            key,
            count,
        ).0.diff && sc.index > 0),
        key != 'e' ==> (key_step(s, key, count).1 matches Action::Draw(sc) ==> sc.with_diff == (
        key_step(s, key, count).0.diff && sc.index > 0)),
        key == 's' || key == 'e' ==> (key_step(s, key, count).1 matches Action::Draw(sc)
            ==> !sc.with_diff),
{
}

/// Law: `r` keeps the state and redraws the shown snapshot, as a diff
/// exactly when the diff view is on and a previous snapshot exists.
pub proof fn lemma_redraw(s: ViewState, count: nat)
    requires
        count >= 1,
    ensures
        key_step(s, 'r', count).0 == s,
        key_step(s, 'r', count).1 == Action::Draw(
            Screen { index: s.index, total: (count - 1) as usize, with_diff: s.diff && s.index > 0 },
        ),
{
}

} // verus!
