//! The command palette's state machine: for each event (the trigger, a key,
//! a click) the next state and the effects the host performs.

use vstd::prelude::*;
use vstd::string::StringExecFns;

use crate::fuzzy::chars_of;
use crate::palette::{command_names, lemma_ranking_exists, name_matches, ranking, visible_commands};
use crate::registry::CommandRegistry;

verus! {

/// Calls `String::pop`: removes the last char of `s` and returns it, or
/// returns `None` and leaves `s` as it is when `s` is empty.
#[verifier::external_body]
fn string_pop(s: &mut String) -> (r: Option<char>)
    ensures
        old(s)@.len() == 0 ==> r is None && final(s)@ == old(s)@,
        old(s)@.len() > 0 ==> r == Some(old(s)@.last()) && final(s)@ == old(s)@.drop_last(),
{
    s.pop()
}

/// Whether two texts hold the same chars.
pub fn same_text(a: &str, b: &str) -> (r: bool)
    ensures
        r == (a@ == b@),
{
    let x = chars_of(a);
    let y = chars_of(b);
    if x.len() != y.len() {
        return false;
    }
    let mut i: usize = 0;
    while i < x.len()
        invariant
            x@ == a@,
            y@ == b@,
            x@.len() == y@.len(),
            i <= x@.len(),
            forall|k: int| 0 <= k < i ==> x@[k] == y@[k],
        decreases x@.len() - i,
    {
        if x[i] != y[i] {
            return false;
        }
        i += 1;
    }
    proof {
        assert(x@ =~= y@);
    }
    true
}

/// The keys the palette reacts to by name.
#[derive(Clone, Copy, Debug, PartialEq, Eq)]
pub enum PaletteKey {
    Escape,
    Backspace,
    Up,
    Down,
    Enter,
    Other,
}

/// Which of the palette's keys a key name stands for.
pub open spec fn key_kind(key: Seq<char>) -> PaletteKey {
    if key == "escape"@ {
        PaletteKey::Escape
    } else if key == "backspace"@ {
        PaletteKey::Backspace
    } else if key == "up"@ {
        PaletteKey::Up
    } else if key == "down"@ {
        PaletteKey::Down
    } else if key == "enter"@ {
        PaletteKey::Enter
    } else {
        PaletteKey::Other
    }
}

/// Which of the palette's keys a key name stands for.
pub fn classify_key(key: &str) -> (k: PaletteKey)
    ensures
        k == key_kind(key@),
{
    if same_text(key, "escape") {
        PaletteKey::Escape
    } else if same_text(key, "backspace") {
        PaletteKey::Backspace
    } else if same_text(key, "up") {
        PaletteKey::Up
    } else if same_text(key, "down") {
        PaletteKey::Down
    } else if same_text(key, "enter") {
        PaletteKey::Enter
    } else {
        PaletteKey::Other
    }
}

/// What to do with keyboard focus.
#[derive(Clone, Copy, Debug, PartialEq, Eq)]
pub enum FocusChange {
    /// Leave focus where it is.
    Keep,
    /// Remember what has focus, then focus the palette's input.
    Capture,
    /// Give focus back to what was remembered, if anything.
    Restore,
}

/// What the host does after an event: run a command (by index into the
/// registry), then change focus, then redraw.
#[derive(Clone, Copy, Debug, PartialEq, Eq)]
pub struct Effects {
    pub run: Option<usize>,
    pub focus: FocusChange,
    pub redraw: bool,
}

/// Nothing to do.
pub open spec fn no_effects() -> Effects {
    Effects { run: None, focus: FocusChange::Keep, redraw: false }
}

/// Only a redraw.
pub open spec fn redraw_only() -> Effects {
    Effects { run: None, focus: FocusChange::Keep, redraw: true }
}

/// The palette's state: whether it is open, the query typed so far, and
/// the position of the highlighted entry among the listed commands.
pub ghost struct PaletteModel {
    pub open: bool,
    pub query: Seq<char>,
    pub selected: int,
}

/// A closed palette with an empty query and the first entry highlighted.
pub open spec fn closed_model() -> PaletteModel {
    PaletteModel { open: false, query: Seq::empty(), selected: 0 }
}

/// The trigger: opening keeps the query and highlights the first entry;
/// closing clears the query. Either way the palette is redrawn.
pub open spec fn toggle_step(m: PaletteModel) -> (PaletteModel, Effects) {
    if m.open {
        (closed_model(), Effects { run: None, focus: FocusChange::Restore, redraw: true })
    } else {
        (
            PaletteModel { open: true, query: m.query, selected: 0 },
            Effects { run: None, focus: FocusChange::Capture, redraw: true },
        )
    }
}

/// Dismissal: an open palette closes, clears its query and gives focus
/// back; a closed one is left alone.
pub open spec fn close_step(m: PaletteModel) -> (PaletteModel, Effects) {
    if m.open {
        (closed_model(), Effects { run: None, focus: FocusChange::Restore, redraw: true })
    } else {
        (m, no_effects())
    }
}

/// Moving the highlight by `delta` entries among `count`, wrapping around
/// at both ends; with nothing listed nothing moves.
pub open spec fn move_step(m: PaletteModel, delta: int, count: int) -> (PaletteModel, Effects) {
    if count <= 0 {
        (m, no_effects())
    } else {
        (
            PaletteModel { open: m.open, query: m.query, selected: (m.selected + delta) % count },
            redraw_only(),
        )
    }
}

/// The command at position `selected` of what is listed for `query`.
pub open spec fn selected_command(names: Seq<Seq<char>>, query: Seq<char>, selected: int) -> Option<
    usize,
> {
    let listed = ranking(names, query);
    if 0 <= selected < listed.len() {
        Some(listed[selected])
    } else {
        None
    }
}

/// Execution: run the highlighted command, if any is listed there, then
/// dismiss the palette.
pub open spec fn execute_step(m: PaletteModel, names: Seq<Seq<char>>) -> (PaletteModel, Effects) {
    let closed = close_step(m);
    (
        closed.0,
        Effects {
            run: selected_command(names, m.query, m.selected),
            focus: closed.1.focus,
            redraw: closed.1.redraw,
        },
    )
}

/// A new query; the highlight stays where it was.
pub open spec fn edit_step(m: PaletteModel, query: Seq<char>) -> (PaletteModel, Effects) {
    (PaletteModel { open: m.open, query: query, selected: m.selected }, redraw_only())
}

/// A key press. Escape dismisses, backspace drops the last char of the
/// query, up and down move the highlight among the listed commands, enter
/// executes; any other key adds the text it types to the query, unless it
/// is part of a chord with the platform, control or alt modifier.
pub open spec fn key_step(
    m: PaletteModel,
    names: Seq<Seq<char>>,
    key: PaletteKey,
    key_char: Option<Seq<char>>,
    chord: bool,
) -> (PaletteModel, Effects) {
    match key {
        PaletteKey::Escape => close_step(m),
        PaletteKey::Backspace => if m.query.len() > 0 {
            edit_step(m, m.query.drop_last())
        } else {
            (m, no_effects())
        },
        PaletteKey::Up => move_step(m, -1, ranking(names, m.query).len() as int),
        PaletteKey::Down => move_step(m, 1, ranking(names, m.query).len() as int),
        PaletteKey::Enter => execute_step(m, names),
        PaletteKey::Other => if chord {
            (m, no_effects())
        } else {
            match key_char {
                Some(text) => edit_step(m, m.query + text),
                None => (m, no_effects()),
            }
        },
    }
}

/// The command palette's state.
pub struct PaletteState {
    open: bool,
    query: String,
    selected_index: usize,
}

impl View for PaletteState {
    type V = PaletteModel;

    closed spec fn view(&self) -> PaletteModel {
        PaletteModel { open: self.open, query: self.query@, selected: self.selected_index as int }
    }
}

impl PaletteState {
    /// A closed palette with an empty query.
    pub fn new() -> (r: Self)
        ensures
            r@ == closed_model(),
    {
        let r = PaletteState { open: false, query: String::new(), selected_index: 0 };
        proof {
            assert(r@.query =~= Seq::<char>::empty());
        }
        r
    }

    /// Whether the palette is open.
    pub fn is_open(&self) -> (r: bool)
        ensures
            r == self@.open,
    {
        self.open
    }

    /// The query typed so far.
    pub fn query(&self) -> (r: &str)
        ensures
            r@ == self@.query,
    {
        self.query.as_str()
    }

    /// The position of the highlighted entry.
    pub fn selected_index(&self) -> (r: usize)
        ensures
            r as int == self@.selected,
    {
        self.selected_index
    }

    /// The highlight's position is a `usize`: never negative.
    pub proof fn lemma_selection_nonnegative(&self)
        ensures
            0 <= self@.selected <= usize::MAX,
    {
    }

    /// Clear the query and highlight the first entry.
    fn reset_query(&mut self)
        ensures
            final(self)@ == (PaletteModel { open: old(self)@.open, query: Seq::empty(), selected: 0 }),
    {
        self.query = String::new();
        self.selected_index = 0;
        proof {
            assert(self@.query =~= Seq::<char>::empty());
        }
    }

    /// The trigger was pressed: open a closed palette, close an open one.
    pub fn toggle(&mut self) -> (e: Effects)
        ensures
            final(self)@ == toggle_step(old(self)@).0,
            e == toggle_step(old(self)@).1,
    {
        self.open = !self.open;
        if self.open {
            self.selected_index = 0;
            Effects { run: None, focus: FocusChange::Capture, redraw: true }
        } else {
            self.reset_query();
            Effects { run: None, focus: FocusChange::Restore, redraw: true }
        }
    }

    /// Dismiss the palette.
    pub fn close(&mut self) -> (e: Effects)
        ensures
            final(self)@ == close_step(old(self)@).0,
            e == close_step(old(self)@).1,
    {
        if self.open {
            self.open = false;
            self.reset_query();
            Effects { run: None, focus: FocusChange::Restore, redraw: true }
        } else {
            Effects { run: None, focus: FocusChange::Keep, redraw: false }
        }
    }

    /// Move the highlight by `delta` entries among `count`, wrapping around.
    pub fn move_selection(&mut self, delta: isize, count: usize) -> (e: Effects)
        ensures
            final(self)@ == move_step(old(self)@, delta as int, count as int).0,
            e == move_step(old(self)@, delta as int, count as int).1,
    {
        if count == 0 {
            return Effects { run: None, focus: FocusChange::Keep, redraw: false };
        }
        let m = count as u128;
        let current = (self.selected_index as u128) % m;
        let next: u128 = if delta >= 0 {
            (current + (delta as u128) % m) % m
        } else {
            let back = ((0i128 - delta as i128) as u128) % m;
            (current + m - back) % m
        };
        proof {
            let s = self.selected_index as int;
            let n = count as int;
            if delta >= 0 {
                vstd::arithmetic::div_mod::lemma_add_mod_noop(s, delta as int, n);
            } else {
                let d = -(delta as int);
                vstd::arithmetic::div_mod::lemma_sub_mod_noop(s, d, n);
                vstd::arithmetic::div_mod::lemma_mod_add_multiples_vanish(s % n - d % n, n);
                assert(s + delta == s - d);
            }
        }
        self.selected_index = next as usize;
        Effects { run: None, focus: FocusChange::Keep, redraw: true }
    }

    /// Run the highlighted command, if one is listed there, and dismiss the
    /// palette.
    pub fn execute_selected<H>(&mut self, registry: &CommandRegistry<H>) -> (e: Effects)
        ensures
            final(self)@ == execute_step(old(self)@, command_names(registry@)).0,
            e == execute_step(old(self)@, command_names(registry@)).1,
    {
        let listed = visible_commands(registry, self.query.as_str());
        let run = if self.selected_index < listed.len() {
            Some(listed[self.selected_index])
        } else {
            None
        };
        let closed = self.close();
        Effects { run, focus: closed.focus, redraw: closed.redraw }
    }

    /// Highlight the entry at `index` and execute it.
    pub fn select_and_execute<H>(&mut self, index: usize, registry: &CommandRegistry<H>) -> (e:
        Effects)
        ensures
            final(self)@ == execute_step(
                PaletteModel { selected: index as int, ..old(self)@ },
                command_names(registry@),
            ).0,
            e == execute_step(
                PaletteModel { selected: index as int, ..old(self)@ },
                command_names(registry@),
            ).1,
    {
        self.selected_index = index;
        self.execute_selected(registry)
    }

    /// A key was pressed in the palette's input. `key` names the key,
    /// `key_char` is the text it types, if any, and `platform`, `control`
    /// and `alt` tell which modifiers were held.
    pub fn handle_key<H>(
        &mut self,
        registry: &CommandRegistry<H>,
        key: &str,
        key_char: Option<&str>,
        platform: bool,
        control: bool,
        alt: bool,
    ) -> (e: Effects)
        ensures
            final(self)@ == key_step(
                old(self)@,
                command_names(registry@),
                key_kind(key@),
                match key_char {
                    Some(text) => Some(text@),
                    None => None,
                },
                platform || control || alt,
            ).0,
            e == key_step(
                old(self)@,
                command_names(registry@),
                key_kind(key@),
                match key_char {
                    Some(text) => Some(text@),
                    None => None,
                },
                platform || control || alt,
            ).1,
    {
        match classify_key(key) {
            PaletteKey::Escape => self.close(),
            PaletteKey::Backspace => {
                if !self.query.as_str().is_empty() {
                    string_pop(&mut self.query);
                    Effects { run: None, focus: FocusChange::Keep, redraw: true }
                } else {
                    Effects { run: None, focus: FocusChange::Keep, redraw: false }
                }
            },
            PaletteKey::Up => {
                let count = visible_commands(registry, self.query.as_str()).len();
                self.move_selection(-1, count)
            },
            PaletteKey::Down => {
                let count = visible_commands(registry, self.query.as_str()).len();
                self.move_selection(1, count)
            },
            PaletteKey::Enter => self.execute_selected(registry),
            PaletteKey::Other => {
                if platform || control || alt {
                    return Effects { run: None, focus: FocusChange::Keep, redraw: false };
                }
                match key_char {
                    Some(text) => {
                        self.query.append(text);
                        Effects { run: None, focus: FocusChange::Keep, redraw: true }
                    },
                    None => Effects { run: None, focus: FocusChange::Keep, redraw: false },
                }
            },
        }
    }
}

/// Pressing the trigger twice brings the palette back to whether it was
/// open; an open palette closed and reopened this way has an empty query.
pub proof fn lemma_toggle_twice(m: PaletteModel)
    ensures
        toggle_step(toggle_step(m).0).0.open == m.open,
        m.open ==> toggle_step(toggle_step(m).0).0 == (PaletteModel {
            open: true,
            query: Seq::empty(),
            selected: 0,
        }),
{
}

/// Dismissing twice is dismissing once, and the second time does nothing.
pub proof fn lemma_close_idempotent(m: PaletteModel)
    ensures
        close_step(close_step(m).0).0 == close_step(m).0,
        close_step(close_step(m).0).1 == no_effects(),
{
}

/// After a move among `count > 0` entries the highlight is on one of them.
pub proof fn lemma_move_in_range(m: PaletteModel, delta: int, count: int)
    requires
        count > 0,
    ensures
        0 <= move_step(m, delta, count).0.selected < count,
{
}

/// Moving down and then up puts the highlight back where it was, when it
/// was on a listed entry; so does moving up and then down.
pub proof fn lemma_move_down_up(m: PaletteModel, count: int)
    requires
        0 <= m.selected < count,
    ensures
        move_step(move_step(m, 1, count).0, -1, count).0 == m,
        move_step(move_step(m, -1, count).0, 1, count).0 == m,
{
    let s = m.selected;
    vstd::arithmetic::div_mod::lemma_add_mod_noop(s, 1, count);
    vstd::arithmetic::div_mod::lemma_sub_mod_noop((s + 1) % count, 1, count);
    vstd::arithmetic::div_mod::lemma_mod_twice(s + 1, count);
    vstd::arithmetic::div_mod::lemma_sub_mod_noop(s + 1, 1, count);
    vstd::arithmetic::div_mod::lemma_small_mod(s as nat, count as nat);
    vstd::arithmetic::div_mod::lemma_add_mod_noop((s - 1) % count, 1, count);
    vstd::arithmetic::div_mod::lemma_mod_twice(s - 1, count);
    vstd::arithmetic::div_mod::lemma_add_mod_noop(s - 1, 1, count);
    assert((((s + 1) % count) + -1) % count == s % count) by {
        assert(((s + 1) % count) + -1 == ((s + 1) % count) - 1);
    }
}

/// Executing always leaves the palette closed, and running a command is the
/// only effect that differs from dismissing it.
pub proof fn lemma_execute_closes(m: PaletteModel, names: Seq<Seq<char>>)
    ensures
        !execute_step(m, names).0.open,
        execute_step(m, names).0 == close_step(m).0,
        execute_step(m, names).1.focus == close_step(m).1.focus,
{
}

/// Backspace right after typing one char gives back the palette as it was:
/// the same query and the same highlight.
pub proof fn lemma_backspace_undoes_typing(m: PaletteModel, names: Seq<Seq<char>>, c: char)
    ensures
        key_step(
            key_step(m, names, PaletteKey::Other, Some(seq![c]), false).0,
            names,
            PaletteKey::Backspace,
            None,
            false,
        ).0 == m,
{
    assert((m.query + seq![c]).drop_last() =~= m.query);
}

/// What execution runs, if anything, is a listed command whose name
/// matches the query; it runs nothing exactly when the highlight is past
/// the listed commands.
pub proof fn lemma_executed_command_matches(m: PaletteModel, names: Seq<Seq<char>>)
    requires
        names.len() <= usize::MAX,
    ensures
        execute_step(m, names).1.run matches Some(i) ==> i < names.len() && name_matches(
            names,
            m.query,
            i as int,
        ),
        execute_step(m, names).1.run is None <==> !(0 <= m.selected < ranking(names, m.query).len()),
{
    lemma_ranking_exists(names, m.query);
    let listed = ranking(names, m.query);
    if 0 <= m.selected < listed.len() {
        assert(listed[m.selected] < names.len());
    }
}

/// Editing the query, by typing text without a chord or by backspace,
/// changes neither whether the palette is open nor the highlight, and
/// runs nothing.
pub proof fn lemma_editing_keeps_highlight(
    m: PaletteModel,
    names: Seq<Seq<char>>,
    key: PaletteKey,
    key_char: Option<Seq<char>>,
)
    requires
        key == PaletteKey::Backspace || key == PaletteKey::Other,
    ensures
        key_step(m, names, key, key_char, false).0.open == m.open,
        key_step(m, names, key, key_char, false).0.selected == m.selected,
        key_step(m, names, key, key_char, false).1.run is None,
        key_step(m, names, key, key_char, false).1.focus == FocusChange::Keep,
{
}

/// The down arrow moves the highlight to the next listed entry and the up
/// arrow to the previous one, wrapping around at both ends; the palette's
/// query and whether it is open stay, and nothing runs. With nothing listed
/// the arrows change nothing.
pub proof fn lemma_arrow_keys(
    m: PaletteModel,
    names: Seq<Seq<char>>,
    key_char: Option<Seq<char>>,
    chord: bool,
)
    ensures
        ({
            let count = ranking(names, m.query).len() as int;
            let down = key_step(m, names, PaletteKey::Down, key_char, chord);
            let up = key_step(m, names, PaletteKey::Up, key_char, chord);
            &&& down.0.open == m.open && down.0.query == m.query
            &&& up.0.open == m.open && up.0.query == m.query
            &&& down.1.run is None && up.1.run is None
            &&& count > 0 ==> down.0.selected == (m.selected + 1) % count
            &&& count > 0 ==> up.0.selected == (m.selected - 1) % count
            &&& count > 0 && 0 <= m.selected < count - 1 ==> down.0.selected == m.selected + 1
            &&& count > 0 && m.selected == count - 1 ==> down.0.selected == 0
            &&& count > 0 && 0 < m.selected < count ==> up.0.selected == m.selected - 1
            &&& count > 0 && m.selected == 0 ==> up.0.selected == count - 1
            &&& count == 0 ==> down.0 == m && up.0 == m
        }),
{
    let count = ranking(names, m.query).len() as int;
    if count > 0 {
        assert((m.selected + -1) == m.selected - 1);
        if 0 <= m.selected < count - 1 {
            vstd::arithmetic::div_mod::lemma_small_mod((m.selected + 1) as nat, count as nat);
        }
        if m.selected == count - 1 {
            vstd::arithmetic::div_mod::lemma_mod_self_0(count);
        }
        if 0 < m.selected < count {
            vstd::arithmetic::div_mod::lemma_small_mod((m.selected - 1) as nat, count as nat);
        }
        if m.selected == 0 {
            vstd::arithmetic::div_mod::lemma_mod_add_multiples_vanish(-1, count);
            vstd::arithmetic::div_mod::lemma_small_mod((count - 1) as nat, count as nat);
        }
    }
}

/// Executing (enter, or a click that first moves the highlight) runs the
/// listed command at the highlight, when the highlight is on a listed
/// entry, and runs nothing otherwise.
pub proof fn lemma_execute_runs_highlighted(m: PaletteModel, names: Seq<Seq<char>>, index: int)
    ensures
        0 <= m.selected < ranking(names, m.query).len() ==> execute_step(m, names).1.run == Some(
            ranking(names, m.query)[m.selected],
        ),
        !(0 <= m.selected < ranking(names, m.query).len()) ==> execute_step(m, names).1.run is None,
        0 <= m.selected < ranking(names, m.query).len() ==> key_step(
            m,
            names,
            PaletteKey::Enter,
            None,
            false,
        ).1.run == Some(ranking(names, m.query)[m.selected]),
        0 <= index < ranking(names, m.query).len() ==> execute_step(
            PaletteModel { selected: index, ..m },
            names,
        ).1.run == Some(ranking(names, m.query)[index]),
{
}

/// Typed text (without a chord) is appended to the query, whatever the
/// query was; backspace removes the query's last char; neither runs
/// anything or moves the highlight.
pub proof fn lemma_typing_appends(
    m: PaletteModel,
    names: Seq<Seq<char>>,
    text: Seq<char>,
    key_char: Option<Seq<char>>,
)
    ensures
        key_step(m, names, PaletteKey::Other, Some(text), false).0.query == m.query + text,
        key_step(m, names, PaletteKey::Other, Some(text), false).0.query.len() == m.query.len()
            + text.len(),
        forall|k: int|
            0 <= k < m.query.len() ==> #[trigger] key_step(
                m,
                names,
                PaletteKey::Other,
                Some(text),
                false,
            ).0.query[k] == m.query[k],
        forall|k: int|
            0 <= k < text.len() ==> key_step(m, names, PaletteKey::Other, Some(text), false).0.query[m.query.len()
                + k] == #[trigger] text[k],
        m.query.len() > 0 ==> key_step(m, names, PaletteKey::Backspace, key_char, false).0.query
            == m.query.subrange(0, m.query.len() - 1),
        m.query.len() == 0 ==> key_step(m, names, PaletteKey::Backspace, key_char, false).0 == m,
        key_step(m, names, PaletteKey::Other, Some(text), true).0 == m,
{
}

/// Opening the palette highlights the first entry and keeps the query;
/// every way of closing it (the trigger, escape, execution) clears the
/// query and highlights the first entry again.
pub proof fn lemma_open_and_close_reset(m: PaletteModel, names: Seq<Seq<char>>)
    ensures
        !m.open ==> toggle_step(m).0.open && toggle_step(m).0.selected == 0 && toggle_step(m).0.query
            == m.query,
        m.open ==> !toggle_step(m).0.open && toggle_step(m).0.selected == 0 && toggle_step(m).0.query.len()
            == 0,
        m.open ==> !close_step(m).0.open && close_step(m).0.selected == 0 && close_step(m).0.query.len()
            == 0,
        m.open ==> key_step(m, names, PaletteKey::Escape, None, false).0.selected == 0 && key_step(
            m,
            names,
            PaletteKey::Escape,
            None,
            false,
        ).0.query.len() == 0,
        m.open ==> !execute_step(m, names).0.open && execute_step(m, names).0.selected == 0
            && execute_step(m, names).0.query.len() == 0,
{
}

} // verus!
