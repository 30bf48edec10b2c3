//! The line editor of the interactive prompt, as a state machine: the caller
//! reads a key, hands it over, and carries out the action it gets back
//! (redrawing the prompt, running a command, or stopping).

use crate::text::{lemma_trim_idempotent, spec_trim, string_from_chars, trim_range};
use vstd::prelude::*;

verus! {

/// The byte of the escape key, which starts an arrow-key sequence.
pub const ESCAPE: u8 = 0x1b;

/// What the editor holds, as plain sequences.
pub struct EditorView {
    pub history: Seq<Seq<char>>,
    pub history_pos: Option<int>,
    pub saved_input: Seq<char>,
    pub current_input: Seq<char>,
}

/// What the caller must do after a key.
pub enum ActionView {
    Nothing,
    Redraw,
    Submit(Option<Seq<char>>),
    Exit,
    ReadEscape,
}

/// The editor's invariant: the selected history entry exists.
pub open spec fn editor_wf(v: EditorView) -> bool {
    v.history_pos matches Some(p) ==> 0 <= p < v.history.len()
}

/// Whether `b` is an ASCII control byte.
pub open spec fn is_control_byte(b: u8) -> bool {
    b < 32 || b == 127
}

/// The editor after Enter, and the command it submits: the trimmed input,
/// recorded in the history unless it repeats the last entry; blank input
/// submits nothing.
pub open spec fn enter_step(v: EditorView) -> (EditorView, ActionView) {
    let command = spec_trim(v.current_input);
    let history = if command.len() > 0 && !(v.history.len() > 0 && v.history.last() == command) {
        v.history.push(command)
    } else {
        v.history
    };
    (
        EditorView { history, history_pos: None, saved_input: Seq::empty(), current_input: Seq::empty() },
        ActionView::Submit(if command.len() > 0 { Some(command) } else { None }),
    )
}

/// The editor after a key byte, and what the caller must do.
pub open spec fn key_step(v: EditorView, byte: u8) -> (EditorView, ActionView) {
    if byte == 10 || byte == 13 {
        enter_step(v)
    } else if byte == 0x7f || byte == 0x08 {
        if v.current_input.len() > 0 {
            (
                EditorView {
                    current_input: v.current_input.drop_last(),
                    history_pos: None,
                    saved_input: Seq::empty(),
                    ..v
                },
                ActionView::Redraw,
            )
        } else {
            (v, ActionView::Nothing)
        }
    } else if byte == ESCAPE {
        (v, ActionView::ReadEscape)
    } else if byte == 3 || byte == 4 {
        (v, ActionView::Exit)
    } else if is_control_byte(byte) {
        (v, ActionView::Nothing)
    } else {
        (
            EditorView {
                current_input: v.current_input.push(byte as char),
                history_pos: None,
                saved_input: Seq::empty(),
                ..v
            },
            ActionView::Redraw,
        )
    }
}

/// The editor after the arrow-up sequence: select the previous history entry
/// (the newest one first, saving the input being typed).
pub open spec fn up_step(v: EditorView) -> (EditorView, ActionView) {
    if v.history.len() == 0 {
        (v, ActionView::Nothing)
    } else {
        let (pos, saved) = match v.history_pos {
            None => (v.history.len() - 1, v.current_input),
            Some(p) => (if p > 0 { p - 1 } else { p }, v.saved_input),
        };
        (
            EditorView {
                history_pos: Some(pos),
                saved_input: saved,
                current_input: v.history[pos],
                ..v
            },
            ActionView::Redraw,
        )
    }
}

/// The editor after the arrow-down sequence: select the next history entry,
/// or go back to the saved input past the newest one.
pub open spec fn down_step(v: EditorView) -> (EditorView, ActionView) {
    match v.history_pos {
        None => (v, ActionView::Nothing),
        Some(p) => if p + 1 < v.history.len() {
            (
                EditorView { history_pos: Some(p + 1), current_input: v.history[p + 1], ..v },
                ActionView::Redraw,
            )
        } else {
            (
                EditorView { history_pos: None, current_input: v.saved_input, ..v },
                ActionView::Redraw,
            )
        },
    }
}

/// The editor after the two bytes that follow an escape (nothing when they
/// could not be read).
pub open spec fn escape_step(v: EditorView, sequence: Option<(u8, u8)>) -> (EditorView, ActionView) {
    match sequence {
        Some((91, 65)) => up_step(v),
        Some((91, 66)) => down_step(v),
        _ => (v, ActionView::Nothing),
    }
}

/// What the caller must do after a key.
#[derive(Debug, Clone, PartialEq, Eq)]
pub enum EditorAction {
    /// Nothing to do.
    Nothing,
    /// Redraw the prompt line with the current input.
    Redraw,
    /// End the line; run the command if there is one, then redraw the prompt.
    Submit(Option<String>),
    /// End the line and stop the prompt.
    Exit,
    /// Read the two bytes of an escape sequence and hand them over.
    ReadEscape,
}

/// The action as plain values.
pub open spec fn action_view(a: EditorAction) -> ActionView {
    match a {
        EditorAction::Nothing => ActionView::Nothing,
        EditorAction::Redraw => ActionView::Redraw,
        EditorAction::Submit(Some(s)) => ActionView::Submit(Some(s@)),
        EditorAction::Submit(None) => ActionView::Submit(None),
        EditorAction::Exit => ActionView::Exit,
        EditorAction::ReadEscape => ActionView::ReadEscape,
    }
}

/// The state of the interactive prompt's line editor.
pub struct LineEditor {
    history: Vec<Vec<char>>,
    history_pos: Option<usize>,
    saved_input: Vec<char>,
    current_input: Vec<char>,
}

impl View for LineEditor {
    type V = EditorView;

    closed spec fn view(&self) -> EditorView {
        EditorView {
            history: self.history@.map_values(|e: Vec<char>| e@),
            history_pos: match self.history_pos {
                Some(p) => Some(p as int),
                None => None,
            },
            saved_input: self.saved_input@,
            current_input: self.current_input@,
        }
    }
}

/// A copy of the characters.
fn copy_chars(chars: &Vec<char>) -> (copy: Vec<char>)
    ensures
        copy@ == chars@,
{
    let mut out: Vec<char> = Vec::new();
    let mut k: usize = 0;
    while k < chars.len()
        invariant
            k <= chars@.len(),
            out@ == chars@.subrange(0, k as int),
        decreases chars@.len() - k,
    {
        out.push(chars[k]);
        k += 1;
    }
    assert(out@ =~= chars@);
    out
}

/// Whether two character sequences are equal.
fn chars_equal(a: &Vec<char>, b: &Vec<char>) -> (equal: bool)
    ensures
        equal == (a@ == b@),
{
    if a.len() != b.len() {
        return false;
    }
    let mut k: usize = 0;
    while k < a.len()
        invariant
            k <= a@.len(),
            a@.len() == b@.len(),
            forall|m: int| 0 <= m < k ==> a@[m] == b@[m],
        decreases a@.len() - k,
    {
        if a[k] != b[k] {
            return false;
        }
        k += 1;
    }
    assert(a@ =~= b@);
    true
}

impl LineEditor {
    /// An editor with empty input and no history.
    pub fn new() -> (editor: Self)
        ensures
            editor@.history.len() == 0,
            editor@.history_pos is None,
            editor@.saved_input.len() == 0,
            editor@.current_input.len() == 0,
            editor_wf(editor@),
    {
        LineEditor {
            history: Vec::new(),
            history_pos: None,
            saved_input: Vec::new(),
            current_input: Vec::new(),
        }
    }

    /// The editor's invariant holds.
    pub closed spec fn well_formed(&self) -> bool {
        editor_wf(self@)
    }

    /// The input line being edited.
    pub fn current_text(&self) -> (text: String)
        ensures
            text@ == self@.current_input,
    {
        string_from_chars(&self.current_input)
    }

    /// The commands entered so far, oldest first.
    pub fn history_len(&self) -> (n: usize)
        ensures
            n == self@.history.len(),
    {
        self.history.len()
    }

    /// Handles one key byte and tells the caller what to do.
    pub fn on_byte(&mut self, byte: u8) -> (action: EditorAction)
        requires
            editor_wf(old(self)@),
        ensures
            final(self)@ == key_step(old(self)@, byte).0,
            action_view(action) == key_step(old(self)@, byte).1,
            editor_wf(final(self)@),
            (byte == 10 || byte == 13) && spec_trim(old(self)@.current_input).len() > 0 ==> {
                let command = spec_trim(old(self)@.current_input);
                let before = old(self)@.history;
                let after = final(self)@.history;
                &&& after.len() > 0 && after.last() == command
                &&& after.len() == before.len() ==> after == before
                &&& after.len() != before.len() ==> after.len() == before.len() + 1 && after.drop_last() == before
                &&& (after.len() == before.len()) == (before.len() > 0 && before.last() == command)
            },
    {
        proof {
            lemma_enter_records_command(old(self)@);
        }
        if byte == 10 || byte == 13 {
            let ghost before = self@;
            let command = trim_range(&self.current_input, 0, self.current_input.len());
            proof {
                assert(self.current_input@.subrange(0, self.current_input@.len() as int)
                    =~= self.current_input@);
            }
            let mut submitted: Option<String> = None;
            if command.len() > 0 {
                let n = self.history.len();
                let repeats = n > 0 && chars_equal(&self.history[n - 1], &command);
                if !repeats {
                    let text = string_from_chars(&command);
                    self.history.push(command);
                    submitted = Some(text);
                } else {
                    submitted = Some(string_from_chars(&command));
                }
            }
            self.current_input = Vec::new();
            self.history_pos = None;
            self.saved_input = Vec::new();
            proof {
                assert(self@.history =~= enter_step(before).0.history);
                assert(self@.current_input =~= Seq::<char>::empty());
                assert(self@.saved_input =~= Seq::<char>::empty());
            }
            return EditorAction::Submit(submitted);
        }
        if byte == 0x7f || byte == 0x08 {
            if self.current_input.len() > 0 {
                let ghost before = self@;
                self.current_input.pop();
                self.history_pos = None;
                self.saved_input = Vec::new();
                proof {
                    assert(self@.current_input =~= before.current_input.drop_last());
                    assert(self@.saved_input =~= Seq::<char>::empty());
                }
                return EditorAction::Redraw;
            }
            return EditorAction::Nothing;
        }
        if byte == ESCAPE {
            return EditorAction::ReadEscape;
        }
        if byte == 3 || byte == 4 {
            return EditorAction::Exit;
        }
        if byte < 32 || byte == 127 {
            return EditorAction::Nothing;
        }
        let ghost before = self@;
        self.current_input.push(byte as char);
        self.history_pos = None;
        self.saved_input = Vec::new();
        proof {
            assert(self@.saved_input =~= Seq::<char>::empty());
        }
        EditorAction::Redraw
    }

    /// Handles the two bytes that followed an escape key (`None` when they
    /// could not be read): arrow up and arrow down walk the history.
    pub fn on_escape(&mut self, sequence: Option<(u8, u8)>) -> (action: EditorAction)
        requires
            editor_wf(old(self)@),
        ensures
            final(self)@ == escape_step(old(self)@, sequence).0,
            action_view(action) == escape_step(old(self)@, sequence).1,
            editor_wf(final(self)@),
    {
        match sequence {
            Some((91, 65)) => {
                let n = self.history.len();
                if n == 0 {
                    return EditorAction::Nothing;
                }
                let pos = match self.history_pos {
                    None => {
                        self.saved_input = copy_chars(&self.current_input);
                        n - 1
                    },
                    Some(p) => if p > 0 {
                        p - 1
                    } else {
                        p
                    },
                };
                self.history_pos = Some(pos);
                self.current_input = copy_chars(&self.history[pos]);
                EditorAction::Redraw
            },
            Some((91, 66)) => {
                let n = self.history.len();
                match self.history_pos {
                    None => EditorAction::Nothing,
                    Some(p) => {
                        if p + 1 < n {
                            self.history_pos = Some(p + 1);
                            self.current_input = copy_chars(&self.history[p + 1]);
                        } else {
                            self.history_pos = None;
                            self.current_input = copy_chars(&self.saved_input);
                        }
                        EditorAction::Redraw
                    },
                }
            },
            _ => EditorAction::Nothing,
        }
    }
}

/// Pressing arrow up and then arrow down while typing gives back the input
/// being typed, and leaves the history untouched.
pub proof fn lemma_up_then_down_restores_input(v: EditorView)
    requires
        editor_wf(v),
        v.history_pos is None,
        v.history.len() > 0,
    ensures
        escape_step(escape_step(v, Some((91u8, 65u8))).0, Some((91u8, 66u8))).0.current_input
            == v.current_input,
        escape_step(escape_step(v, Some((91u8, 65u8))).0, Some((91u8, 66u8))).0.history_pos is None,
        escape_step(escape_step(v, Some((91u8, 65u8))).0, Some((91u8, 66u8))).0.history == v.history,
{
}

/// Arrow up while typing shows the newest command.
pub proof fn lemma_up_shows_newest(v: EditorView)
    requires
        editor_wf(v),
        v.history_pos is None,
        v.history.len() > 0,
    ensures
        escape_step(v, Some((91u8, 65u8))).0.current_input == v.history.last(),
{
}

/// Entering a line never records the same command twice in a row, so a
/// history without adjacent repeats keeps that shape.
pub proof fn lemma_enter_keeps_history_without_repeats(v: EditorView)
    requires
        forall|i: int| 0 <= i < v.history.len() - 1 ==> #[trigger] v.history[i] != v.history[i + 1],
    ensures
        ({
            let h = enter_step(v).0.history;
            forall|i: int| 0 <= i < h.len() - 1 ==> #[trigger] h[i] != h[i + 1]
        }),
{
    let h = enter_step(v).0.history;
    assert forall|i: int| 0 <= i < h.len() - 1 implies #[trigger] h[i] != h[i + 1] by {
        if i + 1 == v.history.len() {
            assert(h[i] == v.history.last());
        }
    }
}

/// A history whose entries are non-empty trimmed commands, no two adjacent
/// ones equal.
pub open spec fn history_clean(h: Seq<Seq<char>>) -> bool {
    &&& forall|i: int| 0 <= i < h.len() ==> (#[trigger] h[i]).len() > 0 && spec_trim(h[i]) == h[i]
    &&& forall|i: int| 0 <= i < h.len() - 1 ==> #[trigger] h[i] != h[i + 1]
}

/// The history stays clean under every key and escape sequence: Enter adds
/// only a non-empty trimmed command that differs from the last entry, and no
/// other key changes the history. It starts clean, empty.
pub proof fn lemma_history_stays_clean(v: EditorView, byte: u8, sequence: Option<(u8, u8)>)
    requires
        history_clean(v.history),
    ensures
        history_clean(key_step(v, byte).0.history),
        history_clean(escape_step(v, sequence).0.history),
        history_clean(Seq::<Seq<char>>::empty()),
{
    lemma_trim_idempotent(v.current_input);
    lemma_enter_keeps_history_without_repeats(v);
    let h = enter_step(v).0.history;
    assert forall|i: int| 0 <= i < h.len() implies (#[trigger] h[i]).len() > 0 && spec_trim(h[i]) == h[i] by {
        if i == v.history.len() {
            assert(h[i] == spec_trim(v.current_input));
        } else {
            assert(h[i] == v.history[i]);
        }
    }
}

/// Enter with a command that is not blank makes that command the newest
/// history entry: the history gains it as a new last entry, except when it
/// already is the last entry, which leaves the history as it was. Earlier
/// entries, equal to the command or not, stay as they are.
pub proof fn lemma_enter_records_command(v: EditorView)
    ensures
        spec_trim(v.current_input).len() > 0 ==> {
            let command = spec_trim(v.current_input);
            let after = enter_step(v).0.history;
            &&& after.len() > 0 && after.last() == command
            &&& after.len() == v.history.len() ==> after == v.history
            &&& after.len() != v.history.len() ==> after.len() == v.history.len() + 1 && after.drop_last()
                == v.history
            &&& (after.len() == v.history.len()) == (v.history.len() > 0 && v.history.last() == command)
        },
{
    let command = spec_trim(v.current_input);
    if command.len() > 0 && !(v.history.len() > 0 && v.history.last() == command) {
        assert(v.history.push(command).drop_last() =~= v.history);
    }
}

/// Every key keeps the selected history entry in range.
pub proof fn lemma_keys_keep_editor_wf(v: EditorView, byte: u8, sequence: Option<(u8, u8)>)
    requires
        editor_wf(v),
    ensures
        editor_wf(key_step(v, byte).0),
        editor_wf(escape_step(v, sequence).0),
{
}

} // verus!
