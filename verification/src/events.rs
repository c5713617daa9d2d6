//! What keys and the mouse do, and what is told to the user of a copy.

use vstd::prelude::*;

use crate::diff::{read_utf8, utf8_lossy};
use crate::state::AppView;
use crate::text::{
    chars_of, control_code, decimal, decimal_string, is_control_code, join, joined, push_all,
    strings, words, words_of,
};
use crate::ui::App;

verus! {

// ---------------------------------------------------------------------------
// Events
// ---------------------------------------------------------------------------

/// What happens to a key.
#[derive(Clone, Copy, Debug, PartialEq, Eq, Structural)]
pub enum KeyEventKind {
    Press,
    Repeat,
    Release,
}

/// A key.
#[derive(Clone, Copy, Debug, PartialEq, Eq, Structural)]
pub enum KeyCode {
    Char(char),
    Esc,
    Up,
    Down,
    PageUp,
    PageDown,
    Other,
}

/// Something that happens to a key, while control is held or not.
#[derive(Clone, Copy, Debug, PartialEq, Eq, Structural)]
pub struct KeyEvent {
    pub code: KeyCode,
    pub kind: KeyEventKind,
    pub ctrl: bool,
}

/// A button of the mouse.
#[derive(Clone, Copy, Debug, PartialEq, Eq, Structural)]
pub enum MouseButton {
    Left,
    Right,
    Middle,
}

/// What is done with the mouse.
#[derive(Clone, Copy, Debug, PartialEq, Eq, Structural)]
pub enum MouseEventKind {
    Down(MouseButton),
    Drag(MouseButton),
    Up(MouseButton),
    ScrollDown,
    ScrollUp,
    Other,
}

/// Something that is done with the mouse at a place on the screen, while shift is
/// held or not.
#[derive(Clone, Copy, Debug, PartialEq, Eq, Structural)]
pub struct MouseEvent {
    pub kind: MouseEventKind,
    pub column: u16,
    pub row: u16,
    pub shift: bool,
}

/// Something that happens at the terminal.
#[derive(Clone, Copy, Debug, PartialEq, Eq, Structural)]
pub enum Event {
    Key(KeyEvent),
    Mouse(MouseEvent),
    Resize,
    Other,
}

/// What is to be done next: show the screen again, leave, or copy a text and then
/// show the screen again.
#[derive(Clone, Debug, PartialEq, Eq)]
pub enum Action {
    Continue,
    Quit,
    Copy(String),
}

/// An action, by its contents.
pub enum ActionView {
    Continue,
    Quit,
    Copy(Seq<char>),
}

impl View for Action {
    type V = ActionView;

    open spec fn view(&self) -> ActionView {
        match *self {
            Action::Continue => ActionView::Continue,
            Action::Quit => ActionView::Quit,
            Action::Copy(text) => ActionView::Copy(text@),
        }
    }
}

/// Whether a key does anything: when it goes down or repeats.
pub open spec fn is_actionable(kind: KeyEventKind) -> bool {
    kind is Press || kind is Repeat
}

/// Whether a key leaves the viewer.
pub open spec fn quits(key: KeyEvent) -> bool {
    key.code == KeyCode::Esc || key.code == KeyCode::Char('q') || (key.code == KeyCode::Char('c')
        && key.ctrl)
}

impl AppView {
    /// With the scroll position at a row, where there is one.
    pub open spec fn jumped_to(self, row: Option<usize>) -> AppView {
        match row {
            Some(row) => self.scrolled_to(row),
            None => self,
        }
    }

    /// What a key does that does not leave the viewer; `half` is half a page and
    /// `max` the scroll limit.
    pub open spec fn moved_by(self, key: KeyEvent, half: nat, max: usize) -> AppView {
        match key.code {
            KeyCode::Down => self.scrolled_down(1, max),
            KeyCode::Up => self.scrolled_up(1),
            KeyCode::PageDown => self.scrolled_down(half, max),
            KeyCode::PageUp => self.scrolled_up(half),
            KeyCode::Char(c) => if c == 'j' {
                self.scrolled_down(1, max)
            } else if c == 'k' {
                self.scrolled_up(1)
            } else if c == 'd' && key.ctrl {
                self.scrolled_down(half, max)
            } else if c == 'u' && key.ctrl {
                self.scrolled_up(half)
            } else if c == 'c' {
                self.current_toggled()
            } else if c == 'g' {
                self.scrolled_to(0)
            } else if c == 'G' {
                self.scrolled_to(max)
            } else if c == '=' {
                self.panes_reset()
            } else if c == 'n' {
                self.jumped_to(self.file_from_here(true))
            } else if c == 'p' {
                self.jumped_to(self.file_from_here(false))
            } else {
                self
            },
            _ => self,
        }
    }

    /// What a key does.
    pub open spec fn after_key(self, key: KeyEvent, half: nat, max: usize) -> AppView {
        if !is_actionable(key.kind) {
            self
        } else if quits(key) {
            self.cancelled().without_status()
        } else {
            self.cancelled().without_status().moved_by(key, half, max)
        }
    }

    /// What the mouse does to headers, the divider and the selection.
    pub open spec fn after_mouse(self, m: MouseEvent, width: nat, height: nat) -> AppView {
        let (x, y) = (m.column as nat, m.row as nat);
        match m.kind {
            MouseEventKind::Down(MouseButton::Left) => if m.shift {
                self.cancelled()
            } else {
                let app = self.without_status();
                if app.section_on_screen(y, width, height) is Some {
                    app.toggled_at(y, width, height)
                } else if app.on_divider(x, y, width, height) {
                    app.resize_begun(x, y, width, height)
                } else {
                    app.resize_begun(x, y, width, height).selection_begun(x, y, width, height)
                }
            },
            MouseEventKind::Drag(MouseButton::Left) => if self.resizing_divider {
                self.resize_dragged(x, width)
            } else {
                self.selection_dragged(x, y, width, height)
            },
            MouseEventKind::Up(MouseButton::Left) => if self.resizing_divider {
                self.resize_finished()
            } else {
                self.selection_finished()
            },
            _ => self,
        }
    }

    /// The text that the mouse hands over.
    pub open spec fn text_from_mouse(self, m: MouseEvent) -> Option<Seq<char>> {
        if m.kind == MouseEventKind::Up(MouseButton::Left) && !self.resizing_divider {
            self.text_to_copy()
        } else {
            None
        }
    }

    /// What an event does.
    pub open spec fn after_event(
        self,
        event: Event,
        width: nat,
        height: nat,
        max: usize,
    ) -> AppView {
        match event {
            Event::Key(key) => self.after_key(key, height / 2, max),
            Event::Mouse(m) => match m.kind {
                MouseEventKind::ScrollDown => self.cancelled().without_status().scrolled_down(
                    3,
                    max,
                ),
                MouseEventKind::ScrollUp => self.cancelled().without_status().scrolled_up(3),
                _ => self.after_mouse(m, width, height),
            },
            Event::Resize => self.cancelled(),
            Event::Other => self,
        }
    }

    /// What is to be done after an event.
    pub open spec fn answer_to(self, event: Event) -> ActionView {
        match event {
            Event::Key(key) => if is_actionable(key.kind) && quits(key) {
                ActionView::Quit
            } else {
                ActionView::Continue
            },
            Event::Mouse(m) => match self.text_from_mouse(m) {
                Some(text) => ActionView::Copy(text),
                None => ActionView::Continue,
            },
            _ => ActionView::Continue,
        }
    }

    /// Scrolled back to the limit of a window of the given size.
    pub open spec fn settled(self, width: nat, height: nat) -> AppView {
        let max = self.scroll_limit(width, height);
        self.scrolled_to(
            if self.scroll < max {
                self.scroll
            } else {
                max
            },
        )
    }
}

/// Whether a key does anything.
pub fn key_event_is_actionable(kind: KeyEventKind) -> (b: bool)
    ensures
        b == is_actionable(kind),
{
    match kind {
        KeyEventKind::Press | KeyEventKind::Repeat => true,
        KeyEventKind::Release => false,
    }
}

/// What the mouse does to headers, the divider and the selection; the text of a
/// selection that ends.
pub fn handle_mouse_event(
    app: &mut App,
    m: MouseEvent,
    width: usize,
    height: usize,
) -> (text: Option<String>)
    requires
        old(app).wf(),
    ensures
        final(app)@ == old(app)@.after_mouse(m, width as nat, height as nat),
        final(app).wf(),
        old(app)@.text_from_mouse(m) == match text {
            Some(t) => Some(t@),
            None => None,
        },
{
    let x: usize = m.column as usize;
    let y: usize = m.row as usize;
    match m.kind {
        MouseEventKind::Down(MouseButton::Left) => {
            if m.shift {
                app.cancel_interaction();
            } else {
                app.clear_status();
                if !app.toggle_file_at(y, width, height) && !app.begin_resize(x, y, width, height) {
                    app.begin_selection(x, y, width, height);
                }
            }
            None
        },
        MouseEventKind::Drag(MouseButton::Left) => {
            if !app.drag_resize(x, width) {
                app.drag_selection(x, y, width, height);
            }
            None
        },
        MouseEventKind::Up(MouseButton::Left) => {
            if app.finish_resize() {
                None
            } else {
                assert(app@ =~= old(app)@);
                app.finish_selection()
            }
        },
        _ => None,
    }
}

/// Scrolls back to the limit of a window of the given size; the limit.
pub fn settle(app: &mut App, width: usize, height: usize) -> (max: usize)
    requires
        old(app).wf(),
    ensures
        max == old(app)@.scroll_limit(width as nat, height as nat),
        final(app)@ == old(app)@.settled(width as nat, height as nat),
        final(app).wf(),
{
    let max: usize = app.max_scroll(width, height);
    if app.scroll > max {
        app.scroll = max;
    }
    max
}

/// Scrolls to a row, where there is one.
fn jump(app: &mut App, row: Option<usize>)
    requires
        old(app).wf(),
    ensures
        final(app)@ == old(app)@.jumped_to(row),
        final(app).wf(),
{
    if let Some(row) = row {
        app.scroll = row;
    }
}

/// What a key does that does not leave the viewer.
fn move_by(app: &mut App, key: KeyEvent, half: usize, max: usize)
    requires
        old(app).wf(),
    ensures
        final(app)@ == old(app)@.moved_by(key, half as nat, max),
        final(app).wf(),
{
    match key.code {
        KeyCode::Down => app.scroll_down(1, max),
        KeyCode::Up => app.scroll_up(1),
        KeyCode::PageDown => app.scroll_down(half, max),
        KeyCode::PageUp => app.scroll_up(half),
        KeyCode::Char(c) => {
            if c == 'j' {
                app.scroll_down(1, max);
            } else if c == 'k' {
                app.scroll_up(1);
            } else if c == 'd' && key.ctrl {
                app.scroll_down(half, max);
            } else if c == 'u' && key.ctrl {
                app.scroll_up(half);
            } else if c == 'c' {
                app.toggle_current_file();
            } else if c == 'g' {
                app.scroll = 0;
            } else if c == 'G' {
                app.scroll = max;
            } else if c == '=' {
                app.reset_panes();
            } else if c == 'n' {
                let row = app.file_jump(true);
                jump(app, row);
            } else if c == 'p' {
                let row = app.file_jump(false);
                jump(app, row);
            }
        },
        _ => {},
    }
}

/// What a key does; whether it leaves the viewer. `half` is half a page and `max`
/// the scroll limit.
pub fn handle_key_event(app: &mut App, key: KeyEvent, half: usize, max: usize) -> (quit: bool)
    requires
        old(app).wf(),
    ensures
        quit == (is_actionable(key.kind) && quits(key)),
        final(app)@ == old(app)@.after_key(key, half as nat, max),
        final(app).wf(),
{
    if !key_event_is_actionable(key.kind) {
        return false;
    }
    app.cancel_interaction();
    app.clear_status();
    let quit = match key.code {
        KeyCode::Esc => true,
        KeyCode::Char(c) => c == 'q' || (c == 'c' && key.ctrl),
        _ => false,
    };
    if !quit {
        move_by(app, key, half, max);
    }
    quit
}

/// What an event does in a window of the given size with the given scroll limit;
/// what is to be done next.
pub fn handle_event(
    app: &mut App,
    event: Event,
    width: usize,
    height: usize,
    max: usize,
) -> (action: Action)
    requires
        old(app).wf(),
    ensures
        action@ == old(app)@.answer_to(event),
        final(app)@ == old(app)@.after_event(event, width as nat, height as nat, max),
        final(app).wf(),
{
    match event {
        Event::Key(key) => if handle_key_event(app, key, height / 2, max) {
            Action::Quit
        } else {
            Action::Continue
        },
        Event::Mouse(m) => {
            let text = handle_mouse_event(app, m, width, height);
            match m.kind {
                MouseEventKind::ScrollDown => {
                    app.cancel_interaction();
                    app.clear_status();
                    app.scroll_down(3, max);
                },
                MouseEventKind::ScrollUp => {
                    app.cancel_interaction();
                    app.clear_status();
                    app.scroll_up(3);
                },
                _ => {},
            }
            match text {
                Some(text) => Action::Copy(text),
                None => Action::Continue,
            }
        },
        Event::Resize => {
            app.cancel_interaction();
            Action::Continue
        },
        Event::Other => Action::Continue,
    }
}

// ---------------------------------------------------------------------------
// Copying
// ---------------------------------------------------------------------------

/// How many lines a text has.
pub open spec fn line_count(text: Seq<char>) -> nat {
    text.filter(|c: char| c == '\n').len() + 1
}

/// What is said of a text that has been copied.
pub open spec fn copied_message(text: Seq<char>) -> Seq<char> {
    " copied "@ + decimal(line_count(text)) + if line_count(text) == 1 {
        " line"@
    } else {
        " lines"@
    }
}

/// What is said where copying has failed.
pub open spec fn copy_error_message(error: Seq<char>) -> Seq<char> {
    " copy failed: "@ + error
}

/// How many lines a text has.
fn count_lines(text: &str) -> (n: u128)
    ensures
        n == line_count(text@),
{
    let chars = chars_of(text);
    let ghost newline = |c: char| c == '\n';
    let mut n: u128 = 1;
    let mut i: usize = 0;
    proof {
        reveal(Seq::filter);
        assert(chars@.take(0).filter(newline).len() == 0);
    }
    while i < chars.len()
        invariant
            newline == (|c: char| c == '\n'),
            i <= chars@.len(),
            n == chars@.take(i as int).filter(newline).len() + 1,
            n <= i + 1,
        decreases chars@.len() - i,
    {
        proof {
            reveal(Seq::filter);
            assert(chars@.take(i + 1).drop_last() =~= chars@.take(i as int));
            assert(chars@.take(i + 1).last() == chars@[i as int]);
        }
        if chars[i] == '\n' {
            n += 1;
        }
        i += 1;
    }
    assert(chars@.take(i as int) =~= chars@);
    n
}

/// Tells the user what has become of a copy.
pub fn report_copy(app: &mut App, text: &str, result: Result<(), String>)
    ensures
        final(app)@ == match result {
            Ok(_) => old(app)@.with_status(copied_message(text@)),
            Err(error) => old(app)@.with_error(copy_error_message(error@)),
        },
{
    match result {
        Ok(_) => {
            let n: u128 = count_lines(text);
            let mut message = " copied ".to_owned();
            push_all(&mut message, decimal_string(n).as_str());
            if n == 1 {
                push_all(&mut message, " line");
            } else {
                push_all(&mut message, " lines");
            }
            app.set_status(message);
        },
        Err(error) => {
            let mut message = " copy failed: ".to_owned();
            push_all(&mut message, error.as_str());
            app.set_error(message);
        },
    }
}

/// Words without control characters, those of nothing else left out.
pub open spec fn clean_words(words: Seq<Seq<char>>) -> Seq<Seq<char>>
    decreases words.len(),
{
    if words.len() == 0 {
        seq![]
    } else {
        let clean = words.last().filter(|c: char| !is_control_code(c));
        if clean.len() > 0 {
            clean_words(words.drop_last()).push(clean)
        } else {
            clean_words(words.drop_last())
        }
    }
}

/// What is said where tmux has failed: what it wrote, on one line, or how it
/// ended where it wrote nothing.
pub open spec fn tmux_error(status: Seq<char>, written: Seq<char>) -> Seq<char> {
    let message = joined(clean_words(words(written)), " "@);
    if message.len() == 0 {
        "tmux exited with "@ + status
    } else {
        message
    }
}

/// A word without control characters.
fn clean_word(word: &str) -> (clean: String)
    ensures
        clean@ == word@.filter(|c: char| !is_control_code(c)),
{
    let chars = chars_of(word);
    let ghost keep = |c: char| !is_control_code(c);
    let mut clean = String::new();
    let mut i: usize = 0;
    proof {
        reveal(Seq::filter);
        assert(clean@ =~= chars@.take(0).filter(keep));
    }
    while i < chars.len()
        invariant
            keep == (|c: char| !is_control_code(c)),
            i <= chars@.len(),
            clean@ == chars@.take(i as int).filter(keep),
        decreases chars@.len() - i,
    {
        proof {
            reveal(Seq::filter);
            assert(chars@.take(i + 1).drop_last() =~= chars@.take(i as int));
            assert(chars@.take(i + 1).last() == chars@[i as int]);
        }
        if !control_code(chars[i]) {
            clean.push(chars[i]);
        }
        i += 1;
    }
    assert(chars@.take(i as int) =~= chars@);
    clean
}

/// What is said where tmux has failed, from what it wrote.
pub fn tmux_message(status: &str, written: &str) -> (message: String)
    ensures
        message@ == tmux_error(status@, written@),
{
    let found = words_of(written);
    let ghost all = strings(found@);
    let mut clean: Vec<String> = Vec::new();
    let mut i: usize = 0;
    assert(strings(clean@) =~= clean_words(all.take(0)));
    while i < found.len()
        invariant
            all == strings(found@),
            i <= found@.len(),
            strings(clean@) == clean_words(all.take(i as int)),
        decreases found@.len() - i,
    {
        let word = clean_word(found[i].as_str());
        proof {
            assert(all.take(i + 1).drop_last() =~= all.take(i as int));
            assert(all.take(i + 1).last() == found@[i as int]@);
        }
        if !word.as_str().is_empty() {
            let ghost before = clean@;
            clean.push(word);
            assert(strings(clean@) =~= strings(before).push(word@));
        }
        i += 1;
    }
    assert(all.take(i as int) =~= all);
    let message = join(&clean, " ");
    if message.as_str().is_empty() {
        let mut text = "tmux exited with ".to_owned();
        push_all(&mut text, status);
        text
    } else {
        message
    }
}

/// What is said where tmux has failed, from the bytes it wrote.
pub fn format_tmux_error(status: &str, stderr: &[u8]) -> (message: String)
    ensures
        message@ == tmux_error(status@, utf8_lossy(stderr@)),
        vstd::utf8::valid_utf8(stderr@) ==> message@ == tmux_error(
            status@,
            vstd::utf8::decode_utf8(stderr@),
        ),
{
    tmux_message(status, read_utf8(stderr).as_str())
}

/// What has become of a text handed to tmux: whether tmux ended well, how it
/// ended, what it wrote, and what has become of writing to it.
pub fn tmux_outcome(
    success: bool,
    status: &str,
    stderr: &[u8],
    written: Result<(), String>,
) -> (outcome: Result<(), String>)
    ensures
        success ==> outcome == written,
        !success ==> (outcome matches Err(message) && message@ == tmux_error(
            status@,
            utf8_lossy(stderr@),
        )),
{
    if success {
        written
    } else {
        Err(format_tmux_error(status, stderr))
    }
}

} // verus!
