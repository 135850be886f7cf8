//! The console: a prompt, what was entered at it before, and the lines that
//! were printed, of which a window is shown.
//!
//! The console knows nothing of how it is drawn, and nothing of the
//! variables it reads and sets but their names: it reaches them through
//! `CvarAccess`.
use vstd::prelude::*;
use vstd::string::{StrSliceExecFns, StringExecFns};

verus! {

/// How a console reaches the variables.
pub trait CvarAccess {
    /// The value of the variable with this name as text, or why there is
    /// none.
    fn get_string(&self, cvar_name: &str) -> Result<String, String>;

    /// Sets the variable with this name from text, or says why it cannot.
    fn set_str(&mut self, cvar_name: &str, cvar_value: &str) -> Result<(), String>;
}

/// A line of the history: something that was entered, or something that
/// was printed.
#[derive(Clone, Debug, PartialEq, Eq)]
pub struct HistoryLine {
    pub text: String,
    pub is_input: bool,
}

/// What a command asks for.
#[derive(Clone, Debug, PartialEq, Eq)]
pub enum Command {
    /// Nothing was entered.
    Nothing,
    /// Help.
    Help,
    /// The value of a variable.
    Read(String),
    /// A variable is to be set.
    Write(String, String),
    /// More words than a name and a value.
    TooMany,
}

pub enum CommandView {
    Nothing,
    Help,
    Read(Seq<char>),
    Write(Seq<char>, Seq<char>),
    TooMany,
}

impl View for Command {
    type V = CommandView;

    open spec fn view(&self) -> CommandView {
        match *self {
            Command::Nothing => CommandView::Nothing,
            Command::Help => CommandView::Help,
            Command::Read(name) => CommandView::Read(name@),
            Command::Write(name, value) => CommandView::Write(name@, value@),
            Command::TooMany => CommandView::TooMany,
        }
    }
}

/// Where the spaces that begin at `i` end.
pub open spec fn skip_spaces(s: Seq<char>, i: int) -> int
    decreases s.len() - i,
{
    if 0 <= i < s.len() && s[i] == ' ' {
        skip_spaces(s, i + 1)
    } else {
        i
    }
}

/// Where the word that begins at `i` ends.
pub open spec fn word_end(s: Seq<char>, i: int) -> int
    decreases s.len() - i,
{
    if 0 <= i < s.len() && s[i] != ' ' {
        word_end(s, i + 1)
    } else {
        i
    }
}

/// What a line entered at the prompt asks for. Words are set apart by
/// spaces. The first is the name of a variable, or `help` or `?`; the
/// second, if there is one, is the value to set it to.
pub open spec fn spec_parse_command(s: Seq<char>) -> CommandView {
    let a = skip_spaces(s, 0);
    let b = word_end(s, a);
    let c = skip_spaces(s, b);
    let d = word_end(s, c);
    let e = skip_spaces(s, d);
    if a == b {
        CommandView::Nothing
    } else if s.subrange(a, b) == "help"@ || s.subrange(a, b) == "?"@ {
        CommandView::Help
    } else if c == d {
        CommandView::Read(s.subrange(a, b))
    } else if e == s.len() {
        CommandView::Write(s.subrange(a, b), s.subrange(c, d))
    } else {
        CommandView::TooMany
    }
}

proof fn lemma_bounds(s: Seq<char>, i: int)
    requires
        0 <= i <= s.len(),
    ensures
        i <= skip_spaces(s, i) <= s.len(),
        i <= word_end(s, i) <= s.len(),
    decreases s.len() - i,
{
    if i < s.len() {
        lemma_bounds(s, i + 1);
    }
}

fn pass_spaces(text: &str, len: usize, from: usize) -> (to: usize)
    requires
        len == text@.len(),
        from <= len,
    ensures
        to == skip_spaces(text@, from as int),
        from <= to <= len,
{
    let mut i = from;
    while i < len && text.get_char(i) == ' '
        invariant
            len == text@.len(),
            from <= i <= len,
            skip_spaces(text@, from as int) == skip_spaces(text@, i as int),
        decreases len - i,
    {
        i = i + 1;
    }
    i
}

fn pass_word(text: &str, len: usize, from: usize) -> (to: usize)
    requires
        len == text@.len(),
        from <= len,
    ensures
        to == word_end(text@, from as int),
        from <= to <= len,
{
    let mut i = from;
    while i < len && text.get_char(i) != ' '
        invariant
            len == text@.len(),
            from <= i <= len,
            word_end(text@, from as int) == word_end(text@, i as int),
        decreases len - i,
    {
        i = i + 1;
    }
    i
}

fn same_text(a: &str, b: &str) -> (same: bool)
    ensures
        same == (a@ == b@),
{
    let a = a.to_owned();
    let b = b.to_owned();
    a == b
}

/// Reads what a line entered at the prompt asks for.
pub fn parse_command(text: &str) -> (command: Command)
    ensures
        command@ == spec_parse_command(text@),
{
    let len = text.unicode_len();
    let a = pass_spaces(text, len, 0);
    let b = pass_word(text, len, a);
    let c = pass_spaces(text, len, b);
    let d = pass_word(text, len, c);
    let e = pass_spaces(text, len, d);
    if a == b {
        return Command::Nothing;
    }
    let name = text.substring_char(a, b);
    if same_text(name, "help") || same_text(name, "?") {
        Command::Help
    } else if c == d {
        Command::Read(name.to_owned())
    } else if e == len {
        Command::Write(name.to_owned(), text.substring_char(c, d).to_owned())
    } else {
        Command::TooMany
    }
}

/// How many pixels of height one line takes.
pub const LINE_HEIGHT: u32 = 14;

/// How many lines of history fit into a console of this height, one line
/// being kept for the prompt.
pub open spec fn spec_max_lines(height: u32) -> nat {
    if height / LINE_HEIGHT >= 1 {
        (height / LINE_HEIGHT - 1) as nat
    } else {
        0
    }
}

/// A line as it is shown: what was entered begins with `> `.
pub open spec fn shown(line: HistoryLine) -> Seq<char> {
    if line.is_input {
        "> "@ + line.text@ + "\n"@
    } else {
        line.text@ + "\n"@
    }
}

/// The lines as they are shown, one after the other.
pub open spec fn shown_lines(lines: Seq<HistoryLine>) -> Seq<char>
    decreases lines.len(),
{
    if lines.len() == 0 {
        Seq::empty()
    } else {
        shown_lines(lines.drop_last()) + shown(lines.last())
    }
}

/// What is printed for `help`.
pub open spec fn help_text() -> Seq<char> {
    "Enter a variable's name to see its value, or its name and a value to set it."@
}

/// What is printed for a line with too many words.
pub open spec fn too_many_text() -> Seq<char> {
    "expected only a variable's name and a value"@
}

/// The console.
pub struct Console {
    /// What is being entered.
    pub prompt: String,
    /// What was being entered when the user went back in the prompts.
    pub prompt_saved: String,
    /// What was entered before, oldest first.
    pub prompt_history: Vec<String>,
    /// Which of the earlier prompts is shown; their number if none is.
    pub prompt_history_index: usize,
    /// What was entered and printed, oldest first.
    pub history: Vec<HistoryLine>,
    /// The lines before this one are shown, as many as fit.
    pub history_view_end: usize,
}

impl Console {
    pub open spec fn wf(&self) -> bool {
        &&& self.prompt_history_index <= self.prompt_history@.len()
        &&& self.history_view_end <= self.history@.len()
    }

    /// A console with an empty prompt, no history and nothing entered
    /// before.
    pub fn new() -> (console: Console)
        ensures
            console.wf(),
            console.prompt@ == Seq::<char>::empty(),
            console.prompt_saved@ == Seq::<char>::empty(),
            console.prompt_history@ == Seq::<String>::empty(),
            console.prompt_history_index == 0,
            console.history@ == Seq::<HistoryLine>::empty(),
            console.history_view_end == 0,
    {
        Console {
            prompt: String::new(),
            prompt_saved: String::new(),
            prompt_history: Vec::new(),
            prompt_history_index: 0,
            history: Vec::new(),
            history_view_end: 0,
        }
    }

    fn push_line(&mut self, text: &str, is_input: bool)
        requires
            old(self).wf(),
        ensures
            final(self).wf(),
            final(self).history@.len() == old(self).history@.len() + 1,
            final(self).history@.drop_last() == old(self).history@,
            final(self).history@.last().text@ == text@,
            final(self).history@.last().is_input == is_input,
            final(self).history_view_end == (if old(self).history_view_end == old(self).history@.len() {
                old(self).history_view_end + 1
            } else {
                old(self).history_view_end as int
            }),
            final(self).prompt == old(self).prompt,
            final(self).prompt_saved == old(self).prompt_saved,
            final(self).prompt_history == old(self).prompt_history,
            final(self).prompt_history_index == old(self).prompt_history_index,
    {
        let follows = self.history_view_end == self.history.len();
        self.history.push(HistoryLine { text: text.to_owned(), is_input });
        if follows {
            self.history_view_end = self.history.len();
        }
    }

    /// Prints a line. The window follows if it showed the last line.
    pub fn print(&mut self, text: &str)
        requires
            old(self).wf(),
        ensures
            final(self).wf(),
            final(self).history@.len() == old(self).history@.len() + 1,
            final(self).history@.drop_last() == old(self).history@,
            final(self).history@.last().text@ == text@,
            !final(self).history@.last().is_input,
            final(self).history_view_end == (if old(self).history_view_end == old(self).history@.len() {
                old(self).history_view_end + 1
            } else {
                old(self).history_view_end as int
            }),
            final(self).prompt == old(self).prompt,
            final(self).prompt_saved == old(self).prompt_saved,
            final(self).prompt_history == old(self).prompt_history,
            final(self).prompt_history_index == old(self).prompt_history_index,
    {
        self.push_line(text, false);
    }

    /// Moves the window up by `count` lines, but not above the first line.
    pub fn history_scroll_up(&mut self, count: usize)
        requires
            old(self).wf(),
        ensures
            final(self).wf(),
            final(self).history_view_end == (if old(self).history_view_end > count {
                old(self).history_view_end - count
            } else if old(self).history@.len() > 0 {
                1
            } else {
                0
            }),
            final(self).history == old(self).history,
            final(self).prompt == old(self).prompt,
            final(self).prompt_saved == old(self).prompt_saved,
            final(self).prompt_history == old(self).prompt_history,
            final(self).prompt_history_index == old(self).prompt_history_index,
    {
        if self.history_view_end > count {
            self.history_view_end = self.history_view_end - count;
        } else if self.history.len() > 0 {
            self.history_view_end = 1;
        } else {
            self.history_view_end = 0;
        }
    }

    /// Moves the window down by `count` lines, but not below the last line.
    pub fn history_scroll_down(&mut self, count: usize)
        requires
            old(self).wf(),
        ensures
            final(self).wf(),
            final(self).history_view_end == (if old(self).history_view_end + count <= old(self).history@.len() {
                old(self).history_view_end + count
            } else {
                old(self).history@.len() as int
            }),
            final(self).history == old(self).history,
            final(self).prompt == old(self).prompt,
            final(self).prompt_saved == old(self).prompt_saved,
            final(self).prompt_history == old(self).prompt_history,
            final(self).prompt_history_index == old(self).prompt_history_index,
    {
        let left = self.history.len() - self.history_view_end;
        if count <= left {
            self.history_view_end = self.history_view_end + count;
        } else {
            self.history_view_end = self.history.len();
        }
    }

    /// Shows the prompt entered before the one that is shown. What was being
    /// entered is kept for the way forward.
    pub fn history_back(&mut self)
        requires
            old(self).wf(),
        ensures
            final(self).wf(),
            final(self).history == old(self).history,
            final(self).history_view_end == old(self).history_view_end,
            final(self).prompt_history == old(self).prompt_history,
            old(self).prompt_history_index == 0 ==> *final(self) == *old(self),
            old(self).prompt_history_index > 0 ==> {
                &&& final(self).prompt_history_index == old(self).prompt_history_index - 1
                &&& final(self).prompt == old(self).prompt_history@[old(self).prompt_history_index - 1]
                &&& final(self).prompt_saved == (if old(self).prompt_history_index == old(self).prompt_history@.len() {
                    old(self).prompt
                } else {
                    old(self).prompt_saved
                })
            },
    {
        if self.prompt_history_index == 0 {
            return ;
        }
        if self.prompt_history_index == self.prompt_history.len() {
            self.prompt_saved = self.prompt.clone();
        }
        self.prompt_history_index = self.prompt_history_index - 1;
        self.prompt = self.prompt_history[self.prompt_history_index].clone();
    }

    /// Shows the prompt entered after the one that is shown, or what was
    /// being entered if that was the last.
    pub fn history_forward(&mut self)
        requires
            old(self).wf(),
        ensures
            final(self).wf(),
            final(self).history == old(self).history,
            final(self).history_view_end == old(self).history_view_end,
            final(self).prompt_history == old(self).prompt_history,
            final(self).prompt_saved == old(self).prompt_saved,
            old(self).prompt_history_index == old(self).prompt_history@.len() ==> *final(self)
                == *old(self),
            old(self).prompt_history_index < old(self).prompt_history@.len() ==> {
                &&& final(self).prompt_history_index == old(self).prompt_history_index + 1
                &&& final(self).prompt == (if old(self).prompt_history_index + 1 == old(self).prompt_history@.len() {
                    old(self).prompt_saved
                } else {
                    old(self).prompt_history@[old(self).prompt_history_index + 1]
                })
            },
    {
        if self.prompt_history_index == self.prompt_history.len() {
            return ;
        }
        self.prompt_history_index = self.prompt_history_index + 1;
        if self.prompt_history_index == self.prompt_history.len() {
            self.prompt = self.prompt_saved.clone();
        } else {
            self.prompt = self.prompt_history[self.prompt_history_index].clone();
        }
    }

    /// How many lines of history fit into a console of this height.
    pub fn max_lines(height: u32) -> (n: usize)
        ensures
            n == spec_max_lines(height),
    {
        let lines = height / LINE_HEIGHT;
        if lines >= 1 {
            (lines - 1) as usize
        } else {
            0
        }
    }

    /// The index of the first line that is shown in a console of this
    /// height.
    pub open spec fn spec_view_begin(&self, height: u32) -> int {
        if self.history_view_end >= spec_max_lines(height) {
            self.history_view_end - spec_max_lines(height)
        } else {
            0
        }
    }

    /// The text to show as the history in a console of this height: the
    /// lines of the window, as many as fit.
    pub fn history_text(&self, height: u32) -> (text: String)
        requires
            self.wf(),
        ensures
            text@ == shown_lines(
                self.history@.subrange(self.spec_view_begin(height), self.history_view_end as int),
            ),
    {
        let max_lines = Self::max_lines(height);
        let hi = self.history_view_end;
        let lo = if hi >= max_lines {
            hi - max_lines
        } else {
            0
        };
        let ghost lines = self.history@.subrange(lo as int, hi as int);
        let mut text = String::new();
        let mut i = lo;
        while i < hi
            invariant
                lo <= i <= hi <= self.history@.len(),
                lines == self.history@.subrange(lo as int, hi as int),
                text@ == shown_lines(lines.take(i - lo)),
            decreases hi - i,
        {
            proof {
                assert(lines.take(i - lo + 1).drop_last() =~= lines.take(i - lo));
            }
            let line = &self.history[i];
            if line.is_input {
                text.append("> ");
            }
            text.append(line.text.as_str());
            text.append("\n");
            i = i + 1;
        }
        assert(lines.take(hi - lo) =~= lines);
        text
    }

    /// Takes what is at the prompt as a command. The line goes into the
    /// history, and into the earlier prompts unless it is empty; the prompt
    /// is empty afterwards.
    pub fn submit(&mut self) -> (command: Command)
        requires
            old(self).wf(),
        ensures
            final(self).wf(),
            command@ == spec_parse_command(old(self).prompt@),
            final(self).prompt@ == Seq::<char>::empty(),
            final(self).prompt_saved == old(self).prompt_saved,
            final(self).prompt_history_index == final(self).prompt_history@.len(),
            final(self).prompt_history@ == (if old(self).prompt@.len() == 0 {
                old(self).prompt_history@
            } else {
                old(self).prompt_history@.push(old(self).prompt)
            }),
            final(self).history@.len() == old(self).history@.len() + 1,
            final(self).history@.drop_last() == old(self).history@,
            final(self).history@.last().text@ == old(self).prompt@,
            final(self).history@.last().is_input,
            final(self).history_view_end == (if old(self).history_view_end == old(self).history@.len() {
                old(self).history_view_end + 1
            } else {
                old(self).history_view_end as int
            }),
    {
        let mut line = String::new();
        core::mem::swap(&mut line, &mut self.prompt);
        self.push_line(line.as_str(), true);
        let command = parse_command(line.as_str());
        if line.as_str().unicode_len() > 0 {
            self.prompt_history.push(line);
        }
        self.prompt_history_index = self.prompt_history.len();
        command
    }

    /// Prints what a command gave, if it gave anything.
    pub fn answer(&mut self, answer: Option<String>)
        requires
            old(self).wf(),
        ensures
            final(self).wf(),
            final(self).prompt == old(self).prompt,
            final(self).prompt_saved == old(self).prompt_saved,
            final(self).prompt_history == old(self).prompt_history,
            final(self).prompt_history_index == old(self).prompt_history_index,
            match answer {
                None => final(self).history == old(self).history && final(self).history_view_end
                    == old(self).history_view_end,
                Some(text) => {
                    &&& final(self).history@.len() == old(self).history@.len() + 1
                    &&& final(self).history@.drop_last() == old(self).history@
                    &&& final(self).history@.last().text@ == text@
                    &&& !final(self).history@.last().is_input
                    &&& final(self).history_view_end == (if old(self).history_view_end == old(self).history@.len() {
                        old(self).history_view_end + 1
                    } else {
                        old(self).history_view_end as int
                    })
                },
            },
    {
        match answer {
            None => {},
            Some(text) => {
                self.print(text.as_str());
            },
        }
    }

    /// Enters what is at the prompt: takes it as a command as `submit`
    /// says, carries the command out, and prints what it gives as `answer`
    /// says. Help and a line with too many words give the texts for them,
    /// an empty line gives nothing, and what reading or setting a variable
    /// gives is for the variables to say.
    pub fn enter<A: CvarAccess>(&mut self, cvars: &mut A)
        requires
            old(self).wf(),
        ensures
            final(self).wf(),
            final(self).prompt@ == Seq::<char>::empty(),
            final(self).prompt_history_index == final(self).prompt_history@.len(),
            final(self).prompt_history@ == (if old(self).prompt@.len() == 0 {
                old(self).prompt_history@
            } else {
                old(self).prompt_history@.push(old(self).prompt)
            }),
            old(self).history@.len() + 1 <= final(self).history@.len() <= old(self).history@.len()
                + 2,
            final(self).history@.take(old(self).history@.len() as int) == old(self).history@,
            final(self).history@[old(self).history@.len() as int].text@ == old(self).prompt@,
            final(self).history@[old(self).history@.len() as int].is_input,
            final(self).history@.len() == old(self).history@.len() + 2 ==> !final(self).history@.last().is_input,
            match spec_parse_command(old(self).prompt@) {
                CommandView::Nothing => final(self).history@.len() == old(self).history@.len() + 1,
                CommandView::Help => final(self).history@.len() == old(self).history@.len() + 2
                    && final(self).history@.last().text@ == help_text(),
                CommandView::TooMany => final(self).history@.len() == old(self).history@.len() + 2
                    && final(self).history@.last().text@ == too_many_text(),
                CommandView::Read(_) => final(self).history@.len() == old(self).history@.len() + 2,
                CommandView::Write(_, _) => true,
            },
    {
        let command = self.submit();
        let answer = match command {
            Command::Nothing => None,
            Command::Help => Some(
                "Enter a variable's name to see its value, or its name and a value to set it.".to_owned(),
            ),
            Command::Read(name) => match cvars.get_string(name.as_str()) {
                Ok(value) => Some(value),
                Err(message) => Some(message),
            },
            Command::Write(name, value) => match cvars.set_str(name.as_str(), value.as_str()) {
                Ok(()) => None,
                Err(message) => Some(message),
            },
            Command::TooMany => Some("expected only a variable's name and a value".to_owned()),
        };
        self.answer(answer);
    }
}

/// Whether the console is open, and what to restore when it closes.
#[derive(Clone, Copy, Debug, PartialEq, Eq, Structural)]
pub struct ConsoleWindow {
    pub is_open: bool,
    pub first_open: bool,
    pub was_mouse_grabbed: bool,
    pub height: u32,
}

impl ConsoleWindow {
    /// A console that is closed and was never open.
    pub fn new() -> (window: ConsoleWindow)
        ensures
            window == (ConsoleWindow {
                is_open: false,
                first_open: true,
                was_mouse_grabbed: false,
                height: 0,
            }),
    {
        ConsoleWindow { is_open: false, first_open: true, was_mouse_grabbed: false, height: 0 }
    }

    pub fn is_open(&self) -> (open: bool)
        ensures
            open == self.is_open,
    {
        self.is_open
    }

    /// The window was resized: the console takes the upper half.
    pub fn resized(&mut self, window_height: u32)
        ensures
            *final(self) == (ConsoleWindow { height: window_height / 2, ..*old(self) }),
    {
        self.height = window_height / 2;
    }

    /// Opens the console and remembers whether the mouse was grabbed. Says
    /// whether this is the first time, when a hint is due.
    pub fn open(&mut self, was_mouse_grabbed: bool) -> (first: bool)
        ensures
            first == old(self).first_open,
            *final(self) == (ConsoleWindow {
                is_open: true,
                first_open: false,
                was_mouse_grabbed,
                height: old(self).height,
            }),
    {
        let first = self.first_open;
        self.is_open = true;
        self.was_mouse_grabbed = was_mouse_grabbed;
        self.first_open = false;
        first
    }

    /// Closes the console. Says whether the mouse was grabbed when it was
    /// opened.
    pub fn close(&mut self) -> (was_mouse_grabbed: bool)
        ensures
            was_mouse_grabbed == old(self).was_mouse_grabbed,
            *final(self) == (ConsoleWindow { is_open: false, ..*old(self) }),
    {
        self.is_open = false;
        self.was_mouse_grabbed
    }
}

} // verus!
