use rustcycles::console::{
    parse_command, Command, Console, ConsoleWindow, CvarAccess, HistoryLine, LINE_HEIGHT,
};
use rustcycles::cvars::Cvars;

/// Variables that remember what was asked of them.
#[derive(Default)]
struct Answers {
    asked: Vec<String>,
}

impl CvarAccess for Answers {
    fn get_string(&self, cvar_name: &str) -> Result<String, String> {
        match cvar_name {
            "d_draw" => Ok("true".to_string()),
            _ => Err(format!("Cvar named {} not found", cvar_name)),
        }
    }

    fn set_str(&mut self, cvar_name: &str, cvar_value: &str) -> Result<(), String> {
        self.asked.push(format!("{}={}", cvar_name, cvar_value));
        match cvar_value {
            "true" | "false" => Ok(()),
            _ => Err(format!("failed to parse {} as type bool", cvar_value)),
        }
    }
}

fn printed(text: &str) -> HistoryLine {
    HistoryLine { text: text.to_string(), is_input: false }
}

fn entered(text: &str) -> HistoryLine {
    HistoryLine { text: text.to_string(), is_input: true }
}

#[test]
fn cvars_default() {
    let cvars = Cvars::default();
    assert!(!cvars.d_dbg);
    assert!(cvars.d_draw);
}

#[test]
fn commands_are_words_set_apart_by_spaces() {
    assert_eq!(parse_command(""), Command::Nothing);
    assert_eq!(parse_command("   "), Command::Nothing);
    assert_eq!(parse_command("help"), Command::Help);
    assert_eq!(parse_command("  ?  "), Command::Help);
    assert_eq!(parse_command("help me please"), Command::Help);
    assert_eq!(parse_command("d_draw"), Command::Read("d_draw".to_string()));
    assert_eq!(parse_command(" d_draw "), Command::Read("d_draw".to_string()));
    assert_eq!(
        parse_command("d_draw false"),
        Command::Write("d_draw".to_string(), "false".to_string())
    );
    assert_eq!(
        parse_command("  d_dbg    true   "),
        Command::Write("d_dbg".to_string(), "true".to_string())
    );
    assert_eq!(parse_command("ž 1"), Command::Write("ž".to_string(), "1".to_string()));
    assert_eq!(parse_command("d_draw false now"), Command::TooMany);
    assert_eq!(parse_command("helper"), Command::Read("helper".to_string()));
}

#[test]
fn entering_commands() {
    let mut console = Console::new();
    let mut cvars = Answers::default();

    console.prompt = "d_draw".to_string();
    console.enter(&mut cvars);
    assert_eq!(console.prompt, "");
    assert_eq!(console.history, vec![entered("d_draw"), printed("true")]);

    console.prompt = "d_draw false".to_string();
    console.enter(&mut cvars);
    assert_eq!(cvars.asked, vec!["d_draw=false".to_string()]);
    assert_eq!(console.history.len(), 3);
    assert_eq!(console.history[2], entered("d_draw false"));

    console.prompt = "d_draw maybe".to_string();
    console.enter(&mut cvars);
    assert_eq!(console.history[3..], [entered("d_draw maybe"), printed("failed to parse maybe as type bool")]);

    console.prompt = "g_speed".to_string();
    console.enter(&mut cvars);
    assert_eq!(console.history[5..], [entered("g_speed"), printed("Cvar named g_speed not found")]);

    console.prompt = "a b c".to_string();
    console.enter(&mut cvars);
    assert_eq!(
        console.history[7..],
        [entered("a b c"), printed("expected only a variable's name and a value")]
    );

    console.prompt = "?".to_string();
    console.enter(&mut cvars);
    assert_eq!(console.history.len(), 11);
    assert!(console.history[9].is_input);
    assert!(!console.history[10].is_input);

    console.prompt = String::new();
    console.enter(&mut cvars);
    assert_eq!(console.history.len(), 12);
    assert_eq!(console.history[11], entered(""));
    assert_eq!(console.prompt_history.len(), 6);
    assert_eq!(console.prompt_history_index, 6);
    assert_eq!(console.history_view_end, 12);
}

#[test]
fn going_back_and_forth_in_the_prompts() {
    let mut console = Console::new();
    let mut cvars = Answers::default();
    for command in ["first", "second", "third"] {
        console.prompt = command.to_string();
        console.enter(&mut cvars);
    }
    console.prompt = "unfinished".to_string();

    console.history_forward();
    assert_eq!(console.prompt, "unfinished");
    console.history_back();
    assert_eq!(console.prompt, "third");
    console.history_back();
    console.history_back();
    assert_eq!(console.prompt, "first");
    console.history_back();
    assert_eq!(console.prompt, "first");
    assert_eq!(console.prompt_history_index, 0);
    console.history_forward();
    assert_eq!(console.prompt, "second");
    console.history_forward();
    console.history_forward();
    assert_eq!(console.prompt, "unfinished");
    assert_eq!(console.prompt_history_index, 3);
}

#[test]
fn the_window_on_the_history() {
    let mut console = Console::new();
    for i in 0..10 {
        console.print(&format!("line {}", i));
    }
    assert_eq!(console.history_view_end, 10);

    // Room for three lines of history and the prompt.
    let height = 4 * LINE_HEIGHT + 3;
    assert_eq!(Console::max_lines(height), 3);
    assert_eq!(Console::max_lines(0), 0);
    assert_eq!(Console::max_lines(13), 0);
    assert_eq!(Console::max_lines(14), 0);
    assert_eq!(Console::max_lines(28), 1);
    assert_eq!(console.history_text(height), "line 7\nline 8\nline 9\n");
    assert_eq!(console.history_text(0), "");

    console.history_scroll_up(4);
    assert_eq!(console.history_view_end, 6);
    assert_eq!(console.history_text(height), "line 3\nline 4\nline 5\n");

    // The window does not follow while it is scrolled up.
    console.print("line 10");
    assert_eq!(console.history_view_end, 6);

    console.history_scroll_up(100);
    assert_eq!(console.history_view_end, 1);
    assert_eq!(console.history_text(height), "line 0\n");
    console.history_scroll_down(3);
    assert_eq!(console.history_view_end, 4);
    console.history_scroll_down(usize::MAX);
    assert_eq!(console.history_view_end, 11);
    assert_eq!(console.history_text(height), "line 8\nline 9\nline 10\n");

    let mut empty = Console::new();
    empty.history_scroll_up(1);
    assert_eq!(empty.history_view_end, 0);
    assert_eq!(empty.history_text(height), "");
}

#[test]
fn what_was_entered_is_shown_with_an_arrow() {
    let mut console = Console::new();
    let mut cvars = Answers::default();
    console.print("Type 'help' or '?' for basic info");
    console.prompt = "d_draw".to_string();
    console.enter(&mut cvars);
    assert_eq!(
        console.history_text(1000),
        "Type 'help' or '?' for basic info\n> d_draw\ntrue\n"
    );
}

#[test]
fn opening_and_closing_the_console() {
    let mut window = ConsoleWindow::new();
    assert!(!window.is_open());
    window.resized(601);
    assert_eq!(window.height, 300);

    assert!(window.open(true));
    assert!(window.is_open());
    assert!(window.close());
    assert!(!window.is_open());

    // The hint is due only the first time.
    assert!(!window.open(false));
    assert!(!window.close());
    assert_eq!(window.height, 300);
}

#[test]
fn submitting_and_answering() {
    let mut console = Console::new();
    console.prompt = "d_dbg true".to_string();
    let command = console.submit();
    assert_eq!(command, Command::Write("d_dbg".to_string(), "true".to_string()));
    assert_eq!(console.prompt, "");
    assert_eq!(console.history, vec![entered("d_dbg true")]);
    assert_eq!(console.prompt_history, vec!["d_dbg true".to_string()]);

    console.answer(None);
    assert_eq!(console.history.len(), 1);
    console.answer(Some("done".to_string()));
    assert_eq!(console.history, vec![entered("d_dbg true"), printed("done")]);
    assert_eq!(console.history_view_end, 2);

    assert_eq!(console.submit(), Command::Nothing);
    assert_eq!(console.prompt_history.len(), 1);
    assert_eq!(console.history.len(), 3);
}
