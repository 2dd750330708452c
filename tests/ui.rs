use mini_irc::client::handle_user_input;
use mini_irc::protocol::{MessageReceiver, Request};
use mini_irc::ui::{App, AppState, InputMode, KeyCode, KeyReaction, UiEvent};
use mini_irc::widgets::Input;

fn s(x: &str) -> String {
    x.to_string()
}

fn names(app: &App) -> Vec<String> {
    app.state.tabs.iter().map(|t| t.name.clone()).collect()
}

#[test]
fn tabs_are_added_once_and_first_is_shown() {
    let mut app = App::default();
    assert_eq!(app.get_current_tab(), s(""));
    app.add_tab(s("#general"));
    app.add_tab(s("tab 2"));
    app.add_tab(s("#general"));
    assert_eq!(names(&app), vec![s("#general"), s("tab 2")]);
    assert_eq!(app.state.current_tab, Some(0));
    assert_eq!(app.get_current_tab(), s("#general"));
    assert_eq!(app.state.get_tab_index("tab 2"), Some(1));
    assert_eq!(app.state.get_tab_index("nope"), None);
    assert!(app.state.is_current_tab(0));
    assert!(!app.state.is_current_tab(1));
}

#[test]
fn users_are_kept_once_per_tab() {
    let mut app = App::default();
    assert!(app.state.current_users().is_none());
    app.add_user(s("Foo"), s("#general"));
    app.add_user(s("Bar"), s("#general"));
    app.add_user(s("Foo"), s("#general"));
    app.add_tab(s("#general"));
    assert_eq!(app.state.current_users(), Some(vec![s("Bar"), s("Foo")]));
    app.remove_user("Foo", s("#general"));
    assert_eq!(app.state.current_users(), Some(vec![s("Bar")]));
    app.add_tab_with_users(s("#dev"), vec![s("y"), s("x"), s("y"), s("Z"), s("é"), s("xa")]);
    assert_eq!(app.state.tabs[1].users, vec![s("Z"), s("x"), s("xa"), s("y"), s("é")]);
}

#[test]
fn messages_mark_other_tabs_unread() {
    let mut app = App::default();
    app.add_tab(s("#a"));
    app.add_tab(s("#b"));
    app.push_message(s("bob"), s("hi"), s("#a"));
    app.push_message(s("bob"), s("yo"), s("#b"));
    app.push_message(s("bob"), s("lost"), s("#c"));
    assert_eq!(app.state.tabs[0].history, vec![(s("bob"), s("hi"))]);
    assert!(!app.state.tabs[0].has_unread_message);
    assert!(app.state.tabs[1].has_unread_message);
    // moving right shows #b and marks it read
    assert!(app.react_to_event(UiEvent::Key(KeyCode::Right)).is_none());
    assert_eq!(app.get_current_tab(), s("#b"));
    assert!(!app.state.tabs[1].has_unread_message);
    app.react_to_event(UiEvent::Key(KeyCode::Right));
    assert_eq!(app.state.current_tab, Some(0));
    app.react_to_event(UiEvent::Key(KeyCode::Left));
    assert_eq!(app.state.current_tab, Some(1));
}

#[test]
fn removing_tabs_keeps_a_valid_current_tab() {
    let mut app = App::default();
    app.add_tab(s("#a"));
    app.add_tab(s("#b"));
    app.add_tab(s("#c"));
    app.state.current_tab = Some(2);
    app.remove_tab(s("#a"));
    assert_eq!(names(&app), vec![s("#b"), s("#c")]);
    assert_eq!(app.get_current_tab(), s("#c"));
    app.remove_tab(s("#c"));
    assert_eq!(app.get_current_tab(), s("#b"));
    app.remove_tab(s("#b"));
    assert_eq!(app.state.current_tab, None);
    assert_eq!(app.get_current_tab(), s(""));
}

#[test]
fn keys_switch_modes_edit_and_submit() {
    let mut app = App::default();
    app.add_tab(s("#general"));
    assert_eq!(app.react_to_event(UiEvent::Key(KeyCode::Char('q'))), Some(KeyReaction::Quit));
    app.react_to_event(UiEvent::Key(KeyCode::Char('e')));
    assert!(app.state.input_mode == InputMode::Editing);
    app.state.tabs[0].input.display_width = 20;
    for c in "hello".chars() {
        assert!(app.react_to_event(UiEvent::Key(KeyCode::Char(c))).is_none());
    }
    app.react_to_event(UiEvent::Key(KeyCode::Backspace));
    assert_eq!(app.react_to_event(UiEvent::Key(KeyCode::Enter)), Some(KeyReaction::UserInput(s("hell"))));
    assert_eq!(app.state.tabs[0].input.text, s(""));
    app.react_to_event(UiEvent::Key(KeyCode::Esc));
    assert!(app.state.input_mode == InputMode::Normal);
}

#[test]
fn scrolling_is_bounded_by_history() {
    let mut app = App::default();
    app.add_tab(s("#a"));
    app.push_message(s("x"), s("1"), s("#a"));
    app.react_to_event(UiEvent::ScrollUp);
    app.react_to_event(UiEvent::ScrollUp);
    assert_eq!(app.state.tabs[0].offset, 1);
    app.react_to_event(UiEvent::ScrollDown);
    app.react_to_event(UiEvent::ScrollDown);
    assert_eq!(app.state.tabs[0].offset, 0);
}

#[test]
fn default_state_is_empty() {
    let st = AppState::default();
    assert!(st.tabs.is_empty());
    assert!(st.current_tab.is_none());
    assert!(st.notif.is_none());
}

fn input(width: u16) -> Input {
    Input { display_width: width, ..Default::default() }
}

#[test]
fn input_inserts_at_cursor_and_deletes() {
    let mut i = input(20);
    for c in "abc".chars() {
        i.insert_at_cursor(c);
    }
    assert_eq!(i.text, s("abc"));
    assert_eq!(i.get_cursor_offset(), 3);
    i.cursor_move_left();
    i.cursor_move_left();
    assert_eq!(i.get_cursor_offset(), 1);
    i.insert_at_cursor('X');
    assert_eq!(i.text, s("aXbc"));
    i.delete_at_cursor();
    assert_eq!(i.text, s("aXc"));
    i.delete_behind_cursor();
    assert_eq!(i.text, s("ac"));
    assert_eq!(i.get_cursor_offset(), 1);
    i.cursor_move_right();
    assert_eq!(i.get_cursor_offset(), 2);
    assert_eq!(i.submit(), s("ac"));
    assert_eq!(i.text, s(""));
    assert_eq!(i.get_cursor_offset(), 0);
}

#[test]
fn input_counts_wide_characters_twice() {
    let mut i = input(20);
    i.insert_at_cursor('字');
    assert_eq!(i.get_cursor_offset(), 2);
    i.insert_at_cursor('a');
    assert_eq!(i.get_cursor_offset(), 3);
    i.cursor_move_left();
    i.cursor_move_left();
    assert_eq!(i.get_cursor_offset(), 0);
    i.delete_at_cursor();
    assert_eq!(i.text, s("a"));
}

#[test]
fn input_scrolls_when_the_cursor_leaves_the_display() {
    let mut i = input(4);
    for c in "abcdef".chars() {
        i.insert_at_cursor(c);
    }
    assert_eq!(i.text, s("abcdef"));
    assert!(i.text_offset > 0);
    assert!(i.get_cursor_offset() < 4);
    assert_eq!(i.get_display_string(), &i.text[i.text_offset..]);
    i.resize(3);
    assert!(i.get_cursor_offset() < 3);
}

#[test]
fn typed_line_goes_to_the_shown_room() {
    let mut app = App::default();
    app.add_tab(s("#general"));
    assert_eq!(
        handle_user_input(s("hello"), &mut app),
        Ok(Some(Request::Message { to: MessageReceiver::Channel(s("general")), content: s("hello") }))
    );
    let mut none = App::default();
    assert!(handle_user_input(s("hello"), &mut none).is_err());
}

#[test]
fn commands_become_requests() {
    let mut app = App::default();
    assert_eq!(handle_user_input(s("/join dev"), &mut app), Ok(Some(Request::JoinChan(s("dev")))));
    assert!(handle_user_input(s("/join"), &mut app).is_err());
    assert!(handle_user_input(s("/quit"), &mut app).is_err());
    app.add_tab(s("#dev"));
    assert_eq!(handle_user_input(s("/quit"), &mut app), Ok(Some(Request::LeaveChan(s("dev")))));
    app.set_notification(s("oops"));
    assert_eq!(handle_user_input(s("/clear notif"), &mut app), Ok(None));
    assert!(app.state.notif.is_none());
    assert_eq!(
        handle_user_input(s("/to bob hi there"), &mut app),
        Ok(Some(Request::Message { to: MessageReceiver::User(s("bob")), content: s("hi there") }))
    );
    assert_eq!(app.state.get_tab_index("@bob"), Some(1));
    assert_eq!(app.state.tabs[1].history, vec![(s("myself"), s("hi there"))]);
    assert!(handle_user_input(s("/to bob"), &mut app).is_err());
    assert!(handle_user_input(s("/dance"), &mut app).is_err());
}

#[test]
fn quitting_a_user_conversation_is_refused() {
    let mut app = App::default();
    app.add_tab(s("@bob"));
    assert!(handle_user_input(s("/quit"), &mut app).is_err());
    assert_eq!(
        handle_user_input(s("psst"), &mut app),
        Ok(Some(Request::Message { to: MessageReceiver::User(s("bob")), content: s("psst") }))
    );
}

#[test]
fn command_errors_and_untouched_app() {
    let mut app = App::default();
    assert_eq!(
        handle_user_input(s("/join"), &mut app),
        Err(s("The command 'join' has to be used with the name of a channel to join."))
    );
    assert_eq!(handle_user_input(s("/quit"), &mut app), Err(s("Can't quit. No channel joined.")));
    assert_eq!(handle_user_input(s("/dance"), &mut app), Err(s("Not a command: /dance")));
    assert!(app.state.tabs.is_empty());
    app.add_tab(s("#general"));
    assert_eq!(
        handle_user_input(s("hi"), &mut app),
        Ok(Some(Request::Message { to: MessageReceiver::Channel(s("general")), content: s("hi") }))
    );
    assert_eq!(handle_user_input(s("/quit"), &mut app), Ok(Some(Request::LeaveChan(s("general")))));
    assert_eq!(names(&app), vec![s("#general")]);
}

#[test]
fn private_message_opens_the_users_tab() {
    let mut app = App::default();
    assert_eq!(
        handle_user_input(s("/to bob hello world"), &mut app),
        Ok(Some(Request::Message { to: MessageReceiver::User(s("bob")), content: s("hello world") }))
    );
    assert_eq!(app.get_current_tab(), s("@bob"));
    assert_eq!(app.state.tabs[0].history, vec![(s("myself"), s("hello world"))]);
}

#[test]
fn enter_resets_the_input_line() {
    let mut app = App::default();
    app.add_tab(s("#a"));
    app.add_tab(s("#b"));
    app.push_message(s("x"), s("old"), s("#b"));
    app.react_to_event(UiEvent::Key(KeyCode::Char('e')));
    app.state.tabs[0].input.display_width = 4;
    for c in "abcdefgh".chars() {
        app.react_to_event(UiEvent::Key(KeyCode::Char(c)));
    }
    assert!(app.state.tabs[0].input.text_offset > 0);
    assert_eq!(app.react_to_event(UiEvent::Key(KeyCode::Enter)), Some(KeyReaction::UserInput(s("abcdefgh"))));
    assert_eq!(app.state.tabs[0].input.cursor_offset, 0);
    assert_eq!(app.state.tabs[0].input.text_offset, 0);
    app.react_to_event(UiEvent::Key(KeyCode::Esc));
    app.react_to_event(UiEvent::Key(KeyCode::Right));
    assert_eq!(app.state.tabs[1].history, vec![(s("x"), s("old"))]);
}

#[test]
fn removing_the_first_tab_keeps_the_shown_one() {
    let mut app = App::default();
    app.add_tab(s("#a"));
    app.add_tab(s("#b"));
    app.state.current_tab = Some(1);
    app.remove_tab(s("#a"));
    assert_eq!(app.state.current_tab, Some(0));
    assert_eq!(app.get_current_tab(), s("#b"));
}

#[test]
fn input_moves_keep_the_text_column() {
    let mut i = input(4);
    for c in "abcdefgh".chars() {
        i.insert_at_cursor(c);
    }
    let column = |x: &Input| x.text_offset + x.cursor_offset as usize;
    assert_eq!(column(&i), 8);
    for expected in (0..8).rev() {
        i.cursor_move_left();
        assert_eq!(column(&i), expected);
        assert!(i.cursor_offset < 4);
    }
    for expected in 1..=8 {
        i.cursor_move_right();
        assert_eq!(column(&i), expected);
    }
    i.delete_behind_cursor();
    assert_eq!(i.text, s("abcdefg"));
    assert_eq!(column(&i), 7);
}
