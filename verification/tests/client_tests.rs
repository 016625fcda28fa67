use geph5_core::client::{App, Screen, TabName};

#[test]
fn without_an_account_only_login_is_shown() {
    let mut app = App::new(String::new());
    assert_eq!(app.screen(), Screen::Login);
    // Tab selection is remembered but not shown until login.
    app.select_tab(TabName::Settings);
    assert_eq!(app.screen(), Screen::Login);
}

#[test]
fn with_an_account_the_selected_tab_is_shown() {
    let mut app = App::new("alice".to_string());
    assert_eq!(app.screen(), Screen::Tab(TabName::Dashboard));
    app.select_tab(TabName::Logs);
    assert_eq!(app.screen(), Screen::Tab(TabName::Logs));
    app.select_tab(TabName::Settings);
    assert_eq!(app.screen(), Screen::Tab(TabName::Settings));
}
