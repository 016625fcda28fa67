//! The client application shell, reduced to the decisions it makes:
//! which screen is visible. Window plumbing, fonts and rendering live
//! outside the library; they consult this state and draw it.

use vstd::prelude::*;

verus! {

/// The tabs the shell can show once a user is logged in.
#[derive(Clone, Copy, Debug, PartialEq, Eq, Structural)]
pub enum TabName {
    Dashboard,
    Logs,
    Settings,
}

/// What the window shows this frame.
#[derive(Clone, Copy, Debug, PartialEq, Eq, Structural)]
pub enum Screen {
    /// No user yet: only the login form is shown.
    Login,
    /// A user is present: the selected tab is shown.
    Tab(TabName),
}

/// The shell's state: the selected tab, and the account name whose
/// presence gates everything behind the login form.
pub struct App {
    pub selected_tab: TabName,
    pub username: String,
}

impl App {
    /// A fresh shell starts on the dashboard.
    pub fn new(username: String) -> (r: Self)
        ensures
            r.selected_tab is Dashboard,
            r.username == username,
    {
        App { selected_tab: TabName::Dashboard, username }
    }

    /// Switch tabs; the account is untouched.
    pub fn select_tab(&mut self, tab: TabName)
        ensures
            final(self).selected_tab == tab,
            final(self).username == old(self).username,
    {
        self.selected_tab = tab;
    }

    /// Which screen this frame must draw: the login form while no
    /// account name is set, the selected tab otherwise.
    pub fn screen(&self) -> (s: Screen)
        ensures
            self.username@.len() == 0 ==> s is Login,
            self.username@.len() > 0 ==> s == Screen::Tab(self.selected_tab),
    {
        if self.username.as_str().is_empty() {
            Screen::Login
        } else {
            Screen::Tab(self.selected_tab)
        }
    }
}

} // verus!
