//! The state of the chat client's terminal interface: one tab per room or
//! conversation, each with its history, its members and its input line, and
//! how the interface reacts to keys and scrolling.

use vstd::prelude::*;
use vstd::string::StrSliceExecFns;
use crate::protocol::strings_view;
use crate::widgets::Input;

verus! {

/// Whether keys edit the input line or drive the interface.
#[derive(Clone, Copy, PartialEq, Eq, Debug, Structural)]
pub enum InputMode {
    Normal,
    Editing,
}

/// A key, as far as the interface tells keys apart.
#[derive(Clone, Copy, PartialEq, Eq, Debug)]
pub enum KeyCode {
    Char(char),
    Enter,
    Backspace,
    Delete,
    Esc,
    Left,
    Right,
    Other,
}

/// An event of the terminal, as far as the interface tells them apart.
#[derive(Clone, Copy, PartialEq, Eq, Debug)]
pub enum UiEvent {
    Key(KeyCode),
    ScrollUp,
    ScrollDown,
    Other,
}

/// What the interface asks of its caller after an event.
#[derive(Debug, PartialEq, Eq)]
pub enum KeyReaction {
    /// A line the user typed and submitted.
    UserInput(String),
    /// The user asked to quit.
    Quit,
}

/// Whether `a` comes before `b` in the order of strings, comparing
/// characters from position `i` on: by code point, a proper prefix first.
pub open spec fn str_lt_from(a: Seq<char>, b: Seq<char>, i: int) -> bool
    decreases a.len() - i,
{
    if i < 0 || i >= a.len() {
        0 <= i < b.len()
    } else if i >= b.len() {
        false
    } else if a[i] != b[i] {
        (a[i] as u32) < (b[i] as u32)
    } else {
        str_lt_from(a, b, i + 1)
    }
}

/// Whether `a` comes before `b` in the order of strings.
pub open spec fn str_lt(a: Seq<char>, b: Seq<char>) -> bool {
    str_lt_from(a, b, 0)
}

/// Each string comes before the next.
pub open spec fn sorted_strings(s: Seq<Seq<char>>) -> bool {
    forall|i: int, j: int| 0 <= i < j < s.len() ==> str_lt(s[i], s[j])
}

proof fn lemma_str_lt_irreflexive(a: Seq<char>, i: int)
    requires
        0 <= i,
    ensures
        !str_lt_from(a, a, i),
    decreases a.len() - i,
{
    if i < a.len() {
        lemma_str_lt_irreflexive(a, i + 1);
    }
}

proof fn lemma_str_lt_total(a: Seq<char>, b: Seq<char>, i: int)
    requires
        0 <= i <= a.len(),
        i <= b.len(),
        forall|j: int| 0 <= j < i ==> a[j] == b[j],
    ensures
        str_lt_from(a, b, i) || str_lt_from(b, a, i) || a == b,
    decreases a.len() - i,
{
    if i == a.len() {
        if i == b.len() {
            assert(a =~= b);
        }
    } else if i < b.len() {
        if a[i] == b[i] {
            lemma_str_lt_total(a, b, i + 1);
        } else {
            if (a[i] as u32) == (b[i] as u32) {
                vstd::utf8::char_u32_cast(a[i], a[i] as u32);
                vstd::utf8::char_u32_cast(b[i], b[i] as u32);
            }
        }
    }
}

proof fn lemma_str_lt_transitive(a: Seq<char>, b: Seq<char>, c: Seq<char>, i: int)
    requires
        0 <= i,
        str_lt_from(a, b, i),
        str_lt_from(b, c, i),
    ensures
        str_lt_from(a, c, i),
    decreases a.len() - i,
{
    if i < a.len() && i < b.len() && i < c.len() && a[i] == b[i] && b[i] == c[i] {
        lemma_str_lt_transitive(a, b, c, i + 1);
    }
}

proof fn lemma_sorted_distinct(s: Seq<Seq<char>>)
    requires
        sorted_strings(s),
    ensures
        s.no_duplicates(),
{
    assert forall|i: int, j: int| 0 <= i < s.len() && 0 <= j < s.len() && i != j implies s[i] != s[j] by {
        lemma_str_lt_irreflexive(s[i], 0);
        if i < j {
            assert(str_lt(s[i], s[j]));
        } else {
            assert(str_lt(s[j], s[i]));
        }
    }
}

/// The first position in `users` whose string does not come before `nick`.
fn sorted_position(users: &Vec<String>, nick: &str) -> (p: usize)
    ensures
        p <= users@.len(),
        forall|j: int| 0 <= j < p ==> str_lt(#[trigger] users@[j]@, nick@),
        p < users@.len() ==> !str_lt(users@[p as int]@, nick@),
{
    let mut p: usize = 0;
    while p < users.len()
        invariant
            p <= users@.len(),
            forall|j: int| 0 <= j < p ==> str_lt(#[trigger] users@[j]@, nick@),
        decreases users@.len() - p,
    {
        if !str_less(users[p].as_str(), nick) {
            return p;
        }
        p = p + 1;
    }
    p
}

/// Whether `a` comes before `b`, character by character.
fn str_less(a: &str, b: &str) -> (r: bool)
    ensures
        r == str_lt(a@, b@),
{
    let n = a.unicode_len();
    let m = b.unicode_len();
    let mut i: usize = 0;
    while i < n && i < m
        invariant
            n == a@.len(),
            m == b@.len(),
            i <= n,
            i <= m,
            str_lt_from(a@, b@, 0) == str_lt_from(a@, b@, i as int),
        decreases n - i,
    {
        let x = a.get_char(i);
        let y = b.get_char(i);
        if x != y {
            return (x as u32) < (y as u32);
        }
        i = i + 1;
    }
    i < m
}

/// One conversation: a room or a user.
#[derive(Debug, Default)]
pub struct Tab {
    pub name: String,
    /// Messages, as sender and text, oldest first.
    pub history: Vec<(String, String)>,
    /// How many messages the view is scrolled back.
    pub offset: usize,
    /// The members, each once, in the order of strings.
    pub users: Vec<String>,
    /// Current value of the input box
    pub input: Input,
    pub has_unread_message: bool,
}

impl Tab {
    /// The input line is well formed; the members are in the order of strings.
    pub open spec fn wf(&self) -> bool {
        self.input.wf() && sorted_strings(strings_view(self.users@))
    }

    /// An empty tab of that name.
    pub fn new(name: String) -> (r: Tab)
        ensures
            r.wf(),
            r.name@ == name@,
            r.history@.len() == 0,
            r.users@.len() == 0,
            r.offset == 0,
            !r.has_unread_message,
    {
        let r = Tab {
            name,
            history: Vec::new(),
            offset: 0,
            users: Vec::new(),
            input: Input {
                text: String::new(),
                cursor_offset: 0,
                text_offset: 0,
                enabled: false,
                display_width: 0,
            },
            has_unread_message: false,
        };
        assert(strings_view(r.users@) =~= Seq::<Seq<char>>::empty());
        r
    }

    /// Adds `nick` to the members, in its place in the order of strings,
    /// unless it is there already.
    fn add_user(&mut self, nick: String)
        requires
            old(self).wf(),
        ensures
            final(self).wf(),
            forall|x: Seq<char>| #[trigger] strings_view(final(self).users@).contains(x)
                <==> strings_view(old(self).users@).contains(x) || x == nick@,
            final(self).name == old(self).name,
            final(self).history == old(self).history,
            final(self).input == old(self).input,
    {
        let ghost before = strings_view(self.users@);
        let p = sorted_position(&self.users, nick.as_str());
        if p < self.users.len() && self.users[p] == nick {
            assert(before[p as int] == nick@);
            return;
        }
        proof {
            if p < before.len() {
                assert(before[p as int] == self.users@[p as int]@);
                assert(before[p as int] != nick@);
                lemma_str_lt_total(before[p as int], nick@, 0);
            }
            assert forall|j: int| 0 <= j < p implies str_lt(#[trigger] before[j], nick@) by {
                assert(before[j] == self.users@[j]@);
            }
        }
        let ghost x = nick@;
        self.users.insert(p, nick);
        proof {
            let after = strings_view(self.users@);
            assert(after =~= before.insert(p as int, x));
            assert forall|i: int, j: int| 0 <= i < j < after.len() implies str_lt(after[i], after[j]) by {
                if j < p {
                } else if j == p {
                } else if i < p {
                    assert(after[j] == before[j - 1]);
                } else if i == p {
                    assert(after[j] == before[j - 1]);
                    if j - 1 > p {
                        assert(str_lt(before[p as int], before[j - 1]));
                        lemma_str_lt_transitive(x, before[p as int], before[j - 1], 0);
                    }
                } else {
                    assert(after[i] == before[i - 1]);
                    assert(after[j] == before[j - 1]);
                }
            }
            assert forall|y: Seq<char>| #[trigger] after.contains(y) <==> before.contains(y) || y == x by {
                if after.contains(y) {
                    let k = choose|k: int| 0 <= k < after.len() && after[k] == y;
                    if k < p {
                        assert(before[k] == y);
                    } else if k > p {
                        assert(before[k - 1] == y);
                    }
                }
                if before.contains(y) {
                    let k = choose|k: int| 0 <= k < before.len() && before[k] == y;
                    if k < p {
                        assert(after[k] == y);
                    } else {
                        assert(after[k + 1] == y);
                    }
                }
                if y == x {
                    assert(after[p as int] == y);
                }
            }
        }
    }

    /// Removes `nick` from the members.
    fn remove_user(&mut self, nick: &str)
        requires
            old(self).wf(),
        ensures
            final(self).wf(),
            !strings_view(final(self).users@).contains(nick@),
            forall|x: Seq<char>| #[trigger] strings_view(final(self).users@).contains(x)
                <==> strings_view(old(self).users@).contains(x) && x != nick@,
            final(self).name == old(self).name,
            final(self).history == old(self).history,
            final(self).input == old(self).input,
    {
        let ghost before = strings_view(self.users@);
        match position_of_str(&self.users, nick) {
            None => {},
            Some(i) => {
                self.users.remove(i);
                let ghost after = strings_view(self.users@);
                assert(after =~= before.remove(i as int));
                proof {
                    lemma_sorted_distinct(before);
                }
                assert forall|a: int, b: int| 0 <= a < b < after.len() implies str_lt(after[a], after[b]) by {
                    if a >= i {
                        assert(after[a] == before[a + 1]);
                        assert(after[b] == before[b + 1]);
                    } else if b >= i {
                        assert(after[b] == before[b + 1]);
                    }
                }
                assert forall|x: Seq<char>| #[trigger] after.contains(x) == (before.contains(x) && x != nick@) by {
                    if after.contains(x) {
                        let j = choose|j: int| 0 <= j < after.len() && after[j] == x;
                        if j < i {
                            assert(before[j] == x);
                        } else {
                            assert(before[j + 1] == x);
                        }
                        assert(before[i as int] == nick@);
                    }
                    if before.contains(x) && x != nick@ {
                        let j = choose|j: int| 0 <= j < before.len() && before[j] == x;
                        if j < i {
                            assert(after[j] == x);
                        } else {
                            assert(j != i);
                            assert(after[j - 1] == x);
                        }
                    }
                }
            },
        }
    }
}

/// Whether `a` and `b` hold the same characters.
fn str_eq(a: &str, b: &str) -> (r: bool)
    ensures
        r == (a@ == b@),
{
    let n = a.unicode_len();
    if n != b.unicode_len() {
        return false;
    }
    let mut i: usize = 0;
    while i < n
        invariant
            n == a@.len(),
            n == b@.len(),
            i <= n,
            forall|j: int| 0 <= j < i ==> a@[j] == b@[j],
        decreases n - i,
    {
        if a.get_char(i) != b.get_char(i) {
            return false;
        }
        i = i + 1;
    }
    assert(a@ =~= b@);
    true
}

/// The first position of `s` in `v`.
fn position_of_str(v: &Vec<String>, s: &str) -> (r: Option<usize>)
    ensures
        r is None <==> !strings_view(v@).contains(s@),
        r matches Some(i) ==> i < v@.len() && v@[i as int]@ == s@
            && forall|j: int| 0 <= j < i ==> v@[j]@ != s@,
{
    let mut i: usize = 0;
    while i < v.len()
        invariant
            i <= v@.len(),
            forall|j: int| 0 <= j < i ==> v@[j]@ != s@,
        decreases v@.len() - i,
    {
        if str_eq(v[i].as_str(), s) {
            assert(strings_view(v@)[i as int] == s@);
            return Some(i);
        }
        i = i + 1;
    }
    assert(!strings_view(v@).contains(s@)) by {
        if strings_view(v@).contains(s@) {
            let j = choose|j: int| 0 <= j < strings_view(v@).len() && strings_view(v@)[j] == s@;
            assert(v@[j]@ == s@);
        }
    }
    None
}

/// The names of the tabs, in order.
pub open spec fn tab_names(tabs: Seq<Tab>) -> Seq<Seq<char>> {
    tabs.map_values(|t: Tab| t.name@)
}

/// The state of the interface.
pub struct AppState {
    /// Current input mode
    pub input_mode: InputMode,
    /// Tabs: one for every chan joined and private conversation
    pub tabs: Vec<Tab>,
    /// Notification to display.
    pub notif: Option<String>,
    /// Index of the current tab.
    pub current_tab: Option<usize>,
    /// The tab shown while there is none.
    pub empty_tab: Tab,
}

impl Default for AppState {
    fn default() -> (r: AppState)
        ensures
            r.wf(),
            r.input_mode == InputMode::Normal,
            r.tabs@.len() == 0,
            r.notif is None,
            r.current_tab is None,
            r.empty_tab.name@.len() == 0,
            r.empty_tab.history@.len() == 0,
    {
        AppState {
            input_mode: InputMode::Normal,
            tabs: Vec::new(),
            notif: None,
            current_tab: None,
            empty_tab: Tab::new(String::new()),
        }
    }
}

impl AppState {
    /// The current tab, if any, is one of the tabs; tab names are unique;
    /// every tab is well formed.
    pub open spec fn wf(&self) -> bool {
        &&& self.current_tab matches Some(i) ==> i < self.tabs@.len()
        &&& tab_names(self.tabs@).no_duplicates()
        &&& forall|i: int| 0 <= i < self.tabs@.len() ==> (#[trigger] self.tabs@[i]).wf()
        &&& self.empty_tab.wf()
    }

    /// The position of the tab shown.
    pub open spec fn current_index(&self) -> Option<int> {
        match self.current_tab {
            Some(i) if self.tabs@.len() > 0 => Some(i as int),
            _ => None,
        }
    }

    /// The tab shown: the current tab, or the empty tab while there is none.
    pub open spec fn current(&self) -> Tab {
        match self.current_index() {
            Some(i) => self.tabs@[i],
            None => self.empty_tab,
        }
    }

    /// Position of the tab called `tab`.
    pub fn get_tab_index(&self, tab: &str) -> (r: Option<usize>)
        ensures
            r is None <==> !tab_names(self.tabs@).contains(tab@),
            r matches Some(i) ==> i < self.tabs@.len() && self.tabs@[i as int].name@ == tab@,
    {
        let mut i: usize = 0;
        while i < self.tabs.len()
            invariant
                i <= self.tabs@.len(),
                forall|j: int| 0 <= j < i ==> self.tabs@[j].name@ != tab@,
            decreases self.tabs@.len() - i,
        {
            if str_eq(self.tabs[i].name.as_str(), tab) {
                assert(tab_names(self.tabs@)[i as int] == tab@);
                return Some(i);
            }
            i = i + 1;
        }
        assert(!tab_names(self.tabs@).contains(tab@)) by {
            if tab_names(self.tabs@).contains(tab@) {
                let j = choose|j: int| 0 <= j < tab_names(self.tabs@).len() && tab_names(self.tabs@)[j] == tab@;
                assert(self.tabs@[j].name@ == tab@);
            }
        }
        None
    }

    /// Whether the tab at `index` is the current one.
    pub fn is_current_tab(&self, index: usize) -> (r: bool)
        ensures
            r == (self.current_tab == Some(index)),
    {
        match self.current_tab {
            Some(current_index) => current_index == index,
            None => false,
        }
    }

    /// The position of the tab shown, as `current_index`.
    fn current_position(&self) -> (r: Option<usize>)
        ensures
            r matches Some(i) ==> self.current_index() == Some(i as int),
            r is None ==> self.current_index() is None,
    {
        if self.tabs.len() > 0 {
            self.current_tab
        } else {
            None
        }
    }

    /// Takes the tab shown out, leaving an empty one in its place.
    fn take_current(&mut self) -> (r: Tab)
        requires
            old(self).wf(),
        ensures
            r == old(self).current(),
            final(self).current_index() == old(self).current_index(),
            final(self).tabs@.len() == old(self).tabs@.len(),
            final(self).input_mode == old(self).input_mode,
            final(self).notif == old(self).notif,
            final(self).current_tab == old(self).current_tab,
            forall|j: int| 0 <= j < old(self).tabs@.len() && Some(j) != old(self).current_index()
                ==> final(self).tabs@[j] == old(self).tabs@[j],
            old(self).current_index() is Some ==> final(self).empty_tab == old(self).empty_tab,
    {
        let mut t = Tab::new(String::new());
        match self.current_position() {
            Some(i) => {
                std::mem::swap(&mut t, &mut self.tabs[i]);
            },
            None => {
                std::mem::swap(&mut t, &mut self.empty_tab);
            },
        }
        t
    }

    /// Puts `t` back as the tab shown.
    fn put_current(&mut self, t: Tab)
        requires
            old(self).current_tab matches Some(i) ==> i < old(self).tabs@.len(),
            forall|i: int| 0 <= i < old(self).tabs@.len() && Some(i) != old(self).current_index()
                ==> (#[trigger] old(self).tabs@[i]).wf(),
            old(self).current_index() is Some ==> old(self).empty_tab.wf(),
            t.wf(),
        ensures
            final(self).current() == t,
            final(self).current_index() == old(self).current_index(),
            final(self).tabs@.len() == old(self).tabs@.len(),
            final(self).input_mode == old(self).input_mode,
            final(self).notif == old(self).notif,
            final(self).current_tab == old(self).current_tab,
            forall|j: int| 0 <= j < old(self).tabs@.len() && Some(j) != old(self).current_index()
                ==> final(self).tabs@[j] == old(self).tabs@[j],
            old(self).current_index() is Some ==> final(self).empty_tab == old(self).empty_tab,
            forall|i: int| 0 <= i < final(self).tabs@.len() ==> (#[trigger] final(self).tabs@[i]).wf(),
            final(self).empty_tab.wf(),
    {
        match self.current_position() {
            Some(i) => {
                self.tabs.set(i, t);
            },
            None => {
                self.empty_tab = t;
            },
        }
    }

    /// Marks the tab shown as read.
    pub fn unset_unread_message(&mut self)
        requires
            old(self).wf(),
        ensures
            final(self).wf(),
            !final(self).current().has_unread_message,
            final(self).current().name == old(self).current().name,
            final(self).current().history == old(self).current().history,
            final(self).current().input == old(self).current().input,
            final(self).current().users == old(self).current().users,
            final(self).current().offset == old(self).current().offset,
            final(self).current_index() == old(self).current_index(),
            final(self).current_tab == old(self).current_tab,
            final(self).input_mode == old(self).input_mode,
            final(self).notif == old(self).notif,
            tab_names(final(self).tabs@) == tab_names(old(self).tabs@),
            final(self).tabs@.len() == old(self).tabs@.len(),
            forall|j: int| 0 <= j < old(self).tabs@.len() && Some(j) != old(self).current_index()
                ==> final(self).tabs@[j] == old(self).tabs@[j],
    {
        let mut t = self.take_current();
        t.has_unread_message = false;
        self.put_current(t);
        proof {
            assert(tab_names(self.tabs@) =~= tab_names(old(self).tabs@));
        }
    }

    /// The members of the current tab; `None` while there is no tab.
    pub fn current_users(&self) -> (r: Option<Vec<String>>)
        requires
            self.wf(),
        ensures
            r is None <==> self.current_index() is None,
            r matches Some(u) ==> strings_view(u@) == strings_view(self.current().users@),
    {
        match self.current_position() {
            None => None,
            Some(i) => Some(crate::protocol::clone_strings(&self.tabs[i].users)),
        }
    }

    /// Takes the tab at `i` out, leaving an empty one in its place.
    fn take_tab(&mut self, i: usize) -> (r: Tab)
        requires
            i < old(self).tabs@.len(),
        ensures
            r == old(self).tabs@[i as int],
            final(self).tabs@ == old(self).tabs@.update(i as int, final(self).tabs@[i as int]),
            final(self).tabs@[i as int].wf(),
            final(self).input_mode == old(self).input_mode,
            final(self).notif == old(self).notif,
            final(self).current_tab == old(self).current_tab,
            final(self).empty_tab == old(self).empty_tab,
    {
        let mut t = Tab::new(String::new());
        std::mem::swap(&mut t, &mut self.tabs[i]);
        proof {
            assert(self.tabs@ =~= old(self).tabs@.update(i as int, self.tabs@[i as int]));
        }
        t
    }

    /// Position of the tab called `tab`, which is added at the end when absent.
    pub fn tab_or_insert(&mut self, tab: String) -> (r: usize)
        requires
            old(self).wf(),
        ensures
            final(self).wf(),
            r < final(self).tabs@.len(),
            final(self).tabs@[r as int].name@ == tab@,
            tab_names(old(self).tabs@).contains(tab@) ==> final(self).tabs@ == old(self).tabs@,
            !tab_names(old(self).tabs@).contains(tab@) ==> final(self).tabs@ == old(self).tabs@.push(
                final(self).tabs@[r as int],
            ) && final(self).tabs@[r as int].users@.len() == 0 && final(self).tabs@[r as int].history@.len() == 0,
            final(self).current_tab == old(self).current_tab,
            final(self).input_mode == old(self).input_mode,
            final(self).notif == old(self).notif,
            final(self).empty_tab == old(self).empty_tab,
    {
        match self.get_tab_index(tab.as_str()) {
            Some(i) => i,
            None => {
                let ghost names = tab_names(self.tabs@);
                self.tabs.push(Tab::new(tab));
                proof {
                    assert(tab_names(self.tabs@) =~= names.push(tab@));
                }
                self.tabs.len() - 1
            },
        }
    }
}

/// The application: the interface's state, which a terminal front end draws.
pub struct App {
    pub state: AppState,
}

impl Default for App {
    fn default() -> (r: App)
        ensures
            r.state.wf(),
            r.state.tabs@.len() == 0,
            r.state.current_tab is None,
            r.state.input_mode == InputMode::Normal,
            r.state.notif is None,
            r.state.empty_tab.name@.len() == 0,
            r.state.empty_tab.history@.len() == 0,
            r.state.current().name@.len() == 0,
    {
        App { state: AppState::default() }
    }
}

/// The two states have the same tabs, which differ at most in being
/// marked unread.
pub open spec fn tabs_kept_but_unread(a: AppState, b: AppState) -> bool {
    &&& b.tabs@.len() == a.tabs@.len()
    &&& forall|i: int| 0 <= i < a.tabs@.len() ==> {
        &&& (#[trigger] b.tabs@[i]).name == a.tabs@[i].name
        &&& b.tabs@[i].history == a.tabs@[i].history
        &&& b.tabs@[i].input == a.tabs@[i].input
        &&& b.tabs@[i].users == a.tabs@[i].users
        &&& b.tabs@[i].offset == a.tabs@[i].offset
    }
}

/// The tab that a key moves to: the previous one, or the last from the first.
pub open spec fn previous_tab(i: int, len: int) -> int {
    if i == 0 { len - 1 } else { i - 1 }
}

/// The tab that a key moves to: the next one, or the first from the last.
pub open spec fn next_tab(i: int, len: int) -> int {
    if i == len - 1 { 0 } else { i + 1 }
}

impl App {
    /// The state is well formed.
    pub open spec fn wf(&self) -> bool {
        self.state.wf()
    }

    /// Adds `username` to the members of tab `tab`, which is created when absent.
    pub fn add_user(&mut self, username: String, tab: String)
        requires
            old(self).wf(),
        ensures
            final(self).wf(),
            exists|i: int| 0 <= i < final(self).state.tabs@.len() && final(self).state.tabs@[i].name@ == tab@
                && strings_view(final(self).state.tabs@[i].users@).contains(username@),
            tab_names(old(self).state.tabs@).contains(tab@) ==> tab_names(final(self).state.tabs@) == tab_names(old(self).state.tabs@),
            !tab_names(old(self).state.tabs@).contains(tab@) ==> tab_names(final(self).state.tabs@) == tab_names(old(self).state.tabs@).push(tab@),
            final(self).state.current_tab == old(self).state.current_tab,
    {
        let ghost names = tab_names(self.state.tabs@);
        let ghost name = tab@;
        let i = self.state.tab_or_insert(tab);
        proof {
            if names.contains(name) {
            } else {
                assert(tab_names(self.state.tabs@) =~= names.push(name));
            }
        }
        let ghost names1 = tab_names(self.state.tabs@);
        let mut t = self.state.take_tab(i);
        let ghost uname = username@;
        t.add_user(username);
        proof {
            assert(strings_view(t.users@).contains(uname));
        }
        self.state.tabs.set(i, t);
        proof {
            assert(tab_names(self.state.tabs@) =~= names1);
            assert(self.state.tabs@[i as int].name@ == tab@);
        }
    }

    /// Removes `username` from the members of tab `tab`, if there is one.
    pub fn remove_user(&mut self, username: &str, tab: String)
        requires
            old(self).wf(),
        ensures
            final(self).wf(),
            tab_names(final(self).state.tabs@) == tab_names(old(self).state.tabs@),
            forall|i: int| 0 <= i < final(self).state.tabs@.len() && final(self).state.tabs@[i].name@ == tab@
                ==> !strings_view(#[trigger] final(self).state.tabs@[i].users@).contains(username@),
            final(self).state.current_tab == old(self).state.current_tab,
    {
        if let Some(index) = self.state.get_tab_index(tab.as_str()) {
            let ghost names = tab_names(self.state.tabs@);
            let mut t = self.state.take_tab(index);
            t.remove_user(username);
            self.state.tabs.set(index, t);
            proof {
                assert(tab_names(self.state.tabs@) =~= names);
                assert forall|i: int| 0 <= i < self.state.tabs@.len() && self.state.tabs@[i].name@ == tab@
                    implies !strings_view(#[trigger] self.state.tabs@[i].users@).contains(username@) by {
                    assert(names[i] == names[index as int]);
                }
            }
        } else {
            proof {
                assert forall|i: int| 0 <= i < self.state.tabs@.len() && self.state.tabs@[i].name@ == tab@
                    implies !strings_view(#[trigger] self.state.tabs@[i].users@).contains(username@) by {
                    assert(tab_names(self.state.tabs@)[i] == tab@);
                }
            }
        }
    }

    /// Adds a tab called `tab` unless there is one, and shows the first tab
    /// when none was shown.
    pub fn add_tab(&mut self, tab: String)
        requires
            old(self).wf(),
        ensures
            final(self).wf(),
            tab_names(old(self).state.tabs@).contains(tab@) ==> tab_names(final(self).state.tabs@) == tab_names(old(self).state.tabs@),
            !tab_names(old(self).state.tabs@).contains(tab@) ==> tab_names(final(self).state.tabs@) == tab_names(old(self).state.tabs@).push(tab@),
            tab_names(old(self).state.tabs@).contains(tab@) ==> final(self).state.tabs@ == old(self).state.tabs@,
            !tab_names(old(self).state.tabs@).contains(tab@) ==> {
                &&& final(self).state.tabs@.len() == old(self).state.tabs@.len() + 1
                &&& forall|j: int| 0 <= j < old(self).state.tabs@.len() ==> #[trigger] final(self).state.tabs@[j] == old(self).state.tabs@[j]
                &&& final(self).state.tabs@.last().history@.len() == 0
                &&& final(self).state.tabs@.last().offset == 0
            },
            old(self).state.current_tab is None ==> final(self).state.current_tab == Some(0usize),
            old(self).state.current_tab is Some ==> final(self).state.current_tab == old(self).state.current_tab,
            final(self).state.notif == old(self).state.notif,
            final(self).state.input_mode == old(self).state.input_mode,
            final(self).state.empty_tab == old(self).state.empty_tab,
    {
        let ghost names = tab_names(self.state.tabs@);
        if self.state.get_tab_index(tab.as_str()).is_none() {
            self.state.tabs.push(Tab::new(tab));
            proof {
                assert(tab_names(self.state.tabs@) =~= names.push(tab@));
            }
        }
        if self.state.current_tab.is_none() {
            self.state.current_tab = Some(0);
        }
    }

    /// Adds a tab called `tab` with the members `users`, unless there is
    /// one, and shows the first tab when none was shown.
    pub fn add_tab_with_users(&mut self, tab: String, users: Vec<String>)
        requires
            old(self).wf(),
        ensures
            final(self).wf(),
            tab_names(old(self).state.tabs@).contains(tab@) ==> tab_names(final(self).state.tabs@) == tab_names(old(self).state.tabs@),
            !tab_names(old(self).state.tabs@).contains(tab@) ==> {
                &&& tab_names(final(self).state.tabs@) == tab_names(old(self).state.tabs@).push(tab@)
                &&& forall|x: Seq<char>| #[trigger] strings_view(final(self).state.tabs@.last().users@).contains(x)
                    <==> strings_view(users@).contains(x)
            },
            old(self).state.current_tab is None ==> final(self).state.current_tab == Some(0usize),
            old(self).state.current_tab is Some ==> final(self).state.current_tab == old(self).state.current_tab,
    {
        let ghost names = tab_names(self.state.tabs@);
        if self.state.get_tab_index(tab.as_str()).is_none() {
            let mut t = Tab::new(tab);
            let mut k: usize = 0;
            while k < users.len()
                invariant
                    k <= users@.len(),
                    t.wf(),
                    t.name@ == tab@,
                    forall|x: Seq<char>| #[trigger] strings_view(t.users@).contains(x)
                        <==> strings_view(users@.subrange(0, k as int)).contains(x),
                decreases users@.len() - k,
            {
                t.add_user(users[k].clone());
                proof {
                    let prev = strings_view(users@.subrange(0, k as int));
                    let next = strings_view(users@.subrange(0, k + 1));
                    assert(next =~= prev.push(users@[k as int]@));
                    assert forall|x: Seq<char>| #[trigger] next.contains(x) <==> prev.contains(x) || x == users@[k as int]@ by {
                        if next.contains(x) {
                            let j = choose|j: int| 0 <= j < next.len() && next[j] == x;
                            if j < k {
                                assert(prev[j] == x);
                            }
                        }
                        if prev.contains(x) {
                            let j = choose|j: int| 0 <= j < prev.len() && prev[j] == x;
                            assert(next[j] == x);
                        }
                        if x == users@[k as int]@ {
                            assert(next[k as int] == x);
                        }
                    }
                }
                k = k + 1;
            }
            proof {
                assert(users@.subrange(0, k as int) =~= users@);
            }
            self.state.tabs.push(t);
            proof {
                assert(tab_names(self.state.tabs@) =~= names.push(tab@));
            }
        }
        if self.state.current_tab.is_none() {
            self.state.current_tab = Some(0);
        }
    }

    /// Removes the tab called `tab` while a tab is shown; the tab shown stays
    /// the same when it is another one, else the one before it is shown.
    pub fn remove_tab(&mut self, tab: String)
        requires
            old(self).wf(),
        ensures
            final(self).wf(),
            old(self).state.current_tab is None || !tab_names(old(self).state.tabs@).contains(tab@)
                ==> final(self).state.tabs@ == old(self).state.tabs@
                && final(self).state.current_tab == old(self).state.current_tab,
            old(self).state.current_tab is Some && tab_names(old(self).state.tabs@).contains(tab@) ==> {
                let idx = tab_names(old(self).state.tabs@).index_of(tab@);
                let cur = old(self).state.current_tab->0 as int;
                &&& tab_names(final(self).state.tabs@) == tab_names(old(self).state.tabs@).remove(idx)
                &&& final(self).state.tabs@ == old(self).state.tabs@.remove(idx)
                &&& (final(self).state.current_tab is None <==> final(self).state.tabs@.len() == 0)
                &&& final(self).state.tabs@.len() > 0 ==> final(self).state.current_tab == Some(
                    (if idx < cur || (idx == cur && cur > 0) { cur - 1 } else { cur }) as usize,
                )
            },
            final(self).state.notif == old(self).state.notif,
            final(self).state.input_mode == old(self).state.input_mode,
    {
        let ghost names = tab_names(self.state.tabs@);
        if let (Some(index), Some(current_index)) = (self.state.get_tab_index(tab.as_str()), self.state.current_tab) {
            let _ = self.state.tabs.remove(index);
            proof {
                assert(names[index as int] == tab@);
                assert(names.index_of(tab@) == index);
                assert(self.state.tabs@ =~= old(self).state.tabs@.remove(index as int));
                assert(tab_names(self.state.tabs@) =~= names.remove(index as int));
                assert forall|a: int, b: int| 0 <= a < b < tab_names(self.state.tabs@).len()
                    implies tab_names(self.state.tabs@)[a] != tab_names(self.state.tabs@)[b] by {
                    if a >= index {
                        assert(tab_names(self.state.tabs@)[a] == names[a + 1]);
                        assert(tab_names(self.state.tabs@)[b] == names[b + 1]);
                    } else if b >= index {
                        assert(tab_names(self.state.tabs@)[b] == names[b + 1]);
                    }
                }
                assert forall|i: int| 0 <= i < self.state.tabs@.len() implies (#[trigger] self.state.tabs@[i]).wf() by {
                    if i >= index {
                        assert(self.state.tabs@[i] == old(self).state.tabs@[i + 1]);
                    } else {
                        assert(self.state.tabs@[i] == old(self).state.tabs@[i]);
                    }
                }
                if tab_names(self.state.tabs@).contains(tab@) {
                    let j = choose|j: int| 0 <= j < tab_names(self.state.tabs@).len() && tab_names(self.state.tabs@)[j] == tab@;
                    if j >= index {
                        assert(names[j + 1] == names[index as int]);
                    } else {
                        assert(names[j] == names[index as int]);
                    }
                }
            }
            if self.state.tabs.len() == 0 {
                self.state.current_tab = None;
            } else if index < current_index || (index == current_index && current_index > 0) {
                self.state.current_tab = Some(current_index - 1);
            }
        }
    }

    /// Appends a message to the history of tab `tab_name`, if there is one,
    /// and marks the tab unread unless it is shown and scrolled to the end.
    pub fn push_message(&mut self, from: String, message: String, tab_name: String)
        requires
            old(self).wf(),
        ensures
            final(self).wf(),
            tab_names(final(self).state.tabs@) == tab_names(old(self).state.tabs@),
            final(self).state.current_tab == old(self).state.current_tab,
            final(self).state.notif == old(self).state.notif,
            final(self).state.input_mode == old(self).state.input_mode,
            final(self).state.empty_tab == old(self).state.empty_tab,
            forall|i: int| 0 <= i < old(self).state.tabs@.len() && old(self).state.tabs@[i].name@ != tab_name@
                ==> #[trigger] final(self).state.tabs@[i] == old(self).state.tabs@[i],
            forall|i: int| 0 <= i < old(self).state.tabs@.len() && old(self).state.tabs@[i].name@ == tab_name@ ==> {
                &&& (#[trigger] final(self).state.tabs@[i]).history@ == old(self).state.tabs@[i].history@.push((from, message))
                &&& final(self).state.tabs@[i].has_unread_message == (old(self).state.tabs@[i].has_unread_message
                    || old(self).state.tabs@[i].offset != 0 || old(self).state.current_tab != Some(i as usize))
            },
    {
        if let Some(index) = self.state.get_tab_index(tab_name.as_str()) {
            let is_current_tab = self.state.is_current_tab(index);
            let ghost names = tab_names(self.state.tabs@);
            let mut t = self.state.take_tab(index);
            t.history.push((from, message));
            if t.offset != 0 || !is_current_tab {
                t.has_unread_message = true;
            }
            self.state.tabs.set(index, t);
            proof {
                assert(tab_names(self.state.tabs@) =~= names);
                assert forall|i: int| 0 <= i < old(self).state.tabs@.len() && old(self).state.tabs@[i].name@ == tab_name@
                    implies i == index by {
                    assert(names[i] == names[index as int]);
                }
            }
        } else {
            proof {
                assert forall|i: int| 0 <= i < old(self).state.tabs@.len() implies old(self).state.tabs@[i].name@ != tab_name@ by {
                    assert(tab_names(old(self).state.tabs@)[i] == old(self).state.tabs@[i].name@);
                }
            }
        }
    }

    /// The name of the tab shown; empty while there is none.
    pub fn get_current_tab(&self) -> (r: String)
        requires
            self.wf(),
        ensures
            r@ == self.state.current().name@,
    {
        match self.state.current_position() {
            Some(i) => self.state.tabs[i].name.clone(),
            None => self.state.empty_tab.name.clone(),
        }
    }

    /// Sets a new notification to print, in place of any other.
    pub fn set_notification(&mut self, notif: String)
        requires
            old(self).wf(),
        ensures
            final(self).wf(),
            final(self).state.notif == Some(notif),
            final(self).state.tabs == old(self).state.tabs,
            final(self).state.current_tab == old(self).state.current_tab,
    {
        self.state.notif = Some(notif);
    }

    /// Clears the current notification.
    pub fn clear_notif(&mut self)
        requires
            old(self).wf(),
        ensures
            final(self).wf(),
            final(self).state.notif is None,
            final(self).state.tabs == old(self).state.tabs,
            final(self).state.current_tab == old(self).state.current_tab,
    {
        self.state.notif = None;
    }

    /// Reacts to a terminal event. Scrolling moves the shown tab's history
    /// in any mode. In normal mode, `e` starts editing, `q` asks to quit, and
    /// the arrows move between tabs. In editing mode, `Enter` submits the
    /// input line, `Esc` goes back to normal mode, and other keys edit.
    pub fn react_to_event(&mut self, event: UiEvent) -> (r: Option<KeyReaction>)
        requires
            old(self).wf(),
        ensures
            final(self).wf(),
            tab_names(final(self).state.tabs@) == tab_names(old(self).state.tabs@),
            final(self).state.current_index() == old(self).state.current_index() || (event is Key
                && old(self).state.input_mode == InputMode::Normal),
            old(self).state.input_mode == InputMode::Normal ==> match event {
                UiEvent::Key(KeyCode::Char('e')) => r is None && final(self).state.input_mode == InputMode::Editing,
                UiEvent::Key(KeyCode::Char('q')) => r == Some(KeyReaction::Quit)
                    && final(self).state.input_mode == InputMode::Normal,
                UiEvent::Key(KeyCode::Left) => r is None && final(self).state.input_mode == InputMode::Normal
                    && match old(self).state.current_index() {
                        Some(i) => final(self).state.current_tab == Some(previous_tab(i, old(self).state.tabs@.len() as int) as usize)
                            && !final(self).state.current().has_unread_message
                            && tabs_kept_but_unread(old(self).state, final(self).state),
                        None => final(self).state.current_tab == old(self).state.current_tab,
                    },
                UiEvent::Key(KeyCode::Right) => r is None && final(self).state.input_mode == InputMode::Normal
                    && match old(self).state.current_index() {
                        Some(i) => final(self).state.current_tab == Some(next_tab(i, old(self).state.tabs@.len() as int) as usize)
                            && !final(self).state.current().has_unread_message
                            && tabs_kept_but_unread(old(self).state, final(self).state),
                        None => final(self).state.current_tab == old(self).state.current_tab,
                    },
                _ => r is None && final(self).state.input_mode == InputMode::Normal
                    && final(self).state.current_tab == old(self).state.current_tab,
            },
            old(self).state.input_mode == InputMode::Editing ==> match event {
                UiEvent::Key(KeyCode::Enter) => (r matches Some(KeyReaction::UserInput(s))
                    && s@ == old(self).state.current().input.text@ && final(self).state.current().input.text@.len() == 0)
                    && final(self).state.current().input.cursor_offset == 0
                    && final(self).state.current().input.text_offset == 0
                    && final(self).state.current_tab == old(self).state.current_tab
                    && final(self).state.input_mode == InputMode::Editing,
                UiEvent::Key(KeyCode::Esc) => r is None && final(self).state.input_mode == InputMode::Normal,
                _ => r is None && final(self).state.input_mode == InputMode::Editing,
            },
            final(self).state.current_tab == old(self).state.current_tab || old(self).state.input_mode == InputMode::Normal,
            old(self).state.input_mode == InputMode::Normal && event is Key ==> {
                &&& final(self).state.tabs@.len() == old(self).state.tabs@.len()
                &&& forall|i: int| 0 <= i < old(self).state.tabs@.len() ==> {
                    &&& (#[trigger] final(self).state.tabs@[i]).name == old(self).state.tabs@[i].name
                    &&& final(self).state.tabs@[i].history == old(self).state.tabs@[i].history
                    &&& final(self).state.tabs@[i].input == old(self).state.tabs@[i].input
                    &&& final(self).state.tabs@[i].users == old(self).state.tabs@[i].users
                    &&& final(self).state.tabs@[i].offset == old(self).state.tabs@[i].offset
                }
            },
            event == UiEvent::ScrollUp ==> final(self).state.current().offset == if old(self).state.current().offset
                + 1 <= old(self).state.current().history@.len() {
                old(self).state.current().offset + 1
            } else {
                old(self).state.current().history@.len() as int
            },
            event == UiEvent::ScrollDown ==> final(self).state.current().offset == if old(self).state.current().offset
                > 0 {
                old(self).state.current().offset - 1
            } else {
                0
            },
    {
        let input_mode = self.state.input_mode;
        let ghost names = tab_names(self.state.tabs@);
        match event {
            UiEvent::ScrollUp => {
                let mut t = self.state.take_current();
                let len = t.history.len();
                t.offset = if t.offset < len { t.offset + 1 } else { len };
                self.state.put_current(t);
                proof {
                    assert(tab_names(self.state.tabs@) =~= names);
                }
                return None;
            },
            UiEvent::ScrollDown => {
                let mut t = self.state.take_current();
                t.offset = t.offset.saturating_sub(1);
                if t.offset == 0 {
                    t.has_unread_message = false;
                }
                self.state.put_current(t);
                proof {
                    assert(tab_names(self.state.tabs@) =~= names);
                }
                return None;
            },
            UiEvent::Other => {
                return None;
            },
            UiEvent::Key(code) => {
                match input_mode {
                    InputMode::Normal => {
                        match code {
                            KeyCode::Char(c) => {
                                if c == 'e' {
                                    self.state.input_mode = InputMode::Editing;
                                } else if c == 'q' {
                                    return Some(KeyReaction::Quit);
                                }
                                None
                            },
                            KeyCode::Left => {
                                if let Some(index) = self.state.current_position() {
                                    self.state.current_tab = if index == 0 {
                                        Some(self.state.tabs.len() - 1)
                                    } else {
                                        Some(index - 1)
                                    };
                                    self.state.unset_unread_message();
                                }
                                None
                            },
                            KeyCode::Right => {
                                if let Some(index) = self.state.current_position() {
                                    self.state.current_tab = if index == self.state.tabs.len() - 1 {
                                        Some(0)
                                    } else {
                                        Some(index + 1)
                                    };
                                    self.state.unset_unread_message();
                                }
                                None
                            },
                            _ => None,
                        }
                    },
                    InputMode::Editing => {
                        match code {
                            KeyCode::Esc => {
                                self.state.input_mode = InputMode::Normal;
                                None
                            },
                            _ => {
                                let mut t = self.state.take_current();
                                let result = match code {
                                    KeyCode::Enter => Some(KeyReaction::UserInput(t.input.submit())),
                                    KeyCode::Char(c) => {
                                        t.input.insert_at_cursor(c);
                                        None
                                    },
                                    KeyCode::Backspace => {
                                        t.input.delete_behind_cursor();
                                        None
                                    },
                                    KeyCode::Delete => {
                                        t.input.delete_at_cursor();
                                        None
                                    },
                                    KeyCode::Left => {
                                        t.input.cursor_move_left();
                                        None
                                    },
                                    KeyCode::Right => {
                                        t.input.cursor_move_right();
                                        None
                                    },
                                    _ => None,
                                };
                                self.state.put_current(t);
                                proof {
                                    assert(tab_names(self.state.tabs@) =~= names);
                                }
                                result
                            },
                        }
                    },
                }
            },
        }
    }
}

} // verus!
