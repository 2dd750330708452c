//! A one-line text input whose cursor and scrolling follow the displayed
//! width of the characters. Positions in the text are character indices.

use vstd::prelude::*;
use vstd::string::{StrSliceExecFns, StringExecFns};
use unicode_width::UnicodeWidthChar;

verus! {

/// The displayed width of a character, `None` for a control character.
pub uninterp spec fn char_width_of(c: char) -> Option<usize>;

/// Relies on `UnicodeWidthChar::width`: at most 3 columns, and 1 for a
/// printable ASCII character.
#[verifier::external_body]
fn char_width(c: char) -> (r: Option<usize>)
    ensures
        r == char_width_of(c),
        r matches Some(n) ==> n <= 3,
        0x20 <= c as u32 && (c as u32) < 0x7f ==> r == Some(1usize),
{
    c.width()
}

/// Relies on `String::push`: appends one character.
#[verifier::external_body]
fn push_char(s: &mut String, c: char)
    ensures
        final(s)@ == old(s)@.push(c),
{
    s.push(c)
}

/// The width the widget gives a character: control characters take one column.
pub open spec fn cw(c: char) -> nat {
    match char_width_of(c) {
        Some(n) => n as nat,
        None => 1,
    }
}

/// The width of the first `i` characters of `s`.
pub open spec fn prefix_width(s: Seq<char>, i: int) -> nat
    decreases i,
{
    if i <= 0 || i > s.len() {
        0
    } else {
        prefix_width(s, i - 1) + cw(s[i - 1])
    }
}

/// The width of a whole string, as the widget measures it.
pub open spec fn text_width(s: Seq<char>) -> nat {
    prefix_width(s, s.len() as int)
}

/// `n`, or the largest `u16` when it does not fit.
pub open spec fn clamp_nat(n: nat) -> u16 {
    if n <= u16::MAX { n as u16 } else { u16::MAX }
}

proof fn lemma_prefix_mono(s: Seq<char>, i: int, j: int)
    requires
        0 <= i <= j <= s.len(),
    ensures
        prefix_width(s, i) <= prefix_width(s, j),
    decreases j,
{
    if i < j {
        lemma_prefix_mono(s, i, j - 1);
    }
}

proof fn lemma_prefix_of_front(a: Seq<char>, b: Seq<char>, i: int)
    requires
        0 <= i <= a.len(),
    ensures
        prefix_width(a + b, i) == prefix_width(a, i),
    decreases i,
{
    if i > 0 {
        lemma_prefix_of_front(a, b, i - 1);
        assert((a + b)[i - 1] == a[i - 1]);
    }
}

proof fn lemma_prefix_of_back(a: Seq<char>, b: Seq<char>, i: int)
    requires
        0 <= i <= b.len(),
    ensures
        prefix_width(a + b, a.len() + i) == text_width(a) + prefix_width(b, i),
    decreases i,
{
    if i == 0 {
        lemma_prefix_of_front(a, b, a.len() as int);
    } else {
        lemma_prefix_of_back(a, b, i - 1);
        assert((a + b)[a.len() + i - 1] == b[i - 1]);
    }
}

/// Widths add up over concatenation.
proof fn lemma_width_concat(a: Seq<char>, b: Seq<char>)
    ensures
        text_width(a + b) == text_width(a) + text_width(b),
{
    lemma_prefix_of_back(a, b, b.len() as int);
}

/// A prefix's width is the width of the first characters, and the rest
/// adds the width of the others.
proof fn lemma_width_split(s: Seq<char>, i: int)
    requires
        0 <= i <= s.len(),
    ensures
        prefix_width(s, i) == text_width(s.subrange(0, i)),
        text_width(s) == text_width(s.subrange(0, i)) + text_width(s.subrange(i, s.len() as int)),
{
    let a = s.subrange(0, i);
    let b = s.subrange(i, s.len() as int);
    assert(s =~= a + b);
    lemma_prefix_of_front(a, b, i);
    lemma_width_concat(a, b);
}

proof fn lemma_width_one(c: char)
    ensures
        text_width(seq![c]) == cw(c),
{
    let s = seq![c];
    assert(s.len() == 1);
    assert(s[0] == c);
    assert(prefix_width(s, 0) == 0);
    assert(prefix_width(s, 1) == prefix_width(s, 0) + cw(s[0]));
}

proof fn lemma_width_insert(d: Seq<char>, i: int, c: char)
    requires
        0 <= i <= d.len(),
    ensures
        text_width(d.insert(i, c)) == text_width(d) + cw(c),
{
    let a = d.subrange(0, i);
    let b = d.subrange(i, d.len() as int);
    assert(d.insert(i, c) =~= a + seq![c] + b);
    lemma_width_concat(a + seq![c], b);
    lemma_width_concat(a, seq![c]);
    lemma_width_one(c);
    lemma_width_split(d, i);
}

proof fn lemma_width_remove(d: Seq<char>, i: int)
    requires
        0 <= i < d.len(),
    ensures
        text_width(d.remove(i)) + cw(d[i]) == text_width(d),
        prefix_width(d, i) + cw(d[i]) <= text_width(d),
{
    let a = d.subrange(0, i);
    let b = d.subrange(i + 1, d.len() as int);
    assert(d.remove(i) =~= a + b);
    assert(d =~= a + seq![d[i]] + b);
    lemma_width_concat(a + seq![d[i]], b);
    lemma_width_concat(a, seq![d[i]]);
    lemma_width_concat(a, b);
    lemma_width_one(d[i]);
    lemma_width_split(d, i);
}

proof fn lemma_reaching(s: Seq<char>, offset: nat, j: int)
    requires
        0 <= j,
    ensures
        first_reaching(s, offset, j) matches Some(i) ==> j <= i < s.len() && prefix_width(s, i) >= offset,
    decreases s.len() - j,
{
    if j < s.len() && prefix_width(s, j) < offset {
        lemma_reaching(s, offset, j + 1);
    }
}

proof fn lemma_covering(s: Seq<char>, offset: nat, j: int)
    requires
        0 <= j,
    ensures
        first_covering(s, offset, j) matches Some(i) ==> j <= i < s.len() && prefix_width(s, i + 1) >= offset,
        j < s.len() && text_width(s) >= offset ==> first_covering(s, offset, j) is Some,
    decreases s.len() - j,
{
    if j < s.len() && prefix_width(s, j + 1) < offset {
        lemma_covering(s, offset, j + 1);
    }
}

/// From position `i` on, the first position whose preceding characters are
/// at least `offset` wide.
pub open spec fn first_reaching(s: Seq<char>, offset: nat, i: int) -> Option<int>
    decreases s.len() - i,
{
    if i < 0 || i >= s.len() {
        None
    } else if prefix_width(s, i) >= offset {
        Some(i)
    } else {
        first_reaching(s, offset, i + 1)
    }
}

/// From position `i` on, the first position whose characters up to and
/// including it are at least `offset` wide.
pub open spec fn first_covering(s: Seq<char>, offset: nat, i: int) -> Option<int>
    decreases s.len() - i,
{
    if i < 0 || i >= s.len() {
        None
    } else if prefix_width(s, i + 1) >= offset {
        Some(i)
    } else {
        first_covering(s, offset, i + 1)
    }
}

/// The character at the cursor `offset` columns into `input`: the first
/// whose preceding characters are at least that wide.
fn get_byte_offset(input: &str, offset: u16) -> (r: Option<(usize, char)>)
    ensures
        r is None <==> first_reaching(input@, offset as nat, 0) is None,
        r matches Some((i, c)) ==> first_reaching(input@, offset as nat, 0) == Some(i as int) && c == input@[i as int]
            && i < input@.len(),
{
    let n = input.unicode_len();
    let mut prefix: u64 = 0;
    let mut i: usize = 0;
    while i < n
        invariant
            n == input@.len(),
            i <= n,
            prefix == prefix_width(input@, i as int),
            first_reaching(input@, offset as nat, 0) == first_reaching(input@, offset as nat, i as int),
        decreases n - i,
    {
        if prefix >= offset as u64 {
            return Some((i, input.get_char(i)));
        }
        let c = input.get_char(i);
        let w: u64 = match char_width(c) {
            Some(w) => w as u64,
            None => 1,
        };
        prefix = prefix + w;
        i = i + 1;
    }
    None
}

/// The character under which the cursor `offset` columns into `input`
/// ends: the first whose width, with that of the characters before it,
/// reaches `offset`. `None` for offset 0 or a narrower string.
fn get_byte_offset_before(input: &str, offset: u16) -> (r: Option<(usize, char)>)
    ensures
        offset == 0 ==> r is None,
        offset > 0 ==> (r is None <==> first_covering(input@, offset as nat, 0) is None),
        r matches Some((i, c)) ==> first_covering(input@, offset as nat, 0) == Some(i as int) && c == input@[i as int]
            && i < input@.len(),
{
    if offset == 0 {
        return None;
    }
    let n = input.unicode_len();
    let mut prefix: u64 = 0;
    let mut i: usize = 0;
    while i < n
        invariant
            n == input@.len(),
            i <= n,
            prefix == prefix_width(input@, i as int),
            prefix < offset as u64,
            first_covering(input@, offset as nat, 0) == first_covering(input@, offset as nat, i as int),
        decreases n - i,
    {
        let c = input.get_char(i);
        let w: u64 = match char_width(c) {
            Some(w) => w as u64,
            None => 1,
        };
        prefix = prefix + w;
        if prefix >= offset as u64 {
            return Some((i, c));
        }
        i = i + 1;
    }
    None
}

/// The width the widget gives `c`.
fn width_or_one(c: char) -> (r: u16)
    ensures
        r as nat == cw(c),
        r <= 3,
{
    match char_width(c) {
        Some(w) => w as u16,
        None => 1,
    }
}

fn max_u16(a: u16, b: u16) -> (r: u16)
    ensures
        r == if a >= b { a } else { b },
{
    if a >= b { a } else { b }
}

fn min_u16(a: u16, b: u16) -> (r: u16)
    ensures
        r == if a <= b { a } else { b },
{
    if a <= b { a } else { b }
}

/// `s` with `c` inserted at position `at`.
fn insert_char(s: &str, at: usize, c: char) -> (r: String)
    requires
        at <= s@.len(),
    ensures
        r@ == s@.insert(at as int, c),
{
    let n = s.unicode_len();
    let mut r = String::from_str(s.substring_char(0, at));
    push_char(&mut r, c);
    r.append(s.substring_char(at, n));
    assert(r@ =~= s@.insert(at as int, c));
    r
}

/// `s` without the character at position `at`.
fn remove_char(s: &str, at: usize) -> (r: String)
    requires
        at < s@.len(),
    ensures
        r@ == s@.remove(at as int),
{
    let n = s.unicode_len();
    let mut r = String::from_str(s.substring_char(0, at));
    r.append(s.substring_char(at + 1, n));
    assert(r@ =~= s@.remove(at as int));
    r
}

/// `a - b`, or 0 when `b` is larger.
pub open spec fn sub_or_zero(a: u16, b: u16) -> u16 {
    if a >= b { (a - b) as u16 } else { 0 }
}

/// The columns the display scrolls by: half its width, at least one.
pub open spec fn scroll_shift(display_width: u16) -> u16 {
    if display_width / 2 <= 1 { 1 } else { (display_width / 2) as u16 }
}

/// Where the cursor goes left within the display: back by the width of
/// the character it ends, at least one column.
pub open spec fn step_left(d: Seq<char>, cursor: u16) -> u16 {
    match first_covering(d, cursor as nat, 0) {
        Some(i) => if cursor as nat > max_nat(1, cw(d[i])) {
            (cursor - max_nat(1, cw(d[i]))) as u16
        } else {
            0
        },
        None => cursor,
    }
}

/// The width of the character at the cursor, one for none.
pub open spec fn right_margin(d: Seq<char>, cursor: u16) -> nat {
    match first_reaching(d, cursor as nat, 0) {
        Some(i) => cw(d[i]),
        None => 1,
    }
}

/// Where the cursor goes right within the display: past the character at
/// it, at least one column, and not past the display's width.
pub open spec fn step_right(d: Seq<char>, cursor: u16) -> u16 {
    match first_reaching(d, cursor as nat, 0) {
        Some(i) => {
            let moved = min_nat((cursor + max_nat(1, cw(d[i]))) as nat, u16::MAX as nat);
            min_nat(moved, clamp_nat(text_width(d)) as nat) as u16
        },
        None => cursor,
    }
}

/// The position of the character that deleting behind the cursor removes:
/// the one the cursor ends, or, with the cursor at the left edge, the last
/// hidden one.
pub open spec fn deleted_behind(input: Input) -> Option<int> {
    let before = if input.cursor_offset == 0 {
        None
    } else {
        first_covering(input.display(), input.cursor_offset as nat, 0)
    };
    match before {
        Some(i) => Some(input.text_offset + i),
        None => if input.text_offset > 0 { Some(input.text_offset - 1) } else { None },
    }
}

/// The text after typing `c` at the cursor.
pub open spec fn typed_text(x: Input, c: char) -> Seq<char> {
    match x.cursor_position() {
        Some(p) => x.text@.insert(p, c),
        None => x.text@.push(c),
    }
}

/// The text offset and the cursor after typing `c`: the cursor moves past
/// `c`; when it reaches the display's width, the display scrolls by
/// `scroll_shift` columns, and the cursor follows, staying within the
/// text shown.
pub open spec fn after_typing(x: Input, c: char) -> (usize, u16) {
    let t = typed_text(x, c);
    let moved = clamp_nat((x.cursor_offset + cw(c)) as nat);
    let shift = scroll_shift(x.display_width);
    if moved < x.display_width {
        (x.text_offset, moved)
    } else {
        match first_reaching(t.subrange(x.text_offset as int, t.len() as int), shift as nat, 0) {
            Some(e) => {
                let off = x.text_offset + e;
                let shown = clamp_nat(text_width(t.subrange(off, t.len() as int)));
                (off as usize, if sub_or_zero(moved, shift) <= shown { sub_or_zero(moved, shift) } else { shown })
            },
            None => (x.text_offset, moved),
        }
    }
}

/// The text offset and the cursor before the cursor steps left: at the
/// left edge of a scrolled display, the display scrolls back by about
/// `scroll_shift` columns and the cursor keeps its column in the text.
pub open spec fn left_scroll(x: Input) -> (usize, u16) {
    if x.cursor_offset == 0 && x.text_offset != 0 {
        let hidden = clamp_nat(text_width(x.text@.subrange(0, x.text_offset as int)));
        let target = sub_or_zero(hidden, scroll_shift(x.display_width));
        let off: int = if target == 0 {
            0
        } else {
            match first_covering(x.text@, target as nat, 0) {
                Some(i) => if i <= x.text_offset { i } else { x.text_offset as int },
                None => 0,
            }
        };
        (off as usize, clamp_nat(text_width(x.text@.subrange(off, x.text_offset as int))))
    } else {
        (x.text_offset, x.cursor_offset)
    }
}

/// The text offset and the cursor before the cursor steps right: when the
/// character at the cursor would reach the display's right edge, the
/// display scrolls by about `scroll_shift` columns and the cursor keeps its
/// column in the text.
pub open spec fn right_scroll(x: Input) -> (usize, u16) {
    let d = x.display();
    if x.cursor_offset >= sub_or_zero(x.display_width, right_margin(d, x.cursor_offset) as u16) {
        match first_reaching(d, scroll_shift(x.display_width) as nat, 0) {
            Some(e) => (
                (x.text_offset + e) as usize,
                sub_or_zero(
                    x.cursor_offset,
                    clamp_nat(text_width(x.text@.subrange(x.text_offset as int, x.text_offset + e))),
                ),
            ),
            None => (x.text_offset, x.cursor_offset),
        }
    } else {
        (x.text_offset, x.cursor_offset)
    }
}

pub open spec fn max_nat(a: nat, b: nat) -> nat {
    if a >= b { a } else { b }
}

pub open spec fn min_nat(a: nat, b: nat) -> nat {
    if a <= b { a } else { b }
}

/// The width of `s` as the widget measures it, or the largest `u16` when
/// it is wider.
fn width_of(s: &str) -> (r: u16)
    ensures
        r == clamp_nat(text_width(s@)),
{
    let n = s.unicode_len();
    let mut acc: u16 = 0;
    let mut i: usize = 0;
    while i < n
        invariant
            n == s@.len(),
            i <= n,
            acc == clamp_nat(prefix_width(s@, i as int)),
        decreases n - i,
    {
        let w = width_or_one(s.get_char(i));
        acc = if acc as u32 + w as u32 > u16::MAX as u32 { u16::MAX } else { acc + w };
        i = i + 1;
    }
    acc
}

/// The cursor's column in the whole text.
pub open spec fn column(x: Input) -> nat {
    prefix_width(x.text@, x.text_offset as int) + x.cursor_offset as nat
}

proof fn lemma_prefix_diff(s: Seq<char>, a: int, b: int)
    requires
        0 <= a <= b <= s.len(),
    ensures
        prefix_width(s, b) == prefix_width(s, a) + text_width(s.subrange(a, b)),
{
    let front = s.subrange(0, b);
    lemma_width_split(s, b);
    lemma_width_split(s, a);
    lemma_width_split(front, a);
    assert(front.subrange(0, a) =~= s.subrange(0, a));
    assert(front.subrange(a, b) =~= s.subrange(a, b));
}

/// Scrolling before a step keeps the cursor's column in the text, as long
/// as the columns scrolled over fit the cursor: back to the left edge of a
/// scrolled display, or forward over columns the cursor is past.
pub proof fn lemma_scroll_keeps_column(x: Input)
    requires
        x.wf(),
        x.text@.len() <= usize::MAX,
    ensures
        ({
            let (o, c) = left_scroll(x);
            o <= x.text_offset && (text_width(x.text@.subrange(o as int, x.text_offset as int)) <= u16::MAX
                ==> prefix_width(x.text@, o as int) + c == column(x))
        }),
        ({
            let (o, c) = right_scroll(x);
            x.text_offset <= o <= x.text@.len() && (text_width(x.text@.subrange(x.text_offset as int, o as int))
                <= x.cursor_offset ==> prefix_width(x.text@, o as int) + c == column(x))
        }),
{
    let (o, c) = left_scroll(x);
    lemma_covering(x.text@, sub_or_zero(
        clamp_nat(text_width(x.text@.subrange(0, x.text_offset as int))),
        scroll_shift(x.display_width),
    ) as nat, 0);
    if x.cursor_offset == 0 && x.text_offset != 0 {
        lemma_prefix_diff(x.text@, o as int, x.text_offset as int);
    }
    let d = x.display();
    lemma_reaching(d, scroll_shift(x.display_width) as nat, 0);
    let (o2, c2) = right_scroll(x);
    lemma_prefix_diff(x.text@, x.text_offset as int, o2 as int);
}

/// A one-line text input.
#[derive(Debug, Default)]
pub struct Input {
    /// Text contained in the input widget
    pub text: String,
    /// Cursor offset, relative to the text offset, in character width
    pub cursor_offset: u16,
    /// Position of the first displayed character, in characters
    pub text_offset: usize,
    /// Determines whether the widget reacts to input
    pub enabled: bool,
    /// Display width in the UI
    pub display_width: u16,
}

impl Input {
    /// The text offset stays within the text, and the cursor within the
    /// width of the text shown.
    pub open spec fn wf(&self) -> bool {
        self.text_offset <= self.text@.len() && self.cursor_offset <= text_width(self.display())
    }

    /// The displayed part of the text.
    pub open spec fn display(&self) -> Seq<char> {
        self.text@.subrange(self.text_offset as int, self.text@.len() as int)
    }

    /// Where a character typed now goes, and where the cursor's character stands.
    pub open spec fn cursor_position(&self) -> Option<int> {
        match first_reaching(self.display(), self.cursor_offset as nat, 0) {
            Some(i) => Some(self.text_offset + i),
            None => None,
        }
    }

    /// Sets the display width, and pulls the cursor back inside it.
    pub fn resize(&mut self, new_size: u16)
        requires
            old(self).wf(),
            new_size >= 2,
        ensures
            final(self).wf(),
            final(self).display_width == new_size,
            final(self).text@ == old(self).text@,
            final(self).text_offset == old(self).text_offset,
            old(self).cursor_offset < new_size ==> final(self).cursor_offset == old(self).cursor_offset,
            final(self).cursor_offset < new_size,
    {
        self.display_width = new_size;
        if self.cursor_offset >= new_size {
            let ghost d = self.display();
            proof {
                lemma_covering(d, new_size as nat, 0);
                if d.len() == 0 {
                    assert(text_width(d) == 0);
                }
            }
            let c = match get_byte_offset_before(self.get_display_string(), new_size) {
                Some((_, c)) => c,
                None => ' ',
            };
            let w = max_u16(1, width_or_one(c));
            self.cursor_offset = new_size.saturating_sub(w);
            proof {
                let i = first_covering(d, new_size as nat, 0)->0;
                lemma_covering(d, new_size as nat, 0);
                lemma_prefix_mono(d, i, d.len() as int);
                assert(prefix_width(d, i + 1) == prefix_width(d, i) + cw(d[i]));
            }
        }
    }

    /// The displayed part of the text.
    pub fn get_display_string(&self) -> (r: &str)
        requires
            self.text_offset <= self.text@.len(),
        ensures
            r@ == self.display(),
    {
        let n = self.text.as_str().unicode_len();
        self.text.as_str().substring_char(self.text_offset, n)
    }

    /// The cursor's offset from the start of the displayed text, in columns.
    pub fn get_cursor_offset(&self) -> (r: u16)
        ensures
            r == self.cursor_offset,
    {
        self.cursor_offset
    }

    /// Takes the text out, leaving the widget empty.
    pub fn submit(&mut self) -> (r: String)
        ensures
            r@ == old(self).text@,
            final(self).text@.len() == 0,
            final(self).cursor_offset == 0,
            final(self).text_offset == 0,
            final(self).display_width == old(self).display_width,
            final(self).enabled == old(self).enabled,
            final(self).wf(),
    {
        self.cursor_offset = 0;
        self.text_offset = 0;
        let mut taken = String::new();
        std::mem::swap(&mut taken, &mut self.text);
        taken
    }

    /// Types `c` at the cursor, and scrolls when the cursor leaves the display.
    pub fn insert_at_cursor(&mut self, c: char)
        requires
            old(self).wf(),
        ensures
            final(self).wf(),
            final(self).text@ == typed_text(*old(self), c),
            final(self).text_offset == after_typing(*old(self), c).0,
            final(self).cursor_offset == after_typing(*old(self), c).1,
            final(self).display_width == old(self).display_width,
    {
        // the text's length fits a usize, and so do positions in it
        let _len = self.text.as_str().unicode_len();
        let ghost d = self.display();
        let ghost off = self.text_offset as int;
        match get_byte_offset(self.get_display_string(), self.cursor_offset) {
            None => {
                push_char(&mut self.text, c);
            },
            Some((i, _)) => {
                self.text = insert_char(self.text.as_str(), i + self.text_offset, c);
            },
        }
        proof {
            let d1 = self.display();
            lemma_reaching(d, self.cursor_offset as nat, 0);
            match first_reaching(d, self.cursor_offset as nat, 0) {
                Some(i) => {
                    assert(d1 =~= d.insert(i, c));
                    lemma_width_insert(d, i, c);
                },
                None => {
                    assert(d1 =~= d.insert(d.len() as int, c));
                    lemma_width_insert(d, d.len() as int, c);
                },
            }
            assert(self.text@ == typed_text(*old(self), c));
        }
        self.cursor_offset = self.cursor_offset.saturating_add(width_or_one(c));
        if self.cursor_offset >= self.display_width {
            let input_shift = max_u16(1, self.display_width / 2);
            let ghost d1 = self.display();
            if let Some((extra, _)) = get_byte_offset(self.get_display_string(), input_shift) {
                proof {
                    lemma_reaching(d1, input_shift as nat, 0);
                }
                self.text_offset = self.text_offset + extra;
                let shown = width_of(self.get_display_string());
                self.cursor_offset = min_u16(self.cursor_offset.saturating_sub(input_shift), shown);
            }
        }
    }

    /// Moves the cursor one character left, scrolling back at the left edge.
    pub fn cursor_move_left(&mut self)
        requires
            old(self).wf(),
        ensures
            final(self).wf(),
            final(self).text@ == old(self).text@,
            final(self).display_width == old(self).display_width,
            final(self).text_offset == left_scroll(*old(self)).0,
            final(self).cursor_offset == step_left(
                old(self).text@.subrange(left_scroll(*old(self)).0 as int, old(self).text@.len() as int),
                left_scroll(*old(self)).1,
            ),
            old(self).cursor_offset > 0 ==> final(self).text_offset == old(self).text_offset
                && final(self).cursor_offset == step_left(old(self).display(), old(self).cursor_offset),
            old(self).cursor_offset == 0 && old(self).text_offset == 0 ==> final(self).cursor_offset == 0
                && final(self).text_offset == 0,
    {
        if self.cursor_offset == 0 && self.text_offset != 0 {
            let old_text_offset = self.text_offset;
            let input_shift = max_u16(1, self.display_width / 2);
            let hidden = width_of(self.text.as_str().substring_char(0, self.text_offset));
            let text_shift = hidden.saturating_sub(input_shift);
            let new_offset = match get_byte_offset_before(self.text.as_str(), text_shift) {
                Some((i, _)) => if i <= old_text_offset { i } else { old_text_offset },
                None => 0,
            };
            let moved = width_of(self.text.as_str().substring_char(new_offset, old_text_offset));
            self.cursor_offset = moved;
            self.text_offset = new_offset;
            proof {
                let t = self.text@;
                let rest = t.subrange(new_offset as int, t.len() as int);
                lemma_width_split(rest, old_text_offset - new_offset);
                assert(rest.subrange(0, old_text_offset - new_offset) =~= t.subrange(
                    new_offset as int,
                    old_text_offset as int,
                ));
            }
        }
        if let Some((_, c)) = get_byte_offset_before(self.get_display_string(), self.cursor_offset) {
            self.cursor_offset = self.cursor_offset.saturating_sub(max_u16(1, width_or_one(c)));
        }
    }

    /// Moves the cursor one character right, scrolling at the right edge.
    pub fn cursor_move_right(&mut self)
        requires
            old(self).wf(),
        ensures
            final(self).wf(),
            final(self).text@ == old(self).text@,
            final(self).display_width == old(self).display_width,
            final(self).text_offset == right_scroll(*old(self)).0,
            final(self).cursor_offset == step_right(
                old(self).text@.subrange(right_scroll(*old(self)).0 as int, old(self).text@.len() as int),
                right_scroll(*old(self)).1,
            ),
            old(self).cursor_offset + right_margin(old(self).display(), old(self).cursor_offset)
                < old(self).display_width ==> final(self).text_offset == old(self).text_offset
                && final(self).cursor_offset == step_right(old(self).display(), old(self).cursor_offset),
    {
        let current_width = match get_byte_offset(self.get_display_string(), self.cursor_offset) {
            Some((_, c)) => width_or_one(c),
            None => 1,
        };
        // the text's length fits a usize, and so do positions in it
        let _len = self.text.as_str().unicode_len();
        if self.cursor_offset >= self.display_width.saturating_sub(current_width) {
            let input_shift = max_u16(1, self.display_width / 2);
            let ghost d = self.display();
            if let Some((extra, _)) = get_byte_offset(self.get_display_string(), input_shift) {
                proof {
                    lemma_reaching(d, input_shift as nat, 0);
                }
                let old_text_offset = self.text_offset;
                self.text_offset = self.text_offset + extra;
                let moved = width_of(self.text.as_str().substring_char(old_text_offset, self.text_offset));
                self.cursor_offset = self.cursor_offset.saturating_sub(moved);
                proof {
                    lemma_width_split(d, extra as int);
                    assert(d.subrange(0, extra as int) =~= self.text@.subrange(
                        old_text_offset as int,
                        self.text_offset as int,
                    ));
                    assert(d.subrange(extra as int, d.len() as int) =~= self.display());
                }
            }
        }
        if let Some((_, c)) = get_byte_offset(self.get_display_string(), self.cursor_offset) {
            let cap = width_of(self.get_display_string());
            self.cursor_offset = min_u16(self.cursor_offset.saturating_add(max_u16(1, width_or_one(c))), cap);
        }
    }

    /// Deletes the character at the cursor.
    pub fn delete_at_cursor(&mut self)
        requires
            old(self).wf(),
        ensures
            final(self).wf(),
            final(self).text@ == match old(self).cursor_position() {
                Some(p) => old(self).text@.remove(p),
                None => old(self).text@,
            },
            final(self).cursor_offset == old(self).cursor_offset,
            final(self).text_offset == old(self).text_offset,
            final(self).display_width == old(self).display_width,
    {
        // the text's length fits a usize, and so do positions in it
        let _len = self.text.as_str().unicode_len();
        let ghost d = self.display();
        match get_byte_offset(self.get_display_string(), self.cursor_offset) {
            None => {},
            Some((i, _)) => {
                self.text = remove_char(self.text.as_str(), i + self.text_offset);
                proof {
                    lemma_reaching(d, self.cursor_offset as nat, 0);
                    assert(self.display() =~= d.remove(i as int));
                    lemma_width_remove(d, i as int);
                }
            },
        }
    }

    /// Deletes the character before the cursor, or the last hidden one when
    /// the cursor is at the left edge. With the cursor past the left edge,
    /// the cursor moves back by the deleted character's width and the
    /// display does not scroll.
    pub fn delete_behind_cursor(&mut self)
        requires
            old(self).wf(),
        ensures
            final(self).wf(),
            final(self).text@ == match deleted_behind(*old(self)) {
                Some(p) => old(self).text@.remove(p),
                None => old(self).text@,
            },
            final(self).display_width == old(self).display_width,
            old(self).cursor_offset > 0 ==> {
                let i = first_covering(old(self).display(), old(self).cursor_offset as nat, 0)->0;
                &&& final(self).text_offset == old(self).text_offset
                &&& final(self).cursor_offset == sub_or_zero(old(self).cursor_offset, cw(old(self).display()[i]) as u16)
            },
    {
        // the text's length fits a usize, and so do positions in it
        let _len = self.text.as_str().unicode_len();
        let ghost d = self.display();
        proof {
            lemma_covering(d, self.cursor_offset as nat, 0);
            if d.len() == 0 {
                assert(text_width(d) == 0);
            }
        }
        let deleted_c = match get_byte_offset_before(self.get_display_string(), self.cursor_offset) {
            None => {
                if self.text_offset > 0 {
                    let i = self.text_offset - 1;
                    let c = self.text.as_str().get_char(i);
                    self.text = remove_char(self.text.as_str(), i);
                    self.text_offset = i;
                    proof {
                        assert(self.display() =~= d);
                    }
                    Some(c)
                } else {
                    None
                }
            },
            Some((i, _)) => {
                let at = i + self.text_offset;
                let c = self.text.as_str().get_char(at);
                self.text = remove_char(self.text.as_str(), at);
                proof {
                    assert(self.display() =~= d.remove(i as int));
                    lemma_width_remove(d, i as int);
                    assert(c == d[i as int]);
                }
                Some(c)
            },
        };
        if self.cursor_offset == 0 {
            self.cursor_move_left();
            self.cursor_move_right();
            self.cursor_move_right();
        } else if let Some(c) = deleted_c {
            self.cursor_offset = self.cursor_offset.saturating_sub(width_or_one(c));
        }
    }
}

} // verus!
