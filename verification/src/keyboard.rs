//! Line input: the decisions of reading a line of at most 79 characters
//! from the keyboard into a NUL-terminated buffer, with backspace.
use vstd::prelude::*;
use crate::strings::{spec_strlen, len_from};

verus! {

/// A line being typed: the buffer and the number of characters in it.
pub struct LineEditor {
    buff: [char; 80],
    i: usize,
}

/// A line being typed, as a value.
pub struct LineView {
    pub buffer: Seq<char>,
    pub len: int,
}

impl View for LineEditor {
    type V = LineView;

    closed spec fn view(&self) -> LineView {
        LineView { buffer: self.buff@, len: self.i as int }
    }
}

/// Whether the line can take key `c`: every key but backspace needs a free
/// place in the buffer, the newline for the terminating NUL.
pub open spec fn key_fits(l: LineView, c: char) -> bool {
    c == '\x08' || l.len < 80
}

/// The line after key `c`: a newline ends it with a NUL, a backspace drops
/// the last character (the buffer keeps it), anything else is appended.
pub open spec fn after_key(l: LineView, c: char) -> LineView {
    if c == '\n' {
        LineView { buffer: l.buffer.update(l.len, '\0'), len: l.len }
    } else if c == '\x08' {
        LineView { buffer: l.buffer, len: if l.len > 0 { l.len - 1 } else { 0 } }
    } else {
        LineView { buffer: l.buffer.update(l.len, c), len: l.len + 1 }
    }
}

/// A backspace right after a character takes the line back to what it was
/// before the character: the same length and the same characters.
pub proof fn backspace_undoes_key(l: LineView, c: char)
    requires
        0 <= l.len < 80,
        l.buffer.len() == 80,
        c != '\n',
        c != '\x08',
    ensures
        after_key(after_key(l, c), '\x08').len == l.len,
        after_key(after_key(l, c), '\x08').buffer.take(l.len) == l.buffer.take(l.len),
{
    assert(after_key(after_key(l, c), '\x08').buffer.take(l.len) =~= l.buffer.take(l.len));
}

proof fn lemma_len_from_line(s: Seq<char>, n: int, i: int)
    requires
        0 <= i <= n < 80,
        s.len() == 80,
        s[n] == '\0',
        forall|k: int| 0 <= k < n ==> s[k] != '\0',
    ensures
        len_from(s, i) == n,
    decreases n - i,
{
    if i < n {
        lemma_len_from_line(s, n, i + 1);
    }
}

/// Typing a key other than a newline or a backspace puts it right after
/// the characters typed so far and keeps them; a backspace drops the last
/// character typed, if any, and keeps the others; a newline keeps them and
/// writes a NUL right after them, so the string the buffer holds is
/// exactly the characters typed.
pub proof fn keys_build_the_line(l: LineView, c: char)
    requires
        0 <= l.len < 80,
        l.buffer.len() == 80,
    ensures
        c != '\n' && c != '\x08' ==> {
            &&& after_key(l, c).len == l.len + 1
            &&& after_key(l, c).buffer[l.len] == c
            &&& after_key(l, c).buffer.take(l.len) == l.buffer.take(l.len)
        },
        l.len > 0 ==> after_key(l, '\x08').len == l.len - 1 && after_key(l, '\x08').buffer.take(l.len - 1)
            == l.buffer.take(l.len - 1),
        l.len == 0 ==> after_key(l, '\x08').len == 0,
        after_key(l, '\n').len == l.len,
        after_key(l, '\n').buffer[l.len] == '\0',
        after_key(l, '\n').buffer.take(l.len) == l.buffer.take(l.len),
        (forall|k: int| 0 <= k < l.len ==> l.buffer[k] != '\0') ==> spec_strlen(after_key(l, '\n').buffer)
            == l.len,
{
    assert(after_key(l, '\n').buffer.take(l.len) =~= l.buffer.take(l.len));
    if c != '\n' && c != '\x08' {
        assert(after_key(l, c).buffer.take(l.len) =~= l.buffer.take(l.len));
    }
    if forall|k: int| 0 <= k < l.len ==> l.buffer[k] != '\0' {
        let b = after_key(l, '\n').buffer;
        assert forall|k: int| 0 <= k < l.len implies b[k] != '\0' by {
            assert(b[k] == l.buffer[k]);
        }
        lemma_len_from_line(b, l.len, 0);
    }
}

impl LineEditor {
    /// An empty line in a buffer of NULs.
    pub fn new() -> (e: LineEditor)
        ensures
            e@.len == 0,
            e@.buffer == Seq::new(80, |k: int| '\0'),
    {
        let e = LineEditor { buff: ['\0'; 80], i: 0 };
        proof {
            assert(e@.buffer =~= Seq::new(80, |k: int| '\0'));
        }
        e
    }

    /// Takes key `c`; true when it ends the line.
    pub fn on_key(&mut self, c: char) -> (done: bool)
        requires
            0 <= old(self)@.len <= 80,
            old(self)@.buffer.len() == 80,
            key_fits(old(self)@, c),
        ensures
            done == (c == '\n'),
            final(self)@ == after_key(old(self)@, c),
            0 <= final(self)@.len <= 80,
            final(self)@.buffer.len() == 80,
    {
        if c == '\n' {
            self.buff[self.i] = '\0';
            true
        } else if c == '\x08' {
            if self.i > 0 {
                self.i -= 1;
            }
            false
        } else {
            self.buff[self.i] = c;
            self.i += 1;
            false
        }
    }

    /// The buffer.
    pub fn buffer(&self) -> (b: [char; 80])
        ensures
            b@ == self@.buffer,
    {
        self.buff
    }

    /// The number of characters typed.
    pub fn len(&self) -> (n: usize)
        ensures
            n == self@.len,
    {
        self.i
    }
}

} // verus!
