//! The bounded tape: a fixed-length buffer of symbols, an anchor marking
//! where the typed content was placed, and a cursor counted relative to the
//! anchor so that it can run negative.

use vstd::prelude::*;

verus! {

/// The symbol empty tape cells hold.
pub const EMPTY_CHAR: char = '#';

/// Length a fresh tape starts with.
pub const DEFAULT_TAPE_CHARS_NUMBER: usize = 101;

/// Shortest allowed tape.
pub const MIN_TAPE_LENGTH: usize = 1;

/// Longest allowed tape.
pub const MAX_TAPE_LENGTH: usize = 250;

/// The mathematical content of a tape: its length, the buffer, the cursor
/// relative to the anchor, and the anchor range that the typed content
/// occupies.
#[verifier::ext_equal]
pub ghost struct TapeView {
    pub length: int,
    pub chars: Seq<char>,
    pub cursor: int,
    pub first: int,
    pub post_last: int,
}

impl TapeView {
    /// Every tape keeps this shape: a clamped length, a buffer exactly that
    /// long, an anchor range inside the buffer, and a head that stays on the
    /// buffer.
    pub open spec fn wf(self) -> bool {
        &&& MIN_TAPE_LENGTH as int <= self.length <= MAX_TAPE_LENGTH as int
        &&& self.chars.len() == self.length
        &&& 0 <= self.first <= self.post_last <= self.length
        &&& 0 <= self.first + self.cursor < self.length
    }

    /// The absolute buffer index under the head.
    pub open spec fn head(self) -> int {
        self.first + self.cursor
    }

    /// The typed content: the anchor slice of the buffer, with any writes
    /// that later landed inside it.
    pub open spec fn content(self) -> Seq<char> {
        self.chars.subrange(self.first, self.post_last)
    }
}

/// A length request clamped into the allowed range.
pub open spec fn clamp_length(n: int) -> int {
    if n <= MIN_TAPE_LENGTH as int {
        MIN_TAPE_LENGTH as int
    } else if n >= MAX_TAPE_LENGTH as int {
        MAX_TAPE_LENGTH as int
    } else {
        n
    }
}

/// A cursor request clamped so the head stays on the buffer: the lowest
/// allowed value points at buffer cell zero, the highest at the last cell.
pub open spec fn clamp_cursor(first: int, length: int, v: int) -> int {
    let min = -first;
    let max = min + length - 1;
    if v <= min {
        min
    } else if v >= max {
        max
    } else {
        v
    }
}

/// Content cut down to what a buffer of `len` cells can hold.
pub open spec fn truncated(text: Seq<char>, len: int) -> Seq<char> {
    if text.len() > len {
        text.subrange(0, len)
    } else {
        text
    }
}

/// A buffer of `length` blanks with `t` written starting at `first`.
pub open spec fn placed_chars(length: int, first: int, t: Seq<char>) -> Seq<char> {
    Seq::new(
        length as nat,
        |i: int|
            if first <= i < first + t.len() {
                t[i - first]
            } else {
                EMPTY_CHAR
            },
    )
}

/// How writing content onto a tape changes it: the text is truncated to the
/// length, centred, surrounded by blanks, and the cursor is re-clamped
/// against the new anchor.
pub open spec fn place_post(pre: TapeView, post: TapeView, text: Seq<char>) -> bool {
    let t = truncated(text, pre.length);
    &&& post.length == pre.length
    &&& post.first == (pre.length - t.len()) / 2
    &&& post.post_last == post.first + t.len()
    &&& post.chars == placed_chars(pre.length, post.first, t)
    &&& post.cursor == clamp_cursor(post.first, post.length, pre.cursor)
}

/// The tape.
#[derive(Clone)]
pub struct Tape {
    /// Length of the tape; `chars` always holds exactly this many symbols.
    length: usize,
    /// The buffer: blanks except where content was written.
    chars: Vec<char>,
    /// Head position relative to `first_char_position`; may be negative.
    cursor_position: isize,
    /// Buffer index where the last `set_chars` content starts.
    first_char_position: isize,
    /// Buffer index one past where the last `set_chars` content ends.
    post_last_char_position: isize,
}

impl View for Tape {
    type V = TapeView;

    closed spec fn view(&self) -> TapeView {
        TapeView {
            length: self.length as int,
            chars: self.chars@,
            cursor: self.cursor_position as int,
            first: self.first_char_position as int,
            post_last: self.post_last_char_position as int,
        }
    }
}

impl Tape {
    /// Build the fresh tape: default length, all blanks, the anchor
    /// collapsed at the middle, the cursor on it.
    pub fn new() -> (t: Tape)
        ensures
            t@.wf(),
            t@.length == DEFAULT_TAPE_CHARS_NUMBER as int,
            t@.chars == Seq::new(DEFAULT_TAPE_CHARS_NUMBER as nat, |i: int| EMPTY_CHAR),
            t@.cursor == 0,
            t@.first == DEFAULT_TAPE_CHARS_NUMBER as int / 2,
            t@.post_last == DEFAULT_TAPE_CHARS_NUMBER as int / 2,
    {
        let length = DEFAULT_TAPE_CHARS_NUMBER;
        let mut chars: Vec<char> = Vec::new();
        let mut i: usize = 0;
        while i < length
            invariant
                0 <= i <= length,
                chars@.len() == i,
                forall|k: int| 0 <= k < i ==> chars@[k] == EMPTY_CHAR,
            decreases length - i,
        {
            chars.push(EMPTY_CHAR);
            i += 1;
        }
        let t = Tape {
            length,
            chars,
            cursor_position: 0,
            first_char_position: (length / 2) as isize,
            post_last_char_position: (length / 2) as isize,
        };
        proof {
            assert(t@.chars =~= Seq::new(DEFAULT_TAPE_CHARS_NUMBER as nat, |k: int| EMPTY_CHAR));
        }
        t
    }

    /// The whole buffer, padding included.
    pub fn get_chars_with_margin(&self) -> (r: &Vec<char>)
        ensures
            r@ == self@.chars,
    {
        &self.chars
    }

    /// The anchor slice of the buffer: the typed content, with any writes
    /// that later landed inside it.
    pub fn get_chars_without_margin(&self) -> (r: Vec<char>)
        requires
            self@.wf(),
        ensures
            r@ == self@.content(),
    {
        let first = self.first_char_position as usize;
        let post_last = self.post_last_char_position as usize;
        let mut r: Vec<char> = Vec::new();
        let mut i: usize = first;
        while i < post_last
            invariant
                self@.wf(),
                first as int == self@.first,
                post_last as int == self@.post_last,
                first <= i <= post_last,
                r@ =~= self@.chars.subrange(first as int, i as int),
            decreases post_last - i,
        {
            r.push(self.chars[i]);
            proof {
                assert(r@ =~= self@.chars.subrange(first as int, i + 1));
            }
            i += 1;
        }
        r
    }

    /// The cursor, relative to the anchor.
    pub fn get_cursor_position(&self) -> (r: isize)
        ensures
            r as int == self@.cursor,
    {
        self.cursor_position
    }

    /// The tape length.
    pub fn get_length(&self) -> (r: usize)
        ensures
            r as int == self@.length,
    {
        self.length
    }

    /// The buffer index where the typed content starts.
    pub fn get_first_char_position(&self) -> (r: isize)
        ensures
            r as int == self@.first,
    {
        self.first_char_position
    }

    /// Clamp a requested cursor value so the head stays on the buffer:
    /// afterwards `first + cursor` always lies in `[0, length)`.
    pub fn set_cursor_position(&mut self, new_cursor_position: isize)
        requires
            MIN_TAPE_LENGTH as int <= old(self)@.length <= MAX_TAPE_LENGTH as int,
            0 <= old(self)@.first <= old(self)@.length,
        ensures
            final(self)@.cursor == clamp_cursor(
                old(self)@.first,
                old(self)@.length,
                new_cursor_position as int,
            ),
            0 <= final(self)@.first + final(self)@.cursor < final(self)@.length,
            final(self)@.length == old(self)@.length,
            final(self)@.chars == old(self)@.chars,
            final(self)@.first == old(self)@.first,
            final(self)@.post_last == old(self)@.post_last,
    {
        let min_position = -self.first_char_position;
        let max_position = min_position + self.length as isize - 1;
        self.cursor_position = if new_cursor_position <= min_position {
            min_position
        } else if new_cursor_position >= max_position {
            max_position
        } else {
            new_cursor_position
        };
    }

    /// Write `new_chars` onto the tape: truncate to the length, centre it,
    /// pad with blanks, re-clamp the cursor.
    fn place_content(&mut self, new_chars: Vec<char>)
        requires
            MIN_TAPE_LENGTH as int <= old(self)@.length <= MAX_TAPE_LENGTH as int,
        ensures
            final(self)@.wf(),
            place_post(old(self)@, final(self)@, new_chars@),
    {
        let ghost pre = self@;
        let mut t = new_chars;
        if t.len() > self.length {
            t.truncate(self.length);
        }
        proof {
            assert(t@ == truncated(new_chars@, pre.length));
        }
        let first = (self.length - t.len()) / 2;
        let post_last = first + t.len();
        let mut buf: Vec<char> = Vec::new();
        let mut i: usize = 0;
        while i < self.length
            invariant
                0 <= i <= self@.length,
                buf@.len() == i,
                forall|k: int| 0 <= k < i ==> buf@[k] == EMPTY_CHAR,
            decreases self@.length - i,
        {
            buf.push(EMPTY_CHAR);
            i += 1;
        }
        let mut j: usize = 0;
        while j < t.len()
            invariant
                0 <= j <= t@.len(),
                first + t@.len() <= self@.length,
                buf@.len() == self@.length,
                forall|k: int| 0 <= k < first as int ==> buf@[k] == EMPTY_CHAR,
                forall|k: int| 0 <= k < j ==> buf@[first as int + k] == t@[k],
                forall|k: int| first + j <= k < self@.length ==> buf@[k] == EMPTY_CHAR,
            decreases t@.len() - j,
        {
            buf[first + j] = t[j];
            j += 1;
        }
        self.chars = buf;
        self.first_char_position = first as isize;
        self.post_last_char_position = post_last as isize;
        let cursor = self.cursor_position;
        self.set_cursor_position(cursor);
        proof {
            assert(final(self)@.chars =~= placed_chars(pre.length, first as int, t@));
        }
    }

    /// Replace the tape content; see `place_post` for the exact effect.
    pub fn set_chars(&mut self, new_chars: Vec<char>)
        requires
            old(self)@.wf(),
        ensures
            final(self)@.wf(),
            place_post(old(self)@, final(self)@, new_chars@),
    {
        self.place_content(new_chars);
    }

    /// Clamp the requested length into range, then re-place the current
    /// unpadded content against the new length, so visible text survives a
    /// resize.
    pub fn set_length(&mut self, new_length: usize)
        requires
            old(self)@.wf(),
        ensures
            final(self)@.wf(),
            final(self)@.length == clamp_length(new_length as int),
            place_post(
                TapeView { length: clamp_length(new_length as int), ..old(self)@ },
                final(self)@,
                old(self)@.content(),
            ),
    {
        let content = self.get_chars_without_margin();
        self.length = if new_length <= MIN_TAPE_LENGTH {
            MIN_TAPE_LENGTH
        } else if new_length >= MAX_TAPE_LENGTH {
            MAX_TAPE_LENGTH
        } else {
            new_length
        };
        self.place_content(content);
    }

    /// The symbol under the head.
    pub fn get_current_char(&self) -> (r: char)
        requires
            self@.wf(),
        ensures
            r == self@.chars[self@.head()],
    {
        let pos = (self.first_char_position + self.cursor_position) as usize;
        self.chars[pos]
    }

    /// Write a symbol at the head.
    pub fn set_current_char(&mut self, new_char: char)
        requires
            old(self)@.wf(),
        ensures
            final(self)@.wf(),
            final(self)@.chars == old(self)@.chars.update(old(self)@.head(), new_char),
            final(self)@.length == old(self)@.length,
            final(self)@.cursor == old(self)@.cursor,
            final(self)@.first == old(self)@.first,
            final(self)@.post_last == old(self)@.post_last,
    {
        let pos = (self.first_char_position + self.cursor_position) as usize;
        self.chars[pos] = new_char;
    }

    /// Step the head left; refuse when it already sits on buffer cell zero.
    pub fn move_cursor_left(&mut self) -> (r: Result<(), ()>)
        requires
            old(self)@.wf(),
        ensures
            final(self)@.wf(),
            old(self)@.head() - 1 >= 0 ==> r == Ok::<(), ()>(()) && final(self)@ == (TapeView {
                cursor: old(self)@.cursor - 1,
                ..old(self)@
            }),
            old(self)@.head() - 1 < 0 ==> r == Err::<(), ()>(()) && final(self)@ == old(self)@,
    {
        if self.first_char_position + self.cursor_position - 1 >= 0 {
            self.cursor_position = self.cursor_position - 1;
            Ok(())
        } else {
            Err(())
        }
    }

    /// Step the head right; refuse when it already sits on the last cell.
    pub fn move_cursor_right(&mut self) -> (r: Result<(), ()>)
        requires
            old(self)@.wf(),
        ensures
            final(self)@.wf(),
            old(self)@.head() + 1 < old(self)@.length ==> r == Ok::<(), ()>(()) && final(self)@
                == (TapeView { cursor: old(self)@.cursor + 1, ..old(self)@ }),
            old(self)@.head() + 1 >= old(self)@.length ==> r == Err::<(), ()>(()) && final(self)@
                == old(self)@,
    {
        if self.first_char_position + self.cursor_position + 1 < self.length as isize {
            self.cursor_position = self.cursor_position + 1;
            Ok(())
        } else {
            Err(())
        }
    }
}

} // verus!
