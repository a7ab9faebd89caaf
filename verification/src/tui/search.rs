//! The log-search box state: the query, its edit cursor, and whether the box is
//! open for editing (vs a committed filter that still applies with the box shut).
use vstd::prelude::*;

use super::key::{Key, KeyCode};
use crate::text::{chars_of, string_from, string_of};

verus! {

/// What [`Search::edit`] asks the caller (the app) to do after a key.
#[derive(Clone, Copy, Debug, PartialEq, Eq, Structural)]
pub enum SearchAction {
    /// Not an editing key — fall through to normal handling (scroll, tab switch).
    Pass,
    /// The query changed; re-follow the newest matches.
    Refilter,
    /// Handled with no query change (cursor moved, or committed); leave scroll be.
    Handled,
    /// Close the box and clear the filter.
    Close,
}

/// The bytes `c` takes in UTF-8.
pub open spec fn char_len(c: char) -> int {
    if (c as u32) < 0x80 {
        1
    } else if (c as u32) < 0x800 {
        2
    } else if (c as u32) < 0x10000 {
        3
    } else {
        4
    }
}

/// The bytes `s` takes in UTF-8.
pub open spec fn utf8_len(s: Seq<char>) -> int
    decreases s.len(),
{
    if s.len() == 0 {
        0
    } else {
        utf8_len(s.drop_last()) + char_len(s.last())
    }
}

/// A character takes as many bytes as its UTF-8 encoding.
proof fn lemma_char_len_encoding(c: char)
    ensures
        char_len(c) == vstd::utf8::encode_scalar(c as u32).len(),
{
    vstd::utf8::char_is_scalar(c);
}

/// Counted from the front, the bytes of a sequence are those of its first
/// character and then the rest.
proof fn lemma_utf8_len_front(s: Seq<char>)
    requires
        s.len() > 0,
    ensures
        utf8_len(s) == char_len(s[0]) + utf8_len(s.drop_first()),
    decreases s.len(),
{
    if s.len() > 1 {
        lemma_utf8_len_front(s.drop_last());
        assert(s.drop_last().drop_first() =~= s.drop_first().drop_last());
        assert(s.drop_first().last() == s.last());
        assert(s.drop_last()[0] == s[0]);
        assert(utf8_len(s) == utf8_len(s.drop_last()) + char_len(s.last()));
        assert(utf8_len(s.drop_first()) == utf8_len(s.drop_first().drop_last()) + char_len(s.drop_first().last()));
    } else {
        assert(s.drop_first().len() == 0);
        assert(s.drop_last().len() == 0);
        assert(s.last() == s[0]);
        assert(utf8_len(s) == utf8_len(s.drop_last()) + char_len(s.last()));
    }
}

/// [`utf8_len`] is the length of the UTF-8 encoding.
pub proof fn lemma_utf8_len_is_encoded_len(s: Seq<char>)
    ensures
        utf8_len(s) == vstd::utf8::encode_utf8(s).len(),
    decreases s.len(),
{
    if s.len() > 0 {
        lemma_utf8_len_front(s);
        lemma_char_len_encoding(s[0]);
        lemma_utf8_len_is_encoded_len(s.drop_first());
    }
}

/// A box opened on a query puts the caret at its end: the caret's byte offset
/// is the query's length in bytes.
pub proof fn lemma_editing_caret_at_end(q: Seq<char>)
    requires
        vstd::utf8::encode_utf8(q).len() <= usize::MAX,
    ensures
        cursor_of(SearchView { query: q, pos: q.len() as int, editing: true }) == vstd::utf8::encode_utf8(q).len(),
{
    assert(q.take(q.len() as int) =~= q);
    lemma_utf8_len_is_encoded_len(q);
}

/// The box's state: its query, the cursor (a character position), and whether
/// it is open for editing.
pub struct SearchView {
    pub query: Seq<char>,
    pub pos: int,
    pub editing: bool,
}

/// The caret's byte offset into the query, saturating at the largest `usize`.
pub open spec fn cursor_of(s: SearchView) -> int {
    if utf8_len(s.query.take(s.pos)) <= usize::MAX {
        utf8_len(s.query.take(s.pos))
    } else {
        usize::MAX as int
    }
}

/// What one key does to the box: its next state and what the caller should do.
pub open spec fn spec_edit(s: SearchView, key: Key) -> (SearchView, SearchAction) {
    let q = s.query;
    let p = s.pos;
    let home = (SearchView { pos: 0, ..s }, SearchAction::Handled);
    let end = (SearchView { pos: q.len() as int, ..s }, SearchAction::Handled);
    match key.code {
        KeyCode::Esc => (s, SearchAction::Close),
        KeyCode::Enter => if q.len() == 0 {
            (s, SearchAction::Close)
        } else {
            (SearchView { editing: false, ..s }, SearchAction::Handled)
        },
        KeyCode::Backspace => if p > 0 {
            (SearchView { query: q.remove(p - 1), pos: p - 1, ..s }, SearchAction::Refilter)
        } else {
            (s, SearchAction::Refilter)
        },
        KeyCode::Delete => if p < q.len() {
            (SearchView { query: q.remove(p), ..s }, SearchAction::Refilter)
        } else {
            (s, SearchAction::Refilter)
        },
        // Cmd/Super + arrow, or the readline Ctrl+A/Ctrl+E, jumps to an end.
        KeyCode::Left => if key.cmd {
            home
        } else if p > 0 {
            (SearchView { pos: p - 1, ..s }, SearchAction::Handled)
        } else {
            (s, SearchAction::Handled)
        },
        KeyCode::Right => if key.cmd {
            end
        } else if p < q.len() {
            (SearchView { pos: p + 1, ..s }, SearchAction::Handled)
        } else {
            (s, SearchAction::Handled)
        },
        KeyCode::Home => home,
        KeyCode::End => end,
        KeyCode::Char(c) => if key.ctrl && c == 'a' {
            home
        } else if key.ctrl && c == 'e' {
            end
        } else if !key.ctrl && !key.alt && !key.cmd {
            // A bare printable char (no command modifier) extends the query.
            (SearchView { query: q.insert(p, c), pos: p + 1, ..s }, SearchAction::Refilter)
        } else {
            (s, SearchAction::Pass)
        },
        _ => (s, SearchAction::Pass),
    }
}

/// A search over the active tab. `editing` distinguishes the open, key-capturing
/// box from a committed filter; either way a non-empty query filters the view.
pub struct Search {
    query: Vec<char>,
    /// The cursor, as a character position in the query.
    pos: usize,
    editing: bool,
}

impl Search {
    /// The cursor stays within the query.
    #[verifier::type_invariant]
    closed spec fn inv(&self) -> bool {
        self.pos <= self.query.len()
    }

    /// The box's state.
    pub closed spec fn view(&self) -> SearchView {
        SearchView { query: self.query@, pos: self.pos as int, editing: self.editing }
    }

    /// Opens editing on `query` (empty for a fresh box), cursor at the end.
    pub fn editing(query: String) -> (s: Search)
        ensures
            s.view() == (SearchView { query: query@, pos: query@.len() as int, editing: true }),
    {
        let cs = chars_of(query.as_str());
        let n = cs.len();
        Search { query: cs, pos: n, editing: true }
    }

    /// The active filter: the query only while it is non-empty.
    pub fn filter_query(&self) -> (q: Option<String>)
        ensures
            match q {
                Some(t) => t@ == self.view().query && t@.len() > 0,
                None => self.view().query.len() == 0,
            },
    {
        if self.query.len() == 0 {
            None
        } else {
            Some(string_of(&self.query))
        }
    }

    /// Whether the box is open and capturing keys.
    pub fn is_editing(&self) -> (b: bool)
        ensures
            b == self.view().editing,
    {
        self.editing
    }

    /// The query text (for the footer).
    pub fn query(&self) -> (q: String)
        ensures
            q@ == self.view().query,
    {
        string_of(&self.query)
    }

    /// The edit cursor's byte offset into the query (for drawing the caret),
    /// saturating at the largest `usize`.
    pub fn cursor(&self) -> (b: usize)
        ensures
            b == cursor_of(self.view()),
    {
        proof {
            use_type_invariant(self);
        }
        let mut b: usize = 0;
        let mut i: usize = 0;
        while i < self.pos
            invariant
                i <= self.pos <= self.query.len(),
                b == (if utf8_len(self.query@.take(i as int)) <= usize::MAX {
                    utf8_len(self.query@.take(i as int))
                } else {
                    usize::MAX as int
                }),
                utf8_len(self.query@.take(i as int)) >= 0,
            decreases self.pos - i,
        {
            let c = self.query[i];
            let u = c as u32;
            let w: usize = if u < 0x80 {
                1
            } else if u < 0x800 {
                2
            } else if u < 0x10000 {
                3
            } else {
                4
            };
            assert(self.query@.take(i + 1).drop_last() =~= self.query@.take(i as int));
            assert(self.query@.take(i + 1).last() == c);
            b = b.saturating_add(w);
            i = i + 1;
        }
        b
    }

    /// The query split at the caret: the text before it, the character under
    /// it (none at the end), and the text after that character.
    pub fn caret_parts(&self) -> (r: (String, Option<char>, String))
        ensures
            r.0@ == self.view().query.take(self.view().pos),
            self.view().pos < self.view().query.len() ==> r.1 == Some(self.view().query[self.view().pos])
                && r.2@ == self.view().query.skip(self.view().pos + 1),
            self.view().pos >= self.view().query.len() ==> r.1 is None && r.2@ == Seq::<char>::empty(),
    {
        proof {
            use_type_invariant(self);
        }
        let before = string_from(&self.query, 0, self.pos);
        assert(self.query@.subrange(0, self.pos as int) =~= self.query@.take(self.pos as int));
        if self.pos < self.query.len() {
            let after = string_from(&self.query, self.pos + 1, self.query.len());
            assert(self.query@.subrange(self.pos + 1, self.query.len() as int) =~= self.query@.skip(self.pos + 1));
            (before, Some(self.query[self.pos]), after)
        } else {
            (before, None, String::new())
        }
    }

    /// Consumes the search, yielding its query (to reopen editing on it).
    pub fn into_query(self) -> (q: String)
        ensures
            q@ == self.view().query,
    {
        string_of(&self.query)
    }

    /// Applies one editing key, mutating the query/cursor, and reports what the
    /// caller should do next. Non-editing keys return [`SearchAction::Pass`].
    pub fn edit(&mut self, key: Key) -> (a: SearchAction)
        ensures
            (final(self).view(), a) == spec_edit(old(self).view(), key),
    {
        proof {
            use_type_invariant(&*self);
        }
        match key.code {
            KeyCode::Esc => SearchAction::Close,
            KeyCode::Enter => {
                if self.query.len() == 0 {
                    SearchAction::Close
                } else {
                    self.editing = false;
                    SearchAction::Handled
                }
            },
            KeyCode::Backspace => {
                if self.pos > 0 {
                    let p = self.pos - 1;
                    let mut q: Vec<char> = Vec::new();
                    self.pos = 0;
                    std::mem::swap(&mut q, &mut self.query);
                    q.remove(p);
                    self.query = q;
                    self.pos = p;
                }
                SearchAction::Refilter
            },
            KeyCode::Delete => {
                if self.pos < self.query.len() {
                    let p = self.pos;
                    let mut q: Vec<char> = Vec::new();
                    self.pos = 0;
                    std::mem::swap(&mut q, &mut self.query);
                    q.remove(p);
                    self.query = q;
                    self.pos = p;
                }
                SearchAction::Refilter
            },
            KeyCode::Left => {
                if key.cmd {
                    self.pos = 0;
                } else if self.pos > 0 {
                    self.pos = self.pos - 1;
                }
                SearchAction::Handled
            },
            KeyCode::Right => {
                if key.cmd {
                    self.pos = self.query.len();
                } else if self.pos < self.query.len() {
                    self.pos = self.pos + 1;
                }
                SearchAction::Handled
            },
            KeyCode::Home => {
                self.pos = 0;
                SearchAction::Handled
            },
            KeyCode::End => {
                self.pos = self.query.len();
                SearchAction::Handled
            },
            KeyCode::Char(c) => {
                if key.ctrl && c == 'a' {
                    self.pos = 0;
                    SearchAction::Handled
                } else if key.ctrl && c == 'e' {
                    self.pos = self.query.len();
                    SearchAction::Handled
                } else if !key.ctrl && !key.alt && !key.cmd {
                    let p = self.pos;
                    let mut q: Vec<char> = Vec::new();
                    self.pos = 0;
                    std::mem::swap(&mut q, &mut self.query);
                    q.insert(p, c);
                    self.query = q;
                    self.pos = p + 1;
                    SearchAction::Refilter
                } else {
                    SearchAction::Pass
                }
            },
            _ => SearchAction::Pass,
        }
    }
}

/// The plain arrows move the caret one character, the query untouched: Right
/// moves it one place toward the end unless it is there, Left one place
/// toward the start unless it is there; so Right then Left (or Left then
/// Right) comes back where it started, away from the ends.
pub proof fn lemma_arrows_move_one(s: SearchView, key: Key)
    requires
        0 <= s.pos <= s.query.len(),
        !key.cmd,
    ensures
        key.code == KeyCode::Right && s.pos < s.query.len() ==> spec_edit(s, key) == (SearchView {
            pos: s.pos + 1,
            ..s
        }, SearchAction::Handled),
        key.code == KeyCode::Right && s.pos == s.query.len() ==> spec_edit(s, key) == (s, SearchAction::Handled),
        key.code == KeyCode::Left && s.pos > 0 ==> spec_edit(s, key) == (SearchView { pos: s.pos - 1, ..s }, SearchAction::Handled),
        key.code == KeyCode::Left && s.pos == 0 ==> spec_edit(s, key) == (s, SearchAction::Handled),
        key.code == KeyCode::Right && s.pos < s.query.len() ==> spec_edit(
            spec_edit(s, key).0,
            Key { code: KeyCode::Left, ..key },
        ).0 == s,
        key.code == KeyCode::Left && s.pos > 0 ==> spec_edit(
            spec_edit(s, key).0,
            Key { code: KeyCode::Right, ..key },
        ).0 == s,
{
}

/// A bare character is typed at the caret, which then sits after it.
pub proof fn lemma_typing_inserts_at_caret(s: SearchView, key: Key, c: char)
    requires
        0 <= s.pos <= s.query.len(),
        key.code == KeyCode::Char(c),
        !key.ctrl && !key.alt && !key.cmd,
    ensures
        spec_edit(s, key).0.query == s.query.take(s.pos).push(c) + s.query.skip(s.pos),
        spec_edit(s, key).0.pos == s.pos + 1,
{
    assert(s.query.insert(s.pos, c) =~= s.query.take(s.pos).push(c) + s.query.skip(s.pos));
}

/// The editing keys: Backspace removes the character before the caret and
/// steps back over it; Delete removes the character under the caret; Home,
/// Ctrl+A or Cmd+Left go to the start and End, Ctrl+E or Cmd+Right to the end;
/// Enter keeps a non-empty query as a committed filter (and closes an empty
/// box); Esc closes the box. None of these but the removals touch the query.
pub proof fn lemma_editing_keys(s: SearchView, key: Key)
    requires
        0 <= s.pos <= s.query.len(),
    ensures
        key.code == KeyCode::Backspace && s.pos > 0 ==> spec_edit(s, key).0.query == s.query.take(s.pos - 1) + s.query.skip(
            s.pos,
        ) && spec_edit(s, key).0.pos == s.pos - 1,
        key.code == KeyCode::Delete && s.pos < s.query.len() ==> spec_edit(s, key).0.query == s.query.take(s.pos)
            + s.query.skip(s.pos + 1) && spec_edit(s, key).0.pos == s.pos,
        (key.code == KeyCode::Home || (key.code == KeyCode::Char('a') && key.ctrl) || (key.code == KeyCode::Left
            && key.cmd)) ==> spec_edit(s, key).0 == (SearchView { pos: 0, ..s }),
        (key.code == KeyCode::End || (key.code == KeyCode::Char('e') && key.ctrl) || (key.code == KeyCode::Right
            && key.cmd)) ==> spec_edit(s, key).0 == (SearchView { pos: s.query.len() as int, ..s }),
        key.code == KeyCode::Enter && s.query.len() > 0 ==> spec_edit(s, key) == (SearchView { editing: false, ..s },
        SearchAction::Handled),
        key.code == KeyCode::Enter && s.query.len() == 0 ==> spec_edit(s, key).1 == SearchAction::Close,
        key.code == KeyCode::Esc ==> spec_edit(s, key).1 == SearchAction::Close,
{
    if key.code == KeyCode::Backspace && s.pos > 0 {
        assert(s.query.remove(s.pos - 1) =~= s.query.take(s.pos - 1) + s.query.skip(s.pos));
    }
    if key.code == KeyCode::Delete && s.pos < s.query.len() {
        assert(s.query.remove(s.pos) =~= s.query.take(s.pos) + s.query.skip(s.pos + 1));
    }
}

} // verus!
