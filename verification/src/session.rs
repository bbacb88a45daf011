//! The decisions of a multiplexer session: the rolling capture buffers of
//! keyboard and screen traffic, and what each piece of traffic sets off.
//! The program that drives the session performs the reads, writes and
//! Lua calls that these functions ask for.
use vstd::prelude::*;
use crate::buffer::{insert_in_buffer, keep_last, lemma_insert_keeps_latest};
use crate::config::{ConfigDict, ConfigEntryView, entry_views};
use crate::pattern::{
    decode_lossy, regex_compiles, regex_find, regex_is_match, regex_leftmost, regex_matches,
    upper_case, uppercase, utf8_lossy,
};
use crate::text::chars_of;
use vstd::string::StringSliceAdditionalSpecFns;
use vstd::utf8::encode_utf8;

verus! {

/// The size of the capture buffers.
pub const CAPTURE_LEN: usize = 1024;

/// A rolling buffer that keeps the most recent `CAPTURE_LEN` bytes of a
/// stream, from the last time it was cleared.
pub struct Capture {
    buf: Vec<u8>,
    pos: usize,
}

impl View for Capture {
    type V = Seq<u8>;

    closed spec fn view(&self) -> Seq<u8> {
        self.buf@.take(self.pos as int)
    }
}

impl Capture {
    /// The buffer has its full size and the fill level lies within it.
    pub closed spec fn wf(&self) -> bool {
        self.buf@.len() == CAPTURE_LEN && self.pos <= CAPTURE_LEN
    }

    /// An empty buffer.
    pub fn new() -> (c: Self)
        ensures
            c.wf(),
            c@ == Seq::<u8>::empty(),
    {
        let mut buf: Vec<u8> = Vec::new();
        for i in 0..CAPTURE_LEN
            invariant
                buf@.len() == i,
        {
            buf.push(0);
        }
        let c = Capture { buf, pos: 0 };
        assert(c@ =~= Seq::<u8>::empty());
        c
    }

    /// The number of bytes held.
    pub fn len(&self) -> (n: usize)
        requires
            self.wf(),
        ensures
            n == self@.len(),
            n <= CAPTURE_LEN,
    {
        self.pos
    }

    /// Appends the first `n` bytes of `bytes`, dropping the oldest bytes
    /// beyond `CAPTURE_LEN`.
    pub fn push(&mut self, bytes: &[u8], n: usize)
        requires
            old(self).wf(),
            n <= bytes@.len(),
        ensures
            final(self).wf(),
            final(self)@ == keep_last(old(self)@ + bytes@.take(n as int), CAPTURE_LEN as int),
    {
        proof {
            lemma_insert_keeps_latest(self.buf@, CAPTURE_LEN as int, self.pos as int, bytes@.take(n as int));
        }
        let mut pos = self.pos;
        insert_in_buffer(self.buf.as_mut_slice(), CAPTURE_LEN, &mut pos, bytes, n);
        self.pos = pos;
    }

    /// Drops the most recent byte, if any.
    pub fn drop_last(&mut self)
        requires
            old(self).wf(),
        ensures
            final(self).wf(),
            final(self)@ == if old(self)@.len() > 0 { old(self)@.drop_last() } else { old(self)@ },
    {
        if self.pos > 0 {
            self.pos = self.pos - 1;
            assert(self.buf@.take(self.pos as int) =~= old(self)@.drop_last());
        }
    }

    /// Empties the buffer.
    pub fn clear(&mut self)
        requires
            old(self).wf(),
        ensures
            final(self).wf(),
            final(self)@ == Seq::<u8>::empty(),
    {
        self.pos = 0;
        assert(self.buf@.take(0) =~= Seq::<u8>::empty());
    }

    /// The bytes held.
    pub fn bytes(&self) -> (b: &[u8])
        requires
            self.wf(),
        ensures
            b@ == self@,
    {
        vstd::slice::slice_subrange(self.buf.as_slice(), 0, self.pos)
    }

    /// The bytes held, decoded as UTF-8 with U+FFFD for invalid sequences.
    pub fn text(&self) -> (s: String)
        requires
            self.wf(),
        ensures
            s@ == utf8_lossy(self@),
    {
        decode_lossy(self.bytes())
    }
}

/// What a read while waiting for a pattern on the terminal leads to.
pub enum ReadUntil {
    /// The pattern does not match yet: read on.
    Waiting,
    /// The pattern matches the captured text, which comes with it.
    Found(String),
    /// The terminal gave no more bytes.
    Closed,
    /// The pattern is not a valid regular expression.
    BadPattern,
}

/// One step of waiting for `pattern` to appear in the terminal output:
/// the `num_read` bytes just read go into the capture buffer, and the
/// pattern is tested on the captured text.  A read that gave no byte
/// closes the terminal.
pub fn read_until_step(capture: &mut Capture, pattern: &str, read: &[u8], num_read: i64) -> (r: ReadUntil)
    requires
        old(capture).wf(),
        num_read <= read@.len(),
    ensures
        final(capture).wf(),
        num_read <= 0 ==> r is Closed && final(capture)@ == old(capture)@,
        num_read > 0 ==> final(capture)@ == keep_last(
            old(capture)@ + read@.take(num_read as int),
            CAPTURE_LEN as int,
        ),
        num_read > 0 && !regex_compiles(pattern@) ==> r is BadPattern,
        num_read > 0 && regex_compiles(pattern@) && regex_matches(pattern@, utf8_lossy(final(capture)@))
            ==> (r matches ReadUntil::Found(s) && s@ == utf8_lossy(final(capture)@)),
        num_read > 0 && regex_compiles(pattern@) && !regex_matches(pattern@, utf8_lossy(final(capture)@))
            ==> r is Waiting,
{
    if num_read <= 0 {
        return ReadUntil::Closed;
    }
    let avail = read.len();
    assert(num_read as int <= avail as int);
    capture.push(read, num_read as usize);
    let text = capture.text();
    match regex_is_match(pattern, text.as_str()) {
        Ok(true) => ReadUntil::Found(text),
        Ok(false) => ReadUntil::Waiting,
        Err(_) => ReadUntil::BadPattern,
    }
}

// ---------------------------------------------------------------------
// Kinds of configuration entries
// ---------------------------------------------------------------------

/// On what a configuration entry runs.
#[derive(PartialEq, Eq, Structural, Debug, Clone, Copy)]
pub enum EntryKind {
    /// Once, when the session starts.
    Lua,
    /// When its trigger matches what was typed.
    Keyboard,
    /// When its trigger matches what the program printed.
    Term,
    /// Never.
    Other,
}

pub open spec fn word_lua() -> Seq<char> {
    seq!['L', 'U', 'A']
}

pub open spec fn word_keyboard() -> Seq<char> {
    seq!['K', 'E', 'Y', 'B', 'O', 'A', 'R', 'D']
}

pub open spec fn word_term() -> Seq<char> {
    seq!['T', 'E', 'R', 'M']
}

/// The kind that the `when` field names, in any case: its upper-case form
/// is `LUA`, `KEYBOARD` or `TERM`.
pub open spec fn kind_of(when: Seq<char>) -> EntryKind {
    let u = upper_case(when);
    if u == word_lua() {
        EntryKind::Lua
    } else if u == word_keyboard() {
        EntryKind::Keyboard
    } else if u == word_term() {
        EntryKind::Term
    } else {
        EntryKind::Other
    }
}

/// Whether `a` and `b` hold the same characters.
fn same_chars(a: &[char], b: &[char]) -> (r: bool)
    ensures
        r == (a@ == b@),
{
    if a.len() != b.len() {
        return false;
    }
    for i in 0..a.len()
        invariant
            a@.len() == b@.len(),
            forall|j: int| 0 <= j < i ==> a@[j] == b@[j],
    {
        if a[i] != b[i] {
            return false;
        }
    }
    assert(a@ =~= b@);
    true
}

/// The kind of entry that the `when` field names.
pub fn entry_kind(when: &str) -> (k: EntryKind)
    ensures
        k == kind_of(when@),
{
    let upper = uppercase(when);
    let u = chars_of(upper.as_str());
    let mut lua: Vec<char> = Vec::new();
    lua.push('L');
    lua.push('U');
    lua.push('A');
    let mut keyboard: Vec<char> = Vec::new();
    keyboard.push('K');
    keyboard.push('E');
    keyboard.push('Y');
    keyboard.push('B');
    keyboard.push('O');
    keyboard.push('A');
    keyboard.push('R');
    keyboard.push('D');
    let mut term: Vec<char> = Vec::new();
    term.push('T');
    term.push('E');
    term.push('R');
    term.push('M');
    assert(lua@ =~= word_lua());
    assert(keyboard@ =~= word_keyboard());
    assert(term@ =~= word_term());
    if same_chars(u.as_slice(), lua.as_slice()) {
        EntryKind::Lua
    } else if same_chars(u.as_slice(), keyboard.as_slice()) {
        EntryKind::Keyboard
    } else if same_chars(u.as_slice(), term.as_slice()) {
        EntryKind::Term
    } else {
        EntryKind::Other
    }
}

/// The code of the entries of kind `Lua`, in order.
pub open spec fn lua_codes(es: Seq<ConfigEntryView>) -> Seq<Seq<char>>
    decreases es.len(),
{
    if es.len() == 0 {
        Seq::empty()
    } else if kind_of(es.last().when) == EntryKind::Lua {
        lua_codes(es.drop_last()).push(es.last().code)
    } else {
        lua_codes(es.drop_last())
    }
}

/// The views of a sequence of strings.
pub open spec fn string_views(v: Seq<String>) -> Seq<Seq<char>> {
    v.map_values(|s: String| s@)
}

/// The Lua code to run when the session starts: that of the entries of
/// kind `Lua`, in the order of the table.
pub fn startup_scripts(dict: &ConfigDict) -> (r: Vec<String>)
    ensures
        string_views(r@) == lua_codes(entry_views(dict.listing())),
{
    let es = dict.entries();
    let ghost ev = entry_views(es@);
    let mut codes: Vec<String> = Vec::new();
    for i in 0..es.len()
        invariant
            ev == entry_views(es@),
            string_views(codes@) == lua_codes(ev.take(i as int)),
    {
        let e = &es[i];
        proof {
            assert(ev.take(i + 1).drop_last() =~= ev.take(i as int));
            assert(ev.take(i + 1).last() == e@);
        }
        if entry_kind(e.when.as_str()) == EntryKind::Lua {
            codes.push(e.code.clone());
            assert(string_views(codes@) =~= lua_codes(ev.take(i + 1)));
        }
    }
    assert(ev.take(ev.len() as int) =~= ev);
    codes
}

// ---------------------------------------------------------------------
// Keyboard
// ---------------------------------------------------------------------

/// The byte that the backspace key sends.
pub const BACKSPACE: u8 = 127;

/// What a read from the keyboard leads to.
pub enum KeyInput {
    /// The keyboard gave no more bytes: the session ends.
    Closed,
    /// The bytes read go on to the program, and the triggers are tested.
    Typed,
}

/// Takes the `num_read` bytes just read from the keyboard into the
/// keyboard buffer: a single backspace removes the last byte typed, any
/// other input is kept.  A read that gave no byte ends the session.
pub fn keyboard_input(kbd: &mut Capture, read: &[u8], num_read: i64) -> (r: KeyInput)
    requires
        old(kbd).wf(),
        num_read <= read@.len(),
    ensures
        final(kbd).wf(),
        num_read <= 0 ==> r is Closed && final(kbd)@ == old(kbd)@,
        num_read == 1 && read@[0] == BACKSPACE ==> r is Typed && final(kbd)@ == if old(kbd)@.len() > 0 {
            old(kbd)@.drop_last()
        } else {
            old(kbd)@
        },
        num_read > 0 && !(num_read == 1 && read@[0] == BACKSPACE) ==> r is Typed && final(kbd)@
            == keep_last(old(kbd)@ + read@.take(num_read as int), CAPTURE_LEN as int),
{
    if num_read <= 0 {
        return KeyInput::Closed;
    }
    let avail = read.len();
    assert(num_read as int <= avail as int);
    if num_read == 1 && read[0] == BACKSPACE {
        kbd.drop_last();
    } else {
        kbd.push(read, num_read as usize);
    }
    KeyInput::Typed
}

/// The code of the entries that fire, and whether a trigger turned out
/// not to be a valid regular expression (which stops the search).
pub struct Fired {
    pub codes: Vec<String>,
    pub bad_pattern: bool,
}

/// The code of the keyboard entries, in order, whose trigger matches
/// `text`, and whether the search stopped at a trigger that does not
/// compile.
pub open spec fn keyboard_fired(es: Seq<ConfigEntryView>, text: Seq<char>) -> (Seq<Seq<char>>, bool)
    decreases es.len(),
{
    if es.len() == 0 {
        (Seq::empty(), false)
    } else {
        let e = es[0];
        let rest = keyboard_fired(es.skip(1), text);
        if kind_of(e.when) == EntryKind::Keyboard && e.trigger is Some {
            let t = e.trigger->0;
            if !regex_compiles(t) {
                (Seq::empty(), true)
            } else if regex_matches(t, text) {
                (seq![e.code] + rest.0, rest.1)
            } else {
                rest
            }
        } else {
            rest
        }
    }
}

/// Entry `e` is a keyboard entry whose trigger compiles and matches `text`.
pub open spec fn keyboard_entry_fires(e: ConfigEntryView, text: Seq<char>) -> bool {
    &&& kind_of(e.when) == EntryKind::Keyboard
    &&& e.trigger is Some
    &&& regex_compiles(e.trigger->0)
    &&& regex_matches(e.trigger->0, text)
}

/// Entry `e` is a keyboard entry whose trigger does not compile.
pub open spec fn keyboard_entry_bad(e: ConfigEntryView) -> bool {
    &&& kind_of(e.when) == EntryKind::Keyboard
    &&& e.trigger is Some
    &&& !regex_compiles(e.trigger->0)
}

/// Code `c` is that of an entry of `es` that fires on `text`.
pub open spec fn fired_by_keyboard_entry(es: Seq<ConfigEntryView>, text: Seq<char>, c: Seq<char>) -> bool {
    exists|j: int| 0 <= j < es.len() && #[trigger] keyboard_entry_fires(es[j], text) && es[j].code == c
}

/// What the keyboard triggers give: only the code of keyboard entries
/// whose trigger matches the whole text fires; when no keyboard trigger
/// fails to compile, the code of every such entry fires; and the search
/// reports a bad trigger exactly when a keyboard entry's trigger does not
/// compile.
pub proof fn lemma_keyboard_fired_laws(es: Seq<ConfigEntryView>, text: Seq<char>)
    ensures
        forall|k: int|
            0 <= k < keyboard_fired(es, text).0.len() ==> #[trigger] fired_by_keyboard_entry(
                es,
                text,
                keyboard_fired(es, text).0[k],
            ),
        !keyboard_fired(es, text).1 ==> forall|j: int|
            0 <= j < es.len() && #[trigger] keyboard_entry_fires(es[j], text) ==> keyboard_fired(
                es,
                text,
            ).0.contains(es[j].code),
        keyboard_fired(es, text).1 <==> exists|j: int| 0 <= j < es.len() && #[trigger] keyboard_entry_bad(es[j]),
    decreases es.len(),
{
    if es.len() == 0 {
        assert(keyboard_fired(es, text) == (Seq::<Seq<char>>::empty(), false));
    } else {
        let e = es[0];
        let tl = es.skip(1);
        lemma_keyboard_fired_laws(tl, text);
        let r = keyboard_fired(es, text);
        let rest = keyboard_fired(tl, text);
        assert forall|j: int| 0 <= j < tl.len() implies tl[j] == es[j + 1] by {}
        // Sources of the codes.
        assert forall|k: int| 0 <= k < r.0.len() implies #[trigger] fired_by_keyboard_entry(es, text, r.0[k]) by {
            if keyboard_entry_fires(e, text) {
                assert(r.0 == seq![e.code] + rest.0);
                if k == 0 {
                    assert(keyboard_entry_fires(es[0], text));
                } else {
                    assert(r.0[k] == rest.0[k - 1]);
                    assert(fired_by_keyboard_entry(tl, text, rest.0[k - 1]));
                    let j = choose|j: int| 0 <= j < tl.len() && #[trigger] keyboard_entry_fires(tl[j], text) && tl[j].code == rest.0[k - 1];
                    assert(keyboard_entry_fires(es[j + 1], text));
                }
            } else if keyboard_entry_bad(e) {
                assert(r.0.len() == 0);
            } else {
                assert(r == rest);
                assert(fired_by_keyboard_entry(tl, text, rest.0[k]));
                let j = choose|j: int| 0 <= j < tl.len() && #[trigger] keyboard_entry_fires(tl[j], text) && tl[j].code == rest.0[k];
                assert(keyboard_entry_fires(es[j + 1], text));
            }
        }
        // Bad triggers.
        if keyboard_entry_bad(e) {
            assert(r.1);
            assert(keyboard_entry_bad(es[0]));
        } else {
            assert(r.1 == rest.1);
            if exists|j: int| 0 <= j < es.len() && #[trigger] keyboard_entry_bad(es[j]) {
                let j = choose|j: int| 0 <= j < es.len() && #[trigger] keyboard_entry_bad(es[j]);
                assert(j > 0);
                assert(keyboard_entry_bad(tl[j - 1]));
            }
            if exists|j: int| 0 <= j < tl.len() && #[trigger] keyboard_entry_bad(tl[j]) {
                let j = choose|j: int| 0 <= j < tl.len() && #[trigger] keyboard_entry_bad(tl[j]);
                assert(keyboard_entry_bad(es[j + 1]));
            }
        }
        // Every firing entry gives its code.
        if !r.1 {
            assert(!keyboard_entry_bad(e));
            assert forall|j: int|
                0 <= j < es.len() && #[trigger] keyboard_entry_fires(es[j], text) implies r.0.contains(es[j].code) by {
                if j == 0 {
                    assert(r.0 == seq![e.code] + rest.0);
                    assert(r.0[0] == e.code);
                } else {
                    assert(keyboard_entry_fires(tl[j - 1], text));
                    assert(rest.0.contains(es[j].code));
                    let k = choose|k: int| 0 <= k < rest.0.len() && rest.0[k] == es[j].code;
                    if keyboard_entry_fires(e, text) {
                        assert(r.0 == seq![e.code] + rest.0);
                        assert(r.0[k + 1] == es[j].code);
                    } else {
                        assert(r == rest);
                    }
                }
            }
        }
    }
}

/// Tests the keyboard triggers on what was typed: gives the code of the
/// keyboard entries whose trigger matches the text of the keyboard buffer,
/// and empties the buffer when any does.
pub fn keyboard_triggers(dict: &ConfigDict, kbd: &mut Capture) -> (r: Fired)
    requires
        old(kbd).wf(),
    ensures
        final(kbd).wf(),
        (string_views(r.codes@), r.bad_pattern) == keyboard_fired(
            entry_views(dict.listing()),
            utf8_lossy(old(kbd)@),
        ),
        final(kbd)@ == if r.codes@.len() > 0 { Seq::<u8>::empty() } else { old(kbd)@ },
{
    let text = kbd.text();
    let ghost t = text@;
    let es = dict.entries();
    let ghost ev = entry_views(es@);
    let mut codes: Vec<String> = Vec::new();
    let n = es.len();
    let ghost k0 = kbd@;
    assert(ev.skip(0) =~= ev);
    assert(string_views(codes@) + keyboard_fired(ev, t).0 =~= keyboard_fired(ev, t).0);
    for i in 0..n
        invariant
            n == es@.len(),
            es@ == dict.listing(),
            ev == entry_views(es@),
            t == utf8_lossy(k0),
            k0 == old(kbd)@,
            text@ == t,
            kbd.wf(),
            kbd@ == if codes@.len() > 0 { Seq::<u8>::empty() } else { k0 },
            keyboard_fired(ev, t) == (
                string_views(codes@) + keyboard_fired(ev.skip(i as int), t).0,
                keyboard_fired(ev.skip(i as int), t).1,
            ),
    {
        let e = &es[i];
        let ghost rest = ev.skip(i as int);
        proof {
            assert(rest[0] == e@);
            assert(rest.skip(1) =~= ev.skip(i + 1));
        }
        if entry_kind(e.when.as_str()) == EntryKind::Keyboard {
            match &e.trigger {
                Some(trigger) => {
                    match regex_is_match(trigger.as_str(), text.as_str()) {
                        Ok(true) => {
                            kbd.clear();
                            codes.push(e.code.clone());
                            proof {
                                assert(string_views(codes@) =~= string_views(codes@.drop_last()).push(e@.code));
                                assert(string_views(codes@) + keyboard_fired(ev.skip(i + 1), t).0 =~= string_views(
                                    codes@.drop_last(),
                                ) + (seq![e@.code] + keyboard_fired(ev.skip(i + 1), t).0));
                            }
                        },
                        Ok(false) => {},
                        Err(_) => {
                            proof {
                                assert(keyboard_fired(rest, t) == (Seq::<Seq<char>>::empty(), true));
                                assert(string_views(codes@) + Seq::<Seq<char>>::empty() =~= string_views(codes@));
                            }
                            return Fired { codes, bad_pattern: true };
                        },
                    }
                },
                None => {},
            }
        }
    }
    proof {
        assert(ev.skip(n as int) =~= Seq::<ConfigEntryView>::empty());
        assert(string_views(codes@) + Seq::<Seq<char>>::empty() =~= string_views(codes@));
    }
    Fired { codes, bad_pattern: false }
}

/// The bytes that erase `count` typed characters: one backspace each;
/// none for a count that is not positive.
pub fn backspace_sequence(count: i32) -> (r: Vec<u8>)
    ensures
        r@.len() == if count > 0 { count as int } else { 0 },
        forall|i: int| 0 <= i < r@.len() ==> r@[i] == BACKSPACE,
{
    let mut r: Vec<u8> = Vec::new();
    let n: u32 = if count > 0 { count as u32 } else { 0 };
    for i in 0..n
        invariant
            r@.len() == i,
            forall|j: int| 0 <= j < r@.len() ==> r@[j] == BACKSPACE,
    {
        r.push(BACKSPACE);
    }
    r
}

// ---------------------------------------------------------------------
// Screen
// ---------------------------------------------------------------------

/// A terminal entry whose trigger matched the screen text: the text before
/// the match is shown, the matched text is handed to the entry's code,
/// which runs, and the text after the match is shown.
pub struct TermMatch {
    pub before: Vec<u8>,
    pub matched: Vec<u8>,
    pub code: String,
    pub after: Vec<u8>,
}

/// What a [`TermMatch`] holds, as plain values.
pub struct TermMatchView {
    pub before: Seq<u8>,
    pub matched: Seq<u8>,
    pub code: Seq<char>,
    pub after: Seq<u8>,
}

impl View for TermMatch {
    type V = TermMatchView;

    open spec fn view(&self) -> TermMatchView {
        TermMatchView { before: self.before@, matched: self.matched@, code: self.code@, after: self.after@ }
    }
}

pub open spec fn match_views(v: Seq<TermMatch>) -> Seq<TermMatchView> {
    v.map_values(|m: TermMatch| m@)
}

/// The terminal entries, in order, whose trigger matches `text`, each with
/// the split of the text's bytes at its leftmost match, and whether the
/// search stopped at a trigger that does not compile.
pub open spec fn term_fired(es: Seq<ConfigEntryView>, text: Seq<char>) -> (Seq<TermMatchView>, bool)
    decreases es.len(),
{
    if es.len() == 0 {
        (Seq::empty(), false)
    } else {
        let e = es[0];
        let rest = term_fired(es.skip(1), text);
        if kind_of(e.when) == EntryKind::Term && e.trigger is Some {
            let t = e.trigger->0;
            let b = encode_utf8(text);
            if !regex_compiles(t) {
                (Seq::empty(), true)
            } else {
                match regex_leftmost(t, text) {
                    Some((s, f)) => (
                        seq![
                            TermMatchView {
                                before: b.take(s as int),
                                matched: b.subrange(s as int, f as int),
                                code: e.code,
                                after: b.skip(f as int),
                            },
                        ] + rest.0,
                        rest.1,
                    ),
                    None => rest,
                }
            }
        } else {
            rest
        }
    }
}

/// Entry `e` is a terminal entry whose trigger compiles and matches `text`.
pub open spec fn term_entry_fires(e: ConfigEntryView, text: Seq<char>) -> bool {
    &&& kind_of(e.when) == EntryKind::Term
    &&& e.trigger is Some
    &&& regex_compiles(e.trigger->0)
    &&& regex_leftmost(e.trigger->0, text) is Some
}

/// Entry `e` is a terminal entry whose trigger does not compile.
pub open spec fn term_entry_bad(e: ConfigEntryView) -> bool {
    &&& kind_of(e.when) == EntryKind::Term
    &&& e.trigger is Some
    &&& !regex_compiles(e.trigger->0)
}

/// The split of the bytes of `text` at the leftmost match of the trigger
/// of entry `e`, with the entry's code.
pub open spec fn term_split(e: ConfigEntryView, text: Seq<char>) -> TermMatchView {
    let b = encode_utf8(text);
    let (s, f) = regex_leftmost(e.trigger->0, text)->0;
    TermMatchView {
        before: b.take(s as int),
        matched: b.subrange(s as int, f as int),
        code: e.code,
        after: b.skip(f as int),
    }
}

/// Match `m` is the split of `text` by an entry of `es` that fires on it.
pub open spec fn split_by_term_entry(es: Seq<ConfigEntryView>, text: Seq<char>, m: TermMatchView) -> bool {
    exists|j: int| 0 <= j < es.len() && #[trigger] term_entry_fires(es[j], text) && m == term_split(es[j], text)
}

/// What the terminal triggers give: only terminal entries whose trigger
/// matches the text fire, each splitting the text's bytes at its leftmost
/// match; when no terminal trigger fails to compile, every such entry
/// fires; and the search reports a bad trigger exactly when a terminal
/// entry's trigger does not compile.
pub proof fn lemma_term_fired_laws(es: Seq<ConfigEntryView>, text: Seq<char>)
    ensures
        forall|k: int|
            0 <= k < term_fired(es, text).0.len() ==> #[trigger] split_by_term_entry(
                es,
                text,
                term_fired(es, text).0[k],
            ),
        !term_fired(es, text).1 ==> forall|j: int|
            0 <= j < es.len() && #[trigger] term_entry_fires(es[j], text) ==> term_fired(es, text).0.contains(
                term_split(es[j], text),
            ),
        term_fired(es, text).1 <==> exists|j: int| 0 <= j < es.len() && #[trigger] term_entry_bad(es[j]),
    decreases es.len(),
{
    if es.len() == 0 {
        assert(term_fired(es, text) == (Seq::<TermMatchView>::empty(), false));
    } else {
        let e = es[0];
        let tl = es.skip(1);
        lemma_term_fired_laws(tl, text);
        let r = term_fired(es, text);
        let rest = term_fired(tl, text);
        assert forall|j: int| 0 <= j < tl.len() implies tl[j] == es[j + 1] by {}
        if term_entry_fires(e, text) {
            assert(r.0 == seq![term_split(e, text)] + rest.0);
            assert(r.1 == rest.1);
        } else if !term_entry_bad(e) {
            assert(r == rest);
        }
        assert forall|k: int| 0 <= k < r.0.len() implies #[trigger] split_by_term_entry(es, text, r.0[k]) by {
            if term_entry_fires(e, text) {
                if k == 0 {
                    assert(term_entry_fires(es[0], text));
                } else {
                    assert(r.0[k] == rest.0[k - 1]);
                    assert(split_by_term_entry(tl, text, rest.0[k - 1]));
                    let j = choose|j: int| 0 <= j < tl.len() && #[trigger] term_entry_fires(tl[j], text) && rest.0[k - 1] == term_split(tl[j], text);
                    assert(term_entry_fires(es[j + 1], text));
                }
            } else if term_entry_bad(e) {
                assert(r.0.len() == 0);
            } else {
                assert(split_by_term_entry(tl, text, rest.0[k]));
                let j = choose|j: int| 0 <= j < tl.len() && #[trigger] term_entry_fires(tl[j], text) && rest.0[k] == term_split(tl[j], text);
                assert(term_entry_fires(es[j + 1], text));
            }
        }
        if term_entry_bad(e) {
            assert(r.1);
            assert(term_entry_bad(es[0]));
        } else {
            assert(r.1 == rest.1);
            if exists|j: int| 0 <= j < es.len() && #[trigger] term_entry_bad(es[j]) {
                let j = choose|j: int| 0 <= j < es.len() && #[trigger] term_entry_bad(es[j]);
                assert(j > 0);
                assert(term_entry_bad(tl[j - 1]));
            }
            if exists|j: int| 0 <= j < tl.len() && #[trigger] term_entry_bad(tl[j]) {
                let j = choose|j: int| 0 <= j < tl.len() && #[trigger] term_entry_bad(tl[j]);
                assert(term_entry_bad(es[j + 1]));
            }
        }
        if !r.1 {
            assert forall|j: int|
                0 <= j < es.len() && #[trigger] term_entry_fires(es[j], text) implies r.0.contains(term_split(es[j], text)) by {
                if j == 0 {
                    assert(r.0[0] == term_split(e, text));
                } else {
                    assert(term_entry_fires(tl[j - 1], text));
                    assert(rest.0.contains(term_split(es[j], text)));
                    let k = choose|k: int| 0 <= k < rest.0.len() && rest.0[k] == term_split(es[j], text);
                    if term_entry_fires(e, text) {
                        assert(r.0[k + 1] == term_split(es[j], text));
                    }
                }
            }
        }
    }
}

/// What the program's output leads to: the terminal entries that fired,
/// whether the bytes read are shown as they are (when none fired), and
/// whether a trigger turned out not to be a valid regular expression.
pub struct ScreenUpdate {
    pub matches: Vec<TermMatch>,
    pub echo: bool,
    pub bad_pattern: bool,
}

/// Takes the `num_read` bytes just read from the program into the screen
/// buffer and tests the terminal triggers on the buffer's text.  The
/// buffer is emptied when a trigger fires.  `None` when the read gave no
/// byte: the session ends.
pub fn screen_output(dict: &ConfigDict, screen: &mut Capture, read: &[u8], num_read: i64) -> (r: Option<ScreenUpdate>)
    requires
        old(screen).wf(),
        num_read <= read@.len(),
    ensures
        final(screen).wf(),
        num_read <= 0 ==> r is None && final(screen)@ == old(screen)@,
        num_read > 0 ==> (r matches Some(u) && {
            let window = keep_last(old(screen)@ + read@.take(num_read as int), CAPTURE_LEN as int);
            let fired = term_fired(entry_views(dict.listing()), utf8_lossy(window));
            &&& (match_views(u.matches@), u.bad_pattern) == fired
            &&& u.echo == (u.matches@.len() == 0)
            &&& final(screen)@ == if u.matches@.len() > 0 { Seq::<u8>::empty() } else { window }
        }),
{
    if num_read <= 0 {
        return None;
    }
    let avail = read.len();
    assert(num_read as int <= avail as int);
    screen.push(read, num_read as usize);
    let ghost window = screen@;
    let text = screen.text();
    let ghost t = text@;
    let bytes = text.as_str().as_bytes();
    assert(bytes@ == encode_utf8(t));
    let es = dict.entries();
    let ghost ev = entry_views(es@);
    let mut matches: Vec<TermMatch> = Vec::new();
    let n = es.len();
    assert(ev.skip(0) =~= ev);
    assert(match_views(matches@) + term_fired(ev, t).0 =~= term_fired(ev, t).0);
    for i in 0..n
        invariant
            n == es@.len(),
            es@ == dict.listing(),
            ev == entry_views(es@),
            text@ == t,
            t == utf8_lossy(window),
            num_read > 0,
            window == keep_last(old(screen)@ + read@.take(num_read as int), CAPTURE_LEN as int),
            bytes@ == encode_utf8(t),
            screen.wf(),
            screen@ == if matches@.len() > 0 { Seq::<u8>::empty() } else { window },
            term_fired(ev, t) == (
                match_views(matches@) + term_fired(ev.skip(i as int), t).0,
                term_fired(ev.skip(i as int), t).1,
            ),
    {
        let e = &es[i];
        let ghost rest = ev.skip(i as int);
        proof {
            assert(rest[0] == e@);
            assert(rest.skip(1) =~= ev.skip(i + 1));
        }
        if entry_kind(e.when.as_str()) == EntryKind::Term {
            match &e.trigger {
                Some(trigger) => {
                    match regex_find(trigger.as_str(), text.as_str()) {
                        Ok(Some((s, f))) => {
                            screen.clear();
                            let before = vstd::slice::slice_to_vec(vstd::slice::slice_subrange(bytes, 0, s));
                            let matched = vstd::slice::slice_to_vec(vstd::slice::slice_subrange(bytes, s, f));
                            let after = vstd::slice::slice_to_vec(vstd::slice::slice_subrange(bytes, f, bytes.len()));
                            let m = TermMatch { before, matched, code: e.code.clone(), after };
                            let ghost mv = m@;
                            proof {
                                assert(mv.before =~= bytes@.take(s as int));
                                assert(mv.after =~= bytes@.skip(f as int));
                            }
                            matches.push(m);
                            proof {
                                assert(match_views(matches@) =~= match_views(matches@.drop_last()).push(mv));
                                assert(match_views(matches@) + term_fired(ev.skip(i + 1), t).0 =~= match_views(
                                    matches@.drop_last(),
                                ) + (seq![mv] + term_fired(ev.skip(i + 1), t).0));
                            }
                        },
                        Ok(None) => {},
                        Err(_) => {
                            proof {
                                assert(term_fired(rest, t) == (Seq::<TermMatchView>::empty(), true));
                                assert(match_views(matches@) + Seq::<TermMatchView>::empty() =~= match_views(matches@));
                            }
                            let echo = matches.len() == 0;
                            return Some(ScreenUpdate { matches, echo, bad_pattern: true });
                        },
                    }
                },
                None => {},
            }
        }
    }
    proof {
        assert(ev.skip(n as int) =~= Seq::<ConfigEntryView>::empty());
        assert(match_views(matches@) + Seq::<TermMatchView>::empty() =~= match_views(matches@));
    }
    let echo = matches.len() == 0;
    Some(ScreenUpdate { matches, echo, bad_pattern: false })
}

} // verus!
