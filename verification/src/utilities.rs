//! Parsing of `ps` listings and line-ending normalisation.
use std::collections::HashMap;
use vstd::prelude::*;
use crate::pattern::{decode_lossy, utf8_lossy};
use crate::text::{
    chars_of, lemma_lines_join, lemma_segments_single, lemma_segments_len, lemma_words_nonempty_words, lemma_words_strip_cr,
    segments, strip_cr, lines, lines_of, parse_i32, parse_i32_spec,
    string_from_chars, views, words, words_of,
};

verus! {

broadcast use vstd::std_specs::hash::group_hash_axioms;

// ---------------------------------------------------------------------
// Device paths
// ---------------------------------------------------------------------

/// The directory that holds the terminal devices, with its trailing slash.
pub open spec fn dev_prefix() -> Seq<char> {
    seq!['/', 'd', 'e', 'v', '/']
}

/// The path of the terminal device `name`, that is `format!("/dev/{}", name)`.
pub fn dev_path(name: &[char]) -> (s: String)
    ensures
        s@ == dev_prefix() + name@,
{
    let mut v: Vec<char> = Vec::new();
    v.push('/');
    v.push('d');
    v.push('e');
    v.push('v');
    v.push('/');
    for i in 0..name.len()
        invariant
            v@ == dev_prefix() + name@.take(i as int),
    {
        v.push(name[i]);
        assert(name@.take(i as int).push(name@[i as int]) =~= name@.take(i + 1));
        assert(dev_prefix() + name@.take(i + 1) =~= (dev_prefix() + name@.take(i as int)).push(name@[i as int]));
    }
    assert(name@.take(name@.len() as int) =~= name@);
    string_from_chars(v.as_slice())
}

// ---------------------------------------------------------------------
// Process table
// ---------------------------------------------------------------------

/// A process of a `ps` listing: its parent and its controlling terminal.
#[derive(Debug)]
pub struct ProcessInfo {
    pub ppid: i32,
    pub tty: String,
}

/// What a [`ProcessInfo`] holds, as plain values.
pub struct ProcessInfoView {
    pub ppid: i32,
    pub tty: Seq<char>,
}

impl View for ProcessInfo {
    type V = ProcessInfoView;

    open spec fn view(&self) -> ProcessInfoView {
        ProcessInfoView { ppid: self.ppid, tty: self.tty@ }
    }
}

/// The row that a line of `ps -o pid,ppid,tty` gives: its first two
/// words read as a process id and a parent process id, and a third word
/// that names the terminal, below `/dev/`.  A line without these gives
/// nothing.
pub open spec fn ps_row(line: Seq<char>) -> Option<(i32, ProcessInfoView)> {
    let w = words(line);
    if w.len() >= 3 && parse_i32_spec(w[0]) is Some && parse_i32_spec(w[1]) is Some {
        Some(
            (
                parse_i32_spec(w[0])->0,
                ProcessInfoView { ppid: parse_i32_spec(w[1])->0, tty: dev_prefix() + w[2] },
            ),
        )
    } else {
        None
    }
}

/// The process table of the given lines: each row is entered under its
/// process id, and a later row replaces an earlier one with the same id.
pub open spec fn ps_table(lines: Seq<Seq<char>>) -> Map<i32, ProcessInfoView>
    decreases lines.len(),
{
    if lines.len() == 0 {
        Map::empty()
    } else {
        let m = ps_table(lines.drop_last());
        match ps_row(lines.last()) {
            Some((pid, info)) => m.insert(pid, info),
            None => m,
        }
    }
}

/// Whether `line` describes a process: its first two words are integers
/// and it has a third word.
pub open spec fn describes_process(line: Seq<char>) -> bool {
    &&& words(line).len() >= 3
    &&& parse_i32_spec(words(line)[0]) is Some
    &&& parse_i32_spec(words(line)[1]) is Some
}

/// The process id that such a line gives: its first word.
pub open spec fn line_pid(line: Seq<char>) -> i32 {
    parse_i32_spec(words(line)[0])->0
}

/// Whether some line of `ls` describes process `pid`.
pub open spec fn lists_pid(ls: Seq<Seq<char>>, pid: i32) -> bool {
    exists|i: int| 0 <= i < ls.len() && #[trigger] describes_process(ls[i]) && line_pid(ls[i]) == pid
}

/// The process table holds exactly the processes that some line
/// describes, and each holds what the last line that describes it says:
/// its second word as the parent, and `/dev/` followed by its whole third
/// word as the terminal.
pub proof fn lemma_ps_table_from_lines(ls: Seq<Seq<char>>)
    ensures
        forall|pid: i32| #[trigger] ps_table(ls).contains_key(pid) <==> lists_pid(ls, pid),
        forall|i: int|
            0 <= i < ls.len() && #[trigger] describes_process(ls[i]) && (forall|j: int|
                i < j < ls.len() && #[trigger] describes_process(ls[j]) ==> line_pid(ls[j]) != line_pid(ls[i]))
                ==> ps_table(ls)[line_pid(ls[i])] == (ProcessInfoView {
                ppid: parse_i32_spec(words(ls[i])[1])->0,
                tty: dev_prefix() + words(ls[i])[2],
            }),
    decreases ls.len(),
{
    if ls.len() == 0 {
        assert(ps_table(ls) == Map::<i32, ProcessInfoView>::empty());
    } else {
        let d = ls.drop_last();
        let n = ls.len() - 1;
        lemma_ps_table_from_lines(d);
        let l = ls[n];
        assert(ls.last() == l);
        assert forall|pid: i32| #[trigger] ps_table(ls).contains_key(pid) <==> lists_pid(ls, pid) by {
            if describes_process(l) {
                assert(ps_table(ls) == ps_table(d).insert(line_pid(l), (ps_row(l)->0).1));
            } else {
                assert(ps_table(ls) == ps_table(d));
            }
            if ps_table(d).contains_key(pid) {
                let i = choose|i: int| 0 <= i < d.len() && #[trigger] describes_process(d[i]) && line_pid(d[i]) == pid;
                assert(ls[i] == d[i]);
            }
            if lists_pid(ls, pid) {
                let i = choose|i: int| 0 <= i < ls.len() && #[trigger] describes_process(ls[i]) && line_pid(ls[i]) == pid;
                if i < n {
                    assert(d[i] == ls[i]);
                    assert(lists_pid(d, pid));
                }
            }
            if describes_process(l) && line_pid(l) == pid {
                assert(lists_pid(ls, pid));
            }
        }
        assert forall|i: int|
            0 <= i < ls.len() && #[trigger] describes_process(ls[i]) && (forall|j: int|
                i < j < ls.len() && #[trigger] describes_process(ls[j]) ==> line_pid(ls[j]) != line_pid(ls[i]))
                implies ps_table(ls)[line_pid(ls[i])] == (ProcessInfoView {
                ppid: parse_i32_spec(words(ls[i])[1])->0,
                tty: dev_prefix() + words(ls[i])[2],
            }) by {
            if i == n {
                assert(ps_table(ls) == ps_table(d).insert(line_pid(l), (ps_row(l)->0).1));
            } else {
                assert(d[i] == ls[i]);
                assert forall|j: int| i < j < d.len() && #[trigger] describes_process(d[j]) implies line_pid(d[j]) != line_pid(d[i]) by {
                    assert(d[j] == ls[j]);
                }
                if describes_process(l) {
                    assert(line_pid(l) != line_pid(ls[i]));
                    assert(ps_table(ls) == ps_table(d).insert(line_pid(l), (ps_row(l)->0).1));
                } else {
                    assert(ps_table(ls) == ps_table(d));
                }
            }
        }
    }
}

/// Every terminal of the process table is a device path: `/dev/` followed
/// by a non-empty name.
pub proof fn lemma_ps_table_devices(lines: Seq<Seq<char>>)
    ensures
        forall|pid: i32| #[trigger] ps_table(lines).contains_key(pid) ==> {
            let tty = ps_table(lines)[pid].tty;
            &&& tty.len() > dev_prefix().len()
            &&& tty.take(dev_prefix().len() as int) == dev_prefix()
        },
    decreases lines.len(),
{
    if lines.len() == 0 {
        assert(ps_table(lines) == Map::<i32, ProcessInfoView>::empty());
    } else {
        lemma_ps_table_devices(lines.drop_last());
        match ps_row(lines.last()) {
            Some((p, info)) => {
                let w = words(lines.last());
                lemma_words_nonempty_words(lines.last());
                assert(w[2].len() > 0);
                assert(info.tty.take(5) =~= dev_prefix());
                let m = ps_table(lines.drop_last());
                assert(ps_table(lines) == m.insert(p, info));
                assert forall|pid: i32| #[trigger] ps_table(lines).contains_key(pid) implies ({
                    let tty = ps_table(lines)[pid].tty;
                    &&& tty.len() > dev_prefix().len()
                    &&& tty.take(dev_prefix().len() as int) == dev_prefix()
                }) by {
                    if pid != p {
                        assert(m.contains_key(pid));
                    }
                }
            },
            None => {
                assert(ps_table(lines) == ps_table(lines.drop_last()));
            },
        }
    }
}

/// The table of consecutive lines is that of the first ones, updated by
/// that of the later ones.
proof fn lemma_ps_table_concat(l1: Seq<Seq<char>>, l2: Seq<Seq<char>>)
    ensures
        ps_table(l1 + l2) == ps_table(l1).union_prefer_right(ps_table(l2)),
    decreases l2.len(),
{
    if l2.len() == 0 {
        assert(l1 + l2 =~= l1);
        assert(ps_table(l2) == Map::<i32, ProcessInfoView>::empty());
        assert(ps_table(l1).union_prefer_right(ps_table(l2)) =~= ps_table(l1));
    } else {
        let lp = l2.drop_last();
        lemma_ps_table_concat(l1, lp);
        assert((l1 + l2).drop_last() =~= l1 + lp);
        assert((l1 + l2).last() == l2.last());
        match ps_row(l2.last()) {
            Some((pid, info)) => {
                assert(ps_table(l1 + l2) =~= ps_table(l1).union_prefer_right(ps_table(l2)));
            },
            None => {},
        }
    }
}

/// A line gives the same row without its trailing carriage return.
proof fn lemma_ps_row_strip_cr(l: Seq<char>)
    ensures
        ps_row(strip_cr(l)) == ps_row(l),
{
    lemma_words_strip_cr(l);
}

/// The table of two `ps` listings joined by a newline is the union of
/// their tables, where the second listing wins for a process that both
/// list.
pub proof fn lemma_ps_tables_join(a: Seq<char>, b: Seq<char>)
    ensures
        ps_table(lines(a + seq!['\n'] + b)) == ps_table(lines(a)).union_prefer_right(ps_table(lines(b))),
{
    lemma_lines_join(a, b);
    let sa = segments(a);
    lemma_segments_len(a);
    let f = |l: Seq<char>| strip_cr(l);
    let x = sa.map_values(f);
    lemma_ps_table_concat(x, lines(b));
    // The first text's pieces give the same table as its lines.
    let d = sa.drop_last().map_values(f);
    assert(x =~= d.push(strip_cr(sa.last())));
    assert(x.drop_last() =~= d);
    lemma_ps_row_strip_cr(sa.last());
    if sa.last().len() == 0 {
        assert(words(sa.last()) =~= Seq::<Seq<char>>::empty());
        assert(lines(a) == d);
        assert(ps_table(x) == ps_table(d));
    } else {
        assert(lines(a) == d.push(sa.last()));
        assert(lines(a).drop_last() =~= d);
        assert(ps_table(x) == ps_table(lines(a)));
    }
}

/// The views of a table of processes.
pub open spec fn table_view(m: Map<i32, ProcessInfo>) -> Map<i32, ProcessInfoView> {
    m.map_values(|p: ProcessInfo| p@)
}

/// Parses the output of `ps -o pid,ppid,tty` into a table from process id
/// to parent id and terminal device; lines that do not describe a process,
/// such as the header, are skipped.
pub fn parse_ps_output(input: &str) -> (r: HashMap<i32, ProcessInfo>)
    ensures
        table_view(r@) == ps_table(lines(input@)),
{
    let chars = chars_of(input);
    let ls = lines_of(chars.as_slice());
    let ghost lv = views(ls@);
    let mut process_map: HashMap<i32, ProcessInfo> = HashMap::new();
    assert(table_view(process_map@) =~= ps_table(lv.take(0)));
    for i in 0..ls.len()
        invariant
            lv == views(ls@),
            table_view(process_map@) == ps_table(lv.take(i as int)),
    {
        let columns = words_of(ls[i].as_slice());
        let ghost line = lv[i as int];
        proof {
            assert(lv.take(i + 1).drop_last() =~= lv.take(i as int));
            assert(lv.take(i + 1).last() == line);
            assert(line == ls@[i as int]@);
        }
        if columns.len() >= 3 {
            let pid = parse_i32(columns[0].as_slice());
            let ppid = parse_i32(columns[1].as_slice());
            proof {
                assert(views(columns@)[0] == columns@[0]@);
                assert(views(columns@)[1] == columns@[1]@);
                assert(views(columns@)[2] == columns@[2]@);
            }
            match (pid, ppid) {
                (Some(pid), Some(ppid)) => {
                    let tty = dev_path(columns[2].as_slice());
                    let info = ProcessInfo { ppid, tty };
                    let ghost before = process_map@;
                    process_map.insert(pid, info);
                    assert(table_view(process_map@) =~= table_view(before).insert(pid, info@));
                },
                _ => {},
            }
        }
    }
    assert(lv.take(lv.len() as int) =~= lv);
    process_map
}

// ---------------------------------------------------------------------
// Output of a command
// ---------------------------------------------------------------------

/// What a command's captured standard output stands for as text: the
/// output, decoded as UTF-8 with U+FFFD for invalid sequences, when the
/// command succeeded; the empty string when it failed.
pub fn command_output(succeeded: bool, stdout: &[u8]) -> (s: String)
    ensures
        succeeded ==> s@ == utf8_lossy(stdout@),
        !succeeded ==> s@ == Seq::<char>::empty(),
{
    if succeeded {
        decode_lossy(stdout)
    } else {
        String::new()
    }
}

// ---------------------------------------------------------------------
// Terminal of a child process
// ---------------------------------------------------------------------

/// The terminal device named by the output of `ps -o tty -p <pid>`: the
/// last line under the header, below `/dev/`; empty when there is no such
/// line.
pub open spec fn child_tty(output: Seq<char>) -> Seq<char> {
    let ls = lines(output);
    if ls.len() >= 2 {
        dev_prefix() + ls.last()
    } else {
        Seq::empty()
    }
}

/// Whatever comes before, a last line (non-empty, without a newline)
/// after a newline names the terminal: the result is `/dev/` followed by
/// that whole line.
pub proof fn lemma_child_tty_last_line(out: Seq<char>, x: Seq<char>)
    requires
        x.len() > 0,
        !x.contains('\n'),
    ensures
        child_tty(out + seq!['\n'] + x) == dev_prefix() + x,
{
    lemma_lines_join(out, x);
    lemma_segments_len(out);
    lemma_segments_single(x);
    assert(lines(x) =~= seq![x]);
    let f = |l: Seq<char>| strip_cr(l);
    let ls = lines(out + seq!['\n'] + x);
    assert(ls == segments(out).map_values(f) + seq![x]);
    assert(ls.len() >= 2);
    assert(ls.last() == x);
}

/// Reads the terminal device of a process from the output of
/// `ps -o tty -p <pid>`, e.g. `"/dev/pts/1"`.
#[allow(non_snake_case)]
pub fn get_child_TTY(ps_output: &str) -> (r: String)
    ensures
        r@ == child_tty(ps_output@),
{
    let chars = chars_of(ps_output);
    let ls = lines_of(chars.as_slice());
    let n = ls.len();
    proof {
        if n >= 1 {
            assert(views(ls@)[n - 1] == ls@[n - 1]@);
        }
    }
    if n >= 2 {
        dev_path(ls[n - 1].as_slice())
    } else {
        String::new()
    }
}

// ---------------------------------------------------------------------
// Line endings
// ---------------------------------------------------------------------

/// Whether `s` ends with `suffix`.
pub open spec fn ends_with(s: Seq<char>, suffix: Seq<char>) -> bool {
    s.len() >= suffix.len() && s.skip(s.len() - suffix.len()) == suffix
}

/// `s` with every occurrence of the non-empty `pat` replaced by `rep`,
/// occurrences being taken from left to right without overlap, as
/// `str::replace` does.
pub open spec fn replace_all(s: Seq<char>, pat: Seq<char>, rep: Seq<char>) -> Seq<char>
    decreases s.len(),
{
    if pat.len() == 0 || s.len() < pat.len() {
        s
    } else if s.take(pat.len() as int) == pat {
        rep + replace_all(s.skip(pat.len() as int), pat, rep)
    } else {
        seq![s[0]] + replace_all(s.skip(1), pat, rep)
    }
}

pub open spec fn crlf() -> Seq<char> {
    seq!['\r', '\n']
}

pub open spec fn lfcr() -> Seq<char> {
    seq!['\n', '\r']
}

/// `s` made to end with `\r\n`: when it ends with another line ending
/// (`\n\r`, `\r` or `\n`), every occurrence of that ending in `s` becomes
/// `\r\n`; other strings stay as they are.
pub open spec fn crlf_terminated(s: Seq<char>) -> Seq<char> {
    if ends_with(s, crlf()) {
        s
    } else if ends_with(s, lfcr()) {
        replace_all(s, lfcr(), crlf())
    } else if ends_with(s, seq!['\r']) {
        replace_all(s, seq!['\r'], crlf())
    } else if ends_with(s, seq!['\n']) {
        replace_all(s, seq!['\n'], crlf())
    } else {
        s
    }
}

/// Whether the characters of `s` from `i` on start with `pat`.
fn matches_at(s: &[char], i: usize, pat: &[char]) -> (b: bool)
    requires
        i <= s@.len(),
    ensures
        b == (s@.len() - i >= pat@.len() && s@.skip(i as int).take(pat@.len() as int) == pat@),
{
    let plen = pat.len();
    let slen = s.len();
    if slen - i < plen {
        return false;
    }
    for j in 0..plen
        invariant
            plen == pat@.len(),
            slen == s@.len(),
            i + plen <= slen,
            i + pat@.len() <= s@.len(),
            forall|k: int| 0 <= k < j ==> s@[i + k] == pat@[k],
    {
        if s[i + j] != pat[j] {
            assert(s@.skip(i as int).take(pat@.len() as int)[j as int] != pat@[j as int]);
            return false;
        }
    }
    assert(s@.skip(i as int).take(pat@.len() as int) =~= pat@);
    true
}

/// `s` with every occurrence of `pat` replaced by `rep`.
pub fn replace_all_chars(s: &[char], pat: &[char], rep: &[char]) -> (r: Vec<char>)
    requires
        pat@.len() > 0,
    ensures
        r@ == replace_all(s@, pat@, rep@),
{
    let mut out: Vec<char> = Vec::new();
    let mut i: usize = 0;
    let n = s.len();
    assert(s@.skip(0) =~= s@);
    while i < n
        invariant
            i <= n,
            n == s@.len(),
            pat@.len() > 0,
            out@ + replace_all(s@.skip(i as int), pat@, rep@) == replace_all(s@, pat@, rep@),
        decreases n - i,
    {
        let ghost rest = s@.skip(i as int);
        if matches_at(s, i, pat) {
            assert(rest.take(pat@.len() as int) == pat@);
            assert(rest.skip(pat@.len() as int) =~= s@.skip(i + pat@.len()));
            let ghost out0 = out@;
            append_chars(&mut out, rep);
            i = i + pat.len();
        } else {
            assert(rest.skip(1) =~= s@.skip(i + 1));
            out.push(s[i]);
            i = i + 1;
        }
    }
    out
}

/// Appends the characters of `more` to `out`.
fn append_chars(out: &mut Vec<char>, more: &[char])
    ensures
        final(out)@ == old(out)@ + more@,
{
    let ghost start = out@;
    for k in 0..more.len()
        invariant
            out@ == start + more@.take(k as int),
    {
        out.push(more[k]);
        assert(more@.take(k as int).push(more@[k as int]) =~= more@.take(k + 1));
    }
    assert(more@.take(more@.len() as int) =~= more@);
}

/// Whether the characters `s` end with `suffix`.
fn ends_with_chars(s: &[char], suffix: &[char]) -> (b: bool)
    ensures
        b == ends_with(s@, suffix@),
{
    if s.len() < suffix.len() {
        return false;
    }
    let start = s.len() - suffix.len();
    let b = matches_at(s, start, suffix);
    assert(s@.skip(start as int).take(suffix@.len() as int) =~= s@.skip(start as int));
    b
}

/// Makes `s` end with a carriage return and a line feed, as a terminal
/// echoes a line: a string that ends with `\n\r`, `\r` or `\n` has every
/// occurrence of that ending turned into `\r\n`; any other string is
/// returned as it is.
pub fn ensure_terminates_with_crlf(s: String) -> (r: String)
    ensures
        r@ == crlf_terminated(s@),
{
    let chars = chars_of(s.as_str());
    let mut cr_lf: Vec<char> = Vec::new();
    cr_lf.push('\r');
    cr_lf.push('\n');
    let mut lf_cr: Vec<char> = Vec::new();
    lf_cr.push('\n');
    lf_cr.push('\r');
    let mut cr: Vec<char> = Vec::new();
    cr.push('\r');
    let mut lf: Vec<char> = Vec::new();
    lf.push('\n');
    assert(cr_lf@ =~= crlf());
    assert(lf_cr@ =~= lfcr());
    assert(cr@ =~= seq!['\r']);
    assert(lf@ =~= seq!['\n']);
    if ends_with_chars(chars.as_slice(), cr_lf.as_slice()) {
        s
    } else if ends_with_chars(chars.as_slice(), lf_cr.as_slice()) {
        string_from_chars(replace_all_chars(chars.as_slice(), lf_cr.as_slice(), cr_lf.as_slice()).as_slice())
    } else if ends_with_chars(chars.as_slice(), cr.as_slice()) {
        string_from_chars(replace_all_chars(chars.as_slice(), cr.as_slice(), cr_lf.as_slice()).as_slice())
    } else if ends_with_chars(chars.as_slice(), lf.as_slice()) {
        string_from_chars(replace_all_chars(chars.as_slice(), lf.as_slice(), cr_lf.as_slice()).as_slice())
    } else {
        s
    }
}

/// Replacing a pattern that cannot overlap itself, in a string that ends
/// with it, ends with the replacement.
proof fn lemma_replace_all_suffix(a: Seq<char>, p: Seq<char>, r: Seq<char>)
    requires
        p.len() == 1 || (p.len() == 2 && p[0] != p[1]),
    ensures
        replace_all(a + p, p, r) == replace_all(a, p, r) + r,
    decreases a.len(),
{
    let s = a + p;
    let plen = p.len() as int;
    if a.len() == 0 {
        assert(s =~= p);
        assert(s.take(plen) =~= p);
        assert(s.skip(plen).len() == 0);
        assert(replace_all(s.skip(plen), p, r) == s.skip(plen));
        assert(replace_all(a, p, r) =~= a);
        assert(replace_all(s, p, r) =~= r + s.skip(plen));
        assert(replace_all(s, p, r) =~= replace_all(a, p, r) + r);
    } else if s.take(plen) == p {
        if a.len() >= plen {
            assert(a.take(plen) =~= s.take(plen));
            assert(s.skip(plen) =~= a.skip(plen) + p);
            lemma_replace_all_suffix(a.skip(plen), p, r);
            assert(replace_all(s, p, r) =~= replace_all(a, p, r) + r);
        } else {
            assert(s.take(plen)[0] == a[0]);
            assert(s.take(plen)[1] == p[0]);
            assert(false);
        }
    } else {
        assert(s.skip(1) =~= a.skip(1) + p);
        lemma_replace_all_suffix(a.skip(1), p, r);
        if a.len() < plen {
            assert(replace_all(a.skip(1), p, r) == a.skip(1));
            assert(seq![a[0]] + a.skip(1) =~= a);
        } else {
            assert(a.take(plen) =~= s.take(plen));
        }
        assert(replace_all(s, p, r) =~= replace_all(a, p, r) + r);
    }
}

/// A string that ends with a line ending comes out ending with `\r\n`.
pub proof fn lemma_crlf_terminated_ends_with_crlf(s: Seq<char>)
    requires
        s.len() > 0,
        s.last() == '\r' || s.last() == '\n',
    ensures
        ends_with(crlf_terminated(s), crlf()),
{
    let n = s.len() as int;
    if ends_with(s, crlf()) {
    } else if ends_with(s, lfcr()) {
        let a = s.take(n - 2);
        assert(s =~= a + lfcr());
        lemma_replace_all_suffix(a, lfcr(), crlf());
        let t = replace_all(a, lfcr(), crlf()) + crlf();
        assert(t.skip(t.len() - 2) =~= crlf());
    } else if s.last() == '\r' {
        assert(s.skip(n - 1) =~= seq!['\r']);
        let a = s.take(n - 1);
        assert(s =~= a + seq!['\r']);
        lemma_replace_all_suffix(a, seq!['\r'], crlf());
        let t = replace_all(a, seq!['\r'], crlf()) + crlf();
        assert(t.skip(t.len() - 2) =~= crlf());
    } else {
        assert(s.skip(n - 1) =~= seq!['\n']);
        assert(s.skip(n - 1)[0] == s.last());
        let a = s.take(n - 1);
        assert(s =~= a + seq!['\n']);
        lemma_replace_all_suffix(a, seq!['\n'], crlf());
        let t = replace_all(a, seq!['\n'], crlf()) + crlf();
        assert(t.skip(t.len() - 2) =~= crlf());
    }
}

/// A string that does not end with `\r` or `\n` is left as it is.
pub proof fn lemma_crlf_terminated_keeps_other_strings(s: Seq<char>)
    requires
        !(s.len() > 0 && (s.last() == '\r' || s.last() == '\n')),
    ensures
        crlf_terminated(s) == s,
{
    if s.len() > 0 {
        let n = s.len() as int;
        assert(s.skip(n - 1)[0] == s.last());
        assert(!ends_with(s, seq!['\r']));
        assert(!ends_with(s, seq!['\n']));
        if n >= 2 {
            assert(s.skip(n - 2)[1] == s.last());
        }
        assert(!ends_with(s, crlf()));
        assert(!ends_with(s, lfcr()));
    }
}

/// Making a string end with `\r\n` twice is the same as doing it once.
pub proof fn lemma_crlf_terminated_idempotent(s: Seq<char>)
    ensures
        crlf_terminated(crlf_terminated(s)) == crlf_terminated(s),
{
    if s.len() > 0 && (s.last() == '\r' || s.last() == '\n') {
        lemma_crlf_terminated_ends_with_crlf(s);
    } else {
        lemma_crlf_terminated_keeps_other_strings(s);
        lemma_crlf_terminated_keeps_other_strings(s);
    }
}

} // verus!
