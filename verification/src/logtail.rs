//! Following Steam's game process log as it grows: where the next read
//! resumes, how far the complete lines of a read reach, how they split into
//! lines, and which games the tail of the log shows as still running.

use vstd::prelude::*;
use crate::playtime::{is_char, parse_gameprocess_line, parsed_event, EventKind, EventView, GameProcessEvent};
use crate::text::{chars_of, contains_text, first_where, has_infix, lemma_first_where_found, lemma_first_where_none, string_from_chars, text_eq};

verus! {

// ------------------------------------------------------------- read position

/// The read position stored with the playtime data: the device and inode of
/// the log it was taken from, and the byte offset reached. A field the
/// stored record lacks is absent.
pub struct LogSource {
    pub device: Option<u64>,
    pub inode: Option<u64>,
    pub offset: Option<u64>,
}

/// Where the next read of the log starts.
#[derive(Clone, Copy)]
pub struct TailStart {
    pub offset: u64,
    /// The stored position belongs to the file that is there now.
    pub same_file: bool,
}

/// A stored field, `u64::MAX` when it is missing.
pub open spec fn stored_or_max(v: Option<u64>) -> u64 {
    match v {
        Some(x) => x,
        None => u64::MAX,
    }
}

pub open spec fn is_same_file(stored: LogSource, device: u64, inode: u64) -> bool {
    stored_or_max(stored.device) == device && stored_or_max(stored.inode) == inode
}

/// The stored offset for the same file, unless the file is now shorter;
/// the start of the file otherwise.
pub open spec fn resume_offset(stored: LogSource, same_file: bool, len: u64) -> u64 {
    if same_file {
        match stored.offset {
            Some(o) => if o <= len { o } else { 0 },
            None => 0,
        }
    } else {
        0
    }
}

/// Where to resume reading a log of `len` bytes identified by `device` and
/// `inode`, given the stored position.
pub fn tail_start(stored: &LogSource, device: u64, inode: u64, len: u64) -> (start: TailStart)
    ensures
        start.same_file == is_same_file(*stored, device, inode),
        start.offset == resume_offset(*stored, start.same_file, len),
        start.offset <= len,
{
    let stored_device = match stored.device {
        Some(d) => d,
        None => u64::MAX,
    };
    let stored_inode = match stored.inode {
        Some(i) => i,
        None => u64::MAX,
    };
    let same_file = stored_device == device && stored_inode == inode;
    let offset = if same_file {
        match stored.offset {
            Some(o) => if o <= len { o } else { 0 },
            None => 0,
        }
    } else {
        0
    };
    TailStart { offset, same_file }
}

/// Length of the part of `bytes` that ends with its last line feed; zero
/// when there is none.
pub open spec fn complete_len(bytes: Seq<u8>) -> nat
    decreases bytes.len(),
{
    if bytes.len() == 0 {
        0
    } else if bytes.last() == 10u8 {
        bytes.len()
    } else {
        complete_len(bytes.drop_last())
    }
}

proof fn lemma_complete_len(bytes: Seq<u8>, n: int)
    requires
        0 <= n <= bytes.len(),
        n > 0 ==> bytes[n - 1] == 10u8,
        forall|j: int| n <= j < bytes.len() ==> bytes[j] != 10u8,
    ensures
        complete_len(bytes) == n,
    decreases bytes.len(),
{
    if bytes.len() > n {
        lemma_complete_len(bytes.drop_last(), n);
    }
}

/// What one read of the log yields.
pub struct TailStep {
    /// Length of the complete lines read: they end with the last line feed.
    pub consumed: usize,
    /// The offset to store with the log's device and inode; none when the
    /// stored position stays as it is.
    pub stored_offset: Option<u64>,
    /// The stored position changes.
    pub changed: bool,
}

/// The outcome of reading `bytes` from `start`, the stored offset being
/// `stored_offset`: complete lines move the position past them; a read
/// without a line feed only moves it to `start` when the file is another
/// one.
pub fn tail_step(stored_offset: Option<u64>, start: TailStart, bytes: &[u8]) -> (step: TailStep)
    requires
        start.offset + bytes@.len() <= u64::MAX,
    ensures
        step.consumed == complete_len(bytes@),
        step.consumed <= bytes@.len(),
        complete_len(bytes@) > 0 ==> {
            &&& step.stored_offset == Some((start.offset + complete_len(bytes@)) as u64)
            &&& step.changed == (!start.same_file || stored_offset != step.stored_offset)
        },
        complete_len(bytes@) == 0 ==> {
            &&& step.changed == !start.same_file
            &&& step.stored_offset == (if start.same_file { None } else { Some(start.offset) })
        },
{
    let mut end: usize = bytes.len();
    while end > 0 && bytes[end - 1] != 10u8
        invariant
            end <= bytes@.len(),
            forall|j: int| end <= j < bytes@.len() ==> bytes@[j] != 10u8,
        decreases end,
    {
        end -= 1;
    }
    proof {
        lemma_complete_len(bytes@, end as int);
    }
    if end > 0 {
        let new_offset = start.offset + end as u64;
        let differs = match stored_offset {
            Some(o) => o != new_offset,
            None => true,
        };
        TailStep { consumed: end, stored_offset: Some(new_offset), changed: !start.same_file || differs }
    } else {
        TailStep {
            consumed: 0,
            stored_offset: if start.same_file { None } else { Some(start.offset) },
            changed: !start.same_file,
        }
    }
}

// ------------------------------------------------------------------- lines

/// The pieces of `s` between line feeds, the last one after the last line
/// feed (empty when `s` ends with one).
pub open spec fn pieces(s: Seq<char>) -> Seq<Seq<char>>
    decreases s.len(),
{
    match first_where(s, is_char('\n')) {
        Some(i) => if 0 <= i < s.len() {
            seq![s.take(i)] + pieces(s.skip(i + 1))
        } else {
            seq![s]
        },
        None => seq![s],
    }
}

/// The non-empty texts among `p`, in order.
pub open spec fn non_empty(p: Seq<Seq<char>>) -> Seq<Seq<char>>
    decreases p.len(),
{
    if p.len() == 0 {
        p
    } else if p.last().len() == 0 {
        non_empty(p.drop_last())
    } else {
        non_empty(p.drop_last()).push(p.last())
    }
}

pub open spec fn text_views(v: Seq<String>) -> Seq<Seq<char>> {
    v.map_values(|l: String| l@)
}

proof fn lemma_piece_at_feed(s: Seq<char>, start: int, k: int)
    requires
        0 <= start <= k < s.len(),
        s[k] == '\n',
        forall|j: int| start <= j < k ==> s[j] != '\n',
    ensures
        pieces(s.skip(start)) == seq![s.subrange(start, k)] + pieces(s.skip(k + 1)),
{
    let t = s.skip(start);
    assert forall|j: int| 0 <= j < k - start implies !is_char('\n')(#[trigger] t[j]) by {
        assert(t[j] == s[start + j]);
    }
    lemma_first_where_found(t, is_char('\n'), k - start);
    assert(t.take(k - start) =~= s.subrange(start, k));
    assert(t.skip(k - start + 1) =~= s.skip(k + 1));
}

proof fn lemma_last_piece(s: Seq<char>, start: int)
    requires
        0 <= start <= s.len(),
        forall|j: int| start <= j < s.len() ==> s[j] != '\n',
    ensures
        pieces(s.skip(start)) == seq![s.skip(start)],
{
    let t = s.skip(start);
    assert forall|j: int| 0 <= j < t.len() implies !is_char('\n')(#[trigger] t[j]) by {
        assert(t[j] == s[start + j]);
    }
    lemma_first_where_none(t, is_char('\n'));
}

proof fn lemma_pieces_not_empty(s: Seq<char>)
    ensures
        pieces(s).len() > 0,
    decreases s.len(),
{
    match first_where(s, is_char('\n')) {
        Some(i) => if 0 <= i < s.len() {
            lemma_pieces_not_empty(s.skip(i + 1));
        },
        None => {},
    }
}

/// The pieces of `chars` between line feeds.
fn pieces_of(chars: &Vec<char>) -> (result: Vec<String>)
    ensures
        text_views(result@) == pieces(chars@),
{
    let ghost s = chars@;
    let n = chars.len();
    let mut result: Vec<String> = Vec::new();
    let mut current: Vec<char> = Vec::new();
    let mut start: usize = 0;
    let mut k: usize = 0;
    proof {
        assert(s.skip(0) =~= s);
        assert(text_views(result@) =~= seq![]);
    }
    while k < n
        invariant
            n == chars@.len(),
            s == chars@,
            start <= k <= n,
            current@ == s.subrange(start as int, k as int),
            forall|j: int| start <= j < k ==> s[j] != '\n',
            pieces(s) == text_views(result@) + pieces(s.skip(start as int)),
        decreases n - k,
    {
        if chars[k] == '\n' {
            proof {
                lemma_piece_at_feed(s, start as int, k as int);
            }
            let line = string_from_chars(current.as_slice());
            let ghost before = result@;
            result.push(line);
            proof {
                assert(text_views(result@) =~= text_views(before).push(s.subrange(start as int, k as int)));
                assert(text_views(result@) + pieces(s.skip(k + 1)) =~= text_views(before) + (seq![
                    s.subrange(start as int, k as int),
                ] + pieces(s.skip(k + 1))));
            }
            current = Vec::new();
            start = k + 1;
            k += 1;
            proof {
                assert(current@ =~= s.subrange(start as int, k as int));
            }
        } else {
            current.push(chars[k]);
            k += 1;
            proof {
                assert(current@ =~= s.subrange(start as int, k as int));
            }
        }
    }
    proof {
        lemma_last_piece(s, start as int);
        assert(current@ =~= s.skip(start as int));
    }
    let last = string_from_chars(current.as_slice());
    let ghost before = result@;
    result.push(last);
    proof {
        assert(text_views(result@) =~= text_views(before).push(s.skip(start as int)));
        assert(text_views(before) + seq![s.skip(start as int)] =~= text_views(before).push(s.skip(start as int)));
    }
    result
}

/// The complete lines of `pending` followed by `complete`, blank ones left
/// out, and what follows the last line feed, to be completed by the next read.
pub fn split_lines(pending: &str, complete: &str) -> (result: (Vec<String>, String))
    ensures
        text_views(result.0@) == non_empty(pieces(pending@ + complete@).drop_last()),
        result.1@ == pieces(pending@ + complete@).last(),
{
    let mut chars = chars_of(pending);
    let tail = chars_of(complete);
    let mut i: usize = 0;
    let ghost head = chars@;
    while i < tail.len()
        invariant
            head == pending@,
            tail@ == complete@,
            i <= tail@.len(),
            chars@ == head + tail@.take(i as int),
        decreases tail@.len() - i,
    {
        chars.push(tail[i]);
        i += 1;
        proof {
            assert(chars@ =~= head + tail@.take(i as int));
        }
    }
    proof {
        assert(chars@ =~= pending@ + complete@);
    }
    let mut all = pieces_of(&chars);
    let ghost p = text_views(all@);
    proof {
        lemma_pieces_not_empty(chars@);
    }
    let rest = match all.pop() {
        Some(last) => last,
        None => String::new(),
    };
    proof {
        assert(text_views(all@) =~= p.drop_last());
    }
    let ghost q = p.drop_last();
    let n = all.len();
    let mut lines: Vec<String> = Vec::new();
    let mut k: usize = 0;
    proof {
        assert(q.take(0) =~= seq![]);
    }
    while k < n
        invariant
            n == all@.len(),
            text_views(all@) == q,
            k <= n,
            text_views(lines@) == non_empty(q.take(k as int)),
        decreases n - k,
    {
        proof {
            assert(q.take(k + 1).drop_last() =~= q.take(k as int));
            assert(q.take(k + 1).last() == all@[k as int]@);
        }
        if !all[k].as_str().is_empty() {
            let line = all[k].clone();
            let ghost before = lines@;
            lines.push(line);
            proof {
                assert(text_views(lines@) =~= text_views(before).push(all@[k as int]@));
            }
        }
        k += 1;
    }
    proof {
        assert(q.take(n as int) =~= q);
    }
    (lines, rest)
}

// ------------------------------------------------------------- discovery

/// Position of the first event of `c` for the game `app`.
pub open spec fn position_of(c: Seq<EventView>, app: Seq<char>) -> Option<int>
    decreases c.len(),
{
    if c.len() == 0 {
        None
    } else if c[0].app_id == app {
        Some(0)
    } else {
        match position_of(c.drop_first(), app) {
            Some(i) => Some(i + 1),
            None => None,
        }
    }
}

proof fn lemma_position_of(c: Seq<EventView>, app: Seq<char>, k: int)
    requires
        0 <= k <= c.len(),
        forall|j: int| 0 <= j < k ==> (#[trigger] c[j]).app_id != app,
        k < c.len() ==> c[k].app_id == app,
    ensures
        position_of(c, app) == (if k < c.len() { Some(k) } else { None::<int> }),
    decreases c.len(),
{
    if c.len() > 0 && k > 0 {
        assert(c[0].app_id != app);
        assert forall|j: int| 0 <= j < k - 1 implies (#[trigger] c.drop_first()[j]).app_id != app by {
            assert(c.drop_first()[j] == c[j + 1]);
        }
        lemma_position_of(c.drop_first(), app, k - 1);
    }
}

proof fn lemma_position_facts(c: Seq<EventView>, app: Seq<char>)
    ensures
        match position_of(c, app) {
            Some(i) => 0 <= i < c.len() && c[i].app_id == app,
            None => forall|j: int| 0 <= j < c.len() ==> (#[trigger] c[j]).app_id != app,
        },
    decreases c.len(),
{
    if c.len() > 0 && c[0].app_id != app {
        lemma_position_facts(c.drop_first(), app);
        assert forall|j: int| 0 < j < c.len() implies c[j] == c.drop_first()[j - 1] by {}
    }
}

/// The candidates after one more log line: a start makes its game a
/// candidate (replacing an earlier start of it), the end of the same
/// process or the game's removal from Steam's running list drop it, and a
/// client restart (`Client version:`) forgets all of them.
pub open spec fn scan_line(c: Seq<EventView>, line: Seq<char>) -> Seq<EventView> {
    match parsed_event(line) {
        None => if has_infix(line, "Client version:"@) {
            seq![]
        } else {
            c
        },
        Some(e) => match e.kind {
            EventKind::Start => match position_of(c, e.app_id) {
                Some(i) => c.update(i, e),
                None => c.push(e),
            },
            EventKind::End => match position_of(c, e.app_id) {
                Some(i) => if c[i].pid == e.pid {
                    c.remove(i)
                } else {
                    c
                },
                None => c,
            },
            EventKind::Remove => match position_of(c, e.app_id) {
                Some(i) => c.remove(i),
                None => c,
            },
        },
    }
}

/// The candidates after all of `lines`, in order.
pub open spec fn scan_lines(lines: Seq<Seq<char>>) -> Seq<EventView>
    decreases lines.len(),
{
    if lines.len() == 0 {
        seq![]
    } else {
        scan_line(scan_lines(lines.drop_last()), lines.last())
    }
}

/// The lines of the tail of the log; the first is left out when the tail
/// starts inside the file, where it may be cut.
pub open spec fn tail_lines(data: Seq<char>, partial_start: bool) -> Seq<Seq<char>> {
    let p = pieces(data);
    if partial_start && p.len() > 0 {
        p.drop_first()
    } else {
        p
    }
}

pub open spec fn event_views(v: Seq<GameProcessEvent>) -> Seq<EventView> {
    v.map_values(|e: GameProcessEvent| e@)
}

fn position_in(c: &Vec<GameProcessEvent>, app: &String) -> (result: Option<usize>)
    ensures
        match position_of(event_views(c@), app@) {
            Some(i) => result == Some(i as usize),
            None => result is None,
        },
{
    let ghost v = event_views(c@);
    let mut k: usize = 0;
    while k < c.len()
        invariant
            v == event_views(c@),
            k <= c@.len(),
            forall|j: int| 0 <= j < k ==> (#[trigger] v[j]).app_id != app@,
        decreases c@.len() - k,
    {
        if text_eq(c[k].app_id.as_str(), app.as_str()) {
            proof {
                lemma_position_of(v, app@, k as int);
            }
            return Some(k);
        }
        k += 1;
    }
    proof {
        lemma_position_of(v, app@, k as int);
    }
    None
}

fn scan_step(c: &mut Vec<GameProcessEvent>, line: &str)
    ensures
        event_views(final(c)@) == scan_line(event_views(old(c)@), line@),
{
    let ghost v = event_views(c@);
    match parse_gameprocess_line(line) {
        None => {
            if contains_text(line, "Client version:") {
                c.clear();
                proof {
                    assert(event_views(c@) =~= seq![]);
                }
            }
        },
        Some(e) => {
            let ghost ev = e@;
            let kind = e.kind;
            let count = c.len();
            let pos = position_in(c, &e.app_id);
            proof {
                lemma_position_facts(v, ev.app_id);
                assert(v.len() == count);
                assert(parsed_event(line@) == Some(ev));
                assert(match position_of(v, ev.app_id) {
                    Some(j) => pos == Some(j as usize),
                    None => pos is None,
                });
            }
            match kind {
                EventKind::Start => match pos {
                    Some(i) => {
                        c.set(i, e);
                        proof {
                            assert(event_views(c@) =~= v.update(i as int, ev));
                        }
                    },
                    None => {
                        c.push(e);
                        proof {
                            assert(event_views(c@) =~= v.push(ev));
                        }
                    },
                },
                EventKind::End => match pos {
                    Some(i) => {
                        let same = match (c[i].pid, e.pid) {
                            (Some(a), Some(b)) => a == b,
                            (None, None) => true,
                            _ => false,
                        };
                        if same {
                            c.remove(i);
                            proof {
                                assert(event_views(c@) =~= v.remove(i as int));
                            }
                        }
                    },
                    None => {},
                },
                EventKind::Remove => match pos {
                    Some(i) => {
                        c.remove(i);
                        proof {
                            assert(event_views(c@) =~= v.remove(i as int));
                        }
                    },
                    None => {},
                },
            }
        },
    }
}

/// The games the tail `data` of the log shows as started and not stopped
/// since, one event per game, in the order their starts were first seen;
/// `partial_start` tells that `data` starts inside the file.
pub fn running_candidates(data: &str, partial_start: bool) -> (result: Vec<GameProcessEvent>)
    ensures
        event_views(result@) == scan_lines(tail_lines(data@, partial_start)),
{
    let chars = chars_of(data);
    let all = pieces_of(&chars);
    let ghost p = text_views(all@);
    proof {
        lemma_pieces_not_empty(data@);
    }
    let first: usize = if partial_start && all.len() > 0 { 1 } else { 0 };
    let ghost lines = tail_lines(data@, partial_start);
    proof {
        assert(lines =~= p.skip(first as int));
    }
    let mut found: Vec<GameProcessEvent> = Vec::new();
    let mut k: usize = first;
    proof {
        assert(lines.take(0) =~= seq![]);
        assert(event_views(found@) =~= seq![]);
    }
    while k < all.len()
        invariant
            p == text_views(all@),
            lines == p.skip(first as int),
            first <= k <= all@.len(),
            event_views(found@) == scan_lines(lines.take(k - first)),
        decreases all@.len() - k,
    {
        proof {
            assert(lines.take(k - first + 1).drop_last() =~= lines.take(k - first));
            assert(lines.take(k - first + 1).last() == all@[k as int]@);
        }
        scan_step(&mut found, all[k].as_str());
        k += 1;
    }
    proof {
        assert(lines.take(k - first) =~= lines);
    }
    found
}

/// Every candidate is the start of a game, and no game is a candidate twice.
pub open spec fn distinct_starts(c: Seq<EventView>) -> bool {
    &&& forall|i: int| 0 <= i < c.len() ==> (#[trigger] c[i]).kind == EventKind::Start
    &&& forall|i: int, j: int| 0 <= i < j < c.len() ==> (#[trigger] c[i]).app_id != (#[trigger] c[j]).app_id
}

/// Whatever the log holds, the games it shows as running are starts, one
/// per game.
pub proof fn law_candidates_are_distinct_starts(lines: Seq<Seq<char>>)
    ensures
        distinct_starts(scan_lines(lines)),
    decreases lines.len(),
{
    if lines.len() > 0 {
        let c = scan_lines(lines.drop_last());
        law_candidates_are_distinct_starts(lines.drop_last());
        lemma_position_facts(c, match parsed_event(lines.last()) { Some(e) => e.app_id, None => seq![] });
        let r = scan_line(c, lines.last());
        match parsed_event(lines.last()) {
            None => {},
            Some(e) => {
                match position_of(c, e.app_id) {
                    Some(p) => {
                        if e.kind == EventKind::End || e.kind == EventKind::Remove {
                            assert forall|i: int, j: int| 0 <= i < j < r.len() implies (#[trigger] r[i]).app_id != (#[trigger] r[j]).app_id by {
                                if r.len() < c.len() {
                                    let a = if i < p { i } else { i + 1 };
                                    let b = if j < p { j } else { j + 1 };
                                    assert(r[i] == c[a]);
                                    assert(r[j] == c[b]);
                                }
                            }
                            assert forall|i: int| 0 <= i < r.len() implies (#[trigger] r[i]).kind == EventKind::Start by {
                                if r.len() < c.len() {
                                    let a = if i < p { i } else { i + 1 };
                                    assert(r[i] == c[a]);
                                }
                            }
                        }
                    },
                    None => {},
                }
            },
        }
    }
}

proof fn lemma_some_feed(s: Seq<char>, j: int)
    requires
        0 <= j < s.len(),
        s[j] == '\n',
    ensures
        first_where(s, is_char('\n')) is Some,
    decreases j,
{
    if exists|k: int| 0 <= k < j && s[k] == '\n' {
        let k = choose|k: int| 0 <= k < j && s[k] == '\n';
        lemma_some_feed(s, k);
    } else {
        lemma_first_where_found(s, is_char('\n'), j);
    }
}

/// The pieces joined again with line feeds between them.
pub open spec fn joined_lines(p: Seq<Seq<char>>) -> Seq<char>
    decreases p.len(),
{
    if p.len() <= 1 {
        if p.len() == 1 { p[0] } else { seq![] }
    } else {
        p[0] + seq!['\n'] + joined_lines(p.drop_first())
    }
}

/// Splitting at line feeds loses nothing: the pieces hold no line feed and
/// joined with line feeds give the text back.
pub proof fn law_pieces_rejoin(s: Seq<char>)
    ensures
        joined_lines(pieces(s)) == s,
        forall|k: int, j: int| 0 <= k < pieces(s).len() && 0 <= j < pieces(s)[k].len() ==> #[trigger] pieces(s)[k][j] != '\n',
    decreases s.len(),
{
    match first_where(s, is_char('\n')) {
        Some(i) => if 0 <= i < s.len() {
            let rest = s.skip(i + 1);
            law_pieces_rejoin(rest);
            lemma_pieces_not_empty(rest);
            let p = pieces(s);
            assert(p == seq![s.take(i)] + pieces(rest));
            assert(p.drop_first() =~= pieces(rest));
            assert(s.take(i) + seq!['\n'] + rest =~= s);
            assert forall|j: int| 0 <= j < i implies s.take(i)[j] != '\n' by {
                assert(!is_char('\n')(s[j]));
            }
            assert forall|k: int, j: int| 0 <= k < p.len() && 0 <= j < p[k].len() implies #[trigger] p[k][j] != '\n' by {
                if k > 0 {
                    assert(p[k] == pieces(rest)[k - 1]);
                }
            }
        } else {
        },
        None => {
            assert forall|j: int| 0 <= j < s.len() implies s[j] != '\n' by {
                if s[j] == '\n' {
                    lemma_some_feed(s, j);
                }
            }
        },
    }
}

} // verus!
