//! Reading Steam's `logs/gameprocess_log.txt`: one line, one game process
//! event. The tracker that turns events into sessions keeps its times in
//! floating point and lives with the application.

use vstd::prelude::*;
use crate::text::{
    chars_of, digits_value, first_non_white, first_where, is_digit, is_white_char, lemma_first_non_white,
    lemma_first_where_found, lemma_first_where_none, parse_integer, parsed_integer, string_from_chars, trim,
    trimmed,
};

verus! {

#[derive(Debug, Clone, Copy, PartialEq, Eq, Structural)]
pub enum EventKind {
    Start,
    End,
    Remove,
}

/// One event of the game process log. `clock_seconds` is the logged wall
/// clock time read as if it were UTC: the log carries no zone, and the
/// offset of this machine is applied by the caller.
#[derive(Debug, Clone, PartialEq, Eq)]
pub struct GameProcessEvent {
    pub kind: EventKind,
    pub clock_seconds: i64,
    pub app_id: String,
    pub pid: Option<u32>,
    pub command: String,
    /// Exit status Steam reported when it stopped tracking the process.
    pub exit_code: Option<i32>,
}

pub struct EventView {
    pub kind: EventKind,
    pub clock_seconds: i64,
    pub app_id: Seq<char>,
    pub pid: Option<u32>,
    pub command: Seq<char>,
    pub exit_code: Option<i32>,
}

impl View for GameProcessEvent {
    type V = EventView;

    open spec fn view(&self) -> EventView {
        EventView {
            kind: self.kind,
            clock_seconds: self.clock_seconds,
            app_id: self.app_id@,
            pid: self.pid,
            command: self.command@,
            exit_code: self.exit_code,
        }
    }
}

/// `PrimitiveDateTime::parse` with the format
/// `[year]-[month]-[day] [hour]:[minute]:[second]`, read as UTC and given
/// as seconds since the Unix epoch; nothing when the text is not such a time.
pub uninterp spec fn log_clock(text: Seq<char>) -> Option<i64>;

/// `time::PrimitiveDateTime::parse` of a log time stamp, converted to unix
/// seconds as if the time were UTC; the result is named, not stated.
#[verifier::external_body]
fn parse_log_clock(text: &str) -> (result: Option<i64>)
    ensures
        result == log_clock(text@),
{
    let format = match time::format_description::parse("[year]-[month]-[day] [hour]:[minute]:[second]") {
        Ok(format) => format,
        Err(_) => return None,
    };
    match time::PrimitiveDateTime::parse(text, &format) {
        Ok(primitive) => Some(primitive.assume_utc().unix_timestamp()),
        Err(_) => None,
    }
}

// ------------------------------------------------------------------ text

/// The character is `c`.
pub open spec fn is_char(c: char) -> spec_fn(char) -> bool {
    |x: char| x == c
}

/// A character that ends an exit code: neither a digit nor a minus sign.
pub open spec fn ends_code() -> spec_fn(char) -> bool {
    |x: char| !is_digit(x) && x != '-'
}

/// `s` with `prefix` removed, when it starts with it.
pub open spec fn strip(s: Seq<char>, prefix: Seq<char>) -> Option<Seq<char>> {
    if s.len() >= prefix.len() && s.take(prefix.len() as int) == prefix {
        Some(s.skip(prefix.len() as int))
    } else {
        None
    }
}

/// Number of ASCII digits `s` starts with.
pub open spec fn digit_run(s: Seq<char>) -> nat
    decreases s.len(),
{
    if s.len() > 0 && is_digit(s[0]) {
        1 + digit_run(s.drop_first())
    } else {
        0
    }
}

/// The digits `s` starts with and what follows them; nothing without digits.
pub open spec fn taken_number(s: Seq<char>) -> Option<(Seq<char>, Seq<char>)> {
    let n = digit_run(s) as int;
    if n == 0 {
        None
    } else {
        Some((s.take(n), s.skip(n)))
    }
}

/// `s` without its leading white space.
pub open spec fn trim_start(s: Seq<char>) -> Seq<char> {
    s.skip(first_non_white(s))
}

pub open spec fn infix_at(s: Seq<char>, needle: Seq<char>, i: int) -> bool {
    0 <= i && i + needle.len() <= s.len() && s.subrange(i, i + needle.len()) == needle
}

/// Where `needle` first occurs in `s`.
pub open spec fn first_infix(s: Seq<char>, needle: Seq<char>) -> Option<int> {
    first_where(Seq::new((s.len() + 1) as nat, |i: int| infix_at(s, needle, i)), |b: bool| b)
}

/// `i32` after `exit code `: the digits and minus signs that follow its
/// first occurrence, when they read as one.
pub open spec fn exit_code_of(rest: Seq<char>) -> Option<i32> {
    match first_infix(rest, "exit code "@) {
        Some(m) => {
            let value = rest.skip(m + 10);
            let end = match first_where(value, ends_code()) {
                Some(e) => e,
                None => value.len() as int,
            };
            match parsed_integer(value.take(end), true, i32::MIN as int, i32::MAX as int) {
                Some(v) => Some(v as i32),
                None => None,
            }
        },
        None => None,
    }
}

pub open spec fn pid_of(digits: Seq<char>) -> Option<u32> {
    match parsed_integer(digits, false, 0, u32::MAX as int) {
        Some(v) => Some(v as u32),
        None => None,
    }
}

pub open spec fn remove_event(body: Seq<char>, clock: i64) -> Option<EventView> {
    match strip(body, "Remove "@) {
        Some(after) => match taken_number(after) {
            Some((app, rest)) => if strip(trim_start(rest), "from running list"@) is Some {
                Some(EventView { kind: EventKind::Remove, clock_seconds: clock, app_id: app, pid: None, command: seq![], exit_code: None })
            } else {
                None
            },
            None => None,
        },
        None => None,
    }
}

/// The event a log body describes, after its time stamp.
pub open spec fn body_event(body: Seq<char>, clock: i64) -> Option<EventView> {
    match strip(body, "AppID "@) {
        Some(after) => match taken_number(after) {
            None => None,
            Some((app, rest)) => match strip(rest, " adding PID "@) {
                Some(a) => match taken_number(a) {
                    None => None,
                    Some((pid, tail)) => Some(
                        EventView {
                            kind: EventKind::Start,
                            clock_seconds: clock,
                            app_id: app,
                            pid: pid_of(pid),
                            command: match strip(tail, " as a tracked process "@) {
                                Some(c) => c,
                                None => seq![],
                            },
                            exit_code: None,
                        },
                    ),
                },
                None => match strip(rest, " no longer tracking PID "@) {
                    Some(a) => match taken_number(a) {
                        None => None,
                        Some((pid, tail)) => Some(
                            EventView {
                                kind: EventKind::End,
                                clock_seconds: clock,
                                app_id: app,
                                pid: pid_of(pid),
                                command: seq![],
                                exit_code: exit_code_of(tail),
                            },
                        ),
                    },
                    None => remove_event(body, clock),
                },
            },
        },
        None => remove_event(body, clock),
    }
}

/// The event of one `gameprocess_log.txt` line: `[time] body`, the time a
/// local clock time; only the starts, ends and removals used for tracking
/// are recognised.
pub open spec fn parsed_event(line: Seq<char>) -> Option<EventView> {
    let l = trimmed(line);
    if l.len() == 0 || l[0] != '[' {
        None
    } else {
        let rest = l.skip(1);
        match first_where(rest, is_char(']')) {
            None => None,
            Some(b) => match log_clock(trimmed(rest.take(b))) {
                None => None,
                Some(clock) => body_event(trim_start(rest.skip(b + 1)), clock),
            },
        }
    }
}

// ------------------------------------------------------------ scanning

fn strip_at(chars: &Vec<char>, at: usize, prefix: &str) -> (result: Option<usize>)
    requires
        at <= chars@.len(),
    ensures
        match strip(chars@.skip(at as int), prefix@) {
            Some(r) => result matches Some(e) && e == at + prefix@.len() && e <= chars@.len() && r == chars@.skip(e as int),
            None => result is None,
        },
{
    let p = chars_of(prefix);
    let ghost s = chars@.skip(at as int);
    let n = chars.len();
    if p.len() > n - at {
        return None;
    }
    let mut k: usize = 0;
    while k < p.len()
        invariant
            n == chars@.len(),
            p@ == prefix@,
            at + p@.len() <= chars@.len(),
            s == chars@.skip(at as int),
            k <= p@.len(),
            forall|m: int| 0 <= m < k ==> s[m] == p@[m],
        decreases p@.len() - k,
    {
        if chars[at + k] != p[k] {
            proof {
                assert(s.take(p@.len() as int)[k as int] != p@[k as int]);
            }
            return None;
        }
        k += 1;
    }
    proof {
        assert(s.take(p@.len() as int) =~= p@);
        assert(s.skip(p@.len() as int) =~= chars@.skip(at + p@.len()));
    }
    Some(at + p.len())
}

proof fn lemma_digit_run(s: Seq<char>)
    ensures
        digit_run(s) <= s.len(),
        forall|k: int| 0 <= k < digit_run(s) ==> is_digit(#[trigger] s[k]),
        digit_run(s) < s.len() ==> !is_digit(s[digit_run(s) as int]),
    decreases s.len(),
{
    if s.len() > 0 && is_digit(s[0]) {
        lemma_digit_run(s.drop_first());
        assert forall|k: int| 0 <= k < digit_run(s) implies is_digit(#[trigger] s[k]) by {
            if k > 0 {
                assert(s[k] == s.drop_first()[k - 1]);
            }
        }
    }
}

proof fn lemma_digit_run_exact(s: Seq<char>, n: int)
    requires
        0 <= n <= s.len(),
        forall|k: int| 0 <= k < n ==> is_digit(#[trigger] s[k]),
        n < s.len() ==> !is_digit(s[n]),
    ensures
        digit_run(s) == n,
    decreases n,
{
    if n > 0 {
        lemma_digit_run_exact(s.drop_first(), n - 1);
    }
}

/// End of the digits that start at `at`.
fn number_end(chars: &Vec<char>, at: usize) -> (result: usize)
    requires
        at <= chars@.len(),
    ensures
        result == at + digit_run(chars@.skip(at as int)),
        result <= chars@.len(),
{
    let ghost s = chars@.skip(at as int);
    let mut end = at;
    while end < chars.len() && '0' <= chars[end] && chars[end] <= '9'
        invariant
            s == chars@.skip(at as int),
            at <= end <= chars@.len(),
            forall|k: int| 0 <= k < end - at ==> is_digit(#[trigger] s[k]),
        decreases chars@.len() - end,
    {
        proof {
            assert(s[end - at] == chars@[end as int]);
        }
        end += 1;
    }
    proof {
        if end < chars@.len() {
            assert(s[end - at] == chars@[end as int]);
        }
        lemma_digit_run_exact(s, end - at);
    }
    end
}

/// First position at or after `at` that is not white space.
fn skip_white(chars: &Vec<char>, at: usize) -> (result: usize)
    requires
        at <= chars@.len(),
    ensures
        result == at + first_non_white(chars@.skip(at as int)),
        result <= chars@.len(),
{
    let ghost s = chars@.skip(at as int);
    proof {
        lemma_first_non_white(s);
    }
    let mut i = at;
    while i < chars.len() && is_white_char(chars[i])
        invariant
            s == chars@.skip(at as int),
            at <= i <= at + first_non_white(s),
            0 <= first_non_white(s) <= s.len(),
            first_non_white(s) < s.len() ==> !crate::text::is_white(s[first_non_white(s)]),
            i <= chars@.len(),
        decreases chars@.len() - i,
    {
        proof {
            assert(s[i - at] == chars@[i as int]);
        }
        i += 1;
    }
    proof {
        if i < at + first_non_white(s) {
            assert(s[i - at] == chars@[i as int]);
        }
    }
    i
}

fn text_between(chars: &Vec<char>, from: usize, to: usize) -> (result: String)
    requires
        from <= to <= chars@.len(),
    ensures
        result@ == chars@.subrange(from as int, to as int),
{
    let mut out: Vec<char> = Vec::new();
    let mut i = from;
    while i < to
        invariant
            from <= i <= to <= chars@.len(),
            out@ == chars@.subrange(from as int, i as int),
        decreases to - i,
    {
        out.push(chars[i]);
        proof {
            assert(out@ =~= chars@.subrange(from as int, i + 1));
        }
        i += 1;
    }
    string_from_chars(out.as_slice())
}

fn chars_between(chars: &Vec<char>, from: usize, to: usize) -> (result: Vec<char>)
    requires
        from <= to <= chars@.len(),
    ensures
        result@ == chars@.subrange(from as int, to as int),
{
    let mut out: Vec<char> = Vec::new();
    let mut i = from;
    while i < to
        invariant
            from <= i <= to <= chars@.len(),
            out@ == chars@.subrange(from as int, i as int),
        decreases to - i,
    {
        out.push(chars[i]);
        proof {
            assert(out@ =~= chars@.subrange(from as int, i + 1));
        }
        i += 1;
    }
    out
}


/// First position at or after `at` holding `c`.
fn find_char(chars: &Vec<char>, at: usize, c: char) -> (result: Option<usize>)
    requires
        at <= chars@.len(),
    ensures
        match first_where(chars@.skip(at as int), is_char(c)) {
            Some(i) => result matches Some(p) && p == at + i && p < chars@.len(),
            None => result is None,
        },
{
    let ghost s = chars@.skip(at as int);
    let mut i = at;
    while i < chars.len()
        invariant
            s == chars@.skip(at as int),
            at <= i <= chars@.len(),
            forall|k: int| 0 <= k < i - at ==> !is_char(c)(#[trigger] s[k]),
        decreases chars@.len() - i,
    {
        proof {
            assert(s[i - at] == chars@[i as int]);
        }
        if chars[i] == c {
            proof {
                lemma_first_where_found(s, is_char(c), i - at);
            }
            return Some(i);
        }
        i += 1;
    }
    proof {
        lemma_first_where_none(s, is_char(c));
    }
    None
}

/// First position at or after `at` where `needle` occurs.
fn find_text(chars: &Vec<char>, at: usize, needle: &str) -> (result: Option<usize>)
    requires
        at <= chars@.len(),
    ensures
        match first_infix(chars@.skip(at as int), needle@) {
            Some(m) => result matches Some(p) && p == at + m && p + needle@.len() <= chars@.len(),
            None => result is None,
        },
{
    let ghost s = chars@.skip(at as int);
    let ghost flags = Seq::new((s.len() + 1) as nat, |i: int| infix_at(s, needle@, i));
    let n = chars.len();
    let mut i = at;
    while i <= n
        invariant
            n == chars@.len(),
            s == chars@.skip(at as int),
            flags == Seq::new((s.len() + 1) as nat, |i: int| infix_at(s, needle@, i)),
            at <= i <= n + 1,
            forall|k: int| 0 <= k < i - at ==> !#[trigger] flags[k],
        decreases n + 1 - i,
    {
        match strip_at(chars, i, needle) {
            Some(_) => {
                proof {
                    assert(chars@.skip(i as int).take(needle@.len() as int) =~= s.subrange(i - at, i - at + needle@.len()));
                    assert(flags[i - at]);
                    lemma_first_where_found(flags, |b: bool| b, i - at);
                }
                return Some(i);
            },
            None => {
                proof {
                    if i - at + needle@.len() <= s.len() {
                        assert(chars@.skip(i as int).take(needle@.len() as int) =~= s.subrange(i - at, i - at + needle@.len()));
                    }
                    assert(!flags[i - at]);
                }
            },
        }
        if i == n {
            proof {
                lemma_first_where_none(flags, |b: bool| b);
            }
            return None;
        }
        i += 1;
    }
    proof {
        lemma_first_where_none(flags, |b: bool| b);
    }
    None
}

/// The exit code following position `at`.
fn exit_code_at(chars: &Vec<char>, at: usize) -> (result: Option<i32>)
    requires
        at <= chars@.len(),
    ensures
        result == exit_code_of(chars@.skip(at as int)),
{
    proof {
        reveal_strlit("exit code ");
    }
    let ghost rest = chars@.skip(at as int);
    let marker = match find_text(chars, at, "exit code ") {
        Some(p) => p,
        None => {
            return None;
        },
    };
    let n = chars.len();
    let start = marker + 10;
    let ghost value = rest.skip((marker - at) + 10);
    proof {
        assert(value =~= chars@.skip(start as int));
    }
    let mut end = start;
    while end < chars.len() && (('0' <= chars[end] && chars[end] <= '9') || chars[end] == '-')
        invariant
            value == chars@.skip(start as int),
            start <= end <= chars@.len(),
            forall|k: int| 0 <= k < end - start ==> !ends_code()(#[trigger] value[k]),
        decreases chars@.len() - end,
    {
        proof {
            assert(value[end - start] == chars@[end as int]);
        }
        end += 1;
    }
    proof {
        if end < chars@.len() {
            assert(value[end - start] == chars@[end as int]);
            lemma_first_where_found(value, ends_code(), end - start);
        } else {
            lemma_first_where_none(value, ends_code());
        }
        assert(value.take(end - start) =~= chars@.subrange(start as int, end as int));
    }
    let digits = chars_between(chars, start, end);
    match parse_integer(digits.as_slice(), true, i32::MIN as i128, i32::MAX as i128) {
        Some(v) => Some(v as i32),
        None => None,
    }
}

fn pid_at(chars: &Vec<char>, from: usize, to: usize) -> (result: Option<u32>)
    requires
        from <= to <= chars@.len(),
    ensures
        result == pid_of(chars@.subrange(from as int, to as int)),
{
    let digits = chars_between(chars, from, to);
    match parse_integer(digits.as_slice(), false, 0, u32::MAX as i128) {
        Some(v) => Some(v as u32),
        None => None,
    }
}

proof fn lemma_number_parts(s: Seq<char>, a: int, e: int)
    requires
        0 <= a <= e <= s.len(),
        e - a == digit_run(s.skip(a)),
        e > a,
    ensures
        taken_number(s.skip(a)) == Some((s.subrange(a, e), s.skip(e))),
{
    assert(s.skip(a).take(e - a) =~= s.subrange(a, e));
    assert(s.skip(a).skip(e - a) =~= s.skip(e));
}

fn remove_event_at(chars: &Vec<char>, at: usize, clock: i64) -> (result: Option<GameProcessEvent>)
    requires
        at <= chars@.len(),
    ensures
        match remove_event(chars@.skip(at as int), clock) {
            Some(e) => result matches Some(r) && r@ == e,
            None => result is None,
        },
{
    let a = match strip_at(chars, at, "Remove ") {
        Some(a) => a,
        None => {
            return None;
        },
    };
    let e = number_end(chars, a);
    if e == a {
        return None;
    }
    proof {
        lemma_number_parts(chars@, a as int, e as int);
    }
    let w = skip_white(chars, e);
    proof {
        lemma_first_non_white(chars@.skip(e as int));
        assert(trim_start(chars@.skip(e as int)) =~= chars@.skip(w as int));
    }
    match strip_at(chars, w, "from running list") {
        Some(_) => {
            let app_id = text_between(chars, a, e);
            Some(
                GameProcessEvent {
                    kind: EventKind::Remove,
                    clock_seconds: clock,
                    app_id,
                    pid: None,
                    command: String::new(),
                    exit_code: None,
                },
            )
        },
        None => None,
    }
}

fn body_event_at(chars: &Vec<char>, at: usize, clock: i64) -> (result: Option<GameProcessEvent>)
    requires
        at <= chars@.len(),
    ensures
        match body_event(chars@.skip(at as int), clock) {
            Some(e) => result matches Some(r) && r@ == e,
            None => result is None,
        },
{
    let a = match strip_at(chars, at, "AppID ") {
        Some(a) => a,
        None => {
            return remove_event_at(chars, at, clock);
        },
    };
    let e = number_end(chars, a);
    if e == a {
        return None;
    }
    proof {
        lemma_number_parts(chars@, a as int, e as int);
    }
    let app_id = text_between(chars, a, e);
    match strip_at(chars, e, " adding PID ") {
        Some(b) => {
            let pe = number_end(chars, b);
            if pe == b {
                return None;
            }
            proof {
                lemma_number_parts(chars@, b as int, pe as int);
            }
            let pid = pid_at(chars, b, pe);
            let command = match strip_at(chars, pe, " as a tracked process ") {
                Some(c) => {
                    proof {
                        assert(chars@.subrange(c as int, chars@.len() as int) =~= chars@.skip(c as int));
                    }
                    text_between(chars, c, chars.len())
                },
                None => String::new(),
            };
            Some(GameProcessEvent { kind: EventKind::Start, clock_seconds: clock, app_id, pid, command, exit_code: None })
        },
        None => match strip_at(chars, e, " no longer tracking PID ") {
            Some(b) => {
                let pe = number_end(chars, b);
                if pe == b {
                    return None;
                }
                proof {
                    lemma_number_parts(chars@, b as int, pe as int);
                }
                let pid = pid_at(chars, b, pe);
                let exit_code = exit_code_at(chars, pe);
                Some(
                    GameProcessEvent {
                        kind: EventKind::End,
                        clock_seconds: clock,
                        app_id,
                        pid,
                        command: String::new(),
                        exit_code,
                    },
                )
            },
            None => remove_event_at(chars, at, clock),
        },
    }
}

/// Parses one `gameprocess_log.txt` line.
///
/// Only the three event kinds needed for local tracking are recognised; every
/// other line gives nothing.
pub fn parse_gameprocess_line(line: &str) -> (result: Option<GameProcessEvent>)
    ensures
        match parsed_event(line@) {
            Some(e) => result matches Some(r) && r@ == e,
            None => result is None,
        },
{
    let text = trim(line);
    let chars = chars_of(text.as_str());
    if chars.len() == 0 || chars[0] != '[' {
        return None;
    }
    let ghost rest = chars@.skip(1);
    let close = match find_char(&chars, 1, ']') {
        Some(close) => close,
        None => {
            return None;
        },
    };
    proof {
        assert(rest.take(close - 1) =~= chars@.subrange(1, close as int));
        assert(rest.skip(close - 1 + 1) =~= chars@.skip(close + 1));
    }
    let stamp = text_between(&chars, 1, close);
    let clock = match parse_log_clock(trim(stamp.as_str()).as_str()) {
        Some(clock) => clock,
        None => {
            return None;
        },
    };
    let body = skip_white(&chars, close + 1);
    proof {
        lemma_first_non_white(chars@.skip(close + 1));
        assert(trim_start(chars@.skip(close + 1)) =~= chars@.skip(body as int));
    }
    body_event_at(&chars, body, clock)
}

/// The tracking mode and end reason a session row shows: the stored mode,
/// `partial` when none was stored; no end reason while the session runs,
/// else the stored one, `unknown` when none was stored.
pub fn session_labels(tracking_mode: &str, end_reason: &str, active: bool) -> (result: (String, String))
    ensures
        result.0@ == if tracking_mode@.len() == 0 { "partial"@ } else { tracking_mode@ },
        result.1@ == if active {
            seq![]
        } else if end_reason@.len() == 0 {
            "unknown"@
        } else {
            end_reason@
        },
{
    let mode = if tracking_mode.is_empty() {
        String::from_str("partial")
    } else {
        tracking_mode.to_owned()
    };
    let reason = if active {
        String::new()
    } else if end_reason.is_empty() {
        String::from_str("unknown")
    } else {
        end_reason.to_owned()
    };
    (mode, reason)
}

// ------------------------------------------------------------------ laws

/// The digits of `digits` followed by `rest` that starts with no digit.
proof fn lemma_number_then(digits: Seq<char>, rest: Seq<char>)
    requires
        digits.len() > 0,
        forall|i: int| 0 <= i < digits.len() ==> is_digit(#[trigger] digits[i]),
        rest.len() > 0 ==> !is_digit(rest[0]),
    ensures
        taken_number(digits + rest) == Some((digits, rest)),
{
    let s = digits + rest;
    assert forall|k: int| 0 <= k < digits.len() implies is_digit(#[trigger] s[k]) by {
        assert(s[k] == digits[k]);
    }
    if digits.len() < s.len() {
        assert(s[digits.len() as int] == rest[0]);
    }
    lemma_digit_run_exact(s, digits.len() as int);
    assert(s.take(digits.len() as int) =~= digits);
    assert(s.skip(digits.len() as int) =~= rest);
}

/// `prefix` followed by `rest`, stripped of `prefix`.
proof fn lemma_strip_front(prefix: Seq<char>, rest: Seq<char>)
    ensures
        strip(prefix + rest, prefix) == Some(rest),
{
    assert((prefix + rest).take(prefix.len() as int) =~= prefix);
    assert((prefix + rest).skip(prefix.len() as int) =~= rest);
}

/// Law: a start line `AppID a adding PID p as a tracked process c` is a
/// start of app `a`, process `p`, whose launch command is exactly `c`; the
/// same line without the `as a tracked process` part has no command.
pub proof fn law_start_event_command(app: Seq<char>, pid: Seq<char>, command: Seq<char>, clock: i64)
    requires
        app.len() > 0,
        pid.len() > 0,
        forall|i: int| 0 <= i < app.len() ==> is_digit(#[trigger] app[i]),
        forall|i: int| 0 <= i < pid.len() ==> is_digit(#[trigger] pid[i]),
    ensures
        body_event("AppID "@ + app + " adding PID "@ + pid + " as a tracked process "@ + command, clock) == Some(
            EventView {
                kind: EventKind::Start,
                clock_seconds: clock,
                app_id: app,
                pid: pid_of(pid),
                command: command,
                exit_code: None,
            },
        ),
        body_event("AppID "@ + app + " adding PID "@ + pid, clock) == Some(
            EventView {
                kind: EventKind::Start,
                clock_seconds: clock,
                app_id: app,
                pid: pid_of(pid),
                command: seq![],
                exit_code: None,
            },
        ),
{
    reveal_strlit("AppID ");
    reveal_strlit(" adding PID ");
    reveal_strlit(" as a tracked process ");
    let marker = " as a tracked process "@;
    let adding = " adding PID "@;
    let tail = marker + command;
    let after_pid = pid + tail;
    let after_app = app + (adding + after_pid);
    let body = "AppID "@ + after_app;
    assert(body =~= "AppID "@ + app + " adding PID "@ + pid + " as a tracked process "@ + command);
    lemma_strip_front("AppID "@, after_app);
    lemma_number_then(app, adding + after_pid);
    lemma_strip_front(adding, after_pid);
    lemma_number_then(pid, tail);
    lemma_strip_front(marker, command);
    let short_app = app + (adding + pid);
    let short = "AppID "@ + short_app;
    assert(short =~= "AppID "@ + app + " adding PID "@ + pid);
    lemma_strip_front("AppID "@, short_app);
    lemma_number_then(app, adding + pid);
    lemma_strip_front(adding, pid);
    lemma_number_then(pid, seq![]);
    assert(pid + Seq::<char>::empty() =~= pid);
}

} // verus!
