//! Compact texts for durations and points in time.

use vstd::prelude::*;
use vstd::string::StringExecFns;
use crate::text::{decimal, decimal_string};

verus! {

/// `0m`, `<1m`, `45m`, `3h`, `3h 20m` for a number of seconds, negative
/// counts shown as none.
pub open spec fn playtime_text(total: int) -> Seq<char> {
    let t = if total < 0 {
        0
    } else {
        total
    };
    if t < 60 {
        if t == 0 {
            "0m"@
        } else {
            "<1m"@
        }
    } else {
        let minutes = t / 60;
        let hours = minutes / 60;
        let rest = minutes % 60;
        if hours == 0 {
            decimal(rest as nat) + "m"@
        } else if rest == 0 {
            decimal(hours as nat) + "h"@
        } else {
            decimal(hours as nat) + "h "@ + decimal(rest as nat) + "m"@
        }
    }
}

/// Compact playtime of a whole number of seconds.
pub fn format_playtime(total_seconds: i64) -> (result: String)
    ensures
        result@ == playtime_text(total_seconds as int),
{
    proof {
        reveal_strlit("0m");
        reveal_strlit("<1m");
        reveal_strlit("m");
        reveal_strlit("h");
        reveal_strlit("h ");
    }
    let total: u64 = if total_seconds < 0 { 0 } else { total_seconds as u64 };
    if total < 60 {
        return if total == 0 {
            String::from_str("0m")
        } else {
            String::from_str("<1m")
        };
    }
    let minutes = total / 60;
    let hours = minutes / 60;
    let rest = minutes % 60;
    if hours == 0 {
        let mut out = decimal_string(rest);
        out.append("m");
        out
    } else if rest == 0 {
        let mut out = decimal_string(hours);
        out.append("h");
        out
    } else {
        let mut out = decimal_string(hours);
        out.append("h ");
        out.append(decimal_string(rest).as_str());
        out.append("m");
        out
    }
}

/// Law: a time under an hour shows its whole minutes alone, and from an
/// hour on the text leads with the whole hours the time holds, however many
/// days that makes, followed by the minutes left over in the last hour when
/// there are any.
pub proof fn law_playtime_counts_whole_hours(t: int)
    requires
        t >= 60,
    ensures
        t < 3600 ==> playtime_text(t) == decimal((t / 60) as nat) + "m"@,
        t >= 3600 ==> playtime_text(t) == decimal((t / 3600) as nat) + if (t % 3600) / 60 == 0 {
            "h"@
        } else {
            "h "@ + decimal(((t % 3600) / 60) as nat) + "m"@
        },
{
    assert(t / 60 / 60 == t / 3600 && (t / 60) % 60 == (t % 3600) / 60) by (nonlinear_arith)
        requires
            t >= 0,
    {
        let q = t / 3600;
        let r = t % 3600;
        assert(t == 3600 * q + r && 0 <= r < 3600);
        assert(t / 60 == 60 * q + r / 60);
        assert(0 <= r / 60 < 60);
    }
    assert(t < 3600 ==> t / 60 / 60 == 0);
    assert(t >= 3600 ==> t / 3600 >= 1);
}

/// Length in seconds of the `i`-th unit: year, month, day, hour, minute,
/// second.
pub open spec fn unit_length(i: int) -> nat {
    if i == 0 {
        31_536_000
    } else if i == 1 {
        2_592_000
    } else if i == 2 {
        86_400
    } else if i == 3 {
        3_600
    } else if i == 4 {
        60
    } else {
        1
    }
}

pub open spec fn unit_name(i: int) -> Seq<char> {
    if i == 0 {
        "year"@
    } else if i == 1 {
        "month"@
    } else if i == 2 {
        "day"@
    } else if i == 3 {
        "hour"@
    } else if i == 4 {
        "minute"@
    } else {
        "second"@
    }
}

/// `3 days`, `1 hour`.
pub open spec fn part_text(value: nat, name: Seq<char>) -> Seq<char> {
    decimal(value) + " "@ + name + if value == 1 {
        ""@
    } else {
        "s"@
    }
}

/// The non-zero units of `remaining` seconds from unit `i` on, largest
/// first, stopping once two are listed.
pub open spec fn parts_from(i: int, remaining: nat, acc: Seq<Seq<char>>) -> Seq<Seq<char>>
    decreases 6 - i,
{
    if i >= 6 || i < 0 || acc.len() >= 2 {
        acc
    } else {
        let value = remaining / unit_length(i);
        let rest = remaining % unit_length(i);
        if value > 0 {
            parts_from(i + 1, rest, acc.push(part_text(value, unit_name(i))))
        } else {
            parts_from(i + 1, rest, acc)
        }
    }
}

/// Relative time of `timestamp` seen at `now`: `3 days, 4 hours ago`,
/// `just now` within the second, nothing without a timestamp.
pub open spec fn relative_text(timestamp: Option<i64>, now: i64) -> Seq<char> {
    match timestamp {
        None => seq![],
        Some(t) => {
            let seconds = if now - t > 0 {
                (now - t) as nat
            } else {
                0nat
            };
            let parts = parts_from(0, seconds, seq![]);
            if seconds < 1 || parts.len() == 0 {
                "just now"@
            } else if parts.len() == 1 {
                parts[0] + " ago"@
            } else {
                parts[0] + ", "@ + parts[1] + " ago"@
            }
        },
    }
}

fn unit_length_exec(i: usize) -> (result: u64)
    requires
        i < 6,
    ensures
        result as nat == unit_length(i as int),
        result >= 1,
{
    if i == 0 {
        31_536_000
    } else if i == 1 {
        2_592_000
    } else if i == 2 {
        86_400
    } else if i == 3 {
        3_600
    } else if i == 4 {
        60
    } else {
        1
    }
}

fn unit_name_exec(i: usize) -> (result: &'static str)
    requires
        i < 6,
    ensures
        result@ == unit_name(i as int),
{
    if i == 0 {
        "year"
    } else if i == 1 {
        "month"
    } else if i == 2 {
        "day"
    } else if i == 3 {
        "hour"
    } else if i == 4 {
        "minute"
    } else {
        "second"
    }
}

/// Compact relative time of `timestamp` as seen at the unix time `now`.
pub fn relative_time_at(timestamp: Option<i64>, now: i64) -> (result: String)
    ensures
        result@ == relative_text(timestamp, now),
{
    proof {
        reveal_strlit("just now");
        reveal_strlit(" ago");
        reveal_strlit(", ");
        reveal_strlit(" ");
        reveal_strlit("s");
        reveal_strlit("");
    }
    let t = match timestamp {
        None => {
            return String::new();
        },
        Some(t) => t,
    };
    let difference: i128 = now as i128 - t as i128;
    let seconds: u64 = if difference > 0 { difference as u64 } else { 0 };
    if seconds < 1 {
        return String::from_str("just now");
    }
    let mut remaining = seconds;
    let mut parts: Vec<String> = Vec::new();
    let mut i: usize = 0;
    proof {
        assert(parts@.map_values(|p: String| p@) =~= Seq::<Seq<char>>::empty());
    }
    while i < 6 && parts.len() < 2
        invariant
            i <= 6,
            parts@.len() <= 2,
            parts_from(0, seconds as nat, seq![]) == parts_from(i as int, remaining as nat, parts@.map_values(|p: String| p@)),
        decreases 6 - i,
    {
        let unit = unit_length_exec(i);
        let value = remaining / unit;
        let ghost before = parts@.map_values(|p: String| p@);
        let ghost rem0 = remaining;
        remaining = remaining % unit;
        if value > 0 {
            let mut part = decimal_string(value);
            part.append(" ");
            part.append(unit_name_exec(i));
            let ghost head = part@;
            proof {
                reveal_strlit("");
                reveal_strlit("s");
                reveal_strlit(" ");
                assert(head == decimal(value as nat) + " "@ + unit_name(i as int));
            }
            if value != 1 {
                part.append("s");
                proof {
                    assert(part@ =~= head + "s"@);
                }
            } else {
                proof {
                    assert(""@ =~= Seq::<char>::empty());
                    assert(part@ =~= head + ""@);
                }
            }
            proof {
                assert(part@ =~= part_text(value as nat, unit_name(i as int)));
            }
            parts.push(part);
            proof {
                assert(parts@.map_values(|p: String| p@) =~= before.push(part_text(value as nat, unit_name(i as int))));
            }
        }
        proof {
            assert(parts_from(i as int, rem0 as nat, before) == parts_from(i + 1, remaining as nat, parts@.map_values(|p: String| p@)));
        }
        i += 1;
    }
    let ghost final_parts = parts@.map_values(|p: String| p@);
    proof {
        assert(parts_from(i as int, remaining as nat, final_parts) == final_parts);
    }
    if parts.len() == 0 {
        String::from_str("just now")
    } else if parts.len() == 1 {
        let mut out = parts[0].clone();
        proof {
            assert(final_parts[0] == parts@[0]@);
        }
        out.append(" ago");
        out
    } else {
        let mut out = parts[0].clone();
        proof {
            assert(final_parts[0] == parts@[0]@);
            assert(final_parts[1] == parts@[1]@);
        }
        out.append(", ");
        out.append(parts[1].as_str());
        out.append(" ago");
        out
    }
}

/// `SystemTime::now()` as whole seconds since the Unix epoch, no seconds
/// when the clock stands before it. The time is whatever the clock says.
#[verifier::external_body]
fn unix_seconds_now() -> u64 {
    match std::time::SystemTime::now().duration_since(std::time::UNIX_EPOCH) {
        Ok(elapsed) => elapsed.as_secs(),
        Err(_) => 0,
    }
}

/// Compact relative time used by the "Last Login" column, against the
/// clock of this machine.
pub fn relative_time(timestamp: Option<i64>) -> (result: String)
    ensures
        exists|now: i64| now >= 0 && result@ == relative_text(timestamp, now),
{
    let seconds = unix_seconds_now();
    let now: i64 = if seconds > i64::MAX as u64 { i64::MAX } else { seconds as i64 };
    relative_time_at(timestamp, now)
}


/// Law: a relative time names at most two units.
pub proof fn law_at_most_two_units(i: int, remaining: nat, acc: Seq<Seq<char>>)
    requires
        acc.len() <= 2,
    ensures
        parts_from(i, remaining, acc).len() <= 2,
    decreases 6 - i,
{
    if !(i >= 6 || i < 0 || acc.len() >= 2) {
        let value = remaining / unit_length(i);
        let rest = remaining % unit_length(i);
        if value > 0 {
            law_at_most_two_units(i + 1, rest, acc.push(part_text(value, unit_name(i))));
        } else {
            law_at_most_two_units(i + 1, rest, acc);
        }
    }
}

} // verus!
