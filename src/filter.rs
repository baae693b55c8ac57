//! Deciding which process exits deserve an alert, and what it says.
use vstd::prelude::*;
use vstd::string::*;
use vstd::utf8::*;

use crate::codec::{decode_line, parse_token_set, TokenSet};
use crate::number::{parse_usize, parse_usize_spec};
use crate::text::utf8_text;

verus! {

/// Whether one allow-list entry names the process `name` (`group:process`):
/// an entry with a colon must equal it, a bare entry `n` stands for `n:n`.
pub open spec fn entry_matches(entry: Seq<char>, name: Seq<char>) -> bool {
    if entry.contains(':') {
        entry == name
    } else {
        entry + seq![':'] + entry == name
    }
}

/// Whether the allow-list admits `name`: an empty list admits every name.
pub open spec fn monitored(name: Seq<char>, program: Seq<Seq<char>>) -> bool {
    program.len() == 0 || exists|i: int| 0 <= i < program.len() && entry_matches(
        #[trigger] program[i],
        name,
    )
}

/// The texts of a list of strings.
pub open spec fn views(v: Seq<String>) -> Seq<Seq<char>> {
    v.map_values(|s: String| s@)
}

fn has_colon(s: &str) -> (r: bool)
    ensures
        r == s@.contains(':'),
{
    let n = s.unicode_len();
    let mut i: usize = 0;
    while i < n
        invariant
            i <= n,
            n == s@.len(),
            forall|j: int| 0 <= j < i ==> s@[j] != ':',
        decreases n - i,
    {
        if s.get_char(i) == ':' {
            return true;
        }
        i += 1;
    }
    false
}

/// Whether the process named `full_name` (`group:process`) is to be watched.
pub fn should_monitor(full_name: &str, program: &Vec<String>) -> (r: bool)
    ensures
        r == monitored(full_name@, views(program@)),
{
    if program.len() == 0 {
        return true;
    }
    let name = full_name.to_owned();
    let ghost ps = views(program@);
    let mut i: usize = 0;
    while i < program.len()
        invariant
            i <= program@.len(),
            ps == views(program@),
            name@ == full_name@,
            forall|j: int| 0 <= j < i ==> !entry_matches(#[trigger] ps[j], name@),
        decreases program@.len() - i,
    {
        let entry = &program[i];
        let hit = if has_colon(entry.as_str()) {
            entry.eq(&name)
        } else {
            let doubled = entry.clone().concat(":").concat(entry.as_str());
            proof {
                reveal_strlit(":");
            }
            assert(doubled@ =~= entry@ + seq![':'] + entry@);
            doubled.eq(&name)
        };
        if hit {
            assert(entry_matches(ps[i as int], name@));
            return true;
        }
        i += 1;
    }
    false
}

/// The alert for an unexpected exit.
pub open spec fn alert_text(
    process: Seq<char>,
    group: Seq<char>,
    pid: Seq<char>,
    from_state: Seq<char>,
) -> Seq<char> {
    "Process "@ + process + " in group "@ + group + " exited unexpectedly (pid "@ + pid
        + ") from state "@ + from_state
}

/// Writes the alert for an unexpected exit.
pub fn alert_message(process: &str, group: &str, pid: &str, from_state: &str) -> (r: String)
    ensures
        r@ == alert_text(process@, group@, pid@, from_state@),
{
    String::from_str("Process ").concat(process).concat(" in group ").concat(group).concat(
        " exited unexpectedly (pid ",
    ).concat(pid).concat(") from state ").concat(from_state)
}

/// What to do with an event once it is understood.
#[derive(Debug, Clone, PartialEq, Eq)]
pub enum Verdict {
    /// Nothing to report.
    Ignore,
    /// Send this alert.
    Alert(String),
}

impl View for Verdict {
    type V = Option<Seq<char>>;

    open spec fn view(&self) -> Option<Seq<char>> {
        match self {
            Verdict::Ignore => None,
            Verdict::Alert(m) => Some(m@),
        }
    }
}

/// Why an event could not be understood.
#[derive(Debug, Clone, Copy, PartialEq, Eq)]
pub enum EventError {
    /// A field that the decision reads is absent.
    MissingField,
    /// The payload is not UTF-8.
    InvalidUtf8,
    /// A payload token has no colon.
    Malformed,
    /// The `expected` field is not an unsigned number.
    BadExpected,
}

/// The decision on the decoded fields of a process exit.
pub open spec fn exit_outcome(p: Map<Seq<char>, Seq<char>>, program: Seq<Seq<char>>) -> Result<
    Option<Seq<char>>,
    EventError,
> {
    if !p.contains_key("expected"@) {
        Err(EventError::MissingField)
    } else {
        match parse_usize_spec(p["expected"@]) {
            None => Err(EventError::BadExpected),
            Some(x) => if x == 1 {
                Ok(None)
            } else if !(p.contains_key("groupname"@) && p.contains_key("processname"@)) {
                Err(EventError::MissingField)
            } else if !monitored(p["groupname"@] + seq![':'] + p["processname"@], program) {
                Ok(None)
            } else if !(p.contains_key("pid"@) && p.contains_key("from_state"@)) {
                Err(EventError::MissingField)
            } else {
                Ok(
                    Some(
                        alert_text(
                            p["processname"@],
                            p["groupname"@],
                            p["pid"@],
                            p["from_state"@],
                        ),
                    ),
                )
            },
        }
    }
}

/// The decision on the text of a process-exit payload.
pub open spec fn body_outcome(body: Seq<char>, program: Seq<Seq<char>>) -> Result<
    Option<Seq<char>>,
    EventError,
> {
    match decode_line(body) {
        None => Err(EventError::Malformed),
        Some(p) => exit_outcome(p, program),
    }
}

/// The decision on one frame: only a `PROCESS_STATE_EXITED` event is looked into.
pub open spec fn event_outcome(
    headers: Map<Seq<char>, Seq<char>>,
    payload: Seq<u8>,
    program: Seq<Seq<char>>,
) -> Result<Option<Seq<char>>, EventError> {
    if !headers.contains_key("eventname"@) {
        Err(EventError::MissingField)
    } else if headers["eventname"@] != "PROCESS_STATE_EXITED"@ {
        Ok(None)
    } else if !valid_utf8(payload) {
        Err(EventError::InvalidUtf8)
    } else {
        body_outcome(decode_utf8(payload), program)
    }
}

fn field<'a>(set: &'a TokenSet, key: &str) -> (r: Result<&'a String, EventError>)
    requires
        set.wf(),
    ensures
        match r {
            Ok(v) => set@.contains_key(key@) && set@[key@] == v@,
            Err(e) => !set@.contains_key(key@) && e == EventError::MissingField,
        },
{
    match set.get(key) {
        Some(v) => Ok(v),
        None => Err(EventError::MissingField),
    }
}

/// Decides on the text of a process-exit payload.
pub fn assess_exit(body: &str, program: &Vec<String>) -> (r: Result<Verdict, EventError>)
    ensures
        match r {
            Ok(v) => body_outcome(body@, views(program@)) == Ok::<_, EventError>(v@),
            Err(e) => body_outcome(body@, views(program@)) == Err::<Option<Seq<char>>, _>(e),
        },
{
    let pset = match parse_token_set(body) {
        Ok(p) => p,
        Err(_) => {
            return Err(EventError::Malformed);
        },
    };
    let expected = field(&pset, "expected")?;
    match parse_usize(expected.as_str()) {
        None => {
            return Err(EventError::BadExpected);
        },
        Some(x) => {
            if x == 1 {
                return Ok(Verdict::Ignore);
            }
        },
    }
    let group = field(&pset, "groupname")?;
    let process = field(&pset, "processname")?;
    let full_name = group.clone().concat(":").concat(process.as_str());
    proof {
        reveal_strlit(":");
    }
    assert(full_name@ =~= group@ + seq![':'] + process@);
    if !should_monitor(full_name.as_str(), program) {
        return Ok(Verdict::Ignore);
    }
    let pid = field(&pset, "pid")?;
    let from_state = field(&pset, "from_state")?;
    Ok(
        Verdict::Alert(
            alert_message(process.as_str(), group.as_str(), pid.as_str(), from_state.as_str()),
        ),
    )
}

/// Decides on one frame, given its headers and payload.
pub fn classify(headers: &TokenSet, payload: Vec<u8>, program: &Vec<String>) -> (r: Result<
    Verdict,
    EventError,
>)
    requires
        headers.wf(),
    ensures
        match r {
            Ok(v) => event_outcome(headers@, payload@, views(program@)) == Ok::<_, EventError>(
                v@,
            ),
            Err(e) => event_outcome(headers@, payload@, views(program@)) == Err::<
                Option<Seq<char>>,
                _,
            >(e),
        },
{
    let eventname = field(headers, "eventname")?;
    if !eventname.eq(&"PROCESS_STATE_EXITED".to_owned()) {
        return Ok(Verdict::Ignore);
    }
    match utf8_text(payload) {
        None => Err(EventError::InvalidUtf8),
        Some(body) => assess_exit(body.as_str(), program),
    }
}

/// An empty allow-list admits every process.
pub proof fn lemma_empty_allow_list(name: Seq<char>)
    ensures
        monitored(name, Seq::<Seq<char>>::empty()),
{
}

/// An exit that the supervisor expected (`expected` reads as 1) never gives
/// an alert, whatever the allow-list holds.
pub proof fn lemma_expected_exit_is_quiet(
    headers: Map<Seq<char>, Seq<char>>,
    payload: Seq<u8>,
    fields: Map<Seq<char>, Seq<char>>,
    program: Seq<Seq<char>>,
)
    requires
        valid_utf8(payload),
        decode_line(decode_utf8(payload)) == Some(fields),
        fields.contains_key("expected"@),
        parse_usize_spec(fields["expected"@]) == Some(1nat),
    ensures
        match event_outcome(headers, payload, program) {
            Ok(v) => v is None,
            Err(_) => true,
        },
{
}

/// A `PROCESS_STATE_RUNNING` event is acknowledged as handled and never
/// gives an alert.
pub proof fn lemma_running_event_ignored(
    headers: Map<Seq<char>, Seq<char>>,
    payload: Seq<u8>,
    program: Seq<Seq<char>>,
)
    requires
        headers.contains_key("eventname"@),
        headers["eventname"@] == "PROCESS_STATE_RUNNING"@,
    ensures
        event_outcome(headers, payload, program) == Ok::<_, EventError>(None::<Seq<char>>),
{
    reveal_strlit("PROCESS_STATE_RUNNING");
    reveal_strlit("PROCESS_STATE_EXITED");
    assert("PROCESS_STATE_RUNNING"@[14] != "PROCESS_STATE_EXITED"@[14]);
}

} // verus!
