use vstd::prelude::*;
use vstd::string::StringExecFns;

verus! {

/// What `serde_json` reads as the string under `key` of the object in
/// `text` (nothing when `text` is not JSON, not an object, lacks the key, or
/// holds no string there).
pub uninterp spec fn json_str_at(text: Seq<char>, key: Seq<char>) -> Option<Seq<char>>;

/// What `serde_json` reads as the unsigned integer under `key` of the object
/// in `text` (nothing when it is absent or not a `u64`).
pub uninterp spec fn json_u64_at(text: Seq<char>, key: Seq<char>) -> Option<u64>;

/// `serde_json::from_str::<Value>`, then `Value::get(key)` and
/// `Value::as_str`. Claimed: the result is `json_str_at` of the arguments.
#[verifier::external_body]
fn json_str_field(text: &str, key: &str) -> (r: Option<String>)
    ensures
        match r {
            Some(s) => json_str_at(text@, key@) == Some(s@),
            None => json_str_at(text@, key@) is None,
        },
{
    let v: serde_json::Value = match serde_json::from_str(text) {
        Ok(v) => v,
        Err(_) => return None,
    };
    match v.get(key) {
        Some(f) => match f.as_str() {
            Some(s) => Some(s.to_string()),
            None => None,
        },
        None => None,
    }
}

/// `serde_json::from_str::<Value>`, then `Value::get(key)` and
/// `Value::as_u64`. Claimed: the result is `json_u64_at` of the arguments.
#[verifier::external_body]
fn json_u64_field(text: &str, key: &str) -> (r: Option<u64>)
    ensures
        r == json_u64_at(text@, key@),
{
    let v: serde_json::Value = match serde_json::from_str(text) {
        Ok(v) => v,
        Err(_) => return None,
    };
    match v.get(key) {
        Some(f) => f.as_u64(),
        None => None,
    }
}

/// The seed a reset uses when the message names none.
pub const DEFAULT_RESET_SEED: u64 = 42;

/// A control message from the browser.
#[derive(Debug, Clone, Copy, PartialEq, Eq, Structural)]
pub enum Control {
    Pause,
    Resume,
    /// Run this many ticks per frame.
    Speed(u64),
    /// Start a new universe from `seed`, as a singularity when `big_bang`.
    Reset { seed: u64, big_bang: bool },
    /// Anything else: not JSON, no known action, or a speed without a count.
    Ignore,
}

/// The command a message stands for: its `"action"` names it; `"speed"`
/// takes `"ticks_per_frame"`; `"reset"` takes `"seed"` (42 when absent) and
/// `"mode"`, which is a singularity exactly when it reads `"big_bang"`.
pub open spec fn spec_control(text: Seq<char>) -> Control {
    match json_str_at(text, "action"@) {
        Some(a) => if a == "pause"@ {
            Control::Pause
        } else if a == "resume"@ {
            Control::Resume
        } else if a == "speed"@ {
            match json_u64_at(text, "ticks_per_frame"@) {
                Some(t) => Control::Speed(t),
                None => Control::Ignore,
            }
        } else if a == "reset"@ {
            Control::Reset {
                seed: match json_u64_at(text, "seed"@) {
                    Some(s) => s,
                    None => DEFAULT_RESET_SEED,
                },
                big_bang: json_str_at(text, "mode"@) == Some("big_bang"@),
            }
        } else {
            Control::Ignore
        },
        None => Control::Ignore,
    }
}

/// What each action is read as. A message without a string `"action"` is
/// ignored; `"pause"` and `"resume"` are read as such; `"speed"` is read as
/// its `"ticks_per_frame"` when that is a `u64` and ignored otherwise; a
/// reset takes the message's `"seed"` whenever it is a `u64`, whatever the
/// mode, and 42 only when there is none, while `"mode"` decides only whether
/// it starts a singularity; any other action is ignored.
pub proof fn lemma_control_actions(text: Seq<char>)
    ensures
        json_str_at(text, "action"@) is None ==> spec_control(text) == Control::Ignore,
        json_str_at(text, "action"@) == Some("pause"@) ==> spec_control(text) == Control::Pause,
        json_str_at(text, "action"@) == Some("resume"@) ==> spec_control(text) == Control::Resume,
        json_str_at(text, "action"@) == Some("speed"@) ==> (match json_u64_at(text, "ticks_per_frame"@) {
            Some(t) => spec_control(text) == Control::Speed(t),
            None => spec_control(text) == Control::Ignore,
        }),
        json_str_at(text, "action"@) == Some("reset"@) ==> {
            &&& spec_control(text) is Reset
            &&& (json_u64_at(text, "seed"@) matches Some(s) ==> spec_control(text)->seed == s)
            &&& (json_u64_at(text, "seed"@) is None ==> spec_control(text)->seed == DEFAULT_RESET_SEED)
            &&& (spec_control(text)->big_bang <==> json_str_at(text, "mode"@) == Some("big_bang"@))
        },
        (json_str_at(text, "action"@) matches Some(a) && a != "pause"@ && a != "resume"@ && a != "speed"@
            && a != "reset"@) ==> spec_control(text) == Control::Ignore,
{
    reveal_strlit("pause");
    reveal_strlit("resume");
    reveal_strlit("speed");
    reveal_strlit("reset");
    assert("resume"@.len() != "pause"@.len());
    assert("speed"@[0] != "pause"@[0]);
    assert("speed"@.len() != "resume"@.len());
    assert("reset"@[1] != "pause"@[1]);
    assert("reset"@.len() != "resume"@.len());
    assert("reset"@[1] != "speed"@[1]);
}

/// Two reset messages that carry the same `"seed"` restart from the same
/// seed, whatever their modes.
pub proof fn lemma_reset_seed_ignores_mode(t1: Seq<char>, t2: Seq<char>)
    requires
        json_str_at(t1, "action"@) == Some("reset"@),
        json_str_at(t2, "action"@) == Some("reset"@),
        json_u64_at(t1, "seed"@) == json_u64_at(t2, "seed"@),
    ensures
        spec_control(t1) is Reset,
        spec_control(t2) is Reset,
        spec_control(t1)->seed == spec_control(t2)->seed,
{
    lemma_control_actions(t1);
    lemma_control_actions(t2);
}

/// Reads one control message.
pub fn parse_control(text: &str) -> (c: Control)
    ensures
        c == spec_control(text@),
{
    let action = match json_str_field(text, "action") {
        Some(a) => a,
        None => return Control::Ignore,
    };
    if action == String::from_str("pause") {
        Control::Pause
    } else if action == String::from_str("resume") {
        Control::Resume
    } else if action == String::from_str("speed") {
        match json_u64_field(text, "ticks_per_frame") {
            Some(t) => Control::Speed(t),
            None => Control::Ignore,
        }
    } else if action == String::from_str("reset") {
        let seed = match json_u64_field(text, "seed") {
            Some(s) => s,
            None => DEFAULT_RESET_SEED,
        };
        let big_bang = match json_str_field(text, "mode") {
            Some(m) => m == String::from_str("big_bang"),
            None => false,
        };
        Control::Reset { seed, big_bang }
    } else {
        Control::Ignore
    }
}

/// What the simulation does for the next frame.
#[derive(Debug, Clone, Copy, PartialEq, Eq, Structural)]
pub enum FramePlan {
    /// Paused: wait and look again.
    Wait,
    /// Advance this many ticks, then send a frame.
    Advance(usize),
}

/// Decides the next frame: nothing while paused, otherwise the requested
/// ticks per frame, at least one.
pub fn plan_frame(paused: bool, ticks_per_frame: usize) -> (p: FramePlan)
    ensures
        paused ==> p is Wait,
        !paused ==> p == FramePlan::Advance(if ticks_per_frame == 0 { 1 } else { ticks_per_frame }),
{
    if paused {
        FramePlan::Wait
    } else if ticks_per_frame == 0 {
        FramePlan::Advance(1)
    } else {
        FramePlan::Advance(ticks_per_frame)
    }
}

} // verus!
