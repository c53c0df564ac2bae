//! What the platform tells about a process, and which application a helper
//! process belongs to by its name.
use vstd::prelude::*;
use crate::text::{chars_of, contains_chars, has_prefix, has_substring, lowercase, lowercase_chars, starts_with_chars};

verus! {

/// The application that a process with the lowercased name `l` is a helper
/// of, if its name marks it as one.
pub open spec fn parent_app_rule(l: Seq<char>) -> Option<Seq<char>> {
    if has_substring(l, "webkit"@) && has_prefix(l, "com.apple.webkit"@) {
        Some("Safari"@)
    } else if has_substring(l, "google chrome helper"@) {
        Some("Google Chrome"@)
    } else if has_substring(l, "firefox"@) && has_substring(l, "helper"@) {
        Some("Firefox"@)
    } else if has_substring(l, "slack"@) && has_substring(l, "helper"@) {
        Some("Slack"@)
    } else if (has_substring(l, "code helper"@) || has_substring(l, "electron helper"@))
        && has_substring(l, "code"@) {
        Some("Code"@)
    } else {
        None
    }
}

/// The result of `parent_app_rule` as a string.
pub open spec fn app_name_matches(r: Option<&'static str>, expected: Option<Seq<char>>) -> bool {
    match r {
        Some(a) => expected == Some(a@),
        None => expected is None,
    }
}

/// Whether the lowercased name `lower` contains the text `pattern`.
fn contains_text(lower: &Vec<char>, pattern: &str) -> (b: bool)
    ensures
        b == has_substring(lower@, pattern@),
{
    let p = chars_of(pattern);
    contains_chars(lower, &p)
}

/// The application that a process is a helper of, given its lowercased
/// name.
pub fn parent_app_for_lowercase(lower: &Vec<char>) -> (r: Option<&'static str>)
    ensures
        app_name_matches(r, parent_app_rule(lower@)),
{
    let webkit = contains_text(lower, "webkit");
    let apple = starts_with_chars(lower, &chars_of("com.apple.webkit"));
    if webkit && apple {
        return Some("Safari");
    }
    if contains_text(lower, "google chrome helper") {
        return Some("Google Chrome");
    }
    let helper = contains_text(lower, "helper");
    if contains_text(lower, "firefox") && helper {
        return Some("Firefox");
    }
    if contains_text(lower, "slack") && helper {
        return Some("Slack");
    }
    if contains_text(lower, "code helper") || contains_text(lower, "electron helper") {
        if contains_text(lower, "code") {
            return Some("Code");
        }
    }
    None
}

/// The application that the process named `process_name` is a helper of,
/// judged by its name with case ignored. Only macOS names helpers this
/// way: on other platforms (`on_macos` false) there is none.
pub fn get_parent_app_name(process_name: &str, on_macos: bool) -> (r: Option<&'static str>)
    ensures
        app_name_matches(
            r,
            if on_macos {
                parent_app_rule(lowercase(process_name@))
            } else {
                None
            },
        ),
{
    if !on_macos {
        return None;
    }
    let lower = lowercase_chars(process_name);
    parent_app_for_lowercase(&lower)
}

/// The process responsible for process `pid`, from what the platform
/// reported for it: a positive pid other than `pid` itself.
pub fn get_responsible_pid(pid: u32, reported: i32) -> (r: Option<u32>)
    ensures
        r == (if reported > 0 && reported != pid {
            Some(reported as u32)
        } else {
            None
        }),
{
    if reported > 0 && (reported as i64) != (pid as i64) {
        Some(reported as u32)
    } else {
        None
    }
}

/// The process group of a process, from the platform's answer: the status
/// it returned and the group id it filled in. A non-positive status means
/// the platform could not tell.
pub fn get_process_group(status: i32, group: u32) -> (r: Option<u32>)
    ensures
        r == (if status > 0 {
            Some(group)
        } else {
            None
        }),
{
    if status > 0 {
        Some(group)
    } else {
        None
    }
}

} // verus!
