//! Finding the assistant's project directory that holds a project's transcripts.
use vstd::prelude::*;
use crate::analytics::{paths_equal, same_path};
use crate::detail::{lines_of, text_lines};
use crate::text::{chars_of, string_of, strings_view};

verus! {

broadcast use vstd::string::group_string_axioms;

/// The name the assistant gives the transcript directory of a project: its
/// absolute path with every `/` written as `-`.
pub open spec fn claude_name(abs_path: Seq<char>) -> Seq<char> {
    abs_path.map_values(|c: char| if c == '/' { '-' } else { c })
}

/// Generate the assistant's project directory name from an absolute path:
/// `/Users/foo/git/project` becomes `-Users-foo-git-project`.
pub fn claude_project_name(abs_path: &str) -> (r: String)
    ensures
        r@ == claude_name(abs_path@),
{
    let cs = chars_of(abs_path);
    let mut out: Vec<char> = Vec::new();
    let mut i: usize = 0;
    while i < cs.len()
        invariant
            i <= cs@.len(),
            cs@ == abs_path@,
            out@ == claude_name(cs@.take(i as int)),
        decreases cs.len() - i,
    {
        let c = cs[i];
        out.push(if c == '/' { '-' } else { c });
        i = i + 1;
        assert(out@ =~= claude_name(cs@.take(i as int)));
    }
    assert(cs@.take(cs@.len() as int) == cs@);
    string_of(out.as_slice())
}

/// The string value of the field `key` of the JSON object that `text`
/// holds, where `text` parses as JSON and the field is a string.
pub uninterp spec fn json_string_field(text: Seq<char>, key: Seq<char>) -> Option<Seq<char>>;

/// Parses `text` with `serde_json::from_str::<serde_json::Value>`, looks the
/// field up with `Value::get` and takes it with `Value::as_str`; `None` where
/// the text is not JSON, has no such field, or the field is not a string.
/// The outcome is named by `json_string_field`.
#[verifier::external_body]
fn json_field_of(text: &str, key: &str) -> (r: Option<String>)
    ensures
        match r {
            Some(s) => json_string_field(text@, key@) == Some(s@),
            None => json_string_field(text@, key@) is None,
        },
{
    let value: serde_json::Value = serde_json::from_str(text).ok()?;
    value.get(key).and_then(|v| v.as_str()).map(|s| s.to_string())
}

/// A transcript file's content belongs to a project: its first line is a
/// JSON entry whose `cwd` is the same path as the project's.
pub open spec fn transcript_of_project(content: Seq<char>, project_path: Seq<char>) -> bool {
    let lines = text_lines(content);
    lines.len() > 0 && match json_string_field(lines[0], "cwd"@) {
        Some(cwd) => same_path(cwd, project_path),
        None => false,
    }
}

/// Whether a transcript file with this content was written in the project
/// at `project_path`.
pub fn transcript_matches_project(content: &str, project_path: &str) -> (r: bool)
    ensures
        r == transcript_of_project(content@, project_path@),
{
    let lines = lines_of(content);
    if lines.len() == 0 {
        return false;
    }
    assert(strings_view(lines@)[0] == lines@[0]@);
    match json_field_of(lines[0].as_str(), "cwd") {
        Some(cwd) => paths_equal(cwd.as_str(), project_path),
        None => false,
    }
}

} // verus!
