//! File names derived from input names: the stem of a path and where the
//! compiled circuit of an input is written.
use vstd::prelude::*;
use crate::text::{push_str, string_push, str_chars, string_from_chars};

verus! {

/// What `Path::file_stem` gives for the path `p`, as text.
pub uninterp spec fn file_stem_of(p: Seq<char>) -> Option<Seq<char>>;

/// What `Path::parent` gives for the path `p`, as text.
pub uninterp spec fn parent_of(p: Seq<char>) -> Option<Seq<char>>;

/// Calls `Path::file_stem` on `p`: the final component of the path without
/// its extension, if the path has a final component. The result is what the
/// name `file_stem_of` stands for; nothing more is stated of it.
#[verifier::external_body]
pub(crate) fn file_stem(p: &str) -> (r: Option<String>)
    ensures
        file_stem_of(p@) == (match r { Some(s) => Some(s@), None => None }),
{
    let stem = std::path::Path::new(p).file_stem()?;
    let text = stem.to_str()?;
    Some(text.to_string())
}

/// Calls `Path::parent` on `p`: the path without its final component, if it
/// has one. The result is what the name `parent_of` stands for; nothing more
/// is stated of it.
#[verifier::external_body]
pub(crate) fn parent(p: &str) -> (r: Option<String>)
    ensures
        parent_of(p@) == (match r { Some(s) => Some(s@), None => None }),
{
    let dir = std::path::Path::new(p).parent()?;
    let text = dir.to_str()?;
    Some(text.to_string())
}

/// The given stem, or `default` when there is none.
pub fn stem_or(stem: Option<String>, default: &str) -> (r: String)
    ensures
        r@ == (match stem { Some(s) => s@, None => default@ }),
{
    match stem {
        Some(s) => s,
        None => {
            let mut r = String::new();
            push_str(&mut r, default);
            r
        },
    }
}

/// `s` without its trailing slashes.
pub open spec fn trim_end_slashes(s: Seq<char>) -> Seq<char>
    decreases s.len(),
{
    if s.len() > 0 && s.last() == '/' { trim_end_slashes(s.drop_last()) } else { s }
}

/// Where the compiled circuit of an input goes, given the input's stem and
/// parent directory: with an explicit output and several inputs, into that
/// directory; with an explicit output and one input, to that file; else next
/// to the input ("." when the input names no directory). The file is named
/// `<stem>.cliffordt.qasm`, with stem "out" when the input has none.
pub open spec fn output_path_spec(stem: Option<Seq<char>>, parent: Option<Seq<char>>, output: Option<Seq<char>>, multiple_inputs: bool) -> Seq<char> {
    let st = match stem { Some(s) => s, None => "out"@ };
    match output {
        Some(o) => if multiple_inputs { trim_end_slashes(o) + seq!['/'] + st + ".cliffordt.qasm"@ } else { o },
        None => {
            let dir = match parent {
                Some(p) => if p.len() > 0 { p } else { "."@ },
                None => "."@,
            };
            dir + seq!['/'] + st + ".cliffordt.qasm"@
        },
    }
}

/// `s` without its trailing slashes.
fn trim_end_slash(s: &str) -> (r: String)
    ensures
        r@ == trim_end_slashes(s@),
{
    let mut cs = str_chars(s);
    while cs.len() > 0 && cs[cs.len() - 1] == '/'
        invariant
            trim_end_slashes(cs@) == trim_end_slashes(s@),
        decreases cs.len(),
    {
        cs.pop();
    }
    string_from_chars(&cs)
}

/// The output path from the input's stem and parent directory, as
/// `output_path_spec` says.
pub fn output_path_from(stem: Option<String>, parent: Option<String>, output: &Option<String>, multiple_inputs: bool) -> (r: String)
    ensures
        r@ == output_path_spec(
            match stem { Some(s) => Some(s@), None => None },
            match parent { Some(p) => Some(p@), None => None },
            match output { Some(o) => Some(o@), None => None },
            multiple_inputs,
        ),
{
    let st = stem_or(stem, "out");
    match output {
        Some(o) => {
            if multiple_inputs {
                let mut r = trim_end_slash(o.as_str());
                string_push(&mut r, '/');
                push_str(&mut r, st.as_str());
                push_str(&mut r, ".cliffordt.qasm");
                r
            } else {
                o.clone()
            }
        },
        None => {
            let mut r = String::new();
            match parent {
                Some(p) => {
                    if !p.as_str().is_empty() {
                        push_str(&mut r, p.as_str());
                    } else {
                        push_str(&mut r, ".");
                    }
                },
                None => {
                    push_str(&mut r, ".");
                },
            }
            string_push(&mut r, '/');
            push_str(&mut r, st.as_str());
            push_str(&mut r, ".cliffordt.qasm");
            r
        },
    }
}

/// Where the compiled circuit of `input` is written: next to the input as
/// `<stem>.cliffordt.qasm`, or at `output` (a directory when there are
/// several inputs).
pub fn output_path(input: &str, output: &Option<String>, multiple_inputs: bool) -> (r: String)
    ensures
        r@ == output_path_spec(file_stem_of(input@), parent_of(input@),
            match output { Some(o) => Some(o@), None => None }, multiple_inputs),
{
    let stem = file_stem(input);
    let dir = parent(input);
    output_path_from(stem, dir, output, multiple_inputs)
}

} // verus!
