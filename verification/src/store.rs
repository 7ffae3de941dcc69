//! Where graphs are stored.

use crate::layout::{describe_json_error, json_document, json_error_text, parse_json};
use crate::paths::{is_file_name, is_joined, is_text_dir, joined_path, path_join, path_text};
use crate::text::{chars_of, sort_texts, sorted_texts, views};
use std::path::PathBuf;
use vstd::prelude::*;

verus! {

/// A directory of graphs.
pub struct GraphStore {
    pub dir: PathBuf,
}

/// Whether a graph can have this name.
pub open spec fn is_graph_name(name: Seq<char>) -> bool {
    name.len() > 0 && !name.contains('/') && !name.contains('\\')
}

fn has_char(chars: &Vec<char>, c: char) -> (r: bool)
    ensures
        r == chars@.contains(c),
{
    let mut i: usize = 0;
    while i < chars.len()
        invariant
            i <= chars@.len(),
            forall|j: int| 0 <= j < i ==> chars@[j] != c,
        decreases chars@.len() - i,
    {
        if chars[i] == c {
            return true;
        }
        i = i + 1;
    }
    false
}

impl GraphStore {
    pub fn new(dir: PathBuf) -> (r: GraphStore)
        ensures
            r.dir == dir,
    {
        GraphStore { dir }
    }

    /// The file of a graph; the separator between the directory and the name is
    /// that of the platform.
    pub fn path(&self, name: &str) -> (r: Result<PathBuf, String>)
        ensures
            r is Ok <==> is_graph_name(name@),
            r matches Err(message) ==> message@ == "invalid graph name '"@ + name@ + "'"@,
            r matches Ok(path) ==> path == joined_path(self.dir, name@ + ".json"@),
            r matches Ok(path) ==> (is_text_dir(self.dir) && !name@.contains(':')
                ==> path_text(path) is Some && is_joined(
                path_text(self.dir).unwrap(),
                name@ + ".json"@,
                path_text(path).unwrap(),
            )),
    {
        let chars = chars_of(name);
        if chars.len() == 0 || has_char(&chars, '/') || has_char(&chars, '\\') {
            let mut message = String::new();
            message.append("invalid graph name '");
            message.append(name);
            message.append("'");
            proof {
                assert(message@ =~= "invalid graph name '"@ + name@ + "'"@);
            }
            return Err(message);
        }
        let mut file = name.to_owned();
        file.append(".json");
        proof {
            reveal_strlit(".json");
            if !name@.contains(':') {
                assert(is_file_name(file@)) by {
                    assert forall|i: int| 0 <= i < file@.len() implies #[trigger] file@[i] != '/'
                        && file@[i] != '\\' && file@[i] != ':' by {
                        if i < name@.len() {
                            assert(name@.contains(name@[i]));
                        }
                    }
                }
            }
        }
        Ok(path_join(&self.dir, file.as_str()))
    }
}

/// What `serde_json::to_string_pretty` makes of a document.
pub uninterp spec fn json_pretty_text(value: serde_json::Value) -> Result<
    Seq<char>,
    serde_json::Error,
>;

/// `serde_json::to_string_pretty` of a document. That reading the text gives the
/// document back is not stated: a number that is not an integer may be read as
/// one next to it.
#[verifier::external_body]
fn print_json(value: &serde_json::Value) -> (r: Result<String, serde_json::Error>)
    ensures
        json_pretty_text(*value) == match r {
            Ok(text) => Ok::<Seq<char>, serde_json::Error>(text@),
            Err(error) => Err(error),
        },
{
    serde_json::to_string_pretty(value)
}

/// The document in the file of a graph, whose path is shown as `path` where its
/// contents are no JSON.
pub fn decode_graph_text(path: &str, contents: &str) -> (r: Result<serde_json::Value, String>)
    ensures
        match json_document(contents@) {
            Ok(value) => r == Ok::<serde_json::Value, String>(value),
            Err(error) => r matches Err(message) && message@ == "invalid JSON in '"@ + path@
                + "': "@ + json_error_text(error),
        },
{
    match parse_json(contents) {
        Ok(value) => Ok(value),
        Err(error) => {
            let mut message = String::new();
            message.append("invalid JSON in '");
            message.append(path);
            message.append("': ");
            message.append(describe_json_error(&error).as_str());
            proof {
                assert(message@ =~= "invalid JSON in '"@ + path@ + "': "@ + json_error_text(error));
            }
            Err(message)
        },
    }
}

/// The contents of the file of a graph, which holds a document.
pub fn encode_graph_text(name: &str, value: &serde_json::Value) -> (r: Result<String, String>)
    ensures
        match json_pretty_text(*value) {
            Ok(text) => r matches Ok(contents) && contents@ == text,
            Err(error) => r matches Err(message) && message@ == "failed to encode graph '"@ + name@
                + "': "@ + json_error_text(error),
        },
{
    match print_json(value) {
        Ok(contents) => Ok(contents),
        Err(error) => {
            let mut message = String::new();
            message.append("failed to encode graph '");
            message.append(name);
            message.append("': ");
            message.append(describe_json_error(&error).as_str());
            proof {
                assert(message@ =~= "failed to encode graph '"@ + name@ + "': "@ + json_error_text(
                    error,
                ));
            }
            Err(message)
        },
    }
}

/// An entry of the directory: the extension and the stem of its name, where
/// these are text.
pub struct DirEntryName {
    pub extension: Option<String>,
    pub stem: Option<String>,
}

/// The stems of the first `n` entries that are graphs.
pub open spec fn graph_stems(entries: Seq<DirEntryName>, n: nat) -> Seq<Seq<char>>
    decreases n,
{
    if n == 0 {
        Seq::empty()
    } else {
        let rest = graph_stems(entries, (n - 1) as nat);
        let e = entries[n - 1];
        if e.extension is Some && e.extension.unwrap()@ == "json"@ && e.stem is Some {
            rest.push(e.stem.unwrap()@)
        } else {
            rest
        }
    }
}

/// The names of the graphs in a directory, in ascending order.
pub fn list_graphs(entries: &Vec<DirEntryName>) -> (r: Vec<String>)
    ensures
        views(r@) == sorted_texts(graph_stems(entries@, entries@.len())),
{
    let mut names: Vec<String> = Vec::new();
    let mut i: usize = 0;
    proof {
        assert(views(names@) =~= Seq::<Seq<char>>::empty());
    }
    while i < entries.len()
        invariant
            i <= entries@.len(),
            views(names@) == graph_stems(entries@, i as nat),
        decreases entries@.len() - i,
    {
        let is_json = match &entries[i].extension {
            Some(extension) => crate::text::same_text(extension.as_str(), "json"),
            None => false,
        };
        if is_json {
            if let Some(stem) = &entries[i].stem {
                let ghost before = names@;
                names.push(stem.clone());
                proof {
                    assert(views(names@) =~= views(before).push(stem@));
                }
            }
        }
        i = i + 1;
    }
    sort_texts(&names)
}

} // verus!
