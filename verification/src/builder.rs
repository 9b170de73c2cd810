//! Naming of generated files, and the decisions of a directory build.

use vstd::prelude::*;
use vstd::string::StringExecFns;
use crate::error::CodegenError;

verus! {

/// The file stem of a path as std's `Path::file_stem` computes it, as text.
pub uninterp spec fn path_file_stem(path: Seq<char>) -> Option<Seq<char>>;

/// The file stem of `path`.
///
/// Calls std's `Path::file_stem` on `path` and turns the stem into text;
/// the contract names the result `path_file_stem(path)` and claims nothing
/// more of it.
#[verifier::external_body]
fn file_stem(path: &str) -> (r: Option<String>)
    ensures
        match r {
            Some(s) => path_file_stem(path@) == Some(s@),
            None => path_file_stem(path@) is None,
        },
{
    std::path::Path::new(path).file_stem().and_then(|s| s.to_str()).map(|s| s.to_string())
}

/// The name of the generated file for a definition with file stem `stem`:
/// the stem with the extension `.rs`, or `generated.rs` without a stem.
pub open spec fn output_filename(stem: Option<Seq<char>>) -> Seq<char> {
    match stem {
        Some(s) => s + ".rs"@,
        None => "generated.rs"@,
    }
}

/// Names the generated file for a definition with file stem `stem`.
pub fn output_filename_for_stem(stem: Option<String>) -> (r: String)
    ensures
        r@ == output_filename(
            match stem {
                Some(s) => Some(s@),
                None => None,
            },
        ),
{
    match stem {
        Some(s) => s.concat(".rs"),
        None => "generated.rs".to_owned(),
    }
}

/// Extracts the output filename from the input path, for example
/// `cat048.xml` gives `cat048.rs`.
pub fn extract_output_filename(input_path: &str) -> (r: String)
    ensures
        r@ == output_filename(path_file_stem(input_path@)),
{
    let stem = file_stem(input_path);
    output_filename_for_stem(stem)
}

/// What a directory build does with one directory entry.
#[derive(Debug)]
pub enum EntryAction {
    /// The entry is not an XML definition: leave it alone.
    Skip,
    /// Build the definition at this path.
    Build(String),
    /// Stop the directory build with this error.
    Fail(CodegenError),
}

/// An entry whose extension, as text, is `xml`.
pub open spec fn is_xml_entry(extension: Option<String>) -> bool {
    extension matches Some(e) && e@ == "xml"@
}

/// Decides what a directory build does with an entry, given the entry's
/// extension and its path, each as text when it is valid UTF-8: an entry
/// whose path is not valid UTF-8 stops the build with `InvalidPath`;
/// otherwise only `xml` entries are built.
pub fn entry_action(extension: Option<String>, path_text: Option<String>) -> (a: EntryAction)
    ensures
        path_text is None ==> a matches EntryAction::Fail(CodegenError::InvalidPath),
        path_text is Some && !is_xml_entry(extension) ==> a is Skip,
        is_xml_entry(extension) ==> (path_text matches Some(p) ==> (a matches EntryAction::Build(q)
            && q@ == p@)),
{
    let p = match path_text {
        Some(p) => p,
        None => {
            return EntryAction::Fail(CodegenError::InvalidPath);
        },
    };
    let xml = match extension {
        Some(e) => e == "xml".to_owned(),
        None => false,
    };
    if xml {
        EntryAction::Build(p)
    } else {
        EntryAction::Skip
    }
}

/// Records the outcome of building one definition of a directory: a
/// generated file is appended to the list, and a failure is skipped.
pub fn record_build(generated: &mut Vec<String>, result: Result<String, CodegenError>)
    ensures
        final(generated)@ == match result {
            Ok(p) => old(generated)@.push(p),
            Err(_) => old(generated)@,
        },
{
    match result {
        Ok(p) => generated.push(p),
        Err(_) => {},
    }
}

} // verus!
