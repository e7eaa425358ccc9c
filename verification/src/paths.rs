use crate::text::{decimal, decimal_digits, ends_with, has_suffix};
use vstd::prelude::*;
use vstd::string::*;

verus! {

/// The text of a string in lower case.
pub uninterp spec fn lowercase(text: Seq<char>) -> Seq<char>;

/// `str::to_lowercase` gives the lowercase equivalent of the text as a new
/// string, which the contract names.
#[verifier::external_body]
fn to_lowercase(text: &str) -> (lowered: String)
    ensures
        lowered@ == lowercase(text@),
{
    text.to_lowercase()
}

/// The bytes of `.pdf`.
pub open spec fn pdf_suffix() -> Seq<u8> {
    seq![46u8, 112u8, 100u8, 102u8]
}

/// The stem handed over with a requested name, as text.
pub open spec fn stem_text(stem: Option<&str>) -> Option<Seq<char>> {
    match stem {
        Some(s) => Some(s@),
        None => None,
    }
}

/// The name of the output file for a requested name whose text in lower
/// case is `lowered`: the requested name if `lowered` ends in `.pdf`; else
/// the stem of the requested name, or the whole name where it has no stem,
/// followed by `.pdf`.
pub open spec fn output_name_given(
    file_name: Seq<char>,
    lowered: Seq<char>,
    stem: Option<Seq<char>>,
) -> Seq<char> {
    if has_suffix(vstd::utf8::encode_utf8(lowered), pdf_suffix()) {
        file_name
    } else {
        match stem {
            Some(s) => s + ".pdf"@,
            None => file_name + ".pdf"@,
        }
    }
}

/// The name of the output file for a requested name: the requested name if
/// it ends in `.pdf`, in whatever case; else the stem of the requested name,
/// or the whole name where it has no stem, followed by `.pdf`.
pub open spec fn output_name(file_name: Seq<char>, stem: Option<Seq<char>>) -> Seq<char> {
    output_name_given(file_name, lowercase(file_name), stem)
}

/// Gives the name of the output file for a requested name, given the text
/// of that name in lower case. `stem` is the requested name without its
/// extension, if it has such a stem.
pub fn output_file_name_given(file_name: &str, lowered: &str, stem: Option<&str>) -> (name: String)
    ensures
        name@ == output_name_given(file_name@, lowered@, stem_text(stem)),
{
    let suffix = vec![46u8, 112u8, 100u8, 102u8];
    assert(suffix@ =~= pdf_suffix());
    if ends_with(lowered.as_bytes(), suffix.as_slice()) {
        String::from_str(file_name)
    } else {
        match stem {
            Some(s) => String::from_str(s).concat(".pdf"),
            None => String::from_str(file_name).concat(".pdf"),
        }
    }
}

/// Gives the name of the output file for a requested name. `stem` is the
/// requested name without its extension, if it has such a stem.
pub fn output_file_name(file_name: &str, stem: Option<&str>) -> (name: String)
    ensures
        name@ == output_name(file_name@, stem_text(stem)),
{
    let lowered = to_lowercase(file_name);
    output_file_name_given(file_name, lowered.as_str(), stem)
}

/// `std::path::Path::extension` on the path that `Path::new` makes of the
/// text: the part of the file name after its last dot, where the path has
/// a file name with such a part. Which part of a path is its file name
/// depends on the platform, so nothing is claimed of the outcome.
#[verifier::external_body]
fn path_extension(file_path: &str) -> Option<String> {
    std::path::Path::new(file_path).extension().and_then(|e| e.to_str()).map(|e| e.to_string())
}

/// What is reported of the extension of a file: the extension in lower
/// case, or, where the path has none, that it could not be had.
pub open spec fn extension_report(extension: Option<Seq<char>>, file_path: Seq<char>) -> Result<
    Seq<char>,
    Seq<char>,
> {
    match extension {
        Some(e) => Ok(lowercase(e)),
        None => Err("Could not get file extension for "@ + file_path),
    }
}

/// A report as text.
pub open spec fn report_text(r: Result<String, String>) -> Result<Seq<char>, Seq<char>> {
    match r {
        Ok(e) => Ok(e@),
        Err(m) => Err(m@),
    }
}

/// Reports the extension of a file, given the extension that its path
/// has, if any.
pub fn file_ext_given(extension: Option<&str>, file_path: &str) -> (r: Result<String, String>)
    ensures
        report_text(r) == extension_report(stem_text(extension), file_path@),
{
    match extension {
        Some(e) => Ok(to_lowercase(e)),
        None => Err(String::from_str("Could not get file extension for ").concat(file_path)),
    }
}

/// Reports the extension of the file at a path, in lower case. What the
/// extension of a path is, the platform decides; the report is what
/// `extension_report` makes of it.
pub fn get_file_ext(file_path: &str) -> (r: Result<String, String>)
    ensures
        exists|extension: Option<Seq<char>>|
            report_text(r) == #[trigger] extension_report(extension, file_path@),
{
    let r = match path_extension(file_path) {
        Some(e) => file_ext_given(Some(e.as_str()), file_path),
        None => file_ext_given(None, file_path),
    };
    assert(exists|extension: Option<Seq<char>>|
        report_text(r) == #[trigger] extension_report(extension, file_path@));
    r
}

/// The stem of a candidate where the path has none.
pub open spec fn default_stem() -> Seq<char> {
    "output"@
}

/// The extension of a candidate where the path has none.
pub open spec fn default_extension() -> Seq<char> {
    "pdf"@
}

/// The name tried when the names before it are taken: stem, underscore,
/// counter, dot, extension.
pub open spec fn candidate_name(
    stem: Option<Seq<char>>,
    extension: Option<Seq<char>>,
    counter: nat,
) -> Seq<char> {
    (match stem {
        Some(s) => s,
        None => default_stem(),
    }) + "_"@ + decimal_digits(counter) + "."@ + (match extension {
        Some(e) => e,
        None => default_extension(),
    })
}

/// Gives the name to try when the output path and the candidates with
/// smaller counters are taken. `stem` and `extension` are those of the
/// output path, where it has them.
pub fn candidate_file_name(stem: Option<&str>, extension: Option<&str>, counter: u64) -> (name:
    String)
    ensures
        name@ == candidate_name(stem_text(stem), stem_text(extension), counter as nat),
{
    let mut name = match stem {
        Some(s) => String::from_str(s),
        None => String::from_str("output"),
    };
    name.append("_");
    name.append(decimal(counter).as_str());
    name.append(".");
    match extension {
        Some(e) => name.append(e),
        None => name.append("pdf"),
    }
    name
}

/// Gives the name to try at `counter`, with the counter to try if that name
/// is taken too.
pub fn next_candidate(stem: Option<&str>, extension: Option<&str>, counter: u64) -> (next: (
    String,
    u64,
))
    requires
        counter < u64::MAX,
    ensures
        next.0@ == candidate_name(stem_text(stem), stem_text(extension), counter as nat),
        next.1 == counter + 1,
{
    (candidate_file_name(stem, extension, counter), counter + 1)
}

} // verus!
