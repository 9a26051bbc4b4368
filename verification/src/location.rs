//! Locations in files as the client receives them: a `file:` URL and a range.

use vstd::prelude::*;
use crate::parse::SymbolDef;
use crate::position::{span_range_spec, span_to_range, Range};
use crate::text::{lines, split_lines, views_of};

verus! {

#[verifier::external_type_specification]
#[verifier::external_body]
pub struct ExUrl(lsp_types::Url);

/// A path that no platform takes as absolute: it starts with neither `/` nor
/// `\`, and has no `:` as its second character (no disk prefix).
pub open spec fn never_absolute(p: Seq<char>) -> bool {
    !(p.len() > 0 && (p[0] == '/' || p[0] == '\\')) && !(p.len() > 1 && p[1] == ':')
}

/// `Url::from_file_path`: the `file:` URL of a path. The url crate returns an
/// error for every path that is not absolute, so a path that no platform
/// takes as absolute gets none. Since what counts as absolute differs between
/// platforms (on Windows a disk or UNC prefix is needed), no clause states
/// when the result is `Some`, nor which URL it is.
#[verifier::external_body]
pub fn path_to_uri(path: &str) -> (r: Option<lsp_types::Url>)
    ensures
        never_absolute(path@) ==> r is None,
{
    lsp_types::Url::from_file_path(path).ok()
}

/// `Url`'s `clone`, which `derive(Clone)` writes in the url crate: a copy of
/// every field, so the clone equals the original.
pub assume_specification[ <lsp_types::Url as Clone>::clone ](u: &lsp_types::Url) -> (r: lsp_types::Url)
    ensures
        r == *u,
;

/// Whether each entry holds a URL.
pub open spec fn url_flags(uris: Seq<Option<lsp_types::Url>>) -> Seq<bool> {
    uris.map_values(|u: Option<lsp_types::Url>| u is Some)
}

/// A range in a file: the file's URL, the file's path and the range.
pub struct Location {
    pub uri: lsp_types::Url,
    pub path: String,
    pub range: Range,
}

/// Line `k` of `text`, if it has one.
pub fn line_at(text: &str, k: usize) -> (r: Option<String>)
    ensures
        match r {
            Some(l) => k < lines(text@).len() && l@ == lines(text@)[k as int],
            None => k >= lines(text@).len(),
        },
{
    let ls = split_lines(text);
    if k < ls.len() {
        proof {
            assert(views_of(ls@)[k as int] == ls@[k as int]@);
        }
        Some(crate::paths::string_from_chars(&ls[k]))
    } else {
        None
    }
}

/// Where the name of definition `sym` stands in `file`, whose text is `text`
/// and whose URL is `uri`: none when the text has no line `sym.line` or
/// `file` has no URL.
pub fn symbol_location_at(file: &String, text: &str, sym: &SymbolDef, uri: Option<lsp_types::Url>) -> (r: Option<
    Location,
>)
    ensures
        match r {
            Some(loc) => {
                &&& sym.line < lines(text@).len()
                &&& uri == Some(loc.uri)
                &&& loc.path@ == file@
                &&& loc.range == span_range_spec(sym.line, lines(text@)[sym.line as int], sym.name_span)
            },
            None => sym.line as int >= lines(text@).len() || uri is None,
        },
{
    let line = match line_at(text, sym.line as usize) {
        Some(l) => l,
        None => return None,
    };
    match uri {
        Some(u) => Some(Location { uri: u, path: file.clone(), range: span_to_range(sym.line, line.as_str(), sym.name_span) }),
        None => None,
    }
}

/// Where the name of definition `sym` stands in `file`, whose text is `text`;
/// none when the text has no line `sym.line` or `file` has no URL.
pub fn symbol_location(file: &String, text: &str, sym: &SymbolDef) -> (r: Option<Location>)
    ensures
        sym.line as int >= lines(text@).len() ==> r is None,
        never_absolute(file@) ==> r is None,
        r matches Some(loc) ==> sym.line < lines(text@).len() && loc.path@ == file@ && loc.range
            == span_range_spec(sym.line, lines(text@)[sym.line as int], sym.name_span),
{
    symbol_location_at(file, text, sym, path_to_uri(file.as_str()))
}

} // verus!
