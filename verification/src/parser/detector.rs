//! The language of a file, from what its path, its content and its name tell.
use vstd::prelude::*;

use crate::parser::error::{ParserError, ParserErrorView};
use crate::text::{chars_of, string_of};

verus! {

/// The language of a file known by its name alone.
pub open spec fn file_name_language(name: Seq<char>) -> Option<Seq<char>> {
    if name == ".envrc"@ {
        Some("bash"@)
    } else if name == ".gitattributes"@ {
        Some("gitattributes"@)
    } else if name == ".gitignore"@ {
        Some("gitignore"@)
    } else if name == ".prettierrc"@ {
        Some("json"@)
    } else if name == "Cargo.lock"@ {
        Some("toml"@)
    } else if name == "flake.lock"@ {
        Some("json"@)
    } else if name == "justfile"@ {
        Some("just"@)
    } else {
        None
    }
}

pub open spec fn str_view(s: Option<&str>) -> Option<Seq<char>> {
    match s {
        Some(t) => Some(t@),
        None => None,
    }
}

/// What the path tells, else what the content tells, else what the file name
/// tells; an unsupported file type when none tells.
pub open spec fn detect_spec(
    path: Seq<char>,
    by_path: Option<Seq<char>>,
    by_content: Option<Seq<char>>,
    file_name: Option<Seq<char>>,
) -> Result<Seq<char>, ParserErrorView> {
    match by_path {
        Some(l) => Ok(l),
        None => match by_content {
            Some(l) => Ok(l),
            None => match file_name {
                Some(n) => match file_name_language(n) {
                    Some(l) => Ok(l),
                    None => Err(ParserErrorView::UnsupportedFileType { path }),
                },
                None => Err(ParserErrorView::UnsupportedFileType { path }),
            },
        },
    }
}

fn same_text(a: &str, b: &str) -> (r: bool)
    ensures
        r == (a@ == b@),
{
    let x = chars_of(a);
    let y = chars_of(b);
    if x.len() != y.len() {
        return false;
    }
    let mut i: usize = 0;
    while i < x.len()
        invariant
            i <= x.len() == y.len(),
            x@ == a@,
            y@ == b@,
            forall|k: int| 0 <= k < i ==> x@[k] == y@[k],
        decreases x.len() - i,
    {
        if x[i] != y[i] {
            return false;
        }
        i = i + 1;
    }
    assert(x@ =~= y@);
    true
}

fn owned(s: &str) -> (r: String)
    ensures
        r@ == s@,
{
    string_of(chars_of(s).as_slice())
}

fn name_language(name: &str) -> (r: Option<String>)
    ensures
        match r {
            Some(l) => file_name_language(name@) == Some(l@),
            None => file_name_language(name@) is None,
        },
{
    if same_text(name, ".envrc") {
        Some(owned("bash"))
    } else if same_text(name, ".gitattributes") {
        Some(owned("gitattributes"))
    } else if same_text(name, ".gitignore") {
        Some(owned("gitignore"))
    } else if same_text(name, ".prettierrc") {
        Some(owned("json"))
    } else if same_text(name, "Cargo.lock") {
        Some(owned("toml"))
    } else if same_text(name, "flake.lock") {
        Some(owned("json"))
    } else if same_text(name, "justfile") {
        Some(owned("just"))
    } else {
        None
    }
}

/// The language of the file at `path`, given what its path or extension
/// tells (`by_path`), what its content tells (`by_content`, from a shebang
/// line) and its file name.
pub fn detect(path: &str, by_path: Option<&str>, by_content: Option<&str>, file_name: Option<&str>) -> (r:
    Result<String, ParserError>)
    ensures
        match r {
            Ok(l) => detect_spec(path@, str_view(by_path), str_view(by_content), str_view(file_name))
                == Ok::<Seq<char>, ParserErrorView>(l@),
            Err(e) => detect_spec(path@, str_view(by_path), str_view(by_content), str_view(file_name))
                == Err::<Seq<char>, ParserErrorView>(e@),
        },
{
    if let Some(l) = by_path {
        return Ok(owned(l));
    }
    if let Some(l) = by_content {
        return Ok(owned(l));
    }
    if let Some(n) = file_name {
        if let Some(l) = name_language(n) {
            return Ok(l);
        }
    }
    Err(ParserError::UnsupportedFileType { path: owned(path) })
}

} // verus!
