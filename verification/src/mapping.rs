//! Where an entry of the source tree goes under the output directory.

use crate::error::{SiteError, SiteErrorView};
use crate::names::ends_with;
use crate::path::{joined, parent_of, PathView, SitePath};
use vstd::prelude::*;
use vstd::string::*;

verus! {

/// The ending that marks a template and is left out of the output's name.
pub open spec fn marker() -> Seq<char> {
    ".jinja"@
}

/// A name carries the marker when it ends with it and has something before
/// it: it is then the name's extension.
pub open spec fn has_marker(name: Seq<char>) -> bool {
    name.len() > marker().len() && marker().is_suffix_of(name)
}

/// A name without the marker at its end.
pub open spec fn without_marker(name: Seq<char>) -> Seq<char> {
    name.take(name.len() - marker().len())
}

/// A path with the marker taken off its last name, if that carries it.
pub open spec fn unmarked(path: PathView) -> PathView {
    if path.len() > 0 && has_marker(path.last()) {
        path.drop_last().push(without_marker(path.last()))
    } else {
        path
    }
}

/// The place of `input` under `out`: `out`, then what follows `src` in
/// `input`, unmarked. There is none where `input` does not begin with `src`.
pub open spec fn output_path(src: PathView, out: PathView, input: PathView) -> Option<PathView> {
    if src.is_prefix_of(input) {
        Some(out + unmarked(input.skip(src.len() as int)))
    } else {
        None
    }
}

/// What is reported of a path that no directory holds: the path without
/// names, or the root.
pub open spec fn no_parent_text(path: PathView) -> Seq<char> {
    "Parent dir could not be found: "@ + joined(path)
}

/// The path with the marker taken off its last name, if that carries it.
fn strip_marker(path: SitePath) -> (plain: SitePath)
    ensures
        plain@ == unmarked(path@),
{
    let n = path.len();
    if n == 0 {
        return path;
    }
    let name = path.components[n - 1].as_str();
    let length = name.unicode_len();
    proof {
        reveal_strlit(".jinja");
    }
    if length > 6 && ends_with(name, ".jinja") {
        let mut plain = path.slice(0, n - 1);
        plain.push(name.substring_char(0, length - 6));
        assert(name@.subrange(0, length - 6) =~= without_marker(name@));
        plain
    } else {
        path
    }
}

/// Maps the path of an entry under `src_dir` to its place under
/// `output_dir`.
pub fn to_output_path(src_dir: &SitePath, output_dir: &SitePath, input_path: &SitePath) -> (mapped:
    Result<SitePath, SiteError>)
    ensures
        match mapped {
            Ok(path) => output_path(src_dir@, output_dir@, input_path@) == Some(path@),
            Err(error) => output_path(src_dir@, output_dir@, input_path@) is None && error@
                == SiteErrorView::StripPrefix,
        },
{
    match input_path.strip_prefix(src_dir) {
        Some(rel_path) => Ok(output_dir.join(&strip_marker(rel_path))),
        None => Err(SiteError::StripPrefix),
    }
}

/// The directory that has to exist before `path` can be written: the one
/// that holds it. The path without names and the root have none, which is
/// reported.
pub fn ensure_parent_dir(path: &SitePath) -> (parent: Result<SitePath, SiteError>)
    ensures
        match parent {
            Ok(dir) => parent_of(path@) == Some(dir@),
            Err(error) => parent_of(path@) is None && error@ == SiteErrorView::Unexpected(
                no_parent_text(path@),
            ),
        },
{
    match path.parent() {
        Some(dir) => Ok(dir),
        None => {
            let text = "Parent dir could not be found: ".to_owned().concat(path.text().as_str());
            Err(SiteError::Unexpected(text))
        },
    }
}

/// A page goes to the place that mirrors its own, under a name that differs
/// from its own by the marker at the end and by nothing else; the name that
/// it gets carries no marker any more.
pub proof fn lemma_page_loses_marker_only(src: PathView, out: PathView, input: PathView)
    requires
        src.is_prefix_of(input),
        input.len() > src.len(),
        crate::names::is_page_name(input.last()),
    ensures
        output_path(src, out, input) is Some,
        ({
            let to = output_path(src, out, input)->0;
            &&& to.len() == out.len() + (input.len() - src.len())
            &&& to.drop_last() == out + input.subrange(src.len() as int, input.len() - 1)
            &&& to.last() + marker() == input.last()
            &&& ".html"@.is_suffix_of(to.last())
            &&& !has_marker(to.last())
            &&& unmarked(to) == to
        }),
{
    reveal_strlit(".jinja");
    reveal_strlit(".html");
    reveal_strlit(".html.jinja");
    let rel = input.skip(src.len() as int);
    let name = input.last();
    let stem = without_marker(name);
    assert(rel.last() == name);
    assert(".jinja"@ =~= name.subrange(name.len() - 6, name.len() as int)) by {
        let tail = name.subrange(name.len() - 11, name.len() as int);
        assert(tail == ".html.jinja"@);
        assert forall|i: int| 0 <= i < 6 implies ".jinja"@[i] == name[name.len() - 6 + i] by {
            assert(tail[5 + i] == name[name.len() - 11 + 5 + i]);
        }
    }
    assert(has_marker(name));
    let to = out + rel.drop_last().push(stem);
    assert(output_path(src, out, input) == Some(to));
    assert(to.drop_last() =~= out + input.subrange(src.len() as int, input.len() - 1));
    assert(to.last() == stem);
    assert(stem + marker() =~= name);
    assert(".html"@ =~= stem.subrange(stem.len() - 5, stem.len() as int)) by {
        let tail = name.subrange(name.len() - 11, name.len() as int);
        assert forall|i: int| 0 <= i < 5 implies ".html"@[i] == stem[stem.len() - 5 + i] by {
            assert(tail[i] == name[name.len() - 11 + i]);
        }
    }
    assert(!has_marker(stem)) by {
        if has_marker(stem) {
            let tail = stem.subrange(stem.len() - 6, stem.len() as int);
            assert(tail == ".jinja"@);
            assert(tail[5] == stem[stem.len() - 1]);
            let html = stem.subrange(stem.len() - 5, stem.len() as int);
            assert(html[4] == stem[stem.len() - 1]);
        }
    }
}

} // verus!
