//! The plan of a whole site.

use crate::classify::{
    classify_entries, clean_below, get_input_files, lemma_no_skipped_name_classified,
    stray_link_text, Entry, EntryView, InputFile,
};
use crate::error::{SiteError, SiteErrorView};
use crate::mapping::output_path;
use crate::materialize::{copy_dir_steps, copy_file_steps, NodeView};
use crate::path::{parent_of, PathView, SitePath};
use vstd::prelude::*;

verus! {

/// What there is to do for a site: the directory that takes the output, and
/// the entries of the source that make the site up, in the order in which
/// they are brought there.
#[derive(Debug, PartialEq, Eq)]
pub struct Site {
    pub output_dir: SitePath,
    pub files: Vec<InputFile>,
}

/// The directory that takes the output of the source directory `src`: the
/// one called `dist` in it.
pub open spec fn output_dir_of(src: PathView) -> PathView {
    src.push("dist"@)
}

/// The directory that takes the output of the source directory `src_dir`.
pub fn output_dir(src_dir: &SitePath) -> (dir: SitePath)
    ensures
        dir@ == output_dir_of(src_dir@),
{
    src_dir.child("dist")
}

/// Plans the site of the source directory `src_dir`, whose entries are given
/// in listing order: the output goes to `dist` in the source directory, and
/// the entries are classified as `get_input_files` does.
pub fn generate_site(src_dir: &SitePath, entries: &Vec<Entry>) -> (site: Result<Site, SiteError>)
    ensures
        match site {
            Ok(site) => site.output_dir@ == output_dir_of(src_dir@) && classify_entries(
                src_dir@,
                entries.deep_view(),
            ) == Some(site.files.deep_view()),
            Err(error) => classify_entries(src_dir@, entries.deep_view()) is None && error@
                == SiteErrorView::Unexpected(stray_link_text()),
        },
{
    let output_dir = output_dir(src_dir);
    match get_input_files(src_dir, entries) {
        Ok(files) => Ok(Site { output_dir, files }),
        Err(error) => Err(error),
    }
}

/// Every entry of a site has a place in the output directory, and that place
/// has a parent: planning its copy cannot fail.
pub proof fn lemma_site_entries_have_places(
    src: PathView,
    entries: Seq<EntryView>,
    at: int,
    nodes: Seq<NodeView>,
)
    requires
        classify_entries(src, entries) is Some,
        0 <= at < classify_entries(src, entries)->0.len(),
    ensures
        ({
            let path = classify_entries(src, entries)->0[at].path();
            let out = output_dir_of(src);
            &&& output_path(src, out, path) is Some
            &&& out.is_prefix_of(output_path(src, out, path)->0)
            &&& output_path(src, out, path)->0.len() > out.len()
            &&& parent_of(output_path(src, out, path)->0) is Some
            &&& copy_file_steps(src, out, path) is Ok
            &&& copy_dir_steps(src, out, path, nodes) is Ok
        }),
{
    lemma_no_skipped_name_classified(src, entries);
    let path = classify_entries(src, entries)->0[at].path();
    let out = output_dir_of(src);
    assert(clean_below(src, path));
    let to = output_path(src, out, path)->0;
    assert(out =~= to.subrange(0, out.len() as int));
}

} // verus!
