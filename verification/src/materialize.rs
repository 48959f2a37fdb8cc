//! The steps that bring one classified entry into the output.

use crate::classify::{InputFile, InputFileView};
use crate::engine::render_template;
use crate::error::{SiteError, SiteErrorView};
use crate::mapping::{ensure_parent_dir, no_parent_text, output_path, to_output_path};
use crate::path::{joined, parent_of, PathView, SitePath};
use vstd::prelude::*;

verus! {

/// One thing to do on disk.
#[derive(Debug, PartialEq, Eq)]
pub enum Step {
    /// Make sure that this directory exists: where it does not, create it,
    /// and only it. The directory that holds it is the business of an
    /// earlier step.
    EnsureDir(SitePath),
    /// Copy the bytes of the file `from` to the file `to`, replacing it.
    CopyFile { from: SitePath, to: SitePath },
    /// Write `content` to the file `to`, creating or emptying it first.
    WriteFile { to: SitePath, content: Vec<u8> },
}

/// What a step is in contracts.
pub enum StepView {
    EnsureDir(PathView),
    CopyFile { from: PathView, to: PathView },
    WriteFile { to: PathView, content: Seq<u8> },
}

impl View for Step {
    type V = StepView;

    open spec fn view(&self) -> StepView {
        match self {
            Step::EnsureDir(dir) => StepView::EnsureDir(dir@),
            Step::CopyFile { from, to } => StepView::CopyFile { from: from@, to: to@ },
            Step::WriteFile { to, content } => StepView::WriteFile { to: to@, content: content@ },
        }
    }
}

impl StepView {
    /// The directory or file that the step makes.
    pub open spec fn target(self) -> PathView {
        match self {
            StepView::EnsureDir(dir) => dir,
            StepView::CopyFile { to, .. } => to,
            StepView::WriteFile { to, .. } => to,
        }
    }
}

impl Step {
    /// The directory or file that the step makes.
    pub fn target(&self) -> (path: &SitePath)
        ensures
            path@ == self@.target(),
    {
        match self {
            Step::EnsureDir(dir) => dir,
            Step::CopyFile { to, .. } => to,
            Step::WriteFile { to, .. } => to,
        }
    }
}

impl DeepView for Step {
    type V = StepView;

    open spec fn deep_view(&self) -> StepView {
        self@
    }
}

/// What lies in a directory that is copied whole.
#[derive(Debug, PartialEq, Eq)]
pub enum Node {
    /// Anything that is not a directory.
    File { name: String },
    /// A directory, with what lies in it in listing order.
    Dir { name: String, nodes: Vec<Node> },
}

/// What a node is in contracts.
pub enum NodeView {
    File { name: Seq<char> },
    Dir { name: Seq<char>, nodes: Seq<NodeView> },
}

impl View for Node {
    type V = NodeView;

    open spec fn view(&self) -> NodeView
        decreases self,
    {
        match self {
            Node::File { name } => NodeView::File { name: name@ },
            Node::Dir { name, nodes } => NodeView::Dir {
                name: name@,
                nodes: Seq::new(
                    nodes@.len(),
                    |i: int|
                        if 0 <= i < nodes@.len() {
                            nodes@[i]@
                        } else {
                            arbitrary()
                        },
                ),
            },
        }
    }
}

impl DeepView for Node {
    type V = NodeView;

    open spec fn deep_view(&self) -> NodeView {
        self@
    }
}

/// The view of a directory node holds the views of its nodes.
pub proof fn lemma_dir_node_view(node: Node)
    requires
        node is Dir,
    ensures
        node@ == (NodeView::Dir { name: node->Dir_name@, nodes: node->nodes.deep_view() }),
{
    reveal_with_fuel(<Node as View>::view, 2);
    assert(node@->nodes =~= node->nodes.deep_view());
}

/// The steps that make sure that the directory `dir` exists. Where `dir` is
/// the output directory `out` or lies in it, there is one step for each
/// directory from `out` down to `dir`, outermost first, so that every
/// directory finds the one that holds it made. Elsewhere there is one step,
/// for `dir` alone.
pub open spec fn ensure_dirs_steps(out: PathView, dir: PathView) -> Seq<StepView> {
    if out.is_prefix_of(dir) {
        Seq::new(
            (dir.len() - out.len() + 1) as nat,
            |k: int| StepView::EnsureDir(dir.take(out.len() + k)),
        )
    } else {
        seq![StepView::EnsureDir(dir)]
    }
}

/// The steps that copy the file `path` to its place under `out`: those that
/// make sure that its directory exists, then the copy. There are none where
/// the path has no place, or the place no parent.
pub open spec fn copy_file_steps(src: PathView, out: PathView, path: PathView) -> Result<
    Seq<StepView>,
    SiteErrorView,
> {
    match output_path(src, out, path) {
        None => Err(SiteErrorView::StripPrefix),
        Some(to) => match parent_of(to) {
            None => Err(SiteErrorView::Unexpected(no_parent_text(to))),
            Some(dir) => Ok(
                ensure_dirs_steps(out, dir).push(StepView::CopyFile { from: path, to }),
            ),
        },
    }
}

/// The steps that copy one node of the directory `from` into the directory
/// `to`: a file is copied under its own name, a directory is made under its
/// own name and filled with what it holds. No name is skipped or changed.
pub open spec fn mirror_node(from: PathView, to: PathView, node: NodeView) -> Seq<StepView>
    decreases node,
{
    match node {
        NodeView::File { name } => seq![
            StepView::CopyFile { from: from.push(name), to: to.push(name) },
        ],
        NodeView::Dir { name, nodes } => seq![StepView::EnsureDir(to.push(name))] + mirror_nodes(
            from.push(name),
            to.push(name),
            nodes,
        ),
    }
}

/// The steps that copy the nodes of the directory `from` into the directory
/// `to`, one node after another in listing order.
pub open spec fn mirror_nodes(from: PathView, to: PathView, nodes: Seq<NodeView>) -> Seq<StepView>
    decreases nodes,
{
    if nodes.len() == 0 {
        seq![]
    } else {
        mirror_nodes(from, to, nodes.drop_last()) + mirror_node(from, to, nodes.last())
    }
}

/// The steps that copy the directory `path`, which holds `nodes`, to its
/// place under `out`: those that make sure that the directory of the place
/// exists, the step that makes the place itself, then the copy of all that
/// the directory holds. There are none where the path has no place, or the
/// place no parent.
pub open spec fn copy_dir_steps(
    src: PathView,
    out: PathView,
    path: PathView,
    nodes: Seq<NodeView>,
) -> Result<Seq<StepView>, SiteErrorView> {
    match output_path(src, out, path) {
        None => Err(SiteErrorView::StripPrefix),
        Some(to) => match parent_of(to) {
            None => Err(SiteErrorView::Unexpected(no_parent_text(to))),
            Some(dir) => Ok(
                ensure_dirs_steps(out, dir).push(StepView::EnsureDir(to)) + mirror_nodes(
                    path,
                    to,
                    nodes,
                ),
            ),
        },
    }
}

/// The steps that put a rendered page at its place `to` in the directory
/// `dir`, or the error that stands for a failed rendering.
pub open spec fn page_steps_of(
    out: PathView,
    dir: PathView,
    to: PathView,
    rendered: Result<Seq<u8>, Seq<char>>,
) -> Result<Seq<StepView>, SiteErrorView> {
    match rendered {
        Ok(content) => Ok(ensure_dirs_steps(out, dir).push(StepView::WriteFile { to, content })),
        Err(text) => Err(SiteErrorView::Minijinja(text)),
    }
}

/// What rendering a page to the place `to` in the directory `dir` can end in:
/// the steps that make sure that `dir` exists and then write some content to
/// `to`, or an error of the engine.
pub open spec fn page_outcome(
    out: PathView,
    dir: PathView,
    to: PathView,
    steps: Result<Seq<StepView>, SiteErrorView>,
) -> bool {
    match steps {
        Ok(list) => list.len() > 0 && list.drop_last() == ensure_dirs_steps(out, dir)
            && list.last() is WriteFile && list.last()->WriteFile_to == to,
        Err(error) => error is Minijinja,
    }
}

/// What planning the page `path` can end in: the error of a path without
/// place or of a place without parent, or else what rendering to that place
/// can end in.
pub open spec fn page_result(
    src: PathView,
    out: PathView,
    path: PathView,
    steps: Result<Seq<StepView>, SiteErrorView>,
) -> bool {
    match output_path(src, out, path) {
        None => steps == Err::<Seq<StepView>, SiteErrorView>(SiteErrorView::StripPrefix),
        Some(to) => match parent_of(to) {
            None => steps == Err::<Seq<StepView>, SiteErrorView>(
                SiteErrorView::Unexpected(no_parent_text(to)),
            ),
            Some(dir) => page_outcome(out, dir, to, steps),
        },
    }
}

/// The view of the outcome of a rendering.
pub open spec fn rendered_view(rendered: Result<Vec<u8>, String>) -> Result<Seq<u8>, Seq<char>> {
    match rendered {
        Ok(content) => Ok(content@),
        Err(text) => Err(text@),
    }
}

/// The view of a list of steps, or of the error in its place.
pub open spec fn steps_view(steps: Result<Vec<Step>, SiteError>) -> Result<
    Seq<StepView>,
    SiteErrorView,
> {
    match steps {
        Ok(list) => Ok(list.deep_view()),
        Err(error) => Err(error@),
    }
}

/// Plans the making of the directory `dir`: of each directory from
/// `output_dir` down to it where it lies there, of itself alone elsewhere.
pub fn ensure_dirs(output_dir: &SitePath, dir: &SitePath) -> (steps: Vec<Step>)
    ensures
        steps.deep_view() == ensure_dirs_steps(output_dir@, dir@),
{
    let mut steps: Vec<Step> = Vec::new();
    if dir.starts_with(output_dir) {
        let first = output_dir.len();
        let mut n: usize = first;
        assert(steps.deep_view() =~= Seq::<StepView>::empty());
        while n < dir.len()
            invariant
                first == output_dir@.len(),
                first <= n <= dir@.len(),
                steps.deep_view() =~= Seq::new(
                    (n - first) as nat,
                    |k: int| StepView::EnsureDir(dir@.take(first + k)),
                ),
            decreases dir@.len() - n,
        {
            let ghost before = steps.deep_view();
            let part = dir.slice(0, n);
            steps.push(Step::EnsureDir(part));
            assert(steps.deep_view() =~= before.push(StepView::EnsureDir(dir@.take(n as int))));
            n += 1;
        }
        let ghost before = steps.deep_view();
        steps.push(Step::EnsureDir(dir.clone()));
        assert(dir@.take(dir@.len() as int) =~= dir@);
        assert(steps.deep_view() =~= before.push(StepView::EnsureDir(dir@)));
        assert(steps.deep_view() =~= ensure_dirs_steps(output_dir@, dir@));
    } else {
        steps.push(Step::EnsureDir(dir.clone()));
        assert(steps.deep_view() =~= ensure_dirs_steps(output_dir@, dir@));
    }
    steps
}

/// Plans the copy of the file `path` under `src_dir` to its place under
/// `output_dir`.
pub fn copy_file(path: &SitePath, output_dir: &SitePath, src_dir: &SitePath) -> (steps: Result<
    Vec<Step>,
    SiteError,
>)
    ensures
        steps_view(steps) == copy_file_steps(src_dir@, output_dir@, path@),
{
    let to = match to_output_path(src_dir, output_dir, path) {
        Ok(to) => to,
        Err(error) => {
            return Err(error);
        },
    };
    let dir = match ensure_parent_dir(&to) {
        Ok(dir) => dir,
        Err(error) => {
            return Err(error);
        },
    };
    let mut steps = ensure_dirs(output_dir, &dir);
    steps.push(Step::CopyFile { from: path.clone(), to });
    assert(steps.deep_view() =~= ensure_dirs_steps(output_dir@, dir@).push(
        StepView::CopyFile { from: path@, to: to@ },
    ));
    Ok(steps)
}

/// Adds to `steps` those that copy the nodes of the directory `from` into
/// the directory `to`.
fn mirror(from: &SitePath, to: &SitePath, nodes: &Vec<Node>, steps: &mut Vec<Step>)
    ensures
        final(steps).deep_view() == old(steps).deep_view() + mirror_nodes(
            from@,
            to@,
            nodes.deep_view(),
        ),
    decreases nodes,
{
    let mut i: usize = 0;
    assert(nodes.deep_view().take(0) =~= Seq::<NodeView>::empty());
    assert(steps.deep_view() + Seq::<StepView>::empty() =~= steps.deep_view());
    while i < nodes.len()
        invariant
            i <= nodes.len(),
            steps.deep_view() == old(steps).deep_view() + mirror_nodes(
                from@,
                to@,
                nodes.deep_view().take(i as int),
            ),
        decreases nodes.len() - i,
    {
        let ghost all = nodes.deep_view();
        let ghost before = steps.deep_view();
        let ghost done = mirror_nodes(from@, to@, all.take(i as int));
        proof {
            assert(all.take(i + 1).drop_last() =~= all.take(i as int));
            assert(all.take(i + 1).last() == nodes[i as int]@);
            if nodes[i as int] is Dir {
                lemma_dir_node_view(nodes[i as int]);
            }
        }
        match &nodes[i] {
            Node::File { name } => {
                let source = from.child(name.as_str());
                let target = to.child(name.as_str());
                steps.push(Step::CopyFile { from: source, to: target });
                assert(steps.deep_view() =~= before + seq![
                    StepView::CopyFile { from: source@, to: target@ },
                ]);
            },
            Node::Dir { name, nodes: inner } => {
                let source = from.child(name.as_str());
                let target = to.child(name.as_str());
                steps.push(Step::EnsureDir(target.clone()));
                assert(steps.deep_view() =~= before + seq![StepView::EnsureDir(target@)]);
                mirror(&source, &target, inner, steps);
            },
        }
        assert(steps.deep_view() =~= old(steps).deep_view() + (done + mirror_node(
            from@,
            to@,
            all[i as int],
        )));
        i += 1;
    }
    assert(nodes.deep_view().take(nodes.len() as int) =~= nodes.deep_view());
}

/// Plans the copy of the directory `path` under `src_dir`, which holds
/// `nodes`, to its place under `output_dir`: the whole of it, as it is.
pub fn copy_dir_recursive(
    path: &SitePath,
    output_dir: &SitePath,
    src_dir: &SitePath,
    nodes: &Vec<Node>,
) -> (steps: Result<Vec<Step>, SiteError>)
    ensures
        steps_view(steps) == copy_dir_steps(src_dir@, output_dir@, path@, nodes.deep_view()),
{
    let to = match to_output_path(src_dir, output_dir, path) {
        Ok(to) => to,
        Err(error) => {
            return Err(error);
        },
    };
    let dir = match ensure_parent_dir(&to) {
        Ok(dir) => dir,
        Err(error) => {
            return Err(error);
        },
    };
    let mut steps = ensure_dirs(output_dir, &dir);
    steps.push(Step::EnsureDir(to.clone()));
    assert(steps.deep_view() =~= ensure_dirs_steps(output_dir@, dir@).push(
        StepView::EnsureDir(to@),
    ));
    mirror(path, &to, nodes, &mut steps);
    Ok(steps)
}

/// Turns the outcome of rendering a page into the steps that put it at `to`
/// in the directory `dir`, or into the error that reports the failure.
pub fn page_steps(
    output_dir: &SitePath,
    dir: &SitePath,
    to: SitePath,
    rendered: Result<Vec<u8>, String>,
) -> (steps: Result<Vec<Step>, SiteError>)
    ensures
        steps_view(steps) == page_steps_of(output_dir@, dir@, to@, rendered_view(rendered)),
{
    match rendered {
        Ok(content) => {
            let mut steps = ensure_dirs(output_dir, dir);
            steps.push(Step::WriteFile { to, content });
            assert(steps.deep_view() =~= ensure_dirs_steps(output_dir@, dir@).push(
                StepView::WriteFile { to: to@, content: content@ },
            ));
            Ok(steps)
        },
        Err(text) => Err(SiteError::Minijinja(text)),
    }
}

/// The name under which the engine knows the page `path` of the source
/// directory `src`: what follows `src` in `path`, with `/` between the names.
pub open spec fn template_name_of(src: PathView, path: PathView) -> Seq<char> {
    joined(path.skip(src.len() as int))
}

/// The name under which the engine is asked for the page `path` of the
/// source directory `src_dir`.
pub fn template_name(path: &SitePath, src_dir: &SitePath) -> (name: Result<String, SiteError>)
    ensures
        match name {
            Ok(text) => src_dir@.is_prefix_of(path@) && text@ == template_name_of(
                src_dir@,
                path@,
            ),
            Err(error) => !src_dir@.is_prefix_of(path@) && error@ == SiteErrorView::StripPrefix,
        },
{
    match path.strip_prefix(src_dir) {
        Some(rel_path) => Ok(rel_path.text()),
        None => Err(SiteError::StripPrefix),
    }
}

/// Renders the page `path` under `src_dir` with the templates of `env` and
/// plans the writing of what comes out to its place under `output_dir`.
///
/// A path outside `src_dir`, or one whose place has no parent, fails without
/// the engine being asked. Otherwise the engine is asked for the template
/// that `template_name` names, and the result is what `page_steps` makes of
/// the outcome, whatever that is.
pub fn render_page(
    env: &minijinja::Environment<'_>,
    path: &SitePath,
    output_dir: &SitePath,
    src_dir: &SitePath,
) -> (steps: Result<Vec<Step>, SiteError>)
    ensures
        page_result(src_dir@, output_dir@, path@, steps_view(steps)),
{
    let to = match to_output_path(src_dir, output_dir, path) {
        Ok(to) => to,
        Err(error) => {
            return Err(error);
        },
    };
    let dir = match ensure_parent_dir(&to) {
        Ok(dir) => dir,
        Err(error) => {
            return Err(error);
        },
    };
    let name = match template_name(path, src_dir) {
        Ok(name) => name,
        Err(error) => {
            return Err(error);
        },
    };
    let rendered = render_template(env, name.as_str());
    let ghost place = to@;
    let ghost outcome = rendered_view(rendered);
    let steps = page_steps(output_dir, &dir, to, rendered);
    proof {
        assert(output_path(src_dir@, output_dir@, path@) == Some(place));
        assert(parent_of(place) == Some(dir@));
        assert(steps_view(steps) == page_steps_of(output_dir@, dir@, place, outcome));
        if let Ok(list) = steps_view(steps) {
            assert(list.drop_last() =~= ensure_dirs_steps(output_dir@, dir@));
        }
    }
    steps
}

/// Plans what brings one classified entry to the output: a page is rendered,
/// a file is copied, a directory is copied whole with the `nodes` that it
/// holds. For a page or a file `nodes` is not looked at.
pub fn plan_entry(
    env: &minijinja::Environment<'_>,
    file: &InputFile,
    output_dir: &SitePath,
    src_dir: &SitePath,
    nodes: &Vec<Node>,
) -> (steps: Result<Vec<Step>, SiteError>)
    ensures
        match file@ {
            InputFileView::Page(path) => page_result(
                src_dir@,
                output_dir@,
                path,
                steps_view(steps),
            ),
            InputFileView::File(path) => steps_view(steps) == copy_file_steps(
                src_dir@,
                output_dir@,
                path,
            ),
            InputFileView::Dir(path) => steps_view(steps) == copy_dir_steps(
                src_dir@,
                output_dir@,
                path,
                nodes.deep_view(),
            ),
        },
{
    match file {
        InputFile::Page(path) => render_page(env, path, output_dir, src_dir),
        InputFile::File(path) => copy_file(path, output_dir, src_dir),
        InputFile::Dir(path) => copy_dir_recursive(path, output_dir, src_dir, nodes),
    }
}

/// A step keeps its place when it touches nothing outside the directory `to`
/// and, where it copies a file, takes it from the place in `from` that its
/// destination has in `to`.
pub open spec fn keeps_place(from: PathView, to: PathView, step: StepView) -> bool {
    match step {
        StepView::EnsureDir(dir) => to.is_prefix_of(dir) && dir.len() > to.len(),
        StepView::CopyFile { from: source, to: target } => {
            &&& from.is_prefix_of(source)
            &&& to.is_prefix_of(target)
            &&& target.len() > to.len()
            &&& source.skip(from.len() as int) == target.skip(to.len() as int)
        },
        StepView::WriteFile { .. } => false,
    }
}

/// Copying one node keeps every file and directory in its place.
pub proof fn lemma_mirror_node_keeps_places(from: PathView, to: PathView, node: NodeView)
    ensures
        forall|i: int|
            0 <= i < mirror_node(from, to, node).len() ==> keeps_place(
                from,
                to,
                #[trigger] mirror_node(from, to, node)[i],
            ),
    decreases node,
{
    match node {
        NodeView::File { name } => {
            assert(from =~= from.push(name).subrange(0, from.len() as int));
            assert(to =~= to.push(name).subrange(0, to.len() as int));
            assert(from.push(name).skip(from.len() as int) =~= to.push(name).skip(to.len() as int));
        },
        NodeView::Dir { name, nodes } => {
            let below_from = from.push(name);
            let below_to = to.push(name);
            let steps = mirror_node(from, to, node);
            lemma_mirror_keeps_places(below_from, below_to, nodes);
            assert(from =~= below_from.subrange(0, from.len() as int));
            assert(to =~= below_to.subrange(0, to.len() as int));
            assert forall|i: int| 0 <= i < steps.len() implies keeps_place(
                from,
                to,
                #[trigger] steps[i],
            ) by {
                if i > 0 {
                    let inner = mirror_nodes(below_from, below_to, nodes)[i - 1];
                    assert(steps[i] == inner);
                    assert(keeps_place(below_from, below_to, inner));
                    match inner {
                        StepView::EnsureDir(dir) => {
                            assert(to =~= dir.subrange(0, to.len() as int));
                        },
                        StepView::CopyFile { from: source, to: target } => {
                            assert(from =~= source.subrange(0, from.len() as int));
                            assert(to =~= target.subrange(0, to.len() as int));
                            assert(source.subrange(0, below_from.len() as int)[from.len() as int]
                                == source[from.len() as int]);
                            assert(target.subrange(0, below_to.len() as int)[to.len() as int]
                                == target[to.len() as int]);
                            assert(source[from.len() as int] == name);
                            assert(target[to.len() as int] == name);
                            assert(source.skip(from.len() as int) =~= seq![name] + source.skip(
                                below_from.len() as int,
                            ));
                            assert(target.skip(to.len() as int) =~= seq![name] + target.skip(
                                below_to.len() as int,
                            ));
                        },
                        StepView::WriteFile { .. } => {},
                    }
                }
            }
        },
    }
}

/// Copying a directory whole keeps the shape of what it holds: every file
/// is copied to the place under `to` that it has under `from`, and every
/// directory is made at such a place.
pub proof fn lemma_mirror_keeps_places(from: PathView, to: PathView, nodes: Seq<NodeView>)
    ensures
        forall|i: int|
            0 <= i < mirror_nodes(from, to, nodes).len() ==> keeps_place(
                from,
                to,
                #[trigger] mirror_nodes(from, to, nodes)[i],
            ),
    decreases nodes,
{
    if nodes.len() > 0 {
        let before = mirror_nodes(from, to, nodes.drop_last());
        let last = mirror_node(from, to, nodes.last());
        lemma_mirror_keeps_places(from, to, nodes.drop_last());
        lemma_mirror_node_keeps_places(from, to, nodes.last());
        assert forall|i: int| 0 <= i < (before + last).len() implies keeps_place(
            from,
            to,
            #[trigger] (before + last)[i],
        ) by {
            if i < before.len() {
                assert((before + last)[i] == before[i]);
            } else {
                assert((before + last)[i] == last[i - before.len()]);
            }
        }
    }
}

/// The step at `at` finds its directory made: the directory that holds its
/// target is `base`, or an earlier step of `steps` ensures it.
pub open spec fn finds_parent(steps: Seq<StepView>, at: int, base: PathView) -> bool {
    let parent = steps[at].target().drop_last();
    parent == base || exists|earlier: int|
        0 <= earlier < at && #[trigger] steps[earlier] == StepView::EnsureDir(parent)
}

/// Copying one node into `to` makes every directory before it is used.
pub proof fn lemma_mirror_node_makes_directories_first(
    from: PathView,
    to: PathView,
    node: NodeView,
)
    ensures
        forall|i: int|
            0 <= i < mirror_node(from, to, node).len() ==> finds_parent(
                mirror_node(from, to, node),
                i,
                to,
            ),
    decreases node,
{
    let steps = mirror_node(from, to, node);
    match node {
        NodeView::File { name } => {
            assert(to.push(name).drop_last() =~= to);
        },
        NodeView::Dir { name, nodes } => {
            let below = to.push(name);
            let inner = mirror_nodes(from.push(name), below, nodes);
            lemma_mirror_makes_directories_first(from.push(name), below, nodes);
            assert(below.drop_last() =~= to);
            assert forall|i: int| 0 <= i < steps.len() implies finds_parent(steps, i, to) by {
                if i > 0 {
                    let parent = steps[i].target().drop_last();
                    assert(steps[i] == inner[i - 1]);
                    assert(finds_parent(inner, i - 1, below));
                    if parent == below {
                        assert(steps[0] == StepView::EnsureDir(parent));
                    } else {
                        let earlier = choose|earlier: int|
                            0 <= earlier < i - 1 && #[trigger] inner[earlier]
                                == StepView::EnsureDir(parent);
                        assert(steps[earlier + 1] == StepView::EnsureDir(parent));
                    }
                }
            }
        },
    }
}

/// Copying the nodes of a directory into `to` makes every directory before
/// it is used: each step finds the directory that holds its target made,
/// once `to` itself is there.
pub proof fn lemma_mirror_makes_directories_first(
    from: PathView,
    to: PathView,
    nodes: Seq<NodeView>,
)
    ensures
        forall|i: int|
            0 <= i < mirror_nodes(from, to, nodes).len() ==> finds_parent(
                mirror_nodes(from, to, nodes),
                i,
                to,
            ),
    decreases nodes,
{
    if nodes.len() > 0 {
        let before = mirror_nodes(from, to, nodes.drop_last());
        let last = mirror_node(from, to, nodes.last());
        let steps = before + last;
        lemma_mirror_makes_directories_first(from, to, nodes.drop_last());
        lemma_mirror_node_makes_directories_first(from, to, nodes.last());
        assert forall|i: int| 0 <= i < steps.len() implies finds_parent(steps, i, to) by {
            let parent = steps[i].target().drop_last();
            if i < before.len() {
                assert(steps[i] == before[i]);
                assert(finds_parent(before, i, to));
                if parent != to {
                    let earlier = choose|earlier: int|
                        0 <= earlier < i && #[trigger] before[earlier] == StepView::EnsureDir(
                            parent,
                        );
                    assert(steps[earlier] == StepView::EnsureDir(parent));
                }
            } else {
                let k = i - before.len();
                assert(steps[i] == last[k]);
                assert(finds_parent(last, k, to));
                if parent != to {
                    let earlier = choose|earlier: int|
                        0 <= earlier < k && #[trigger] last[earlier] == StepView::EnsureDir(
                            parent,
                        );
                    assert(steps[before.len() + earlier] == StepView::EnsureDir(parent));
                }
            }
        }
    }
}

/// The step at `at` finds the directory that holds its target ensured by an
/// earlier step of `steps`.
pub open spec fn finds_parent_ensured(steps: Seq<StepView>, at: int) -> bool {
    exists|earlier: int|
        0 <= earlier < at && #[trigger] steps[earlier] == StepView::EnsureDir(
            steps[at].target().drop_last(),
        )
}

/// The step at `at` is in order: it makes the output directory `out` itself,
/// or it finds the directory that holds its target ensured by an earlier
/// step.
pub open spec fn in_order(out: PathView, steps: Seq<StepView>, at: int) -> bool {
    steps[at].target() == out || finds_parent_ensured(steps, at)
}

/// Every step is in order: nothing is made in a directory that the plan has
/// not made before, from the output directory down.
pub open spec fn makes_directories_first(out: PathView, steps: Seq<StepView>) -> bool {
    forall|i: int| 0 <= i < steps.len() ==> #[trigger] in_order(out, steps, i)
}

/// The steps that make sure of a directory in the output directory are in
/// order, and the last of them is for that directory.
pub proof fn lemma_ensure_dirs_in_order(out: PathView, dir: PathView)
    requires
        out.is_prefix_of(dir),
    ensures
        makes_directories_first(out, ensure_dirs_steps(out, dir)),
        ensure_dirs_steps(out, dir).len() == dir.len() - out.len() + 1,
        ensure_dirs_steps(out, dir).last() == StepView::EnsureDir(dir),
        forall|k: int|
            0 <= k < ensure_dirs_steps(out, dir).len() ==> out.is_prefix_of(
                #[trigger] ensure_dirs_steps(out, dir)[k].target(),
            ),
{
    let chain = ensure_dirs_steps(out, dir);
    assert(dir.take(dir.len() as int) =~= dir);
    assert forall|k: int| 0 <= k < chain.len() implies #[trigger] in_order(out, chain, k) by {
        let target = dir.take(out.len() + k);
        assert(chain[k].target() == target);
        if k == 0 {
            assert(target =~= out);
        } else {
            assert(target.drop_last() =~= dir.take(out.len() + k - 1));
            assert(chain[k - 1] == StepView::EnsureDir(target.drop_last()));
        }
    }
    assert forall|k: int| 0 <= k < chain.len() implies out.is_prefix_of(
        #[trigger] chain[k].target(),
    ) by {
        let target = dir.take(out.len() + k);
        assert(chain[k].target() == target);
        assert(out =~= target.subrange(0, out.len() as int));
    }
}

/// Steps that are in order stay in order when more steps follow them.
pub proof fn lemma_in_order_with_more(
    out: PathView,
    steps: Seq<StepView>,
    more: Seq<StepView>,
    at: int,
)
    requires
        0 <= at < steps.len(),
        in_order(out, steps, at),
    ensures
        in_order(out, steps + more, at),
{
    let all = steps + more;
    assert(all[at] == steps[at]);
    if steps[at].target() != out {
        let earlier = choose|earlier: int|
            0 <= earlier < at && #[trigger] steps[earlier] == StepView::EnsureDir(
                steps[at].target().drop_last(),
            );
        assert(all[earlier] == steps[earlier]);
    }
}

/// The plan for an entry that lies below the source directory makes every
/// directory before it is used: each step makes the output directory itself
/// or finds the directory that holds its target ensured by an earlier step.
pub proof fn lemma_plans_make_directories_first(
    src: PathView,
    out: PathView,
    path: PathView,
    nodes: Seq<NodeView>,
    rendered: Result<Seq<u8>, Seq<char>>,
)
    requires
        src.is_prefix_of(path),
        path.len() > src.len(),
    ensures
        copy_file_steps(src, out, path) matches Ok(steps) ==> makes_directories_first(
            out,
            steps,
        ),
        copy_dir_steps(src, out, path, nodes) matches Ok(steps) ==> makes_directories_first(
            out,
            steps,
        ),
        output_path(src, out, path) matches Some(to) ==> (parent_of(to) matches Some(dir)
            ==> (page_steps_of(out, dir, to, rendered) matches Ok(steps)
            ==> makes_directories_first(out, steps))),
{
    let to = output_path(src, out, path)->0;
    assert(to.len() > out.len());
    if let Some(dir) = parent_of(to) {
        assert(out =~= to.subrange(0, out.len() as int));
        assert(out =~= dir.subrange(0, out.len() as int));
        let chain = ensure_dirs_steps(out, dir);
        let m = chain.len() as int;
        lemma_ensure_dirs_in_order(out, dir);
        assert(chain[m - 1] == chain.last());
        assert forall|last: StepView| #[trigger] last.target() == to implies
            makes_directories_first(out, chain.push(last)) by {
            let steps = chain.push(last);
            assert(steps =~= chain + seq![last]);
            assert forall|i: int| 0 <= i < steps.len() implies #[trigger] in_order(
                out,
                steps,
                i,
            ) by {
                if i < m {
                    lemma_in_order_with_more(out, chain, seq![last], i);
                } else {
                    assert(steps[m - 1] == StepView::EnsureDir(steps[i].target().drop_last()));
                }
            }
        }
        let file_steps = copy_file_steps(src, out, path)->Ok_0;
        assert(file_steps == chain.push(StepView::CopyFile { from: path, to }));
        assert((StepView::CopyFile { from: path, to }).target() == to);
        if let Ok(content) = rendered {
            assert((StepView::WriteFile { to, content }).target() == to);
        }
        let head = chain.push(StepView::EnsureDir(to));
        assert(StepView::EnsureDir(to).target() == to);
        let inner = mirror_nodes(path, to, nodes);
        let steps = head + inner;
        lemma_mirror_makes_directories_first(path, to, nodes);
        assert forall|i: int| 0 <= i < steps.len() implies #[trigger] in_order(out, steps, i) by {
            if i <= m {
                assert(in_order(out, head, i));
                lemma_in_order_with_more(out, head, inner, i);
            } else {
                let parent = steps[i].target().drop_last();
                assert(steps[i] == inner[i - m - 1]);
                assert(finds_parent(inner, i - m - 1, to));
                if parent == to {
                    assert(steps[m] == StepView::EnsureDir(parent));
                } else {
                    let earlier = choose|earlier: int|
                        0 <= earlier < i - m - 1 && #[trigger] inner[earlier]
                            == StepView::EnsureDir(parent);
                    assert(steps[earlier + m + 1] == StepView::EnsureDir(parent));
                }
            }
        }
    }
}

/// Whatever is planned for an entry that lies below the source directory is
/// made inside the output directory: no step of a copy, and no step that
/// puts a rendered page in its place, has its target outside `out`.
pub proof fn lemma_plans_stay_in_output(
    src: PathView,
    out: PathView,
    path: PathView,
    nodes: Seq<NodeView>,
    rendered: Result<Seq<u8>, Seq<char>>,
)
    requires
        src.is_prefix_of(path),
        path.len() > src.len(),
    ensures
        copy_file_steps(src, out, path) matches Ok(steps) ==> forall|i: int|
            0 <= i < steps.len() ==> out.is_prefix_of(#[trigger] steps[i].target()),
        copy_dir_steps(src, out, path, nodes) matches Ok(steps) ==> forall|i: int|
            0 <= i < steps.len() ==> out.is_prefix_of(#[trigger] steps[i].target()),
        output_path(src, out, path) matches Some(to) ==> (parent_of(to) matches Some(dir)
            ==> (page_steps_of(out, dir, to, rendered) matches Ok(steps) ==> forall|i: int|
            0 <= i < steps.len() ==> out.is_prefix_of(#[trigger] steps[i].target()))),
{
    let to = output_path(src, out, path)->0;
    assert(to.len() > out.len());
    if let Some(dir) = parent_of(to) {
        assert(out =~= to.subrange(0, out.len() as int));
        assert(out =~= dir.subrange(0, out.len() as int));
        let chain = ensure_dirs_steps(out, dir);
        let m = chain.len() as int;
        lemma_ensure_dirs_in_order(out, dir);
        assert forall|last: StepView, i: int|
            #[trigger] last.target() == to && 0 <= i < chain.push(last).len()
            implies out.is_prefix_of(#[trigger] chain.push(last)[i].target()) by {
            if i < m {
                assert(chain.push(last)[i] == chain[i]);
            }
        }
        assert((StepView::CopyFile { from: path, to }).target() == to);
        if let Ok(content) = rendered {
            assert((StepView::WriteFile { to, content }).target() == to);
        }
        let head = chain.push(StepView::EnsureDir(to));
        assert(StepView::EnsureDir(to).target() == to);
        let inner = mirror_nodes(path, to, nodes);
        let steps = head + inner;
        lemma_mirror_keeps_places(path, to, nodes);
        assert forall|i: int| 0 <= i < steps.len() implies out.is_prefix_of(
            #[trigger] steps[i].target(),
        ) by {
            if i <= m {
                assert(steps[i] == head[i]);
            } else {
                assert(steps[i] == inner[i - m - 1]);
                assert(keeps_place(path, to, inner[i - m - 1]));
                let target = steps[i].target();
                assert(out =~= target.subrange(0, out.len() as int));
            }
        }
    }
}

} // verus!
