use minijinja::Environment;
use sitegen::error::SiteError;
use sitegen::classify::InputFile;
use sitegen::materialize::{
    copy_dir_recursive, copy_file, ensure_dirs, page_steps, plan_entry, render_page,
    template_name, Node, Step,
};
use sitegen::path::SitePath;

fn path(names: &[&str]) -> SitePath {
    SitePath { components: names.iter().map(|name| name.to_string()).collect() }
}

fn file(name: &str) -> Node {
    Node::File { name: name.to_string() }
}

fn dir(name: &str, nodes: Vec<Node>) -> Node {
    Node::Dir { name: name.to_string(), nodes }
}

fn copy(from: &[&str], to: &[&str]) -> Step {
    Step::CopyFile { from: path(from), to: path(to) }
}

fn ensure(dir: &[&str]) -> Step {
    Step::EnsureDir(path(dir))
}

#[test]
fn a_file_is_copied_to_its_place() {
    let src = path(&["site"]);
    let out = path(&["site", "dist"]);
    assert_eq!(
        copy_file(&path(&["site", "img", "logo.png"]), &out, &src),
        Ok(vec![
            ensure(&["site", "dist"]),
            ensure(&["site", "dist", "img"]),
            copy(&["site", "img", "logo.png"], &["site", "dist", "img", "logo.png"]),
        ])
    );
}

#[test]
fn a_deep_file_finds_every_directory_made() {
    let src = path(&["site"]);
    let out = path(&["site", "dist"]);
    assert_eq!(
        copy_file(&path(&["site", "a", "b", "c.txt"]), &out, &src),
        Ok(vec![
            ensure(&["site", "dist"]),
            ensure(&["site", "dist", "a"]),
            ensure(&["site", "dist", "a", "b"]),
            copy(&["site", "a", "b", "c.txt"], &["site", "dist", "a", "b", "c.txt"]),
        ])
    );
}

#[test]
fn directories_are_ensured_from_the_output_directory_down() {
    let out = path(&["site", "dist"]);
    assert_eq!(ensure_dirs(&out, &out), vec![ensure(&["site", "dist"])]);
    assert_eq!(
        ensure_dirs(&out, &path(&["site", "dist", "a", "b"])),
        vec![
            ensure(&["site", "dist"]),
            ensure(&["site", "dist", "a"]),
            ensure(&["site", "dist", "a", "b"]),
        ]
    );
    assert_eq!(ensure_dirs(&out, &path(&["site"])), vec![ensure(&["site"])]);
    assert_eq!(ensure_dirs(&out, &path(&["else", "where"])), vec![ensure(&["else", "where"])]);
    assert_eq!(ensure_dirs(&path(&[]), &path(&["a"])), vec![ensure(&[]), ensure(&["a"])]);
}

#[test]
fn the_source_directory_itself_goes_to_the_output_directory() {
    let src = path(&["site"]);
    let out = path(&["site", "dist"]);
    assert_eq!(
        copy_file(&src, &out, &src),
        Ok(vec![ensure(&["site"]), copy(&["site"], &["site", "dist"])])
    );
}

#[test]
fn a_place_at_the_root_is_reported() {
    let nowhere = path(&[]);
    let expected = Err(SiteError::Unexpected("Parent dir could not be found: /".to_string()));
    assert_eq!(copy_file(&path(&["/"]), &nowhere, &nowhere), expected);
    assert_eq!(copy_file(&path(&["site"]), &path(&["/"]), &path(&["site"])), expected);
    assert_eq!(copy_dir_recursive(&path(&["/"]), &nowhere, &nowhere, &vec![]), expected);
    let env = Environment::new();
    assert_eq!(render_page(&env, &path(&["/"]), &nowhere, &nowhere), expected);
}

#[test]
fn a_copied_file_with_the_marker_loses_it() {
    let src = path(&["site"]);
    let out = path(&["out"]);
    assert_eq!(
        copy_file(&path(&["site", "feed.xml.jinja"]), &out, &src),
        Ok(vec![ensure(&["out"]), copy(&["site", "feed.xml.jinja"], &["out", "feed.xml"])])
    );
}

#[test]
fn a_file_outside_the_source_directory_is_not_copied() {
    let src = path(&["site"]);
    let out = path(&["site", "dist"]);
    assert_eq!(copy_file(&path(&["other", "a.txt"]), &out, &src), Err(SiteError::StripPrefix));
}

#[test]
fn a_place_without_parent_is_reported() {
    let nowhere = path(&[]);
    let expected = Err(SiteError::Unexpected("Parent dir could not be found: ".to_string()));
    assert_eq!(copy_file(&nowhere, &nowhere, &nowhere), expected);
    assert_eq!(copy_dir_recursive(&nowhere, &nowhere, &nowhere, &vec![]), expected);
    let env = Environment::new();
    assert_eq!(render_page(&env, &nowhere, &nowhere, &nowhere), expected);
}

#[test]
fn a_directory_is_mirrored_whole() {
    let src = path(&["site"]);
    let out = path(&["site", "dist"]);
    let nodes = vec![
        file("a.css"),
        dir("deep", vec![file("_partial.html.jinja"), dir("er", vec![file("page.html.jinja")])]),
        dir("none", vec![]),
        file(".gitkeep"),
    ];
    assert_eq!(
        copy_dir_recursive(&path(&["site", "assets"]), &out, &src, &nodes),
        Ok(vec![
            ensure(&["site", "dist"]),
            ensure(&["site", "dist", "assets"]),
            copy(&["site", "assets", "a.css"], &["site", "dist", "assets", "a.css"]),
            ensure(&["site", "dist", "assets", "deep"]),
            copy(
                &["site", "assets", "deep", "_partial.html.jinja"],
                &["site", "dist", "assets", "deep", "_partial.html.jinja"],
            ),
            ensure(&["site", "dist", "assets", "deep", "er"]),
            copy(
                &["site", "assets", "deep", "er", "page.html.jinja"],
                &["site", "dist", "assets", "deep", "er", "page.html.jinja"],
            ),
            ensure(&["site", "dist", "assets", "none"]),
            copy(&["site", "assets", ".gitkeep"], &["site", "dist", "assets", ".gitkeep"]),
        ])
    );
}

#[test]
fn an_empty_directory_is_only_made() {
    let src = path(&["site"]);
    let out = path(&["site", "dist"]);
    assert_eq!(
        copy_dir_recursive(&path(&["site", "a", "empty"]), &out, &src, &vec![]),
        Ok(vec![
            ensure(&["site", "dist"]),
            ensure(&["site", "dist", "a"]),
            ensure(&["site", "dist", "a", "empty"]),
        ])
    );
}

#[test]
fn a_directory_outside_the_source_directory_is_not_copied() {
    let src = path(&["site"]);
    let out = path(&["site", "dist"]);
    assert_eq!(
        copy_dir_recursive(&path(&["other"]), &out, &src, &vec![file("a")]),
        Err(SiteError::StripPrefix)
    );
}

#[test]
fn rendered_content_is_written_to_its_place() {
    assert_eq!(
        page_steps(
            &path(&["out"]),
            &path(&["out"]),
            path(&["out", "index.html"]),
            Ok(b"Hello".to_vec())
        ),
        Ok(vec![
            ensure(&["out"]),
            Step::WriteFile { to: path(&["out", "index.html"]), content: b"Hello".to_vec() },
        ])
    );
    assert_eq!(
        page_steps(
            &path(&["out"]),
            &path(&["out", "a", "b"]),
            path(&["out", "a", "b", "index.html"]),
            Ok(vec![])
        ),
        Ok(vec![
            ensure(&["out"]),
            ensure(&["out", "a"]),
            ensure(&["out", "a", "b"]),
            Step::WriteFile { to: path(&["out", "a", "b", "index.html"]), content: vec![] },
        ])
    );
}

#[test]
fn a_failed_rendering_is_an_engine_error() {
    assert_eq!(
        page_steps(
            &path(&["out"]),
            &path(&["out"]),
            path(&["out", "index.html"]),
            Err("bad syntax".to_string())
        ),
        Err(SiteError::Minijinja("bad syntax".to_string()))
    );
}

#[test]
fn literal_text_renders_as_itself() {
    let mut env = Environment::new();
    env.add_template("index.html.jinja", "Hello").unwrap();
    let src = path(&["site"]);
    let out = path(&["site", "dist"]);
    assert_eq!(
        render_page(&env, &path(&["site", "index.html.jinja"]), &out, &src),
        Ok(vec![
            ensure(&["site", "dist"]),
            Step::WriteFile {
                to: path(&["site", "dist", "index.html"]),
                content: b"Hello".to_vec(),
            },
        ])
    );
}

#[test]
fn a_page_is_looked_up_by_its_place_in_the_source() {
    let mut env = Environment::new();
    env.add_template("index.html.jinja", "top").unwrap();
    env.add_template("blog/post/index.html.jinja", "nested").unwrap();
    let src = path(&["my", "site"]);
    let out = path(&["out"]);
    assert_eq!(
        render_page(&env, &path(&["my", "site", "blog", "post", "index.html.jinja"]), &out, &src),
        Ok(vec![
            ensure(&["out"]),
            ensure(&["out", "blog"]),
            ensure(&["out", "blog", "post"]),
            Step::WriteFile {
                to: path(&["out", "blog", "post", "index.html"]),
                content: b"nested".to_vec(),
            },
        ])
    );
}

#[test]
fn variables_are_empty_when_a_page_is_rendered() {
    let mut env = Environment::new();
    env.add_template("p.html.jinja", "[{{ name }}]{% if name is defined %}x{% endif %}{{ 1 + 2 }}")
        .unwrap();
    let src = path(&["site"]);
    let out = path(&["out"]);
    assert_eq!(
        render_page(&env, &path(&["site", "p.html.jinja"]), &out, &src),
        Ok(vec![
            ensure(&["out"]),
            Step::WriteFile { to: path(&["out", "p.html"]), content: b"[]3".to_vec() },
        ])
    );
}

#[test]
fn an_included_template_is_rendered_in_place() {
    let mut env = Environment::new();
    env.add_template("_base.html.jinja", "<t>").unwrap();
    env.add_template("index.html.jinja", "{% include \"_base.html.jinja\" %}").unwrap();
    let src = path(&["site"]);
    let out = path(&["site", "dist"]);
    assert_eq!(
        render_page(&env, &path(&["site", "index.html.jinja"]), &out, &src),
        Ok(vec![
            ensure(&["site", "dist"]),
            Step::WriteFile { to: path(&["site", "dist", "index.html"]), content: b"<t>".to_vec() },
        ])
    );
}

#[test]
fn a_missing_template_is_an_engine_error() {
    let env = Environment::new();
    let src = path(&["site"]);
    let out = path(&["site", "dist"]);
    let steps = render_page(&env, &path(&["site", "index.html.jinja"]), &out, &src);
    match steps {
        Err(SiteError::Minijinja(text)) => assert!(text.contains("index.html.jinja")),
        other => panic!("expected an engine error, got {:?}", other),
    }
}

#[test]
fn a_template_that_fails_to_render_is_an_engine_error() {
    let mut env = Environment::new();
    env.add_template("index.html.jinja", "{% include \"missing.html\" %}").unwrap();
    let src = path(&["site"]);
    let out = path(&["site", "dist"]);
    let steps = render_page(&env, &path(&["site", "index.html.jinja"]), &out, &src);
    assert!(matches!(steps, Err(SiteError::Minijinja(_))));
}

#[test]
fn a_page_outside_the_source_directory_is_not_rendered() {
    let mut env = Environment::new();
    env.add_template("index.html.jinja", "Hello").unwrap();
    let src = path(&["site"]);
    let out = path(&["site", "dist"]);
    assert_eq!(
        render_page(&env, &path(&["other", "index.html.jinja"]), &out, &src),
        Err(SiteError::StripPrefix)
    );
}

#[test]
fn a_template_is_named_by_its_place_in_the_source() {
    let src = path(&["my", "site"]);
    assert_eq!(
        template_name(&path(&["my", "site", "a", "b", "page.html.jinja"]), &src),
        Ok("a/b/page.html.jinja".to_string())
    );
    assert_eq!(
        template_name(&path(&["my", "site", "index.html.jinja"]), &src),
        Ok("index.html.jinja".to_string())
    );
    assert_eq!(template_name(&src, &src), Ok(String::new()));
    assert_eq!(
        template_name(&path(&["my", "index.html.jinja"]), &src),
        Err(SiteError::StripPrefix)
    );
}

#[test]
fn each_step_has_its_target() {
    assert_eq!(ensure(&["a", "b"]).target(), &path(&["a", "b"]));
    assert_eq!(copy(&["a", "b"], &["c", "d"]).target(), &path(&["c", "d"]));
    let write = Step::WriteFile { to: path(&["e"]), content: vec![1, 2] };
    assert_eq!(write.target(), &path(&["e"]));
}

fn sample_tree() -> Vec<Node> {
    vec![
        file("a.css"),
        dir("x", vec![dir("y", vec![dir("z", vec![file("deep.txt")]), file("mid.txt")])]),
        dir("w", vec![]),
        file("b.css"),
    ]
}

#[test]
fn directories_are_made_before_they_are_used() {
    let src = path(&["site"]);
    let out = path(&["site", "dist"]);
    let steps = copy_dir_recursive(&path(&["site", "assets"]), &out, &src, &sample_tree()).unwrap();
    assert_eq!(steps.len(), 10);
    in_order(&out, &steps);
    let deep = path(&["site", "a", "b", "c", "assets"]);
    let steps = copy_dir_recursive(&deep, &out, &src, &sample_tree()).unwrap();
    assert_eq!(steps.len(), 13);
    in_order(&out, &steps);
    in_order(&out, &copy_file(&path(&["site", "a", "b", "c.txt"]), &out, &src).unwrap());
    let mut env = Environment::new();
    env.add_template("a/b/p.html.jinja", "x").unwrap();
    let page = path(&["site", "a", "b", "p.html.jinja"]);
    in_order(&out, &render_page(&env, &page, &out, &src).unwrap());
}

fn in_order(out: &SitePath, steps: &[Step]) {
    for at in 0..steps.len() {
        let target = steps[at].target();
        assert!(
            target == out || steps[..at].contains(&Step::EnsureDir(target.parent().unwrap()))
        );
    }
}

#[test]
fn an_entry_is_planned_by_its_kind() {
    let mut env = Environment::new();
    env.add_template("a/p.html.jinja", "Hello").unwrap();
    let src = path(&["site"]);
    let out = path(&["site", "dist"]);
    let nodes = vec![file("x"), dir("y", vec![file("z")])];
    let page = path(&["site", "a", "p.html.jinja"]);
    assert_eq!(
        plan_entry(&env, &InputFile::Page(page.clone()), &out, &src, &nodes),
        render_page(&env, &page, &out, &src)
    );
    assert_eq!(
        plan_entry(&env, &InputFile::Page(page.clone()), &out, &src, &nodes),
        Ok(vec![
            ensure(&["site", "dist"]),
            ensure(&["site", "dist", "a"]),
            Step::WriteFile {
                to: path(&["site", "dist", "a", "p.html"]),
                content: b"Hello".to_vec(),
            },
        ])
    );
    assert_eq!(
        plan_entry(&env, &InputFile::File(page.clone()), &out, &src, &nodes),
        Ok(vec![
            ensure(&["site", "dist"]),
            ensure(&["site", "dist", "a"]),
            copy(&["site", "a", "p.html.jinja"], &["site", "dist", "a", "p.html"]),
        ])
    );
    assert_eq!(
        plan_entry(&env, &InputFile::Dir(path(&["site", "a"])), &out, &src, &nodes),
        Ok(vec![
            ensure(&["site", "dist"]),
            ensure(&["site", "dist", "a"]),
            copy(&["site", "a", "x"], &["site", "dist", "a", "x"]),
            ensure(&["site", "dist", "a", "y"]),
            copy(&["site", "a", "y", "z"], &["site", "dist", "a", "y", "z"]),
        ])
    );
    assert_eq!(
        plan_entry(&env, &InputFile::Dir(path(&["other"])), &out, &src, &nodes),
        Err(SiteError::StripPrefix)
    );
}

#[test]
fn a_copy_stays_in_the_output_and_keeps_its_shape() {
    let src = path(&["site"]);
    let out = path(&["site", "dist"]);
    let from = path(&["site", "assets"]);
    let steps = copy_dir_recursive(&from, &out, &src, &sample_tree()).unwrap();
    let to = path(&["site", "dist", "assets"]);
    let mut copied = vec![];
    for step in &steps {
        assert!(step.target().starts_with(&out));
        if let Step::CopyFile { from: source, to: target } = step {
            assert_eq!(source.strip_prefix(&from), target.strip_prefix(&to));
            copied.push(source.strip_prefix(&from).unwrap().text());
        }
    }
    assert_eq!(copied, vec!["a.css", "x/y/z/deep.txt", "x/y/mid.txt", "b.css"]);
}
