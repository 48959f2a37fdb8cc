use sitegen::path::SitePath;

fn path(names: &[&str]) -> SitePath {
    SitePath { components: names.iter().map(|name| name.to_string()).collect() }
}

#[test]
fn a_new_path_has_no_names() {
    assert_eq!(SitePath::new(), path(&[]));
    assert_eq!(SitePath::new().len(), 0);
}

#[test]
fn push_and_child_add_a_name_at_the_end() {
    let mut site = path(&["site"]);
    site.push("img");
    assert_eq!(site, path(&["site", "img"]));
    assert_eq!(site.child("logo.png"), path(&["site", "img", "logo.png"]));
    assert_eq!(site, path(&["site", "img"]));
}

#[test]
fn join_puts_one_path_after_another() {
    assert_eq!(path(&["a", "b"]).join(&path(&["c", "d"])), path(&["a", "b", "c", "d"]));
    assert_eq!(path(&["a"]).join(&path(&[])), path(&["a"]));
    assert_eq!(path(&[]).join(&path(&["a"])), path(&["a"]));
}

#[test]
fn slice_takes_the_names_in_a_range() {
    let whole = path(&["a", "b", "c", "d"]);
    assert_eq!(whole.slice(1, 3), path(&["b", "c"]));
    assert_eq!(whole.slice(0, 4), whole);
    assert_eq!(whole.slice(2, 2), path(&[]));
}

#[test]
fn clone_gives_an_equal_path() {
    let whole = path(&["a", "b"]);
    assert_eq!(whole.clone(), whole);
}

#[test]
fn parent_drops_the_last_name() {
    assert_eq!(path(&["a", "b", "c"]).parent(), Some(path(&["a", "b"])));
    assert_eq!(path(&["a"]).parent(), Some(path(&[])));
    assert_eq!(path(&[]).parent(), None);
    assert_eq!(path(&["/"]).parent(), None);
    assert_eq!(path(&["/", "a"]).parent(), Some(path(&["/"])));
}

#[test]
fn the_root_is_the_path_of_the_one_name_slash() {
    assert!(path(&["/"]).is_root());
    assert!(!path(&[]).is_root());
    assert!(!path(&["/", "a"]).is_root());
    assert!(!path(&["a"]).is_root());
    assert!(!path(&["//"]).is_root());
}

#[test]
fn starts_with_compares_whole_names() {
    assert!(path(&["site", "img", "x"]).starts_with(&path(&["site", "img"])));
    assert!(path(&["site"]).starts_with(&path(&["site"])));
    assert!(path(&["site"]).starts_with(&path(&[])));
    assert!(!path(&["site"]).starts_with(&path(&["site", "img"])));
    assert!(!path(&["sites", "img"]).starts_with(&path(&["site"])));
    assert!(!path(&["a", "site"]).starts_with(&path(&["site"])));
}

#[test]
fn strip_prefix_gives_what_follows_the_base() {
    let file = path(&["site", "img", "logo.png"]);
    assert_eq!(file.strip_prefix(&path(&["site"])), Some(path(&["img", "logo.png"])));
    assert_eq!(file.strip_prefix(&file), Some(path(&[])));
    assert_eq!(file.strip_prefix(&path(&["other"])), None);
    assert_eq!(file.strip_prefix(&path(&["site", "img", "logo.png", "x"])), None);
}

#[test]
fn text_joins_the_names_with_slashes() {
    assert_eq!(path(&["a", "b", "page.html.jinja"]).text(), "a/b/page.html.jinja");
    assert_eq!(path(&["index.html.jinja"]).text(), "index.html.jinja");
    assert_eq!(path(&[]).text(), "");
    assert_eq!(path(&["", "a"]).text(), "/a");
}
