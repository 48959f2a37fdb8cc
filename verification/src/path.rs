//! Paths as sequences of names.

use vstd::prelude::*;
use vstd::string::*;

verus! {

/// What a path is in contracts: its names, outermost first.
pub type PathView = Seq<Seq<char>>;

/// A path, held as the names of its components from the outermost inwards.
///
/// The root of an absolute path counts as a name like any other, so that a
/// path under a root begins with the names of that root.
#[derive(Debug, PartialEq, Eq)]
pub struct SitePath {
    pub components: Vec<String>,
}

impl View for SitePath {
    type V = PathView;

    open spec fn view(&self) -> PathView {
        Seq::new(self.components@.len(), |i: int| self.components@[i]@)
    }
}

impl DeepView for SitePath {
    type V = PathView;

    open spec fn deep_view(&self) -> PathView {
        self@
    }
}

/// The names of `parts` written one after another with `/` between them.
pub open spec fn joined(parts: PathView) -> Seq<char>
    decreases parts.len(),
{
    if parts.len() == 0 {
        Seq::empty()
    } else if parts.len() == 1 {
        parts[0]
    } else {
        joined(parts.drop_last()) + seq!['/'] + parts.last()
    }
}

/// A path is the root when its only name is `/`.
pub open spec fn is_root(path: PathView) -> bool {
    path == seq!["/"@]
}

/// The directory that holds `path`: its names but the last. The path without
/// names has none, and neither has the root.
pub open spec fn parent_of(path: PathView) -> Option<PathView> {
    if path.len() == 0 || is_root(path) {
        None
    } else {
        Some(path.drop_last())
    }
}

impl Clone for SitePath {
    fn clone(&self) -> (copy: SitePath)
        ensures
            copy@ == self@,
    {
        let copy = self.slice(0, self.len());
        assert(copy@ =~= self@);
        copy
    }
}

impl SitePath {
    /// The path without any name.
    pub fn new() -> (path: SitePath)
        ensures
            path@ == Seq::<Seq<char>>::empty(),
    {
        let path = SitePath { components: Vec::new() };
        assert(path@ =~= Seq::<Seq<char>>::empty());
        path
    }

    /// The number of names in the path.
    pub fn len(&self) -> (n: usize)
        ensures
            n == self@.len(),
    {
        self.components.len()
    }

    /// Puts `name` at the end of the path.
    pub fn push(&mut self, name: &str)
        ensures
            final(self)@ == old(self)@.push(name@),
    {
        self.components.push(name.to_owned());
        assert(self@ =~= old(self)@.push(name@));
    }

    /// The names from position `from` up to, not including, position `to`.
    pub fn slice(&self, from: usize, to: usize) -> (part: SitePath)
        requires
            from <= to <= self@.len(),
        ensures
            part@ == self@.subrange(from as int, to as int),
    {
        let mut part = SitePath::new();
        let mut i: usize = from;
        while i < to
            invariant
                from <= i <= to <= self@.len(),
                part@ == self@.subrange(from as int, i as int),
            decreases to - i,
        {
            part.push(self.components[i].as_str());
            assert(part@ =~= self@.subrange(from as int, i + 1));
            i += 1;
        }
        part
    }

    /// The path of the entry `name` inside this path.
    pub fn child(&self, name: &str) -> (path: SitePath)
        ensures
            path@ == self@.push(name@),
    {
        let mut path = self.clone();
        path.push(name);
        path
    }

    /// This path followed by the names of `tail`.
    pub fn join(&self, tail: &SitePath) -> (path: SitePath)
        ensures
            path@ == self@ + tail@,
    {
        let mut path = self.clone();
        let mut i: usize = 0;
        while i < tail.len()
            invariant
                i <= tail@.len(),
                path@ == self@ + tail@.subrange(0, i as int),
            decreases tail@.len() - i,
        {
            path.push(tail.components[i].as_str());
            assert(path@ =~= self@ + tail@.subrange(0, i + 1));
            i += 1;
        }
        assert(tail@.subrange(0, tail@.len() as int) =~= tail@);
        path
    }

    /// Whether the path is the root: its only name is `/`.
    pub fn is_root(&self) -> (root: bool)
        ensures
            root == is_root(self@),
    {
        let root = self.len() == 1 && crate::names::same_text(self.components[0].as_str(), "/");
        proof {
            if root {
                assert(self@ =~= seq!["/"@]);
            } else if self@.len() == 1 {
                assert(seq!["/"@][0] == "/"@);
            }
        }
        root
    }

    /// The directory that holds this path: all names but the last. The path
    /// without names has none, and neither has the root.
    pub fn parent(&self) -> (dir: Option<SitePath>)
        ensures
            match dir {
                Some(holder) => parent_of(self@) == Some(holder@),
                None => parent_of(self@) is None,
            },
    {
        let n = self.len();
        if n == 0 || self.is_root() {
            None
        } else {
            Some(self.slice(0, n - 1))
        }
    }

    /// Whether the path begins with the names of `base`.
    pub fn starts_with(&self, base: &SitePath) -> (under: bool)
        ensures
            under == base@.is_prefix_of(self@),
    {
        if base.len() > self.len() {
            return false;
        }
        let mut i: usize = 0;
        while i < base.len()
            invariant
                i <= base@.len() <= self@.len(),
                forall|j: int| 0 <= j < i ==> self@[j] == base@[j],
            decreases base@.len() - i,
        {
            if !crate::names::same_text(self.components[i].as_str(), base.components[i].as_str()) {
                assert(self@.subrange(0, base@.len() as int)[i as int] != base@[i as int]);
                return false;
            }
            i += 1;
        }
        assert(base@ =~= self@.subrange(0, base@.len() as int));
        true
    }

    /// The names that follow `base` in this path, if it begins with them.
    pub fn strip_prefix(&self, base: &SitePath) -> (rest: Option<SitePath>)
        ensures
            match rest {
                Some(tail) => base@.is_prefix_of(self@) && tail@ == self@.skip(base@.len() as int),
                None => !base@.is_prefix_of(self@),
            },
    {
        if self.starts_with(base) {
            Some(self.slice(base.len(), self.len()))
        } else {
            None
        }
    }

    /// The path as text, with `/` between the names.
    pub fn text(&self) -> (text: String)
        ensures
            text@ == joined(self@),
    {
        let mut text = String::new();
        let mut i: usize = 0;
        while i < self.len()
            invariant
                i <= self@.len(),
                text@ == joined(self@.subrange(0, i as int)),
            decreases self@.len() - i,
        {
            let ghost before = self@.subrange(0, i as int);
            let ghost after = self@.subrange(0, i + 1);
            assert(after.drop_last() =~= before);
            assert(after.last() == self@[i as int]);
            if i > 0 {
                text.append("/");
                proof {
                    reveal_strlit("/");
                    assert("/"@ =~= seq!['/']);
                }
            }
            text.append(self.components[i].as_str());
            assert(text@ =~= joined(after));
            i += 1;
        }
        assert(self@.subrange(0, self@.len() as int) =~= self@);
        text
    }
}

} // verus!
