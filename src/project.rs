//! A project: its root directory, configuration and slides.
use vstd::prelude::*;

use crate::bib::push_str;
use crate::config::{copy_conf, same_conf, string_from, ProjectConf, SlideConf};
use crate::text::{chars_of, push_char};

verus! {

/// `base` joined with the path `p`, as `Path::join` does it on Unix: an
/// absolute `p` replaces `base`; otherwise a `'/'` separates the two unless
/// `base` is empty or already ends with one.
pub open spec fn path_join(base: Seq<char>, p: Seq<char>) -> Seq<char> {
    if p.len() > 0 && p[0] == '/' {
        p
    } else if base.len() == 0 || base.last() == '/' {
        base + p
    } else {
        base + seq!['/'] + p
    }
}

/// `base` joined with `p` (see `path_join`).
pub fn join_path(base: &str, p: &str) -> (r: String)
    ensures
        r@ == path_join(base@, p@),
{
    let pv = chars_of(p);
    if pv.len() > 0 && pv[0] == '/' {
        return string_from(p);
    }
    let bv = chars_of(base);
    let mut s = string_from(base);
    if bv.len() > 0 && bv[bv.len() - 1] != '/' {
        push_char(&mut s, '/');
    }
    push_str(&mut s, p);
    s
}

/// A slide of a project.
#[derive(Debug, Clone)]
pub struct Slide {
    /// The directory that holds `slide.toml`.
    pub dir: String,
    /// Configuration of the slide.
    pub conf: SlideConf,
}

impl Slide {
    /// The slide's Markdown file.
    pub fn slide_path(&self) -> (r: String)
        ensures
            r@ == path_join(self.dir@, "slide.md"@),
    {
        join_path(self.dir.as_str(), "slide.md")
    }

    /// The slide's image directory.
    pub fn image_dir(&self) -> (r: String)
        ensures
            r@ == path_join(self.dir@, "images"@),
    {
        join_path(self.dir.as_str(), "images")
    }

    /// The slide's configuration file.
    pub fn conf_path(&self) -> (r: String)
        ensures
            r@ == path_join(self.dir@, "slide.toml"@),
    {
        join_path(self.dir.as_str(), "slide.toml")
    }
}

/// A project.
#[derive(Debug)]
pub struct Project {
    /// The directory that holds `config.toml`.
    pub root_dir: String,
    /// Configuration of the project.
    pub conf: ProjectConf,
    /// The slides, ordered by directory.
    pub slides: Vec<Slide>,
}

impl Project {
    /// The configurations of all slides, in order.
    pub fn get_slide_conf_list(&self) -> (r: Vec<SlideConf>)
        ensures
            r.len() == self.slides.len(),
            forall|i: int| 0 <= i < r.len() ==> same_conf(#[trigger] r[i], self.slides[i].conf),
    {
        let mut r: Vec<SlideConf> = Vec::new();
        let mut i: usize = 0;
        while i < self.slides.len()
            invariant
                i <= self.slides.len(),
                r.len() == i,
                forall|j: int| 0 <= j < i ==> same_conf(#[trigger] r[j], self.slides[j].conf),
            decreases self.slides.len() - i,
        {
            r.push(copy_conf(&self.slides[i].conf));
            i = i + 1;
        }
        r
    }

    /// The directory of the slide at `dir`, relative to the project root.
    pub fn slide_dir(&self, dir: &str) -> (r: String)
        ensures
            r@ == path_join(self.root_dir@, dir@),
    {
        join_path(self.root_dir.as_str(), dir)
    }

    /// The slide at `dir`, relative to the project root, whose configuration
    /// file held `conf`.
    pub fn get_slide(&self, dir: &str, conf: SlideConf) -> (r: Slide)
        ensures
            r.dir@ == path_join(self.root_dir@, dir@),
            r.conf == conf,
    {
        Slide { dir: self.slide_dir(dir), conf }
    }
}

} // verus!
