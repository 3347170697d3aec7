//! Project and slide configuration.
use vstd::prelude::*;

use crate::bib::{push_str, BibEntry};

verus! {

/// A `String` holding `t`.
pub fn string_from(t: &str) -> (r: String)
    ensures
        r@ == t@,
{
    let mut s = String::new();
    push_str(&mut s, t);
    s
}

/// Configuration of a project.
#[derive(Debug)]
pub struct ProjectConf {
    /// Name of the project.
    pub name: String,
    /// Author of the project.
    pub author: String,
    /// Base URL of the project.
    pub base_url: String,
    /// Output directory.
    pub output_dir: String,
    /// Template configuration.
    pub template: TemplateConf,
    /// Build configuration.
    pub build: BuildConf,
}

/// Templates of a project.
#[derive(Debug)]
pub struct TemplateConf {
    /// Template of a new slide.
    pub slide: String,
    /// Template of the index.
    pub index: String,
    /// Suffix of a slide.
    pub suffix: String,
}

/// Build configuration of a project.
#[derive(Debug)]
pub struct BuildConf {
    /// Theme directory.
    pub theme_dir: String,
    /// The Marp binary.
    pub marp_binary: String,
}

impl Default for TemplateConf {
    fn default() -> (r: TemplateConf)
        ensures
            r.slide@.len() == 0,
            r.index@.len() == 0,
            r.suffix@.len() == 0,
    {
        TemplateConf { slide: String::new(), index: String::new(), suffix: String::new() }
    }
}

impl Default for BuildConf {
    fn default() -> (r: BuildConf)
        ensures
            r.theme_dir@ == ".marp/themes"@,
            r.marp_binary@ == "marp"@,
    {
        BuildConf { theme_dir: string_from(".marp/themes"), marp_binary: string_from("marp") }
    }
}

impl Default for ProjectConf {
    fn default() -> (r: ProjectConf)
        ensures
            r.name@ == "my-slide-project"@,
            r.author@ == "Your Name"@,
            r.base_url@ == "https://example.com/"@,
            r.output_dir@ == "output"@,
            r.template.slide@.len() == 0,
            r.template.index@.len() == 0,
            r.template.suffix@.len() == 0,
            r.build.theme_dir@ == ".marp/themes"@,
            r.build.marp_binary@ == "marp"@,
    {
        ProjectConf {
            name: string_from("my-slide-project"),
            author: string_from("Your Name"),
            base_url: string_from("https://example.com/"),
            output_dir: string_from("output"),
            template: TemplateConf::default(),
            build: BuildConf::default(),
        }
    }
}

/// Configuration of a slide.
#[derive(Debug, Clone)]
pub struct SlideConf {
    /// Name of the slide.
    pub name: String,
    /// Version of the slide.
    pub version: u8,
    /// UUID, for a secret slide.
    pub secret: Option<String>,
    /// Custom paths of the slide.
    pub custom_path: Option<Vec<String>>,
    /// Draft flag: a draft is not published.
    pub draft: Option<bool>,
    /// Description of the slide.
    pub description: Option<String>,
    /// Prefix of the slide titles.
    pub title_prefix: Option<String>,
    /// Bibliography entries.
    pub bibliography: Option<Vec<BibEntry>>,
}

/// The title prefix of a slide: the configured one, else `"# "`.
pub open spec fn prefix_of(c: SlideConf) -> Seq<char> {
    match c.title_prefix {
        Some(p) => p@,
        None => "# "@,
    }
}

fn copy_string_opt(o: &Option<String>) -> (r: Option<String>)
    ensures
        r == *o,
{
    match o {
        Some(x) => Some(x.clone()),
        None => None,
    }
}

fn copy_strings(v: &Vec<String>) -> (r: Vec<String>)
    ensures
        r@ == v@,
{
    let mut r: Vec<String> = Vec::new();
    let mut i: usize = 0;
    while i < v.len()
        invariant
            i <= v.len(),
            r@ == v@.take(i as int),
        decreases v.len() - i,
    {
        r.push(v[i].clone());
        assert(v@.take(i + 1) =~= v@.take(i as int).push(v@[i as int]));
        i = i + 1;
    }
    assert(v@.take(v.len() as int) =~= v@);
    r
}

fn copy_entries(v: &Vec<BibEntry>) -> (r: Vec<BibEntry>)
    ensures
        r@ == v@,
{
    let mut r: Vec<BibEntry> = Vec::new();
    let mut i: usize = 0;
    while i < v.len()
        invariant
            i <= v.len(),
            r@ == v@.take(i as int),
        decreases v.len() - i,
    {
        let e = &v[i];
        r.push(
            BibEntry {
                tag: e.tag.clone(),
                title: e.title.clone(),
                authors: copy_string_opt(&e.authors),
                year: e.year,
                venue: copy_string_opt(&e.venue),
                url: copy_string_opt(&e.url),
            },
        );
        assert(v@.take(i + 1) =~= v@.take(i as int).push(v@[i as int]));
        i = i + 1;
    }
    assert(v@.take(v.len() as int) =~= v@);
    r
}

/// Two configurations hold the same values, field for field.
pub open spec fn same_conf(a: SlideConf, b: SlideConf) -> bool {
    &&& a.name == b.name
    &&& a.version == b.version
    &&& a.secret == b.secret
    &&& match (a.custom_path, b.custom_path) {
        (Some(x), Some(y)) => x@ == y@,
        (None, None) => true,
        _ => false,
    }
    &&& a.draft == b.draft
    &&& a.description == b.description
    &&& a.title_prefix == b.title_prefix
    &&& match (a.bibliography, b.bibliography) {
        (Some(x), Some(y)) => x@ == y@,
        (None, None) => true,
        _ => false,
    }
}

/// A copy of a slide configuration, field for field.
pub fn copy_conf(c: &SlideConf) -> (r: SlideConf)
    ensures
        same_conf(r, *c),
{
    SlideConf {
        name: c.name.clone(),
        version: c.version,
        secret: copy_string_opt(&c.secret),
        custom_path: match &c.custom_path {
            Some(p) => Some(copy_strings(p)),
            None => None,
        },
        draft: c.draft,
        description: copy_string_opt(&c.description),
        title_prefix: copy_string_opt(&c.title_prefix),
        bibliography: match &c.bibliography {
            Some(b) => Some(copy_entries(b)),
            None => None,
        },
    }
}

/// The output names that a published slide keeps: its secret identifier, or
/// its name when it has none, then its custom paths.
pub open spec fn kept_names(c: SlideConf) -> Seq<Seq<char>> {
    (match c.secret {
        Some(s) => seq![s@],
        None => seq![c.name@],
    }) + match c.custom_path {
        Some(p) => p@.map_values(|x: String| x@),
        None => Seq::<Seq<char>>::empty(),
    }
}

/// Whether a slide is published: it is not marked as a draft.
pub open spec fn published(c: SlideConf) -> bool {
    !(c.draft == Some(true))
}

/// The output names kept for the published slides of `confs`, in order.
pub open spec fn retained(confs: Seq<SlideConf>) -> Seq<Seq<char>>
    decreases confs.len(),
{
    if confs.len() == 0 {
        seq![]
    } else if published(confs.last()) {
        retained(confs.drop_last()) + kept_names(confs.last())
    } else {
        retained(confs.drop_last())
    }
}

/// The output names to keep when the output directory is cleaned.
pub fn retained_names(confs: &[SlideConf]) -> (r: Vec<String>)
    ensures
        r@.map_values(|x: String| x@) == retained(confs@),
{
    let mut r: Vec<String> = Vec::new();
    let mut i: usize = 0;
    while i < confs.len()
        invariant
            i <= confs.len(),
            r@.map_values(|x: String| x@) == retained(confs@.take(i as int)),
        decreases confs.len() - i,
    {
        let c = &confs[i];
        assert(confs@.take(i + 1).drop_last() =~= confs@.take(i as int));
        assert(confs@.take(i + 1).last() == *c);
        if c.is_published() {
            let ghost before = r@.map_values(|x: String| x@);
            match &c.secret {
                Some(sid) => r.push(sid.clone()),
                None => r.push(c.name.clone()),
            }
            let ghost head = r@.map_values(|x: String| x@);
            assert(head =~= before + match c.secret {
                Some(s) => seq![s@],
                None => seq![c.name@],
            });
            if let Some(paths) = &c.custom_path {
                let mut k: usize = 0;
                while k < paths.len()
                    invariant
                        k <= paths.len(),
                        r@.map_values(|x: String| x@) == head + paths@.take(k as int).map_values(
                            |x: String| x@,
                        ),
                    decreases paths.len() - k,
                {
                    let ghost prev = r@;
                    r.push(paths[k].clone());
                    assert(r@.map_values(|x: String| x@) =~= head + paths@.take(k + 1).map_values(
                        |x: String| x@,
                    )) by {
                        assert(paths@.take(k + 1).map_values(|x: String| x@) =~= paths@.take(
                            k as int,
                        ).map_values(|x: String| x@).push(paths@[k as int]@));
                        assert(r@.map_values(|x: String| x@) =~= prev.map_values(|x: String| x@).push(
                            paths@[k as int]@,
                        ));
                    }
                    k = k + 1;
                }
                assert(paths@.take(paths.len() as int) =~= paths@);
            } else {
                assert(head + Seq::<Seq<char>>::empty() =~= head);
            }
            assert(r@.map_values(|x: String| x@) =~= retained(confs@.take(i + 1)));
        }
        i = i + 1;
    }
    assert(confs@.take(confs.len() as int) =~= confs@);
    r
}

impl SlideConf {
    /// The configuration of a new slide named `name`; `secret_id` is the
    /// identifier of a secret slide.
    pub fn new_slide(name: String, secret_id: Option<String>, draft: bool) -> (r: SlideConf)
        ensures
            r.name == name,
            r.version == 1,
            r.secret == secret_id,
            r.custom_path matches Some(p) && p@.len() == 0,
            r.draft == (if draft { Some(true) } else { None::<bool> }),
            r.description matches Some(d) && d@.len() == 0,
            r.title_prefix is None,
            r.bibliography matches Some(b) && b@.len() == 0,
    {
        SlideConf {
            name,
            version: 1,
            secret: secret_id,
            custom_path: Some(Vec::new()),
            draft: if draft { Some(true) } else { None },
            description: Some(String::new()),
            title_prefix: None,
            bibliography: Some(Vec::new()),
        }
    }

    /// The prefix that marks a title line of this slide.
    pub fn title_prefix_or_default(&self) -> (r: String)
        ensures
            r@ == prefix_of(*self),
    {
        match &self.title_prefix {
            Some(p) => string_from(p.as_str()),
            None => string_from("# "),
        }
    }

    /// The bibliography of this slide; none is an empty one.
    pub fn bib_entries(&self) -> (r: &[BibEntry])
        ensures
            r@ == match self.bibliography {
                Some(b) => b@,
                None => Seq::<BibEntry>::empty(),
            },
    {
        match &self.bibliography {
            Some(b) => b.as_slice(),
            None => &[],
        }
    }

    /// Whether this slide is published.
    pub fn is_published(&self) -> (r: bool)
        ensures
            r == !(self.draft == Some(true)),
    {
        match self.draft {
            Some(d) => !d,
            None => true,
        }
    }
}

} // verus!
