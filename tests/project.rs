use slide_flow::config::{BuildConf, ProjectConf, SlideConf, TemplateConf};
use slide_flow::project::{join_path, Project, Slide};

fn conf(name: &str) -> SlideConf {
    SlideConf::new_slide(name.to_string(), None, false)
}

#[test]
fn slide_paths() {
    let s = Slide { dir: "root/src/s1".to_string(), conf: conf("s1") };
    assert_eq!(s.slide_path(), "root/src/s1/slide.md");
    assert_eq!(s.image_dir(), "root/src/s1/images");
    assert_eq!(s.conf_path(), "root/src/s1/slide.toml");
}

#[test]
fn join_path_cases() {
    assert_eq!(join_path("a/", "b"), "a/b");
    assert_eq!(join_path("", "b"), "b");
    assert_eq!(join_path("a", "/b"), "/b");
}

#[test]
fn project_slides() {
    let p = Project {
        root_dir: "/p".to_string(),
        conf: ProjectConf::default(),
        slides: vec![Slide { dir: "/p/src/x".to_string(), conf: conf("x") }],
    };
    let confs = p.get_slide_conf_list();
    assert_eq!(confs.len(), 1);
    assert_eq!(confs[0].name, "x");
    let s = p.get_slide("src/y", conf("y"));
    assert_eq!(s.dir, "/p/src/y");
    assert_eq!(s.conf.name, "y");
}

#[test]
fn default_configuration() {
    let c = ProjectConf::default();
    assert_eq!(c.name, "my-slide-project");
    assert_eq!(c.author, "Your Name");
    assert_eq!(c.base_url, "https://example.com/");
    assert_eq!(c.output_dir, "output");
    assert_eq!(c.build.theme_dir, ".marp/themes");
    assert_eq!(c.build.marp_binary, "marp");
    let t = TemplateConf::default();
    assert_eq!(t.slide, "");
    let b = BuildConf::default();
    assert_eq!(b.marp_binary, "marp");
}

#[test]
fn new_slide_configuration() {
    let c = SlideConf::new_slide("n".to_string(), Some("id".to_string()), true);
    assert_eq!(c.version, 1);
    assert_eq!(c.secret.as_deref(), Some("id"));
    assert_eq!(c.draft, Some(true));
    assert!(!c.is_published());
    assert_eq!(c.title_prefix_or_default(), "# ");
    assert_eq!(c.bib_entries().len(), 0);
    let d = SlideConf::new_slide("n".to_string(), None, false);
    assert_eq!(d.draft, None);
    assert!(d.is_published());
}

#[test]
fn retained_names_skip_drafts() {
    let mut a = conf("a");
    a.custom_path = Some(vec!["p1".to_string(), "p2".to_string()]);
    let b = SlideConf::new_slide("b".to_string(), Some("sid".to_string()), false);
    let c = SlideConf::new_slide("c".to_string(), None, true);
    let names = slide_flow::config::retained_names(&[a, b, c]);
    assert_eq!(names, vec!["a", "p1", "p2", "sid"]);
}
