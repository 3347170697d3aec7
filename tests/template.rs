use slide_flow::config::{BuildConf, ProjectConf, SlideConf, TemplateConf};
use slide_flow::template::{IndexTemplate, ReadmeTemplate};

fn slides() -> Vec<SlideConf> {
    vec![
        SlideConf {
            name: "title1".to_string(),
            version: 1,
            secret: None,
            custom_path: None,
            draft: None,
            description: None,
            title_prefix: None,
            bibliography: None,
        },
        SlideConf {
            name: "title2".to_string(),
            version: 1,
            secret: Some("uuid".to_string()),
            custom_path: None,
            draft: None,
            description: None,
            title_prefix: Some("#".to_string()),
            bibliography: None,
        },
        SlideConf {
            name: "title3".to_string(),
            version: 1,
            secret: None,
            custom_path: Some(vec!["path".to_string()]),
            draft: Some(true),
            description: None,
            title_prefix: Some("##".to_string()),
            bibliography: None,
        },
        SlideConf {
            name: "title4".to_string(),
            version: 1,
            secret: None,
            custom_path: None,
            draft: Some(false),
            description: Some("タイトル4".to_string()),
            title_prefix: Some("###".to_string()),
            bibliography: None,
        },
    ]
}

#[test]
fn test_index() {
    let slides = slides();
    let template = IndexTemplate { slides: &slides };

    println!("{:?}", template);
    assert_eq!(template.slides.len(), 4);
    assert!(!template.slides[2].is_published());
    assert!(template.slides[3].is_published());
}

#[test]
fn test_readme() {
    let template = TemplateConf {
        slide: String::new(),
        index: String::new(),
        suffix: String::new(),
    };

    let build_conf = BuildConf {
        theme_dir: String::new(),
        marp_binary: String::new(),
    };

    let project = ProjectConf {
        name: "my-project".to_string(),
        author: "powell".to_string(),
        base_url: "https://test.dev/slides/".to_string(),
        output_dir: "output".to_string(),
        template,
        build: build_conf,
    };

    let slides = slides();
    let template = ReadmeTemplate {
        project: &project,
        slides: &slides,
    };

    println!("{:?}", template);
    assert_eq!(template.project.name, "my-project");
    assert_eq!(template.slides[1].title_prefix_or_default(), "#");
}
