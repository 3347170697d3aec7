//! What the index page and the README of a project are rendered from.
use vstd::prelude::*;

use crate::config::{ProjectConf, SlideConf};

verus! {

/// The slides listed on the index page.
#[derive(Debug)]
pub struct IndexTemplate<'a> {
    /// Configurations of the slides.
    pub slides: &'a [SlideConf],
}

/// The project and slides listed in the README.
#[derive(Debug)]
pub struct ReadmeTemplate<'a> {
    /// Configuration of the project.
    pub project: &'a ProjectConf,
    /// Configurations of the slides.
    pub slides: &'a [SlideConf],
}

} // verus!
