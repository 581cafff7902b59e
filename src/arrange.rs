//! Where a template lives: the directory it was fetched to, the subdirectory
//! that holds it, and the format of its defaults file.
use vstd::prelude::*;

verus! {

/// The format of a template's defaults file.
#[derive(Copy, Clone, Debug, PartialEq, Eq, PartialOrd, Ord, Hash, Structural)]
pub enum ConfigFormat {
    JavaProps,
    Toml,
}

/// The location of a template.
pub struct Project {
    pub root_dir: String,
    pub template_dir: Option<String>,
    pub config_format: ConfigFormat,
}

impl Default for Project {
    fn default() -> (r: Project)
        ensures
            r.root_dir@ == "."@,
            r.template_dir is None,
            r.config_format == ConfigFormat::Toml,
    {
        Project { root_dir: ".".to_owned(), template_dir: None, config_format: ConfigFormat::Toml }
    }
}

impl Project {
    /// Makes `root` the subdirectory that holds the template.
    pub fn alter_root(&mut self, root: &str)
        ensures
            final(self).template_dir matches Some(t) && t@ == root@,
            final(self).root_dir == old(self).root_dir,
            final(self).config_format == old(self).config_format,
    {
        self.template_dir = Some(root.to_owned());
    }
}

} // verus!
