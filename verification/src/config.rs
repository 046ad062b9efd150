use vstd::prelude::*;
use crate::naming::NameType;

verus! {

/// The configuration a project supplies: where fragments and the changelog
/// live (as path text), the ordered category names, and naming options.
#[derive(Debug, Clone)]
pub struct Config {
    pub tinylogs_dir: String,
    pub changelog: String,
    pub categories: Vec<String>,
    pub naming: NameType,
    pub max_filename_length: Option<usize>,
}

/// Everything a command needs: the resolved paths (as text), the run flags,
/// and the configuration.
#[derive(Debug)]
pub struct CommandOpts {
    silent: bool,
    interactive: bool,
    tinychanges_dir: String,
    changelog: String,
    workdir: String,
    command_name: String,
    config: Config,
}

impl CommandOpts {
    /// The configured category names, in order, as character sequences.
    pub closed spec fn categories_view(&self) -> Seq<Seq<char>> {
        self.config.categories.deep_view()
    }

    pub closed spec fn spec_silent(&self) -> bool {
        self.silent
    }

    pub closed spec fn spec_interactive(&self) -> bool {
        self.interactive
    }

    pub closed spec fn spec_tinychanges_dir(&self) -> Seq<char> {
        self.tinychanges_dir@
    }

    pub closed spec fn spec_changelog_file(&self) -> Seq<char> {
        self.changelog@
    }

    pub closed spec fn spec_workdir(&self) -> Seq<char> {
        self.workdir@
    }

    pub closed spec fn spec_command_name(&self) -> Seq<char> {
        self.command_name@
    }

    pub closed spec fn spec_config(&self) -> Config {
        self.config
    }

    /// Assemble the options from already-resolved path text. Checking that the
    /// resolved paths stay inside the project directory is path logic and is
    /// done by the caller that owns the paths.
    pub fn new(
        silent: bool,
        interactive: bool,
        tinychanges_dir: String,
        changelog: String,
        workdir: String,
        command_name: String,
        config: Config,
    ) -> (r: Self)
        ensures
            r.spec_silent() == silent,
            r.spec_interactive() == interactive,
            r.spec_tinychanges_dir() == tinychanges_dir@,
            r.spec_changelog_file() == changelog@,
            r.spec_workdir() == workdir@,
            r.spec_command_name() == command_name@,
            r.spec_config() == config,
            r.categories_view() == config.categories.deep_view(),
    {
        Self { silent, interactive, tinychanges_dir, changelog, workdir, command_name, config }
    }

    pub fn silent(&self) -> (r: bool)
        ensures
            r == self.spec_silent(),
    {
        self.silent
    }

    pub fn interactive(&self) -> (r: bool)
        ensures
            r == self.spec_interactive(),
    {
        self.interactive
    }

    pub fn categories(&self) -> (r: &Vec<String>)
        ensures
            r == self.spec_config().categories,
            r.deep_view() == self.categories_view(),
    {
        &self.config.categories
    }

    pub fn workdir(&self) -> (r: &str)
        ensures
            r@ == self.spec_workdir(),
    {
        self.workdir.as_str()
    }

    pub fn tinychanges_dir(&self) -> (r: &str)
        ensures
            r@ == self.spec_tinychanges_dir(),
    {
        self.tinychanges_dir.as_str()
    }

    pub fn changelog_file(&self) -> (r: &str)
        ensures
            r@ == self.spec_changelog_file(),
    {
        self.changelog.as_str()
    }

    pub fn naming(&self) -> (r: &NameType)
        ensures
            r == self.spec_config().naming,
    {
        &self.config.naming
    }

    pub fn max_filename_length(&self) -> (r: Option<usize>)
        ensures
            r == self.spec_config().max_filename_length,
    {
        self.config.max_filename_length
    }

    pub fn command_name(&self) -> (r: &str)
        ensures
            r@ == self.spec_command_name(),
    {
        self.command_name.as_str()
    }
}

} // verus!
