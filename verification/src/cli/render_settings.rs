//! Shared project and command-line render settings, and how they combine.

use vstd::prelude::*;

verus! {

/// Whether renders keep working artifacts in a persistent cache.
#[derive(Clone, Copy, Debug, PartialEq, Eq, Structural)]
pub enum CacheMode {
    Persistent,
    /// No persistent cache (authored as `none`).
    Disabled,
}

/// Which compatible rendering primitives share one execution job.
#[derive(Clone, Copy, Debug, PartialEq, Eq, Structural)]
pub enum MaterializationMode {
    All,
    Fused,
}

impl CacheMode {
    /// The user-facing name of the policy: `persistent`, or `none` for no persistent cache.
    pub fn label(self) -> (label: &'static str)
        ensures
            label@ == (match self {
                CacheMode::Persistent => "persistent"@,
                CacheMode::Disabled => "none"@,
            }),
    {
        match self {
            CacheMode::Persistent => "persistent",
            CacheMode::Disabled => "none",
        }
    }
}

impl MaterializationMode {
    /// The user-facing name of the policy: `all` or `fused`.
    pub fn label(self) -> (label: &'static str)
        ensures
            label@ == (match self {
                MaterializationMode::All => "all"@,
                MaterializationMode::Fused => "fused"@,
            }),
    {
        match self {
            MaterializationMode::All => "all",
            MaterializationMode::Fused => "fused",
        }
    }
}

/// The options a render runs with.
#[derive(Clone, Copy, Debug, PartialEq, Eq, Structural)]
pub struct RenderOptions {
    cache_mode: CacheMode,
    materialization_mode: MaterializationMode,
}

impl RenderOptions {
    /// Combine a cache policy and a materialization policy.
    pub fn new(cache_mode: CacheMode, materialization_mode: MaterializationMode) -> (options: Self)
        ensures
            options.spec_cache_mode() == cache_mode,
            options.spec_materialization_mode() == materialization_mode,
    {
        RenderOptions { cache_mode, materialization_mode }
    }

    /// The cache policy.
    pub closed spec fn spec_cache_mode(self) -> CacheMode {
        self.cache_mode
    }

    /// The materialization policy.
    pub closed spec fn spec_materialization_mode(self) -> MaterializationMode {
        self.materialization_mode
    }

    /// Return the cache policy.
    pub fn cache_mode(&self) -> (mode: CacheMode)
        ensures
            mode == self.spec_cache_mode(),
    {
        self.cache_mode
    }

    /// Return the materialization policy.
    pub fn materialization_mode(&self) -> (mode: MaterializationMode)
        ensures
            mode == self.spec_materialization_mode(),
    {
        self.materialization_mode
    }
}

impl Default for RenderOptions {
    /// Renders cache persistently and materialize every primitive.
    fn default() -> (options: Self)
        ensures
            options.spec_cache_mode() == CacheMode::Persistent,
            options.spec_materialization_mode() == MaterializationMode::All,
    {
        RenderOptions { cache_mode: CacheMode::Persistent, materialization_mode: MaterializationMode::All }
    }
}

/// An authored cache policy.
#[derive(Clone, Copy, Debug, PartialEq, Eq, Structural)]
pub enum CacheSetting {
    Persistent,
    /// Authored as `none`.
    Disabled,
}

impl CacheSetting {
    /// The render cache policy this setting selects.
    pub open spec fn spec_render_mode(self) -> CacheMode {
        match self {
            CacheSetting::Persistent => CacheMode::Persistent,
            CacheSetting::Disabled => CacheMode::Disabled,
        }
    }

    /// Return the render cache policy this setting selects.
    pub fn render_mode(self) -> (mode: CacheMode)
        ensures
            mode == self.spec_render_mode(),
    {
        match self {
            CacheSetting::Persistent => CacheMode::Persistent,
            CacheSetting::Disabled => CacheMode::Disabled,
        }
    }
}

/// An authored materialization policy.
#[derive(Clone, Copy, Debug, PartialEq, Eq, Structural)]
pub enum MaterializationSetting {
    All,
    Fused,
}

impl MaterializationSetting {
    /// The render materialization policy this setting selects.
    pub open spec fn spec_render_mode(self) -> MaterializationMode {
        match self {
            MaterializationSetting::All => MaterializationMode::All,
            MaterializationSetting::Fused => MaterializationMode::Fused,
        }
    }

    /// Return the render materialization policy this setting selects.
    pub fn render_mode(self) -> (mode: MaterializationMode)
        ensures
            mode == self.spec_render_mode(),
    {
        match self {
            MaterializationSetting::All => MaterializationMode::All,
            MaterializationSetting::Fused => MaterializationMode::Fused,
        }
    }
}

/// Render settings as one source (the project or the command line) gives them; an
/// omitted setting leaves the decision to the next source.
#[derive(Clone, Copy, Debug, PartialEq, Eq, Structural)]
pub struct RenderSettingsPatch {
    pub cache: Option<CacheSetting>,
    pub materialization: Option<MaterializationSetting>,
}

impl Default for RenderSettingsPatch {
    /// A patch that sets nothing.
    fn default() -> (patch: Self)
        ensures
            patch.cache is None,
            patch.materialization is None,
    {
        RenderSettingsPatch { cache: Option::None, materialization: Option::None }
    }
}

impl RenderSettingsPatch {
    /// Resolve render options: each setting from the command line, else from the project,
    /// else the default.
    pub fn resolve(project: Option<Self>, command_line: Self) -> (options: RenderOptions)
        ensures
            options.spec_cache_mode() == match command_line.cache {
                Some(setting) => setting.spec_render_mode(),
                Option::None => match project {
                    Some(patch) => match patch.cache {
                        Some(setting) => setting.spec_render_mode(),
                        Option::None => CacheMode::Persistent,
                    },
                    Option::None => CacheMode::Persistent,
                },
            },
            options.spec_materialization_mode() == match command_line.materialization {
                Some(setting) => setting.spec_render_mode(),
                Option::None => match project {
                    Some(patch) => match patch.materialization {
                        Some(setting) => setting.spec_render_mode(),
                        Option::None => MaterializationMode::All,
                    },
                    Option::None => MaterializationMode::All,
                },
            },
    {
        let project = match project {
            Some(patch) => patch,
            Option::None => RenderSettingsPatch::default(),
        };
        let defaults = RenderOptions::default();
        let cache = match command_line.cache {
            Some(setting) => setting.render_mode(),
            Option::None => match project.cache {
                Some(setting) => setting.render_mode(),
                Option::None => defaults.cache_mode(),
            },
        };
        let materialization = match command_line.materialization {
            Some(setting) => setting.render_mode(),
            Option::None => match project.materialization {
                Some(setting) => setting.render_mode(),
                Option::None => defaults.materialization_mode(),
            },
        };
        RenderOptions::new(cache, materialization)
    }
}

} // verus!
