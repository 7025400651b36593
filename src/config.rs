use vstd::prelude::*;

verus! {

/// What the process is configured with: the stops to watch, the destination
/// substitutions, the page layout and the feed's credential.
pub struct ConfigFile {
    pub stops: Vec<StopConfig>,
    /// Exact-match renames of destination names, first match first.
    pub destination_subs: Vec<(String, String)>,
    pub layout: LayoutConfig,
    pub api_key: String,
}

pub struct LayoutConfig {
    pub left: SideConfig,
    pub right: SideConfig,
    pub width: i32,
    pub height: i32,
}

pub struct SideConfig {
    pub sections: Vec<SectionConfig>,
}

pub enum SectionConfig {
    AgencySection(AgencySectionConfig),
    TextSection(TextSectionConfig),
}

pub struct TextSectionConfig {
    pub text: String,
}

pub struct AgencySectionConfig {
    pub agency: String,
    pub direction: String,
}

/// One agency and the stops of it to watch.
pub struct StopConfig {
    pub agency: String,
    /// Ordered (prefix, replacement) rules for line labels; the first that matches applies.
    pub line_prefix_subs: Vec<(String, String)>,
    pub stops: Vec<String>,
}

} // verus!
