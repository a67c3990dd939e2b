//! Configuration of data directories, templates and Hypothesis
//! authorization, as an explicit value handed to the engines at
//! construction time. Reading, prompting for and writing the configuration
//! file are I/O concerns that live with the callers.

use vstd::prelude::*;

verus! {

/// Pattern used for nested tag hierarchies at display time.
pub const DEFAULT_NESTED_TAG: &'static str = "/";

/// Handlebars template for one rendered annotation.
pub const DEFAULT_ANNOTATION_TEMPLATE: &'static str = "\n\n### {{id}}\nCreated: {{date_format \"%c\" created}}\nTags: {{#each tags}}{{this}}{{#unless @last}}, {{/unless}}{{/each}}\n\n{{#each highlight}}> {{this}}{{/each}}\n\n{{text}}\n\n[See in context]({{incontext}}) at [{{title}}]({{uri}})\n\n";

/// Handlebars template for one rendered page.
pub const DEFAULT_PAGE_TEMPLATE: &'static str = "\n# {{name}}\n{{#each annotations}}{{this}}{{/each}}\n\n";

/// Handlebars template for one index link line.
pub const DEFAULT_INDEX_LINK_TEMPLATE: &'static str = "\n- [{{name}}]({{relative_path}})";

/// Name of the index file.
pub const DEFAULT_INDEX_FILENAME: &'static str = "SUMMARY";

/// Extension of the generated wiki files.
pub const DEFAULT_FILE_EXTENSION: &'static str = "md";

/// The keys annotations can be grouped or sorted by.
#[derive(Debug, Clone, Copy, PartialEq, Eq, Structural)]
pub enum OrderBy {
    Tag,
    URI,
    BaseURI,
    Title,
    ID,
    Empty,
    Created,
    Updated,
}

impl OrderBy {
    /// The configuration word for this key, in place of a `Display` impl.
    pub fn display_name(&self) -> (r: String)
        ensures
            match self {
                OrderBy::Tag => r@ == "tag"@,
                OrderBy::URI => r@ == "uri"@,
                OrderBy::BaseURI => r@ == "base_uri"@,
                OrderBy::Title => r@ == "title"@,
                OrderBy::ID => r@ == "id"@,
                OrderBy::Empty => r@ == "empty"@,
                OrderBy::Created => r@ == "created"@,
                OrderBy::Updated => r@ == "updated"@,
            },
    {
        match self {
            OrderBy::Tag => String::from_str("tag"),
            OrderBy::URI => String::from_str("uri"),
            OrderBy::BaseURI => String::from_str("base_uri"),
            OrderBy::Title => String::from_str("title"),
            OrderBy::ID => String::from_str("id"),
            OrderBy::Empty => String::from_str("empty"),
            OrderBy::Created => String::from_str("created"),
            OrderBy::Updated => String::from_str("updated"),
        }
    }
}

/// The templates the knowledge base renders with.
pub struct Templates {
    pub annotation_template: String,
    pub page_template: String,
    pub index_link_template: String,
}

/// Configuration value; the optional entries are filled in by the callers
/// the first time the program runs.
pub struct GooseberryConfig {
    /// Hypothesis username
    pub hypothesis_username: Option<String>,
    /// Hypothesis personal API key
    pub hypothesis_key: Option<String>,
    /// Hypothesis group with knowledge base annotations
    pub hypothesis_group: Option<String>,
    /// Directory to store the mirror database files
    pub db_dir: String,
    /// Directory to write out knowledge base markdown files
    pub kb_dir: Option<String>,
    /// Handlebars annotation template
    pub annotation_template: Option<String>,
    /// Handlebars index link template
    pub index_link_template: Option<String>,
    /// Handlebars page template
    pub page_template: Option<String>,
    /// Handlebars index file name
    pub index_name: Option<String>,
    /// Wiki file extension
    pub file_extension: Option<String>,
    /// Define the hierarchy of folders
    pub hierarchy: Option<Vec<OrderBy>>,
    /// Define how annotations on a page are sorted
    pub sort: Option<Vec<OrderBy>>,
    /// Define tags to ignore
    pub ignore_tags: Option<Vec<String>>,
    /// Define nested tag pattern
    pub nested_tag: Option<String>,
}

impl GooseberryConfig {
    /// The configured templates, with the defaults filling the gaps.
    pub fn get_templates(&self) -> (r: Templates)
        ensures
            r.annotation_template@ == (match self.annotation_template {
                Some(t) => t@,
                None => DEFAULT_ANNOTATION_TEMPLATE@,
            }),
            r.page_template@ == (match self.page_template {
                Some(t) => t@,
                None => DEFAULT_PAGE_TEMPLATE@,
            }),
            r.index_link_template@ == (match self.index_link_template {
                Some(t) => t@,
                None => DEFAULT_INDEX_LINK_TEMPLATE@,
            }),
    {
        let annotation_template = match &self.annotation_template {
            Some(t) => t.clone(),
            None => String::from_str(DEFAULT_ANNOTATION_TEMPLATE),
        };
        let page_template = match &self.page_template {
            Some(t) => t.clone(),
            None => String::from_str(DEFAULT_PAGE_TEMPLATE),
        };
        let index_link_template = match &self.index_link_template {
            Some(t) => t.clone(),
            None => String::from_str(DEFAULT_INDEX_LINK_TEMPLATE),
        };
        Templates { annotation_template, page_template, index_link_template }
    }
}

/// Commands related to configuration management.
pub enum ConfigCommand {
    /// Prints / writes the default configuration options.
    Default { file: Option<String> },
    /// Prints current configuration
    Get,
    /// Prints location of currently set configuration file
    Where,
    /// Change Hypothesis credentials
    Authorize,
    /// Change the group used for Hypothesis annotations
    Group { group_id: Option<String> },
    /// Change options related to the knowledge base
    Kb { cmd: KbConfigCommand },
}

/// Commands that change knowledge-base settings.
pub enum KbConfigCommand {
    /// Change everything related to the knowledge base
    All,
    /// Change knowledge base directory
    Directory,
    /// Change annotation handlebars template
    Annotation,
    /// Change page handlebars template
    Page,
    /// Change index link handlebars template
    Link,
    /// Change index file name
    Index,
    /// Change knowledge base file extension
    Extension,
    /// Change folder & file hierarchy
    Hierarchy,
    /// Change sort order of annotations within a page
    Sort,
    /// Set which tags to ignore
    Ignore,
    /// Set string defining nested tags
    Nest,
}

} // verus!
