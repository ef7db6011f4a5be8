//! Per-file-type highlighting configuration. The mapping from a filename
//! extension to a configuration is a concern of the surrounding program;
//! the library only consumes a ready configuration.

use vstd::prelude::*;

verus! {

/// The mathematical content of a highlighting configuration.
pub ghost struct HlConfig {
    pub numbers: bool,
    pub strings: bool,
    pub characters: bool,
    pub comments: bool,
    pub multiline_comments: bool,
    pub primary_keywords: Seq<Seq<char>>,
    pub secondary_keywords: Seq<Seq<char>>,
}

/// Which token classes a file type enables, and its keyword lists.
/// Keyword lists are matched in order; the first literal match wins.
pub struct HighlightingOptions {
    pub numbers: bool,
    pub strings: bool,
    pub characters: bool,
    pub comments: bool,
    pub multiline_comments: bool,
    pub primary_keywords: Vec<String>,
    pub secondary_keywords: Vec<String>,
}

impl View for HighlightingOptions {
    type V = HlConfig;

    open spec fn view(&self) -> HlConfig {
        HlConfig {
            numbers: self.numbers,
            strings: self.strings,
            characters: self.characters,
            comments: self.comments,
            multiline_comments: self.multiline_comments,
            primary_keywords: self.primary_keywords.deep_view(),
            secondary_keywords: self.secondary_keywords.deep_view(),
        }
    }
}

impl Default for HighlightingOptions {
    /// A configuration with every token class disabled and no keywords.
    fn default() -> (r: Self)
        ensures
            !r@.numbers,
            !r@.strings,
            !r@.characters,
            !r@.comments,
            !r@.multiline_comments,
            r@.primary_keywords.len() == 0,
            r@.secondary_keywords.len() == 0,
    {
        let r = HighlightingOptions {
            numbers: false,
            strings: false,
            characters: false,
            comments: false,
            multiline_comments: false,
            primary_keywords: Vec::new(),
            secondary_keywords: Vec::new(),
        };
        proof {
            assert(r@.primary_keywords =~~= Seq::<Seq<char>>::empty());
            assert(r@.secondary_keywords =~~= Seq::<Seq<char>>::empty());
        }
        r
    }
}

/// A file type: a display name plus the highlighting configuration it
/// selects. Built by the surrounding program from a filename extension.
pub struct FileType {
    name: String,
    hl_opts: HighlightingOptions,
}

impl FileType {
    pub fn new(name: String, hl_opts: HighlightingOptions) -> (r: FileType)
        ensures
            r.name_spec() == name@,
            r.options_spec() == hl_opts@,
    {
        FileType { name, hl_opts }
    }

    pub closed spec fn name_spec(&self) -> Seq<char> {
        self.name@
    }

    pub closed spec fn options_spec(&self) -> HlConfig {
        self.hl_opts@
    }

    /// The file type's display name.
    pub fn name(&self) -> (r: String)
        ensures
            r@ == self.name_spec(),
    {
        self.name.clone()
    }

    /// The highlighting configuration of this file type.
    pub fn options(&self) -> (r: &HighlightingOptions)
        ensures
            r@ == self.options_spec(),
    {
        &self.hl_opts
    }
}

impl Default for FileType {
    /// The file type used when no filename or no known extension is given:
    /// no highlighting at all.
    fn default() -> (r: Self)
        ensures
            r.name_spec() == "No filetype"@,
            !r.options_spec().numbers,
            !r.options_spec().strings,
            !r.options_spec().characters,
            !r.options_spec().comments,
            !r.options_spec().multiline_comments,
            r.options_spec().primary_keywords.len() == 0,
            r.options_spec().secondary_keywords.len() == 0,
    {
        let name = String::from_str("No filetype");
        FileType { name, hl_opts: HighlightingOptions::default() }
    }
}

} // verus!
