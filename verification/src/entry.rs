//! The recipe entry: one document, backed by a filesystem path or by
//! in-memory content, with its frontmatter metadata.
//!
//! Everything here is computed from plain values.  The layer that touches
//! the disk reads file texts and directory listings and hands them in.
//! The derived values — name, menu flag, title image — are pure functions
//! of the source, the metadata and the listing handed in, recomputed on
//! every call: two calls given the same arguments agree, but nothing here
//! memoises a first answer against a filesystem that changes between the
//! I/O layer's probes.

use vstd::prelude::*;
use crate::metadata::{
    Metadata, MetaValView, metadata_of_text, title_of, tags_of, image_url_of,
};
use crate::paths::{
    file_name_of, file_stem_of, extension_of, with_ext_of, file_name, file_stem, extension,
    with_extension,
};
use crate::text::str_eq;

verus! {

/// Where a document comes from: a filesystem path, or raw content with an
/// optional name.
#[derive(Debug, Clone)]
pub enum RecipeSource {
    Path { path: String },
    Content { content: String, name: Option<String> },
}

/// Mathematical form of a source.
pub enum RecipeSourceView {
    Path { path: Seq<char> },
    Content { content: Seq<char>, name: Option<Seq<char>> },
}

impl View for RecipeSource {
    type V = RecipeSourceView;

    open spec fn view(&self) -> RecipeSourceView {
        match self {
            RecipeSource::Path { path } => RecipeSourceView::Path { path: path@ },
            RecipeSource::Content { content, name } => RecipeSourceView::Content {
                content: content@,
                name: name.deep_view(),
            },
        }
    }
}

/// What can go wrong around a recipe entry.
#[derive(Debug, Clone)]
pub enum RecipeEntryError {
    /// A file could not be read.
    IoError(String),
    /// A path yields no file stem.
    InvalidPath(String),
    /// A document failed to parse.
    ParseError(String),
    /// A document's metadata failed to parse.
    MetadataError(String),
}

/// One document: its source and its metadata.
#[derive(Debug, Clone)]
pub struct RecipeEntry {
    source: RecipeSource,
    metadata: Metadata,
}

/// Mathematical form of an entry.
pub struct RecipeEntryView {
    pub source: RecipeSourceView,
    pub metadata: Seq<(Seq<char>, MetaValView)>,
}

impl View for RecipeEntry {
    type V = RecipeEntryView;

    closed spec fn view(&self) -> RecipeEntryView {
        RecipeEntryView { source: self.source@, metadata: self.metadata@ }
    }
}

/// The entry's name: the metadata title, else the file stem of a
/// path-backed entry, else the provided name of a content-backed one.
pub open spec fn name_of_entry(e: RecipeEntryView) -> Option<Seq<char>> {
    match title_of(e.metadata) {
        Some(t) => Some(t),
        None => match e.source {
            RecipeSourceView::Path { path } => if file_name_of(path).len() > 0 {
                Some(file_stem_of(path))
            } else {
                None
            },
            RecipeSourceView::Content { name, .. } => name,
        },
    }
}

/// Whether the entry is a menu: a path-backed entry whose extension is
/// `menu`.
pub open spec fn is_menu_of(e: RecipeEntryView) -> bool {
    match e.source {
        RecipeSourceView::Path { path } => extension_of(path) == Some("menu"@),
        RecipeSourceView::Content { .. } => false,
    }
}

/// The image extensions recognised beside a recipe, in priority order.
pub open spec fn image_exts() -> Seq<Seq<char>> {
    seq!["jpg"@, "jpeg"@, "png"@, "webp"@]
}

/// The first extension in priority order, from `i` on, whose sibling
/// image file exists among `files`.
pub open spec fn first_image_from(path: Seq<char>, files: Seq<Seq<char>>, i: int) -> Option<
    Seq<char>,
>
    decreases image_exts().len() - i,
{
    if i < 0 || i >= image_exts().len() {
        None
    } else if files.contains(with_ext_of(path, image_exts()[i])) {
        Some(with_ext_of(path, image_exts()[i]))
    } else {
        first_image_from(path, files, i + 1)
    }
}

/// The sibling image of a path, among the existing files handed in.
pub open spec fn find_title_image_in(path: Seq<char>, files: Seq<Seq<char>>) -> Option<
    Seq<char>,
> {
    first_image_from(path, files, 0)
}

/// The entry's title image: the metadata's image address, else, for a
/// path-backed entry, the first sibling image in extension priority order.
pub open spec fn title_image_of(e: RecipeEntryView, files: Seq<Seq<char>>) -> Option<
    Seq<char>,
> {
    match image_url_of(e.metadata) {
        Some(u) => Some(u),
        None => match e.source {
            RecipeSourceView::Path { path } => find_title_image_in(path, files),
            RecipeSourceView::Content { .. } => None,
        },
    }
}

/// Whether `files` holds the path `p`.
pub fn contains_string(files: &Vec<String>, p: &str) -> (r: bool)
    ensures
        r == files.deep_view().contains(p@),
{
    let mut i: usize = 0;
    while i < files.len()
        invariant
            i <= files.len(),
            forall|j: int| 0 <= j < i ==> files.deep_view()[j] != p@,
        decreases files.len() - i,
    {
        proof {
            assert(files.deep_view()[i as int] == files@[i as int]@);
        }
        if str_eq(files[i].as_str(), p) {
            proof {
                assert(files.deep_view()[i as int] == p@);
            }
            return true;
        }
        i = i + 1;
    }
    proof {
        assert(forall|j: int|
            0 <= j < files.deep_view().len() ==> files.deep_view()[j] != p@);
    }
    false
}

/// Finds a sibling image of `path` among the existing `files`, trying the
/// recognised extensions in priority order.
pub fn find_title_image(path: &str, files: &Vec<String>) -> (r: Option<String>)
    ensures
        match r {
            Some(p) => find_title_image_in(path@, files.deep_view()) == Some(p@),
            None => find_title_image_in(path@, files.deep_view()) is None,
        },
{
    let ghost fs = files.deep_view();
    let c0 = with_extension(path, "jpg");
    if contains_string(files, c0.as_str()) {
        return Some(c0);
    }
    proof {
        assert(first_image_from(path@, fs, 0) == first_image_from(path@, fs, 1));
    }
    let c1 = with_extension(path, "jpeg");
    if contains_string(files, c1.as_str()) {
        return Some(c1);
    }
    proof {
        assert(first_image_from(path@, fs, 1) == first_image_from(path@, fs, 2));
    }
    let c2 = with_extension(path, "png");
    if contains_string(files, c2.as_str()) {
        return Some(c2);
    }
    proof {
        assert(first_image_from(path@, fs, 2) == first_image_from(path@, fs, 3));
    }
    let c3 = with_extension(path, "webp");
    if contains_string(files, c3.as_str()) {
        return Some(c3);
    }
    proof {
        assert(first_image_from(path@, fs, 3) == first_image_from(path@, fs, 4));
    }
    None
}

impl RecipeSource {
    /// A copy with the same view.
    pub fn duplicate(&self) -> (r: RecipeSource)
        ensures
            r@ == self@,
    {
        match self {
            RecipeSource::Path { path } => RecipeSource::Path { path: path.clone() },
            RecipeSource::Content { content, name } => RecipeSource::Content {
                content: content.clone(),
                name: match name {
                    Some(n) => Some(n.clone()),
                    None => None,
                },
            },
        }
    }
}

impl RecipeEntry {
    /// A copy with the same view.
    pub fn duplicate(&self) -> (r: RecipeEntry)
        ensures
            r@ == self@,
    {
        let r = RecipeEntry {
            source: self.source.duplicate(),
            metadata: self.metadata.duplicate(),
        };
        proof {
            assert(r@ == self@);
        }
        r
    }

    /// Builds an entry from raw content and an optional name; the
    /// metadata comes from the content's frontmatter, a malformed block
    /// counting as empty.  Nothing can fail here; the result type matches
    /// the path-backed constructor's.
    pub fn from_content(content: String, name: Option<String>) -> (r: Result<
        RecipeEntry,
        RecipeEntryError,
    >)
        ensures
            match r {
                Ok(e) => e@.source == (RecipeSourceView::Content {
                    content: content@,
                    name: name.deep_view(),
                }) && e@.metadata == metadata_of_text(content@),
                Err(_) => false,
            },
    {
        let lines = crate::text::split_lines(content.as_str());
        let metadata = crate::metadata::extract_and_parse_metadata(&lines);
        Ok(RecipeEntry { source: RecipeSource::Content { content, name }, metadata })
    }

    /// Builds a path-backed entry from the path and the file's text, as
    /// the I/O layer read it; the metadata comes from the text's
    /// frontmatter, a malformed block counting as empty.
    pub fn from_path_text(path: String, text: &str) -> (r: RecipeEntry)
        ensures
            r@.source == (RecipeSourceView::Path { path: path@ }),
            r@.metadata == metadata_of_text(text@),
    {
        let lines = crate::text::split_lines(text);
        let metadata = crate::metadata::extract_and_parse_metadata(&lines);
        RecipeEntry { source: RecipeSource::Path { path }, metadata }
    }

    /// The entry's name.
    pub fn name(&self) -> (r: Option<String>)
        ensures
            match r {
                Some(n) => name_of_entry(self@) == Some(n@),
                None => name_of_entry(self@) is None,
            },
    {
        if let Some(t) = self.metadata.title() {
            return Some(t.to_owned());
        }
        match &self.source {
            RecipeSource::Path { path } => file_stem(path.as_str()),
            RecipeSource::Content { name, .. } => match name {
                Some(n) => Some(n.clone()),
                None => None,
            },
        }
    }

    /// The entry's metadata.
    pub fn metadata(&self) -> (r: &Metadata)
        ensures
            r@ == self@.metadata,
    {
        &self.metadata
    }

    /// The entry's path, when it is path-backed.
    pub fn path(&self) -> (r: Option<&String>)
        ensures
            match r {
                Some(p) => self@.source == (RecipeSourceView::Path { path: p@ }),
                None => self@.source is Content,
            },
    {
        match &self.source {
            RecipeSource::Path { path } => Some(path),
            RecipeSource::Content { .. } => None,
        }
    }

    /// The file name of a path-backed entry.
    pub fn file_name(&self) -> (r: Option<String>)
        ensures
            match r {
                Some(n) => self@.source is Path && file_name_of(self@.source->Path_path)
                    == n@ && n@.len() > 0,
                None => self@.source is Content || file_name_of(
                    self@.source->Path_path,
                ).len() == 0,
            },
    {
        match &self.source {
            RecipeSource::Path { path } => file_name(path.as_str()),
            RecipeSource::Content { .. } => None,
        }
    }

    /// The entry's tags, from its metadata.
    pub fn tags(&self) -> (r: Vec<String>)
        ensures
            r.deep_view() == tags_of(self@.metadata),
    {
        self.metadata.tags()
    }

    /// Whether the entry is a menu.
    pub fn is_menu(&self) -> (r: bool)
        ensures
            r == is_menu_of(self@),
    {
        match &self.source {
            RecipeSource::Path { path } => match extension(path.as_str()) {
                Some(e) => str_eq(e.as_str(), "menu"),
                None => false,
            },
            RecipeSource::Content { .. } => false,
        }
    }

    /// The stored content of a content-backed entry.  A path-backed
    /// entry's text lives on disk and is read by the I/O layer; asked
    /// here, it reports an I/O error.
    pub fn content(&self) -> (r: Result<String, RecipeEntryError>)
        ensures
            match r {
                Ok(c) => self@.source is Content && c@ == self@.source->Content_content,
                Err(e) => self@.source is Path && e is IoError,
            },
    {
        match &self.source {
            RecipeSource::Content { content, .. } => Ok(content.clone()),
            RecipeSource::Path { path } => Err(
                RecipeEntryError::IoError(
                    "file-backed content is read by the I/O layer".to_owned(),
                ),
            ),
        }
    }

    /// The entry's title image, given the sibling files that exist beside
    /// a path-backed entry.
    pub fn title_image(&self, sibling_files: &Vec<String>) -> (r: Option<String>)
        ensures
            match r {
                Some(u) => title_image_of(self@, sibling_files.deep_view()) == Some(u@),
                None => title_image_of(self@, sibling_files.deep_view()) is None,
            },
    {
        if let Some(u) = self.metadata.image_url() {
            return Some(u);
        }
        match &self.source {
            RecipeSource::Path { path } => find_title_image(path.as_str(), sibling_files),
            RecipeSource::Content { .. } => None,
        }
    }
}

} // verus!
