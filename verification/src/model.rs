//! The data model: note metadata records, the application state that
//! mirrors the vault, planned filesystem effects, and the small result
//! types of search and import.

use vstd::prelude::*;

verus! {

/// One note's metadata, as mirrored in memory.
///
/// The path is the record's lookup key.  Geometry fields are absent
/// unless the header names them; an absent field means "not set",
/// never zero.
pub struct NoteMeta {
    pub path: String,
    pub seq: i32,
    pub context: String,
    pub updated: String,
    pub x: Option<i64>,
    pub y: Option<i64>,
    pub width: Option<i64>,
    pub height: Option<i64>,
    pub background_color: Option<String>,
    pub always_on_top: Option<bool>,
    pub tags: Vec<String>,
}

/// The mathematical value of a `NoteMeta`.
pub ghost struct NoteMetaView {
    pub path: Seq<char>,
    pub seq: int,
    pub context: Seq<char>,
    pub updated: Seq<char>,
    pub x: Option<int>,
    pub y: Option<int>,
    pub width: Option<int>,
    pub height: Option<int>,
    pub background_color: Option<Seq<char>>,
    pub always_on_top: Option<bool>,
    pub tags: Seq<Seq<char>>,
}

pub open spec fn opt_i64_view(o: Option<i64>) -> Option<int> {
    match o {
        Some(v) => Some(v as int),
        None => None,
    }
}

pub open spec fn opt_str_view(o: Option<String>) -> Option<Seq<char>> {
    match o {
        Some(v) => Some(v@),
        None => None,
    }
}

impl View for NoteMeta {
    type V = NoteMetaView;

    open spec fn view(&self) -> NoteMetaView {
        NoteMetaView {
            path: self.path@,
            seq: self.seq as int,
            context: self.context@,
            updated: self.updated@,
            x: opt_i64_view(self.x),
            y: opt_i64_view(self.y),
            width: opt_i64_view(self.width),
            height: opt_i64_view(self.height),
            background_color: opt_str_view(self.background_color),
            always_on_top: self.always_on_top,
            tags: self.tags.deep_view(),
        }
    }
}

impl NoteMeta {
    /// An empty record: zero sequence, empty strings, no fields set.
    pub fn empty() -> (r: NoteMeta)
        ensures
            r@.path == Seq::<char>::empty(),
            r@.seq == 0,
            r@.context == Seq::<char>::empty(),
            r@.updated == Seq::<char>::empty(),
            r@.x is None,
            r@.y is None,
            r@.width is None,
            r@.height is None,
            r@.background_color is None,
            r@.always_on_top is None,
            r@.tags == Seq::<Seq<char>>::empty(),
    {
        let r = NoteMeta {
            path: String::new(),
            seq: 0,
            context: String::new(),
            updated: String::new(),
            x: None,
            y: None,
            width: None,
            height: None,
            background_color: None,
            always_on_top: None,
            tags: Vec::new(),
        };
        proof {
            assert(r@.tags =~= Seq::<Seq<char>>::empty());
        }
        r
    }
}

impl Default for NoteMeta {
    fn default() -> (r: NoteMeta)
        ensures
            r@.path == Seq::<char>::empty(),
            r@.seq == 0,
            r@.context == Seq::<char>::empty(),
            r@.updated == Seq::<char>::empty(),
            r@.x is None,
            r@.y is None,
            r@.width is None,
            r@.height is None,
            r@.background_color is None,
            r@.always_on_top is None,
            r@.tags == Seq::<Seq<char>>::empty(),
    {
        NoteMeta::empty()
    }
}

/// A pending filesystem mutation, produced by the planner and carried
/// out elsewhere.  A batch is an ordered list: any rename comes first,
/// and a write is addressed at the post-rename path.
pub enum Effect {
    WriteNote { path: String, content: String },
    RenameNote { old_path: String, new_path: String },
    Batch(Vec<Effect>),
}

/// The shared application state: the vault location and the in-memory
/// mirror of every note's metadata, kept sorted by path.
pub struct AppState {
    pub base_path: Option<String>,
    pub folder_path: Option<String>,
    pub notes: Vec<NoteMeta>,
    pub selected_path: Option<String>,
    pub active_context_menu_path: Option<String>,
    pub active_world: Option<String>,
    pub active_tags: Vec<String>,
}

impl AppState {
    pub fn empty() -> (r: AppState)
        ensures
            r.base_path is None,
            r.folder_path is None,
            r.notes@ == Seq::<NoteMeta>::empty(),
            r.selected_path is None,
            r.active_context_menu_path is None,
            r.active_world is None,
            r.active_tags@ == Seq::<String>::empty(),
    {
        AppState {
            base_path: None,
            folder_path: None,
            notes: Vec::new(),
            selected_path: None,
            active_context_menu_path: None,
            active_world: None,
            active_tags: Vec::new(),
        }
    }
}

impl Default for AppState {
    fn default() -> (r: AppState)
        ensures
            r.base_path is None,
            r.folder_path is None,
            r.notes@ == Seq::<NoteMeta>::empty(),
            r.selected_path is None,
            r.active_context_menu_path is None,
            r.active_world is None,
            r.active_tags@ == Seq::<String>::empty(),
    {
        AppState::empty()
    }
}

/// One full-text search match: the note, the body line number the
/// match sits on (counting from the first visible body line), and a
/// preview of that line.
pub struct SearchHit {
    pub path: String,
    pub line: usize,
    pub preview: String,
}

/// Counters reported by a folder import.
pub struct ImportStats {
    pub total_files: usize,
    pub imported_md: usize,
    pub imported_images: usize,
    pub skipped: usize,
    pub errors: Vec<String>,
}

impl ImportStats {
    pub fn new() -> (r: ImportStats)
        ensures
            r.total_files == 0,
            r.imported_md == 0,
            r.imported_images == 0,
            r.skipped == 0,
            r.errors@ == Seq::<String>::empty(),
    {
        ImportStats {
            total_files: 0,
            imported_md: 0,
            imported_images: 0,
            skipped: 0,
            errors: Vec::new(),
        }
    }
}

} // verus!
