//! Actions, paths and patch edits.

use vstd::prelude::*;

use crate::json;
use crate::json::{Json, JsonValue};

verus! {

/// One segment in a validated Jsync action path.
#[derive(Debug, Clone, PartialEq, Eq, Hash)]
pub enum PathSegment {
    /// Selects an object property by key.
    Key(String),
    /// Selects an array element by non-negative index.
    Index(usize),
}

/// One edit in a string patch action.
#[derive(Debug, Clone, PartialEq)]
pub struct StringPatchEdit {
    /// Start offset in Unicode scalar values, measured against the original string.
    pub start: usize,
    /// Number of Unicode scalar values to delete from the original string.
    pub delete_count: usize,
    /// Text to insert at start after deletion.
    pub text: String,
}

/// One edit in an array patch action.
#[derive(Debug, Clone, PartialEq)]
pub struct ArrayPatchEdit {
    /// Start index, measured against the original array.
    pub start: usize,
    /// Number of elements to delete from the original array.
    pub delete_count: usize,
    /// Values to insert at start after deletion.
    pub values: Vec<JsonValue>,
}

/// A structured Jsync action.
#[derive(Debug, Clone, PartialEq)]
pub enum Action {
    /// Replaces the current document with the given JSON value.
    Snapshot {
        /// The snapshot value to replace the current document with.
        value: JsonValue,
    },
    /// Inserts a JSON value at the given path.
    Add {
        /// The validated destination path.
        path: Vec<PathSegment>,
        /// The value to insert or overwrite.
        value: JsonValue,
    },
    /// Removes the value at the given path.
    Remove {
        /// The validated path of the value to remove.
        path: Vec<PathSegment>,
    },
    /// Replaces the value at the given path.
    Replace {
        /// The validated path of the value to replace.
        path: Vec<PathSegment>,
        /// The replacement JSON value.
        value: JsonValue,
    },
    /// Appends text to an existing string value at the given path.
    StringAppend {
        /// The validated path of the string to append to.
        path: Vec<PathSegment>,
        /// The text to append.
        text: String,
    },
    /// Prepends text to an existing string value at the given path.
    StringPrepend {
        /// The validated path of the string to prepend to.
        path: Vec<PathSegment>,
        /// The text to prepend.
        text: String,
    },
    /// Applies local edits to an existing string value at the given path.
    StringPatch {
        /// The validated path of the string to patch.
        path: Vec<PathSegment>,
        /// Edits in descending Unicode scalar offset order.
        edits: Vec<StringPatchEdit>,
    },
    /// Applies local edits to an existing array value at the given path.
    ArrayPatch {
        /// The validated path of the array to patch.
        path: Vec<PathSegment>,
        /// Edits in descending original array index order.
        edits: Vec<ArrayPatchEdit>,
    },
    /// Copies an existing JSON value to another path.
    Copy {
        /// The validated source path.
        from: Vec<PathSegment>,
        /// The validated destination path.
        path: Vec<PathSegment>,
    },
    /// Moves an existing JSON value to another path.
    Move {
        /// The validated source path.
        from: Vec<PathSegment>,
        /// The validated destination path.
        path: Vec<PathSegment>,
    },
}

/// The model of a path segment.
#[verifier::ext_equal]
pub enum Segment {
    /// Selects an object property by key.
    Key(Seq<char>),
    /// Selects an array element by index.
    Index(int),
}

/// The model of a patch edit: at `start`, delete `delete_count` items and insert `items`.
#[verifier::ext_equal]
pub struct Edit<T> {
    /// Where the edit starts in the original sequence.
    pub start: int,
    /// How many items it deletes there.
    pub delete_count: int,
    /// What it inserts there.
    pub items: Seq<T>,
}

/// The model of an action.
pub enum Act {
    /// Replaces the document.
    Snapshot { value: Json },
    /// Inserts a value.
    Add { path: Seq<Segment>, value: Json },
    /// Removes a value.
    Remove { path: Seq<Segment> },
    /// Replaces a value.
    Replace { path: Seq<Segment>, value: Json },
    /// Appends to a string.
    StringAppend { path: Seq<Segment>, text: Seq<char> },
    /// Prepends to a string.
    StringPrepend { path: Seq<Segment>, text: Seq<char> },
    /// Edits a string.
    StringPatch { path: Seq<Segment>, edits: Seq<Edit<char>> },
    /// Edits an array.
    ArrayPatch { path: Seq<Segment>, edits: Seq<Edit<Json>> },
    /// Copies a value.
    Copy { from: Seq<Segment>, path: Seq<Segment> },
    /// Moves a value.
    Move { from: Seq<Segment>, path: Seq<Segment> },
}

impl View for PathSegment {
    type V = Segment;

    open spec fn view(&self) -> Segment {
        match *self {
            PathSegment::Key(key) => Segment::Key(key@),
            PathSegment::Index(index) => Segment::Index(index as int),
        }
    }
}

impl View for StringPatchEdit {
    type V = Edit<char>;

    open spec fn view(&self) -> Edit<char> {
        Edit {
            start: self.start as int,
            delete_count: self.delete_count as int,
            items: self.text@,
        }
    }
}

impl View for ArrayPatchEdit {
    type V = Edit<Json>;

    open spec fn view(&self) -> Edit<Json> {
        Edit {
            start: self.start as int,
            delete_count: self.delete_count as int,
            items: json::json_views(self.values@),
        }
    }
}

/// The model of a path.
pub open spec fn path_view(path: Seq<PathSegment>) -> Seq<Segment> {
    Seq::new(path.len(), |i: int| path[i]@)
}

/// The model of string patch edits.
pub open spec fn string_edit_views(edits: Seq<StringPatchEdit>) -> Seq<Edit<char>> {
    Seq::new(edits.len(), |i: int| edits[i]@)
}

/// The model of array patch edits.
pub open spec fn array_edit_views(edits: Seq<ArrayPatchEdit>) -> Seq<Edit<Json>> {
    Seq::new(edits.len(), |i: int| edits[i]@)
}

impl View for Action {
    type V = Act;

    open spec fn view(&self) -> Act {
        match *self {
            Action::Snapshot { value } => Act::Snapshot { value: value@ },
            Action::Add { path, value } => Act::Add { path: path_view(path@), value: value@ },
            Action::Remove { path } => Act::Remove { path: path_view(path@) },
            Action::Replace { path, value } => Act::Replace {
                path: path_view(path@),
                value: value@,
            },
            Action::StringAppend { path, text } => Act::StringAppend {
                path: path_view(path@),
                text: text@,
            },
            Action::StringPrepend { path, text } => Act::StringPrepend {
                path: path_view(path@),
                text: text@,
            },
            Action::StringPatch { path, edits } => Act::StringPatch {
                path: path_view(path@),
                edits: string_edit_views(edits@),
            },
            Action::ArrayPatch { path, edits } => Act::ArrayPatch {
                path: path_view(path@),
                edits: array_edit_views(edits@),
            },
            Action::Copy { from, path } => Act::Copy {
                from: path_view(from@),
                path: path_view(path@),
            },
            Action::Move { from, path } => Act::Move {
                from: path_view(from@),
                path: path_view(path@),
            },
        }
    }
}

/// The models of a sequence of actions.
pub open spec fn action_views(actions: Seq<Action>) -> Seq<Act> {
    Seq::new(actions.len(), |i: int| actions[i]@)
}

/// Tells whether two path segments are equal.
pub fn same_segment(a: &PathSegment, b: &PathSegment) -> (same: bool)
    ensures
        same == (a@ == b@),
{
    match (a, b) {
        (PathSegment::Key(x), PathSegment::Key(y)) => *x == *y,
        (PathSegment::Index(x), PathSegment::Index(y)) => *x == *y,
        _ => false,
    }
}

/// Copies a path segment.
pub fn copy_segment(segment: &PathSegment) -> (copy: PathSegment)
    ensures
        copy@ == segment@,
{
    match segment {
        PathSegment::Key(key) => PathSegment::Key(key.clone()),
        PathSegment::Index(index) => PathSegment::Index(*index),
    }
}

/// Copies a path.
pub fn copy_path(path: &[PathSegment]) -> (copy: Vec<PathSegment>)
    ensures
        path_view(copy@) == path_view(path@),
{
    let mut copy: Vec<PathSegment> = Vec::new();
    let mut i: usize = 0;
    while i < path.len()
        invariant
            i <= path@.len(),
            copy@.len() == i,
            forall|j: int| 0 <= j < i ==> (#[trigger] copy@[j])@ == path@[j]@,
        decreases path@.len() - i,
    {
        copy.push(copy_segment(&path[i]));
        i = i + 1;
    }
    assert(path_view(copy@) =~= path_view(path@));
    copy
}

/// The path that leads from the value at a path to one of its parts.
pub fn child_path(path: &[PathSegment], segment: PathSegment) -> (child: Vec<PathSegment>)
    ensures
        path_view(child@) == path_view(path@).push(segment@),
{
    let mut child: Vec<PathSegment> = copy_path(path);
    let ghost before = child@;
    child.push(segment);
    assert(path_view(child@) =~= path_view(before).push(segment@));
    child
}

} // verus!
