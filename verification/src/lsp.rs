//! The values that the answers of a language server are made of.
use vstd::prelude::*;

use crate::text::Range;

verus! {

/// A stretch of the text of a file.
#[derive(Debug, Clone)]
pub struct Location {
    pub uri: String,
    pub range: Range,
}

#[verifier::ext_equal]
pub ghost struct LocationView {
    pub uri: Seq<char>,
    pub range: Range,
}

impl View for Location {
    type V = LocationView;

    open spec fn view(&self) -> LocationView {
        LocationView { uri: self.uri@, range: self.range }
    }
}

pub open spec fn location_views(s: Seq<Location>) -> Seq<LocationView> {
    Seq::new(s.len(), |i: int| s[i]@)
}

/// A text that replaces a stretch of a file.
#[derive(Debug, Clone)]
pub struct TextEdit {
    pub range: Range,
    pub new_text: String,
}

#[verifier::ext_equal]
pub ghost struct EditView {
    pub range: Range,
    pub new_text: Seq<char>,
}

impl View for TextEdit {
    type V = EditView;

    open spec fn view(&self) -> EditView {
        EditView { range: self.range, new_text: self.new_text@ }
    }
}

pub open spec fn edit_views(s: Seq<TextEdit>) -> Seq<EditView> {
    Seq::new(s.len(), |i: int| s[i]@)
}

/// The edits of one file.
#[derive(Debug, Clone)]
pub struct FileEdits {
    pub uri: String,
    pub edits: Vec<TextEdit>,
}

impl View for FileEdits {
    type V = (Seq<char>, Seq<EditView>);

    open spec fn view(&self) -> (Seq<char>, Seq<EditView>) {
        (self.uri@, edit_views(self.edits@))
    }
}

pub open spec fn file_edit_views(s: Seq<FileEdits>) -> Seq<(Seq<char>, Seq<EditView>)> {
    Seq::new(s.len(), |i: int| s[i]@)
}

} // verus!
