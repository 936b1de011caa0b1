//! The rows of the store's tables.

use vstd::prelude::*;

verus! {

/// A row of the table of languages.
#[derive(Debug, Clone, PartialEq)]
pub struct Language {
    pub name: String,
}

/// A row of the table of content types.
#[derive(Debug, Clone, PartialEq)]
pub struct ContentType {
    pub name: String,
}

/// A row of the table of directories.
#[derive(Debug, Clone, PartialEq)]
pub struct Directory {
    pub id: u32,
    pub full_path: String,
    pub relative_path: String,
    pub dir_name: String,
    pub content_type: String,
}

/// A row of the table of files.
#[derive(Debug, Clone, PartialEq)]
pub struct File {
    pub id: u32,
    pub full_path: String,
    pub relative_path: String,
    pub file_name: String,
    pub content_type: String,
}

/// What is needed of a file's row to read and parse the file.
#[derive(Debug, Clone, PartialEq)]
pub struct FileIdAndPath {
    pub id: u32,
    pub full_path: String,
}

/// A row of the table of localization keys. No two rows have the same key.
#[derive(Debug, Clone, PartialEq)]
pub struct LocalizationKey {
    pub key: String,
    pub value: String,
    pub file_id: u32,
    pub language: String,
}

/// A `Language` row as plain values.
pub struct LanguageRow {
    pub name: Seq<char>,
}

/// A `ContentType` row as plain values.
pub struct ContentTypeRow {
    pub name: Seq<char>,
}

/// A `Directory` row as plain values.
pub struct DirectoryRow {
    pub id: u32,
    pub full_path: Seq<char>,
    pub relative_path: Seq<char>,
    pub dir_name: Seq<char>,
    pub content_type: Seq<char>,
}

/// A `File` row as plain values.
pub struct FileRow {
    pub id: u32,
    pub full_path: Seq<char>,
    pub relative_path: Seq<char>,
    pub file_name: Seq<char>,
    pub content_type: Seq<char>,
}

/// A `FileIdAndPath` as plain values.
pub struct FileIdAndPathRow {
    pub id: u32,
    pub full_path: Seq<char>,
}

/// A `LocalizationKey` row as plain values.
pub struct LocalizationKeyRow {
    pub key: Seq<char>,
    pub value: Seq<char>,
    pub file_id: u32,
    pub language: Seq<char>,
}

impl View for Language {
    type V = LanguageRow;

    open spec fn view(&self) -> LanguageRow {
        LanguageRow { name: self.name@ }
    }
}

impl DeepView for Language {
    type V = LanguageRow;

    open spec fn deep_view(&self) -> LanguageRow {
        self@
    }
}

impl View for ContentType {
    type V = ContentTypeRow;

    open spec fn view(&self) -> ContentTypeRow {
        ContentTypeRow { name: self.name@ }
    }
}

impl DeepView for ContentType {
    type V = ContentTypeRow;

    open spec fn deep_view(&self) -> ContentTypeRow {
        self@
    }
}

impl View for Directory {
    type V = DirectoryRow;

    open spec fn view(&self) -> DirectoryRow {
        DirectoryRow {
            id: self.id,
            full_path: self.full_path@,
            relative_path: self.relative_path@,
            dir_name: self.dir_name@,
            content_type: self.content_type@,
        }
    }
}

impl DeepView for Directory {
    type V = DirectoryRow;

    open spec fn deep_view(&self) -> DirectoryRow {
        self@
    }
}

impl View for File {
    type V = FileRow;

    open spec fn view(&self) -> FileRow {
        FileRow {
            id: self.id,
            full_path: self.full_path@,
            relative_path: self.relative_path@,
            file_name: self.file_name@,
            content_type: self.content_type@,
        }
    }
}

impl DeepView for File {
    type V = FileRow;

    open spec fn deep_view(&self) -> FileRow {
        self@
    }
}

impl View for FileIdAndPath {
    type V = FileIdAndPathRow;

    open spec fn view(&self) -> FileIdAndPathRow {
        FileIdAndPathRow { id: self.id, full_path: self.full_path@ }
    }
}

impl DeepView for FileIdAndPath {
    type V = FileIdAndPathRow;

    open spec fn deep_view(&self) -> FileIdAndPathRow {
        self@
    }
}

impl View for LocalizationKey {
    type V = LocalizationKeyRow;

    open spec fn view(&self) -> LocalizationKeyRow {
        LocalizationKeyRow {
            key: self.key@,
            value: self.value@,
            file_id: self.file_id,
            language: self.language@,
        }
    }
}

impl DeepView for LocalizationKey {
    type V = LocalizationKeyRow;

    open spec fn deep_view(&self) -> LocalizationKeyRow {
        self@
    }
}

} // verus!
