//! The content model: content types, languages and the store that holds the
//! indexed tree and the localization keys.

pub mod dir;
pub mod key_table;
pub mod localization;
pub mod models;
pub mod parser;
pub mod resolution;
pub mod selection;

use crate::database::dir::{
    index_entry, well_indexed, DirTree, DirectoryView, Entry, EntryView, FileView, Node, NodeView,
};
use crate::database::key_table::{distinct_keys, lookup, LocalizationKeyMap};
use crate::database::models::{ContentTypeRow, DirectoryRow, FileRow, LocalizationKeyRow};
use crate::database::parser::Parser;
use crate::database::resolution::{
    insert_entries, lemma_resolve_distinct, lemma_resolve_fails, resolve,
};
use crate::database::selection::{
    ids_and_paths, is_selection, lemma_selection, numbered, select, selection,
};
use crate::error::{not_a_directory_text, Error, ErrorKind, ErrorView};
use crate::text::str_equal;
use vstd::prelude::*;
use vstd::string::*;

verus! {

/// The kind of content that a node of the indexed tree holds. It follows
/// from the node's place in the tree alone.
#[derive(Debug, Clone, Copy, PartialEq, Eq, Structural)]
pub enum ContentType {
    Localization,
    Indeterminate,
}

impl ContentType {
    /// The name under which the content type is stored.
    pub open spec fn name_text(self) -> Seq<char> {
        match self {
            ContentType::Localization => "Localization"@,
            ContentType::Indeterminate => "Indeterminate"@,
        }
    }

    pub fn name(&self) -> (name: &'static str)
        ensures
            name@ == self.name_text(),
    {
        match self {
            ContentType::Localization => "Localization",
            ContentType::Indeterminate => "Indeterminate",
        }
    }

    /// Every content type, once.
    pub fn values() -> (values: &'static [ContentType])
        ensures
            values@ == seq![ContentType::Localization, ContentType::Indeterminate],
    {
        &[ContentType::Localization, ContentType::Indeterminate]
    }
}

impl Default for ContentType {
    fn default() -> (r: ContentType)
        ensures
            r == ContentType::Indeterminate,
    {
        ContentType::Indeterminate
    }
}

/// The languages that a localization file can be written for.
#[derive(Debug, Clone, Copy, Hash, PartialEq, Eq, Structural)]
pub enum Language {
    English,
    BrazilianPortuguese,
    French,
    German,
    Polish,
    Russian,
    Spanish,
    Japanese,
    SimplifiedChinese,
    Korean,
    Turkish,
}

impl Language {
    /// The specifier that stands for the language at the head of a
    /// localization file.
    pub open spec fn specifier_text(self) -> Seq<char> {
        match self {
            Language::English => "l_english"@,
            Language::BrazilianPortuguese => "l_braz_por"@,
            Language::French => "l_french"@,
            Language::German => "l_german"@,
            Language::Polish => "l_polish"@,
            Language::Russian => "l_russian"@,
            Language::Spanish => "l_spanish"@,
            Language::Japanese => "l_japanese"@,
            Language::SimplifiedChinese => "l_simp_chinese"@,
            Language::Korean => "l_korean"@,
            Language::Turkish => "l_turkish"@,
        }
    }

    /// The language that `specifier` stands for, if it stands for one. The
    /// match is exact.
    pub open spec fn of_specifier(specifier: Seq<char>) -> Option<Language> {
        if specifier == "l_english"@ {
            Some(Language::English)
        } else if specifier == "l_braz_por"@ {
            Some(Language::BrazilianPortuguese)
        } else if specifier == "l_french"@ {
            Some(Language::French)
        } else if specifier == "l_german"@ {
            Some(Language::German)
        } else if specifier == "l_polish"@ {
            Some(Language::Polish)
        } else if specifier == "l_russian"@ {
            Some(Language::Russian)
        } else if specifier == "l_spanish"@ {
            Some(Language::Spanish)
        } else if specifier == "l_japanese"@ {
            Some(Language::Japanese)
        } else if specifier == "l_simp_chinese"@ {
            Some(Language::SimplifiedChinese)
        } else if specifier == "l_korean"@ {
            Some(Language::Korean)
        } else if specifier == "l_turkish"@ {
            Some(Language::Turkish)
        } else {
            None
        }
    }

    /// The language's name for display and for the store.
    pub open spec fn name_text(self) -> Seq<char> {
        match self {
            Language::English => "English"@,
            Language::BrazilianPortuguese => "Brazilian Portuguese"@,
            Language::French => "French"@,
            Language::German => "German"@,
            Language::Polish => "Polish"@,
            Language::Russian => "Russian"@,
            Language::Spanish => "Spanish"@,
            Language::Japanese => "Japanese"@,
            Language::SimplifiedChinese => "Simplified Chinese"@,
            Language::Korean => "Korean"@,
            Language::Turkish => "Turkish"@,
        }
    }

    pub fn from_language_specifier(specifier: &str) -> (language: Option<Language>)
        ensures
            language == Language::of_specifier(specifier@),
    {
        if str_equal(specifier, "l_english") {
            Some(Language::English)
        } else if str_equal(specifier, "l_braz_por") {
            Some(Language::BrazilianPortuguese)
        } else if str_equal(specifier, "l_french") {
            Some(Language::French)
        } else if str_equal(specifier, "l_german") {
            Some(Language::German)
        } else if str_equal(specifier, "l_polish") {
            Some(Language::Polish)
        } else if str_equal(specifier, "l_russian") {
            Some(Language::Russian)
        } else if str_equal(specifier, "l_spanish") {
            Some(Language::Spanish)
        } else if str_equal(specifier, "l_japanese") {
            Some(Language::Japanese)
        } else if str_equal(specifier, "l_simp_chinese") {
            Some(Language::SimplifiedChinese)
        } else if str_equal(specifier, "l_korean") {
            Some(Language::Korean)
        } else if str_equal(specifier, "l_turkish") {
            Some(Language::Turkish)
        } else {
            None
        }
    }

    pub fn name(&self) -> (name: &'static str)
        ensures
            name@ == self.name_text(),
    {
        match self {
            Language::English => "English",
            Language::BrazilianPortuguese => "Brazilian Portuguese",
            Language::French => "French",
            Language::German => "German",
            Language::Polish => "Polish",
            Language::Russian => "Russian",
            Language::Spanish => "Spanish",
            Language::Japanese => "Japanese",
            Language::SimplifiedChinese => "Simplified Chinese",
            Language::Korean => "Korean",
            Language::Turkish => "Turkish",
        }
    }

    /// Every language, once.
    pub fn values() -> (values: &'static [Language])
        ensures
            values@ == seq![
                Language::English,
                Language::BrazilianPortuguese,
                Language::French,
                Language::German,
                Language::Polish,
                Language::Russian,
                Language::Spanish,
                Language::Japanese,
                Language::SimplifiedChinese,
                Language::Korean,
                Language::Turkish,
            ],
    {
        &[
            Language::English,
            Language::BrazilianPortuguese,
            Language::French,
            Language::German,
            Language::Polish,
            Language::Russian,
            Language::Spanish,
            Language::Japanese,
            Language::SimplifiedChinese,
            Language::Korean,
            Language::Turkish,
        ]
    }
}

impl Default for Language {
    fn default() -> (r: Language)
        ensures
            r == Language::English,
    {
        Language::English
    }
}

/// Each language has one specifier of its own: a text stands for a language
/// exactly when it is that language's specifier.
pub proof fn lemma_specifier_of_language(specifier: Seq<char>, language: Language)
    ensures
        Language::of_specifier(specifier) == Some(language) <==> specifier
            == language.specifier_text(),
{
    reveal_strlit("l_english");
    reveal_strlit("l_braz_por");
    reveal_strlit("l_french");
    reveal_strlit("l_german");
    reveal_strlit("l_polish");
    reveal_strlit("l_russian");
    reveal_strlit("l_spanish");
    reveal_strlit("l_japanese");
    reveal_strlit("l_simp_chinese");
    reveal_strlit("l_korean");
    reveal_strlit("l_turkish");
    if specifier == language.specifier_text() {
        assert(specifier.len() == language.specifier_text().len());
        assert(specifier[2] == language.specifier_text()[2]);
        assert(specifier[3] == language.specifier_text()[3]);
    }
}

/// The row that stores a directory of the tree.
pub open spec fn directory_row(directory: DirectoryView) -> DirectoryRow {
    DirectoryRow {
        id: directory.id,
        full_path: directory.full_path,
        relative_path: directory.relative_path,
        dir_name: directory.dir_name,
        content_type: directory.content_type.name_text(),
    }
}

/// The row that stores a file of the tree.
pub open spec fn file_row(file: FileView) -> FileRow {
    FileRow {
        id: file.id,
        full_path: file.full_path,
        relative_path: file.relative_path,
        file_name: file.file_name,
        content_type: file.content_type.name_text(),
    }
}

/// The rows that store the directories `directories`, in order.
pub open spec fn directory_rows(directories: Seq<DirectoryView>) -> Seq<DirectoryRow> {
    Seq::new(directories.len(), |i: int| directory_row(directories[i]))
}

/// The rows that store the files `files`, in order.
pub open spec fn file_rows(files: Seq<FileView>) -> Seq<FileRow> {
    Seq::new(files.len(), |i: int| file_row(files[i]))
}

/// The rows of the table of content types.
pub open spec fn content_type_rows() -> Seq<ContentTypeRow> {
    seq![
        ContentTypeRow { name: ContentType::Localization.name_text() },
        ContentTypeRow { name: ContentType::Indeterminate.name_text() },
    ]
}

/// A `Database` as plain values: the tree and the tables.
pub struct DatabaseView {
    pub dir_tree: NodeView,
    pub content_types: Seq<ContentTypeRow>,
    pub directories: Seq<DirectoryRow>,
    pub files: Seq<FileRow>,
    pub localization_keys: Seq<LocalizationKeyRow>,
}

/// The tables of a store that is in order: the tree is well indexed, the
/// tables of content types, directories and files hold one row for each
/// content type and for each node, the nodes in the order of a depth-first
/// walk, and no two rows of the localization keys have the same key.
pub open spec fn in_order(database: DatabaseView) -> bool {
    &&& well_indexed(database.dir_tree)
    &&& database.content_types == content_type_rows()
    &&& database.directories == directory_rows(database.dir_tree.directories())
    &&& database.files == file_rows(database.dir_tree.files())
    &&& distinct_keys(database.localization_keys)
}

/// In a store in order each file's id is its place in the table of files.
pub proof fn lemma_rows_numbered(database: DatabaseView)
    requires
        in_order(database),
    ensures
        numbered(database.files),
{
    assert forall|k: int| 0 <= k < database.files.len() implies (#[trigger] database.files[k]).id
        == k by {
        let file = database.dir_tree.files()[k];
        assert(dir::file_in_place(file, database.dir_tree.full_path(), k));
    }
}

/// The store: the indexed tree, a row for each of its nodes, and the
/// localization keys that were found in its localization files.
#[derive(Debug)]
pub struct Database {
    dir_tree: DirTree,
    content_types: Vec<models::ContentType>,
    directories: Vec<models::Directory>,
    files: Vec<models::File>,
    localization_keys: LocalizationKeyMap,
}

impl View for Database {
    type V = DatabaseView;

    closed spec fn view(&self) -> DatabaseView {
        DatabaseView {
            dir_tree: self.dir_tree@,
            content_types: self.content_types.deep_view(),
            directories: self.directories.deep_view(),
            files: self.files.deep_view(),
            localization_keys: self.localization_keys@,
        }
    }
}

impl Database {
    #[verifier::type_invariant]
    spec fn kept_in_order(self) -> bool {
        in_order(self@)
    }

    /// Indexes the listing of the directory at `base_path` and fills the
    /// tables of content types, directories and files. The table of
    /// localization keys starts empty. Every node is named by the last
    /// segment of its full path, the root by that of `base_path`. The
    /// listing has to leave room for the ids, as `DirTree::new` asks.
    pub fn new(base_path: &str, listing: &Entry) -> (result: Result<Database, Error>)
        requires
            listing@.directory_count() <= u32::MAX,
            listing@.file_count() <= u32::MAX,
        ensures
            match listing@ {
                EntryView::Directory { name, children } => {
                    &&& result matches Ok(database)
                    &&& database@.dir_tree == index_entry(listing@, base_path@, Seq::empty(), 0, 0)
                    &&& database@.localization_keys == Seq::<LocalizationKeyRow>::empty()
                    &&& in_order(database@)
                },
                EntryView::File { name } => {
                    &&& result matches Err(error)
                    &&& error@ == (ErrorView {
                        kind: ErrorKind::NotADirectory,
                        description: not_a_directory_text(base_path@),
                        line_number: None,
                    })
                },
            },
    {
        let dir_tree = match DirTree::new(base_path, listing) {
            Ok(dir_tree) => dir_tree,
            Err(error) => {
                return Err(error);
            },
        };
        let content_types = Self::insert_content_types();
        let mut directories: Vec<models::Directory> = Vec::new();
        let mut files: Vec<models::File> = Vec::new();
        Self::insert_dir_tree(&mut directories, &mut files, &dir_tree);
        let localization_keys = LocalizationKeyMap::new();
        proof {
            assert(directories.deep_view() =~= directory_rows(dir_tree@.directories()));
            assert(files.deep_view() =~= file_rows(dir_tree@.files()));
        }
        Ok(Database { dir_tree, content_types, directories, files, localization_keys })
    }

    pub fn dir_tree(&self) -> (dir_tree: &DirTree)
        ensures
            dir_tree@ == self@.dir_tree,
            in_order(self@),
    {
        proof {
            use_type_invariant(self);
        }
        &self.dir_tree
    }

    /// The table of content types.
    pub fn content_types(&self) -> (rows: &Vec<models::ContentType>)
        ensures
            rows.deep_view() == self@.content_types,
            in_order(self@),
    {
        proof {
            use_type_invariant(self);
        }
        &self.content_types
    }

    /// The table of directories.
    pub fn directories(&self) -> (rows: &Vec<models::Directory>)
        ensures
            rows.deep_view() == self@.directories,
            in_order(self@),
    {
        proof {
            use_type_invariant(self);
        }
        &self.directories
    }

    /// The table of files.
    pub fn files(&self) -> (rows: &Vec<models::File>)
        ensures
            rows.deep_view() == self@.files,
            in_order(self@),
    {
        proof {
            use_type_invariant(self);
        }
        &self.files
    }

    /// The table of localization keys.
    pub fn localization_keys(&self) -> (rows: &Vec<models::LocalizationKey>)
        ensures
            rows.deep_view() == self@.localization_keys,
            in_order(self@),
    {
        proof {
            use_type_invariant(self);
        }
        self.localization_keys.rows()
    }

    /// The row of the table of localization keys for `key`, if there is one.
    pub fn localization_key(&self, key: &str) -> (row: Option<&models::LocalizationKey>)
        ensures
            match row {
                Some(row) => lookup(self@.localization_keys, key@) == Some(row@),
                None => lookup(self@.localization_keys, key@) is None,
            },
    {
        self.localization_keys.get(key)
    }

    /// The localization files of the tree, in the order in which they are
    /// to be parsed: from the last file name to the first.
    pub fn select_localization_files_for_parsing(&self) -> (files: Vec<models::FileIdAndPath>)
        ensures
            files.deep_view() == ids_and_paths(selection(self@.files)),
            is_selection(self@.files, selection(self@.files)),
    {
        proof {
            use_type_invariant(self);
            lemma_rows_numbered(self@);
            lemma_selection(self@.files);
        }
        select(&self.files)
    }

    /// Parses one localization file and adds its keys to the table of
    /// localization keys, where they overwrite the keys that the table has
    /// already. This is one step of `parse_and_insert_localization_keys`, for
    /// a caller that reads each file only when its turn has come: the files
    /// are to be given in the order of
    /// `select_localization_files_for_parsing`. Where the file does not
    /// parse, nothing is kept.
    pub fn parse_and_insert_localization_file(
        self,
        file: &models::FileIdAndPath,
        content: &str,
    ) -> (result: Result<Database, Error>)
        ensures
            match resolve(self@.localization_keys, seq![file@], seq![content@]) {
                Ok(table) => {
                    &&& result matches Ok(database)
                    &&& database@ == (DatabaseView { localization_keys: table, ..self@ })
                    &&& in_order(database@)
                },
                Err(failed) => {
                    &&& result matches Err(error)
                    &&& error@ == failed
                },
            },
    {
        proof {
            use_type_invariant(&self);
            let files = seq![file@];
            let contents = seq![content@];
            assert(files.drop_last() =~= Seq::empty());
            assert(contents.drop_last() =~= Seq::empty());
            assert(resolve(self@.localization_keys, files.drop_last(), contents.drop_last()) == Ok::<
                Seq<LocalizationKeyRow>,
                ErrorView,
            >(self@.localization_keys));
            if resolve(self@.localization_keys, files, contents) is Ok {
                lemma_resolve_distinct(self@.localization_keys, files, contents);
            }
        }
        let Database { dir_tree, content_types, directories, files, localization_keys } = self;
        let mut localization_keys = localization_keys;
        match Parser::parse_localization_file(file.full_path.as_str(), content) {
            Ok((language, keys)) => {
                insert_entries(&mut localization_keys, keys, file.id, language);
                Ok(Database { dir_tree, content_types, directories, files, localization_keys })
            },
            Err(error) => Err(error),
        }
    }

    /// Parses the localization files and adds their keys to the table of
    /// localization keys. `contents` holds the content of each file that
    /// `select_localization_files_for_parsing` gives, in that order. A later
    /// file overwrites the keys of an earlier one. Where a file does not
    /// parse, nothing is kept.
    pub fn parse_and_insert_localization_keys(self, contents: &Vec<String>) -> (result: Result<
        Database,
        Error,
    >)
        requires
            contents.len() == selection(self@.files).len(),
        ensures
            match resolve(
                self@.localization_keys,
                ids_and_paths(selection(self@.files)),
                contents.deep_view(),
            ) {
                Ok(table) => {
                    &&& result matches Ok(database)
                    &&& database@ == (DatabaseView { localization_keys: table, ..self@ })
                    &&& in_order(database@)
                },
                Err(failed) => {
                    &&& result matches Err(error)
                    &&& error@ == failed
                },
            },
    {
        proof {
            use_type_invariant(&self);
        }
        let files = select(&self.files);
        let ghost view = self@;
        let ghost start = self@.localization_keys;
        let ghost rows = files.deep_view();
        let ghost texts = contents.deep_view();
        let Database { dir_tree, content_types, directories, files: file_table, localization_keys } =
            self;
        let mut localization_keys = localization_keys;
        let mut i: usize = 0;
        proof {
            assert(rows.take(0) =~= Seq::empty());
        }
        while i < files.len()
            invariant
                i <= files.len(),
                files.len() == contents.len(),
                rows == files.deep_view(),
                rows == ids_and_paths(selection(view.files)),
                start == view.localization_keys,
                view == self@,
                texts == contents.deep_view(),
                resolve(start, rows.take(i as int), texts.take(i as int)) == Ok::<
                    Seq<LocalizationKeyRow>,
                    ErrorView,
                >(localization_keys@),
            decreases files.len() - i,
        {
            let file = &files[i];
            proof {
                assert(rows.take(i + 1).drop_last() =~= rows.take(i as int));
                assert(texts.take(i + 1).drop_last() =~= texts.take(i as int));
                assert(rows.take(i + 1).last() == file@);
                assert(texts.take(i + 1).last() == contents@[i as int]@);
            }
            match Parser::parse_localization_file(file.full_path.as_str(), contents[i].as_str()) {
                Ok((language, keys)) => {
                    insert_entries(&mut localization_keys, keys, file.id, language);
                },
                Err(error) => {
                    proof {
                        assert(resolve(start, rows.take(i + 1), texts.take(i + 1)) == Err::<
                            Seq<LocalizationKeyRow>,
                            ErrorView,
                        >(error@));
                        lemma_resolve_fails(start, rows, texts, i + 1);
                    }
                    return Err(error);
                },
            }
            i += 1;
        }
        proof {
            assert(rows.take(i as int) =~= rows);
            assert(texts.take(i as int) =~= texts);
            lemma_resolve_distinct(start, rows, texts);
        }
        Ok(Database { dir_tree, content_types, directories, files: file_table, localization_keys })
    }

    /// The table of content types: a row for each content type.
    fn insert_content_types() -> (rows: Vec<models::ContentType>)
        ensures
            rows.deep_view() == content_type_rows(),
    {
        let values = ContentType::values();
        let mut rows: Vec<models::ContentType> = Vec::new();
        let mut i: usize = 0;
        while i < values.len()
            invariant
                i <= values.len(),
                values@ == seq![ContentType::Localization, ContentType::Indeterminate],
                rows.len() == i,
                forall|j: int| 0 <= j < i ==> (#[trigger] rows@[j])@.name == values@[j].name_text(),
            decreases values.len() - i,
        {
            rows.push(models::ContentType { name: String::from_str(values[i].name()) });
            i += 1;
        }
        proof {
            assert(rows.deep_view() =~= content_type_rows());
        }
        rows
    }

    /// Adds a row for each node of the tree.
    fn insert_dir_tree(
        directories: &mut Vec<models::Directory>,
        files: &mut Vec<models::File>,
        dir_tree: &DirTree,
    )
        ensures
            final(directories).deep_view() == old(directories).deep_view() + directory_rows(
                dir_tree@.directories(),
            ),
            final(files).deep_view() == old(files).deep_view() + file_rows(dir_tree@.files()),
    {
        Self::insert_node(directories, files, dir_tree.root())
    }

    /// Adds a row for each node of the tree under `node`: a directory's
    /// row, then those of what it holds.
    fn insert_node(
        directories: &mut Vec<models::Directory>,
        files: &mut Vec<models::File>,
        node: &Node,
    )
        ensures
            final(directories).deep_view() == old(directories).deep_view() + directory_rows(
                node@.directories(),
            ),
            final(files).deep_view() == old(files).deep_view() + file_rows(node@.files()),
        decreases node,
    {
        let ghost directories_before = directories.deep_view();
        let ghost files_before = files.deep_view();
        match node {
            Node::Directory(dir) => {
                directories.push(
                    models::Directory {
                        id: dir.id(),
                        full_path: String::from_str(dir.full_path()),
                        relative_path: String::from_str(dir.relative_path()),
                        dir_name: String::from_str(dir.dir_name()),
                        content_type: String::from_str(dir.content_type().name()),
                    },
                );
                let children = dir.children();
                let ghost views = dir@.children;
                let mut i: usize = 0;
                proof {
                    assert(views.take(0) =~= Seq::empty());
                    assert(directories.deep_view() =~= directories_before + directory_rows(
                        seq![dir@] + dir::directories_of(views.take(0)),
                    ));
                    assert(files.deep_view() =~= files_before + file_rows(
                        dir::files_of(views.take(0)),
                    ));
                }
                while i < children.len()
                    invariant
                        i <= children.len(),
                        children@.len() == views.len(),
                        forall|j: int|
                            0 <= j < children@.len() ==> (#[trigger] children@[j])@ == views[j],
                        forall|j: int|
                            0 <= j < children@.len() ==> decreases_to!(node => #[trigger] children@[j]),
                        directories.deep_view() == directories_before + directory_rows(
                            seq![dir@] + dir::directories_of(views.take(i as int)),
                        ),
                        files.deep_view() == files_before + file_rows(
                            dir::files_of(views.take(i as int)),
                        ),
                    decreases children.len() - i,
                {
                    let child = &children[i];
                    Self::insert_node(directories, files, child);
                    proof {
                        let front = views.take(i as int);
                        let next = views.take(i + 1);
                        assert(next.drop_last() =~= front);
                        assert(next.last() == child@);
                        assert(directories.deep_view() =~= directories_before + directory_rows(
                            seq![dir@] + dir::directories_of(next),
                        ));
                        assert(files.deep_view() =~= files_before + file_rows(dir::files_of(next)));
                    }
                    i += 1;
                }
                proof {
                    assert(views.take(i as int) =~= views);
                }
            },
            Node::File(file) => {
                files.push(
                    models::File {
                        id: file.id(),
                        full_path: String::from_str(file.full_path()),
                        relative_path: String::from_str(file.relative_path()),
                        file_name: String::from_str(file.file_name()),
                        content_type: String::from_str(file.content_type().name()),
                    },
                );
                proof {
                    assert(files.deep_view() =~= files_before + file_rows(seq![file@]));
                    assert(directories.deep_view() =~= directories_before + directory_rows(
                        Seq::empty(),
                    ));
                }
            },
        }
    }
}

} // verus!
