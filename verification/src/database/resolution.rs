//! How the keys of the localization files come into the table of
//! localization keys.
//!
//! The files are parsed in a given order, and the keys of each are added to
//! the table in the order in which the file holds them. A key that the table
//! has already is overwritten. So for each key the last file that defines
//! it counts, and within that file the last line that does.

use crate::database::key_table::{
    distinct_keys, lemma_upsert, lookup, upsert, LocalizationKeyMap,
};
use crate::database::models::{FileIdAndPathRow, FileRow, LocalizationKey, LocalizationKeyRow};
use crate::database::parser::{
    failure, lemma_content_without_marker_has_no_keys, marker, parse_text, ParseOutcome,
};
use crate::database::selection::{id_and_path, ids_and_paths, is_selection, parsed_before};
use crate::database::Language;
use crate::error::ErrorView;
use crate::text::{lemma_text_order, text_less};
use vstd::prelude::*;
use vstd::string::*;

verus! {

/// The row for a key and its value that were found in the file with the id
/// `file_id`, which is written in `language`.
pub open spec fn key_row(
    entry: (Seq<char>, Seq<char>),
    file_id: u32,
    language: Language,
) -> LocalizationKeyRow {
    LocalizationKeyRow {
        key: entry.0,
        value: entry.1,
        file_id,
        language: language.name_text(),
    }
}

/// The table when the keys of one file have been added to it, in the order
/// in which the file holds them.
pub open spec fn upsert_entries(
    table: Seq<LocalizationKeyRow>,
    entries: Seq<(Seq<char>, Seq<char>)>,
    file_id: u32,
    language: Language,
) -> Seq<LocalizationKeyRow>
    decreases entries.len(),
{
    if entries.len() == 0 {
        table
    } else {
        upsert(
            upsert_entries(table, entries.drop_last(), file_id, language),
            key_row(entries.last(), file_id, language),
        )
    }
}

/// Adds the keys of one file to the table, in the order in which the file
/// holds them.
pub fn insert_entries(
    table: &mut LocalizationKeyMap,
    keys: Vec<(String, String)>,
    file_id: u32,
    language: Language,
)
    ensures
        final(table)@ == upsert_entries(old(table)@, keys.deep_view(), file_id, language),
{
    let ghost start = table@;
    let ghost pairs = keys@;
    let ghost entries = keys.deep_view();
    proof {
        assert(entries.take(0) =~= Seq::empty());
    }
    for entry in it: keys
        invariant
            it.seq() == pairs,
            entries.len() == pairs.len(),
            forall|j: int| 0 <= j < pairs.len() ==> (#[trigger] pairs[j]).deep_view() == entries[j],
            table@ == upsert_entries(start, entries.take(it.index() as int), file_id, language),
    {
        proof {
            let n = it.index() as int;
            assert(entries.take(n + 1).drop_last() =~= entries.take(n));
            assert(entries.take(n + 1).last() == entry.deep_view());
        }
        table.insert(
            LocalizationKey {
                key: entry.0,
                value: entry.1,
                file_id,
                language: String::from_str(language.name()),
            },
        );
    }
    proof {
        assert(entries.take(entries.len() as int) =~= entries);
    }
}

/// The table when the files `files`, which hold `contents`, have been
/// parsed in order and their keys added to it; or the error of the first
/// file that does not parse.
pub open spec fn resolve(
    table: Seq<LocalizationKeyRow>,
    files: Seq<FileIdAndPathRow>,
    contents: Seq<Seq<char>>,
) -> Result<Seq<LocalizationKeyRow>, ErrorView>
    decreases files.len(),
{
    if files.len() == 0 {
        Ok(table)
    } else {
        match resolve(table, files.drop_last(), contents.drop_last()) {
            Err(error) => Err(error),
            Ok(before) => match parse_text(contents.last()) {
                ParseOutcome::Parsed { language, keys } => Ok(
                    upsert_entries(before, keys, files.last().id, language),
                ),
                ParseOutcome::Failed { kind, line } => Err(
                    failure(files.last().full_path, kind, line),
                ),
            },
        }
    }
}

/// To parse the files one after the other, each into the table that the
/// files before it have left, is to parse them all.
pub proof fn lemma_resolve_by_steps(
    table: Seq<LocalizationKeyRow>,
    files: Seq<FileIdAndPathRow>,
    contents: Seq<Seq<char>>,
)
    requires
        files.len() == contents.len(),
        files.len() > 0,
    ensures
        resolve(table, files, contents) == match resolve(
            table,
            files.drop_last(),
            contents.drop_last(),
        ) {
            Ok(before) => resolve(before, seq![files.last()], seq![contents.last()]),
            Err(error) => Err(error),
        },
{
    let file = seq![files.last()];
    let content = seq![contents.last()];
    assert(file.drop_last() =~= Seq::empty());
    assert(content.drop_last() =~= Seq::empty());
    match resolve(table, files.drop_last(), contents.drop_last()) {
        Ok(before) => {
            assert(resolve(before, file.drop_last(), content.drop_last()) == Ok::<
                Seq<LocalizationKeyRow>,
                ErrorView,
            >(before));
        },
        Err(error) => {},
    }
}

/// A file without the encoding marker is passed over: it is no error and
/// leaves the table as it is.
pub proof fn lemma_file_without_marker_is_passed_over(
    table: Seq<LocalizationKeyRow>,
    file: FileIdAndPathRow,
    content: Seq<char>,
)
    requires
        content.len() == 0 || content[0] != marker(),
    ensures
        resolve(table, seq![file], seq![content]) == Ok::<Seq<LocalizationKeyRow>, ErrorView>(
            table,
        ),
{
    let files = seq![file];
    let contents = seq![content];
    assert(files.drop_last() =~= Seq::empty());
    assert(contents.drop_last() =~= Seq::empty());
    assert(resolve(table, files.drop_last(), contents.drop_last()) == Ok::<
        Seq<LocalizationKeyRow>,
        ErrorView,
    >(table));
    lemma_content_without_marker_has_no_keys(content);
}

/// A file that does not parse fails the whole run, whatever follows it.
pub proof fn lemma_resolve_fails(
    table: Seq<LocalizationKeyRow>,
    files: Seq<FileIdAndPathRow>,
    contents: Seq<Seq<char>>,
    n: int,
)
    requires
        files.len() == contents.len(),
        0 <= n <= files.len(),
        resolve(table, files.take(n), contents.take(n)) is Err,
    ensures
        resolve(table, files, contents) == resolve(table, files.take(n), contents.take(n)),
    decreases files.len() - n,
{
    if n < files.len() {
        assert(files.take(n + 1).drop_last() =~= files.take(n));
        assert(contents.take(n + 1).drop_last() =~= contents.take(n));
        lemma_resolve_fails(table, files, contents, n + 1);
    } else {
        assert(files.take(n) =~= files);
        assert(contents.take(n) =~= contents);
    }
}

/// Adding the keys of a file keeps the table without double keys.
pub proof fn lemma_upsert_entries_distinct(
    table: Seq<LocalizationKeyRow>,
    entries: Seq<(Seq<char>, Seq<char>)>,
    file_id: u32,
    language: Language,
)
    requires
        distinct_keys(table),
    ensures
        distinct_keys(upsert_entries(table, entries, file_id, language)),
    decreases entries.len(),
{
    if entries.len() > 0 {
        lemma_upsert_entries_distinct(table, entries.drop_last(), file_id, language);
        let row = key_row(entries.last(), file_id, language);
        lemma_upsert(
            upsert_entries(table, entries.drop_last(), file_id, language),
            row,
            row.key,
        );
    }
}


/// The value of the last of the entries that has the key `key`.
pub open spec fn last_value(entries: Seq<(Seq<char>, Seq<char>)>, key: Seq<char>) -> Option<
    Seq<char>,
>
    decreases entries.len(),
{
    if entries.len() == 0 {
        None
    } else if entries.last().0 == key {
        Some(entries.last().1)
    } else {
        last_value(entries.drop_last(), key)
    }
}

/// Whether a file with the content `content` parses and defines `key`.
pub open spec fn defines(content: Seq<char>, key: Seq<char>) -> bool {
    parse_text(content) matches ParseOutcome::Parsed { language, keys } && last_value(keys, key)
        is Some
}

/// The row that the file `file` with the content `content`, which defines
/// `key`, has for it: the value is that of the file's last line for the key.
pub open spec fn defined_row(
    file: FileIdAndPathRow,
    content: Seq<char>,
    key: Seq<char>,
) -> LocalizationKeyRow {
    let language = parse_text(content)->Parsed_language;
    let keys = parse_text(content)->Parsed_keys;
    key_row((key, last_value(keys, key).unwrap()), file.id, language)
}

/// Of the table to which the keys of a file were added: a key of the file
/// has the row of the file's last line for it; every other key has the row
/// that it had.
pub proof fn lemma_upsert_entries(
    table: Seq<LocalizationKeyRow>,
    entries: Seq<(Seq<char>, Seq<char>)>,
    file_id: u32,
    language: Language,
    key: Seq<char>,
)
    requires
        distinct_keys(table),
    ensures
        distinct_keys(upsert_entries(table, entries, file_id, language)),
        lookup(upsert_entries(table, entries, file_id, language), key) == match last_value(
            entries,
            key,
        ) {
            Some(value) => Some(key_row((key, value), file_id, language)),
            None => lookup(table, key),
        },
    decreases entries.len(),
{
    if entries.len() > 0 {
        let before = upsert_entries(table, entries.drop_last(), file_id, language);
        lemma_upsert_entries(table, entries.drop_last(), file_id, language, key);
        lemma_upsert(before, key_row(entries.last(), file_id, language), key);
    }
}

/// Parsing files and adding their keys keeps the table without double
/// keys: it holds one row for each key that a file defines.
pub proof fn lemma_resolve_distinct(
    table: Seq<LocalizationKeyRow>,
    files: Seq<FileIdAndPathRow>,
    contents: Seq<Seq<char>>,
)
    requires
        distinct_keys(table),
        resolve(table, files, contents) is Ok,
    ensures
        distinct_keys(resolve(table, files, contents)->Ok_0),
    decreases files.len(),
{
    if files.len() > 0 {
        lemma_resolve_distinct(table, files.drop_last(), contents.drop_last());
        let before = resolve(table, files.drop_last(), contents.drop_last())->Ok_0;
        let outcome = parse_text(contents.last());
        lemma_upsert_entries_distinct(
            before,
            outcome->Parsed_keys,
            files.last().id,
            outcome->Parsed_language,
        );
    }
}

/// The last file that defines a key counts: where the files parse, the key
/// has the row of the file `i` if that file defines the key and none that
/// is parsed after it does.
pub proof fn lemma_last_file_counts(
    table: Seq<LocalizationKeyRow>,
    files: Seq<FileIdAndPathRow>,
    contents: Seq<Seq<char>>,
    i: int,
    key: Seq<char>,
)
    requires
        distinct_keys(table),
        files.len() == contents.len(),
        resolve(table, files, contents) is Ok,
        0 <= i < files.len(),
        defines(contents[i], key),
        forall|m: int| i < m < files.len() ==> !defines(#[trigger] contents[m], key),
    ensures
        lookup(resolve(table, files, contents)->Ok_0, key) == Some(
            defined_row(files[i], contents[i], key),
        ),
    decreases files.len(),
{
    let front_files = files.drop_last();
    let front_contents = contents.drop_last();
    let before = resolve(table, front_files, front_contents)->Ok_0;
    let outcome = parse_text(contents.last());
    lemma_resolve_distinct(table, front_files, front_contents);
    lemma_upsert_entries(
        before,
        outcome->Parsed_keys,
        files.last().id,
        outcome->Parsed_language,
        key,
    );
    if i < files.len() - 1 {
        assert(!defines(contents[files.len() - 1], key));
        assert(front_contents[i] == contents[i]);
        assert forall|m: int| i < m < front_files.len() implies !defines(
            #[trigger] front_contents[m],
            key,
        ) by {
            assert(front_contents[m] == contents[m]);
        }
        lemma_last_file_counts(table, front_files, front_contents, i, key);
    }
}

/// A key that no file defines keeps the row that it had, or stays without
/// one.
pub proof fn lemma_untouched_key(
    table: Seq<LocalizationKeyRow>,
    files: Seq<FileIdAndPathRow>,
    contents: Seq<Seq<char>>,
    key: Seq<char>,
)
    requires
        distinct_keys(table),
        files.len() == contents.len(),
        resolve(table, files, contents) is Ok,
        forall|m: int| 0 <= m < files.len() ==> !defines(#[trigger] contents[m], key),
    ensures
        lookup(resolve(table, files, contents)->Ok_0, key) == lookup(table, key),
    decreases files.len(),
{
    if files.len() > 0 {
        let front_files = files.drop_last();
        let front_contents = contents.drop_last();
        let before = resolve(table, front_files, front_contents)->Ok_0;
        let outcome = parse_text(contents.last());
        lemma_resolve_distinct(table, front_files, front_contents);
        lemma_upsert_entries(
            before,
            outcome->Parsed_keys,
            files.last().id,
            outcome->Parsed_language,
            key,
        );
        assert(!defines(contents[files.len() - 1], key));
        assert forall|m: int| 0 <= m < front_files.len() implies !defines(
            #[trigger] front_contents[m],
            key,
        ) by {
            assert(front_contents[m] == contents[m]);
        }
        lemma_untouched_key(table, front_files, front_contents, key);
    }
}

/// Of the files that define a key the one whose name comes first counts:
/// where the localization files of a table are parsed in their order, and
/// the file at the place `first` of that order defines a key, and its name
/// comes before the name of every other file that defines the key, the key
/// has the row of that file.
pub proof fn lemma_first_name_counts(
    table: Seq<LocalizationKeyRow>,
    files: Seq<FileRow>,
    selected: Seq<FileRow>,
    contents: Seq<Seq<char>>,
    first: int,
    key: Seq<char>,
)
    requires
        distinct_keys(table),
        is_selection(files, selected),
        contents.len() == selected.len(),
        resolve(table, ids_and_paths(selected), contents) is Ok,
        0 <= first < selected.len(),
        defines(contents[first], key),
        forall|m: int|
            0 <= m < selected.len() && m != first && defines(#[trigger] contents[m], key)
                ==> text_less(selected[first].file_name, selected[m].file_name),
    ensures
        lookup(resolve(table, ids_and_paths(selected), contents)->Ok_0, key) == Some(
            defined_row(id_and_path(selected[first]), contents[first], key),
        ),
{
    assert forall|m: int| first < m < selected.len() implies !defines(
        #[trigger] contents[m],
        key,
    ) by {
        if defines(contents[m], key) {
            assert(parsed_before(selected[first], selected[m]));
            lemma_text_order(
                selected[first].file_name,
                selected[m].file_name,
                selected[first].file_name,
            );
        }
    }
    lemma_last_file_counts(table, ids_and_paths(selected), contents, first, key);
}

} // verus!
