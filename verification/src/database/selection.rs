//! Which files are parsed for localization keys, and in what order.
//!
//! The files whose content type is localization are parsed from the last
//! file name in the order of the dictionary to the first. A later file
//! overwrites the keys of an earlier one; so of the files that define a key
//! the one whose name comes first is the one that counts. Files of the same
//! name are parsed in the order of their ids.

use crate::database::models::{File, FileIdAndPath, FileIdAndPathRow, FileRow};
use crate::database::ContentType;
use crate::text::{lemma_text_order, str_equal, str_less, text_less};
use vstd::prelude::*;
use vstd::seq_lib::*;
use vstd::string::*;

verus! {

/// Whether the file's content type is localization.
pub open spec fn is_localization(file: FileRow) -> bool {
    file.content_type == ContentType::Localization.name_text()
}

/// Whether `x` is parsed before `y`: its name comes later, or it has the
/// same name and the smaller id.
pub open spec fn parsed_before(x: FileRow, y: FileRow) -> bool {
    text_less(y.file_name, x.file_name) || (x.file_name == y.file_name && x.id < y.id)
}

/// The place at which `file` enters the files `selected`: behind the last
/// one that is parsed before it.
pub open spec fn entry_place(selected: Seq<FileRow>, file: FileRow) -> int
    decreases selected.len(),
{
    if selected.len() > 0 && !parsed_before(selected.last(), file) {
        entry_place(selected.drop_last(), file)
    } else {
        selected.len() as int
    }
}

/// The localization files among `files`, in the order in which they are
/// parsed.
pub open spec fn selection(files: Seq<FileRow>) -> Seq<FileRow>
    decreases files.len(),
{
    if files.len() == 0 {
        Seq::empty()
    } else {
        let selected = selection(files.drop_last());
        let file = files.last();
        if is_localization(file) {
            selected.insert(entry_place(selected, file), file)
        } else {
            selected
        }
    }
}

/// What is kept of a file's row to read and parse the file.
pub open spec fn id_and_path(file: FileRow) -> FileIdAndPathRow {
    FileIdAndPathRow { id: file.id, full_path: file.full_path }
}

/// The same of the files `files`, in order.
pub open spec fn ids_and_paths(files: Seq<FileRow>) -> Seq<FileIdAndPathRow> {
    Seq::new(files.len(), |i: int| id_and_path(files[i]))
}

/// Each file's id is its place in the table.
pub open spec fn numbered(files: Seq<FileRow>) -> bool {
    forall|k: int| 0 <= k < files.len() ==> (#[trigger] files[k]).id == k
}

/// `selected` holds exactly the localization files of `files`, each as
/// often as `files` does, and each file of `selected` is parsed before all
/// that follow it.
pub open spec fn is_selection(files: Seq<FileRow>, selected: Seq<FileRow>) -> bool {
    &&& selected.to_multiset() == files.filter(|file: FileRow| is_localization(file)).to_multiset()
    &&& forall|i: int, j: int|
        0 <= i < j < selected.len() ==> parsed_before(#[trigger] selected[i], #[trigger] selected[j])
}

/// The order of parsing is transitive, and of two files with different ids
/// one is parsed before the other.
pub proof fn lemma_parsed_before_order(x: FileRow, y: FileRow, z: FileRow)
    ensures
        parsed_before(x, y) && parsed_before(y, z) ==> parsed_before(x, z),
        x.id != y.id ==> parsed_before(x, y) || parsed_before(y, x),
        !(parsed_before(x, y) && parsed_before(y, x)),
{
    lemma_text_order(z.file_name, y.file_name, x.file_name);
    lemma_text_order(x.file_name, y.file_name, x.file_name);
    lemma_text_order(y.file_name, x.file_name, y.file_name);
}

/// The place of entry lies behind a file that is parsed before the new
/// one, if it lies behind any, and before files that are not.
pub proof fn lemma_entry_place(selected: Seq<FileRow>, file: FileRow)
    ensures
        0 <= entry_place(selected, file) <= selected.len(),
        entry_place(selected, file) > 0 ==> parsed_before(
            selected[entry_place(selected, file) - 1],
            file,
        ),
        forall|j: int|
            entry_place(selected, file) <= j < selected.len() ==> !parsed_before(
                #[trigger] selected[j],
                file,
            ),
    decreases selected.len(),
{
    if selected.len() > 0 && !parsed_before(selected.last(), file) {
        lemma_entry_place(selected.drop_last(), file);
        let place = entry_place(selected, file);
        assert forall|j: int| place <= j < selected.len() implies !parsed_before(
            #[trigger] selected[j],
            file,
        ) by {
            if j < selected.len() - 1 {
                assert(selected.drop_last()[j] == selected[j]);
            }
        }
        if place > 0 {
            assert(selected.drop_last()[place - 1] == selected[place - 1]);
        }
    }
}

/// A place that lies behind a file that is parsed before the new one, if it
/// lies behind any, and before files that are not, is the place of entry.
pub proof fn lemma_entry_place_is(selected: Seq<FileRow>, file: FileRow, place: int)
    requires
        0 <= place <= selected.len(),
        place > 0 ==> parsed_before(selected[place - 1], file),
        forall|j: int| place <= j < selected.len() ==> !parsed_before(#[trigger] selected[j], file),
    ensures
        entry_place(selected, file) == place,
    decreases selected.len(),
{
    if place < selected.len() {
        assert(!parsed_before(selected[selected.len() - 1], file));
        let front = selected.drop_last();
        assert forall|j: int| place <= j < front.len() implies !parsed_before(
            #[trigger] front[j],
            file,
        ) by {
            assert(front[j] == selected[j]);
        }
        if place > 0 {
            assert(front[place - 1] == selected[place - 1]);
        }
        lemma_entry_place_is(front, file, place);
    }
}

/// Of a table of files in which each file's id is its place: the selection
/// holds exactly the table's localization files, each once, and in the
/// order of parsing: from the last name to the first, files of one name by
/// their ids.
pub proof fn lemma_selection(files: Seq<FileRow>)
    requires
        numbered(files),
    ensures
        is_selection(files, selection(files)),
        forall|i: int|
            0 <= i < selection(files).len() ==> 0 <= (#[trigger] selection(files)[i]).id
                < files.len(),
    decreases files.len(),
{
    let localization = |file: FileRow| is_localization(file);
    if files.len() == 0 {
        assert(files.filter(localization) =~= Seq::empty()) by {
            files.lemma_filter_len(localization);
        }
    } else {
        let front = files.drop_last();
        let file = files.last();
        let selected = selection(front);
        assert(numbered(front)) by {
            assert forall|k: int| 0 <= k < front.len() implies (#[trigger] front[k]).id == k by {
                assert(front[k] == files[k]);
            }
        }
        lemma_selection(front);
        assert(files =~= front.push(file));
        front.lemma_filter_push(file, localization);
        if is_localization(file) {
            let place = entry_place(selected, file);
            let after = selected.insert(place, file);
            lemma_entry_place(selected, file);
            to_multiset_insert(selected, place, file);
            to_multiset_build(front.filter(localization), file);
            assert forall|i: int, j: int| 0 <= i < j < after.len() implies parsed_before(
                #[trigger] after[i],
                #[trigger] after[j],
            ) by {
                let a = if i < place {
                    i
                } else {
                    i - 1
                };
                let b = if j < place {
                    j
                } else {
                    j - 1
                };
                if i == place {
                    assert(after[j] == selected[b]);
                    assert(!parsed_before(selected[b], file));
                    lemma_parsed_before_order(selected[b], file, file);
                } else if j == place {
                    assert(after[i] == selected[a]);
                    if a < place - 1 {
                        assert(parsed_before(selected[a], selected[place - 1]));
                        lemma_parsed_before_order(selected[a], selected[place - 1], file);
                    }
                } else {
                    assert(after[i] == selected[a] && after[j] == selected[b]);
                    assert(parsed_before(selected[a], selected[b]));
                }
            }
            assert forall|i: int| 0 <= i < after.len() implies 0 <= (#[trigger] after[i]).id
                < files.len() by {
                if i < place {
                    assert(after[i] == selected[i]);
                } else if i > place {
                    assert(after[i] == selected[i - 1]);
                }
            }
        }
    }
}

/// Whether `x` is parsed before `y`.
fn is_parsed_before(x: &File, y: &File) -> (r: bool)
    ensures
        r == parsed_before(x@, y@),
{
    str_less(y.file_name.as_str(), x.file_name.as_str()) || (str_equal(
        x.file_name.as_str(),
        y.file_name.as_str(),
    ) && x.id < y.id)
}

/// The rows of `files` at the places `order`.
spec fn rows_at(files: Seq<FileRow>, order: Seq<usize>) -> Seq<FileRow> {
    Seq::new(order.len(), |i: int| files[order[i] as int])
}

/// The localization files among `files`, in the order in which they are
/// parsed.
pub(crate) fn select(files: &Vec<File>) -> (selected: Vec<FileIdAndPath>)
    ensures
        selected.deep_view() == ids_and_paths(selection(files.deep_view())),
{
    let ghost table = files.deep_view();
    let mut order: Vec<usize> = Vec::new();
    let mut n: usize = 0;
    proof {
        assert(table.take(0) =~= Seq::empty());
        assert(rows_at(table, order@) =~= selection(table.take(0)));
    }
    while n < files.len()
        invariant
            n <= files.len(),
            table == files.deep_view(),
            forall|i: int| 0 <= i < order.len() ==> (#[trigger] order[i]) < files.len(),
            rows_at(table, order@) == selection(table.take(n as int)),
        decreases files.len() - n,
    {
        let file = &files[n];
        let ghost selected = rows_at(table, order@);
        proof {
            assert(table.take(n + 1).drop_last() =~= table.take(n as int));
            assert(table.take(n + 1).last() == file@);
        }
        if str_equal(file.content_type.as_str(), ContentType::Localization.name()) {
            let mut place: usize = order.len();
            while place > 0 && !is_parsed_before(&files[order[place - 1]], file)
                invariant
                    place <= order.len(),
                    table == files.deep_view(),
                    selected == rows_at(table, order@),
                    forall|i: int| 0 <= i < order.len() ==> (#[trigger] order[i]) < files.len(),
                    forall|j: int|
                        place <= j < selected.len() ==> !parsed_before(#[trigger] selected[j], file@),
                decreases place,
            {
                assert(selected[place - 1] == files@[order[place - 1] as int]@);
                place -= 1;
            }
            proof {
                if place > 0 {
                    assert(selected[place - 1] == files@[order[place - 1] as int]@);
                }
                lemma_entry_place_is(selected, file@, place as int);
            }
            order.insert(place, n);
            proof {
                assert(rows_at(table, order@) =~= selected.insert(place as int, file@));
            }
        }
        n += 1;
    }
    proof {
        assert(table.take(n as int) =~= table);
    }
    let ghost chosen = rows_at(table, order@);
    let mut selected: Vec<FileIdAndPath> = Vec::new();
    let mut i: usize = 0;
    while i < order.len()
        invariant
            i <= order.len(),
            table == files.deep_view(),
            chosen == rows_at(table, order@),
            forall|j: int| 0 <= j < order.len() ==> (#[trigger] order[j]) < files.len(),
            selected.len() == i,
            forall|j: int| 0 <= j < i ==> (#[trigger] selected@[j])@ == id_and_path(chosen[j]),
        decreases order.len() - i,
    {
        let file = &files[order[i]];
        assert(chosen[i as int] == file@);
        selected.push(FileIdAndPath { id: file.id, full_path: file.full_path.clone() });
        i += 1;
    }
    proof {
        assert(selected.deep_view() =~= ids_and_paths(chosen));
    }
    selected
}

} // verus!
