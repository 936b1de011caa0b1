//! The directory indexer.
//!
//! A listing of a directory tree, as it was read from the file system, is
//! made into a tree of nodes. Each node knows its full path, its path
//! relative to the root, its name, its content type and an id. Directories
//! and files are numbered apart, each from zero, in the order in which a
//! depth-first walk meets them (a directory before what it holds).
//!
//! Paths are texts whose segments are separated by `/`.

use crate::database::ContentType;
use crate::error::{not_a_directory_text, Error, ErrorKind, ErrorView};
use crate::text::{
    chars_of, find_char, index_of, lemma_index_of, lemma_index_of_is, str_equal, string_of,
};
use vstd::prelude::*;
use vstd::string::*;

verus! {

/// An entry of a directory listing: a file, or a directory with its entries
/// in the order in which the file system gave them. The name is that under
/// which the entry's directory lists it.
#[derive(Debug)]
pub enum Entry {
    Directory { name: String, children: Vec<Entry> },
    File { name: String },
}

/// An `Entry` as plain values.
pub enum EntryView {
    Directory { name: Seq<char>, children: Seq<EntryView> },
    File { name: Seq<char> },
}

impl View for Entry {
    type V = EntryView;

    open spec fn view(&self) -> EntryView
        decreases self,
    {
        match self {
            Entry::Directory { name, children } => EntryView::Directory {
                name: name@,
                children: Seq::new(
                    children@.len(),
                    |i: int|
                        if 0 <= i < children@.len() {
                            children@[i]@
                        } else {
                            EntryView::File { name: Seq::empty() }
                        },
                ),
            },
            Entry::File { name } => EntryView::File { name: name@ },
        }
    }
}

impl EntryView {
    pub open spec fn name(self) -> Seq<char> {
        match self {
            EntryView::Directory { name, children } => name,
            EntryView::File { name } => name,
        }
    }

    /// The number of directories in the listing, this entry included.
    pub open spec fn directory_count(self) -> nat
        decreases self,
    {
        match self {
            EntryView::Directory { name, children } => 1 + directories_in(children),
            EntryView::File { name } => 0,
        }
    }

    /// The number of files in the listing, this entry included.
    pub open spec fn file_count(self) -> nat
        decreases self,
    {
        match self {
            EntryView::Directory { name, children } => files_in(children),
            EntryView::File { name } => 1,
        }
    }
}

/// The number of directories in the listings `entries`.
pub open spec fn directories_in(entries: Seq<EntryView>) -> nat
    decreases entries,
{
    if entries.len() == 0 {
        0
    } else {
        directories_in(entries.drop_last()) + entries.last().directory_count()
    }
}

/// The number of files in the listings `entries`.
pub open spec fn files_in(entries: Seq<EntryView>) -> nat
    decreases entries,
{
    if entries.len() == 0 {
        0
    } else {
        files_in(entries.drop_last()) + entries.last().file_count()
    }
}

/// The path of the entry `name` of the directory at `base`. The empty name
/// stands for the directory itself.
pub open spec fn join(base: Seq<char>, name: Seq<char>) -> Seq<char> {
    if name.len() == 0 {
        base
    } else if base.len() == 0 {
        name
    } else if base.last() == '/' {
        base + name
    } else {
        base + seq!['/'] + name
    }
}

/// What is left of `path` when the root `root` and the separator behind it
/// are taken off its front, if `path` lies at or under `root`.
pub open spec fn strip_root(path: Seq<char>, root: Seq<char>) -> Option<Seq<char>> {
    if path == root {
        Some(Seq::empty())
    } else if root.len() == 0 {
        Some(path)
    } else if root.last() == '/' {
        if root.is_prefix_of(path) {
            Some(path.skip(root.len() as int))
        } else {
            None
        }
    } else {
        if (root + seq!['/']).is_prefix_of(path) {
            Some(path.skip(root.len() as int + 1))
        } else {
            None
        }
    }
}

/// `path` without the separators at its end.
pub open spec fn without_trailing_separators(path: Seq<char>) -> Seq<char>
    decreases path.len(),
{
    if path.len() > 0 && path.last() == '/' {
        without_trailing_separators(path.drop_last())
    } else {
        path
    }
}

/// What stands at the end of `path` behind its last separator; all of
/// `path` where it has none.
pub open spec fn behind_last_separator(path: Seq<char>) -> Seq<char>
    decreases path.len(),
{
    if path.len() == 0 || path.last() == '/' {
        Seq::empty()
    } else {
        behind_last_separator(path.drop_last()).push(path.last())
    }
}

/// The last segment of a path, which names what lies at the path:
/// separators at the end of the path do not count, and the segment is what
/// then stands behind the last separator. A path of separators alone, and
/// the empty path, have the empty name.
pub open spec fn last_segment(path: Seq<char>) -> Seq<char> {
    behind_last_separator(without_trailing_separators(path))
}

/// The first segment of a path: what stands before its first `/`.
pub open spec fn first_segment(path: Seq<char>) -> Seq<char> {
    path.take(index_of(path, '/'))
}

/// The content type of the node at `relative_path`, a path relative to the
/// root of the tree: localization exactly where the path's first segment is
/// `localization`.
pub open spec fn classify(relative_path: Seq<char>) -> ContentType {
    if first_segment(relative_path) == "localization"@ {
        ContentType::Localization
    } else {
        ContentType::Indeterminate
    }
}

/// A `Directory` as plain values.
pub struct DirectoryView {
    pub full_path: Seq<char>,
    pub relative_path: Seq<char>,
    pub dir_name: Seq<char>,
    pub content_type: ContentType,
    pub id: u32,
    pub children: Seq<NodeView>,
}

/// A `File` as plain values.
pub struct FileView {
    pub full_path: Seq<char>,
    pub relative_path: Seq<char>,
    pub file_name: Seq<char>,
    pub content_type: ContentType,
    pub id: u32,
}

/// A `Node` as plain values.
pub enum NodeView {
    Directory(DirectoryView),
    File(FileView),
}

#[derive(Debug)]
pub struct Directory {
    full_path: String,
    relative_path: String,
    dir_name: String,
    content_type: ContentType,
    id: u32,
    children: Vec<Node>,
}

#[derive(Debug)]
pub struct File {
    full_path: String,
    relative_path: String,
    file_name: String,
    content_type: ContentType,
    id: u32,
}

#[derive(Debug)]
pub enum Node {
    Directory(Directory),
    File(File),
}

impl View for File {
    type V = FileView;

    closed spec fn view(&self) -> FileView {
        FileView {
            full_path: self.full_path@,
            relative_path: self.relative_path@,
            file_name: self.file_name@,
            content_type: self.content_type,
            id: self.id,
        }
    }
}

impl View for Directory {
    type V = DirectoryView;

    open spec fn view(&self) -> DirectoryView {
        directory_view(*self)
    }
}

/// What a directory holds, as plain values.
pub closed spec fn directory_view(directory: Directory) -> DirectoryView
    decreases directory,
{
    DirectoryView {
        full_path: directory.full_path@,
        relative_path: directory.relative_path@,
        dir_name: directory.dir_name@,
        content_type: directory.content_type,
        id: directory.id,
        children: Seq::new(
            directory.children@.len(),
            |i: int|
                if 0 <= i < directory.children@.len() {
                    node_view(directory.children@[i])
                } else {
                    arbitrary()
                },
        ),
    }
}

/// What a node holds, as plain values.
pub open spec fn node_view(node: Node) -> NodeView
    decreases node,
{
    match node {
        Node::Directory(directory) => NodeView::Directory(directory_view(directory)),
        Node::File(file) => NodeView::File(file@),
    }
}

impl View for Node {
    type V = NodeView;

    open spec fn view(&self) -> NodeView {
        node_view(*self)
    }
}

/// The views of the entries `entries`, in order.
pub open spec fn views_of(entries: Seq<Entry>) -> Seq<EntryView> {
    Seq::new(entries.len(), |i: int| entries[i]@)
}

/// The node that indexing makes of `entry`, which lies at `full_path` and,
/// seen from the root, at `relative_path`, when `dir_id` directories and
/// `file_id` files have been numbered before it. The node is named by the
/// last segment of its full path.
pub open spec fn index_entry(
    entry: EntryView,
    full_path: Seq<char>,
    relative_path: Seq<char>,
    dir_id: nat,
    file_id: nat,
) -> NodeView
    decreases entry,
{
    match entry {
        EntryView::Directory { name, children } => NodeView::Directory(
            DirectoryView {
                full_path,
                relative_path,
                dir_name: last_segment(full_path),
                content_type: classify(relative_path),
                id: dir_id as u32,
                children: index_entries(children, full_path, relative_path, dir_id + 1, file_id),
            },
        ),
        EntryView::File { name } => NodeView::File(
            FileView {
                full_path,
                relative_path,
                file_name: last_segment(full_path),
                content_type: classify(relative_path),
                id: file_id as u32,
            },
        ),
    }
}

/// The nodes that indexing makes of the entries of the directory at
/// `parent_full`: each entry is numbered after all that its earlier
/// siblings hold.
pub open spec fn index_entries(
    entries: Seq<EntryView>,
    parent_full: Seq<char>,
    parent_relative: Seq<char>,
    dir_id: nat,
    file_id: nat,
) -> Seq<NodeView>
    decreases entries,
{
    Seq::new(
        entries.len(),
        |i: int|
            if 0 <= i < entries.len() {
                index_entry(
                    entries[i],
                    join(parent_full, entries[i].name()),
                    join(parent_relative, entries[i].name()),
                    dir_id + directories_in(entries.take(i)),
                    file_id + files_in(entries.take(i)),
                )
            } else {
                arbitrary()
            },
    )
}

/// The counts of a front part of a listing are part of the counts of the whole.
pub proof fn lemma_counts_of_front(entries: Seq<EntryView>, i: int)
    requires
        0 <= i <= entries.len(),
    ensures
        directories_in(entries.take(i)) <= directories_in(entries),
        files_in(entries.take(i)) <= files_in(entries),
        i < entries.len() ==> directories_in(entries.take(i + 1)) == directories_in(
            entries.take(i),
        ) + entries[i].directory_count(),
        i < entries.len() ==> files_in(entries.take(i + 1)) == files_in(entries.take(i))
            + entries[i].file_count(),
    decreases entries.len() - i,
{
    if i < entries.len() {
        assert(entries.take(i + 1).drop_last() =~= entries.take(i));
        assert(entries.take(i + 1).last() == entries[i]);
        lemma_counts_of_front(entries, i + 1);
    } else {
        assert(entries.take(i) =~= entries);
    }
}

/// One more than the largest `u32`: where counting stops.
pub open spec fn id_space() -> nat {
    0x1_0000_0000
}

/// `count`, but no more than `id_space()`.
pub open spec fn capped(count: nat) -> nat {
    if count <= id_space() {
        count
    } else {
        id_space()
    }
}

impl Entry {
    /// Whether the listing leaves room for the ids: `DirTree::new` asks
    /// for that.
    pub fn within_id_space(&self) -> (fits: bool)
        ensures
            fits == (self@.directory_count() <= u32::MAX && self@.file_count() <= u32::MAX),
    {
        let (directories, files) = self.capped_counts();
        directories <= 0xFFFF_FFFF && files <= 0xFFFF_FFFF
    }

    /// The numbers of directories and of files in the listing, each counted
    /// up to `id_space()`.
    fn capped_counts(&self) -> (counts: (u64, u64))
        ensures
            counts.0 == capped(self@.directory_count()),
            counts.1 == capped(self@.file_count()),
        decreases self,
    {
        match self {
            Entry::File { .. } => (0, 1),
            Entry::Directory { children, .. } => {
                let ghost views = views_of(children@);
                let mut directories: u64 = 1;
                let mut files: u64 = 0;
                let mut i: usize = 0;
                proof {
                    assert(self@->Directory_children =~= views);
                    assert(views.take(0) =~= Seq::empty());
                }
                while i < children.len()
                    invariant
                        i <= children.len(),
                        decreases_to!(self => children),
                        views == views_of(children@),
                        directories == capped(1 + directories_in(views.take(i as int))),
                        files == capped(files_in(views.take(i as int))),
                    decreases children.len() - i,
                {
                    let child = &children[i];
                    proof {
                        lemma_counts_of_front(views, i as int);
                        assert(views[i as int] == child@);
                        assert(decreases_to!(children => child));
                    }
                    let (d, f) = child.capped_counts();
                    directories = if directories + d > 0x1_0000_0000 {
                        0x1_0000_0000
                    } else {
                        directories + d
                    };
                    files = if files + f > 0x1_0000_0000 {
                        0x1_0000_0000
                    } else {
                        files + f
                    };
                    i += 1;
                }
                proof {
                    assert(views.take(i as int) =~= views);
                }
                (directories, files)
            },
        }
    }

    pub fn name(&self) -> (name: &str)
        ensures
            name@ == self@.name(),
    {
        match self {
            Entry::Directory { name, .. } => name.as_str(),
            Entry::File { name } => name.as_str(),
        }
    }
}

/// The last segment of `path`, which names what lies at the path.
pub fn last_segment_of(path: &str) -> (name: String)
    ensures
        name@ == last_segment(path@),
{
    let chars = chars_of(path);
    let mut end: usize = chars.len();
    assert(chars@.take(end as int) =~= chars@);
    while end > 0 && chars[end - 1] == '/'
        invariant
            end <= chars.len(),
            without_trailing_separators(chars@) == without_trailing_separators(
                chars@.take(end as int),
            ),
        decreases end,
    {
        assert(chars@.take(end as int).drop_last() =~= chars@.take(end - 1));
        end -= 1;
    }
    let ghost trimmed = chars@.take(end as int);
    let mut start: usize = end;
    assert(trimmed.take(start as int) =~= trimmed);
    assert(trimmed.subrange(start as int, end as int) =~= Seq::empty());
    while start > 0 && chars[start - 1] != '/'
        invariant
            start <= end <= chars.len(),
            trimmed == chars@.take(end as int),
            behind_last_separator(trimmed) == behind_last_separator(trimmed.take(start as int))
                + trimmed.subrange(start as int, end as int),
        decreases start,
    {
        proof {
            let front = trimmed.take(start as int);
            assert(front.drop_last() =~= trimmed.take(start - 1));
            assert(front.last() == chars@[start - 1]);
            assert(behind_last_separator(front) == behind_last_separator(front.drop_last()).push(
                front.last(),
            ));
            assert(behind_last_separator(front.drop_last()).push(front.last()) + trimmed.subrange(
                start as int,
                end as int,
            ) =~= behind_last_separator(front.drop_last()) + trimmed.subrange(
                start - 1,
                end as int,
            ));
        }
        start -= 1;
    }
    proof {
        let front = trimmed.take(start as int);
        assert(behind_last_separator(front) =~= Seq::empty()) by {
            if start > 0 {
                assert(front.last() == chars@[start - 1]);
            }
        }
        assert(trimmed.subrange(start as int, end as int) =~= chars@.subrange(
            start as int,
            end as int,
        ));
        assert(Seq::<char>::empty() + trimmed.subrange(start as int, end as int)
            =~= trimmed.subrange(start as int, end as int));
    }
    string_of(&chars, start, end)
}

/// The path of the entry `name` of the directory at `base`.
pub fn join_path(base: &str, name: &str) -> (path: String)
    ensures
        path@ == join(base@, name@),
{
    if name.is_empty() {
        return String::from_str(base);
    }
    let len = base.unicode_len();
    if len == 0 {
        return String::from_str(name);
    }
    let mut path = String::from_str(base);
    if base.get_char(len - 1) != '/' {
        path.push('/');
    }
    path.append(name);
    path
}

/// What is left of `path` when the root `root` and the separator behind it
/// are taken off its front, if `path` lies at or under `root`.
pub fn strip_root_path(path: &str, root: &str) -> (relative: Option<String>)
    ensures
        relative.deep_view() == strip_root(path@, root@),
{
    if str_equal(path, root) {
        let relative = String::new();
        assert(relative@ =~= Seq::<char>::empty());
        return Some(relative);
    }
    let whole = chars_of(path);
    let front = chars_of(root);
    if front.len() == 0 {
        let relative = String::from_str(path);
        return Some(relative);
    }
    let separated = front[front.len() - 1] == '/';
    if whole.len() < front.len() || (!separated && whole.len() == front.len()) {
        return None;
    }
    let mut i: usize = 0;
    while i < front.len()
        invariant
            i <= front.len() <= whole.len(),
            0 < front.len(),
            !separated ==> front.len() < whole.len(),
            whole@ == path@,
            front@ == root@,
            path@ != root@,
            separated == (front@.last() == '/'),
            forall|j: int| 0 <= j < i ==> whole@[j] == front@[j],
        decreases front.len() - i,
    {
        if whole[i] != front[i] {
            proof {
                if separated {
                    if front@.is_prefix_of(whole@) {
                        assert(whole@.subrange(0, front@.len() as int)[i as int] == front@[i as int]);
                    }
                } else {
                    let longer = front@ + seq!['/'];
                    if longer.is_prefix_of(whole@) {
                        assert(whole@.subrange(0, longer.len() as int)[i as int] == longer[i as int]);
                    }
                }
            }
            return None;
        }
        i += 1;
    }
    if separated {
        proof {
            assert(front@ =~= whole@.subrange(0, front@.len() as int));
            assert(whole@.skip(front@.len() as int) =~= whole@.subrange(
                front@.len() as int,
                whole@.len() as int,
            ));
        }
        Some(string_of(&whole, front.len(), whole.len()))
    } else if whole[front.len()] == '/' {
        proof {
            let longer = front@ + seq!['/'];
            assert(longer =~= whole@.subrange(0, longer.len() as int));
            assert(whole@.skip(front@.len() as int + 1) =~= whole@.subrange(
                front@.len() as int + 1,
                whole@.len() as int,
            ));
        }
        Some(string_of(&whole, front.len() + 1, whole.len()))
    } else {
        proof {
            let longer = front@ + seq!['/'];
            if longer.is_prefix_of(whole@) {
                assert(whole@.subrange(0, longer.len() as int)[front@.len() as int]
                    == longer[front@.len() as int]);
            }
        }
        None
    }
}

#[derive(Debug)]
pub struct DirTree {
    root: Node,
}

impl View for DirTree {
    type V = NodeView;

    closed spec fn view(&self) -> NodeView {
        self.root@
    }
}

/// A tree whose root is a directory and in which the `k`-th directory and
/// the `k`-th file that a depth-first walk meets have the id `k` and are in
/// their place under the root's full path.
pub open spec fn well_indexed(tree: NodeView) -> bool {
    &&& tree is Directory
    &&& forall|k: int|
        0 <= k < tree.directories().len() ==> directory_in_place(
            #[trigger] tree.directories()[k],
            tree.full_path(),
            k,
        )
    &&& forall|k: int|
        0 <= k < tree.files().len() ==> file_in_place(
            #[trigger] tree.files()[k],
            tree.full_path(),
            k,
        )
}

impl DirTree {
    #[verifier::type_invariant]
    spec fn indexed(self) -> bool {
        well_indexed(self.root@)
    }

    /// Indexes the listing of the directory at `root_path`. A listing that
    /// is a file is refused. Every node is named by the last segment of its
    /// full path, the root by that of `root_path`; the names of the listing
    /// serve to make the paths of what a directory holds. The counts of the
    /// listing have to leave room for the ids, which are `u32`.
    pub fn new(root_path: &str, listing: &Entry) -> (result: Result<DirTree, Error>)
        requires
            listing@.directory_count() <= u32::MAX,
            listing@.file_count() <= u32::MAX,
        ensures
            is_index_result(root_path@, listing@, result),
    {
        match listing {
            Entry::File { .. } => Err(Error::not_a_directory(root_path)),
            Entry::Directory { .. } => {
                let mut dir_ids: u32 = 0;
                let mut file_ids: u32 = 0;
                let root = Self::create_node(
                    listing,
                    String::from_str(root_path),
                    String::new(),
                    &mut dir_ids,
                    &mut file_ids,
                );
                proof {
                    lemma_indexed_tree(listing@, root_path@);
                }
                Ok(DirTree { root })
            },
        }
    }

    /// The root of the tree. Every tree is well indexed.
    pub fn root(&self) -> (root: &Node)
        ensures
            root@ == self@,
            well_indexed(self@),
    {
        proof {
            use_type_invariant(self);
        }
        &self.root
    }

    pub fn root_path(&self) -> (path: &str)
        ensures
            path@ == self@.full_path(),
    {
        self.root.full_path()
    }

    /// The node for `entry`, numbered from the counters, which move on by
    /// what the entry holds.
    fn create_node(
        entry: &Entry,
        full_path: String,
        relative_path: String,
        dir_ids: &mut u32,
        file_ids: &mut u32,
    ) -> (node: Node)
        requires
            *old(dir_ids) + entry@.directory_count() <= u32::MAX,
            *old(file_ids) + entry@.file_count() <= u32::MAX,
        ensures
            node@ == index_entry(
                entry@,
                full_path@,
                relative_path@,
                *old(dir_ids) as nat,
                *old(file_ids) as nat,
            ),
            *final(dir_ids) == *old(dir_ids) + entry@.directory_count(),
            *final(file_ids) == *old(file_ids) + entry@.file_count(),
        decreases entry,
    {
        let content_type = Self::get_content_type_from_relative_path(relative_path.as_str());
        let name = last_segment_of(full_path.as_str());
        match entry {
            Entry::Directory { children, .. } => {
                let id = *dir_ids;
                *dir_ids = id + 1;
                let ghost views = views_of(children@);
                let ghost first_file = *file_ids as nat;
                proof {
                    assert(entry@->Directory_children =~= views);
                }
                let nodes = Self::create_children_nodes(
                    children,
                    full_path.as_str(),
                    relative_path.as_str(),
                    dir_ids,
                    file_ids,
                );
                let directory = Directory {
                    full_path,
                    relative_path,
                    dir_name: name,
                    content_type,
                    id,
                    children: nodes,
                };
                proof {
                    assert(directory@.children =~= index_entries(
                        views,
                        directory@.full_path,
                        directory@.relative_path,
                        id as nat + 1,
                        first_file,
                    ));
                }
                Node::Directory(directory)
            },
            Entry::File { .. } => {
                let id = *file_ids;
                *file_ids = id + 1;
                Node::File(File { full_path, relative_path, file_name: name, content_type, id })
            },
        }
    }

    /// The nodes for the entries of the directory at `path`.
    fn create_children_nodes(
        entries: &Vec<Entry>,
        path: &str,
        relative_path: &str,
        dir_ids: &mut u32,
        file_ids: &mut u32,
    ) -> (children: Vec<Node>)
        requires
            *old(dir_ids) + directories_in(views_of(entries@)) <= u32::MAX,
            *old(file_ids) + files_in(views_of(entries@)) <= u32::MAX,
        ensures
            children@.len() == entries@.len(),
            forall|i: int|
                0 <= i < children@.len() ==> (#[trigger] children@[i])@ == index_entries(
                    views_of(entries@),
                    path@,
                    relative_path@,
                    *old(dir_ids) as nat,
                    *old(file_ids) as nat,
                )[i],
            *final(dir_ids) == *old(dir_ids) + directories_in(views_of(entries@)),
            *final(file_ids) == *old(file_ids) + files_in(views_of(entries@)),
        decreases entries,
    {
        let ghost views = views_of(entries@);
        let ghost first_dir = *dir_ids as nat;
        let ghost first_file = *file_ids as nat;
        let mut children: Vec<Node> = Vec::new();
        let mut i: usize = 0;
        assert(views.take(0) =~= Seq::empty());
        while i < entries.len()
            invariant
                i <= entries.len(),
                views == views_of(entries@),
                children@.len() == i,
                forall|j: int|
                    0 <= j < i ==> (#[trigger] children@[j])@ == index_entries(
                        views,
                        path@,
                        relative_path@,
                        first_dir,
                        first_file,
                    )[j],
                *dir_ids == first_dir + directories_in(views.take(i as int)),
                *file_ids == first_file + files_in(views.take(i as int)),
                first_dir + directories_in(views) <= u32::MAX,
                first_file + files_in(views) <= u32::MAX,
            decreases entries.len() - i,
        {
            let entry = &entries[i];
            proof {
                lemma_counts_of_front(views, i as int);
                lemma_counts_of_front(views, i + 1);
                assert(views[i as int] == entry@);
            }
            let child = Self::create_node(
                entry,
                join_path(path, entry.name()),
                join_path(relative_path, entry.name()),
                dir_ids,
                file_ids,
            );
            children.push(child);
            i += 1;
        }
        proof {
            assert(views.take(i as int) =~= views);
        }
        children
    }

    /// The content type of the node at `relative_path`, a path relative to
    /// the root of the tree.
    pub fn get_content_type_from_relative_path(relative_path: &str) -> (content_type: ContentType)
        ensures
            content_type == classify(relative_path@),
    {
        let chars = chars_of(relative_path);
        let end = find_char(&chars, 0, chars.len(), '/');
        let segment = string_of(&chars, 0, end);
        proof {
            assert(chars@.subrange(0, chars.len() as int) =~= relative_path@);
            assert(segment@ =~= first_segment(relative_path@));
        }
        if str_equal(segment.as_str(), "localization") {
            ContentType::Localization
        } else {
            ContentType::Indeterminate
        }
    }
}

impl NodeView {
    pub open spec fn full_path(self) -> Seq<char> {
        match self {
            NodeView::Directory(directory) => directory.full_path,
            NodeView::File(file) => file.full_path,
        }
    }

    pub open spec fn relative_path(self) -> Seq<char> {
        match self {
            NodeView::Directory(directory) => directory.relative_path,
            NodeView::File(file) => file.relative_path,
        }
    }

    pub open spec fn file_name(self) -> Seq<char> {
        match self {
            NodeView::Directory(directory) => directory.dir_name,
            NodeView::File(file) => file.file_name,
        }
    }

    pub open spec fn content_type(self) -> ContentType {
        match self {
            NodeView::Directory(directory) => directory.content_type,
            NodeView::File(file) => file.content_type,
        }
    }

    pub open spec fn id(self) -> u32 {
        match self {
            NodeView::Directory(directory) => directory.id,
            NodeView::File(file) => file.id,
        }
    }
}

impl Directory {
    pub fn full_path(&self) -> (path: &str)
        ensures
            path@ == self@.full_path,
    {
        self.full_path.as_str()
    }

    pub fn relative_path(&self) -> (path: &str)
        ensures
            path@ == self@.relative_path,
    {
        self.relative_path.as_str()
    }

    pub fn dir_name(&self) -> (name: &str)
        ensures
            name@ == self@.dir_name,
    {
        self.dir_name.as_str()
    }

    pub fn content_type(&self) -> (content_type: ContentType)
        ensures
            content_type == self@.content_type,
    {
        self.content_type
    }

    pub fn id(&self) -> (id: u32)
        ensures
            id == self@.id,
    {
        self.id
    }

    /// The nodes that the directory holds. Each is a smaller tree than the
    /// directory, so that a walk may descend into it.
    pub fn children(&self) -> (children: &[Node])
        ensures
            children@.len() == self@.children.len(),
            forall|i: int|
                0 <= i < children@.len() ==> (#[trigger] children@[i])@ == self@.children[i],
            forall|i: int|
                0 <= i < children@.len() ==> decreases_to!(self => #[trigger] children@[i]),
    {
        let children = self.children.as_slice();
        proof {
            assert forall|i: int| 0 <= i < children@.len() implies decreases_to!(self =>
                #[trigger] children@[i]) by {
                assert(children@[i] == self.children@[i]);
                assert(decreases_to!(self.children => self.children@[i]));
            }
        }
        children
    }
}

impl File {
    pub fn full_path(&self) -> (path: &str)
        ensures
            path@ == self@.full_path,
    {
        self.full_path.as_str()
    }

    pub fn relative_path(&self) -> (path: &str)
        ensures
            path@ == self@.relative_path,
    {
        self.relative_path.as_str()
    }

    pub fn file_name(&self) -> (name: &str)
        ensures
            name@ == self@.file_name,
    {
        self.file_name.as_str()
    }

    pub fn content_type(&self) -> (content_type: ContentType)
        ensures
            content_type == self@.content_type,
    {
        self.content_type
    }

    pub fn id(&self) -> (id: u32)
        ensures
            id == self@.id,
    {
        self.id
    }
}

impl Node {
    pub fn full_path(&self) -> (path: &str)
        ensures
            path@ == self@.full_path(),
    {
        match self {
            Node::Directory(directory) => directory.full_path(),
            Node::File(file) => file.full_path(),
        }
    }

    pub fn relative_path(&self) -> (path: &str)
        ensures
            path@ == self@.relative_path(),
    {
        match self {
            Node::Directory(directory) => directory.relative_path(),
            Node::File(file) => file.relative_path(),
        }
    }

    pub fn file_name(&self) -> (name: &str)
        ensures
            name@ == self@.file_name(),
    {
        match self {
            Node::Directory(directory) => directory.dir_name(),
            Node::File(file) => file.file_name(),
        }
    }

    pub fn content_type(&self) -> (content_type: ContentType)
        ensures
            content_type == self@.content_type(),
    {
        match self {
            Node::Directory(directory) => directory.content_type(),
            Node::File(file) => file.content_type(),
        }
    }

    pub fn id(&self) -> (id: u32)
        ensures
            id == self@.id(),
    {
        match self {
            Node::Directory(directory) => directory.id(),
            Node::File(file) => file.id(),
        }
    }
}

impl NodeView {
    /// The directories of the tree, in the order of a depth-first walk that
    /// meets a directory before what it holds.
    pub open spec fn directories(self) -> Seq<DirectoryView>
        decreases self,
    {
        match self {
            NodeView::Directory(directory) => seq![directory] + directories_of(directory.children),
            NodeView::File(file) => Seq::empty(),
        }
    }

    /// The files of the tree, in the order of a depth-first walk.
    pub open spec fn files(self) -> Seq<FileView>
        decreases self,
    {
        match self {
            NodeView::Directory(directory) => files_of(directory.children),
            NodeView::File(file) => seq![file],
        }
    }
}

/// The directories of the trees `nodes`, tree after tree.
pub open spec fn directories_of(nodes: Seq<NodeView>) -> Seq<DirectoryView>
    decreases nodes,
{
    if nodes.len() == 0 {
        Seq::empty()
    } else {
        directories_of(nodes.drop_last()) + nodes.last().directories()
    }
}

/// The files of the trees `nodes`, tree after tree.
pub open spec fn files_of(nodes: Seq<NodeView>) -> Seq<FileView>
    decreases nodes,
{
    if nodes.len() == 0 {
        Seq::empty()
    } else {
        files_of(nodes.drop_last()) + nodes.last().files()
    }
}

/// A directory of a tree under `root` that is the one numbered `id`: its
/// name is the last segment of its full path, its full path is the root
/// joined with its relative path, and its content type is that of its
/// relative path.
pub open spec fn directory_in_place(directory: DirectoryView, root: Seq<char>, id: int) -> bool {
    &&& directory.id == id
    &&& directory.dir_name == last_segment(directory.full_path)
    &&& join(root, directory.relative_path) == directory.full_path
    &&& strip_root(directory.full_path, root) == Some(directory.relative_path)
    &&& directory.content_type == classify(directory.relative_path)
}

/// The same of a file.
pub open spec fn file_in_place(file: FileView, root: Seq<char>, id: int) -> bool {
    &&& file.id == id
    &&& file.file_name == last_segment(file.full_path)
    &&& join(root, file.relative_path) == file.full_path
    &&& strip_root(file.full_path, root) == Some(file.relative_path)
    &&& file.content_type == classify(file.relative_path)
}

/// Joining is associative: the entry `name` of the directory at `inner`
/// under `outer` is found by either way.
pub proof fn lemma_join_associative(outer: Seq<char>, inner: Seq<char>, name: Seq<char>)
    ensures
        join(join(outer, inner), name) == join(outer, join(inner, name)),
{
    if name.len() == 0 || inner.len() == 0 || outer.len() == 0 {
    } else {
        assert(join(outer, inner).last() == inner.last());
        assert(join(inner, name).len() > 0);
        assert(join(join(outer, inner), name) =~= join(outer, join(inner, name)));
    }
}

/// A name without separator.
pub open spec fn plain_name(name: Seq<char>) -> bool {
    name.len() > 0 && forall|i: int| 0 <= i < name.len() ==> name[i] != '/'
}

/// What stands behind a separator, and holds none, is what stands behind
/// the last separator.
pub proof fn lemma_behind_last_separator(front: Seq<char>, name: Seq<char>)
    requires
        front.len() == 0 || front.last() == '/',
        forall|i: int| 0 <= i < name.len() ==> name[i] != '/',
    ensures
        behind_last_separator(front + name) == name,
    decreases name.len(),
{
    let path = front + name;
    if name.len() == 0 {
        assert(path =~= front);
    } else {
        assert(path.last() == name.last());
        assert(path.drop_last() =~= front + name.drop_last());
        lemma_behind_last_separator(front, name.drop_last());
        assert(name.drop_last().push(name.last()) =~= name);
    }
}

/// An entry with a plain name is named by the last segment of its path: the
/// nodes of a tree bear the names under which their directories list them.
pub proof fn lemma_last_segment_of_join(base: Seq<char>, name: Seq<char>)
    requires
        plain_name(name),
    ensures
        last_segment(join(base, name)) == name,
{
    let path = join(base, name);
    assert(path.last() == name.last());
    if base.len() == 0 {
        assert(Seq::<char>::empty() + name =~= name);
        lemma_behind_last_separator(Seq::empty(), name);
    } else if base.last() == '/' {
        lemma_behind_last_separator(base, name);
    } else {
        assert((base + seq!['/']) + name =~= path);
        lemma_behind_last_separator(base + seq!['/'], name);
    }
}

/// Taking the root off a path that was joined to it gives the relative
/// path back.
pub proof fn lemma_strip_root_of_join(root: Seq<char>, relative_path: Seq<char>)
    ensures
        strip_root(join(root, relative_path), root) == Some(relative_path),
{
    let path = join(root, relative_path);
    if relative_path.len() == 0 {
        assert(relative_path =~= Seq::empty());
    } else if root.len() == 0 {
    } else if root.last() == '/' {
        assert(path.len() != root.len());
        assert(path.skip(root.len() as int) =~= relative_path);
    } else {
        assert(path.len() != root.len());
        assert(path.skip(root.len() as int + 1) =~= relative_path);
    }
}

/// What lies under a path other than the root has the first segment of
/// that path, and so its content type: `localization` and all below it, at
/// any depth, is localization, and nothing else is.
pub proof fn lemma_content_type_is_inherited(relative_path: Seq<char>, name: Seq<char>)
    requires
        relative_path.len() > 0,
    ensures
        first_segment(join(relative_path, name)) == first_segment(relative_path),
        classify(join(relative_path, name)) == classify(relative_path),
{
    let joined = join(relative_path, name);
    let at = index_of(relative_path, '/');
    lemma_index_of(relative_path, '/');
    if name.len() > 0 {
        assert(relative_path.is_prefix_of(joined));
        if at < relative_path.len() {
            lemma_index_of_is(joined, '/', at);
        } else {
            assert(relative_path.last() != '/');
            assert(joined[at] == '/');
            lemma_index_of_is(joined, '/', at);
        }
        assert(joined.take(at) =~= relative_path.take(at));
    }
}

/// The root of a tree is never localization.
pub proof fn lemma_root_is_indeterminate()
    ensures
        classify(Seq::empty()) == ContentType::Indeterminate,
{
    reveal_strlit("localization");
    assert(first_segment(Seq::empty()).len() == 0);
}

/// Of the node made of one entry: it holds as many directories and files as
/// the entry, a walk meets them in the order of their ids, which start at
/// `dir_id` and `file_id`, and each is in its place under `root`.
pub proof fn lemma_index_entry(
    entry: EntryView,
    full_path: Seq<char>,
    relative_path: Seq<char>,
    dir_id: nat,
    file_id: nat,
    root: Seq<char>,
)
    requires
        join(root, relative_path) == full_path,
        dir_id + entry.directory_count() <= u32::MAX,
        file_id + entry.file_count() <= u32::MAX,
    ensures
        ({
            let node = index_entry(entry, full_path, relative_path, dir_id, file_id);
            &&& node.directories().len() == entry.directory_count()
            &&& node.files().len() == entry.file_count()
            &&& forall|k: int|
                0 <= k < node.directories().len() ==> directory_in_place(
                    #[trigger] node.directories()[k],
                    root,
                    dir_id + k,
                )
            &&& forall|k: int|
                0 <= k < node.files().len() ==> file_in_place(
                    #[trigger] node.files()[k],
                    root,
                    file_id + k,
                )
        }),
    decreases entry, 0nat,
{
    lemma_strip_root_of_join(root, relative_path);
    match entry {
        EntryView::Directory { name, children } => {
            lemma_index_entries(
                children,
                full_path,
                relative_path,
                dir_id + 1,
                file_id,
                root,
                children.len() as int,
            );
            let nodes = index_entries(children, full_path, relative_path, dir_id + 1, file_id);
            assert(nodes.take(children.len() as int) =~= nodes);
            assert(children.take(children.len() as int) =~= children);
        },
        EntryView::File { name } => {},
    }
}

/// The same of the nodes made of the first `n` entries of a directory.
pub proof fn lemma_index_entries(
    entries: Seq<EntryView>,
    parent_full: Seq<char>,
    parent_relative: Seq<char>,
    dir_id: nat,
    file_id: nat,
    root: Seq<char>,
    n: int,
)
    requires
        0 <= n <= entries.len(),
        join(root, parent_relative) == parent_full,
        dir_id + directories_in(entries) <= u32::MAX,
        file_id + files_in(entries) <= u32::MAX,
    ensures
        ({
            let nodes = index_entries(entries, parent_full, parent_relative, dir_id, file_id).take(
                n,
            );
            &&& directories_of(nodes).len() == directories_in(entries.take(n))
            &&& files_of(nodes).len() == files_in(entries.take(n))
            &&& forall|k: int|
                0 <= k < directories_of(nodes).len() ==> directory_in_place(
                    #[trigger] directories_of(nodes)[k],
                    root,
                    dir_id + k,
                )
            &&& forall|k: int|
                0 <= k < files_of(nodes).len() ==> file_in_place(
                    #[trigger] files_of(nodes)[k],
                    root,
                    file_id + k,
                )
        }),
    decreases entries, n,
{
    let all = index_entries(entries, parent_full, parent_relative, dir_id, file_id);
    let nodes = all.take(n);
    if n == 0 {
        assert(entries.take(0) =~= Seq::empty());
    } else {
        let entry = entries[n - 1];
        let before = all.take(n - 1);
        let dirs_before = directories_in(entries.take(n - 1));
        let files_before = files_in(entries.take(n - 1));
        lemma_index_entries(entries, parent_full, parent_relative, dir_id, file_id, root, n - 1);
        lemma_counts_of_front(entries, n - 1);
        lemma_counts_of_front(entries, n);
        lemma_join_associative(root, parent_relative, entry.name());
        lemma_index_entry(
            entry,
            join(parent_full, entry.name()),
            join(parent_relative, entry.name()),
            dir_id + dirs_before,
            file_id + files_before,
            root,
        );
        assert(nodes.drop_last() =~= before);
        let node = nodes.last();
        assert(node == all[n - 1]);
        assert(directories_of(nodes) == directories_of(before) + node.directories());
        assert(files_of(nodes) == files_of(before) + node.files());
        assert forall|k: int| 0 <= k < directories_of(nodes).len() implies directory_in_place(
            #[trigger] directories_of(nodes)[k],
            root,
            dir_id + k,
        ) by {
            if k >= dirs_before {
                assert(directories_of(nodes)[k] == node.directories()[k - dirs_before]);
            } else {
                assert(directories_of(nodes)[k] == directories_of(before)[k]);
            }
        }
        assert forall|k: int| 0 <= k < files_of(nodes).len() implies file_in_place(
            #[trigger] files_of(nodes)[k],
            root,
            file_id + k,
        ) by {
            if k >= files_before {
                assert(files_of(nodes)[k] == node.files()[k - files_before]);
            } else {
                assert(files_of(nodes)[k] == files_of(before)[k]);
            }
        }
    }
}

/// Of every tree that indexing makes of a listing under `root_path`: the
/// `k`-th directory that a depth-first walk meets has the id `k`, and so has
/// the `k`-th file, the two kinds counted apart; so no two directories and
/// no two files share an id. Each node's full path is the root joined with
/// its relative path, its relative path is its full path without the root,
/// and its content type is that of its relative path.
pub proof fn lemma_indexed_tree(listing: EntryView, root_path: Seq<char>)
    requires
        listing.directory_count() <= u32::MAX,
        listing.file_count() <= u32::MAX,
    ensures
        ({
            let tree = index_entry(listing, root_path, Seq::empty(), 0, 0);
            &&& tree.directories().len() == listing.directory_count()
            &&& tree.files().len() == listing.file_count()
            &&& forall|k: int|
                0 <= k < tree.directories().len() ==> directory_in_place(
                    #[trigger] tree.directories()[k],
                    root_path,
                    k,
                )
            &&& forall|k: int|
                0 <= k < tree.files().len() ==> file_in_place(#[trigger] tree.files()[k], root_path, k)
            &&& forall|i: int, j: int|
                0 <= i < j < tree.directories().len() ==> (#[trigger] tree.directories()[i]).id != (
                #[trigger] tree.directories()[j]).id
            &&& forall|i: int, j: int|
                0 <= i < j < tree.files().len() ==> (#[trigger] tree.files()[i]).id != (
                #[trigger] tree.files()[j]).id
        }),
{
    lemma_index_entry(listing, root_path, Seq::empty(), 0, 0, root_path);
    let tree = index_entry(listing, root_path, Seq::empty(), 0, 0);
    assert forall|i: int, j: int| 0 <= i < j < tree.directories().len() implies (
    #[trigger] tree.directories()[i]).id != (#[trigger] tree.directories()[j]).id by {
        assert(directory_in_place(tree.directories()[i], root_path, i));
        assert(directory_in_place(tree.directories()[j], root_path, j));
    }
    assert forall|i: int, j: int| 0 <= i < j < tree.files().len() implies (
    #[trigger] tree.files()[i]).id != (#[trigger] tree.files()[j]).id by {
        assert(file_in_place(tree.files()[i], root_path, i));
        assert(file_in_place(tree.files()[j], root_path, j));
    }
}

/// Whether `result` is what indexing the listing `listing` of the directory
/// at `root_path` has to return.
pub open spec fn is_index_result(
    root_path: Seq<char>,
    listing: EntryView,
    result: Result<DirTree, Error>,
) -> bool {
    match listing {
        EntryView::Directory { name, children } => {
            &&& result matches Ok(tree)
            &&& tree@ == index_entry(listing, root_path, Seq::empty(), 0, 0)
            &&& well_indexed(tree@)
        },
        EntryView::File { name } => {
            &&& result matches Err(error)
            &&& error@ == (ErrorView {
                kind: ErrorKind::NotADirectory,
                description: not_a_directory_text(root_path),
                line_number: None,
            })
        },
    }
}

/// Indexing is a function of the root and the listing: to index the same
/// listing again gives the same tree, with the same ids.
pub proof fn lemma_indexing_is_determined(
    root_path: Seq<char>,
    listing: EntryView,
    first: Result<DirTree, Error>,
    second: Result<DirTree, Error>,
)
    requires
        is_index_result(root_path, listing, first),
        is_index_result(root_path, listing, second),
    ensures
        match (first, second) {
            (Ok(a), Ok(b)) => a@ == b@,
            (Err(a), Err(b)) => a@ == b@,
            _ => false,
        },
{
}

} // verus!
