//! The folders of images that an analysis runs on.
use crate::app::AppState;
use crate::app::AppView;
use crate::sorting::arrange;
use crate::sorting::arranged;
use crate::sorting::arranging_keeps_items;
use crate::sorting::order_exists;
use crate::sorting::order_is_arrangement;
use crate::sorting::order_of;
use crate::text::chars_of;
use crate::text::clone_texts;
use crate::text::count_text;
use crate::text::decimal;
use crate::text::join_text;
use crate::text::in_order;
use crate::text::joined;
use crate::text::lemma_sorted_in_order;
use crate::text::opt_text;
use crate::text::order_texts;
use crate::text::sort_texts;
use crate::text::sorted_texts;
use crate::text::sorting_keeps_texts;
use vstd::prelude::*;
use vstd::string::StringExecFns;

verus! {

/// A folder with its images and those of its subfolders that hold any.
#[derive(Debug)]
pub struct WorkspaceEntry {
    pub path: String,
    pub name: String,
    pub image_files: Vec<String>,
    pub run_enabled: bool,
    pub children: Vec<WorkspaceEntry>,
}

/// A folder with its texts and lists as sequences.
pub struct EntryView {
    pub path: Seq<char>,
    pub name: Seq<char>,
    pub image_files: Seq<Seq<char>>,
    pub run_enabled: bool,
    pub children: Seq<EntryView>,
}

impl WorkspaceEntry {
    /// The folder with its texts and lists as sequences.
    pub open spec fn view(&self) -> EntryView
        decreases *self,
    {
        EntryView {
            path: self.path@,
            name: self.name@,
            image_files: self.image_files@.map_values(|f: String| f@),
            run_enabled: self.run_enabled,
            children: Seq::new(
                self.children@.len(),
                |i: int|
                    if 0 <= i < self.children@.len() {
                        self.children@[i].view()
                    } else {
                        arbitrary()
                    },
            ),
        }
    }
}

/// Folders with their texts and lists as sequences.
pub open spec fn entry_views(entries: Seq<WorkspaceEntry>) -> Seq<EntryView> {
    entries.map_values(|e: WorkspaceEntry| e@)
}

/// The children of a folder are viewed one by one.
proof fn lemma_children_view(e: WorkspaceEntry)
    ensures
        e@.children == entry_views(e.children@),
{
    assert(e@.children =~= entry_views(e.children@));
}

/// The folder and all below it, switched on or off.
pub open spec fn with_enabled(e: EntryView, enabled: bool) -> EntryView
    decreases e,
{
    EntryView {
        run_enabled: enabled,
        children: Seq::new(
            e.children.len(),
            |i: int|
                if 0 <= i < e.children.len() {
                    with_enabled(e.children[i], enabled)
                } else {
                    arbitrary()
                },
        ),
        ..e
    }
}

/// How many images a folder and those below it hold.
pub open spec fn images_in(e: EntryView) -> nat
    decreases e,
{
    e.image_files.len() + images_in_all(e.children)
}

/// How many images some folders and those below them hold.
pub open spec fn images_in_all(es: Seq<EntryView>) -> nat
    decreases es,
{
    if es.len() == 0 {
        0
    } else {
        images_in_all(es.drop_last()) + images_in(es.last())
    }
}

proof fn lemma_images_monotone(es: Seq<EntryView>, i: int)
    requires
        0 <= i <= es.len(),
    ensures
        images_in_all(es.take(i)) <= images_in_all(es),
    decreases es.len() - i,
{
    if i == es.len() {
        assert(es.take(i) =~= es);
    } else {
        assert(es.take(i + 1).drop_last() =~= es.take(i));
        lemma_images_monotone(es, i + 1);
    }
}

impl WorkspaceEntry {
    /// Switches the folder and all below it on or off.
    pub fn set_run_enabled_recursive(&mut self, enabled: bool)
        ensures
            final(self)@ == with_enabled(old(self)@, enabled),
        decreases *old(self),
    {
        let ghost start = *self;
        self.run_enabled = enabled;
        let n: usize = self.children.len();
        let mut i: usize = 0;
        while i < n
            invariant
                i <= n,
                n == self.children@.len(),
                n == start.children@.len(),
                start == *old(self),
                self.path == start.path,
                self.name == start.name,
                self.image_files == start.image_files,
                self.run_enabled == enabled,
                forall|k: int|
                    0 <= k < i ==> (#[trigger] self.children@[k])@ == with_enabled(start.children@[k]@, enabled),
                forall|k: int| i <= k < n ==> (#[trigger] self.children@[k]) == start.children@[k],
            decreases n - i,
        {
            assert(self.children@[i as int] == start.children@[i as int]);
            let child = &mut self.children[i];
            child.set_run_enabled_recursive(enabled);
            i += 1;
        }
        proof {
            assert(self@.children =~= with_enabled(start@, enabled).children);
        }
    }

    /// How many images the folder and those below it hold.
    pub fn total_images(&self) -> (r: usize)
        requires
            images_in(self@) <= usize::MAX,
        ensures
            r == images_in(self@),
        decreases self,
    {
        let n: usize = self.children.len();
        let mut total: usize = self.image_files.len();
        proof {
            assert(self@.children.len() == n);
            assert(self@.children.take(0) =~= Seq::empty());
        }
        let mut i: usize = 0;
        while i < n
            invariant
                i <= n,
                n == self.children@.len(),
                n == self@.children.len(),
                images_in(self@) <= usize::MAX,
                total == self@.image_files.len() + images_in_all(self@.children.take(i as int)),
            decreases n - i,
        {
            proof {
                let es = self@.children;
                assert(es.take(i + 1).drop_last() =~= es.take(i as int));
                assert(es.take(i + 1).last() == es[i as int]);
                assert(es[i as int] == self.children@[i as int]@);
                lemma_images_monotone(es, i + 1);
            }
            total += self.children[i].total_images();
            i += 1;
        }
        assert(self@.children.take(n as int) =~= self@.children);
        total
    }
}

proof fn lemma_same_images_all(a: Seq<EntryView>, b: Seq<EntryView>, enabled: bool)
    requires
        a.len() == b.len(),
        forall|i: int| 0 <= i < a.len() ==> (#[trigger] b[i]) == with_enabled(a[i], enabled),
    ensures
        images_in_all(b) == images_in_all(a),
    decreases a,
{
    if a.len() > 0 {
        let n = a.len() - 1;
        assert forall|i: int| 0 <= i < n implies (#[trigger] b.drop_last()[i]) == with_enabled(a.drop_last()[i], enabled) by {
            assert(b[i] == with_enabled(a[i], enabled));
        }
        lemma_same_images_all(a.drop_last(), b.drop_last(), enabled);
        assert(b[n] == with_enabled(a[n], enabled));
        switching_keeps_images(a.last(), enabled);
    }
}

/// Switching a folder on or off does not change which images it holds.
pub proof fn switching_keeps_images(e: EntryView, enabled: bool)
    ensures
        images_in(with_enabled(e, enabled)) == images_in(e),
    decreases e,
{
    lemma_same_images_all(e.children, with_enabled(e, enabled).children, enabled);
}

/// A file of a folder.
#[derive(Debug)]
pub struct FileListing {
    pub path: String,
    pub extension: Option<String>,
}

/// What a folder holds, as found on disk.
#[derive(Debug)]
pub struct DirListing {
    pub path: String,
    pub name: Option<String>,
    pub files: Vec<FileListing>,
    pub dirs: Vec<DirListing>,
}

/// A file with its texts as sequences.
pub struct FileView {
    pub path: Seq<char>,
    pub extension: Option<Seq<char>>,
}

/// A listing with its texts and lists as sequences.
pub struct DirView {
    pub path: Seq<char>,
    pub name: Option<Seq<char>>,
    pub files: Seq<FileView>,
    pub dirs: Seq<DirView>,
}

impl FileListing {
    /// The file with its texts as sequences.
    pub open spec fn view(&self) -> FileView {
        FileView { path: self.path@, extension: opt_text(self.extension) }
    }
}

impl DirListing {
    /// The listing with its texts and lists as sequences.
    pub open spec fn view(&self) -> DirView
        decreases *self,
    {
        DirView {
            path: self.path@,
            name: opt_text(self.name),
            files: self.files@.map_values(|f: FileListing| f@),
            dirs: Seq::new(
                self.dirs@.len(),
                |i: int|
                    if 0 <= i < self.dirs@.len() {
                        self.dirs@[i].view()
                    } else {
                        arbitrary()
                    },
            ),
        }
    }
}

/// `text` is `word`, whose letters are small, but for capital letters.
pub open spec fn case_blind(text: Seq<char>, word: Seq<char>) -> bool {
    &&& text.len() == word.len()
    &&& forall|i: int|
        0 <= i < text.len() ==> (#[trigger] text[i]) == word[i] || ('A' <= text[i] <= 'Z' && text[i] as int + 32
            == word[i] as int)
}

/// The extension is that of an image. No character but a capital letter turns into a
/// letter of these words when it is put in lower case.
pub open spec fn image_extension(ext: Seq<char>) -> bool {
    ||| case_blind(ext, "tif"@)
    ||| case_blind(ext, "tiff"@)
    ||| case_blind(ext, "png"@)
    ||| case_blind(ext, "jpg"@)
    ||| case_blind(ext, "jpeg"@)
}

/// Whether the character is the small letter or its capital.
fn same_letter(c: char, small: char) -> (r: bool)
    ensures
        r == (c == small || ('A' <= c <= 'Z' && c as int + 32 == small as int)),
{
    c == small || ('A' <= c && c <= 'Z' && c as u32 + 32 == small as u32)
}

/// Whether `text` is `word` but for capital letters.
fn equals_word(text: &Vec<char>, word: &str) -> (r: bool)
    ensures
        r == case_blind(text@, word@),
{
    let letters = chars_of(word);
    let n: usize = text.len();
    if n != letters.len() {
        return false;
    }
    let mut i: usize = 0;
    while i < n
        invariant
            i <= n,
            n == text@.len(),
            n == letters@.len(),
            letters@ == word@,
            forall|k: int|
                0 <= k < i ==> (#[trigger] text@[k]) == word@[k] || ('A' <= text@[k] <= 'Z' && text@[k] as int + 32
                    == word@[k] as int),
        decreases n - i,
    {
        if !same_letter(text[i], letters[i]) {
            assert(!(text@[i as int] == word@[i as int] || ('A' <= text@[i as int] <= 'Z' && text@[i as int] as int + 32
                == word@[i as int] as int)));
            return false;
        }
        i += 1;
    }
    true
}

/// Whether the extension is that of an image.
pub fn is_image_extension(ext: &String) -> (r: bool)
    ensures
        r == image_extension(ext@),
{
    let text = chars_of(ext.as_str());
    equals_word(&text, "tif") || equals_word(&text, "tiff") || equals_word(&text, "png") || equals_word(&text, "jpg")
        || equals_word(&text, "jpeg")
}

/// The file is an image.
pub open spec fn is_image(f: FileView) -> bool {
    f.extension matches Some(ext) && image_extension(ext)
}

/// The paths of the images among some files.
pub open spec fn image_paths(files: Seq<FileView>) -> Seq<Seq<char>>
    decreases files.len(),
{
    if files.len() == 0 {
        Seq::empty()
    } else if is_image(files.last()) {
        image_paths(files.drop_last()).push(files.last().path)
    } else {
        image_paths(files.drop_last())
    }
}

/// How deep folders are followed.
pub const MAX_DEPTH: usize = 5;

/// The folder holds an image, itself or below it.
pub open spec fn holds_any(e: EntryView) -> bool {
    e.image_files.len() > 0 || e.children.len() > 0
}

/// The names of some folders.
pub open spec fn names_of(es: Seq<EntryView>) -> Seq<Seq<char>> {
    es.map_values(|e: EntryView| e.name)
}

/// The folders by name.
pub open spec fn by_name(es: Seq<EntryView>) -> Seq<EntryView> {
    arranged(es, order_of(names_of(es)))
}

/// The entry of a folder found at the given depth: its images sorted by path, and those
/// of its subfolders that hold any image sorted by name, to the depth that is followed.
pub open spec fn entry_of(d: DirView, depth: nat) -> EntryView
    decreases d,
{
    EntryView {
        path: d.path,
        name: match d.name {
            Some(name) => name,
            None => "folder"@,
        },
        image_files: sorted_texts(image_paths(d.files)),
        run_enabled: true,
        children: if depth < MAX_DEPTH {
            by_name(entries_kept(d.dirs, depth + 1))
        } else {
            Seq::empty()
        },
    }
}

/// The entries of those of the folders that hold any image.
pub open spec fn entries_kept(dirs: Seq<DirView>, depth: nat) -> Seq<EntryView>
    decreases dirs,
{
    if dirs.len() == 0 {
        Seq::empty()
    } else {
        let e = entry_of(dirs.last(), depth);
        if holds_any(e) {
            entries_kept(dirs.drop_last(), depth).push(e)
        } else {
            entries_kept(dirs.drop_last(), depth)
        }
    }
}

/// No folder lies more than `n` below this one.
pub open spec fn within_depth(e: EntryView, n: int) -> bool
    decreases e,
{
    &&& n >= 0
    &&& forall|i: int| 0 <= i < e.children.len() ==> within_depth(#[trigger] e.children[i], n - 1)
}

/// Collects the images of a folder.
fn collect_images(dir: &DirListing) -> (r: Vec<String>)
    ensures
        r@.map_values(|t: String| t@) == image_paths(dir@.files),
{
    let mut out: Vec<String> = Vec::new();
    let n: usize = dir.files.len();
    let mut i: usize = 0;
    while i < n
        invariant
            i <= n,
            n == dir.files@.len(),
            out@.map_values(|t: String| t@) == image_paths(dir@.files.take(i as int)),
        decreases n - i,
    {
        let f = &dir.files[i];
        proof {
            assert(dir@.files.take(i + 1).drop_last() =~= dir@.files.take(i as int));
            assert(dir@.files.take(i + 1).last() == f@);
        }
        let ghost was = out@;
        if let Some(ext) = &f.extension {
            if is_image_extension(ext) {
                out.push(f.path.clone());
                assert(out@.map_values(|t: String| t@) =~= was.map_values(|t: String| t@).push(f.path@));
            }
        }
        i += 1;
    }
    assert(dir@.files.take(n as int) =~= dir@.files);
    out
}

/// Sorts folders by name.
fn sort_entries(entries: Vec<WorkspaceEntry>) -> (r: Vec<WorkspaceEntry>)
    ensures
        entry_views(r@) == by_name(entry_views(entries@)),
        forall|i: int| 0 <= i < r@.len() ==> entries@.contains(#[trigger] r@[i]),
        in_order(names_of(entry_views(r@))),
{
    let ghost views = entry_views(entries@);
    let mut names: Vec<String> = Vec::new();
    let n: usize = entries.len();
    let mut i: usize = 0;
    while i < n
        invariant
            i <= n,
            n == entries@.len(),
            names@.len() == i,
            forall|k: int| 0 <= k < i ==> (#[trigger] names@[k])@ == entries@[k].name@,
        decreases n - i,
    {
        names.push(entries[i].name.clone());
        i += 1;
    }
    assert(names@.map_values(|t: String| t@) =~= names_of(views));
    let order = order_texts(&names);
    let r = arrange(entries, &order);
    proof {
        assert(entry_views(r@) =~= by_name(views));
        assert forall|i: int| 0 <= i < r@.len() implies entries@.contains(#[trigger] r@[i]) by {
            assert(r@[i] == entries@[order@[i] as int]);
        }
        assert(names_of(entry_views(r@)) =~= sorted_texts(names_of(views)));
        lemma_sorted_in_order(names_of(views), order@);
    }
    r
}

/// Makes the entry of a folder: its images and those of its subfolders that hold any.
/// The images and the subfolders are in order, no subfolder is without an image, and
/// none lies deeper than folders are followed.
pub fn build_workspace_entry(dir: &DirListing, depth: usize) -> (r: WorkspaceEntry)
    ensures
        r@ == entry_of(dir@, depth as nat),
        in_order(r@.image_files),
        in_order(names_of(r@.children)),
        holds_any(r@) ==> images_in(r@) > 0,
        forall|i: int| 0 <= i < r@.children.len() ==> images_in(#[trigger] r@.children[i]) > 0,
        depth <= MAX_DEPTH ==> within_depth(r@, MAX_DEPTH - depth),
        r.path@ == dir.path@,
        dir.name matches Some(name) ==> r.name@ == name@,
        dir.name is None ==> r.name@ == "folder"@,
        r.run_enabled,
        depth >= 5 ==> r.children@.len() == 0,
    decreases dir,
{
    let name: String = match &dir.name {
        Some(name) => name.clone(),
        None => "folder".to_owned(),
    };
    let image_files = sort_texts(collect_images(dir));
    let mut children: Vec<WorkspaceEntry> = Vec::new();
    if depth < MAX_DEPTH {
        let n: usize = dir.dirs.len();
        let mut i: usize = 0;
        assert(dir@.dirs.len() == n);
        assert(entry_views(children@) =~= entries_kept(dir@.dirs.take(0), (depth + 1) as nat));
        while i < n
            invariant
                i <= n,
                depth < MAX_DEPTH,
                n == dir.dirs@.len(),
                n == dir@.dirs.len(),
                entry_views(children@) == entries_kept(dir@.dirs.take(i as int), (depth + 1) as nat),
                forall|k: int|
                    0 <= k < children@.len() ==> images_in((#[trigger] children@[k])@) > 0 && within_depth(
                        children@[k]@,
                        MAX_DEPTH - depth - 1,
                    ),
            decreases n - i,
        {
            proof {
                let ds = dir@.dirs;
                assert(ds.take(i + 1).drop_last() =~= ds.take(i as int));
                assert(ds.take(i + 1).last() == ds[i as int]);
                assert(ds[i as int] == dir.dirs@[i as int]@);
            }
            let child = build_workspace_entry(&dir.dirs[i], depth + 1);
            proof {
                lemma_children_view(child);
                assert(child@.image_files.len() == child.image_files.len());
                assert(child@.children.len() == child.children.len());
            }
            let ghost was = children@;
            if child.image_files.len() > 0 || child.children.len() > 0 {
                children.push(child);
                assert(entry_views(children@) =~= entry_views(was).push(child@));
            }
            i += 1;
        }
        assert(dir@.dirs.take(n as int) =~= dir@.dirs);
        let ghost was = children@;
        children = sort_entries(children);
        assert forall|k: int| 0 <= k < children@.len() implies images_in((#[trigger] children@[k])@) > 0 && within_depth(
            children@[k]@,
            MAX_DEPTH - depth - 1,
        ) by {
            assert(was.contains(children@[k]));
        }
    }
    let r = WorkspaceEntry { path: dir.path.clone(), name, image_files, run_enabled: true, children };
    proof {
        lemma_children_view(r);
        if r@.children.len() > 0 {
            let last = r@.children.len() - 1;
            assert(r@.children[last] == r.children@[last]@);
            assert(images_in(r.children@[last]@) > 0);
        }
        assert forall|i: int| 0 <= i < r@.children.len() implies images_in(#[trigger] r@.children[i]) > 0 && within_depth(
            r@.children[i],
            MAX_DEPTH - depth - 1,
        ) by {
            assert(r@.children[i] == r.children@[i]@);
        }
        if depth >= MAX_DEPTH {
            assert(r@.children =~= Seq::empty());
        }
    }
    r
}

/// A folder to run on.
#[derive(Debug)]
pub struct Folder {
    pub path: String,
    pub name: String,
    pub files: Vec<String>,
}

/// A folder to run on, with its texts as sequences.
pub struct FolderView {
    pub path: Seq<char>,
    pub name: Seq<char>,
    pub files: Seq<Seq<char>>,
}

impl View for Folder {
    type V = FolderView;

    open spec fn view(&self) -> FolderView {
        FolderView { path: self.path@, name: self.name@, files: self.files@.map_values(|f: String| f@) }
    }
}

/// Folders with their texts as sequences.
pub open spec fn folder_views(folders: Seq<Folder>) -> Seq<FolderView> {
    folders.map_values(|f: Folder| f@)
}

/// The folder itself, where it is switched on and holds images.
pub open spec fn own_folder(e: EntryView) -> Seq<FolderView> {
    if e.run_enabled && e.image_files.len() > 0 {
        seq![FolderView { path: e.path, name: e.name, files: e.image_files }]
    } else {
        Seq::empty()
    }
}

/// The folders to run on: a folder before those below it.
pub open spec fn folders_in(e: EntryView) -> Seq<FolderView>
    decreases e,
{
    own_folder(e) + folders_in_all(e.children)
}

/// The folders to run on, of some folders and those below them.
pub open spec fn folders_in_all(es: Seq<EntryView>) -> Seq<FolderView>
    decreases es,
{
    if es.len() == 0 {
        Seq::empty()
    } else {
        folders_in_all(es.drop_last()) + folders_in(es.last())
    }
}

/// Adds the folders to run on to `folders`.
fn collect_folders(entry: &WorkspaceEntry, folders: &mut Vec<Folder>)
    ensures
        folder_views(final(folders)@) == folder_views(old(folders)@) + folders_in(entry@),
    decreases entry,
{
    let ghost start = folder_views(folders@);
    proof {
        lemma_children_view(*entry);
        assert(entry@.image_files.len() == entry.image_files.len());
    }
    if entry.run_enabled && entry.image_files.len() > 0 {
        let folder = Folder {
            path: entry.path.clone(),
            name: entry.name.clone(),
            files: clone_texts(&entry.image_files),
        };
        folders.push(folder);
        assert(folder_views(folders@) =~= start.push(folder@));
    }
    assert(folder_views(folders@) =~= start + own_folder(entry@));
    let n: usize = entry.children.len();
    let mut i: usize = 0;
    assert(folder_views(folders@) =~= start + own_folder(entry@) + folders_in_all(entry@.children.take(0)));
    while i < n
        invariant
            i <= n,
            n == entry.children@.len(),
            entry@.children == entry_views(entry.children@),
            folder_views(folders@) == start + own_folder(entry@) + folders_in_all(entry@.children.take(i as int)),
        decreases n - i,
    {
        proof {
            let es = entry@.children;
            assert(es.take(i + 1).drop_last() =~= es.take(i as int));
            assert(es.take(i + 1).last() == entry.children@[i as int]@);
        }
        collect_folders(&entry.children[i], folders);
        assert(folder_views(folders@) =~= start + own_folder(entry@) + folders_in_all(entry@.children.take(i + 1)));
        i += 1;
    }
    assert(entry@.children.take(n as int) =~= entry@.children);
    assert(folder_views(folders@) =~= start + folders_in(entry@));
}

/// The folders of the workspace to run on.
pub fn folders_to_run(workspace: &Vec<WorkspaceEntry>) -> (folders: Vec<Folder>)
    ensures
        folder_views(folders@) == folders_in_all(entry_views(workspace@)),
{
    let ghost es = entry_views(workspace@);
    let mut folders: Vec<Folder> = Vec::new();
    let n: usize = workspace.len();
    let mut i: usize = 0;
    assert(folder_views(folders@) =~= folders_in_all(es.take(0)));
    while i < n
        invariant
            i <= n,
            n == workspace@.len(),
            es == entry_views(workspace@),
            folder_views(folders@) == folders_in_all(es.take(i as int)),
        decreases n - i,
    {
        proof {
            assert(es.take(i + 1).drop_last() =~= es.take(i as int));
            assert(es.take(i + 1).last() == workspace@[i as int]@);
        }
        collect_folders(&workspace[i], &mut folders);
        i += 1;
    }
    assert(es.take(n as int) =~= es);
    folders
}

/// Whether the folder or one below it is to be run on.
pub fn any_enabled(entry: &WorkspaceEntry) -> (r: bool)
    ensures
        r == (folders_in(entry@).len() > 0),
    decreases entry,
{
    proof {
        lemma_children_view(*entry);
        assert(entry@.image_files.len() == entry.image_files.len());
    }
    if entry.run_enabled && entry.image_files.len() > 0 {
        return true;
    }
    let n: usize = entry.children.len();
    let mut i: usize = 0;
    assert(entry@.children.take(0) =~= Seq::empty());
    while i < n
        invariant
            i <= n,
            n == entry.children@.len(),
            entry@.children == entry_views(entry.children@),
            own_folder(entry@).len() == 0,
            folders_in_all(entry@.children.take(i as int)).len() == 0,
        decreases n - i,
    {
        proof {
            let es = entry@.children;
            assert(es.take(i + 1).drop_last() =~= es.take(i as int));
            assert(es.take(i + 1).last() == entry.children@[i as int]@);
        }
        if any_enabled(&entry.children[i]) {
            proof {
                lemma_folders_monotone(entry@.children, i + 1);
            }
            return true;
        }
        i += 1;
    }
    assert(entry@.children.take(n as int) =~= entry@.children);
    false
}

proof fn lemma_folders_monotone(es: Seq<EntryView>, i: int)
    requires
        0 <= i <= es.len(),
    ensures
        folders_in_all(es.take(i)).len() <= folders_in_all(es).len(),
    decreases es.len() - i,
{
    if i == es.len() {
        assert(es.take(i) =~= es);
    } else {
        assert(es.take(i + 1).drop_last() =~= es.take(i));
        lemma_folders_monotone(es, i + 1);
    }
}

/// Whether any folder of the workspace is to be run on.
pub fn any_to_run(workspace: &Vec<WorkspaceEntry>) -> (r: bool)
    ensures
        r == (folders_in_all(entry_views(workspace@)).len() > 0),
{
    let ghost es = entry_views(workspace@);
    let n: usize = workspace.len();
    let mut i: usize = 0;
    assert(es.take(0) =~= Seq::empty());
    while i < n
        invariant
            i <= n,
            n == workspace@.len(),
            es == entry_views(workspace@),
            folders_in_all(es.take(i as int)).len() == 0,
        decreases n - i,
    {
        proof {
            assert(es.take(i + 1).drop_last() =~= es.take(i as int));
            assert(es.take(i + 1).last() == workspace@[i as int]@);
        }
        if any_enabled(&workspace[i]) {
            proof {
                lemma_folders_monotone(es, i + 1);
            }
            return true;
        }
        i += 1;
    }
    assert(es.take(n as int) =~= es);
    false
}

/// How many images some folders to run on hold.
pub open spec fn files_in(folders: Seq<FolderView>) -> nat
    decreases folders.len(),
{
    if folders.len() == 0 {
        0
    } else {
        files_in(folders.drop_last()) + folders.last().files.len()
    }
}

proof fn lemma_files_split(a: Seq<FolderView>, b: Seq<FolderView>)
    ensures
        files_in(a + b) == files_in(a) + files_in(b),
    decreases b.len(),
{
    if b.len() == 0 {
        assert(a + b =~= a);
    } else {
        assert((a + b).drop_last() =~= a + b.drop_last());
        lemma_files_split(a, b.drop_last());
    }
}

proof fn lemma_switched_all(a: Seq<EntryView>, b: Seq<EntryView>, enabled: bool)
    requires
        a.len() == b.len(),
        forall|i: int| 0 <= i < a.len() ==> (#[trigger] b[i]) == with_enabled(a[i], enabled),
    ensures
        enabled ==> files_in(folders_in_all(b)) == images_in_all(a),
        !enabled ==> folders_in_all(b).len() == 0,
    decreases a,
{
    if a.len() > 0 {
        let n = a.len() - 1;
        assert forall|i: int| 0 <= i < n implies (#[trigger] b.drop_last()[i]) == with_enabled(a.drop_last()[i], enabled) by {
            assert(b[i] == with_enabled(a[i], enabled));
        }
        lemma_switched_all(a.drop_last(), b.drop_last(), enabled);
        assert(b[n] == with_enabled(a[n], enabled));
        switching_decides_run(a.last(), enabled);
        lemma_files_split(folders_in_all(b.drop_last()), folders_in(b.last()));
    }
}

/// A folder that is switched on is run on with every image it holds, its subfolders
/// included; of one that is switched off nothing is run on.
pub proof fn switching_decides_run(e: EntryView, enabled: bool)
    ensures
        enabled ==> files_in(folders_in(with_enabled(e, enabled))) == images_in(e),
        !enabled ==> folders_in(with_enabled(e, enabled)).len() == 0,
    decreases e,
{
    let f = with_enabled(e, enabled);
    lemma_switched_all(e.children, f.children, enabled);
    lemma_files_split(own_folder(f), folders_in_all(f.children));
    let own = own_folder(f);
    if own.len() > 0 {
        assert(own.drop_last() =~= Seq::empty());
        assert(files_in(own.drop_last()) == 0);
    }
}

/// What comes of adding folders: the workspace, how many folders and images were
/// added, and what is said of those that were not.
pub struct Adding {
    pub workspace: Seq<EntryView>,
    pub added: nat,
    pub images: nat,
    pub skipped: Seq<Seq<char>>,
}

/// A folder of the workspace has this path.
pub open spec fn has_path(workspace: Seq<EntryView>, path: Seq<char>) -> bool {
    exists|i: int| 0 <= i < workspace.len() && (#[trigger] workspace[i]).path == path
}

/// Adding one folder more. One that is there already is skipped, and so is one that
/// holds no image.
pub open spec fn add_one(a: Adding, d: DirView) -> Adding {
    let e = entry_of(d, 0);
    if has_path(a.workspace, d.path) {
        Adding { skipped: a.skipped.push("already in workspace: "@ + d.path), ..a }
    } else if !holds_any(e) {
        Adding { skipped: a.skipped.push("no images in "@ + d.path), ..a }
    } else {
        Adding {
            workspace: a.workspace.push(e),
            added: a.added + 1,
            images: a.images + images_in(e),
            skipped: a.skipped,
        }
    }
}

/// Adding folders one after the other.
pub open spec fn add_all(workspace: Seq<EntryView>, picked: Seq<DirView>) -> Adding
    decreases picked.len(),
{
    if picked.len() == 0 {
        Adding { workspace, added: 0, images: 0, skipped: Seq::empty() }
    } else {
        add_one(add_all(workspace, picked.drop_last()), picked.last())
    }
}

/// What is said after folders were added; nothing where none was picked.
pub open spec fn adding_status(a: Adding) -> Option<Seq<char>> {
    let counts = "Added "@ + decimal(a.added) + " folder(s), "@ + decimal(a.images) + " images"@;
    if a.added == 0 {
        if a.skipped.len() == 0 {
            None
        } else {
            Some(joined(a.skipped, "; "@))
        }
    } else if a.skipped.len() == 0 {
        Some(counts)
    } else {
        Some(counts + " ("@ + joined(a.skipped, "; "@) + ")"@)
    }
}

/// Listings with their texts and lists as sequences.
pub open spec fn dir_views(dirs: Seq<DirListing>) -> Seq<DirView> {
    dirs.map_values(|d: DirListing| d@)
}

/// Whether a folder of the workspace has this path.
fn is_listed(workspace: &Vec<WorkspaceEntry>, path: &String) -> (r: bool)
    ensures
        r == has_path(entry_views(workspace@), path@),
{
    let n: usize = workspace.len();
    let mut i: usize = 0;
    while i < n
        invariant
            i <= n,
            n == workspace@.len(),
            forall|k: int| 0 <= k < i ==> (#[trigger] entry_views(workspace@)[k]).path != path@,
        decreases n - i,
    {
        assert(entry_views(workspace@)[i as int] == workspace@[i as int]@);
        if workspace[i].path == *path {
            return true;
        }
        i += 1;
    }
    false
}

/// Two texts, one after the other.
fn concat(a: &str, b: &str) -> (r: String)
    ensures
        r@ == a@ + b@,
{
    let mut r = a.to_owned();
    r.append(b);
    r
}

proof fn lemma_adding_bounds(workspace: Seq<EntryView>, picked: Seq<DirView>, i: int)
    requires
        0 <= i <= picked.len(),
    ensures
        add_all(workspace, picked.take(i)).images <= add_all(workspace, picked).images,
        add_all(workspace, picked.take(i)).added <= i,
    decreases picked.len() - i,
{
    lemma_added_bound(workspace, picked.take(i));
    if i == picked.len() {
        assert(picked.take(i) =~= picked);
    } else {
        assert(picked.take(i + 1).drop_last() =~= picked.take(i));
        lemma_adding_bounds(workspace, picked, i + 1);
    }
}

proof fn lemma_added_bound(workspace: Seq<EntryView>, picked: Seq<DirView>)
    ensures
        add_all(workspace, picked).added <= picked.len(),
    decreases picked.len(),
{
    if picked.len() > 0 {
        lemma_added_bound(workspace, picked.drop_last());
    }
}

/// Adds the picked folders to the workspace, and says what came of it.
pub fn add_folders(workspace: &mut Vec<WorkspaceEntry>, picked: &Vec<DirListing>) -> (status: Option<String>)
    requires
        add_all(entry_views(old(workspace)@), dir_views(picked@)).images <= usize::MAX,
    ensures
        entry_views(final(workspace)@) == add_all(entry_views(old(workspace)@), dir_views(picked@)).workspace,
        opt_text(status) == adding_status(add_all(entry_views(old(workspace)@), dir_views(picked@))),
{
    let ghost start = entry_views(workspace@);
    let ghost dirs = dir_views(picked@);
    let mut added: usize = 0;
    let mut images: usize = 0;
    let mut skipped: Vec<String> = Vec::new();
    let n: usize = picked.len();
    let mut i: usize = 0;
    assert(skipped@.map_values(|t: String| t@) =~= Seq::empty());
    while i < n
        invariant
            i <= n,
            n == picked@.len(),
            dirs == dir_views(picked@),
            add_all(start, dirs).images <= usize::MAX,
            entry_views(workspace@) == add_all(start, dirs.take(i as int)).workspace,
            added == add_all(start, dirs.take(i as int)).added,
            added <= i,
            images == add_all(start, dirs.take(i as int)).images,
            skipped@.map_values(|t: String| t@) == add_all(start, dirs.take(i as int)).skipped,
        decreases n - i,
    {
        let d = &picked[i];
        let ghost was = skipped@.map_values(|t: String| t@);
        let ghost then = entry_views(workspace@);
        proof {
            assert(dirs.take(i + 1).drop_last() =~= dirs.take(i as int));
            assert(dirs.take(i + 1).last() == d@);
            lemma_adding_bounds(start, dirs, i + 1);
        }
        if is_listed(workspace, &d.path) {
            skipped.push(concat("already in workspace: ", d.path.as_str()));
            assert(skipped@.map_values(|t: String| t@) =~= was.push("already in workspace: "@ + d@.path));
        } else {
            let entry = build_workspace_entry(d, 0);
            proof {
                lemma_children_view(entry);
                assert(entry@.image_files.len() == entry.image_files.len());
            }
            if entry.image_files.len() == 0 && entry.children.len() == 0 {
                skipped.push(concat("no images in ", d.path.as_str()));
                assert(skipped@.map_values(|t: String| t@) =~= was.push("no images in "@ + d@.path));
            } else {
                images += entry.total_images();
                added += 1;
                workspace.push(entry);
                assert(entry_views(workspace@) =~= then.push(entry@));
            }
        }
        i += 1;
    }
    assert(dirs.take(n as int) =~= dirs);
    if added == 0 {
        if skipped.len() == 0 {
            None
        } else {
            Some(join_text(&skipped, "; "))
        }
    } else {
        let mut text = "Added ".to_owned();
        text.append(count_text(added).as_str());
        text.append(" folder(s), ");
        text.append(count_text(images).as_str());
        text.append(" images");
        if skipped.len() > 0 {
            text.append(" (");
            text.append(join_text(&skipped, "; ").as_str());
            text.append(")");
        }
        Some(text)
    }
}

/// No two folders of the workspace have the same path.
pub open spec fn paths_differ(workspace: Seq<EntryView>) -> bool {
    forall|i: int, j: int|
        0 <= i < j < workspace.len() ==> (#[trigger] workspace[i]).path != (#[trigger] workspace[j]).path
}

/// Adding folders never puts the same folder into the workspace twice, keeps what is in
/// it, and accounts for every folder that was picked.
pub proof fn adding_keeps_paths_apart(workspace: Seq<EntryView>, picked: Seq<DirView>)
    requires
        paths_differ(workspace),
    ensures
        paths_differ(add_all(workspace, picked).workspace),
        add_all(workspace, picked).workspace.take(workspace.len() as int) == workspace,
        add_all(workspace, picked).workspace.len() == workspace.len() + add_all(workspace, picked).added,
        add_all(workspace, picked).added + add_all(workspace, picked).skipped.len() == picked.len(),
    decreases picked.len(),
{
    let now = add_all(workspace, picked).workspace;
    if picked.len() == 0 {
        assert(now.take(workspace.len() as int) =~= workspace);
    } else {
        adding_keeps_paths_apart(workspace, picked.drop_last());
        let then = add_all(workspace, picked.drop_last()).workspace;
        assert(now.take(workspace.len() as int) =~= then.take(workspace.len() as int));
    }
}

/// Adding a folder again changes nothing.
pub proof fn adding_again_changes_nothing(workspace: Seq<EntryView>, d: DirView)
    requires
        has_path(workspace, d.path),
    ensures
        add_all(workspace, seq![d]).workspace == workspace,
        adding_status(add_all(workspace, seq![d])) == Some("already in workspace: "@ + d.path),
{
    let picked = seq![d];
    assert(picked.drop_last() =~= Seq::empty());
    assert(add_all(workspace, picked.drop_last()).workspace == workspace);
    let a = add_all(workspace, picked);
    assert(a.skipped =~= seq!["already in workspace: "@ + d.path]);
}

/// How a folder is shown: its name with how many images it and those below it hold.
pub open spec fn label_of(e: EntryView) -> Seq<char> {
    if e.children.len() == 0 {
        e.name + "  ("@ + decimal(e.image_files.len()) + ")"@
    } else if e.image_files.len() == 0 {
        e.name + "  ("@ + decimal(images_in(e)) + " total)"@
    } else {
        e.name + "  ("@ + decimal(e.image_files.len()) + " here, "@ + decimal(images_in(e)) + " total)"@
    }
}

/// How a folder is shown.
pub fn node_label(e: &WorkspaceEntry) -> (r: String)
    requires
        images_in(e@) <= usize::MAX,
    ensures
        r@ == label_of(e@),
        e.children@.len() == 0 ==> r@ == e.name@ + "  ("@ + decimal(e.image_files@.len()) + ")"@,
        e.children@.len() > 0 && e.image_files@.len() == 0 ==> r@ == e.name@ + "  ("@ + decimal(images_in(e@))
            + " total)"@,
        e.children@.len() > 0 && e.image_files@.len() > 0 ==> r@ == e.name@ + "  ("@ + decimal(e.image_files@.len())
            + " here, "@ + decimal(images_in(e@)) + " total)"@,
{
    proof {
        lemma_children_view(*e);
        assert(e@.image_files.len() == e.image_files.len());
    }
    let mut r = e.name.clone();
    r.append("  (");
    if e.children.len() == 0 {
        r.append(count_text(e.image_files.len()).as_str());
        r.append(")");
    } else if e.image_files.len() == 0 {
        r.append(count_text(e.total_images()).as_str());
        r.append(" total)");
    } else {
        r.append(count_text(e.image_files.len()).as_str());
        r.append(" here, ");
        r.append(count_text(e.total_images()).as_str());
        r.append(" total)");
    }
    r
}

impl AppState {
    /// Adds the picked folders to the workspace and says what came of it, where anything was
    /// picked.
    pub fn add_folder(&mut self, picked: &Vec<DirListing>)
        requires
            add_all(old(self)@.workspace, dir_views(picked@)).images <= usize::MAX,
        ensures
            ({
                let a = add_all(old(self)@.workspace, dir_views(picked@));
                final(self)@ == (AppView {
                    workspace: a.workspace,
                    status: match adding_status(a) {
                        Some(text) => text,
                        None => old(self)@.status,
                    },
                    ..old(self)@
                })
            }),
    {
        if let Some(text) = add_folders(&mut self.workspace, picked) {
            self.status = text;
        }
    }

    /// Takes a folder out of the workspace.
    pub fn remove_folder(&mut self, i: usize)
        requires
            i < old(self)@.workspace.len(),
        ensures
            final(self)@ == (AppView { workspace: old(self)@.workspace.remove(i as int), ..old(self)@ }),
    {
        let ghost start = self@;
        assert(start.workspace.len() == self.workspace.len());
        let _removed = self.workspace.remove(i);
        assert(self@.workspace =~= start.workspace.remove(i as int));
    }
}

/// Switching a folder switches it and everything below it, and changes nothing else of them.
pub proof fn switching_reaches_all_below(e: EntryView, enabled: bool)
    ensures
        ({
            let f = with_enabled(e, enabled);
            &&& f.run_enabled == enabled
            &&& f.path == e.path
            &&& f.name == e.name
            &&& f.image_files == e.image_files
            &&& f.children.len() == e.children.len()
            &&& forall|i: int|
                0 <= i < e.children.len() ==> (#[trigger] f.children[i]) == with_enabled(e.children[i], enabled)
        }),
{
}

/// The images of a folder are its own and those of each folder below it.
pub proof fn images_add_up(e: EntryView)
    ensures
        images_in(e) == e.image_files.len() + e.children.fold_left(0int, |sum: int, c: EntryView| sum + images_in(c)),
{
    lemma_images_folded(e.children);
}

proof fn lemma_images_folded(es: Seq<EntryView>)
    ensures
        images_in_all(es) == es.fold_left(0int, |sum: int, c: EntryView| sum + images_in(c)),
    decreases es.len(),
{
    if es.len() > 0 {
        lemma_images_folded(es.drop_last());
    }
}

/// The character with a capital letter made small.
pub open spec fn small(c: char) -> char {
    if 'A' <= c <= 'Z' {
        (c as int + 32) as char
    } else {
        c
    }
}

proof fn lemma_case_blind(text: Seq<char>, word: Seq<char>)
    requires
        forall|i: int| 0 <= i < word.len() ==> 'a' <= #[trigger] word[i] <= 'z',
    ensures
        case_blind(text, word) <==> text.map_values(|c: char| small(c)) == word,
{
    let low = text.map_values(|c: char| small(c));
    if case_blind(text, word) {
        assert forall|i: int| 0 <= i < word.len() implies low[i] == word[i] by {
            assert('a' <= word[i] <= 'z');
            assert(text[i] == word[i] || ('A' <= text[i] <= 'Z' && text[i] as int + 32 == word[i] as int));
        }
        assert(low =~= word);
    }
    if low == word {
        assert forall|i: int| 0 <= i < text.len() implies (#[trigger] text[i]) == word[i] || ('A' <= text[i] <= 'Z'
            && text[i] as int + 32 == word[i] as int) by {
            assert(low[i] == small(text[i]));
        }
    }
}

/// An extension is that of an image just where it is one of five words once its capital letters
/// are made small.
pub proof fn image_extensions_are_five(ext: Seq<char>)
    ensures
        ({
            let low = ext.map_values(|c: char| small(c));
            image_extension(ext) <==> low == "tif"@ || low == "tiff"@ || low == "png"@ || low == "jpg"@ || low == "jpeg"@
        }),
{
    reveal_strlit("tif");
    reveal_strlit("tiff");
    reveal_strlit("png");
    reveal_strlit("jpg");
    reveal_strlit("jpeg");
    lemma_case_blind(ext, "tif"@);
    lemma_case_blind(ext, "tiff"@);
    lemma_case_blind(ext, "png"@);
    lemma_case_blind(ext, "jpg"@);
    lemma_case_blind(ext, "jpeg"@);
}

/// The images among some files are those with the extension of an image, in order.
pub proof fn images_have_image_extensions(files: Seq<FileView>)
    ensures
        image_paths(files) == files.filter(
            |f: FileView| f.extension is Some && image_extension(f.extension.unwrap()),
        ).map_values(|f: FileView| f.path),
    decreases files.len(),
{
    reveal(Seq::filter);
    let pick = |f: FileView| f.extension is Some && image_extension(f.extension.unwrap());
    let path = |f: FileView| f.path;
    if files.len() > 0 {
        images_have_image_extensions(files.drop_last());
        let before = files.drop_last().filter(pick);
        assert(before.push(files.last()).map_values(path) =~= before.map_values(path).push(files.last().path));
    }
    assert(image_paths(files) =~= files.filter(pick).map_values(path));
}

proof fn lemma_kept_filtered(dirs: Seq<DirView>, depth: nat)
    ensures
        entries_kept(dirs, depth) == dirs.map_values(|d: DirView| entry_of(d, depth)).filter(
            |e: EntryView| e.image_files.len() > 0 || e.children.len() > 0,
        ),
    decreases dirs.len(),
{
    reveal(Seq::filter);
    let entry = |d: DirView| entry_of(d, depth);
    let all = dirs.map_values(entry);
    if dirs.len() > 0 {
        lemma_kept_filtered(dirs.drop_last(), depth);
        assert(all.drop_last() =~= dirs.drop_last().map_values(entry));
    }
}

/// The entry of a folder has the folder's path and name, its images in order, and the entries of
/// those folders right below it that hold anything, ordered by name, each as often as it is
/// found. Below the sixth level nothing is followed.
pub proof fn entry_tells_of_its_folder(d: DirView, depth: nat)
    requires
        d.files.len() <= usize::MAX,
        d.dirs.len() <= usize::MAX,
    ensures
        ({
            let e = entry_of(d, depth);
            let images = d.files.filter(
                |f: FileView| f.extension is Some && image_extension(f.extension.unwrap()),
            ).map_values(|f: FileView| f.path);
            let below = d.dirs.map_values(|x: DirView| entry_of(x, depth + 1)).filter(
                |x: EntryView| x.image_files.len() > 0 || x.children.len() > 0,
            );
            &&& e.path == d.path
            &&& d.name matches Some(name) ==> e.name == name
            &&& d.name is None ==> e.name == "folder"@
            &&& e.run_enabled
            &&& e.image_files.to_multiset() == images.to_multiset()
            &&& in_order(e.image_files)
            &&& depth >= 5 ==> e.children.len() == 0
            &&& depth < 5 ==> e.children.to_multiset() == below.to_multiset()
            &&& in_order(e.children.map_values(|x: EntryView| x.name))
        }),
{
    let e = entry_of(d, depth);
    images_have_image_extensions(d.files);
    d.files.lemma_filter_len(|f: FileView| f.extension is Some && image_extension(f.extension.unwrap()));
    sorting_keeps_texts(image_paths(d.files));
    let below = entries_kept(d.dirs, depth + 1);
    lemma_kept_filtered(d.dirs, depth + 1);
    d.dirs.map_values(|x: DirView| entry_of(x, depth + 1)).lemma_filter_len(
        |x: EntryView| x.image_files.len() > 0 || x.children.len() > 0,
    );
    let names = names_of(below);
    order_exists(names);
    let order = order_of(names);
    order_is_arrangement(names, order);
    arranging_keeps_items(below, order);
    lemma_sorted_in_order(names, order);
    if depth < MAX_DEPTH {
        assert(e.children.map_values(|x: EntryView| x.name) =~= sorted_texts(names));
    }
}

/// The folders to run on are the folder itself, where it is switched on and holds images, and
/// then those of the folders below it in turn.
pub proof fn folders_are_run_in_turn(e: EntryView)
    ensures
        ({
            let below = e.children.map_values(|c: EntryView| folders_in(c)).flatten();
            let own = FolderView { path: e.path, name: e.name, files: e.image_files };
            &&& e.run_enabled && e.image_files.len() > 0 ==> folders_in(e) == seq![own] + below
            &&& !e.run_enabled || e.image_files.len() == 0 ==> folders_in(e) == below
        }),
{
    workspace_is_run_in_turn(e.children);
    let below = e.children.map_values(|c: EntryView| folders_in(c)).flatten();
    if !e.run_enabled || e.image_files.len() == 0 {
        assert(folders_in(e) =~= below);
    }
}

/// The folders to run on of a workspace are those of its folders in turn.
pub proof fn workspace_is_run_in_turn(es: Seq<EntryView>)
    ensures
        folders_in_all(es) == es.map_values(|c: EntryView| folders_in(c)).flatten(),
    decreases es.len(),
{
    let of_one = |c: EntryView| folders_in(c);
    let lists = es.map_values(of_one);
    if es.len() > 0 {
        workspace_is_run_in_turn(es.drop_last());
        assert(lists.drop_last() =~= es.drop_last().map_values(of_one));
        assert(lists.last() == folders_in(es.last()));
        lists.lemma_flatten_and_flatten_alt_are_equivalent();
        lists.drop_last().lemma_flatten_and_flatten_alt_are_equivalent();
    } else {
        assert(lists =~= Seq::empty());
        assert(lists.flatten() =~= Seq::empty());
        assert(folders_in_all(es) =~= lists.flatten());
    }
}

/// The images to run on are counted folder by folder.
pub proof fn files_add_up(folders: Seq<FolderView>)
    ensures
        files_in(folders) == folders.fold_left(0int, |sum: int, f: FolderView| sum + f.files.len()),
    decreases folders.len(),
{
    if folders.len() > 0 {
        files_add_up(folders.drop_last());
    }
}

/// Of folders picked one after the other, each is skipped where one with its path is there by
/// then, skipped where it holds no image, and else put behind the others with all it holds.
/// Nothing else changes.
pub proof fn folders_are_added_in_turn(workspace: Seq<EntryView>, picked: Seq<DirView>, d: DirView)
    ensures
        ({
            let a = add_all(workspace, picked);
            let b = add_all(workspace, picked.push(d));
            let e = entry_of(d, 0);
            let there = exists|i: int| 0 <= i < a.workspace.len() && (#[trigger] a.workspace[i]).path == d.path;
            let empty = e.image_files.len() == 0 && e.children.len() == 0;
            &&& there ==> b == (Adding { skipped: a.skipped.push("already in workspace: "@ + d.path), ..a })
            &&& !there && empty ==> b == (Adding { skipped: a.skipped.push("no images in "@ + d.path), ..a })
            &&& !there && !empty ==> {
                &&& b.workspace == a.workspace.push(e)
                &&& b.added == a.added + 1
                &&& b.images == a.images + images_in(e)
                &&& b.skipped == a.skipped
            }
        }),
        ({
            let none = add_all(workspace, Seq::empty());
            none.workspace == workspace && none.added == 0 && none.images == 0 && none.skipped.len() == 0
        }),
{
    assert(picked.push(d).drop_last() =~= picked);
}

/// The images that are said to be added are those by which the workspace holds more.
pub proof fn added_images_are_in_the_workspace(workspace: Seq<EntryView>, picked: Seq<DirView>)
    ensures
        images_in_all(add_all(workspace, picked).workspace) == images_in_all(workspace) + add_all(
            workspace,
            picked,
        ).images,
    decreases picked.len(),
{
    if picked.len() > 0 {
        added_images_are_in_the_workspace(workspace, picked.drop_last());
        let a = add_all(workspace, picked.drop_last());
        let e = entry_of(picked.last(), 0);
        assert(a.workspace.push(e).drop_last() =~= a.workspace);
    }
}

/// What is said after adding: how many folders and images were added, where any were, with the
/// reasons for those that were not behind it; without either nothing is said.
pub proof fn adding_is_told(a: Adding)
    ensures
        a.added == 0 && a.skipped.len() == 0 ==> adding_status(a) is None,
        a.added == 0 && a.skipped.len() > 0 ==> adding_status(a) == Some(joined(a.skipped, "; "@)),
        a.added > 0 && a.skipped.len() == 0 ==> adding_status(a) == Some(
            "Added "@ + decimal(a.added) + " folder(s), "@ + decimal(a.images) + " images"@,
        ),
        a.added > 0 && a.skipped.len() > 0 ==> adding_status(a) == Some(
            "Added "@ + decimal(a.added) + " folder(s), "@ + decimal(a.images) + " images"@ + " ("@ + joined(
                a.skipped,
                "; "@,
            ) + ")"@,
        ),
{
}

/// Folders and listings are spoken of by what their own fields hold.
pub proof fn folder_fields_are_spoken_of(e: WorkspaceEntry, d: DirListing, f: Folder)
    ensures
        e@.path == e.path@,
        e@.name == e.name@,
        e@.run_enabled == e.run_enabled,
        e@.image_files.len() == e.image_files@.len(),
        forall|i: int| 0 <= i < e.image_files@.len() ==> #[trigger] e@.image_files[i] == e.image_files@[i]@,
        e@.children.len() == e.children@.len(),
        forall|i: int| 0 <= i < e.children@.len() ==> #[trigger] e@.children[i] == e.children@[i]@,
        d@.path == d.path@,
        d.name is None ==> d@.name is None,
        d.name matches Some(name) ==> d@.name == Some(name@),
        d@.files.len() == d.files@.len(),
        forall|i: int|
            0 <= i < d.files@.len() ==> (#[trigger] d@.files[i]).path == d.files@[i].path@ && (
            d.files@[i].extension is None ==> d@.files[i].extension is None) && (d.files@[i].extension matches Some(ext)
                ==> d@.files[i].extension == Some(ext@)),
        d@.dirs.len() == d.dirs@.len(),
        forall|i: int| 0 <= i < d.dirs@.len() ==> #[trigger] d@.dirs[i] == d.dirs@[i]@,
        f@.path == f.path@,
        f@.name == f.name@,
        f@.files.len() == f.files@.len(),
        forall|i: int| 0 <= i < f.files@.len() ==> #[trigger] f@.files[i] == f.files@[i]@,
{
}

} // verus!
