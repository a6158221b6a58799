use bsnobs::workspace::add_folders;
use bsnobs::workspace::any_enabled;
use bsnobs::workspace::any_to_run;
use bsnobs::workspace::build_workspace_entry;
use bsnobs::workspace::folders_to_run;
use bsnobs::workspace::is_image_extension;
use bsnobs::workspace::node_label;
use bsnobs::workspace::DirListing;
use bsnobs::workspace::FileListing;
use bsnobs::workspace::WorkspaceEntry;

fn file(dir: &str, name: &str) -> FileListing {
    let extension = name.rsplit_once('.').map(|(_, e)| e.to_string());
    FileListing { path: format!("{dir}/{name}"), extension }
}

fn dir(path: &str, files: &[&str], dirs: Vec<DirListing>) -> DirListing {
    DirListing {
        path: path.to_string(),
        name: path.rsplit('/').next().map(|n| n.to_string()),
        files: files.iter().map(|f| file(path, f)).collect(),
        dirs,
    }
}

#[test]
fn image_extensions() {
    for ext in ["tif", "tiff", "png", "jpg", "jpeg", "TIF", "Png", "jPEG"] {
        assert!(is_image_extension(&ext.to_string()));
        assert!(["tif", "tiff", "png", "jpg", "jpeg"].contains(&ext.to_lowercase().as_str()));
    }
    for ext in ["", "ti", "tifff", "gif", "bmp", "txt", "p\u{212a}g", "t\u{130}f", "JPG ", "J\u{a0}G"] {
        assert!(!is_image_extension(&ext.to_string()));
        assert!(!["tif", "tiff", "png", "jpg", "jpeg"].contains(&ext.to_lowercase().as_str()));
    }
}

#[test]
fn entry_holds_sorted_images_and_subfolders() {
    let d = dir(
        "/w/s",
        &["b.png", "notes.txt", "a.TIF", "noext"],
        vec![
            dir("/w/s/z", &["1.jpg"], vec![]),
            dir("/w/s/empty", &["x.csv"], vec![]),
            dir("/w/s/m", &[], vec![dir("/w/s/m/deep", &["q.jpeg"], vec![])]),
        ],
    );
    let e = build_workspace_entry(&d, 0);
    assert_eq!((e.path.as_str(), e.name.as_str(), e.run_enabled), ("/w/s", "s", true));
    assert_eq!(e.image_files, vec!["/w/s/a.TIF", "/w/s/b.png"]);
    let names: Vec<&str> = e.children.iter().map(|c| c.name.as_str()).collect();
    assert_eq!(names, vec!["m", "z"]);
    assert_eq!(e.total_images(), 4);
    assert!(e.children.iter().all(|c| c.total_images() > 0));
}

#[test]
fn folder_without_a_name() {
    let mut d = dir("/", &["a.png"], vec![]);
    d.name = None;
    assert_eq!(build_workspace_entry(&d, 0).name, "folder");
}

fn nested(levels: usize) -> DirListing {
    let mut d = dir("/n/leaf", &["a.png"], vec![]);
    for _ in 0..levels {
        d = dir("/n", &[], vec![d]);
    }
    d
}

#[test]
fn folders_are_followed_five_deep() {
    assert_eq!(build_workspace_entry(&nested(5), 0).total_images(), 1);
    assert_eq!(build_workspace_entry(&nested(6), 0).total_images(), 0);
    assert!(build_workspace_entry(&nested(1), 5).children.is_empty());
}

fn tree() -> WorkspaceEntry {
    build_workspace_entry(
        &dir("/r", &["a.png"], vec![dir("/r/x", &["b.png", "c.png"], vec![]), dir("/r/y", &["d.png"], vec![])]),
        0,
    )
}

#[test]
fn switching_covers_the_whole_tree() {
    let mut e = tree();
    let n = e.total_images();
    e.set_run_enabled_recursive(false);
    assert!(!e.run_enabled && e.children.iter().all(|c| !c.run_enabled));
    assert_eq!(e.total_images(), n);
    assert!(!any_enabled(&e));
    assert!(folders_to_run(&vec![e]).is_empty());
    let mut again = tree();
    again.set_run_enabled_recursive(true);
    let files: usize = folders_to_run(&vec![again]).iter().map(|f| f.files.len()).sum();
    assert_eq!(files, n);
}

#[test]
fn folders_to_run_are_listed_from_the_top() {
    let mut e = tree();
    e.children[0].run_enabled = false;
    assert!(any_enabled(&e));
    let ws = vec![e];
    assert!(any_to_run(&ws));
    let folders = folders_to_run(&ws);
    let paths: Vec<&str> = folders.iter().map(|f| f.path.as_str()).collect();
    assert_eq!(paths, vec!["/r", "/r/y"]);
    assert_eq!(folders[1].files, vec!["/r/y/d.png"]);
    assert_eq!(folders[1].name, "y");
}

#[test]
fn folder_labels() {
    let e = tree();
    assert_eq!(node_label(&e), "r  (1 here, 4 total)");
    assert_eq!(node_label(&e.children[0]), "x  (2)");
    let only_below = build_workspace_entry(&dir("/q", &[], vec![dir("/q/x", &["b.png"], vec![])]), 0);
    assert_eq!(node_label(&only_below), "q  (1 total)");
}

#[test]
fn adding_folders_says_what_came_of_it() {
    let mut ws: Vec<WorkspaceEntry> = Vec::new();
    assert_eq!(add_folders(&mut ws, &vec![]), None);
    let s = add_folders(&mut ws, &vec![dir("/a", &["1.png", "2.png"], vec![]), dir("/b", &["3.png"], vec![])]);
    assert_eq!(s.unwrap(), "Added 2 folder(s), 3 images");
    let s = add_folders(&mut ws, &vec![dir("/a", &["1.png"], vec![]), dir("/e", &["x.txt"], vec![])]);
    assert_eq!(s.unwrap(), "already in workspace: /a; no images in /e");
    let s = add_folders(&mut ws, &vec![dir("/b", &[], vec![]), dir("/c", &["9.tif"], vec![])]);
    assert_eq!(s.unwrap(), "Added 1 folder(s), 1 images (already in workspace: /b)");
    let paths: Vec<&str> = ws.iter().map(|w| w.path.as_str()).collect();
    assert_eq!(paths, vec!["/a", "/b", "/c"]);
    // The same folder picked twice at once is added once.
    let s = add_folders(&mut ws, &vec![dir("/d", &["9.tif"], vec![]), dir("/d", &["9.tif"], vec![])]);
    assert_eq!(s.unwrap(), "Added 1 folder(s), 1 images (already in workspace: /d)");
}
