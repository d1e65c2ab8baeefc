use stump::path::{container_kind, is_declarative_cover, is_image, join_path, should_ignore, ContainerKind, IgnoredFile};
use stump::scanner::FsEntry;

#[test]
fn container_kind_from_extension() {
    assert_eq!(container_kind("/lib/S1/a.cbz"), ContainerKind::Zip);
    assert_eq!(container_kind("/lib/S1/a.ZIP"), ContainerKind::Zip);
    assert_eq!(container_kind("/lib/S1/a.cbr"), ContainerKind::Rar);
    assert_eq!(container_kind("/lib/S1/a.RaR"), ContainerKind::Rar);
    assert_eq!(container_kind("/lib/S1/book.epub"), ContainerKind::Epub);
    assert_eq!(container_kind("/lib/S1/notes.txt"), ContainerKind::Unsupported);
    assert_eq!(container_kind("/lib/S1/cbz"), ContainerKind::Unsupported);
    assert_eq!(container_kind("/lib/S1.cbz/readme"), ContainerKind::Unsupported);
}

#[test]
fn ignored_paths() {
    assert!(should_ignore("/lib/S1", true));
    assert!(should_ignore("/lib/S1/.hidden.cbz", false));
    assert!(should_ignore("/lib/S1/readme.txt", false));
    assert!(!should_ignore("/lib/S1/a.cbz", false));
    assert!(!should_ignore("/lib/.S1/a.cbz", false));
}

#[test]
fn ignored_file_trait_on_entries() {
    let e = FsEntry {
        path: "/lib/S1/a.cbz".to_string(),
        name: "a.cbz".to_string(),
        extension: "cbz".to_string(),
        is_dir: false,
        size: 10,
        modified: 0,
    };
    assert!(!e.should_ignore());
    let d = FsEntry { is_dir: true, ..e };
    assert!(d.should_ignore());
}

#[test]
fn image_names() {
    for n in ["a.jpg", "a.JPEG", "b.png", "c.webp", "d.svg", "e.tif", "f.tiff", "g.gif"] {
        assert!(is_image(n), "{}", n);
    }
    assert!(!is_image("ComicInfo.xml"));
    assert!(!is_image("jpg"));
    assert!(!is_image("dir/a.jpg.txt"));
}

#[test]
fn declarative_covers() {
    assert!(is_declarative_cover("/lib/S1/cover.jpg"));
    assert!(is_declarative_cover("/lib/S1/Folder.PNG"));
    assert!(is_declarative_cover("/lib/S1/thumbnail.webp"));
    assert!(!is_declarative_cover("/lib/S1/cover.cbz"));
    assert!(!is_declarative_cover("/lib/S1/covers.jpg"));
    assert!(!is_declarative_cover("/lib/S1/page1.jpg"));
}

#[test]
fn join_path_adds_one_slash() {
    assert_eq!(join_path("/lib", "S1"), "/lib/S1");
    assert_eq!(join_path("/lib/", "S1"), "/lib/S1");
    assert_eq!(join_path("", "S1"), "/S1");
}
