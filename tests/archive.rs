use stump::archive::{
    count_pages, digest, digest_prefix_len, find_comic_info, get_zip_image, process_zip, ArchiveEntry,
    ArchiveError,
};
use stump::archive::tag_text_range;
use stump::opds::{opds, OpdsRoute, OPDS_BASE};

fn entry(name: &str, size: u64) -> ArchiveEntry {
    ArchiveEntry { name: name.to_string(), is_file: true, size }
}

#[test]
fn pages_are_image_files() {
    let es = vec![
        entry("b.png", 5),
        entry("a.jpg", 5),
        entry("ComicInfo.xml", 5),
        entry("c.txt", 5),
        ArchiveEntry { name: "d.png".to_string(), is_file: false, size: 0 },
    ];
    assert_eq!(count_pages(&es), 2);
    assert_eq!(find_comic_info(&es), Some(2));
}

#[test]
fn comic_info_without_images() {
    let es = vec![entry("ComicInfo.xml", 120)];
    let pm = process_zip(&es, None, None).unwrap();
    assert_eq!(pm.pages, 0);
    assert!(matches!(process_zip(&vec![], None, None), Err(ArchiveError::Empty)));
    assert_eq!(find_comic_info(&es), Some(0));
    assert_eq!(find_comic_info(&vec![entry("comicinfo.xml", 1)]), None);
}

#[test]
fn page_lookup_sorts_by_name() {
    let es = vec![entry("b.png", 5), entry("a.jpg", 5), entry("ComicInfo.xml", 5), entry("c.gif", 5)];
    assert_eq!(get_zip_image(&es, 1), Ok(1));
    assert_eq!(get_zip_image(&es, 2), Ok(0));
    assert_eq!(get_zip_image(&es, 3), Ok(3));
    assert_eq!(get_zip_image(&es, 4), Err(ArchiveError::NoImage));
    assert_eq!(get_zip_image(&es, 0), Err(ArchiveError::NoImage));
    assert_eq!(get_zip_image(&vec![], 1), Err(ArchiveError::Empty));
    assert_eq!(get_zip_image(&vec![entry("ComicInfo.xml", 1)], 1), Err(ArchiveError::NoImage));
}

#[test]
fn page_lookup_with_uppercase_names() {
    // byte order puts upper case before lower case
    let es = vec![entry("a.jpg", 1), entry("B.jpg", 1)];
    assert_eq!(get_zip_image(&es, 1), Ok(1));
    assert_eq!(get_zip_image(&es, 2), Ok(0));
}

#[test]
fn digest_prefix_covers_six_entries() {
    let six: Vec<ArchiveEntry> = (0..8).map(|i| entry(&format!("{}.jpg", i), 10)).collect();
    assert_eq!(digest_prefix_len(&six, 1000), 60);
    assert_eq!(digest_prefix_len(&six, 45), 45);
    let few: Vec<ArchiveEntry> = (0..3).map(|i| entry(&format!("{}.jpg", i), 10)).collect();
    assert_eq!(digest_prefix_len(&few, 1000), 1000);
    assert_eq!(digest_prefix_len(&vec![], 7), 7);
}

#[test]
fn digest_is_stable_and_keyed_by_name() {
    let prefix = vec![1u8, 2, 3, 4];
    let a = digest("a.cbz", &prefix);
    let b = digest("a.cbz", &prefix);
    let c = digest("b.cbz", &prefix);
    assert_eq!(a, b);
    assert_ne!(a, c);
    assert_eq!(a.len(), 32);
    assert_ne!(&a[..4], &prefix[..]);
}

#[test]
fn digest_of_known_input() {
    // SHA-256 of "abc"
    let d = digest("ab", &[b'c']);
    assert_eq!(d[0], 0xba);
    assert_eq!(d[1], 0x78);
    assert_eq!(d[31], 0xad);
}

#[test]
fn opds_routes() {
    let r = opds();
    assert_eq!(r, vec![OpdsRoute::Catalog, OpdsRoute::KeepReading]);
    assert_eq!(r[0].path(), "/catalog");
    assert_eq!(r[1].path(), "/keep-reading");
    assert_eq!(OPDS_BASE, "/opds/v1.2");
}

#[test]
fn metadata_tag_text() {
    let xml = b"<ComicInfo><Title>Dune</Title><PageCount>3</PageCount></ComicInfo>";
    let (a, b) = tag_text_range(xml, b"Title").unwrap();
    assert_eq!(&xml[a..b], b"Dune");
    let (a, b) = tag_text_range(xml, b"PageCount").unwrap();
    assert_eq!(&xml[a..b], b"3");
    assert_eq!(tag_text_range(xml, b"Writer"), None);
    assert_eq!(tag_text_range(b"<Title>open", b"Title"), None);
    assert_eq!(tag_text_range(b"<Title></Title>", b"Title"), Some((7, 7)));
}
