use wallpaper::library::{BuildError, EntryKind, FsEntry, ImageLibrary, RootEntry, SelectionError};
use wallpaper::resolution::Resolution;

fn file(path: &str) -> Result<FsEntry, String> {
    Ok(FsEntry { path: path.to_string(), kind: EntryKind::File })
}

fn dir(path: &str, contents: Vec<Result<FsEntry, String>>) -> Result<RootEntry, String> {
    Ok(RootEntry { path: path.to_string(), kind: EntryKind::Directory, contents })
}

fn stray(path: &str) -> Result<RootEntry, String> {
    Ok(RootEntry { path: path.to_string(), kind: EntryKind::File, contents: Vec::new() })
}

fn res(width: u64, height: u64) -> Resolution {
    Resolution { width, height }
}

fn sorted_images(library: &ImageLibrary, r: Resolution) -> Vec<String> {
    let mut v = library.images_of(&r).unwrap().clone();
    v.sort();
    v
}

fn sorted_keys(library: &ImageLibrary) -> Vec<(u64, u64)> {
    let mut v: Vec<(u64, u64)> = library.resolutions().iter().map(|r| (r.width, r.height)).collect();
    v.sort();
    v
}

#[test]
fn build_two_buckets() {
    let entries = vec![
        dir("/lib/100x100", vec![file("/lib/100x100/a.jpg"), file("/lib/100x100/b.jpg")]),
        dir("/lib/200x200", vec![]),
    ];
    let library = ImageLibrary::new(true, &entries).unwrap();
    assert_eq!(library.bucket_count(), 2);
    assert_eq!(library.images_of(&res(100, 100)).unwrap().len(), 2);
    assert_eq!(library.images_of(&res(200, 200)).unwrap().len(), 0);
    assert_eq!(
        sorted_images(&library, res(100, 100)),
        vec!["/lib/100x100/a.jpg".to_string(), "/lib/100x100/b.jpg".to_string()]
    );
    assert!(library.images_of(&res(300, 300)).is_none());
}

#[test]
fn build_fails_on_invalid_bucket_name() {
    let entries = vec![
        dir("/lib/100x100", vec![file("/lib/100x100/a.jpg")]),
        dir("/lib/notaresolution", vec![file("/lib/notaresolution/c.jpg")]),
    ];
    match ImageLibrary::new(true, &entries) {
        Err(e) => assert_eq!(e, BuildError::InvalidBucketName("/lib/notaresolution".to_string())),
        Ok(_) => panic!("an index was returned"),
    }
}

#[test]
fn build_ignores_stray_file() {
    let entries = vec![
        stray("/lib/readme.txt"),
        dir("/lib/100x100", vec![file("/lib/100x100/a.jpg")]),
        stray("/lib/notes"),
    ];
    let library = ImageLibrary::new(true, &entries).unwrap();
    assert_eq!(library.bucket_count(), 1);
    assert_eq!(sorted_images(&library, res(100, 100)), vec!["/lib/100x100/a.jpg".to_string()]);
}

#[test]
fn build_root_not_a_directory() {
    let entries = vec![dir("/lib/100x100", vec![])];
    match ImageLibrary::new(false, &entries) {
        Err(e) => assert_eq!(e, BuildError::NotADirectory),
        Ok(_) => panic!("an index was returned"),
    }
}

#[test]
fn build_empty_root() {
    let library = ImageLibrary::new(true, &Vec::new()).unwrap();
    assert_eq!(library.bucket_count(), 0);
}

#[test]
fn build_fails_on_root_read_error() {
    let entries = vec![dir("/lib/100x100", vec![]), Err("permission denied".to_string())];
    match ImageLibrary::new(true, &entries) {
        Err(e) => assert_eq!(e, BuildError::FilesystemError("permission denied".to_string())),
        Ok(_) => panic!("an index was returned"),
    }
}

#[test]
fn build_fails_on_bucket_read_error() {
    let entries = vec![dir(
        "/lib/100x100",
        vec![file("/lib/100x100/a.jpg"), Err("entry vanished".to_string())],
    )];
    match ImageLibrary::new(true, &entries) {
        Err(e) => assert_eq!(e, BuildError::FilesystemError("entry vanished".to_string())),
        Ok(_) => panic!("an index was returned"),
    }
}

#[test]
fn build_reports_first_failure() {
    let entries = vec![
        dir("/lib/bad", vec![]),
        dir("/lib/100x100", vec![Err("io error".to_string())]),
    ];
    match ImageLibrary::new(true, &entries) {
        Err(e) => assert_eq!(e, BuildError::InvalidBucketName("/lib/bad".to_string())),
        Ok(_) => panic!("an index was returned"),
    }
}

#[test]
fn build_merges_equal_resolutions() {
    let entries = vec![
        dir("/lib/phone_100x200", vec![file("/lib/phone_100x200/a.jpg")]),
        dir("/lib/tablet_100x200", vec![file("/lib/tablet_100x200/b.jpg")]),
    ];
    let library = ImageLibrary::new(true, &entries).unwrap();
    assert_eq!(library.bucket_count(), 1);
    assert_eq!(
        sorted_images(&library, res(100, 200)),
        vec!["/lib/phone_100x200/a.jpg".to_string(), "/lib/tablet_100x200/b.jpg".to_string()]
    );
}

#[test]
fn build_skips_nested_directories() {
    let entries = vec![dir(
        "/lib/100x100",
        vec![
            Ok(FsEntry { path: "/lib/100x100/sub".to_string(), kind: EntryKind::Directory }),
            Ok(FsEntry { path: "/lib/100x100/link".to_string(), kind: EntryKind::Other }),
            file("/lib/100x100/a.jpg"),
        ],
    )];
    let library = ImageLibrary::new(true, &entries).unwrap();
    assert_eq!(sorted_images(&library, res(100, 100)), vec!["/lib/100x100/a.jpg".to_string()]);
}

#[test]
fn build_twice_in_other_orders() {
    let first = vec![
        dir("/lib/100x100", vec![file("/lib/100x100/a.jpg"), file("/lib/100x100/b.jpg")]),
        stray("/lib/x.txt"),
        dir("/lib/200x300", vec![file("/lib/200x300/c.jpg")]),
    ];
    let second = vec![
        dir("/lib/200x300", vec![file("/lib/200x300/c.jpg")]),
        dir("/lib/100x100", vec![file("/lib/100x100/b.jpg"), file("/lib/100x100/a.jpg")]),
        stray("/lib/x.txt"),
    ];
    let one = ImageLibrary::new(true, &first).unwrap();
    let two = ImageLibrary::new(true, &second).unwrap();
    assert_eq!(sorted_keys(&one), sorted_keys(&two));
    assert_eq!(sorted_keys(&one), vec![(100, 100), (200, 300)]);
    for r in [res(100, 100), res(200, 300)] {
        assert_eq!(sorted_images(&one, r), sorted_images(&two, r));
    }
}

#[test]
fn add_resolution_keeps_existing_bucket() {
    let mut library = ImageLibrary::default();
    library.add_resolution(res(1, 2));
    library.add_image(&res(1, 2), "p.png".to_string());
    library.add_resolution(res(1, 2));
    assert_eq!(library.bucket_count(), 1);
    assert_eq!(library.images_of(&res(1, 2)).unwrap(), &vec!["p.png".to_string()]);
}

#[test]
fn load_images_files_regular_files() {
    let mut library = ImageLibrary::default();
    library.add_resolution(res(5, 5));
    let contents = vec![
        file("d/a.jpg"),
        Ok(FsEntry { path: "d/sub".to_string(), kind: EntryKind::Directory }),
        file("d/b.jpg"),
    ];
    assert_eq!(library.load_images(res(5, 5), &contents), Ok(()));
    assert_eq!(library.images_of(&res(5, 5)).unwrap(), &vec!["d/a.jpg".to_string(), "d/b.jpg".to_string()]);
    let failing = vec![Err("gone".to_string())];
    assert_eq!(
        library.load_images(res(5, 5), &failing),
        Err(BuildError::FilesystemError("gone".to_string()))
    );
}

#[test]
fn default_is_empty() {
    let library = ImageLibrary::default();
    assert_eq!(library.bucket_count(), 0);
    assert!(library.resolutions().is_empty());
}

#[test]
fn query_empty_library() {
    let library = ImageLibrary::default();
    for _ in 0..20 {
        assert_eq!(library.get_random_image(), Err(SelectionError::EmptyLibrary));
    }
}

#[test]
fn query_single_empty_bucket() {
    let library = ImageLibrary::new(true, &vec![dir("/lib/10x10", vec![])]).unwrap();
    for _ in 0..20 {
        assert_eq!(library.get_random_image(), Err(SelectionError::EmptyBucket));
    }
}

#[test]
fn query_single_image() {
    let library = ImageLibrary::new(true, &vec![dir("/lib/10x10", vec![file("/lib/10x10/only.jpg")])]).unwrap();
    for _ in 0..20 {
        assert_eq!(library.get_random_image(), Ok(&"/lib/10x10/only.jpg".to_string()));
    }
}

#[test]
fn query_picks_bucket_first() {
    let library = ImageLibrary::new(
        true,
        &vec![dir("A_1x1", vec![file("x")]), dir("B_2x2", vec![file("y"), file("z")])],
    )
    .unwrap();
    let rounds = 20000;
    let mut x = 0;
    let mut seen_y = false;
    let mut seen_z = false;
    for _ in 0..rounds {
        let p = library.get_random_image().unwrap();
        match p.as_str() {
            "x" => x += 1,
            "y" => seen_y = true,
            "z" => seen_z = true,
            other => panic!("unexpected image {}", other),
        }
    }
    let share = x as f64 / rounds as f64;
    assert!(share > 0.45 && share < 0.55, "share of bucket A was {}", share);
    assert!(seen_y && seen_z);
}

#[test]
fn select_image_by_position() {
    let library = ImageLibrary::new(
        true,
        &vec![dir("A_1x1", vec![]), dir("B_2x2", vec![file("y"), file("z")])],
    )
    .unwrap();
    assert_eq!(library.resolutions(), vec![res(1, 1), res(2, 2)]);
    assert_eq!(library.select_image(0, 0), Err(SelectionError::EmptyBucket));
    assert_eq!(library.select_image(1, 0), Ok(&"y".to_string()));
    assert_eq!(library.select_image(1, 1), Ok(&"z".to_string()));
}
