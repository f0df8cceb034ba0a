use school_desk::listing::{
    count_school_dirs, image_files, is_image_extension, is_image_file, limit_listing, school_folder,
    school_names, school_of_entry, within_base, DirEntry, FileItem,
};

fn item(name: &str) -> FileItem {
    FileItem { name: name.to_string(), is_dir: false, path: format!("2026/{}", name) }
}

fn entry(name: &str, is_dir: bool) -> DirEntry {
    DirEntry { name: name.to_string(), is_dir }
}

#[test]
fn listing_keeps_at_most_one_more_than_limit() {
    let many: Vec<FileItem> = (0..1500).map(|i| item(&format!("f{}", i))).collect();
    let kept = limit_listing(many);
    assert_eq!(kept.len(), 1001);
    assert_eq!(kept[0].name, "f0");
    assert_eq!(kept[1000].name, "f1000");
    assert_eq!(limit_listing((0..10).map(|i| item(&format!("f{}", i))).collect()).len(), 10);
    assert_eq!(limit_listing((0..1001).map(|i| item(&format!("f{}", i))).collect()).len(), 1001);
    assert_eq!(limit_listing((0..1002).map(|i| item(&format!("f{}", i))).collect()).len(), 1001);
    assert_eq!(limit_listing(Vec::new()).len(), 0);
}

#[test]
fn image_extensions_ignore_case() {
    assert!(is_image_file("PHOTO.JPG"));
    assert!(is_image_file("x.jpeg"));
    assert!(is_image_file("x.Webp"));
    assert!(is_image_file("a.b.GiF"));
    assert!(is_image_file("jpg"));
    assert!(!is_image_file("doc.pdf"));
    assert!(!is_image_file("photo.jpg.txt"));
    assert!(!is_image_file("photo."));
    assert!(is_image_extension("png"));
    assert!(!is_image_extension("PNG"));
}

#[test]
fn image_files_keep_order_and_drop_others() {
    let items = vec![item("a.png"), item("b.docx"), item("C.JPEG"), item("d")];
    let images = image_files(items);
    let names: Vec<&str> = images.iter().map(|f| f.name.as_str()).collect();
    assert_eq!(names, vec!["a.png", "C.JPEG"]);
}

#[test]
fn school_folders_are_recognized() {
    assert_eq!(school_of_entry(&entry("School_Alpha", true)), Some("Alpha".to_string()));
    assert_eq!(school_of_entry(&entry("School_Alpha", false)), None);
    assert_eq!(school_of_entry(&entry("school_Alpha", true)), None);
    assert_eq!(school_of_entry(&entry("School_", true)), Some(String::new()));
    assert_eq!(school_of_entry(&entry("Schoo", true)), None);
    assert_eq!(school_folder("Alpha"), "School_Alpha");
}

#[test]
fn school_folder_lists_back_as_school() {
    for s in ["Alpha", "", "วัดใหม่", "School_x"] {
        let folder = school_folder(s);
        assert_eq!(school_of_entry(&entry(&folder, true)), Some(s.to_string()));
    }
}

#[test]
fn school_names_are_sorted_and_counted() {
    let entries = vec![
        entry("School_b", true),
        entry("School_a", true),
        entry("School_c", false),
        entry("Other", true),
        entry("School_B", true),
        entry("School_", true),
    ];
    let names = school_names(&entries);
    assert_eq!(names, vec!["".to_string(), "B".to_string(), "a".to_string(), "b".to_string()]);
    assert_eq!(count_school_dirs(&entries), names.len());
}

#[test]
fn within_base_compares_whole_components() {
    let base = vec!["D:".to_string(), "DATA".to_string()];
    assert!(within_base(&base, &vec!["D:".to_string(), "DATA".to_string(), "2026".to_string()]));
    assert!(within_base(&base, &base.clone()));
    assert!(!within_base(&base, &vec!["D:".to_string(), "DATA2".to_string()]));
    assert!(!within_base(&base, &vec!["D:".to_string()]));
    assert!(within_base(&Vec::new(), &vec!["x".to_string()]));
}
