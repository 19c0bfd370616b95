use disky::scan::{entry_record, name_and_ext};

#[test]
fn names_and_extensions() {
    assert_eq!(name_and_ext("/a/b/Report.PDF", false), ("Report.PDF".to_string(), Some("pdf".to_string())));
    assert_eq!(name_and_ext("/a/b/archive.tar.gz", false), ("archive.tar.gz".to_string(), Some("gz".to_string())));
    assert_eq!(name_and_ext("/a/b/trailingdot.", false), ("trailingdot.".to_string(), None));
    assert_eq!(name_and_ext("/a/b/.bashrc", false), (".bashrc".to_string(), Some("bashrc".to_string())));
    assert_eq!(name_and_ext("/a/b/dir.d", true), ("dir.d".to_string(), None));
    assert_eq!(name_and_ext("plain", false), ("plain".to_string(), None));
    assert_eq!(name_and_ext("/a/", false), ("".to_string(), None));
}

#[test]
fn entry_records_zero_directories() {
    let d = entry_record("/x/src", true, 4096, Some(8), Some(5), 2);
    assert_eq!(d.size, 0);
    assert_eq!(d.physical_size, None);
    assert_eq!(d.ext, None);
    assert_eq!(d.depth, 2);
    let f = entry_record("/x/src/main.RS", false, 1000, Some(8), None, 3);
    assert_eq!(f.size, 1000);
    assert_eq!(f.physical_size, Some(4096));
    assert_eq!(f.name, "main.RS");
    assert_eq!(f.ext, Some("rs".to_string()));
}
