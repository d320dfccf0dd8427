use dupy::formatter::{format_csv, format_name_table, format_table};
use dupy::grouper::DuplicateSet;
use dupy::names::NameDuplicateSet;

fn set(files: &[&str], size: u64) -> DuplicateSet {
    DuplicateSet { files: files.iter().map(|s| s.to_string()).collect(), size }
}

#[test]
fn plain_report() {
    let sets = vec![
        set(&["/home/user/Documents/report.pdf", "/home/user/Downloads/report.pdf", "/home/user/Backup/report.pdf"], 1258291),
        set(&["/home/user/Pictures/photo1.jpg", "/home/user/Pictures/backup/photo1.jpg"], 524288),
    ];
    let expected = "Duplicate Files Report\n\
======================\n\
\n\
Group 1 (3 files, 1.2 MB each, 2.4 MB wasted):\n\
\x20 /home/user/Documents/report.pdf\n\
\x20 /home/user/Downloads/report.pdf\n\
\x20 /home/user/Backup/report.pdf\n\
\n\
Group 2 (2 files, 512 KB each, 512 KB wasted):\n\
\x20 /home/user/Pictures/photo1.jpg\n\
\x20 /home/user/Pictures/backup/photo1.jpg\n\
\n\
Summary:\n\
--------\n\
Total duplicate groups: 2\n\
Total duplicate files: 5 (of which 3 are redundant copies)\n\
Total wasted space: 2.9 MB\n";
    assert_eq!(format_table(&sets), expected);
}

#[test]
fn plain_report_when_nothing_found() {
    assert_eq!(format_table(&Vec::new()), "No duplicate files found.\n");
}

#[test]
fn csv_report() {
    let sets = vec![
        set(&["/home/user/Documents/report.pdf", "/home/user/Downloads/report.pdf", "/home/user/Backup/report.pdf"], 1258291),
        set(&["/home/user/Pictures/photo1.jpg", "/home/user/Pictures/backup/photo1.jpg"], 524288),
    ];
    let expected = "group_id,size_bytes,size_human,wasted_bytes,wasted_human,file_path\n\
1,1258291,1.20 MB,2516582,2.40 MB,/home/user/Documents/report.pdf\n\
1,1258291,1.20 MB,2516582,2.40 MB,/home/user/Downloads/report.pdf\n\
1,1258291,1.20 MB,2516582,2.40 MB,/home/user/Backup/report.pdf\n\
2,524288,512.00 KB,524288,512.00 KB,/home/user/Pictures/photo1.jpg\n\
2,524288,512.00 KB,524288,512.00 KB,/home/user/Pictures/backup/photo1.jpg\n";
    assert_eq!(format_csv(&sets), expected);
    assert_eq!(
        format_csv(&Vec::new()),
        "group_id,size_bytes,size_human,wasted_bytes,wasted_human,file_path\n"
    );
}

#[test]
fn names_report() {
    let groups = vec![
        NameDuplicateSet {
            name: "photo1.jpg".to_string(),
            files: vec!["/home/user/Pictures/photo1.jpg".to_string(), "/home/user/Pictures/backup/photo1.jpg".to_string()],
        },
        NameDuplicateSet {
            name: "report.pdf".to_string(),
            files: vec![
                "/home/user/Documents/report.pdf".to_string(),
                "/home/user/Downloads/report.pdf".to_string(),
                "/home/user/Backup/report.pdf".to_string(),
            ],
        },
    ];
    let expected = "Duplicate Names Report\n\
======================\n\
\n\
Group 1 - \"photo1.jpg\" (2 files):\n\
\x20 /home/user/Pictures/photo1.jpg\n\
\x20 /home/user/Pictures/backup/photo1.jpg\n\
\n\
Group 2 - \"report.pdf\" (3 files):\n\
\x20 /home/user/Documents/report.pdf\n\
\x20 /home/user/Downloads/report.pdf\n\
\x20 /home/user/Backup/report.pdf\n\
\n\
Summary:\n\
--------\n\
Total groups with shared names: 2\n\
Total files involved: 5\n";
    assert_eq!(format_name_table(&groups), expected);
    assert_eq!(format_name_table(&Vec::new()), "No duplicate names found.\n");
}
