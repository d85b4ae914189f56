use hugepage::{page_size_of, parse_meminfo, MeminfoError};

const SAMPLE: &str = "MemTotal:       16318412 kB\n\
MemFree:         1234567 kB\n\
AnonHugePages:    407552 kB\n\
ShmemHugePages:        0 kB\n\
FileHugePages:         0 kB\n\
HugePages_Total:      64\n\
HugePages_Free:       60\n\
HugePages_Rsvd:        2\n\
HugePages_Surp:        1\n\
Hugepagesize:       2048 kB\n\
Hugetlb:          131072 kB\n";

#[test]
fn size_and_total_with_other_fields_zero() {
    let info = parse_meminfo("Hugepagesize:    2048 kB\nHugePages_Total:    10\n").unwrap();
    assert_eq!(info.size, 2097152);
    assert_eq!(info.total, 10);
    assert_eq!(info.free, 0);
    assert_eq!(info.rsvd, 0);
    assert_eq!(info.surp, 0);
    assert_eq!(info.anon_pages, 0);
    assert_eq!(info.shmem_pages, 0);
}

#[test]
fn missing_page_size_fails() {
    let r = parse_meminfo("MemTotal:       16318412 kB\nHugePages_Total:    10\n");
    assert_eq!(r.unwrap_err(), MeminfoError::Unavailable);
}

#[test]
fn empty_text_fails() {
    assert!(parse_meminfo("").is_err());
}

#[test]
fn zero_page_size_fails() {
    assert!(parse_meminfo("Hugepagesize:       0 kB\nHugePages_Total: 3\n").is_err());
}

#[test]
fn full_sample() {
    let info = parse_meminfo(SAMPLE).unwrap();
    assert_eq!(info.size, 2048 * 1024);
    assert_eq!(info.anon_pages, 407552 * 1024);
    assert_eq!(info.shmem_pages, 0);
    assert_eq!(info.total, 64);
    assert_eq!(info.free, 60);
    assert_eq!(info.rsvd, 2);
    assert_eq!(info.surp, 1);
}

#[test]
fn last_occurrence_wins() {
    let info = parse_meminfo("Hugepagesize: 2048 kB\nHugePages_Free: 5\nHugepagesize: 1048576 kB\nHugePages_Free: 7\n").unwrap();
    assert_eq!(info.size, 1024 * 1024 * 1024);
    assert_eq!(info.free, 7);
}

#[test]
fn malformed_lines_are_ignored() {
    let text = "Hugepagesize: 2048 kB\n\
Hugepagesize: 4096\n\
Hugepagesize: abc kB\n\
HugePages_Total: 12\n\
HugePages_Total: 12 kB\n\
HugePages_Total:\n\
HugePages_Total: -3\n\
\x20HugePages_Free: 9\n";
    let info = parse_meminfo(text).unwrap();
    assert_eq!(info.size, 2048 * 1024);
    assert_eq!(info.total, 12);
    assert_eq!(info.free, 0);
}

#[test]
fn size_without_unit_does_not_count() {
    assert!(parse_meminfo("Hugepagesize: 2048\n").is_err());
}

#[test]
fn kb_suffix_must_end_the_line() {
    assert!(parse_meminfo("Hugepagesize: 2048 kB \n").is_err());
}

#[test]
fn crlf_line_endings() {
    let info = parse_meminfo("Hugepagesize: 2048 kB\r\nHugePages_Surp: 4\r\n").unwrap();
    assert_eq!(info.size, 2048 * 1024);
    assert_eq!(info.surp, 4);
}

#[test]
fn last_line_needs_no_newline() {
    let info = parse_meminfo("HugePages_Rsvd:\t3\nHugepagesize:\t1024 kB").unwrap();
    assert_eq!(info.size, 1024 * 1024);
    assert_eq!(info.rsvd, 3);
}

#[test]
fn plus_sign_is_accepted() {
    let info = parse_meminfo("Hugepagesize: +2048 kB\nHugePages_Total: +8\n").unwrap();
    assert_eq!(info.size, 2048 * 1024);
    assert_eq!(info.total, 8);
}

#[test]
fn count_too_large_for_usize_is_ignored() {
    let text = format!("Hugepagesize: 2048 kB\nHugePages_Total: 5\nHugePages_Total: {}0\n", usize::MAX);
    let info = parse_meminfo(&text).unwrap();
    assert_eq!(info.total, 5);
    let text = format!("Hugepagesize: 2048 kB\nHugePages_Free: {}\n", usize::MAX);
    assert_eq!(parse_meminfo(&text).unwrap().free, usize::MAX);
}

#[test]
fn size_whose_bytes_overflow_is_ignored() {
    let text = format!("Hugepagesize: 2048 kB\nHugepagesize: {} kB\n", usize::MAX / 1024 + 1);
    assert_eq!(parse_meminfo(&text).unwrap().size, 2048 * 1024);
}

#[test]
fn cached_size_from_query() {
    let ok = parse_meminfo("Hugepagesize: 2048 kB\n");
    assert_eq!(page_size_of(&ok), 2097152);
    let err = parse_meminfo("MemFree: 1 kB\n");
    assert_eq!(page_size_of(&err), 0);
}
