use std::path::Path;

use brisk_bench::loadgen::output::{
    check_writable, output_directory, suffixed_name, with_suffix,
};

#[test]
fn suffixes_keep_directory_and_extension() {
    assert_eq!(
        Path::new(&with_suffix("out/s3-direct.json", "10m")),
        Path::new("out/s3-direct-10m.json")
    );
    assert_eq!(Path::new(&with_suffix("s3", "1m")), Path::new("s3-1m"));
}

#[test]
fn suffixes_go_before_the_last_dot() {
    assert_eq!(with_suffix("a.tar.gz", "1m"), "a.tar-1m.gz");
    assert_eq!(with_suffix(".hidden", "1m"), ".hidden-1m");
    assert_eq!(
        Path::new(&with_suffix("/tmp/x.json", "4096")),
        Path::new("/tmp/x-4096.json")
    );
    assert_eq!(suffixed_name(Some("x"), Some("json"), "1m"), "x-1m.json");
    assert_eq!(suffixed_name(None, None, "1m"), "-1m");
    assert_ne!(with_suffix("x.json", "1m"), with_suffix("x.json", "10m"));
}

#[test]
fn suffixes_keep_a_leading_dot_part() {
    assert_eq!(Path::new(&with_suffix("./x.json", "10m")), Path::new("./x-10m.json"));
    assert_eq!(Path::new(&with_suffix("../x.json", "10m")), Path::new("../x-10m.json"));
    assert_eq!(
        Path::new(&with_suffix("./../out/x.json", "10m")),
        Path::new("./../out/x-10m.json")
    );
    assert_eq!(Path::new(&with_suffix("a/../x", "1m")), Path::new("a/../x-1m"));
    assert_eq!(Path::new(&with_suffix("/../x.json", "1m")), Path::new("/../x-1m.json"));
}

#[test]
fn unwritable_results_are_refused() {
    assert_eq!(check_writable("result.json", ".", true, false), Ok(()));
    assert_eq!(
        check_writable("no/such/dir/x.json", "no/such/dir", false, false),
        Err("output directory no/such/dir does not exist".to_string())
    );
    assert_eq!(
        check_writable("/tmp", "/", true, true),
        Err("output path /tmp is a directory".to_string())
    );
    assert_eq!(output_directory(Some("")), ".");
    assert_eq!(output_directory(None), ".");
    assert_eq!(output_directory(Some("out")), "out");
}
