use sharpdx::filename::{append_ext_if_missing, append_ext_to, basename_from_stem, ext_for, synth_basename};
use sharpdx::header::FileType;

#[test]
fn ext_for_types() {
    assert_eq!(ext_for(FileType::Basic), "bas");
    assert_eq!(ext_for(FileType::Machine), "bin");
    assert_eq!(ext_for(FileType::Reserve), "sdar");
    assert_eq!(ext_for(FileType::Variables), "sdav");
}

#[test]
fn append_ext_only_if_missing() {
    assert_eq!(append_ext_if_missing("prog", "bas"), "prog.bas");
    assert_eq!(append_ext_if_missing("prog.bin", "bas"), "prog.bin");
    assert_eq!(append_ext_if_missing("dir/prog", "bin"), "dir/prog.bin");
}

#[test]
fn synth_basename_truncates_and_uppercases() {
    assert_eq!(synth_basename("myprogram.bin"), "MYPROGRAM");
    assert_eq!(synth_basename("dir/prog"), "PROG");
    assert_eq!(synth_basename("a-very-long-file-name.bin"), "A-VERY-LONG-FILE");
    assert_eq!(synth_basename(""), "");
}

#[test]
fn extension_rules_on_given_file_names() {
    assert_eq!(append_ext_to("a.b/prog", Some("prog"), "bas"), "a.b/prog.bas");
    assert_eq!(append_ext_to("x", None, "bin"), "x.bin");
    assert_eq!(basename_from_stem("ümlaut-and-more-than-16"), "üMLAUT-AND-MORE-");
}
