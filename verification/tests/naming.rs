use transcriber::naming::{derive_output_name, get_ext, strip_extension, str_eq};

#[test]
fn ext_of_simple_name() {
    assert_eq!(get_ext("a.m4a"), "m4a");
}

#[test]
fn ext_of_name_with_many_dots() {
    assert_eq!(get_ext("clip.v2.final.mov"), "mov");
}

#[test]
fn ext_of_dotless_name_is_whole_name() {
    assert_eq!(get_ext("recording"), "recording");
}

#[test]
fn ext_of_empty_name() {
    assert_eq!(get_ext(""), "");
}

#[test]
fn ext_of_trailing_dot_is_empty() {
    assert_eq!(get_ext("a."), "");
}

#[test]
fn stem_keeps_everything_before_last_dot() {
    assert_eq!(strip_extension("a.m4a"), "a");
    assert_eq!(strip_extension("clip.v2.final.mov"), "clip.v2.final");
}

#[test]
fn stem_of_dotless_name_is_empty() {
    assert_eq!(strip_extension("recording"), "");
}

#[test]
fn output_name_appends_txt() {
    assert_eq!(derive_output_name("a.m4a"), "a.txt");
    assert_eq!(derive_output_name("clip.v2.mov"), "clip.v2.txt");
}

#[test]
fn output_name_round_trip() {
    let once = derive_output_name("memo.old.m4a");
    let twice = derive_output_name(&once);
    assert_eq!(once, "memo.old.txt");
    assert_eq!(twice, once);
}

#[test]
fn output_names_of_distinct_stems_differ() {
    assert_ne!(derive_output_name("a.m4a"), derive_output_name("b.m4a"));
    assert_ne!(derive_output_name("a.b.m4a"), derive_output_name("ab.m4a"));
}

#[test]
fn str_eq_compares_contents() {
    assert!(str_eq("abc", "abc"));
    assert!(!str_eq("abc", "abd"));
    assert!(!str_eq("abc", "abcd"));
    assert!(str_eq("", ""));
}
