use sample_collapse::demangle::fix_partially_demangled_rust_symbol;
use sample_collapse::occurrences::Occurrences;
use sample_collapse::sample::Folder;
use sample_collapse::sample::Options;
use sample_collapse::strutil::parse_usize;

#[test]
fn applicability_end_without_start() {
    let mut folder = Folder::default();
    let r = folder.is_applicable("junk\nTotal number in stack: 3\nCall graph:\n");
    assert_eq!(r, Some(false));
}

#[test]
fn applicability_start_then_end() {
    let mut folder = Folder::default();
    let r = folder.is_applicable("junk\nCall graph:\n    5 main\nTotal number in stack: 3\n");
    assert_eq!(r, Some(true));
}

#[test]
fn applicability_indeterminate() {
    let mut folder = Folder::default();
    assert_eq!(folder.is_applicable("junk\nCall graph:\n    5 main\n"), None);
    assert_eq!(folder.is_applicable(""), None);
}

#[test]
fn line_parts_with_module() {
    let folder = Folder::default();
    let r = folder.line_parts("4282 __doworkq_kernreturn  (in libsystem_kernel.dylib) + 10 [0x7fff]");
    assert_eq!(r, Some(("4282", "__doworkq_kernreturn", "libsystem_kernel")));
}

#[test]
fn line_parts_without_parenthesis() {
    let folder = Folder::default();
    let r = folder.line_parts("848 other_func");
    assert_eq!(r, Some(("848", "other_func", "")));
}

#[test]
fn line_parts_module_not_dylib() {
    let folder = Folder::default();
    let r = folder.line_parts("90 main  (in MyApp) + 286 [0x1043a]");
    assert_eq!(r, Some(("90", "main", "MyApp")));
}

#[test]
fn line_parts_no_modules_option() {
    let folder = Folder::from(Options { no_modules: true });
    let r = folder.line_parts("90 main  (in MyApp) + 286 [0x1043a]");
    assert_eq!(r, Some(("90", "main", "")));
}

#[test]
fn line_parts_missing_rest_fails() {
    let folder = Folder::default();
    assert_eq!(folder.line_parts("5130"), None);
    assert_eq!(folder.line_parts(""), None);
}

#[test]
fn demangle_strips_trailing_hash() {
    assert_eq!(
        fix_partially_demangled_rust_symbol("std::panicking::try::do_call::h16e73fdb7a1790eb"),
        "std::panicking::try::do_call"
    );
}

#[test]
fn demangle_leaves_plain_symbols() {
    assert_eq!(fix_partially_demangled_rust_symbol("main"), "main");
    assert_eq!(
        fix_partially_demangled_rust_symbol("core::ptr::drop_in_place"),
        "core::ptr::drop_in_place"
    );
}

#[test]
fn demangle_rejects_short_or_non_hex_hash() {
    assert_eq!(fix_partially_demangled_rust_symbol("f::habc"), "f::habc");
    assert_eq!(
        fix_partially_demangled_rust_symbol("f::h16e73fdb7a1790ez"),
        "f::h16e73fdb7a1790ez"
    );
}

#[test]
fn occurrences_accumulate_and_clear() {
    let mut occ = Occurrences::new();
    occ.insert("a;b".to_string(), 5);
    occ.insert("c".to_string(), 1);
    occ.insert("a;b".to_string(), 7);
    assert_eq!(occ.len(), 2);
    let mut out = String::new();
    occ.write_and_clear(&mut out);
    assert_eq!(out, "a;b 12\nc 1\n");
    assert_eq!(occ.len(), 0);
    let mut out2 = String::new();
    occ.write_and_clear(&mut out2);
    assert_eq!(out2, "");
}

#[test]
fn line_parts_unclosed_module_annotation() {
    let folder = Folder::default();
    let r = folder.line_parts("7 func  (in Unfinished");
    assert_eq!(r, Some(("7", "func", "")));
}

#[test]
fn parse_usize_accepts_decimal_only() {
    assert_eq!(parse_usize("5130"), Some(5130));
    assert_eq!(parse_usize("+12"), Some(12));
    assert_eq!(parse_usize("0"), Some(0));
    assert_eq!(parse_usize(""), None);
    assert_eq!(parse_usize("12x"), None);
    assert_eq!(parse_usize("-3"), None);
    assert_eq!(parse_usize("99999999999999999999"), None);
    assert_eq!(parse_usize("18446744073709551615"), Some(usize::MAX));
}
