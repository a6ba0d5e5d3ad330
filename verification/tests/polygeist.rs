//! Attributes that a C front end leaves behind.

use autolala::polygeist::{is_foreign_attribute, strip_module_attributes};

#[test]
fn strips_module_attribute_dict() {
    let src = "module attributes {dlti.dl_spec = #dlti.dl_spec<#dlti.dl_entry<i128, dense<128> : vector<2xi32>>>, llvm.target_triple = \"aarch64\"} {\n  func.func @f() { return }\n}\n";
    let out = strip_module_attributes(src);
    assert!(out.starts_with("module {"), "{out}");
    assert!(!out.contains("dl_spec"), "{out}");
    assert!(out.contains("func.func @f"), "{out}");
}

#[test]
fn nested_braces_belong_to_the_dictionary() {
    let src = "module attributes {a = {b = {c}}, d} {\n}\n";
    assert_eq!(strip_module_attributes(src), "module {\n}\n");
}

#[test]
fn other_modules_are_left_alone() {
    for src in ["module {\n}\n", "", "module attributes {never closed"] {
        assert_eq!(strip_module_attributes(src), src);
    }
}

#[test]
fn foreign_attributes_are_known_by_their_dialect() {
    for name in ["llvm.linkage", "dlti.dl_spec", "polygeist.target-cpu"] {
        assert!(is_foreign_attribute(name), "{name}");
    }
    for name in ["slap.extract", "sym_name", "llvm", ""] {
        assert!(!is_foreign_attribute(name), "{name}");
    }
}
