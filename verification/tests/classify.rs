use bloaty_metafile::tool::{get_crate_name, symbol_is_crate};

#[test]
fn test_symbol_is_crate() {
    let test_cases = [
        ("[16482 Others]", false),
        (
            "_$LT$alloc..string..String$u20$as$u20$core..fmt..Write$GT$",
            false,
        ),
        ("valid_crate", true),
        ("another::valid::crate", true),
        ("invalid crate", false),
        ("..invalid", false),
    ];

    for (symbol, expected) in test_cases.iter() {
        assert_eq!(
            symbol_is_crate(symbol),
            *expected,
            "Failed for symbol: {}",
            symbol
        );
    }
}

#[test]
fn test_get_crate_name_angle_bracket() {
    // Test trait impl: <&core::alloc::layout::Layout as core::fmt::Debug>::fmt
    let result = get_crate_name("<&core::alloc::layout::Layout as core::fmt::Debug>::fmt");
    assert!(result.is_some());
    let (crate_name, parts) = result.unwrap();
    assert_eq!(crate_name, "core");
    assert_eq!(parts, vec!["core", "alloc", "layout", "Layout", "fmt"]);

    // Test type method: <url::Url>::set_password
    let result = get_crate_name("<url::Url>::set_password");
    assert!(result.is_some());
    let (crate_name, parts) = result.unwrap();
    assert_eq!(crate_name, "url");
    assert_eq!(parts, vec!["url", "Url", "set_password"]);

    // Test: <core::alloc::layout::LayoutError as core::fmt::Debug>::fmt
    let result = get_crate_name("<core::alloc::layout::LayoutError as core::fmt::Debug>::fmt");
    assert!(result.is_some());
    let (crate_name, parts) = result.unwrap();
    assert_eq!(crate_name, "core");
    assert_eq!(parts, vec!["core", "alloc", "layout", "LayoutError", "fmt"]);

    // Test regular symbol still works
    let result = get_crate_name("llrt_utils::clone::structured_clone");
    assert!(result.is_some());
    let (crate_name, parts) = result.unwrap();
    assert_eq!(crate_name, "llrt_utils");
    assert_eq!(parts, vec!["llrt_utils", "clone", "structured_clone"]);

    // Test nested angle brackets: <u8 as <[_]>::to_vec_in::ConvertVec>::to_vec::<>
    let result = get_crate_name("<u8 as <[_]>::to_vec_in::ConvertVec>::to_vec::<>");
    assert!(result.is_some());
    let (crate_name, parts) = result.unwrap();
    assert_eq!(crate_name, "std");
    assert_eq!(parts, vec!["std", "primitive", "u8", "to_vec"]);

    // Test closure syntax
    let result = get_crate_name("std::sys::backtrace::_print_fmt::{closure#1}::{closure#0}");
    assert!(result.is_some());
    let (crate_name, parts) = result.unwrap();
    assert_eq!(crate_name, "std");
    assert_eq!(
        parts,
        vec![
            "std",
            "sys",
            "backtrace",
            "_print_fmt",
            "{closure#1}",
            "{closure#0}"
        ]
    );

    // Test shim syntax
    let result = get_crate_name(
        "<signal_hook_registry::register::<>::{closure#0} as core::ops::function::FnOnce::<>>::call_once::{shim:vtable#0}",
    );
    assert!(result.is_some());
    let (crate_name, _parts) = result.unwrap();
    assert_eq!(crate_name, "signal_hook_registry");

    // Test double angle bracket with multiple "as" - should only keep innermost type + outermost method
    // Note: u64 is now normalized to std::primitive::u64
    let result = get_crate_name(
        "<<u64 as serde_core::de::Deserialize>::deserialize::PrimitiveVisitor as serde_core::de::Visitor>::expecting",
    );
    assert!(result.is_some());
    let (crate_name, parts) = result.unwrap();
    assert_eq!(crate_name, "std");
    assert_eq!(
        parts,
        vec!["std", "primitive", "u64", "expecting"],
        "parts: {:?}",
        parts
    );

    // Test another complex case with multiple as
    let result = get_crate_name(
        "<<easy_install::manfiest::AssetKind as serde_core::de::Deserialize>::deserialize::__FieldVisitor as serde_core::de::Visitor>::expecting",
    );
    assert!(result.is_some());
    let (crate_name, parts) = result.unwrap();
    assert_eq!(crate_name, "easy_install");
    assert_eq!(
        parts,
        vec!["easy_install", "manfiest", "AssetKind", "expecting"],
        "parts: {:?}",
        parts
    );

    // Test unit type ()
    let result = get_crate_name("<() as rquickjs_core::value::convert::IntoJs>::into_js");
    assert!(result.is_some());
    let (crate_name, parts) = result.unwrap();
    assert_eq!(crate_name, "std");
    assert_eq!(
        parts,
        vec!["std", "primitive", "unit", "into_js"],
        "parts: {:?}",
        parts
    );

    // Test &str type
    let result = get_crate_name("<&str as rquickjs_core::value::convert::IntoJs>::into_js");
    assert!(result.is_some());
    let (crate_name, parts) = result.unwrap();
    assert_eq!(crate_name, "std");
    assert_eq!(
        parts,
        vec!["std", "primitive", "str", "into_js"],
        "parts: {:?}",
        parts
    );

    // Test *mut pointer type
    let result = get_crate_name("<*mut core::ffi::c_void as core::fmt::Debug>::fmt");
    assert!(result.is_some());
    let (crate_name, parts) = result.unwrap();
    assert_eq!(crate_name, "core");
    assert_eq!(parts, vec!["core", "ffi", "c_void", "fmt"], "parts: {:?}", parts);

    // Test slice type [u8]
    let result = get_crate_name("<[u8] as core::fmt::Debug>::fmt");
    assert!(result.is_some());
    let (crate_name, parts) = result.unwrap();
    assert_eq!(crate_name, "std");
    assert_eq!(
        parts,
        vec!["std", "primitive", "slice", "fmt"],
        "parts: {:?}",
        parts
    );

    // Test tuple type
    let result = get_crate_name("<(swc_common::syntax_pos::Span, swc_ecma_parser::error::SyntaxError) as core::clone::Clone>::clone");
    assert!(result.is_some());
    let (crate_name, parts) = result.unwrap();
    assert_eq!(crate_name, "std");
    assert_eq!(
        parts,
        vec!["std", "primitive", "tuple", "clone"],
        "parts: {:?}",
        parts
    );

    // Test C++ style symbols - <> and () should be removed
    let result = get_crate_name("snmalloc::FreeListMPSCQ<>::destroy_and_iterate<>()");
    assert!(result.is_some());
    let (crate_name, parts) = result.unwrap();
    assert_eq!(crate_name, "snmalloc");
    assert_eq!(
        parts,
        vec!["snmalloc", "FreeListMPSCQ", "destroy_and_iterate"],
        "parts: {:?}",
        parts
    );

    // Test C++ style with template
    let result = get_crate_name("snmalloc::LocalAllocator<>::init()");
    assert!(result.is_some());
    let (crate_name, parts) = result.unwrap();
    assert_eq!(crate_name, "snmalloc");
    assert_eq!(
        parts,
        vec!["snmalloc", "LocalAllocator", "init"],
        "parts: {:?}",
        parts
    );

    // Test C++ style static member
    let result = get_crate_name("snmalloc::StandardConfigClientMeta<>::initialisation_lock");
    assert!(result.is_some());
    let (crate_name, parts) = result.unwrap();
    assert_eq!(crate_name, "snmalloc");
    assert_eq!(
        parts,
        vec!["snmalloc", "StandardConfigClientMeta", "initialisation_lock"],
        "parts: {:?}",
        parts
    );
}

#[test]
fn unclassified_symbols() {
    // A bracketed aggregate marker has no owner.
    assert!(get_crate_name("[1848 Others]").is_none());
    // Any symbol containing ".." has no owner, wherever the dots stand.
    assert!(get_crate_name("alloc..string..String::push").is_none());
    assert!(get_crate_name("a::b..c").is_none());
    assert!(get_crate_name("<a..b as core::fmt::Debug>::fmt").is_none());
    assert!(get_crate_name("_$LT$alloc..string..String$u20$as$u20$core..fmt..Write$GT$").is_none());
    // A single segment with no further structure has no owner.
    assert!(get_crate_name("main").is_none());
    // Empty text has no owner.
    assert!(get_crate_name("").is_none());
}
