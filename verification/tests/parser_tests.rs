use atomic_flow_engine::parser::{
    extract_class_name, extract_exports, extract_function_name, extract_import_source, extract_imports,
    extract_quoted_string, extract_require_source, extract_type_name, extract_variable_name, is_hidden,
    parse_source, ParseResult,
};

#[test]
fn test_extract_imports() {
    let content = r#"
            import { Foo } from "./components";
            import React from 'react';
            import * as utils from "@/utils";
            const lib = require("lib-name");
            // import { commented } from "commented";
        "#;

    let imports = extract_imports(content);

    assert_eq!(imports.len(), 4);

    // Assertions for specific imports
    assert!(imports.iter().any(|i| i.source == "./components" && !i.is_default && !i.is_namespace));
    assert!(imports.iter().any(|i| i.source == "react" && i.is_default));
    assert!(imports.iter().any(|i| i.source == "@/utils" && i.is_namespace));
    assert!(imports.iter().any(|i| i.source == "lib-name" && i.is_default)); // require is treated as default
}

#[test]
fn imports_come_in_line_order() {
    let imports = extract_imports("import a from './a'\r\nimport './b';\n\timport type { T } from `./t`\n");
    let sources: Vec<&str> = imports.iter().map(|i| i.source.as_str()).collect();
    assert_eq!(sources, vec!["./a", "./b", "./t"]);
    assert!(imports[0].is_default && !imports[0].is_namespace);
    assert!(imports[1].is_default);
    assert!(!imports[2].is_default);
}

#[test]
fn comment_lines_give_no_imports() {
    assert!(extract_imports("// import x from 'x'\n/* require('y') */\n * import z from 'z'").is_empty());
    assert!(extract_imports("").is_empty());
    assert!(extract_imports("importx from 'x'").is_empty());
}

#[test]
fn a_line_can_give_an_import_and_a_require() {
    let imports = extract_imports("import x = require('x');");
    assert_eq!(imports.len(), 2);
    assert_eq!(imports[0].source, "x");
    assert_eq!(imports[1].source, "x");
    assert!(imports[1].is_default && !imports[1].is_namespace);
}

#[test]
fn quoted_string_prefers_single_quotes() {
    assert_eq!(extract_quoted_string("a \"b\" 'c'"), Some("c".to_string()));
    assert_eq!(extract_quoted_string("a \"b\" 'c"), Some("b".to_string()));
    assert_eq!(extract_quoted_string("`t` x"), Some("t".to_string()));
    assert_eq!(extract_quoted_string("''"), Some(String::new()));
    assert_eq!(extract_quoted_string("no quotes"), None);
    assert_eq!(extract_quoted_string("one ' only"), None);
}

#[test]
fn import_source_is_taken_after_the_last_from() {
    assert_eq!(extract_import_source("import { a } from 'x' from \"y\""), Some("y".to_string()));
    assert_eq!(extract_import_source("import 'polyfill'"), Some("polyfill".to_string()));
    assert_eq!(extract_import_source("import x from y"), None);
}

#[test]
fn require_source_follows_the_first_call() {
    assert_eq!(extract_require_source("'a'; require('b'); require('c')"), Some("b".to_string()));
    assert_eq!(extract_require_source("requir('b')"), None);
    assert_eq!(extract_require_source("require(x)"), None);
}

#[test]
fn test_extract_exports() {
    let content = r#"
            export default class Main {}
            export const constant = 1;
            export function helper() {}
            export interface Config {}
        "#;

    let exports = extract_exports(content);

    assert_eq!(exports.len(), 4);

    assert!(exports.iter().any(|e| e.name == "default" && e.is_default));
    assert!(exports.iter().any(|e| e.name == "constant" && !e.is_default));
    assert!(exports.iter().any(|e| e.name == "helper" && !e.is_default));
    assert!(exports.iter().any(|e| e.name == "Config" && !e.is_default));
}

#[test]
fn export_names_are_cut_at_punctuation() {
    assert_eq!(extract_variable_name("export const a: number = 1"), Some("a".to_string()));
    assert_eq!(extract_variable_name("export let b=,: 2"), Some("b".to_string()));
    assert_eq!(extract_variable_name("export const _x = 1"), None);
    assert_eq!(extract_variable_name("export const {a} = o"), None);
    assert_eq!(extract_variable_name("export const"), None);
    assert_eq!(extract_function_name("export function f(a, b) {}"), Some("f".to_string()));
    assert_eq!(extract_function_name("export function (a) {}"), None);
    assert_eq!(extract_function_name("export function   g"), Some("g".to_string()));
    assert_eq!(extract_class_name("export class Main{} "), Some("Main".to_string()));
    assert_eq!(extract_class_name("export class {}"), None);
    assert_eq!(extract_type_name("export type Id<T>= string"), Some("Id<T".to_string()));
    assert_eq!(extract_type_name("export interface Shape_2;"), Some("Shape_2".to_string()));
}

#[test]
fn exports_come_in_line_order_and_skip_comments() {
    let exports = extract_exports(
        "export var v = 1\n// export const hidden = 1\nexport type T = number;\nexport default 3\nexport enum E {}",
    );
    let names: Vec<(&str, bool)> = exports.iter().map(|e| (e.name.as_str(), e.is_default)).collect();
    assert_eq!(names, vec![("v", false), ("T", false), ("default", true)]);
}

#[test]
fn parse_source_counts_lines_and_checks_the_extension() {
    let text = "import a from './a'\nexport const b = 1\n";
    let r = parse_source(text, "ts");
    assert_eq!(r.line_count, 2);
    assert_eq!(r.imports.len(), 1);
    assert_eq!(r.exports.len(), 1);
    let r = parse_source(text, "md");
    assert_eq!(r.line_count, 2);
    assert!(r.imports.is_empty() && r.exports.is_empty());
    assert_eq!(parse_source("", "js").line_count, 0);
    assert_eq!(parse_source("x", "vue").line_count, 1);
    assert_eq!(parse_source("\n", "cjs").line_count, 1);
    assert_eq!(parse_source("a\r\nb", "mjs").line_count, 2);
    let d = ParseResult::default();
    assert_eq!(d.line_count, 0);
}

#[test]
fn hidden_names() {
    for name in [".git", ".", "node_modules", "target", "dist", "out", "build", "__pycache__"] {
        assert!(is_hidden(name));
    }
    for name in ["src", "targets", "Build", "", "a.b"] {
        assert!(!is_hidden(name));
    }
}

#[test]
fn lines_are_trimmed_of_unicode_white_space() {
    let imports = extract_imports("\u{a0}\u{2003}import a from './a'\u{3000}\u{85}\n\u{b}import b from './b'\u{c}");
    let sources: Vec<&str> = imports.iter().map(|i| i.source.as_str()).collect();
    assert_eq!(sources, vec!["./a", "./b"]);
    // A zero-width space is not white space, so the line does not start with `import`.
    assert!(extract_imports("\u{200b}import a from './a'").is_empty());
}
