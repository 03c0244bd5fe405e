//! Line-by-line extraction of imports and exports from TypeScript and
//! JavaScript sources. The extraction is a heuristic on the text of each
//! line; nothing is parsed.

use vstd::prelude::*;
use crate::paths::{lemma_split_has_a_piece, split, split_on};
use crate::text::{
    alphabetic, alphanumeric, begins_with, chars_of, contains_text, find_text, first_occurrence,
    has_text, is_alphabetic, is_alphanumeric, is_text, keep_nonempty, nonempty, occurs_at, segments_view,
    slice_of, split_at_spaces, split_spaces, string_of, trim, trimmed,
};

verus! {

/// An import found in a file.
#[derive(Debug, Clone)]
pub struct ImportInfo {
    /// The imported path, as written (`./utils`, `@/components/Button`).
    pub source: String,
    /// Whether this is a default import.
    pub is_default: bool,
    /// Whether this is a namespace import (`import * as x`).
    pub is_namespace: bool,
}

/// An export found in a file.
#[derive(Debug, Clone)]
pub struct ExportInfo {
    /// The exported name.
    pub name: String,
    /// Whether this is the default export.
    pub is_default: bool,
}

/// What was found in one file.
#[derive(Debug)]
pub struct ParseResult {
    pub imports: Vec<ImportInfo>,
    pub exports: Vec<ExportInfo>,
    pub line_count: usize,
}

impl Default for ParseResult {
    fn default() -> (r: Self)
        ensures
            r.imports@.len() == 0,
            r.exports@.len() == 0,
            r.line_count == 0,
    {
        ParseResult { imports: Vec::new(), exports: Vec::new(), line_count: 0 }
    }
}

/// An import as plain values: source, default, namespace.
pub open spec fn import_model(i: ImportInfo) -> (Seq<char>, bool, bool) {
    (i.source@, i.is_default, i.is_namespace)
}

pub open spec fn imports_view(v: Seq<ImportInfo>) -> Seq<(Seq<char>, bool, bool)> {
    v.map_values(|i: ImportInfo| import_model(i))
}

/// The text of an optional string.
pub open spec fn option_text(o: Option<String>) -> Option<Seq<char>> {
    match o {
        Some(s) => Some(s@),
        None => None,
    }
}

/// The text between the first `q` and the next `q` after it.
pub open spec fn quoted_by(text: Seq<char>, q: char) -> Option<Seq<char>> {
    let a = first_occurrence(text, seq![q], 0);
    if a < 0 {
        None
    } else {
        let b = first_occurrence(text, seq![q], a + 1);
        if b < 0 {
            None
        } else {
            Some(text.subrange(a + 1, b))
        }
    }
}

/// The first quoted text: in single quotes if there is a pair of them, else
/// in double quotes, else in backticks.
pub open spec fn quoted_string(text: Seq<char>) -> Option<Seq<char>> {
    if quoted_by(text, '\'') is Some {
        quoted_by(text, '\'')
    } else if quoted_by(text, '"') is Some {
        quoted_by(text, '"')
    } else {
        quoted_by(text, '`')
    }
}

/// What follows the last of the separators `p` that are found in `s` from
/// `from` on, from left to right and without overlap.
pub open spec fn after_separators(s: Seq<char>, p: Seq<char>, from: int) -> Seq<char>
    decreases s.len() - from,
{
    let i = first_occurrence(s, p, from);
    if 0 <= from <= i && i + p.len() <= s.len() && p.len() > 0 {
        after_separators(s, p, i + p.len())
    } else {
        s.skip(from)
    }
}

/// The source of an import statement: the quoted text after the last
/// ` from `, or in the whole line if there is none.
pub open spec fn import_source(line: Seq<char>) -> Option<Seq<char>> {
    quoted_string(after_separators(line, " from "@, 0))
}

/// The source of a `require(` call: the quoted text after the first one.
pub open spec fn require_source(line: Seq<char>) -> Option<Seq<char>> {
    let a = first_occurrence(line, "require("@, 0);
    if a < 0 {
        None
    } else {
        quoted_string(line.skip(a + 8))
    }
}

/// A line that starts like a comment.
pub open spec fn is_comment(line: Seq<char>) -> bool {
    occurs_at(line, "//"@, 0) || occurs_at(line, "/*"@, 0) || occurs_at(line, "*"@, 0)
}

/// An import counts as a default import unless it has braces, a star or
/// the word `type` after `import`.
pub open spec fn is_default_import(line: Seq<char>) -> bool {
    contains_text(line, "import "@) && !contains_text(line, "import {"@) && !contains_text(
        line,
        "import *"@,
    ) && !contains_text(line, "import type "@)
}

/// The imports of one trimmed line: at most one for an `import` statement,
/// then at most one for a `require(` call.
pub open spec fn line_imports(line: Seq<char>) -> Seq<(Seq<char>, bool, bool)> {
    if is_comment(line) {
        Seq::empty()
    } else {
        let first = if occurs_at(line, "import "@, 0) && import_source(line) is Some {
            seq![(import_source(line)->0, is_default_import(line), contains_text(line, "import * as"@))]
        } else {
            Seq::empty()
        };
        let second = if contains_text(line, "require("@) && require_source(line) is Some {
            seq![(require_source(line)->0, true, false)]
        } else {
            Seq::empty()
        };
        first + second
    }
}

/// The imports of the lines, in their order.
pub open spec fn imports_in(lines: Seq<Seq<char>>) -> Seq<(Seq<char>, bool, bool)>
    decreases lines.len(),
{
    if lines.len() == 0 {
        Seq::empty()
    } else {
        imports_in(lines.drop_last()) + line_imports(trimmed(lines.last()))
    }
}

/// The imports of a source text. Its lines end at `\n`; each is trimmed
/// before it is looked at.
pub open spec fn imports_of(content: Seq<char>) -> Seq<(Seq<char>, bool, bool)> {
    imports_in(split_on(content, '\n'))
}

fn quoted_by_in(text: &Vec<char>, q: char) -> (r: Option<Vec<char>>)
    ensures
        match r {
            Some(v) => quoted_by(text@, q) == Some(v@),
            None => quoted_by(text@, q) is None,
        },
{
    let mut pat: Vec<char> = Vec::new();
    pat.push(q);
    proof {
        assert(pat@ =~= seq![q]);
    }
    match find_text(text, &pat, 0) {
        Some(a) => match find_text(text, &pat, a + 1) {
            Some(b) => Some(slice_of(text, a + 1, b)),
            None => None,
        },
        None => None,
    }
}

/// The first quoted text in `text`.
pub fn quoted_string_in(text: &Vec<char>) -> (r: Option<Vec<char>>)
    ensures
        match r {
            Some(v) => quoted_string(text@) == Some(v@),
            None => quoted_string(text@) is None,
        },
{
    match quoted_by_in(text, '\'') {
        Some(v) => Some(v),
        None => match quoted_by_in(text, '"') {
            Some(v) => Some(v),
            None => quoted_by_in(text, '`'),
        },
    }
}

fn after_last_separator(s: &Vec<char>, p: &Vec<char>) -> (r: Vec<char>)
    requires
        p.len() > 0,
    ensures
        r@ == after_separators(s@, p@, 0),
{
    let mut pos: usize = 0;
    loop
        invariant
            pos <= s.len(),
            p.len() > 0,
            after_separators(s@, p@, pos as int) == after_separators(s@, p@, 0),
        ensures
            pos <= s.len(),
            after_separators(s@, p@, 0) == s@.skip(pos as int),
        decreases s.len() - pos,
    {
        match find_text(s, p, pos) {
            Some(i) => {
                pos = i + p.len();
            },
            None => {
                break ;
            },
        }
    }
    proof {
        assert(s@.skip(pos as int) =~= s@.subrange(pos as int, s.len() as int));
    }
    slice_of(s, pos, s.len())
}

fn import_source_in(line: &Vec<char>) -> (r: Option<Vec<char>>)
    ensures
        match r {
            Some(v) => import_source(line@) == Some(v@),
            None => import_source(line@) is None,
        },
{
    let sep = chars_of(" from ");
    proof {
        reveal_strlit(" from ");
    }
    let last = after_last_separator(line, &sep);
    quoted_string_in(&last)
}

fn require_source_in(line: &Vec<char>) -> (r: Option<Vec<char>>)
    ensures
        match r {
            Some(v) => require_source(line@) == Some(v@),
            None => require_source(line@) is None,
        },
{
    let word = chars_of("require(");
    proof {
        reveal_strlit("require(");
    }
    match find_text(line, &word, 0) {
        Some(a) => {
            let rest = slice_of(line, a + 8, line.len());
            proof {
                assert(rest@ =~= line@.skip(a + 8));
            }
            quoted_string_in(&rest)
        },
        None => None,
    }
}

fn to_option_string(o: Option<Vec<char>>) -> (r: Option<String>)
    ensures
        match o {
            Some(v) => option_text(r) == Some(v@),
            None => r is None,
        },
{
    match o {
        Some(v) => Some(string_of(&v)),
        None => None,
    }
}

/// The first quoted text in `text`, if there is one.
pub fn extract_quoted_string(text: &str) -> (r: Option<String>)
    ensures
        option_text(r) == quoted_string(text@),
{
    let chars = chars_of(text);
    to_option_string(quoted_string_in(&chars))
}

/// The source of an import statement, if one is found.
pub fn extract_import_source(line: &str) -> (r: Option<String>)
    ensures
        option_text(r) == import_source(line@),
{
    let chars = chars_of(line);
    to_option_string(import_source_in(&chars))
}

/// The source of a `require(` call, if one is found.
pub fn extract_require_source(line: &str) -> (r: Option<String>)
    ensures
        option_text(r) == require_source(line@),
{
    let chars = chars_of(line);
    to_option_string(require_source_in(&chars))
}

fn starts_like_comment(line: &Vec<char>) -> (r: bool)
    ensures
        r == is_comment(line@),
{
    begins_with(line, "//") || begins_with(line, "/*") || begins_with(line, "*")
}

/// Adds the imports of one trimmed line to `out`.
fn push_line_imports(line: &Vec<char>, out: &mut Vec<ImportInfo>)
    ensures
        imports_view(final(out)@) == imports_view(old(out)@) + line_imports(line@),
{
    let ghost before = imports_view(out@);
    if starts_like_comment(line) {
        proof {
            assert(before + line_imports(line@) =~= before);
        }
        return ;
    }
    if begins_with(line, "import ") {
        match import_source_in(line) {
            Some(source) => {
                let is_default = has_text(line, "import ") && !has_text(line, "import {") && !has_text(
                    line,
                    "import *",
                ) && !has_text(line, "import type ");
                let is_namespace = has_text(line, "import * as");
                let ghost sofar = imports_view(out@);
                out.push(ImportInfo { source: string_of(&source), is_default, is_namespace });
                proof {
                    assert(imports_view(out@) =~= sofar.push((source@, is_default, is_namespace)));
                }
            },
            None => {},
        }
    }
    if has_text(line, "require(") {
        match require_source_in(line) {
            Some(source) => {
                let ghost sofar = imports_view(out@);
                out.push(ImportInfo { source: string_of(&source), is_default: true, is_namespace: false });
                proof {
                    assert(imports_view(out@) =~= sofar.push((source@, true, false)));
                }
            },
            None => {},
        }
    }
    proof {
        assert(imports_view(out@) =~= before + line_imports(line@));
    }
}

/// Extracts the imports of a source text, line by line: `import` statements
/// and `require(` calls on lines that do not start like a comment.
pub fn extract_imports(content: &str) -> (r: Vec<ImportInfo>)
    ensures
        imports_view(r@) == imports_of(content@),
{
    let chars = chars_of(content);
    let lines = split(&chars, '\n');
    let ghost all = segments_view(lines@);
    let mut out: Vec<ImportInfo> = Vec::new();
    let mut i: usize = 0;
    proof {
        assert(imports_view(out@) =~= Seq::empty());
    }
    while i < lines.len()
        invariant
            i <= lines.len(),
            all == segments_view(lines@),
            imports_view(out@) == imports_in(all.take(i as int)),
        decreases lines.len() - i,
    {
        proof {
            assert(all.take(i as int + 1).drop_last() =~= all.take(i as int));
            assert(all.take(i as int + 1).last() == lines[i as int]@);
        }
        let line = trim(&lines[i]);
        push_line_imports(&line, &mut out);
        i += 1;
    }
    proof {
        assert(all.take(lines.len() as int) =~= all);
    }
    out
}

/// An export as plain values: name, default.
pub open spec fn export_model(e: ExportInfo) -> (Seq<char>, bool) {
    (e.name@, e.is_default)
}

pub open spec fn exports_view(v: Seq<ExportInfo>) -> Seq<(Seq<char>, bool)> {
    v.map_values(|e: ExportInfo| export_model(e))
}

/// The third of the words of a line, where words are separated by white
/// space.
pub open spec fn third_word(line: Seq<char>) -> Option<Seq<char>> {
    let words = nonempty(split_at_spaces(line));
    if words.len() >= 3 {
        Some(words[2])
    } else {
        None
    }
}

/// `s` without the `:`, `=` and `,` at its end.
pub open spec fn strip_value_end(s: Seq<char>) -> Seq<char>
    decreases s.len(),
{
    if s.len() > 0 && (s.last() == ':' || s.last() == '=' || s.last() == ',') {
        strip_value_end(s.drop_last())
    } else {
        s
    }
}

/// A character of a name: alphabetic, numeric or `_`.
pub open spec fn is_name_char(c: char) -> bool {
    alphanumeric(c) || c == '_'
}

/// `s` without the characters at its end that are not of a name.
pub open spec fn strip_name_end(s: Seq<char>) -> Seq<char>
    decreases s.len(),
{
    if s.len() > 0 && !is_name_char(s.last()) {
        strip_name_end(s.drop_last())
    } else {
        s
    }
}

/// `s` up to its first `c`, or all of it.
pub open spec fn before_first(s: Seq<char>, c: char) -> Seq<char> {
    let i = first_occurrence(s, seq![c], 0);
    if i < 0 {
        s
    } else {
        s.subrange(0, i)
    }
}

/// A name, if it is not empty.
pub open spec fn if_nonempty(name: Seq<char>) -> Option<Seq<char>> {
    if name.len() > 0 {
        Some(name)
    } else {
        None
    }
}

/// The name in `export const NAME = ...`: the third word without `:`, `=`
/// and `,` at its end, if it begins with an alphabetic character.
pub open spec fn variable_name(line: Seq<char>) -> Option<Seq<char>> {
    match third_word(line) {
        Some(w) => {
            let name = strip_value_end(w);
            if name.len() > 0 && alphabetic(name[0]) {
                Some(name)
            } else {
                None
            }
        },
        None => None,
    }
}

/// The name in `export function NAME(...`: the third word up to its first
/// `(`, if that is not empty.
pub open spec fn function_name(line: Seq<char>) -> Option<Seq<char>> {
    match third_word(line) {
        Some(w) => if_nonempty(trimmed(before_first(w, '('))),
        None => None,
    }
}

/// The name in `export class NAME ...` and in `export interface NAME ...`:
/// the third word without what is not of a name at its end, if that is not
/// empty.
pub open spec fn declared_name(line: Seq<char>) -> Option<Seq<char>> {
    match third_word(line) {
        Some(w) => if_nonempty(strip_name_end(w)),
        None => None,
    }
}

/// The export of a declaration with the given name, if there is a name.
pub open spec fn named_export(name: Option<Seq<char>>) -> Option<(Seq<char>, bool)> {
    match name {
        Some(n) => Some((n, false)),
        None => None,
    }
}

/// The export of one trimmed line, if it has one.
pub open spec fn line_export(line: Seq<char>) -> Option<(Seq<char>, bool)> {
    if is_comment(line) {
        None
    } else if occurs_at(line, "export default "@, 0) {
        Some(("default"@, true))
    } else if occurs_at(line, "export const "@, 0) || occurs_at(line, "export let "@, 0) || occurs_at(
        line,
        "export var "@,
        0,
    ) {
        named_export(variable_name(line))
    } else if occurs_at(line, "export function "@, 0) {
        named_export(function_name(line))
    } else if occurs_at(line, "export class "@, 0) {
        named_export(declared_name(line))
    } else if occurs_at(line, "export interface "@, 0) || occurs_at(line, "export type "@, 0) {
        named_export(declared_name(line))
    } else {
        None
    }
}

/// The exports of the lines, in their order.
pub open spec fn exports_in(lines: Seq<Seq<char>>) -> Seq<(Seq<char>, bool)>
    decreases lines.len(),
{
    if lines.len() == 0 {
        Seq::empty()
    } else {
        let rest = exports_in(lines.drop_last());
        match line_export(trimmed(lines.last())) {
            Some(e) => rest.push(e),
            None => rest,
        }
    }
}

/// The exports of a source text. Its lines end at `\n`; each is trimmed
/// before it is looked at.
pub open spec fn exports_of(content: Seq<char>) -> Seq<(Seq<char>, bool)> {
    exports_in(split_on(content, '\n'))
}

fn third_word_in(line: &Vec<char>) -> (r: Option<Vec<char>>)
    ensures
        match r {
            Some(w) => third_word(line@) == Some(w@),
            None => third_word(line@) is None,
        },
{
    let pieces = split_spaces(line);
    let words = keep_nonempty(&pieces);
    if words.len() >= 3 {
        let w = slice_of(&words[2], 0, words[2].len());
        proof {
            assert(w@ =~= words[2]@);
            assert(segments_view(words@)[2] == words[2]@);
        }
        Some(w)
    } else {
        None
    }
}

fn strip_value_end_in(w: &Vec<char>) -> (r: Vec<char>)
    ensures
        r@ == strip_value_end(w@),
{
    let mut b: usize = w.len();
    let mut go = true;
    proof {
        assert(w@.subrange(0, b as int) =~= w@);
    }
    while go && b > 0
        invariant
            b <= w.len(),
            strip_value_end(w@) == strip_value_end(w@.subrange(0, b as int)),
            !go ==> b > 0 && !(w[b - 1] == ':' || w[b - 1] == '=' || w[b - 1] == ','),
        decreases b + (if go { 1int } else { 0int }),
    {
        let c = w[b - 1];
        if c == ':' || c == '=' || c == ',' {
            proof {
                assert(w@.subrange(0, b as int).drop_last() =~= w@.subrange(0, b as int - 1));
            }
            b -= 1;
        } else {
            go = false;
        }
    }
    slice_of(w, 0, b)
}

fn strip_name_end_in(w: &Vec<char>) -> (r: Vec<char>)
    ensures
        r@ == strip_name_end(w@),
{
    let mut b: usize = w.len();
    let mut go = true;
    proof {
        assert(w@.subrange(0, b as int) =~= w@);
    }
    while go && b > 0
        invariant
            b <= w.len(),
            strip_name_end(w@) == strip_name_end(w@.subrange(0, b as int)),
            !go ==> b > 0 && is_name_char(w[b - 1]),
        decreases b + (if go { 1int } else { 0int }),
    {
        let c = w[b - 1];
        if !is_alphanumeric(c) && c != '_' {
            proof {
                assert(w@.subrange(0, b as int).drop_last() =~= w@.subrange(0, b as int - 1));
            }
            b -= 1;
        } else {
            go = false;
        }
    }
    slice_of(w, 0, b)
}

fn variable_name_in(line: &Vec<char>) -> (r: Option<Vec<char>>)
    ensures
        match r {
            Some(v) => variable_name(line@) == Some(v@),
            None => variable_name(line@) is None,
        },
{
    match third_word_in(line) {
        Some(w) => {
            let name = strip_value_end_in(&w);
            if name.len() > 0 && is_alphabetic(name[0]) {
                Some(name)
            } else {
                None
            }
        },
        None => None,
    }
}

fn function_name_in(line: &Vec<char>) -> (r: Option<Vec<char>>)
    ensures
        match r {
            Some(v) => function_name(line@) == Some(v@),
            None => function_name(line@) is None,
        },
{
    match third_word_in(line) {
        Some(w) => {
            let mut pat: Vec<char> = Vec::new();
            pat.push('(');
            proof {
                assert(pat@ =~= seq!['(']);
            }
            let head = match find_text(&w, &pat, 0) {
                Some(i) => slice_of(&w, 0, i),
                None => {
                    let all = slice_of(&w, 0, w.len());
                    proof {
                        assert(all@ =~= w@);
                    }
                    all
                },
            };
            let name = trim(&head);
            if name.len() > 0 {
                Some(name)
            } else {
                None
            }
        },
        None => None,
    }
}

fn type_name_in(line: &Vec<char>) -> (r: Option<Vec<char>>)
    ensures
        match r {
            Some(v) => declared_name(line@) == Some(v@),
            None => declared_name(line@) is None,
        },
{
    match third_word_in(line) {
        Some(w) => {
            let name = strip_name_end_in(&w);
            if name.len() > 0 {
                Some(name)
            } else {
                None
            }
        },
        None => None,
    }
}

/// The name of an exported `const`, `let` or `var`.
pub fn extract_variable_name(line: &str) -> (r: Option<String>)
    ensures
        option_text(r) == variable_name(line@),
{
    let chars = chars_of(line);
    to_option_string(variable_name_in(&chars))
}

/// The name of an exported function.
pub fn extract_function_name(line: &str) -> (r: Option<String>)
    ensures
        option_text(r) == function_name(line@),
{
    let chars = chars_of(line);
    to_option_string(function_name_in(&chars))
}

/// The name of an exported class.
pub fn extract_class_name(line: &str) -> (r: Option<String>)
    ensures
        option_text(r) == declared_name(line@),
{
    let chars = chars_of(line);
    to_option_string(type_name_in(&chars))
}

/// The name of an exported interface or type.
pub fn extract_type_name(line: &str) -> (r: Option<String>)
    ensures
        option_text(r) == declared_name(line@),
{
    let chars = chars_of(line);
    to_option_string(type_name_in(&chars))
}

/// The export of one trimmed line, with its name still as characters.
fn line_export_in(line: &Vec<char>) -> (r: Option<(Vec<char>, bool)>)
    ensures
        match r {
            Some(e) => line_export(line@) == Some((e.0@, e.1)),
            None => line_export(line@) is None,
        },
{
    if starts_like_comment(line) {
        return None;
    }
    if begins_with(line, "export default ") {
        return Some((chars_of("default"), true));
    }
    let name = if begins_with(line, "export const ") || begins_with(line, "export let ") || begins_with(
        line,
        "export var ",
    ) {
        variable_name_in(line)
    } else if begins_with(line, "export function ") {
        function_name_in(line)
    } else if begins_with(line, "export class ") {
        type_name_in(line)
    } else if begins_with(line, "export interface ") || begins_with(line, "export type ") {
        type_name_in(line)
    } else {
        None
    };
    match name {
        Some(n) => Some((n, false)),
        None => None,
    }
}

/// Extracts the exports of a source text, line by line: `export default`,
/// and exported variables, functions, classes, interfaces and types, on
/// lines that do not start like a comment.
pub fn extract_exports(content: &str) -> (r: Vec<ExportInfo>)
    ensures
        exports_view(r@) == exports_of(content@),
{
    let chars = chars_of(content);
    let lines = split(&chars, '\n');
    let ghost all = segments_view(lines@);
    let mut out: Vec<ExportInfo> = Vec::new();
    let mut i: usize = 0;
    proof {
        assert(exports_view(out@) =~= Seq::empty());
    }
    while i < lines.len()
        invariant
            i <= lines.len(),
            all == segments_view(lines@),
            exports_view(out@) == exports_in(all.take(i as int)),
        decreases lines.len() - i,
    {
        proof {
            assert(all.take(i as int + 1).drop_last() =~= all.take(i as int));
            assert(all.take(i as int + 1).last() == lines[i as int]@);
        }
        let line = trim(&lines[i]);
        match line_export_in(&line) {
            Some(e) => {
                let ghost sofar = exports_view(out@);
                out.push(ExportInfo { name: string_of(&e.0), is_default: e.1 });
                proof {
                    assert(exports_view(out@) =~= sofar.push((e.0@, e.1)));
                }
            },
            None => {},
        }
        i += 1;
    }
    proof {
        assert(all.take(lines.len() as int) =~= all);
    }
    out
}

/// The number of lines of a text. A line ends at `\n`; what follows the last
/// `\n` is a line if it is not empty.
pub open spec fn line_count_of(content: Seq<char>) -> int {
    let pieces = split_on(content, '\n');
    if pieces.last().len() == 0 {
        pieces.len() - 1
    } else {
        pieces.len() as int
    }
}

/// The file extensions of the sources that are searched for imports and
/// exports.
pub open spec fn is_source_extension(ext: Seq<char>) -> bool {
    ext == "ts"@ || ext == "tsx"@ || ext == "js"@ || ext == "jsx"@ || ext == "mjs"@ || ext == "cjs"@
        || ext == "vue"@
}

/// What is found in a file with the given content and extension: its number
/// of lines, and for a source file its imports and exports.
pub fn parse_source(content: &str, extension: &str) -> (r: ParseResult)
    ensures
        r.line_count == line_count_of(content@),
        is_source_extension(extension@) ==> imports_view(r.imports@) == imports_of(content@)
            && exports_view(r.exports@) == exports_of(content@),
        !is_source_extension(extension@) ==> r.imports@.len() == 0 && r.exports@.len() == 0,
{
    let chars = chars_of(content);
    let lines = split(&chars, '\n');
    proof {
        lemma_split_has_a_piece(chars@, '\n');
        assert(segments_view(lines@).last() == lines[lines.len() - 1]@);
    }
    let line_count = if lines[lines.len() - 1].len() == 0 {
        lines.len() - 1
    } else {
        lines.len()
    };
    let ext = chars_of(extension);
    if is_text(&ext, "ts") || is_text(&ext, "tsx") || is_text(&ext, "js") || is_text(&ext, "jsx") || is_text(
        &ext,
        "mjs",
    ) || is_text(&ext, "cjs") || is_text(&ext, "vue") {
        ParseResult { imports: extract_imports(content), exports: extract_exports(content), line_count }
    } else {
        ParseResult { imports: Vec::new(), exports: Vec::new(), line_count }
    }
}

/// The names that the scan of a project passes over: hidden entries and the
/// directories of dependencies and build output.
pub open spec fn is_hidden_name(name: Seq<char>) -> bool {
    occurs_at(name, "."@, 0) || name == "node_modules"@ || name == "target"@ || name == "dist"@ || name
        == "out"@ || name == "build"@ || name == "__pycache__"@
}

/// Whether the scan of a project passes over an entry of this name.
pub fn is_hidden(name: &str) -> (r: bool)
    ensures
        r == is_hidden_name(name@),
{
    let n = chars_of(name);
    begins_with(&n, ".") || is_text(&n, "node_modules") || is_text(&n, "target") || is_text(&n, "dist")
        || is_text(&n, "out") || is_text(&n, "build") || is_text(&n, "__pycache__")
}

} // verus!
