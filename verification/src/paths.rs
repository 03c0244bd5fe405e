//! From the text of an import to the node it names: resolution of the path
//! against the importing file, and matching against the known nodes.

use vstd::prelude::*;
use vstd::string::StringExecFns;
use crate::layout::{find_node, ids_view, named_edges_view};
use crate::text::{chars_of, keep_nonempty, nonempty, segments_view, slice_of, string_of};

verus! {

/// The pieces of `s` between the separators. There is always at least one
/// piece; two separators in a row, or one at an end, give an empty piece.
pub open spec fn split_on(s: Seq<char>, sep: char) -> Seq<Seq<char>>
    decreases s.len(),
{
    if s.len() == 0 {
        seq![Seq::empty()]
    } else {
        let prev = split_on(s.drop_last(), sep);
        if s.last() == sep {
            prev.push(Seq::empty())
        } else {
            prev.update(prev.len() - 1, prev.last().push(s.last()))
        }
    }
}

/// A text always splits into at least one piece.
pub proof fn lemma_split_has_a_piece(s: Seq<char>, sep: char)
    ensures
        split_on(s, sep).len() >= 1,
    decreases s.len(),
{
    if s.len() > 0 {
        lemma_split_has_a_piece(s.drop_last(), sep);
    }
}

/// The segments of the directory that holds the file `from`: the segments
/// of its path without the last.
pub open spec fn directory_of(from: Seq<char>) -> Seq<Seq<char>> {
    let segments = nonempty(split_on(from, '/'));
    if segments.len() > 0 {
        segments.drop_last()
    } else {
        segments
    }
}

/// One step along a relative path: `.` stays, `..` goes up one level (and
/// stays at the root), any other segment goes down into it.
pub open spec fn step_segment(at: Seq<Seq<char>>, part: Seq<char>) -> Seq<Seq<char>> {
    if part == seq!['.'] {
        at
    } else if part == seq!['.', '.'] {
        if at.len() > 0 {
            at.drop_last()
        } else {
            at
        }
    } else {
        at.push(part)
    }
}

/// Where the segments `parts`, taken from left to right, lead from `base`.
pub open spec fn walk(base: Seq<Seq<char>>, parts: Seq<Seq<char>>) -> Seq<Seq<char>>
    decreases parts.len(),
{
    if parts.len() == 0 {
        base
    } else {
        step_segment(walk(base, parts.drop_last()), parts.last())
    }
}

/// The segments with a separator between each two.
pub open spec fn join(parts: Seq<Seq<char>>, sep: char) -> Seq<char>
    decreases parts.len(),
{
    if parts.len() == 0 {
        Seq::empty()
    } else if parts.len() == 1 {
        parts[0]
    } else {
        join(parts.drop_last(), sep).push(sep) + parts.last()
    }
}

/// The path that an alias import names: a leading `@/` stands for `src/`,
/// and what follows it is kept as it is. An import that begins with `@` but
/// not with `@/` is kept whole.
pub open spec fn alias_path(import: Seq<char>) -> Seq<char> {
    if import.len() >= 2 && import[0] == '@' && import[1] == '/' {
        seq!['s', 'r', 'c', '/'] + import.skip(2)
    } else {
        import
    }
}

/// The project-relative path that an import names. An import that begins
/// with `@` is an alias: only its leading `@/` is replaced, by `src/`, and
/// no `.` or `..` in it is resolved. Any other import is walked, segment by
/// segment, from the directory of the importing file.
pub open spec fn resolved_path(from: Seq<char>, import: Seq<char>) -> Seq<char> {
    if import.len() > 0 && import[0] == '@' {
        alias_path(import)
    } else {
        join(walk(directory_of(from), split_on(import, '/')), '/')
    }
}

/// Splits `s` at every `sep`.
pub fn split(s: &Vec<char>, sep: char) -> (r: Vec<Vec<char>>)
    ensures
        segments_view(r@) == split_on(s@, sep),
{
    let mut done: Vec<Vec<char>> = Vec::new();
    let mut start: usize = 0;
    let mut i: usize = 0;
    proof {
        assert(s@.take(0).len() == 0);
        assert(s@.subrange(0, 0) =~= Seq::<char>::empty());
        assert(segments_view(done@).push(s@.subrange(0, 0)) =~= seq![Seq::<char>::empty()]);
    }
    while i < s.len()
        invariant
            start <= i <= s.len(),
            segments_view(done@).push(s@.subrange(start as int, i as int)) == split_on(
                s@.take(i as int),
                sep,
            ),
        decreases s.len() - i,
    {
        let ghost before = segments_view(done@);
        let ghost cur = s@.subrange(start as int, i as int);
        proof {
            assert(s@.take(i as int + 1).drop_last() =~= s@.take(i as int));
            assert(s@.take(i as int + 1).last() == s[i as int]);
        }
        if s[i] == sep {
            let piece = slice_of(s, start, i);
            done.push(piece);
            start = i + 1;
            proof {
                assert(segments_view(done@) =~= before.push(cur));
                assert(s@.subrange(start as int, i as int + 1) =~= Seq::<char>::empty());
            }
        } else {
            proof {
                assert(s@.subrange(start as int, i as int + 1) =~= cur.push(s[i as int]));
                assert(before.push(cur.push(s[i as int])) =~= before.push(cur).update(
                    before.len() as int,
                    cur.push(s[i as int]),
                ));
            }
        }
        i += 1;
    }
    let ghost before = segments_view(done@);
    let piece = slice_of(s, start, i);
    done.push(piece);
    proof {
        assert(s@.take(s.len() as int) =~= s@);
        assert(segments_view(done@) =~= before.push(s@.subrange(start as int, i as int)));
    }
    done
}

/// The segments of the directory that holds the file `from`.
pub fn directory_segments(from: &Vec<char>) -> (r: Vec<Vec<char>>)
    ensures
        segments_view(r@) == directory_of(from@),
{
    let parts = split(from, '/');
    let mut kept = keep_nonempty(&parts);
    if kept.len() > 0 {
        let ghost before = segments_view(kept@);
        let _ = kept.pop();
        proof {
            assert(segments_view(kept@) =~= before.drop_last());
        }
    }
    kept
}

/// Walks the segments of a relative import from `base`.
pub fn walk_segments(base: Vec<Vec<char>>, parts: &Vec<Vec<char>>) -> (r: Vec<Vec<char>>)
    ensures
        segments_view(r@) == walk(segments_view(base@), segments_view(parts@)),
{
    let ghost from = segments_view(base@);
    let ghost all = segments_view(parts@);
    let mut at = base;
    let mut i: usize = 0;
    while i < parts.len()
        invariant
            i <= parts.len(),
            all == segments_view(parts@),
            segments_view(at@) == walk(from, all.take(i as int)),
        decreases parts.len() - i,
    {
        let ghost before = segments_view(at@);
        let part = &parts[i];
        proof {
            assert(all.take(i as int + 1).drop_last() =~= all.take(i as int));
            assert(all.take(i as int + 1).last() == part@);
        }
        if part.len() == 1 && part[0] == '.' {
            proof {
                assert(part@ =~= seq!['.']);
            }
        } else if part.len() == 2 && part[0] == '.' && part[1] == '.' {
            proof {
                assert(part@ =~= seq!['.', '.']);
                assert(part@ != seq!['.']);
            }
            if at.len() > 0 {
                let _ = at.pop();
                proof {
                    assert(segments_view(at@) =~= before.drop_last());
                }
            }
        } else {
            proof {
                if part@ == seq!['.'] {
                    assert(part@.len() == 1 && part@[0] == '.');
                }
                if part@ == seq!['.', '.'] {
                    assert(part@.len() == 2 && part@[0] == '.' && part@[1] == '.');
                }
            }
            let piece = slice_of(part, 0, part.len());
            proof {
                assert(piece@ =~= part@);
            }
            at.push(piece);
            proof {
                assert(segments_view(at@) =~= before.push(part@));
            }
        }
        i += 1;
    }
    proof {
        assert(all.take(parts.len() as int) =~= all);
    }
    at
}

/// Joins the segments with `sep` between each two.
pub fn join_segments(parts: &Vec<Vec<char>>, sep: char) -> (r: Vec<char>)
    ensures
        r@ == join(segments_view(parts@), sep),
{
    let ghost all = segments_view(parts@);
    let mut r: Vec<char> = Vec::new();
    let mut i: usize = 0;
    while i < parts.len()
        invariant
            i <= parts.len(),
            all == segments_view(parts@),
            r@ == join(all.take(i as int), sep),
        decreases parts.len() - i,
    {
        proof {
            assert(all.take(i as int + 1).drop_last() =~= all.take(i as int));
            assert(all.take(i as int + 1).last() == parts[i as int]@);
            if i == 0 {
                assert(all.take(1)[0] == parts[0]@);
            }
        }
        if i > 0 {
            r.push(sep);
        }
        let ghost head = r@;
        let part = &parts[i];
        let mut k: usize = 0;
        while k < part.len()
            invariant
                k <= part.len(),
                r@ == head + part@.take(k as int),
            decreases part.len() - k,
        {
            r.push(part[k]);
            proof {
                assert(part@.take(k as int + 1) =~= part@.take(k as int).push(part[k as int]));
                assert(head + part@.take(k as int + 1) =~= (head + part@.take(k as int)).push(
                    part[k as int],
                ));
            }
            k += 1;
        }
        proof {
            assert(part@.take(part.len() as int) =~= part@);
            if i == 0 {
                assert(head + part@ =~= part@);
            }
        }
        i += 1;
    }
    proof {
        assert(all.take(parts.len() as int) =~= all);
    }
    r
}

/// Replaces a leading `@/` by `src/`.
pub fn expand_alias(s: &Vec<char>) -> (r: Vec<char>)
    ensures
        r@ == alias_path(s@),
{
    let mut r: Vec<char> = Vec::new();
    let aliased = s.len() >= 2 && s[0] == '@' && s[1] == '/';
    let mut i: usize = 0;
    if aliased {
        r.push('s');
        r.push('r');
        r.push('c');
        r.push('/');
        i = 2;
    }
    let ghost head = r@;
    let ghost from = i as int;
    proof {
        assert(head + s@.subrange(from, from) =~= head);
    }
    while i < s.len()
        invariant
            0 <= from <= i <= s.len(),
            r@ == head + s@.subrange(from, i as int),
        decreases s.len() - i,
    {
        r.push(s[i]);
        proof {
            assert(head + s@.subrange(from, i as int + 1) =~= (head + s@.subrange(from, i as int)).push(
                s[i as int],
            ));
        }
        i += 1;
    }
    proof {
        if aliased {
            assert(head =~= seq!['s', 'r', 'c', '/']);
            assert(s@.subrange(2, s.len() as int) =~= s@.skip(2));
        } else {
            assert(head + s@.subrange(0, s.len() as int) =~= s@);
        }
    }
    r
}

/// Resolves the text of an import, found in the file `from_file`, to a
/// project-relative path. Nothing is looked up on disk.
pub fn resolve_import_path(from_file: &str, import_source: &str) -> (r: String)
    ensures
        r@ == resolved_path(from_file@, import_source@),
{
    let import = chars_of(import_source);
    if import.len() > 0 && import[0] == '@' {
        let out = expand_alias(&import);
        string_of(&out)
    } else {
        let from = chars_of(from_file);
        let base = directory_segments(&from);
        let parts = split(&import, '/');
        let at = walk_segments(base, &parts);
        let out = join_segments(&at, '/');
        string_of(&out)
    }
}

/// The endings that are tried on a path, in this order.
pub open spec fn suffixes() -> Seq<Seq<char>> {
    seq![""@, ".ts"@, ".tsx"@, ".js"@, ".jsx"@, "/index.ts"@, "/index.tsx"@, "/index.js"@]
}

fn suffix(k: usize) -> (r: &'static str)
    requires
        k < 8,
    ensures
        r@ == suffixes()[k as int],
{
    if k == 0 {
        ""
    } else if k == 1 {
        ".ts"
    } else if k == 2 {
        ".tsx"
    } else if k == 3 {
        ".js"
    } else if k == 4 {
        ".jsx"
    } else if k == 5 {
        "/index.ts"
    } else if k == 6 {
        "/index.tsx"
    } else {
        "/index.js"
    }
}

/// The first candidate, from ending `k` on, that is a known node.
pub open spec fn matched_from(ids: Seq<Seq<char>>, path: Seq<char>, k: int) -> Option<Seq<char>>
    decreases 8 - k,
{
    if k < 0 || k >= 8 {
        None
    } else if ids.contains(path + suffixes()[k]) {
        Some(path + suffixes()[k])
    } else {
        matched_from(ids, path, k + 1)
    }
}

/// The node that a resolved import names, if there is one.
pub open spec fn matched_node(ids: Seq<Seq<char>>, path: Seq<char>) -> Option<Seq<char>> {
    matched_from(ids, path, 0)
}

/// `found` is the path with the first ending that makes it a known node.
pub open spec fn is_first_match(ids: Seq<Seq<char>>, path: Seq<char>, found: Seq<char>) -> bool {
    exists|k: int|
        0 <= k < 8 && found == path + #[trigger] suffixes()[k] && ids.contains(found) && forall|j: int|
            0 <= j < k ==> !ids.contains(path + #[trigger] suffixes()[j])
}

/// Finds the node that a resolved import names: the path itself if it is a
/// node, else the path with the first of the endings that gives a node.
/// There is a result exactly if one of the candidates is a node.
pub fn find_matching_node(import_path: &str, node_ids: &[String]) -> (r: Option<String>)
    ensures
        match r {
            Some(found) => is_first_match(ids_view(node_ids@), import_path@, found@) && matched_node(
                ids_view(node_ids@),
                import_path@,
            ) == Some(found@),
            None => matched_node(ids_view(node_ids@), import_path@) is None && forall|k: int|
                0 <= k < 8 ==> !ids_view(node_ids@).contains(import_path@ + #[trigger] suffixes()[k]),
        },
{
    let mut k: usize = 0;
    while k < 8
        invariant
            k <= 8,
            matched_from(ids_view(node_ids@), import_path@, k as int) == matched_node(
                ids_view(node_ids@),
                import_path@,
            ),
            forall|j: int|
                0 <= j < k ==> !ids_view(node_ids@).contains(import_path@ + #[trigger] suffixes()[j]),
        decreases 8 - k,
    {
        let candidate = String::from_str(import_path).concat(suffix(k));
        if find_node(node_ids, &candidate).is_some() {
            proof {
                assert(candidate@ == import_path@ + suffixes()[k as int]);
            }
            return Some(candidate);
        }
        k += 1;
    }
    None
}

/// Only an import that begins with `.` or with `@` can name a file of the
/// project; any other names a package.
pub open spec fn is_internal(raw: Seq<char>) -> bool {
    raw.len() > 0 && (raw[0] == '.' || raw[0] == '@')
}

/// The node that an import of the file `from` leads to, if it leads to one.
pub open spec fn link_target(from: Seq<char>, raw: Seq<char>, ids: Seq<Seq<char>>) -> Option<Seq<char>> {
    if is_internal(raw) {
        matched_node(ids, resolved_path(from, raw))
    } else {
        None
    }
}

/// The edges from the file `from` to the nodes that its imports lead to, in
/// the order of the imports. An import that leads to no node gives no edge.
pub open spec fn links_of(from: Seq<char>, raws: Seq<Seq<char>>, ids: Seq<Seq<char>>) -> Seq<
    (Seq<char>, Seq<char>),
>
    decreases raws.len(),
{
    if raws.len() == 0 {
        Seq::empty()
    } else {
        let rest = links_of(from, raws.drop_last(), ids);
        match link_target(from, raws.last(), ids) {
            Some(target) => rest.push((from, target)),
            None => rest,
        }
    }
}

/// Builds the edges of one file from the imports found in it: each import
/// that may name a file of the project is resolved against the file and
/// matched against the known nodes. Every edge ends at a known node.
pub fn build_links(from_file: &str, raw_imports: &[String], node_ids: &[String]) -> (r: Vec<
    (String, String),
>)
    ensures
        named_edges_view(r@) == links_of(from_file@, ids_view(raw_imports@), ids_view(node_ids@)),
        forall|i: int|
            0 <= i < r.len() ==> (#[trigger] r[i]).0@ == from_file@ && ids_view(node_ids@).contains(
                r[i].1@,
            ),
{
    let ghost raws = ids_view(raw_imports@);
    let ghost ids = ids_view(node_ids@);
    let mut r: Vec<(String, String)> = Vec::new();
    let mut i: usize = 0;
    proof {
        assert(named_edges_view(r@) =~= Seq::empty());
    }
    while i < raw_imports.len()
        invariant
            i <= raw_imports.len(),
            raws == ids_view(raw_imports@),
            ids == ids_view(node_ids@),
            named_edges_view(r@) == links_of(from_file@, raws.take(i as int), ids),
            forall|j: int|
                0 <= j < r.len() ==> (#[trigger] r[j]).0@ == from_file@ && ids.contains(r[j].1@),
        decreases raw_imports.len() - i,
    {
        proof {
            assert(raws.take(i as int + 1).drop_last() =~= raws.take(i as int));
            assert(raws.take(i as int + 1).last() == raw_imports[i as int]@);
        }
        let raw = chars_of(raw_imports[i].as_str());
        if raw.len() > 0 && (raw[0] == '.' || raw[0] == '@') {
            let path = resolve_import_path(from_file, raw_imports[i].as_str());
            match find_matching_node(path.as_str(), node_ids) {
                Some(target) => {
                    let ghost before = named_edges_view(r@);
                    let source = String::from_str(from_file);
                    r.push((source, target));
                    proof {
                        assert(named_edges_view(r@) =~= before.push((from_file@, target@)));
                    }
                },
                None => {},
            }
        }
        i += 1;
    }
    proof {
        assert(raws.take(raw_imports.len() as int) =~= raws);
    }
    r
}

} // verus!
