//! Laws of the resolver, stated over the model and proved once for all
//! trees of the named shapes.  Together with the contract of `load`, each
//! law carries over to what the executable resolver returns.
use crate::bytes::find_byte;
use crate::bytes::is_directive;
use crate::bytes::parent_dir;
use crate::bytes::split_lines_spec;
use crate::model::expand_file;
use crate::model::expand_lines;
use crate::model::expand_ok;
use crate::model::file_path;
use crate::model::nl;
use crate::model::ErrView;
use crate::model::Expansion;
use crate::model::ReqView;
use crate::tree::lookup_links;
use crate::tree::FileData;
use crate::tree::LinkFate;
use crate::tree::SourceTree;
use vstd::prelude::*;
use vstd::set_lib::lemma_int_range;
use vstd::set_lib::lemma_len_subset;
use vstd::set_lib::set_int_range;

verus! {

/// The file holds readable text.
pub open spec fn has_text(t: SourceTree, i: int) -> bool {
    t.files@[i].data matches FileData::Text(_)
}

/// The lines of file `i`'s recorded text.
pub open spec fn file_lines(t: SourceTree, i: int) -> Seq<Seq<u8>> {
    match t.files@[i].data {
        FileData::Text(r) => split_lines_spec(r@),
        _ => arbitrary(),
    }
}

/// Line `l` of file `i` is a well-formed directive whose path resolves,
/// through the tree's recorded links, to file `j`.
pub open spec fn line_names(t: SourceTree, i: int, l: Seq<u8>, j: int) -> bool {
    &&& is_directive(l)
    &&& match find_byte(l.skip(10), 34) {
        Some(e) => lookup_links(t.links@, parent_dir(file_path(t, i)), l.skip(10).take(e))
            matches Some(LinkFate::File(u)) && (u as int) == j,
        None => false,
    }
}

/// File `i` consists of exactly one directive line, naming file `j`.
pub open spec fn sole_directive(t: SourceTree, i: int, j: int) -> bool {
    &&& has_text(t, i)
    &&& file_lines(t, i).len() == 1
    &&& line_names(t, i, file_lines(t, i)[0], j)
}

/// File `i` consists of exactly two directive lines, naming `j1` then `j2`.
pub open spec fn two_directives(t: SourceTree, i: int, j1: int, j2: int) -> bool {
    &&& has_text(t, i)
    &&& file_lines(t, i).len() == 2
    &&& line_names(t, i, file_lines(t, i)[0], j1)
    &&& line_names(t, i, file_lines(t, i)[1], j2)
}

/// File `i` holds no directive line at all.
pub open spec fn plain_file(t: SourceTree, i: int) -> bool {
    &&& has_text(t, i)
    &&& forall|k: int|
        0 <= k < file_lines(t, i).len() ==> !is_directive(#[trigger] file_lines(t, i)[k])
}

/// The lines joined back together, each terminated with one newline.
pub open spec fn flat_of(ls: Seq<Seq<u8>>) -> Seq<u8>
    decreases ls.len(),
{
    if ls.len() == 0 {
        Seq::empty()
    } else {
        (ls[0] + nl()) + flat_of(ls.skip(1))
    }
}

/// Expanding lines that hold no directive emits them verbatim, each with
/// one newline, and contributes no files.
pub proof fn lemma_plain_lines(t: SourceTree, i: int, ls: Seq<Seq<u8>>, n: int, loading: Set<int>)
    requires
        expand_ok(t, i, loading),
        forall|k: int| 0 <= k < ls.len() ==> !is_directive(#[trigger] ls[k]),
    ensures
        expand_lines(t, i, ls, n, loading) == (Expansion::Done {
            text: flat_of(ls),
            deps: Set::<int>::empty(),
        }),
    decreases ls.len(),
{
    if ls.len() > 0 {
        assert(!is_directive(ls[0]));
        assert(forall|k: int| 0 <= k < ls.skip(1).len() ==> ls.skip(1)[k] == ls[k + 1]);
        lemma_plain_lines(t, i, ls.skip(1), n + 1, loading);
        assert(Set::<int>::empty() + Set::<int>::empty() =~= Set::<int>::empty());
    }
}

/// A file without directives expands to its own text and contributes
/// exactly itself.
pub proof fn lemma_plain_file(t: SourceTree, i: int, loading: Set<int>)
    requires
        expand_ok(t, i, loading),
        !loading.contains(i),
        plain_file(t, i),
    ensures
        expand_file(t, i, loading) == (Expansion::Done {
            text: flat_of(file_lines(t, i)),
            deps: Set::<int>::empty().insert(i),
        }),
{
    lemma_int_range(0, t.files@.len() as int);
    lemma_len_subset(loading, t.index_set());
    assert(expand_ok(t, i, loading.insert(i)));
    lemma_plain_lines(t, i, file_lines(t, i), 1, loading.insert(i));
}

/// A file holding one directive expands to its target's expansion plus one
/// newline, contributing itself on top of the target's contribution; a
/// failure or an open question of the target passes through unchanged.
pub proof fn lemma_sole_directive_file(t: SourceTree, i: int, j: int, loading: Set<int>)
    requires
        expand_ok(t, i, loading),
        0 <= j < t.files@.len(),
        !loading.contains(i),
        sole_directive(t, i, j),
    ensures
        match expand_file(t, j, loading.insert(i)) {
            Expansion::Done { text, deps } => expand_file(t, i, loading) == (Expansion::Done {
                text: text + nl(),
                deps: deps.insert(i),
            }),
            other => expand_file(t, i, loading) == other,
        },
{
    lemma_int_range(0, t.files@.len() as int);
    lemma_len_subset(loading, t.index_set());
    let li = loading.insert(i);
    assert(expand_ok(t, i, li));
    let ls = file_lines(t, i);
    assert(ls.skip(1).len() == 0);
    assert(expand_lines(t, i, ls.skip(1), 2, li) == (Expansion::Done {
        text: Seq::<u8>::empty(),
        deps: Set::<int>::empty(),
    }));
    match expand_file(t, j, li) {
        Expansion::Done { text, deps } => {
            assert((text + nl()) + Seq::<u8>::empty() =~= text + nl());
            assert(deps + Set::<int>::empty() =~= deps);
        },
        _ => {},
    }
}

/// An open question always names an answer the tree truly lacks: a content
/// question names a file whose bytes are unrecorded, and a path question
/// names a pair with no recorded link.  A driver that records an answer for
/// every question it is asked therefore never sees the same question twice:
/// in particular, no file's content is ever demanded again once recorded.
pub proof fn lemma_need_is_unanswered(t: SourceTree, i: int, loading: Set<int>)
    requires
        expand_ok(t, i, loading),
    ensures
        match expand_file(t, i, loading) {
            Expansion::Need { req } => match req {
                ReqView::Content { file } => 0 <= file < t.files@.len() && t.files@[file].data
                    matches FileData::Pending,
                ReqView::Path { dir, rel } => lookup_links(t.links@, dir, rel)
                    == None::<LinkFate>,
            },
            _ => true,
        },
    decreases t.files@.len() - loading.len(), 0int, 0int,
{
    lemma_int_range(0, t.files@.len() as int);
    lemma_len_subset(loading, t.index_set());
    lemma_len_subset(loading.insert(i), t.index_set());
    if !loading.contains(i) {
        match t.files@[i].data {
            FileData::Text(raw) => {
                lemma_lines_need_is_unanswered(
                    t,
                    i,
                    split_lines_spec(raw@),
                    1,
                    loading.insert(i),
                );
            },
            _ => {},
        }
    }
}

/// The lines-level half of `lemma_need_is_unanswered`.
pub proof fn lemma_lines_need_is_unanswered(
    t: SourceTree,
    i: int,
    ls: Seq<Seq<u8>>,
    n: int,
    loading: Set<int>,
)
    requires
        expand_ok(t, i, loading),
    ensures
        match expand_lines(t, i, ls, n, loading) {
            Expansion::Need { req } => match req {
                ReqView::Content { file } => 0 <= file < t.files@.len() && t.files@[file].data
                    matches FileData::Pending,
                ReqView::Path { dir, rel } => lookup_links(t.links@, dir, rel)
                    == None::<LinkFate>,
            },
            _ => true,
        },
    decreases t.files@.len() - loading.len(), 1int, ls.len(),
{
    lemma_int_range(0, t.files@.len() as int);
    lemma_len_subset(loading, t.index_set());
    if ls.len() > 0 {
        let l = ls[0];
        if !is_directive(l) {
            lemma_lines_need_is_unanswered(t, i, ls.skip(1), n + 1, loading);
        } else {
            match find_byte(l.skip(10), 34) {
                None => {},
                Some(e) => {
                    let rel = l.skip(10).take(e);
                    crate::tree::lemma_lookup_links_wf(t, parent_dir(file_path(t, i)), rel);
                    match lookup_links(t.links@, parent_dir(file_path(t, i)), rel) {
                        Some(LinkFate::File(j)) => {
                            lemma_need_is_unanswered(t, j as int, loading);
                            lemma_lines_need_is_unanswered(t, i, ls.skip(1), n + 1, loading);
                        },
                        _ => {},
                    }
                },
            }
        }
    }
}

/// Cycle detection: when two files each consist of one directive naming the
/// other, resolving the first fails with a circular-inclusion error that
/// names the file whose re-entry was attempted, and nothing diverges.
pub proof fn law_cycle(t: SourceTree, a: int, b: int)
    requires
        t.wf(),
        0 <= a < t.files@.len(),
        0 <= b < t.files@.len(),
        a != b,
        sole_directive(t, a, b),
        sole_directive(t, b, a),
    ensures
        expand_file(t, a, Set::empty()) == (Expansion::Fail {
            err: ErrView::Circular { path: file_path(t, a) },
        }),
{
    lemma_int_range(0, t.files@.len() as int);
    let l0 = Set::<int>::empty();
    let l1 = l0.insert(a);
    let l2 = l1.insert(b);
    assert(expand_ok(t, a, l0));
    assert(expand_ok(t, b, l1));
    assert(expand_ok(t, a, l2));
    assert(l2.contains(a));
    assert(expand_file(t, a, l2) == (Expansion::Fail {
        err: ErrView::Circular { path: file_path(t, a) },
    }));
    lemma_sole_directive_file(t, b, a, l1);
    lemma_sole_directive_file(t, a, b, l0);
}

/// Diamond inclusion: when file `a` holds two directives naming `b` then
/// `c`, and `b` and `c` each hold one directive naming `d`, which holds no
/// directive, then `d`'s text stands in the flattened output exactly once
/// at each of the two directive sites, and each of the four files counts
/// exactly once in the contributing set.  Expansion finishes, so a
/// resolution run over this tree asks the environment for nothing: `d` is
/// never re-read.
pub proof fn law_diamond(t: SourceTree, a: int, b: int, c: int, d: int)
    requires
        t.wf(),
        0 <= a < t.files@.len(),
        0 <= b < t.files@.len(),
        0 <= c < t.files@.len(),
        0 <= d < t.files@.len(),
        a != b && a != c && a != d && b != c && b != d && c != d,
        two_directives(t, a, b, c),
        sole_directive(t, b, d),
        sole_directive(t, c, d),
        plain_file(t, d),
    ensures
        expand_file(t, a, Set::empty()) == (Expansion::Done {
            text: ((flat_of(file_lines(t, d)) + nl()) + nl()) + ((flat_of(file_lines(t, d))
                + nl()) + nl()),
            deps: set![a, b, c, d],
        }),
{
    lemma_int_range(0, t.files@.len() as int);
    let dt = flat_of(file_lines(t, d));
    let l0 = Set::<int>::empty();
    let l1 = l0.insert(a);
    assert(expand_ok(t, a, l0));
    assert(expand_ok(t, b, l1));
    assert(expand_ok(t, c, l1));
    lemma_plain_file(t, d, l1.insert(b));
    lemma_sole_directive_file(t, b, d, l1);
    assert(expand_file(t, b, l1) == (Expansion::Done {
        text: dt + nl(),
        deps: Set::<int>::empty().insert(d).insert(b),
    }));
    lemma_plain_file(t, d, l1.insert(c));
    lemma_sole_directive_file(t, c, d, l1);
    assert(expand_file(t, c, l1) == (Expansion::Done {
        text: dt + nl(),
        deps: Set::<int>::empty().insert(d).insert(c),
    }));
    let ls = file_lines(t, a);
    assert(ls.skip(1)[0] == ls[1]);
    assert(ls.skip(1).skip(1).len() == 0);
    assert(expand_lines(t, a, ls.skip(1).skip(1), 3, l1) == (Expansion::Done {
        text: Seq::<u8>::empty(),
        deps: Set::<int>::empty(),
    }));
    let tc = (dt + nl()) + nl();
    let dc = Set::<int>::empty().insert(d).insert(c);
    let db = Set::<int>::empty().insert(d).insert(b);
    assert(expand_lines(t, a, ls.skip(1), 2, l1) == (Expansion::Done {
        text: tc + Seq::<u8>::empty(),
        deps: dc + Set::<int>::empty(),
    }));
    assert(tc + Seq::<u8>::empty() =~= tc);
    assert(dc + Set::<int>::empty() =~= dc);
    assert(expand_lines(t, a, ls, 1, l1) == (Expansion::Done {
        text: ((dt + nl()) + nl()) + tc,
        deps: db + dc,
    }));
    assert((db + dc).insert(a) =~= set![a, b, c, d]);
    assert(expand_file(t, a, l0) == (Expansion::Done {
        text: ((dt + nl()) + nl()) + tc,
        deps: (db + dc).insert(a),
    }));
}

/// Dependency-set completeness: for a root holding directives naming `b`
/// then `c`, where `b` holds one directive naming `d` and `c` and `d` hold
/// none, expansion finishes and the contributing set is exactly the four
/// files.  Through the contract of `load`, the reported dependency list
/// enumerates these four indices, each exactly once.
pub proof fn law_dependency_set(t: SourceTree, r: int, b: int, c: int, d: int)
    requires
        t.wf(),
        0 <= r < t.files@.len(),
        0 <= b < t.files@.len(),
        0 <= c < t.files@.len(),
        0 <= d < t.files@.len(),
        r != b && r != c && r != d && b != c && b != d && c != d,
        two_directives(t, r, b, c),
        sole_directive(t, b, d),
        plain_file(t, c),
        plain_file(t, d),
    ensures
        expand_file(t, r, Set::empty()) matches Expansion::Done { text, deps } && deps == set![
            r,
            b,
            c,
            d,
        ],
{
    lemma_int_range(0, t.files@.len() as int);
    let dt = flat_of(file_lines(t, d));
    let ct = flat_of(file_lines(t, c));
    let l0 = Set::<int>::empty();
    let l1 = l0.insert(r);
    assert(expand_ok(t, r, l0));
    assert(expand_ok(t, b, l1));
    assert(expand_ok(t, c, l1));
    lemma_plain_file(t, d, l1.insert(b));
    lemma_sole_directive_file(t, b, d, l1);
    assert(expand_file(t, b, l1) == (Expansion::Done {
        text: dt + nl(),
        deps: Set::<int>::empty().insert(d).insert(b),
    }));
    lemma_plain_file(t, c, l1);
    let ls = file_lines(t, r);
    assert(ls.skip(1)[0] == ls[1]);
    assert(ls.skip(1).skip(1).len() == 0);
    assert(expand_lines(t, r, ls.skip(1).skip(1), 3, l1) == (Expansion::Done {
        text: Seq::<u8>::empty(),
        deps: Set::<int>::empty(),
    }));
    let tc = ct + nl();
    let dc = Set::<int>::empty().insert(c);
    let db = Set::<int>::empty().insert(d).insert(b);
    assert(expand_lines(t, r, ls.skip(1), 2, l1) == (Expansion::Done {
        text: tc + Seq::<u8>::empty(),
        deps: dc + Set::<int>::empty(),
    }));
    assert(tc + Seq::<u8>::empty() =~= tc);
    assert(dc + Set::<int>::empty() =~= dc);
    assert(expand_lines(t, r, ls, 1, l1) == (Expansion::Done {
        text: ((dt + nl()) + nl()) + tc,
        deps: db + dc,
    }));
    assert((db + dc).insert(r) =~= set![r, b, c, d]);
    assert(expand_file(t, r, l0) == (Expansion::Done {
        text: ((dt + nl()) + nl()) + tc,
        deps: (db + dc).insert(r),
    }));
    assert((db + dc).insert(r) == set![r, b, c, d]);
}

} // verus!
