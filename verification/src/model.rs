//! The mathematical model of resolution: a recursive, memo-free expansion of
//! a file against a source tree, together with the lemmas that justify the
//! memoized executable resolver.
use crate::bytes::find_byte;
use crate::bytes::is_directive;
use crate::bytes::parent_dir;
use crate::bytes::split_lines_spec;
use crate::tree::FileData;
use crate::tree::LinkFate;
use crate::tree::SourceTree;
use crate::tree::lemma_lookup_links_wf;
use crate::tree::lookup_links;
use vstd::prelude::*;
use vstd::set_lib::lemma_int_range;
use vstd::set_lib::lemma_len_subset;

verus! {

/// A resolution error, at the level of the model.
pub enum ErrView {
    /// The file is already on the active expansion chain.
    Circular { path: Seq<u8> },
    /// The file's bytes could not be read.
    Unreadable { path: Seq<u8>, cause: Seq<u8> },
    /// A directive line of `path` has no closing quote; `line` is 1-based.
    Malformed { path: Seq<u8>, line: int },
    /// The directive path at `line` of `path` could not be canonicalized.
    Unresolvable { path: Seq<u8>, line: int, cause: Seq<u8> },
}

/// A question the tree does not yet answer, at the level of the model.
pub enum ReqView {
    /// The raw bytes of the file at this index are wanted.
    Content { file: int },
    /// The resolution of `rel` against `dir` is wanted.
    Path { dir: Seq<u8>, rel: Seq<u8> },
}

/// The outcome of expanding one file against a tree.
pub enum Expansion {
    /// The flattened text, and the set of file indices that contributed.
    Done { text: Seq<u8>, deps: Set<int> },
    /// Expansion failed.
    Fail { err: ErrView },
    /// Expansion is blocked until the tree answers a question.
    Need { req: ReqView },
}

pub open spec fn is_done(r: Expansion) -> bool {
    match r {
        Expansion::Done { .. } => true,
        _ => false,
    }
}

pub open spec fn done_text(r: Expansion) -> Seq<u8> {
    match r {
        Expansion::Done { text, .. } => text,
        _ => arbitrary(),
    }
}

pub open spec fn done_deps(r: Expansion) -> Set<int> {
    match r {
        Expansion::Done { deps, .. } => deps,
        _ => arbitrary(),
    }
}

/// The single newline byte every emitted line is terminated with.
pub open spec fn nl() -> Seq<u8> {
    seq![10u8]
}

/// Conditions under which expansion is meaningful: a well-formed tree, a
/// valid file index, and a finite chain of in-progress files.
pub open spec fn expand_ok(t: SourceTree, i: int, loading: Set<int>) -> bool {
    &&& t.wf()
    &&& loading.finite()
    &&& loading.subset_of(t.index_set())
    &&& 0 <= i < t.files@.len()
}

/// The canonical path of file `i`.
pub open spec fn file_path(t: SourceTree, i: int) -> Seq<u8> {
    t.files@[i].path@
}

/// Prepends flattened text and contributing files to an expansion outcome;
/// failures and open questions pass through unchanged.
pub open spec fn after(prefix: Seq<u8>, more: Set<int>, r: Expansion) -> Expansion {
    match r {
        Expansion::Done { text, deps } => (Expansion::Done {
            text: prefix + text,
            deps: more + deps,
        }),
        other => other,
    }
}

/// Expansion of file `i`: a failure if `i` is on the active chain, otherwise
/// its lines expanded in order.  `loading` is the set of files on the active
/// chain; a file reached again while still on it is a cycle.
pub open spec fn expand_file(t: SourceTree, i: int, loading: Set<int>) -> Expansion
    decreases t.files@.len() - loading.len(), 0int, 0int,
        when expand_ok(t, i, loading)
{
    if loading.contains(i) {
        Expansion::Fail { err: ErrView::Circular { path: file_path(t, i) } }
    } else {
        match t.files@[i].data {
            FileData::Pending => Expansion::Need { req: ReqView::Content { file: i } },
            FileData::Unreadable(cause) => Expansion::Fail {
                err: ErrView::Unreadable { path: file_path(t, i), cause: cause@ },
            },
            FileData::Text(raw) => {
                proof {
                    lemma_int_range(0, t.files@.len() as int);
                    lemma_len_subset(loading, t.index_set());
                    lemma_len_subset(loading.insert(i), t.index_set());
                }
                match expand_lines(t, i, split_lines_spec(raw@), 1, loading.insert(i)) {
                    Expansion::Done { text, deps } => (Expansion::Done {
                        text,
                        deps: deps.insert(i),
                    }),
                    other => other,
                }
            },
        }
    }
}

/// Expansion of the remaining lines `ls` of file `i`, the first of which is
/// the 1-based line `n`.  A plain line is emitted with a newline; a directive
/// line is replaced by the expansion of its target followed by a newline.
pub open spec fn expand_lines(
    t: SourceTree,
    i: int,
    ls: Seq<Seq<u8>>,
    n: int,
    loading: Set<int>,
) -> Expansion
    decreases t.files@.len() - loading.len(), 1int, ls.len(),
        when expand_ok(t, i, loading)
{
    if ls.len() == 0 {
        Expansion::Done { text: Seq::empty(), deps: Set::empty() }
    } else {
        let l = ls[0];
        if !is_directive(l) {
            after(l + nl(), Set::empty(), expand_lines(t, i, ls.skip(1), n + 1, loading))
        } else {
            match find_byte(l.skip(10), 34) {
                None => Expansion::Fail {
                    err: ErrView::Malformed { path: file_path(t, i), line: n },
                },
                Some(e) => {
                    let rel = l.skip(10).take(e);
                    match lookup_links(t.links@, parent_dir(file_path(t, i)), rel) {
                        None => Expansion::Need {
                            req: ReqView::Path { dir: parent_dir(file_path(t, i)), rel },
                        },
                        Some(LinkFate::Broken(cause)) => Expansion::Fail {
                            err: ErrView::Unresolvable {
                                path: file_path(t, i),
                                line: n,
                                cause: cause@,
                            },
                        },
                        Some(LinkFate::File(j)) => {
                            if 0 <= (j as int) < t.files@.len() {
                                match expand_file(t, j as int, loading) {
                                    Expansion::Done { text, deps } => after(
                                        text + nl(),
                                        deps,
                                        expand_lines(t, i, ls.skip(1), n + 1, loading),
                                    ),
                                    other => other,
                                }
                            } else {
                                arbitrary()
                            }
                        },
                    }
                },
            }
        }
    }
}

/// Prepending nothing changes nothing.
pub proof fn lemma_after_unit(r: Expansion)
    ensures
        after(Seq::empty(), Set::empty(), r) == r,
{
    match r {
        Expansion::Done { text, deps } => {
            assert(Seq::empty() + text =~= text);
            assert(Set::empty() + deps =~= deps);
        },
        _ => {},
    }
}

/// Two nested prefixings collapse into one.
pub proof fn lemma_after_assoc(a: Seq<u8>, d1: Set<int>, b: Seq<u8>, d2: Set<int>, r: Expansion)
    ensures
        after(a, d1, after(b, d2, r)) == after(a + b, d1 + d2, r),
{
    match r {
        Expansion::Done { text, deps } => {
            assert(a + (b + text) =~= (a + b) + text);
            assert(d1 + (d2 + deps) =~= (d1 + d2) + deps);
        },
        _ => {},
    }
}

/// A finished expansion of file `i` contributes a finite set of valid file
/// indices that contains `i` and avoids the whole active chain.
pub proof fn lemma_file_done_facts(t: SourceTree, i: int, loading: Set<int>)
    requires
        expand_ok(t, i, loading),
        is_done(expand_file(t, i, loading)),
    ensures
        done_deps(expand_file(t, i, loading)).finite(),
        done_deps(expand_file(t, i, loading)).subset_of(t.index_set()),
        done_deps(expand_file(t, i, loading)).contains(i),
        done_deps(expand_file(t, i, loading)).disjoint(loading),
    decreases t.files@.len() - loading.len(), 0int, 0int,
{
    lemma_int_range(0, t.files@.len() as int);
    lemma_len_subset(loading, t.index_set());
    lemma_len_subset(loading.insert(i), t.index_set());
    match t.files@[i].data {
        FileData::Text(raw) => {
            lemma_lines_done_facts(t, i, split_lines_spec(raw@), 1, loading.insert(i));
        },
        _ => {},
    }
}

/// The lines-level half of `lemma_file_done_facts`.
pub proof fn lemma_lines_done_facts(
    t: SourceTree,
    i: int,
    ls: Seq<Seq<u8>>,
    n: int,
    loading: Set<int>,
)
    requires
        expand_ok(t, i, loading),
        is_done(expand_lines(t, i, ls, n, loading)),
    ensures
        done_deps(expand_lines(t, i, ls, n, loading)).finite(),
        done_deps(expand_lines(t, i, ls, n, loading)).subset_of(t.index_set()),
        done_deps(expand_lines(t, i, ls, n, loading)).disjoint(loading),
    decreases t.files@.len() - loading.len(), 1int, ls.len(),
{
    lemma_int_range(0, t.files@.len() as int);
    lemma_len_subset(loading, t.index_set());
    if ls.len() == 0 {
    } else {
        let l = ls[0];
        if !is_directive(l) {
            lemma_lines_done_facts(t, i, ls.skip(1), n + 1, loading);
            assert(Set::empty() + done_deps(expand_lines(t, i, ls.skip(1), n + 1, loading))
                =~= done_deps(expand_lines(t, i, ls.skip(1), n + 1, loading)));
        } else {
            match find_byte(l.skip(10), 34) {
                None => {},
                Some(e) => {
                    let rel = l.skip(10).take(e);
                    lemma_lookup_links_wf(t, parent_dir(file_path(t, i)), rel);
                    match lookup_links(t.links@, parent_dir(file_path(t, i)), rel) {
                        Some(LinkFate::File(j)) => {
                            if is_done(expand_file(t, j as int, loading)) {
                                lemma_file_done_facts(t, j as int, loading);
                                lemma_lines_done_facts(t, i, ls.skip(1), n + 1, loading);
                            }
                        },
                        _ => {},
                    }
                },
            }
        }
    }
}

/// A finished expansion does not depend on which other files are on the
/// active chain: any chain disjoint from its contributing set yields the
/// same outcome.  This is what lets a resolver cache finished files.
pub proof fn lemma_file_transfer(t: SourceTree, i: int, l1: Set<int>, l2: Set<int>)
    requires
        expand_ok(t, i, l1),
        expand_ok(t, i, l2),
        is_done(expand_file(t, i, l1)),
        l2.disjoint(done_deps(expand_file(t, i, l1))),
    ensures
        expand_file(t, i, l2) == expand_file(t, i, l1),
    decreases t.files@.len() - l1.len(), 0int, 0int,
{
    lemma_int_range(0, t.files@.len() as int);
    lemma_len_subset(l1, t.index_set());
    lemma_len_subset(l2, t.index_set());
    lemma_len_subset(l1.insert(i), t.index_set());
    lemma_len_subset(l2.insert(i), t.index_set());
    lemma_file_done_facts(t, i, l1);
    match t.files@[i].data {
        FileData::Text(raw) => {
            let ls = split_lines_spec(raw@);
            lemma_lines_done_facts(t, i, ls, 1, l1.insert(i));
            lemma_lines_transfer(t, i, ls, 1, l1.insert(i), l2.insert(i));
        },
        _ => {},
    }
}

/// The lines-level half of `lemma_file_transfer`.
pub proof fn lemma_lines_transfer(
    t: SourceTree,
    i: int,
    ls: Seq<Seq<u8>>,
    n: int,
    l1: Set<int>,
    l2: Set<int>,
)
    requires
        expand_ok(t, i, l1),
        expand_ok(t, i, l2),
        is_done(expand_lines(t, i, ls, n, l1)),
        l2.disjoint(done_deps(expand_lines(t, i, ls, n, l1))),
    ensures
        expand_lines(t, i, ls, n, l2) == expand_lines(t, i, ls, n, l1),
    decreases t.files@.len() - l1.len(), 1int, ls.len(),
{
    lemma_int_range(0, t.files@.len() as int);
    lemma_len_subset(l1, t.index_set());
    lemma_len_subset(l2, t.index_set());
    if ls.len() == 0 {
    } else {
        let l = ls[0];
        if !is_directive(l) {
            let rest = expand_lines(t, i, ls.skip(1), n + 1, l1);
            assert(Set::empty() + done_deps(rest) =~= done_deps(rest));
            lemma_lines_transfer(t, i, ls.skip(1), n + 1, l1, l2);
        } else {
            match find_byte(l.skip(10), 34) {
                None => {},
                Some(e) => {
                    let rel = l.skip(10).take(e);
                    lemma_lookup_links_wf(t, parent_dir(file_path(t, i)), rel);
                    match lookup_links(t.links@, parent_dir(file_path(t, i)), rel) {
                        Some(LinkFate::File(j)) => {
                            let inner = expand_file(t, j as int, l1);
                            if is_done(inner) {
                                lemma_file_done_facts(t, j as int, l1);
                                lemma_lines_done_facts(t, i, ls.skip(1), n + 1, l1);
                                lemma_file_transfer(t, j as int, l1, l2);
                                lemma_lines_transfer(t, i, ls.skip(1), n + 1, l1, l2);
                            }
                        },
                        _ => {},
                    }
                },
            }
        }
    }
}

} // verus!
