//! The executable resolver: a depth-first, memoized traversal of the
//! inclusion graph recorded in a `SourceTree`, verified against the
//! memo-free model in `model`.
use crate::bytes::line_is_directive;
use crate::bytes::parent_dir_of;
use crate::bytes::find_byte_from;
use crate::bytes::push_all;
use crate::bytes::split_lines;
use crate::bytes::sub_vec;
use crate::model::after;
use crate::model::done_deps;
use crate::model::expand_file;
use crate::model::expand_lines;
use crate::model::expand_ok;
use crate::model::file_path;
use crate::model::is_done;
use crate::model::lemma_after_assoc;
use crate::model::lemma_after_unit;
use crate::model::lemma_file_transfer;
use crate::model::nl;
use crate::model::ErrView;
use crate::model::Expansion;
use crate::model::ReqView;
use crate::tree::FileData;
use crate::tree::LinkFate;
use crate::tree::SourceTree;
use vstd::pervasive::unreached;
use vstd::pervasive::VecAdditionalExecFns;
use vstd::prelude::*;
use vstd::set_lib::lemma_int_range;
use vstd::set_lib::lemma_len_subset;
use vstd::set_lib::set_int_range;

verus! {

/// The per-file progress of one resolution run.
pub enum LoadState {
    /// The traversal has not reached this file.
    Unseen,
    /// The file is on the active traversal chain.
    Loading,
    /// The file's flattened text is final.
    Loaded(Vec<u8>),
}

/// Why a resolution run stopped.
pub enum ResolveError {
    /// The file was reached again while still being flattened.
    Circular { path: Vec<u8> },
    /// The file's bytes could not be read.
    Unreadable { path: Vec<u8>, cause: Vec<u8> },
    /// The 1-based `line` of `path` opens a directive without a closing quote.
    Malformed { path: Vec<u8>, line: usize },
    /// The directive path at `line` of `path` could not be canonicalized.
    Unresolvable { path: Vec<u8>, line: usize, cause: Vec<u8> },
}

impl View for ResolveError {
    type V = ErrView;

    open spec fn view(&self) -> ErrView {
        match self {
            ResolveError::Circular { path } => ErrView::Circular { path: path@ },
            ResolveError::Unreadable { path, cause } => ErrView::Unreadable {
                path: path@,
                cause: cause@,
            },
            ResolveError::Malformed { path, line } => ErrView::Malformed {
                path: path@,
                line: *line as int,
            },
            ResolveError::Unresolvable { path, line, cause } => ErrView::Unresolvable {
                path: path@,
                line: *line as int,
                cause: cause@,
            },
        }
    }
}

/// A question the caller must answer, by growing the tree, before the run
/// can go further.
pub enum Request {
    /// Record content for the file at this index.
    Content { file: usize },
    /// Record how `rel` resolves against `dir`.
    Path { dir: Vec<u8>, rel: Vec<u8> },
}

impl View for Request {
    type V = ReqView;

    open spec fn view(&self) -> ReqView {
        match self {
            Request::Content { file } => ReqView::Content { file: *file as int },
            Request::Path { dir, rel } => ReqView::Path { dir: dir@, rel: rel@ },
        }
    }
}

/// An early stop of the traversal: an error or an open question.
pub enum Halt {
    Error(ResolveError),
    Need(Request),
}

/// The expansion outcome a halt stands for.
pub open spec fn halt_view(h: Halt) -> Expansion {
    match h {
        Halt::Error(e) => Expansion::Fail { err: e@ },
        Halt::Need(q) => Expansion::Need { req: q@ },
    }
}

/// The indices currently marked `Loading`.
pub open spec fn lset(s: Seq<LoadState>) -> Set<int> {
    Set::new(|j: int| 0 <= j < s.len() && (s[j] matches LoadState::Loading))
}

/// The indices currently marked `Loaded`.
pub open spec fn donset(s: Seq<LoadState>) -> Set<int> {
    Set::new(|j: int| 0 <= j < s.len() && (s[j] matches LoadState::Loaded(_)))
}

/// The indices no longer `Unseen`.
pub open spec fn markedset(s: Seq<LoadState>) -> Set<int> {
    Set::new(|j: int| 0 <= j < s.len() && !(s[j] matches LoadState::Unseen))
}

/// Finiteness and disjointness facts about the three state sets.
pub proof fn lemma_state_sets(s: Seq<LoadState>)
    ensures
        lset(s).finite(),
        donset(s).finite(),
        markedset(s).finite(),
        lset(s).subset_of(set_int_range(0, s.len() as int)),
        donset(s).subset_of(set_int_range(0, s.len() as int)),
        markedset(s).subset_of(set_int_range(0, s.len() as int)),
        lset(s).disjoint(donset(s)),
{
    lemma_int_range(0, s.len() as int);
    lemma_len_subset(lset(s), set_int_range(0, s.len() as int));
    lemma_len_subset(donset(s), set_int_range(0, s.len() as int));
    lemma_len_subset(markedset(s), set_int_range(0, s.len() as int));
}

/// The memo table of one resolution run: one slot per file of the tree.
pub struct Ctx {
    pub slots: Vec<LoadState>,
}

/// A `Loaded` slot caches exactly what the model computes for its file from
/// a fresh chain, and everything that contributed is `Loaded` as well.
pub open spec fn inv_slot(t: SourceTree, s: Seq<LoadState>, j: int) -> bool {
    match s[j] {
        LoadState::Loaded(c) => exists|d: Set<int>|
            expand_file(t, j, Set::empty()) == (Expansion::Done { text: c@, deps: d })
                && d.subset_of(donset(s)),
        _ => true,
    }
}

impl Ctx {
    pub open spec fn inv(self, t: SourceTree) -> bool {
        &&& self.slots@.len() == t.files@.len()
        &&& forall|j: int| 0 <= j < self.slots@.len() ==> #[trigger] inv_slot(t, self.slots@, j)
    }
}

/// Flattens file `i`, caching every file finished on the way in `ctx`.
/// On success the cache holds the flattened text of `i`; on a halt the
/// model's expansion of `i` under the chain at entry is that same halt.
#[verifier::rlimit(100)]
#[verifier::spinoff_prover]
pub fn load_file(t: &SourceTree, i: usize, ctx: &mut Ctx) -> (r: Result<(), Halt>)
    requires
        t.wf(),
        (i as int) < t.files@.len(),
        old(ctx).inv(*t),
    ensures
        match r {
            Ok(()) => {
                &&& final(ctx).inv(*t)
                &&& lset(final(ctx).slots@) == lset(old(ctx).slots@)
                &&& (forall|j: int|
                    0 <= j < old(ctx).slots@.len() && !(old(ctx).slots@[j]
                        matches LoadState::Unseen) ==> final(ctx).slots@[j] == old(ctx).slots@[j])
                &&& (final(ctx).slots@[i as int] matches LoadState::Loaded(c) && (exists|
                    d: Set<int>,
                |
                    expand_file(*t, i as int, lset(old(ctx).slots@)) == (Expansion::Done {
                        text: c@,
                        deps: d,
                    }) && donset(final(ctx).slots@) == donset(old(ctx).slots@) + d))
            },
            Err(h) => expand_file(*t, i as int, lset(old(ctx).slots@)) == halt_view(h),
        },
    decreases t.files@.len() - markedset(old(ctx).slots@).len(),
{
    let ghost entry_slots = ctx.slots@;
    let ghost l0 = lset(entry_slots);
    proof {
        lemma_state_sets(entry_slots);
        lemma_int_range(0, t.files@.len() as int);
        assert(set_int_range(0, entry_slots.len() as int) =~= t.index_set());
        assert(expand_ok(*t, i as int, l0));
    }
    match &ctx.slots[i] {
        LoadState::Loading => {
            let path = sub_vec(&t.files[i].path, 0, t.files[i].path.len());
            proof {
                assert(l0.contains(i as int));
                assert(path@ =~= t.files@[i as int].path@);
            }
            return Err(Halt::Error(ResolveError::Circular { path }));
        },
        LoadState::Loaded(_) => {
            proof {
                assert(inv_slot(*t, entry_slots, i as int));
                let c = match entry_slots[i as int] {
                    LoadState::Loaded(c) => c,
                    _ => arbitrary(),
                };
                let d = choose|d: Set<int>|
                    expand_file(*t, i as int, Set::empty()) == (Expansion::Done {
                        text: c@,
                        deps: d,
                    }) && d.subset_of(donset(entry_slots));
                assert(is_done(expand_file(*t, i as int, Set::empty())));
                assert(done_deps(expand_file(*t, i as int, Set::empty())) == d);
                assert(expand_ok(*t, i as int, Set::<int>::empty()));
                assert(l0.disjoint(d));
                lemma_file_transfer(*t, i as int, Set::empty(), l0);
                assert(donset(entry_slots) + d =~= donset(entry_slots));
            }
            return Ok(());
        },
        LoadState::Unseen => {},
    }
    proof {
        assert(!l0.contains(i as int));
        assert(!markedset(entry_slots).contains(i as int));
    }
    ctx.slots.set(i, LoadState::Loading);
    let ghost started_slots = ctx.slots@;
    let ghost l_in = l0.insert(i as int);
    proof {
        assert(lset(started_slots) =~= l_in);
        assert(donset(started_slots) =~= donset(entry_slots));
        assert(markedset(started_slots) =~= markedset(entry_slots).insert(i as int));
        lemma_state_sets(started_slots);
        assert(expand_ok(*t, i as int, l_in));
        assert forall|j: int| 0 <= j < started_slots.len() implies #[trigger] inv_slot(
            *t,
            started_slots,
            j,
        ) by {
            assert(inv_slot(*t, entry_slots, j));
            if j != i as int {
                match started_slots[j] {
                    LoadState::Loaded(c) => {
                        let d = choose|d: Set<int>|
                            expand_file(*t, j, Set::empty()) == (Expansion::Done {
                                text: c@,
                                deps: d,
                            }) && d.subset_of(donset(entry_slots));
                        assert(expand_file(*t, j, Set::empty()) == (Expansion::Done {
                            text: c@,
                            deps: d,
                        }) && d.subset_of(donset(started_slots)));
                    },
                    _ => {},
                }
            }
        }
    }
    let raw = match &t.files[i].data {
        FileData::Pending => {
            return Err(Halt::Need(Request::Content { file: i }));
        },
        FileData::Unreadable(cause) => {
            let ghost cause0 = cause@;
            let path = sub_vec(&t.files[i].path, 0, t.files[i].path.len());
            let cause = sub_vec(cause, 0, cause.len());
            proof {
                assert(path@ =~= t.files@[i as int].path@);
                assert(cause@ =~= cause0);
            }
            return Err(Halt::Error(ResolveError::Unreadable { path, cause }));
        },
        FileData::Text(raw) => raw,
    };
    let ghost graw = raw@;
    let lines = split_lines(raw);
    let ghost all_ls = lines@.map_values(|l: Vec<u8>| l@);
    let mut out: Vec<u8> = Vec::new();
    let ghost mut deps_acc = Set::<int>::empty();
    let mut idx: usize = 0;
    proof {
        assert(all_ls.skip(0) =~= all_ls);
        lemma_after_unit(expand_lines(*t, i as int, all_ls, 1, l_in));
    }
    while idx < lines.len()
        invariant
            t.wf(),
            (i as int) < t.files@.len(),
            ctx.inv(*t),
            ctx.slots@.len() == entry_slots.len(),
            entry_slots.len() == t.files@.len(),
            ctx.slots@[i as int] matches LoadState::Loading,
            lset(ctx.slots@) == l_in,
            l_in == l0.insert(i as int),
            !l0.contains(i as int),
            l0 == lset(entry_slots),
            entry_slots == old(ctx).slots@,
            expand_ok(*t, i as int, l0),
            entry_slots[i as int] matches LoadState::Unseen,
            forall|j: int|
                0 <= j < entry_slots.len() && !(entry_slots[j] matches LoadState::Unseen)
                    ==> ctx.slots@[j] == entry_slots[j],
            donset(ctx.slots@) == donset(entry_slots) + deps_acc,
            deps_acc.subset_of(donset(ctx.slots@)),
            idx <= lines@.len(),
            all_ls == lines@.map_values(|l: Vec<u8>| l@),
            all_ls == crate::bytes::split_lines_spec(graw),
            t.files@[i as int].data matches FileData::Text(rr) && rr@ == graw,
            expand_ok(*t, i as int, l_in),
            expand_lines(*t, i as int, all_ls, 1, l_in) == after(
                out@,
                deps_acc,
                expand_lines(*t, i as int, all_ls.skip(idx as int), idx as int + 1, l_in),
            ),
        decreases lines@.len() - idx,
    {
        let line = &lines[idx];
        let ghost rest = all_ls.skip(idx as int);
        proof {
            assert(rest[0] == all_ls[idx as int]);
            assert(all_ls[idx as int] == line@);
            assert(rest.skip(1) =~= all_ls.skip(idx as int + 1));
        }
        if !line_is_directive(line) {
            let ghost prev_out = out@;
            push_all(&mut out, line);
            out.push(10);
            proof {
                assert(out@ =~= prev_out + (line@ + nl()));
                assert(deps_acc + Set::<int>::empty() =~= deps_acc);
                lemma_after_assoc(
                    prev_out,
                    deps_acc,
                    line@ + nl(),
                    Set::empty(),
                    expand_lines(*t, i as int, all_ls.skip(idx as int + 1), idx as int + 2, l_in),
                );
            }
            idx += 1;
        } else {
            match find_byte_from(line, 10, 34) {
                None => {
                    let path = sub_vec(&t.files[i].path, 0, t.files[i].path.len());
                    proof {
                        assert(crate::bytes::find_byte(line@.skip(10), 34) == None::<int>);
                        assert(path@ =~= t.files@[i as int].path@);
                        assert(expand_lines(*t, i as int, rest, idx as int + 1, l_in)
                            == (Expansion::Fail {
                            err: ErrView::Malformed {
                                path: file_path(*t, i as int),
                                line: idx as int + 1,
                            },
                        }));
                        assert(expand_lines(*t, i as int, all_ls, 1, l_in) == (Expansion::Fail {
                            err: ErrView::Malformed {
                                path: file_path(*t, i as int),
                                line: idx as int + 1,
                            },
                        }));
                        assert(expand_file(*t, i as int, l0) == (Expansion::Fail {
                            err: ErrView::Malformed {
                                path: file_path(*t, i as int),
                                line: idx as int + 1,
                            },
                        }));
                    }
                    return Err(Halt::Error(ResolveError::Malformed { path, line: idx + 1 }));
                },
                Some(q) => {
                    let rel = sub_vec(line, 10, q);
                    let dir = parent_dir_of(&t.files[i].path);
                    proof {
                        assert(line@.skip(10).take(q - 10) =~= line@.subrange(10, q as int));
                    }
                    match t.lookup_link(&dir, &rel) {
                        None => {
                            proof {
                                assert(expand_lines(*t, i as int, rest, idx as int + 1, l_in)
                                    == (Expansion::Need {
                                    req: ReqView::Path { dir: dir@, rel: rel@ },
                                }));
                                assert(expand_lines(*t, i as int, all_ls, 1, l_in)
                                    == (Expansion::Need {
                                    req: ReqView::Path { dir: dir@, rel: rel@ },
                                }));
                                assert(expand_file(*t, i as int, l0) == (Expansion::Need {
                                    req: ReqView::Path { dir: dir@, rel: rel@ },
                                }));
                            }
                            return Err(Halt::Need(Request::Path { dir, rel }));
                        },
                        Some(k) => {
                            let ghost fate = t.links@[k as int].fate;
                            match &t.links[k].fate {
                                LinkFate::Broken(cause) => {
                                    let ghost cause0 = cause@;
                                    let path = sub_vec(&t.files[i].path, 0, t.files[i].path.len());
                                    let cause = sub_vec(cause, 0, cause.len());
                                    proof {
                                        assert(path@ =~= t.files@[i as int].path@);
                                        assert(cause@ =~= cause0);
                                        assert(expand_lines(
                                            *t,
                                            i as int,
                                            rest,
                                            idx as int + 1,
                                            l_in,
                                        ) == (Expansion::Fail {
                                            err: ErrView::Unresolvable {
                                                path: file_path(*t, i as int),
                                                line: idx as int + 1,
                                                cause: cause0,
                                            },
                                        }));
                                        assert(expand_lines(*t, i as int, all_ls, 1, l_in)
                                            == (Expansion::Fail {
                                            err: ErrView::Unresolvable {
                                                path: file_path(*t, i as int),
                                                line: idx as int + 1,
                                                cause: cause0,
                                            },
                                        }));
                                        assert(expand_file(*t, i as int, l0) == (Expansion::Fail {
                                            err: ErrView::Unresolvable {
                                                path: file_path(*t, i as int),
                                                line: idx as int + 1,
                                                cause: cause0,
                                            },
                                        }));
                                    }
                                    return Err(Halt::Error(ResolveError::Unresolvable {
                                        path,
                                        line: idx + 1,
                                        cause,
                                    }));
                                },
                                LinkFate::File(j) => {
                                    let j = *j;
                                    proof {
                                        assert((j as int) < t.files@.len());
                                        lemma_state_sets(ctx.slots@);
                                        lemma_state_sets(entry_slots);
                                        lemma_int_range(0, ctx.slots@.len() as int);
                                        lemma_len_subset(
                                            markedset(ctx.slots@),
                                            set_int_range(0, ctx.slots@.len() as int),
                                        );
                                        assert(markedset(entry_slots).insert(i as int).subset_of(
                                            markedset(ctx.slots@),
                                        ));
                                        lemma_len_subset(
                                            markedset(entry_slots).insert(i as int),
                                            markedset(ctx.slots@),
                                        );
                                    }
                                    let ghost before_call = ctx.slots@;
                                    match load_file(t, j, ctx) {
                                        Err(h) => {
                                            proof {
                                                match h {
                                                    Halt::Error(_) => {},
                                                    Halt::Need(_) => {},
                                                }
                                                assert(expand_file(*t, j as int, l_in)
                                                    == halt_view(h));
                                                assert(expand_lines(
                                                    *t,
                                                    i as int,
                                                    rest,
                                                    idx as int + 1,
                                                    l_in,
                                                ) == halt_view(h));
                                                assert(expand_lines(*t, i as int, all_ls, 1, l_in)
                                                    == halt_view(h));
                                                assert(expand_file(*t, i as int, l0)
                                                    == halt_view(h));
                                            }
                                            return Err(h);
                                        },
                                        Ok(()) => {},
                                    }
                                    let cj = match &ctx.slots[j] {
                                        LoadState::Loaded(c) => c,
                                        _ => unreached(),
                                    };
                                    let ghost prev_out = out@;
                                    let ghost prev_deps = deps_acc;
                                    let ghost dj = choose|d: Set<int>|
                                        expand_file(*t, j as int, lset(before_call))
                                            == (Expansion::Done { text: cj@, deps: d }) && donset(
                                            ctx.slots@,
                                        ) == donset(before_call) + d;
                                    push_all(&mut out, cj);
                                    out.push(10);
                                    proof {
                                        assert(out@ =~= prev_out + (cj@ + nl()));
                                        lemma_after_assoc(
                                            prev_out,
                                            prev_deps,
                                            cj@ + nl(),
                                            dj,
                                            expand_lines(
                                                *t,
                                                i as int,
                                                all_ls.skip(idx as int + 1),
                                                idx as int + 2,
                                                l_in,
                                            ),
                                        );
                                        deps_acc = prev_deps + dj;
                                        assert(donset(ctx.slots@) =~= donset(entry_slots)
                                            + deps_acc);
                                    }
                                    idx += 1;
                                },
                            }
                        },
                    }
                },
            }
        }
    }
    let ghost loop_slots = ctx.slots@;
    let ghost tfin = out@;
    let ghost dfin = deps_acc.insert(i as int);
    proof {
        assert(all_ls.skip(idx as int) =~= Seq::<Seq<u8>>::empty());
        assert(tfin + Seq::<u8>::empty() =~= tfin);
        assert(deps_acc + Set::<int>::empty() =~= deps_acc);
        assert(expand_lines(*t, i as int, all_ls, 1, l_in) == (Expansion::Done {
            text: tfin,
            deps: deps_acc,
        }));
        assert(expand_file(*t, i as int, l0) == (Expansion::Done { text: tfin, deps: dfin }));
    }
    ctx.slots.set(i, LoadState::Loaded(out));
    proof {
        let fslots = ctx.slots@;
        assert(fslots == loop_slots.update(i as int, LoadState::Loaded(out)));
        assert forall|j: int| lset(fslots).contains(j) == l0.contains(j) by {
            if j == i as int {
                assert(fslots[j] == LoadState::Loaded(out));
                assert(!lset(fslots).contains(j));
                assert(!l0.contains(j));
            } else {
                if 0 <= j < fslots.len() {
                    assert(fslots[j] == loop_slots[j]);
                }
                assert(lset(fslots).contains(j) == lset(loop_slots).contains(j));
                assert(lset(loop_slots).contains(j) == l_in.contains(j));
                assert(l_in.contains(j) == l0.contains(j));
            }
        }
        assert(lset(fslots) =~= l0);
        assert(donset(fslots) =~= donset(loop_slots).insert(i as int));
        assert(donset(fslots) =~= donset(entry_slots) + dfin);
        lemma_state_sets(fslots);
        assert(is_done(expand_file(*t, i as int, l0)));
        assert(expand_ok(*t, i as int, Set::<int>::empty()));
        lemma_file_transfer(*t, i as int, l0, Set::empty());
        assert(expand_file(*t, i as int, Set::empty()) == (Expansion::Done {
            text: tfin,
            deps: dfin,
        }));
        assert forall|j: int| 0 <= j < fslots.len() implies #[trigger] inv_slot(*t, fslots, j) by {
            if j == i as int {
                assert(fslots[j] matches LoadState::Loaded(c) && c@ == tfin);
                assert(dfin.subset_of(donset(fslots)));
            } else {
                assert(inv_slot(*t, loop_slots, j));
                assert(loop_slots[j] == fslots[j]);
                match fslots[j] {
                    LoadState::Loaded(c) => {
                        let d = choose|d: Set<int>|
                            expand_file(*t, j, Set::empty()) == (Expansion::Done {
                                text: c@,
                                deps: d,
                            }) && d.subset_of(donset(loop_slots));
                        assert(expand_file(*t, j, Set::empty()) == (Expansion::Done {
                            text: c@,
                            deps: d,
                        }) && d.subset_of(donset(fslots)));
                    },
                    _ => {},
                }
            }
        }
        assert(donset(fslots) == donset(entry_slots) + dfin);
        assert(lset(fslots) == l0);
        assert(fslots[i as int] matches LoadState::Loaded(c) && (exists|d: Set<int>|
            expand_file(*t, i as int, lset(entry_slots)) == (Expansion::Done {
                text: c@,
                deps: d,
            }) && donset(fslots) == donset(entry_slots) + d));
    }
    Ok(())
}

/// `v` enumerates exactly the members of `s`, in strictly ascending order.
pub open spec fn lists_set(v: Seq<usize>, s: Set<int>) -> bool {
    &&& (forall|a: int| 0 <= a < v.len() ==> s.contains(#[trigger] v[a] as int))
    &&& (forall|j: int|
        s.contains(j) ==> exists|a: int| 0 <= a < v.len() && ((#[trigger] v[a]) as int) == j)
    &&& (forall|a1: int, a2: int| 0 <= a1 < a2 < v.len() ==> v[a1] < v[a2])
}

/// The product of a successful resolution: the flattened text of the root
/// file, and the indices of every file that was flattened on the way, in
/// strictly ascending order.
pub struct Bundle {
    pub text: Vec<u8>,
    pub deps: Vec<usize>,
}

/// What one resolution run against a tree ends in.
pub enum Outcome {
    /// Resolution finished; the bundle holds text and contributing files.
    Resolved(Bundle),
    /// Resolution failed; retrying against the same tree fails the same way.
    Failed(ResolveError),
    /// The tree lacks an answer; record it and run again.
    Blocked(Request),
}

/// Resolves the file at index `root` against the tree: the outcome is
/// exactly the model's expansion of `root` from a fresh chain, and on
/// success the reported dependency list enumerates the expansion's
/// contributing set in strictly ascending order.
pub fn load(t: &SourceTree, root: usize) -> (r: Outcome)
    requires
        t.wf(),
        (root as int) < t.files@.len(),
    ensures
        match expand_file(*t, root as int, Set::empty()) {
            Expansion::Done { text, deps } => r matches Outcome::Resolved(b) && b.text@ == text
                && lists_set(b.deps@, deps),
            Expansion::Fail { err } => r matches Outcome::Failed(e) && e@ == err,
            Expansion::Need { req } => r matches Outcome::Blocked(q) && q@ == req,
        },
{
    let mut slots: Vec<LoadState> = Vec::new();
    let n = t.files.len();
    while slots.len() < n
        invariant
            slots@.len() <= n,
            n == t.files@.len(),
            forall|j: int| 0 <= j < slots@.len() ==> #[trigger] slots@[j] matches LoadState::Unseen,
        decreases n - slots@.len(),
    {
        slots.push(LoadState::Unseen);
    }
    let mut ctx = Ctx { slots };
    proof {
        assert(lset(ctx.slots@) =~= Set::<int>::empty());
        assert(donset(ctx.slots@) =~= Set::<int>::empty());
        assert forall|j: int| 0 <= j < ctx.slots@.len() implies #[trigger] inv_slot(
            *t,
            ctx.slots@,
            j,
        ) by {
            assert(ctx.slots@[j] matches LoadState::Unseen);
            assert(!(ctx.slots@[j] matches LoadState::Loaded(_)));
        }
    }
    let ghost init_slots = ctx.slots@;
    match load_file(t, root, &mut ctx) {
        Err(Halt::Error(e)) => Outcome::Failed(e),
        Err(Halt::Need(q)) => Outcome::Blocked(q),
        Ok(()) => {
            let ghost c0 = match ctx.slots@[root as int] {
                LoadState::Loaded(c) => c@,
                _ => arbitrary(),
            };
            let ghost d0 = choose|d: Set<int>|
                expand_file(*t, root as int, lset(init_slots)) == (Expansion::Done {
                    text: c0,
                    deps: d,
                }) && donset(ctx.slots@) == donset(init_slots) + d;
            proof {
                assert(donset(ctx.slots@) =~= d0);
                assert(expand_file(*t, root as int, Set::empty()) == (Expansion::Done {
                    text: c0,
                    deps: d0,
                }));
                lemma_state_sets(ctx.slots@);
            }
            let text = match &ctx.slots[root] {
                LoadState::Loaded(c) => sub_vec(c, 0, c.len()),
                _ => unreached(),
            };
            proof {
                assert(text@ =~= c0);
            }
            let mut deps: Vec<usize> = Vec::new();
            let mut k: usize = 0;
            while k < ctx.slots.len()
                invariant
                    k <= ctx.slots@.len(),
                    d0 == donset(ctx.slots@),
                    forall|a: int|
                        0 <= a < deps@.len() ==> (deps@[a] as int) < k && d0.contains(
                            deps@[a] as int,
                        ),
                    forall|j: int|
                        0 <= j < k && d0.contains(j) ==> exists|a: int|
                            0 <= a < deps@.len() && (deps@[a] as int) == j,
                    forall|a1: int, a2: int|
                        0 <= a1 < a2 < deps@.len() ==> deps@[a1] < deps@[a2],
                decreases ctx.slots@.len() - k,
            {
                let keep = match &ctx.slots[k] {
                    LoadState::Loaded(_) => true,
                    _ => false,
                };
                if keep {
                    let ghost prev = deps@;
                    deps.push(k);
                    proof {
                        assert(deps@[deps@.len() - 1] == k);
                        assert forall|j: int| 0 <= j < k + 1 && d0.contains(j) implies exists|
                            a: int,
                        |
                            0 <= a < deps@.len() && (deps@[a] as int) == j by {
                            if j < k {
                                let a = choose|a: int|
                                    0 <= a < prev.len() && (prev[a] as int) == j;
                                assert(0 <= a < deps@.len() && (deps@[a] as int) == j);
                            } else {
                                assert((deps@[deps@.len() - 1] as int) == j);
                            }
                        }
                    }
                } else {
                    proof {
                        assert(!d0.contains(k as int));
                    }
                }
                k += 1;
            }
            proof {
                assert(expand_file(*t, root as int, Set::empty()) == (Expansion::Done {
                    text: text@,
                    deps: d0,
                }));
                lemma_state_sets(ctx.slots@);
                assert(d0.subset_of(set_int_range(0, ctx.slots@.len() as int)));
                assert forall|j: int| d0.contains(j) implies exists|a: int|
                    0 <= a < deps@.len() && ((deps@[a]) as int) == j by {
                    assert(0 <= j < ctx.slots@.len());
                    let a0 = choose|a: int| 0 <= a < deps@.len() && (deps@[a] as int) == j;
                    assert(0 <= a0 < deps@.len() && ((deps@[a0]) as int) == j);
                }
                assert(lists_set(deps@, d0));
            }
            Outcome::Resolved(Bundle { text, deps })
        },
    }
}

} // verus!
