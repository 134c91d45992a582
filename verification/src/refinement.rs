use vstd::prelude::*;
use crate::machine::{listing_tasks, spec_step, spec_supply, GAction, GTask, MState};
use crate::resolver::{
    children, leaf_step, lemma_lines_fetch_shift, lemma_node_fetch_shift, openssh_suffix, pk_flag,
    public_keys_text, resolve_roots, root_url, walk_lines, walk_node, WalkState,
};
use crate::laws::lemma_siblings_skipped_when_satisfied;
use crate::text::{contains_seq, flag_seq, spec_find, spec_join};
use crate::tree::{body_of, key_len_bound, lemma_lookup_len, lookup};

verus! {

// ---------------------------------------------------------------------------
// The machine refines the tree walk: what a machine, fed the bodies a tree
// answers, will have resolved once it is done, read off its state. Each
// decision the machine makes preserves this reading, so a driver that answers
// every request honestly ends with exactly the walk's result.
// ---------------------------------------------------------------------------

/// What one stacked child decision does to the resolved mapping and the
/// requested options, subtree and all.
pub open spec fn child_effect(
    tree: Seq<(Seq<char>, Seq<char>)>,
    parent: Seq<char>,
    name: Seq<char>,
    m: Map<Seq<char>, Seq<char>>,
    a: Seq<Seq<char>>,
    all_info: bool,
) -> (Map<Seq<char>, Seq<char>>, Seq<Seq<char>>) {
    let st = WalkState { map: m, args: a, fetched: Seq::empty() };
    let st1 = if name.len() > 0 && name.last() == '/' {
        if parent.len() <= key_len_bound(tree) {
            walk_node(tree, spec_join(parent, name), st, all_info)
        } else {
            st
        }
    } else {
        leaf_step(tree, parent, name, st, all_info)
    };
    (st1.map, st1.args)
}

/// What finishing the stacked work against `tree` resolves, from the top of
/// the stack down, stopping once every request is satisfied in selective mode.
pub open spec fn run_stack(
    tree: Seq<(Seq<char>, Seq<char>)>,
    stack: Seq<GTask>,
    m: Map<Seq<char>, Seq<char>>,
    a: Seq<Seq<char>>,
    all_info: bool,
) -> (Map<Seq<char>, Seq<char>>, Seq<Seq<char>>)
    decreases stack.len(),
{
    if a.len() == 0 && !all_info {
        (m, a)
    } else if stack.len() == 0 {
        (m, a)
    } else {
        let rest = stack.drop_last();
        match stack.last() {
            GTask::Node { url } => {
                let w = walk_node(
                    tree,
                    url,
                    WalkState { map: m, args: a, fetched: Seq::empty() },
                    all_info,
                );
                run_stack(tree, rest, w.map, w.args, all_info)
            },
            GTask::Child { parent, name } => {
                let c = child_effect(tree, parent, name, m, a, all_info);
                run_stack(tree, rest, c.0, c.1, all_info)
            },
        }
    }
}

/// The reading of a whole machine state that is not waiting on a request.
pub open spec fn machine_result(tree: Seq<(Seq<char>, Seq<char>)>, s: MState) -> (
    Map<Seq<char>, Seq<char>>,
    Seq<Seq<char>>,
) {
    run_stack(tree, s.stack, s.map, s.args, s.all_info)
}

/// Finishing concatenated work finishes the upper part from where the lower
/// part ends.
proof fn lemma_run_stack_concat(
    tree: Seq<(Seq<char>, Seq<char>)>,
    s1: Seq<GTask>,
    s2: Seq<GTask>,
    m: Map<Seq<char>, Seq<char>>,
    a: Seq<Seq<char>>,
    all_info: bool,
)
    ensures
        run_stack(tree, s1 + s2, m, a, all_info) == ({
            let r = run_stack(tree, s2, m, a, all_info);
            run_stack(tree, s1, r.0, r.1, all_info)
        }),
    decreases s2.len(),
{
    if a.len() == 0 && !all_info {
        assert(run_stack(tree, s1 + s2, m, a, all_info) == (m, a));
        assert(run_stack(tree, s2, m, a, all_info) == (m, a));
        assert(run_stack(tree, s1, m, a, all_info) == (m, a));
    } else if s2.len() == 0 {
        assert(s1 + s2 =~= s1);
        assert(run_stack(tree, s2, m, a, all_info) == (m, a));
    } else {
        assert((s1 + s2).last() == s2.last());
        assert((s1 + s2).drop_last() =~= s1 + s2.drop_last());
        match s2.last() {
            GTask::Node { url } => {
                let w = walk_node(
                    tree,
                    url,
                    WalkState { map: m, args: a, fetched: Seq::empty() },
                    all_info,
                );
                lemma_run_stack_concat(tree, s1, s2.drop_last(), w.map, w.args, all_info);
            },
            GTask::Child { parent, name } => {
                let c = child_effect(tree, parent, name, m, a, all_info);
                lemma_run_stack_concat(tree, s1, s2.drop_last(), c.0, c.1, all_info);
            },
        }
    }
}

/// The child tasks of the lines from index `i` on, stacked so that line `i`
/// is worked on first.
spec fn tasks_from(url: Seq<char>, lines: Seq<Seq<char>>, i: int) -> Seq<GTask> {
    lines.skip(i).reverse().map_values(|name: Seq<char>| GTask::Child { parent: url, name })
}

/// Finishing the stacked children of a listing resolves what visiting those
/// children in order resolves.
proof fn lemma_run_stack_lines(
    tree: Seq<(Seq<char>, Seq<char>)>,
    url: Seq<char>,
    lines: Seq<Seq<char>>,
    i: int,
    m: Map<Seq<char>, Seq<char>>,
    a: Seq<Seq<char>>,
    all_info: bool,
)
    requires
        0 <= i <= lines.len(),
    ensures
        run_stack(tree, tasks_from(url, lines, i), m, a, all_info) == ({
            let w = walk_lines(
                tree,
                url,
                lines,
                i,
                WalkState { map: m, args: a, fetched: Seq::empty() },
                all_info,
            );
            (w.map, w.args)
        }),
    decreases lines.len() - i,
{
    let st = WalkState { map: m, args: a, fetched: Seq::empty() };
    let ts = tasks_from(url, lines, i);
    assert(ts.len() == lines.len() - i);
    if a.len() == 0 && !all_info {
        lemma_siblings_skipped_when_satisfied(tree, url, lines, i, st);
    } else if i == lines.len() {
        assert(ts.len() == 0);
    } else {
        let name = lines[i];
        assert(lines.skip(i).reverse()[ts.len() - 1] == lines.skip(i)[0]);
        assert(ts.last() == (GTask::Child { parent: url, name }));
        assert(ts.drop_last() =~= tasks_from(url, lines, i + 1)) by {
            let r1 = lines.skip(i).reverse();
            let r2 = lines.skip(i + 1).reverse();
            assert forall|k: int| 0 <= k < r2.len() implies r1[k] == r2[k] by {
                assert(r1[k] == lines.skip(i)[lines.len() - i - 1 - k]);
                assert(r2[k] == lines.skip(i + 1)[lines.len() - i - 2 - k]);
                assert(lines.skip(i)[lines.len() - i - 1 - k] == lines[lines.len() - 1 - k]);
                assert(lines.skip(i + 1)[lines.len() - i - 2 - k] == lines[lines.len() - 1 - k]);
            }
            assert(r1.drop_last() =~= r2);
        }
        let c = child_effect(tree, url, name, m, a, all_info);
        let st1 = if name.len() > 0 && name.last() == '/' {
            if url.len() <= key_len_bound(tree) {
                walk_node(tree, spec_join(url, name), st, all_info)
            } else {
                st
            }
        } else {
            leaf_step(tree, url, name, st, all_info)
        };
        assert(c == (st1.map, st1.args));
        if st1.args.len() == 0 && !all_info {
            assert(walk_lines(tree, url, lines, i, st, all_info) == st1);
            assert(run_stack(tree, tasks_from(url, lines, i + 1), c.0, c.1, all_info) == c);
        } else {
            lemma_run_stack_lines(tree, url, lines, i + 1, c.0, c.1, all_info);
            lemma_lines_fetch_shift(tree, url, lines, i + 1, st1, Seq::empty(), all_info);
        }
    }
}

/// A machine seeded with the two roots of one API version reads as that
/// version's full resolution pass.
pub proof fn lemma_machine_init(
    tree: Seq<(Seq<char>, Seq<char>)>,
    version: Seq<char>,
    args: Seq<Seq<char>>,
    all_info: bool,
)
    ensures
        run_stack(
            tree,
            seq![
                GTask::Node { url: root_url(version, "meta-data"@) },
                GTask::Node { url: root_url(version, "dynamic"@) },
            ],
            Map::empty(),
            args,
            all_info,
        ) == ({
            let w = resolve_roots(tree, version, args, all_info);
            (w.map, w.args)
        }),
{
    let r1 = root_url(version, "dynamic"@);
    let r2 = root_url(version, "meta-data"@);
    let stack = seq![GTask::Node { url: r2 }, GTask::Node { url: r1 }];
    let init = WalkState { map: Map::empty(), args: args, fetched: Seq::empty() };
    let w1 = walk_node(tree, r1, init, all_info);
    let w2 = walk_node(tree, r2, w1, all_info);
    if args.len() == 0 && !all_info {
        assert(w1 == init);
        assert(w2 == init);
        assert(run_stack(tree, stack, Map::empty(), args, all_info) == (
            Map::<Seq<char>, Seq<char>>::empty(),
            args,
        ));
    } else {
        assert(stack.last() == (GTask::Node { url: r1 }));
        assert(stack.drop_last() =~= seq![GTask::Node { url: r2 }]);
        assert((WalkState { map: Map::empty(), args: args, fetched: Seq::empty() }) == init);
        assert(run_stack(tree, stack, Map::empty(), args, all_info) == run_stack(
            tree,
            seq![GTask::Node { url: r2 }],
            w1.map,
            w1.args,
            all_info,
        ));
        lemma_node_fetch_shift(tree, r2, w1, Seq::empty(), all_info);
        let w2f = walk_node(
            tree,
            r2,
            WalkState { map: w1.map, args: w1.args, fetched: Seq::empty() },
            all_info,
        );
        assert(w2f.map == w2.map && w2f.args == w2.args);
        if w1.args.len() == 0 && !all_info {
            assert(run_stack(tree, seq![GTask::Node { url: r2 }], w1.map, w1.args, all_info) == (
                w1.map,
                w1.args,
            ));
            assert(w2 == w1);
        } else {
            let one = seq![GTask::Node { url: r2 }];
            assert(one.last() == (GTask::Node { url: r2 }));
            assert(one.drop_last() =~= Seq::<GTask>::empty());
            assert(run_stack(tree, one, w1.map, w1.args, all_info) == run_stack(
                tree,
                Seq::empty(),
                w2f.map,
                w2f.args,
                all_info,
            ));
            assert(run_stack(tree, Seq::<GTask>::empty(), w2f.map, w2f.args, all_info) == (
                w2f.map,
                w2f.args,
            ));
        }
    }
}

/// Every decision of the machine preserves its reading against the tree whose
/// bodies it is fed: a step that asks for nothing keeps the reading, and a
/// step whose request is answered with the body the tree holds for that URL
/// (an absent URL answering as an empty body) keeps it too. Once the machine
/// is done, its reading is what it has resolved. A driver that starts a
/// machine on a version's two roots and answers every request from the tree
/// therefore ends with exactly the resolution pass's mapping and leftover
/// requests.
pub proof fn lemma_step_refines(tree: Seq<(Seq<char>, Seq<char>)>, s: MState)
    requires
        s.pending is None,
    ensures
        ({
            let (s2, act) = spec_step(s);
            match act {
                GAction::Done => s2 == s && machine_result(tree, s) == (s.map, s.args),
                GAction::Continue => s2.pending is None && s2.all_info == s.all_info
                    && machine_result(tree, s2) == machine_result(tree, s),
                GAction::Fetch { url } => s2.pending is Some && ({
                    let s3 = spec_supply(s2, s2.pending.unwrap(), body_of(tree, url));
                    &&& s3.pending is None
                    &&& s3.all_info == s.all_info
                    &&& machine_result(tree, s3) == machine_result(tree, s)
                }),
            }
        }),
{
    let (s2, act) = spec_step(s);
    if s.args.len() == 0 && !s.all_info {
    } else if s.stack.len() == 0 {
    } else {
        let rest = s.stack.drop_last();
        match s.stack.last() {
            GTask::Node { url } => {
                let b = body_of(tree, url);
                let s3 = spec_supply(s2, s2.pending.unwrap(), b);
                assert(s3.stack == rest + listing_tasks(url, b));
                lemma_run_stack_concat(tree, rest, listing_tasks(url, b), s.map, s.args, s.all_info);
                assert(listing_tasks(url, b) =~= tasks_from(url, children(b), 0)) by {
                    assert(children(b).skip(0) =~= children(b));
                }
                lemma_run_stack_lines(tree, url, children(b), 0, s.map, s.args, s.all_info);
                let st = WalkState { map: s.map, args: s.args, fetched: Seq::empty() };
                let w = walk_node(tree, url, st, s.all_info);
                lemma_lines_fetch_shift(
                    tree,
                    url,
                    children(b),
                    0,
                    WalkState { map: s.map, args: s.args, fetched: st.fetched.push(url) },
                    Seq::empty(),
                    s.all_info,
                );
            },
            GTask::Child { parent, name } => {
                let st = WalkState { map: s.map, args: s.args, fetched: Seq::empty() };
                if name.len() > 0 && name.last() == '/' {
                    let child_url = spec_join(parent, name);
                    let b = body_of(tree, child_url);
                    let s3 = spec_supply(s2, s2.pending.unwrap(), b);
                    assert(s3.stack == rest + listing_tasks(child_url, b));
                    lemma_run_stack_concat(
                        tree,
                        rest,
                        listing_tasks(child_url, b),
                        s.map,
                        s.args,
                        s.all_info,
                    );
                    assert(listing_tasks(child_url, b) =~= tasks_from(child_url, children(b), 0))
                        by {
                        assert(children(b).skip(0) =~= children(b));
                    }
                    lemma_run_stack_lines(tree, child_url, children(b), 0, s.map, s.args, s.all_info);
                    if parent.len() <= key_len_bound(tree) {
                        lemma_lines_fetch_shift(
                            tree,
                            child_url,
                            children(b),
                            0,
                            WalkState {
                                map: s.map,
                                args: s.args,
                                fetched: st.fetched.push(child_url),
                            },
                            Seq::empty(),
                            s.all_info,
                        );
                    } else {
                        // past every recorded URL the child cannot be answered:
                        // its body reads empty and the listing adds no work
                        if lookup(tree, child_url) is Some {
                            lemma_lookup_len(tree, child_url);
                        }
                        assert(b.len() == 0);
                        assert(children(b) =~= Seq::<Seq<char>>::empty());
                        assert(child_effect(tree, parent, name, s.map, s.args, s.all_info) == (
                            s.map,
                            s.args,
                        ));
                    }
                } else {
                    if s.args.contains(pk_flag()) && spec_find(name, '=') < name.len()
                        && contains_seq(parent, public_keys_text()) {
                        let key_url = spec_join(parent, name.take(spec_find(name, '=') as int))
                            + openssh_suffix();
                        let b = body_of(tree, key_url);
                        let s3 = spec_supply(s2, s2.pending.unwrap(), b);
                        assert(s3.stack == rest);
                        assert((s3.map, s3.args) == child_effect(
                            tree,
                            parent,
                            name,
                            s.map,
                            s.args,
                            s.all_info,
                        ));
                    } else if s.all_info || s.args.contains(flag_seq(name)) {
                        let leaf_url = spec_join(parent, name);
                        let b = body_of(tree, leaf_url);
                        let s3 = spec_supply(s2, s2.pending.unwrap(), b);
                        assert(s3.stack == rest);
                        assert((s3.map, s3.args) == child_effect(
                            tree,
                            parent,
                            name,
                            s.map,
                            s.args,
                            s.all_info,
                        ));
                    } else {
                        assert(child_effect(tree, parent, name, s.map, s.args, s.all_info) == (
                            s.map,
                            s.args,
                        ));
                    }
                }
            },
        }
    }
}

} // verus!
