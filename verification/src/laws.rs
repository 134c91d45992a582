use vstd::prelude::*;
use crate::resolver::{
    children, leaf_step, not_found_text, resolve_roots, walk_lines, walk_node, WalkState,
};
use crate::tree::body_of;
use crate::text::{contains_seq, spec_join};
use crate::tree::key_len_bound;

verus! {

// ---------------------------------------------------------------------------
// Early termination.
// ---------------------------------------------------------------------------

/// Once every requested option is satisfied, a selective walk is over: from
/// any node it changes nothing and fetches nothing.
pub proof fn lemma_walk_stops_when_satisfied(
    tree: Seq<(Seq<char>, Seq<char>)>,
    url: Seq<char>,
    st: WalkState,
)
    requires
        st.args.len() == 0,
    ensures
        walk_node(tree, url, st, false) == st,
{
}

/// Once every requested option is satisfied while a directory's children are
/// being visited, the remaining children are not visited: no sibling of the
/// satisfying child, and nothing below one, is fetched.
pub proof fn lemma_siblings_skipped_when_satisfied(
    tree: Seq<(Seq<char>, Seq<char>)>,
    url: Seq<char>,
    lines: Seq<Seq<char>>,
    i: int,
    st: WalkState,
)
    requires
        st.args.len() == 0,
    ensures
        walk_lines(tree, url, lines, i, st, false) == st,
{
    if !(i < 0 || i >= lines.len()) {
        let name = lines[i];
        if name.len() > 0 && name.last() == '/' && url.len() <= key_len_bound(tree) {
            lemma_walk_stops_when_satisfied(tree, spec_join(url, name), st);
        }
        assert(leaf_step(tree, url, name, st, false) == st);
    }
}

// ---------------------------------------------------------------------------
// An exhaustive walk satisfies no requests: the requested options are left
// exactly as they were handed in.
// ---------------------------------------------------------------------------

pub proof fn lemma_node_exhaustive_args(
    tree: Seq<(Seq<char>, Seq<char>)>,
    url: Seq<char>,
    st: WalkState,
)
    ensures
        walk_node(tree, url, st, true).args == st.args,
    decreases crate::resolver::url_measure(tree, url), 1nat, 0int,
{
    let st1 = WalkState { map: st.map, args: st.args, fetched: st.fetched.push(url) };
    lemma_lines_exhaustive_args(tree, url, children(body_of(tree, url)), 0, st1);
}

pub proof fn lemma_lines_exhaustive_args(
    tree: Seq<(Seq<char>, Seq<char>)>,
    url: Seq<char>,
    lines: Seq<Seq<char>>,
    i: int,
    st: WalkState,
)
    ensures
        walk_lines(tree, url, lines, i, st, true).args == st.args,
    decreases crate::resolver::url_measure(tree, url), 0nat, lines.len() - i,
{
    if !(i < 0 || i >= lines.len()) {
        let name = lines[i];
        let st1 = if name.len() > 0 && name.last() == '/' {
            if url.len() <= key_len_bound(tree) {
                walk_node(tree, spec_join(url, name), st, true)
            } else {
                st
            }
        } else {
            leaf_step(tree, url, name, st, true)
        };
        if name.len() > 0 && name.last() == '/' {
            if url.len() <= key_len_bound(tree) {
                lemma_node_exhaustive_args(tree, spec_join(url, name), st);
            }
        }
        assert(st1.args == st.args);
        lemma_lines_exhaustive_args(tree, url, lines, i + 1, st1);
    }
}

/// An exhaustive resolution pass leaves the requested options untouched.
pub proof fn lemma_roots_exhaustive_args(
    tree: Seq<(Seq<char>, Seq<char>)>,
    version: Seq<char>,
    args: Seq<Seq<char>>,
)
    ensures
        resolve_roots(tree, version, args, true).args == args,
{
    let init = WalkState { map: Map::empty(), args: args, fetched: Seq::empty() };
    let w1 = walk_node(tree, crate::resolver::root_url(version, "dynamic"@), init, true);
    lemma_node_exhaustive_args(tree, crate::resolver::root_url(version, "dynamic"@), init);
    lemma_node_exhaustive_args(tree, crate::resolver::root_url(version, "meta-data"@), w1);
}

// ---------------------------------------------------------------------------
// The "Not Found" sentinel never enters the result mapping.
// ---------------------------------------------------------------------------

/// No value of the mapping carries the sentinel.
pub open spec fn sentinel_free(m: Map<Seq<char>, Seq<char>>) -> bool {
    forall|k: Seq<char>|
        #[trigger] m.contains_key(k) ==> !contains_seq(m[k], not_found_text())
}

pub proof fn lemma_node_sentinel_free(
    tree: Seq<(Seq<char>, Seq<char>)>,
    url: Seq<char>,
    st: WalkState,
    all_info: bool,
)
    requires
        sentinel_free(st.map),
    ensures
        sentinel_free(walk_node(tree, url, st, all_info).map),
    decreases crate::resolver::url_measure(tree, url), 1nat, 0int,
{
    if !(st.args.len() == 0 && !all_info) {
        let st1 = WalkState { map: st.map, args: st.args, fetched: st.fetched.push(url) };
        lemma_lines_sentinel_free(tree, url, children(body_of(tree, url)), 0, st1, all_info);
    }
}

pub proof fn lemma_lines_sentinel_free(
    tree: Seq<(Seq<char>, Seq<char>)>,
    url: Seq<char>,
    lines: Seq<Seq<char>>,
    i: int,
    st: WalkState,
    all_info: bool,
)
    requires
        sentinel_free(st.map),
    ensures
        sentinel_free(walk_lines(tree, url, lines, i, st, all_info).map),
    decreases crate::resolver::url_measure(tree, url), 0nat, lines.len() - i,
{
    if !(i < 0 || i >= lines.len()) {
        let name = lines[i];
        let st1 = if name.len() > 0 && name.last() == '/' {
            if url.len() <= key_len_bound(tree) {
                walk_node(tree, spec_join(url, name), st, all_info)
            } else {
                st
            }
        } else {
            leaf_step(tree, url, name, st, all_info)
        };
        if name.len() > 0 && name.last() == '/' {
            if url.len() <= key_len_bound(tree) {
                lemma_node_sentinel_free(tree, spec_join(url, name), st, all_info);
            }
        } else {
            assert(sentinel_free(st1.map));
        }
        if !(st1.args.len() == 0 && !all_info) {
            lemma_lines_sentinel_free(tree, url, lines, i + 1, st1, all_info);
        }
    }
}

/// The mapping a resolution pass builds from nothing never carries the
/// sentinel, in either mode.
pub proof fn lemma_roots_sentinel_free(
    tree: Seq<(Seq<char>, Seq<char>)>,
    version: Seq<char>,
    args: Seq<Seq<char>>,
    all_info: bool,
)
    ensures
        sentinel_free(resolve_roots(tree, version, args, all_info).map),
{
    let init = WalkState { map: Map::empty(), args: args, fetched: Seq::empty() };
    let w1 = walk_node(tree, crate::resolver::root_url(version, "dynamic"@), init, all_info);
    assert(sentinel_free(init.map));
    lemma_node_sentinel_free(tree, crate::resolver::root_url(version, "dynamic"@), init, all_info);
    lemma_node_sentinel_free(
        tree,
        crate::resolver::root_url(version, "meta-data"@),
        w1,
        all_info,
    );
}


// ---------------------------------------------------------------------------
// What the walk resolves, characterized over the discovered leaves.
// ---------------------------------------------------------------------------

use crate::resolver::{insert_first_spec, pk_flag, url_measure};
use crate::text::{flag_seq, remove_first as args_remove_first};

/// The leaves a walk from `url` discovers, in traversal order, each with the
/// body its own URL answers.
pub open spec fn leaves_node(tree: Seq<(Seq<char>, Seq<char>)>, url: Seq<char>) -> Seq<
    (Seq<char>, Seq<char>),
>
    decreases url_measure(tree, url), 1nat, 0int,
{
    leaves_lines(tree, url, children(body_of(tree, url)), 0)
}

pub open spec fn leaves_lines(
    tree: Seq<(Seq<char>, Seq<char>)>,
    url: Seq<char>,
    lines: Seq<Seq<char>>,
    i: int,
) -> Seq<(Seq<char>, Seq<char>)>
    decreases url_measure(tree, url), 0nat, lines.len() - i,
{
    if i < 0 || i >= lines.len() {
        Seq::empty()
    } else {
        let name = lines[i];
        let here = if name.len() > 0 && name.last() == '/' {
            if url.len() <= key_len_bound(tree) {
                leaves_node(tree, spec_join(url, name))
            } else {
                Seq::empty()
            }
        } else {
            seq![(name, body_of(tree, spec_join(url, name)))]
        };
        here + leaves_lines(tree, url, lines, i + 1)
    }
}

/// Recording one resolved leaf: a sentinel body is dropped, and the first
/// value found for a name wins.
pub open spec fn add_entry(
    m: Map<Seq<char>, Seq<char>>,
    name: Seq<char>,
    value: Seq<char>,
) -> Map<Seq<char>, Seq<char>> {
    if !contains_seq(value, not_found_text()) {
        insert_first_spec(m, name, value)
    } else {
        m
    }
}

/// Walking a list of discovered leaves: in exhaustive mode every leaf is
/// recorded; in selective mode a leaf is recorded exactly when its flag form
/// is still requested, which also satisfies that request, and the pass stops
/// once nothing is requested any more.
pub open spec fn consume(
    m: Map<Seq<char>, Seq<char>>,
    args: Seq<Seq<char>>,
    l: Seq<(Seq<char>, Seq<char>)>,
    all_info: bool,
) -> (Map<Seq<char>, Seq<char>>, Seq<Seq<char>>)
    decreases l.len(),
{
    if l.len() == 0 || (args.len() == 0 && !all_info) {
        (m, args)
    } else {
        let name = l[0].0;
        let value = l[0].1;
        if all_info || args.contains(flag_seq(name)) {
            let m1 = add_entry(m, name, value);
            let a1 = if !all_info {
                args_remove_first(args, flag_seq(name))
            } else {
                args
            };
            consume(m1, a1, l.drop_first(), all_info)
        } else {
            consume(m, args, l.drop_first(), all_info)
        }
    }
}

proof fn lemma_remove_first_keeps_absent(s: Seq<Seq<char>>, a: Seq<char>, x: Seq<char>)
    requires
        !s.contains(x),
    ensures
        !args_remove_first(s, a).contains(x),
    decreases s.len(),
{
    if s.len() > 0 && s[0] != a {
        assert forall|j: int| 0 <= j < s.drop_first().len() implies s.drop_first()[j] != x by {
            assert(s.drop_first()[j] == s[j + 1]);
        }
        lemma_remove_first_keeps_absent(s.drop_first(), a, x);
        let r = args_remove_first(s, a);
        assert forall|j: int| 0 <= j < r.len() implies r[j] != x by {
            if j == 0 {
                assert(r[0] == s[0]);
            } else {
                assert(r[j] == args_remove_first(s.drop_first(), a)[j - 1]);
            }
        }
        if r.contains(x) {
            let j = choose|j: int| 0 <= j < r.len() && r[j] == x;
            assert(false);
        }
    } else if s.len() > 0 {
        assert forall|j: int| 0 <= j < s.drop_first().len() implies s.drop_first()[j] != x by {
            assert(s.drop_first()[j] == s[j + 1]);
        }
        if s.drop_first().contains(x) {
            let j = choose|j: int| 0 <= j < s.drop_first().len() && s.drop_first()[j] == x;
            assert(false);
        }
    }
}

proof fn lemma_consume_keeps_absent(
    m: Map<Seq<char>, Seq<char>>,
    args: Seq<Seq<char>>,
    l: Seq<(Seq<char>, Seq<char>)>,
    all_info: bool,
    x: Seq<char>,
)
    requires
        !args.contains(x),
    ensures
        !consume(m, args, l, all_info).1.contains(x),
    decreases l.len(),
{
    if !(l.len() == 0 || (args.len() == 0 && !all_info)) {
        let name = l[0].0;
        if all_info || args.contains(flag_seq(name)) {
            let a1 = if !all_info {
                args_remove_first(args, flag_seq(name))
            } else {
                args
            };
            if !all_info {
                lemma_remove_first_keeps_absent(args, flag_seq(name), x);
            }
            lemma_consume_keeps_absent(add_entry(m, name, l[0].1), a1, l.drop_first(), all_info, x);
        } else {
            lemma_consume_keeps_absent(m, args, l.drop_first(), all_info, x);
        }
    }
}

/// Consuming a concatenation is consuming the parts in turn.
proof fn lemma_consume_concat(
    m: Map<Seq<char>, Seq<char>>,
    args: Seq<Seq<char>>,
    l1: Seq<(Seq<char>, Seq<char>)>,
    l2: Seq<(Seq<char>, Seq<char>)>,
    all_info: bool,
)
    ensures
        consume(m, args, l1 + l2, all_info) == consume(
            consume(m, args, l1, all_info).0,
            consume(m, args, l1, all_info).1,
            l2,
            all_info,
        ),
    decreases l1.len(),
{
    if l1.len() == 0 {
        assert(l1 + l2 =~= l2);
        if args.len() == 0 && !all_info {
            assert(consume(m, args, l2, all_info) == (m, args));
        }
    } else if args.len() == 0 && !all_info {
        assert(consume(m, args, l1 + l2, all_info) == (m, args));
        assert(consume(m, args, l1, all_info) == (m, args));
        assert(consume(m, args, l2, all_info) == (m, args));
    } else {
        let name = l1[0].0;
        let value = l1[0].1;
        assert((l1 + l2)[0] == l1[0]);
        assert((l1 + l2).drop_first() =~= l1.drop_first() + l2);
        if all_info || args.contains(flag_seq(name)) {
            let m1 = add_entry(m, name, value);
            let a1 = if !all_info {
                args_remove_first(args, flag_seq(name))
            } else {
                args
            };
            lemma_consume_concat(m1, a1, l1.drop_first(), l2, all_info);
        } else {
            lemma_consume_concat(m, args, l1.drop_first(), l2, all_info);
        }
    }
}

/// The master characterization: outside the public-keys special case, a walk
/// from a node resolves exactly what consuming its discovered leaves records,
/// and satisfies exactly the requests that consumption satisfies.
pub proof fn lemma_node_consume(
    tree: Seq<(Seq<char>, Seq<char>)>,
    url: Seq<char>,
    st: WalkState,
    all_info: bool,
)
    requires
        !st.args.contains(pk_flag()),
    ensures
        walk_node(tree, url, st, all_info).map == consume(
            st.map,
            st.args,
            leaves_node(tree, url),
            all_info,
        ).0,
        walk_node(tree, url, st, all_info).args == consume(
            st.map,
            st.args,
            leaves_node(tree, url),
            all_info,
        ).1,
    decreases url_measure(tree, url), 1nat, 0int,
{
    if st.args.len() == 0 && !all_info {
        assert(consume(st.map, st.args, leaves_node(tree, url), all_info) == (st.map, st.args));
    } else {
        let st1 = WalkState { map: st.map, args: st.args, fetched: st.fetched.push(url) };
        lemma_lines_consume(tree, url, children(body_of(tree, url)), 0, st1, all_info);
    }
}

pub proof fn lemma_lines_consume(
    tree: Seq<(Seq<char>, Seq<char>)>,
    url: Seq<char>,
    lines: Seq<Seq<char>>,
    i: int,
    st: WalkState,
    all_info: bool,
)
    requires
        !st.args.contains(pk_flag()),
    ensures
        walk_lines(tree, url, lines, i, st, all_info).map == consume(
            st.map,
            st.args,
            leaves_lines(tree, url, lines, i),
            all_info,
        ).0,
        walk_lines(tree, url, lines, i, st, all_info).args == consume(
            st.map,
            st.args,
            leaves_lines(tree, url, lines, i),
            all_info,
        ).1,
    decreases url_measure(tree, url), 0nat, lines.len() - i,
{
    if i < 0 || i >= lines.len() {
        assert(consume(st.map, st.args, Seq::empty(), all_info) == (st.map, st.args));
    } else {
        let name = lines[i];
        let here = if name.len() > 0 && name.last() == '/' {
            if url.len() <= key_len_bound(tree) {
                leaves_node(tree, spec_join(url, name))
            } else {
                Seq::<(Seq<char>, Seq<char>)>::empty()
            }
        } else {
            seq![(name, body_of(tree, spec_join(url, name)))]
        };
        let rest = leaves_lines(tree, url, lines, i + 1);
        assert(leaves_lines(tree, url, lines, i) == here + rest);
        let st1 = if name.len() > 0 && name.last() == '/' {
            if url.len() <= key_len_bound(tree) {
                walk_node(tree, spec_join(url, name), st, all_info)
            } else {
                st
            }
        } else {
            leaf_step(tree, url, name, st, all_info)
        };
        let c1 = consume(st.map, st.args, here, all_info);
        // the child's effect matches consuming its own leaves
        if name.len() > 0 && name.last() == '/' {
            if url.len() <= key_len_bound(tree) {
                lemma_node_consume(tree, spec_join(url, name), st, all_info);
            } else {
                assert(c1 == (st.map, st.args));
            }
        } else {
            // the public-keys case cannot trigger: its flag is not requested
            assert(!st.args.contains(pk_flag()));
            if st.args.len() == 0 && !all_info {
                assert(st1 == st);
                assert(c1 == (st.map, st.args));
            } else {
                assert(here.drop_first() =~= Seq::<(Seq<char>, Seq<char>)>::empty());
                if all_info || st.args.contains(flag_seq(name)) {
                    assert(c1 == consume(
                        add_entry(st.map, name, body_of(tree, spec_join(url, name))),
                        if !all_info {
                            args_remove_first(st.args, flag_seq(name))
                        } else {
                            st.args
                        },
                        Seq::empty(),
                        all_info,
                    ));
                } else {
                    assert(c1 == consume(st.map, st.args, Seq::empty(), all_info));
                }
            }
        }
        assert(st1.map == c1.0 && st1.args == c1.1);
        lemma_consume_concat(st.map, st.args, here, rest, all_info);
        lemma_consume_keeps_absent(st.map, st.args, here, all_info, pk_flag());
        if st1.args.len() == 0 && !all_info {
            assert(consume(c1.0, c1.1, rest, all_info) == (c1.0, c1.1));
        } else {
            lemma_lines_consume(tree, url, lines, i + 1, st1, all_info);
            assert(consume(st1.map, st1.args, rest, all_info) == consume(c1.0, c1.1, rest, all_info));
        }
    }
}


// ---------------------------------------------------------------------------
// Exhaustive mode: the result's key set is the full set of discovered leaf
// names.
// ---------------------------------------------------------------------------

/// The names of a list of discovered leaves.
pub open spec fn name_set(l: Seq<(Seq<char>, Seq<char>)>) -> Set<Seq<char>> {
    l.map_values(|e: (Seq<char>, Seq<char>)| e.0).to_set()
}

proof fn lemma_consume_all_dom(
    m: Map<Seq<char>, Seq<char>>,
    args: Seq<Seq<char>>,
    l: Seq<(Seq<char>, Seq<char>)>,
)
    requires
        forall|j: int| 0 <= j < l.len() ==> !contains_seq(#[trigger] l[j].1, not_found_text()),
    ensures
        consume(m, args, l, true).0.dom() =~= m.dom() + name_set(l),
    decreases l.len(),
{
    let names = l.map_values(|e: (Seq<char>, Seq<char>)| e.0);
    if l.len() == 0 {
        assert(name_set(l) =~= Set::<Seq<char>>::empty());
    } else {
        let name = l[0].0;
        let m1 = add_entry(m, name, l[0].1);
        assert(!contains_seq(l[0].1, not_found_text()));
        assert(m1.dom() =~= m.dom() + set![name]);
        assert forall|j: int| 0 <= j < l.drop_first().len() implies !contains_seq(
            #[trigger] l.drop_first()[j].1,
            not_found_text(),
        ) by {
            assert(l.drop_first()[j] == l[j + 1]);
        }
        lemma_consume_all_dom(m1, args, l.drop_first());
        let rest_names = l.drop_first().map_values(|e: (Seq<char>, Seq<char>)| e.0);
        assert forall|x: Seq<char>| name_set(l).contains(x) implies (x == name
            || name_set(l.drop_first()).contains(x)) by {
            let j = choose|j: int| 0 <= j < names.len() && names[j] == x;
            if j > 0 {
                assert(rest_names[j - 1] == x);
            }
        }
        assert forall|x: Seq<char>| name_set(l.drop_first()).contains(x) implies name_set(
            l,
        ).contains(x) by {
            let j = choose|j: int| 0 <= j < rest_names.len() && rest_names[j] == x;
            assert(names[j + 1] == x);
        }
        assert(names[0] == name);
        assert(name_set(l).contains(name));
        assert(consume(m, args, l, true).0.dom() =~= m.dom() + name_set(l));
    }
}

/// In exhaustive mode, with no leaf body carrying the sentinel and the
/// public-keys indirection not requested, the walk resolves a value for every
/// discovered leaf name and for nothing else.
pub proof fn lemma_exhaustive_key_set(
    tree: Seq<(Seq<char>, Seq<char>)>,
    url: Seq<char>,
    args: Seq<Seq<char>>,
)
    requires
        !args.contains(pk_flag()),
        forall|j: int|
            0 <= j < leaves_node(tree, url).len() ==> !contains_seq(
                #[trigger] leaves_node(tree, url)[j].1,
                not_found_text(),
            ),
    ensures
        walk_node(
            tree,
            url,
            WalkState { map: Map::empty(), args: args, fetched: Seq::empty() },
            true,
        ).map.dom() =~= name_set(leaves_node(tree, url)),
{
    let st = WalkState { map: Map::empty(), args: args, fetched: Seq::empty() };
    lemma_node_consume(tree, url, st, true);
    lemma_consume_all_dom(Map::empty(), args, leaves_node(tree, url));
    assert(Map::<Seq<char>, Seq<char>>::empty().dom() =~= Set::<Seq<char>>::empty());
}

// ---------------------------------------------------------------------------
// Selective mode: exactly the requested leaves that exist are resolved, each
// with its own body.
// ---------------------------------------------------------------------------

/// No element occurs twice.
pub open spec fn distinct_seq(s: Seq<Seq<char>>) -> bool {
    forall|i: int, j: int| 0 <= i < j < s.len() ==> s[i] != s[j]
}

/// No leaf name occurs twice.
pub open spec fn distinct_names(l: Seq<(Seq<char>, Seq<char>)>) -> bool {
    forall|i: int, j: int| 0 <= i < j < l.len() ==> l[i].0 != l[j].0
}

proof fn lemma_flag_injective(a: Seq<char>, b: Seq<char>)
    requires
        flag_seq(a) == flag_seq(b),
    ensures
        a == b,
{
    assert(flag_seq(a).skip(2) =~= a);
    assert(flag_seq(b).skip(2) =~= b);
}

proof fn lemma_remove_first_distinct(s: Seq<Seq<char>>, a: Seq<char>)
    requires
        distinct_seq(s),
    ensures
        distinct_seq(args_remove_first(s, a)),
        forall|x: Seq<char>|
            #[trigger] args_remove_first(s, a).contains(x) <==> (s.contains(x) && x != a),
    decreases s.len(),
{
    let r = args_remove_first(s, a);
    if s.len() == 0 {
    } else if s[0] == a {
        assert(r == s.drop_first());
        assert forall|x: Seq<char>| r.contains(x) implies (s.contains(x) && x != a) by {
            let j = choose|j: int| 0 <= j < r.len() && r[j] == x;
            assert(s[j + 1] == x);
            assert(s[j + 1] != s[0]);
        }
        assert forall|x: Seq<char>| s.contains(x) && x != a implies r.contains(x) by {
            let j = choose|j: int| 0 <= j < s.len() && s[j] == x;
            assert(j > 0);
            assert(r[j - 1] == x);
        }
    } else {
        assert(distinct_seq(s.drop_first())) by {
            assert forall|i: int, j: int|
                0 <= i < j < s.drop_first().len() implies s.drop_first()[i]
                != s.drop_first()[j] by {
                assert(s.drop_first()[i] == s[i + 1]);
                assert(s.drop_first()[j] == s[j + 1]);
            }
        }
        lemma_remove_first_distinct(s.drop_first(), a);
        let rr = args_remove_first(s.drop_first(), a);
        assert(r == seq![s[0]] + rr);
        assert forall|i: int, j: int| 0 <= i < j < r.len() implies r[i] != r[j] by {
            if i == 0 {
                assert(r[0] == s[0]);
                assert(rr.contains(rr[j - 1]));
                assert(s.contains(rr[j - 1]) && rr[j - 1] != a);
                let k = choose|k: int| 0 <= k < s.len() && s[k] == rr[j - 1];
                if k == 0 {
                    assert(s.drop_first().contains(rr[j - 1])) by {
                        lemma_remove_first_contains_source(s.drop_first(), a, rr[j - 1]);
                    }
                    let k2 = choose|k2: int|
                        0 <= k2 < s.drop_first().len() && s.drop_first()[k2] == rr[j - 1];
                    assert(s[k2 + 1] == rr[j - 1]);
                    assert(s[k2 + 1] != s[0]);
                    assert(false);
                }
            } else {
                assert(r[i] == rr[i - 1]);
                assert(r[j] == rr[j - 1]);
            }
        }
        assert forall|x: Seq<char>| r.contains(x) implies (s.contains(x) && x != a) by {
            let j = choose|j: int| 0 <= j < r.len() && r[j] == x;
            if j == 0 {
                assert(s[0] == x);
                assert(s[0] != a);
            } else {
                assert(rr[j - 1] == x);
                assert(rr.contains(x));
                assert(s.drop_first().contains(x));
                let k = choose|k: int| 0 <= k < s.drop_first().len() && s.drop_first()[k] == x;
                assert(s[k + 1] == x);
            }
        }
        assert forall|x: Seq<char>| s.contains(x) && x != a implies r.contains(x) by {
            let j = choose|j: int| 0 <= j < s.len() && s[j] == x;
            if j == 0 {
                assert(r[0] == x);
            } else {
                assert(s.drop_first()[j - 1] == x);
                assert(s.drop_first().contains(x));
                assert(rr.contains(x));
                let k = choose|k: int| 0 <= k < rr.len() && rr[k] == x;
                assert(r[k + 1] == x);
            }
        }
    }
}

proof fn lemma_remove_first_contains_source(s: Seq<Seq<char>>, a: Seq<char>, x: Seq<char>)
    requires
        args_remove_first(s, a).contains(x),
    ensures
        s.contains(x),
    decreases s.len(),
{
    let r = args_remove_first(s, a);
    if s.len() > 0 {
        if s[0] == a {
            let j = choose|j: int| 0 <= j < r.len() && r[j] == x;
            assert(s[j + 1] == x);
        } else {
            let rr = args_remove_first(s.drop_first(), a);
            let j = choose|j: int| 0 <= j < r.len() && r[j] == x;
            if j == 0 {
                assert(s[0] == x);
            } else {
                assert(rr[j - 1] == x);
                assert(rr.contains(x));
                lemma_remove_first_contains_source(s.drop_first(), a, x);
                let k = choose|k: int| 0 <= k < s.drop_first().len() && s.drop_first()[k] == x;
                assert(s[k + 1] == x);
            }
        }
    }
}


/// Whether some discovered leaf carries the name `k`.
pub open spec fn has_name(l: Seq<(Seq<char>, Seq<char>)>, k: Seq<char>) -> bool {
    exists|j: int| 0 <= j < l.len() && #[trigger] l[j].0 == k
}

/// Whether some discovered leaf answers to the flag `a`.
pub open spec fn has_flag(l: Seq<(Seq<char>, Seq<char>)>, a: Seq<char>) -> bool {
    exists|j: int| 0 <= j < l.len() && flag_seq(#[trigger] l[j].0) == a
}

proof fn lemma_consume_selective(
    m: Map<Seq<char>, Seq<char>>,
    args: Seq<Seq<char>>,
    l: Seq<(Seq<char>, Seq<char>)>,
)
    requires
        distinct_seq(args),
        distinct_names(l),
        forall|j: int| 0 <= j < l.len() ==> !contains_seq(#[trigger] l[j].1, not_found_text()),
        forall|j: int| 0 <= j < l.len() ==> !m.contains_key(#[trigger] l[j].0),
    ensures
        forall|k: Seq<char>|
            #[trigger] consume(m, args, l, false).0.contains_key(k) <==> (m.contains_key(k) || (
            args.contains(flag_seq(k)) && has_name(l, k))),
        forall|j: int|
            0 <= j < l.len() && args.contains(flag_seq(#[trigger] l[j].0)) ==> consume(
                m,
                args,
                l,
                false,
            ).0[l[j].0] == l[j].1,
        forall|k: Seq<char>|
            #[trigger] m.contains_key(k) ==> consume(m, args, l, false).0[k] == m[k],
        distinct_seq(consume(m, args, l, false).1),
        forall|a: Seq<char>|
            #[trigger] consume(m, args, l, false).1.contains(a) <==> (args.contains(a) && !has_flag(
                l,
                a,
            )),
    decreases l.len(),
{
    let res = consume(m, args, l, false);
    if l.len() == 0 {
        assert forall|k: Seq<char>| !has_name(l, k) by {}
        assert forall|a: Seq<char>| !has_flag(l, a) by {}
    } else if args.len() == 0 {
        assert(res == (m, args));
        assert forall|k: Seq<char>| !args.contains(flag_seq(k)) by {}
    } else {
        let name = l[0].0;
        let value = l[0].1;
        let flag = flag_seq(name);
        let rest = l.drop_first();
        assert(distinct_names(rest)) by {
            assert forall|i: int, j: int| 0 <= i < j < rest.len() implies rest[i].0
                != rest[j].0 by {
                assert(rest[i] == l[i + 1]);
                assert(rest[j] == l[j + 1]);
            }
        }
        assert forall|j: int| 0 <= j < rest.len() implies !contains_seq(
            #[trigger] rest[j].1,
            not_found_text(),
        ) by {
            assert(rest[j] == l[j + 1]);
        }
        assert forall|j: int| 0 <= j < rest.len() implies rest[j].0 != name by {
            assert(rest[j] == l[j + 1]);
        }
        if args.contains(flag) {
            assert(!m.contains_key(name));
            let m1 = m.insert(name, value);
            assert(add_entry(m, name, value) == m1);
            let a1 = args_remove_first(args, flag);
            lemma_remove_first_distinct(args, flag);
            assert forall|j: int| 0 <= j < rest.len() implies !m1.contains_key(
                #[trigger] rest[j].0,
            ) by {
                assert(rest[j] == l[j + 1]);
                assert(!m.contains_key(l[j + 1].0));
            }
            lemma_consume_selective(m1, a1, rest);
            assert(res == consume(m1, a1, rest, false));
            // membership
            assert forall|k: Seq<char>| #[trigger] res.0.contains_key(k) implies (m.contains_key(k)
                || (args.contains(flag_seq(k)) && has_name(l, k))) by {
                if m1.contains_key(k) {
                    if k == name {
                        assert(l[0].0 == k);
                        assert(has_name(l, k));
                    }
                } else {
                    assert(a1.contains(flag_seq(k)) && has_name(rest, k));
                    let j = choose|j: int| 0 <= j < rest.len() && #[trigger] rest[j].0 == k;
                    assert(l[j + 1].0 == k);
                    assert(has_name(l, k));
                }
            }
            assert forall|k: Seq<char>| (m.contains_key(k) || (args.contains(flag_seq(k))
                && has_name(l, k))) implies #[trigger] res.0.contains_key(k) by {
                if m.contains_key(k) {
                    assert(m1.contains_key(k));
                } else {
                    let j = choose|j: int| 0 <= j < l.len() && #[trigger] l[j].0 == k;
                    if j == 0 {
                        assert(m1.contains_key(k));
                    } else {
                        assert(rest[j - 1].0 == k);
                        assert(has_name(rest, k));
                        assert(k != name);
                        lemma_flag_injective_contra(k, name);
                        assert(a1.contains(flag_seq(k)));
                    }
                }
            }
            // resolved values
            assert forall|j: int|
                0 <= j < l.len() && args.contains(flag_seq(#[trigger] l[j].0)) implies res.0[l[j].0]
                == l[j].1 by {
                if j == 0 {
                    assert(m1.contains_key(name));
                    assert(res.0[name] == m1[name]);
                } else {
                    assert(rest[j - 1] == l[j]);
                    assert(l[j].0 != name);
                    lemma_flag_injective_contra(l[j].0, name);
                    assert(a1.contains(flag_seq(rest[j - 1].0)));
                }
            }
            // untouched earlier entries
            assert forall|k: Seq<char>| #[trigger] m.contains_key(k) implies res.0[k] == m[k] by {
                assert(k != name);
                assert(m1.contains_key(k) && m1[k] == m[k]);
            }
            // satisfied requests
            assert forall|a: Seq<char>| #[trigger] res.1.contains(a) implies (args.contains(a)
                && !has_flag(l, a)) by {
                assert(a1.contains(a) && !has_flag(rest, a));
                assert(a != flag);
                if has_flag(l, a) {
                    let j = choose|j: int| 0 <= j < l.len() && flag_seq(#[trigger] l[j].0) == a;
                    assert(j > 0);
                    assert(rest[j - 1] == l[j]);
                    assert(has_flag(rest, a));
                }
            }
            assert forall|a: Seq<char>| (args.contains(a) && !has_flag(l, a)) implies
                #[trigger] res.1.contains(a) by {
                assert(flag_seq(l[0].0) == flag);
                assert(a != flag);
                assert(a1.contains(a));
                if has_flag(rest, a) {
                    let j = choose|j: int|
                        0 <= j < rest.len() && flag_seq(#[trigger] rest[j].0) == a;
                    assert(l[j + 1] == rest[j]);
                    assert(has_flag(l, a));
                }
            }
        } else {
            lemma_consume_selective(m, args, rest);
            assert(res == consume(m, args, rest, false));
            assert forall|k: Seq<char>| #[trigger] res.0.contains_key(k) implies (m.contains_key(k)
                || (args.contains(flag_seq(k)) && has_name(l, k))) by {
                if !m.contains_key(k) {
                    let j = choose|j: int| 0 <= j < rest.len() && #[trigger] rest[j].0 == k;
                    assert(l[j + 1].0 == k);
                }
            }
            assert forall|k: Seq<char>| (m.contains_key(k) || (args.contains(flag_seq(k))
                && has_name(l, k))) implies #[trigger] res.0.contains_key(k) by {
                if !m.contains_key(k) {
                    let j = choose|j: int| 0 <= j < l.len() && #[trigger] l[j].0 == k;
                    assert(j != 0);
                    assert(rest[j - 1].0 == k);
                    assert(has_name(rest, k));
                }
            }
            assert forall|j: int|
                0 <= j < l.len() && args.contains(flag_seq(#[trigger] l[j].0)) implies res.0[l[j].0]
                == l[j].1 by {
                assert(j != 0);
                assert(rest[j - 1] == l[j]);
            }
            assert forall|a: Seq<char>| #[trigger] res.1.contains(a) implies (args.contains(a)
                && !has_flag(l, a)) by {
                assert(!has_flag(rest, a));
                if has_flag(l, a) {
                    let j = choose|j: int| 0 <= j < l.len() && flag_seq(#[trigger] l[j].0) == a;
                    if j == 0 {
                        assert(args.contains(a));
                        assert(false);
                    } else {
                        assert(rest[j - 1] == l[j]);
                        assert(has_flag(rest, a));
                    }
                }
            }
            assert forall|a: Seq<char>| (args.contains(a) && !has_flag(l, a)) implies
                #[trigger] res.1.contains(a) by {
                if has_flag(rest, a) {
                    let j = choose|j: int|
                        0 <= j < rest.len() && flag_seq(#[trigger] rest[j].0) == a;
                    assert(l[j + 1] == rest[j]);
                }
            }
        }
    }
}

proof fn lemma_flag_injective_contra(a: Seq<char>, b: Seq<char>)
    requires
        a != b,
    ensures
        flag_seq(a) != flag_seq(b),
{
    if flag_seq(a) == flag_seq(b) {
        lemma_flag_injective(a, b);
    }
}

/// Selective resolution over the discovered leaves: with distinct requested
/// flags, distinct leaf names, no sentinel bodies, and the public-keys
/// indirection not requested, a selective walk resolves exactly the requested
/// options that name a discovered leaf — each to that leaf's own body — and
/// exactly the requests answering to no leaf are left unsatisfied.
pub proof fn lemma_selective_resolves_requested(
    tree: Seq<(Seq<char>, Seq<char>)>,
    url: Seq<char>,
    args: Seq<Seq<char>>,
)
    requires
        !args.contains(pk_flag()),
        distinct_seq(args),
        distinct_names(leaves_node(tree, url)),
        forall|j: int|
            0 <= j < leaves_node(tree, url).len() ==> !contains_seq(
                #[trigger] leaves_node(tree, url)[j].1,
                not_found_text(),
            ),
    ensures
        ({
            let w = walk_node(
                tree,
                url,
                WalkState { map: Map::empty(), args: args, fetched: Seq::empty() },
                false,
            );
            let l = leaves_node(tree, url);
            &&& forall|k: Seq<char>|
                #[trigger] w.map.contains_key(k) <==> (args.contains(flag_seq(k)) && has_name(l, k))
            &&& forall|j: int|
                0 <= j < l.len() && args.contains(flag_seq(#[trigger] l[j].0)) ==> w.map[l[j].0]
                    == l[j].1
            &&& forall|a: Seq<char>|
                #[trigger] w.args.contains(a) <==> (args.contains(a) && !has_flag(l, a))
        }),
{
    let st = WalkState { map: Map::empty(), args: args, fetched: Seq::empty() };
    lemma_node_consume(tree, url, st, false);
    lemma_consume_selective(Map::empty(), args, leaves_node(tree, url));
}


// ---------------------------------------------------------------------------
// What an exhaustive walk fetches: one request per visited node and one per
// discovered leaf, in traversal order.
// ---------------------------------------------------------------------------

pub open spec fn trace_node(tree: Seq<(Seq<char>, Seq<char>)>, url: Seq<char>) -> Seq<Seq<char>>
    decreases url_measure(tree, url), 1nat, 0int,
{
    seq![url] + trace_lines(tree, url, children(body_of(tree, url)), 0)
}

pub open spec fn trace_lines(
    tree: Seq<(Seq<char>, Seq<char>)>,
    url: Seq<char>,
    lines: Seq<Seq<char>>,
    i: int,
) -> Seq<Seq<char>>
    decreases url_measure(tree, url), 0nat, lines.len() - i,
{
    if i < 0 || i >= lines.len() {
        Seq::empty()
    } else {
        let name = lines[i];
        let here = if name.len() > 0 && name.last() == '/' {
            if url.len() <= key_len_bound(tree) {
                trace_node(tree, spec_join(url, name))
            } else {
                Seq::<Seq<char>>::empty()
            }
        } else {
            seq![spec_join(url, name)]
        };
        here + trace_lines(tree, url, lines, i + 1)
    }
}

/// An exhaustive walk (with the public-keys indirection not requested)
/// requests exactly the URLs of its trace, in order: the node itself, then
/// each child in listed order — a subdirectory by its own trace, a leaf by
/// one request for its own URL. Every reachable node and leaf is fetched
/// exactly as often as it stands in the trace: once per occurrence.
pub proof fn lemma_node_trace(tree: Seq<(Seq<char>, Seq<char>)>, url: Seq<char>, st: WalkState)
    requires
        !st.args.contains(pk_flag()),
    ensures
        walk_node(tree, url, st, true).fetched == st.fetched + trace_node(tree, url),
    decreases url_measure(tree, url), 1nat, 0int,
{
    let st1 = WalkState { map: st.map, args: st.args, fetched: st.fetched.push(url) };
    assert(st1.fetched =~= st.fetched + seq![url]);
    lemma_lines_trace(tree, url, children(body_of(tree, url)), 0, st1);
    assert((st.fetched + seq![url]) + trace_lines(tree, url, children(body_of(tree, url)), 0)
        =~= st.fetched + trace_node(tree, url));
}

pub proof fn lemma_lines_trace(
    tree: Seq<(Seq<char>, Seq<char>)>,
    url: Seq<char>,
    lines: Seq<Seq<char>>,
    i: int,
    st: WalkState,
)
    requires
        !st.args.contains(pk_flag()),
    ensures
        walk_lines(tree, url, lines, i, st, true).fetched == st.fetched + trace_lines(
            tree,
            url,
            lines,
            i,
        ),
    decreases url_measure(tree, url), 0nat, lines.len() - i,
{
    if i < 0 || i >= lines.len() {
        assert(st.fetched + Seq::<Seq<char>>::empty() =~= st.fetched);
    } else {
        let name = lines[i];
        let here = if name.len() > 0 && name.last() == '/' {
            if url.len() <= key_len_bound(tree) {
                trace_node(tree, spec_join(url, name))
            } else {
                Seq::<Seq<char>>::empty()
            }
        } else {
            seq![spec_join(url, name)]
        };
        let st1 = if name.len() > 0 && name.last() == '/' {
            if url.len() <= key_len_bound(tree) {
                walk_node(tree, spec_join(url, name), st, true)
            } else {
                st
            }
        } else {
            leaf_step(tree, url, name, st, true)
        };
        if name.len() > 0 && name.last() == '/' {
            if url.len() <= key_len_bound(tree) {
                lemma_node_trace(tree, spec_join(url, name), st);
                lemma_node_exhaustive_args(tree, spec_join(url, name), st);
            } else {
                assert(st1.fetched =~= st.fetched + here);
            }
        } else {
            assert(!st.args.contains(pk_flag()));
            assert(st1.fetched =~= st.fetched + here);
        }
        assert(st1.fetched == st.fetched + here);
        assert(st1.args == st.args);
        lemma_lines_trace(tree, url, lines, i + 1, st1);
        assert((st.fetched + here) + trace_lines(tree, url, lines, i + 1) =~= st.fetched + (here
            + trace_lines(tree, url, lines, i + 1)));
    }
}


/// The leaves one invocation discovers: those under the version's "dynamic"
/// root, then those under its "meta-data" root.
pub open spec fn leaves_roots(tree: Seq<(Seq<char>, Seq<char>)>, version: Seq<char>) -> Seq<
    (Seq<char>, Seq<char>),
> {
    leaves_node(tree, crate::resolver::root_url(version, "dynamic"@)) + leaves_node(
        tree,
        crate::resolver::root_url(version, "meta-data"@),
    )
}

/// The master characterization at the invocation level: outside the
/// public-keys special case, one resolution pass records exactly what
/// consuming the discovered leaves records, and satisfies exactly the
/// requests that consumption satisfies.
pub proof fn lemma_roots_consume(
    tree: Seq<(Seq<char>, Seq<char>)>,
    version: Seq<char>,
    args: Seq<Seq<char>>,
    all_info: bool,
)
    requires
        !args.contains(pk_flag()),
    ensures
        resolve_roots(tree, version, args, all_info).map == consume(
            Map::empty(),
            args,
            leaves_roots(tree, version),
            all_info,
        ).0,
        resolve_roots(tree, version, args, all_info).args == consume(
            Map::empty(),
            args,
            leaves_roots(tree, version),
            all_info,
        ).1,
{
    let init = WalkState { map: Map::empty(), args: args, fetched: Seq::empty() };
    let r1 = crate::resolver::root_url(version, "dynamic"@);
    let r2 = crate::resolver::root_url(version, "meta-data"@);
    let w1 = walk_node(tree, r1, init, all_info);
    lemma_node_consume(tree, r1, init, all_info);
    lemma_consume_keeps_absent(Map::empty(), args, leaves_node(tree, r1), all_info, pk_flag());
    lemma_node_consume(tree, r2, w1, all_info);
    lemma_consume_concat(
        Map::empty(),
        args,
        leaves_node(tree, r1),
        leaves_node(tree, r2),
        all_info,
    );
}

/// Selective resolution at the invocation level: with distinct requested
/// flags, distinct leaf names, no sentinel bodies, and the public-keys
/// indirection not requested, the pass resolves exactly the requested options
/// that name a discovered leaf, each to that leaf's own body, and leaves
/// unsatisfied exactly the requests answering to no leaf.
pub proof fn lemma_selective_resolution(
    tree: Seq<(Seq<char>, Seq<char>)>,
    version: Seq<char>,
    args: Seq<Seq<char>>,
)
    requires
        !args.contains(pk_flag()),
        distinct_seq(args),
        distinct_names(leaves_roots(tree, version)),
        forall|j: int|
            0 <= j < leaves_roots(tree, version).len() ==> !contains_seq(
                #[trigger] leaves_roots(tree, version)[j].1,
                not_found_text(),
            ),
    ensures
        ({
            let w = resolve_roots(tree, version, args, false);
            let l = leaves_roots(tree, version);
            &&& forall|k: Seq<char>|
                #[trigger] w.map.contains_key(k) <==> (args.contains(flag_seq(k)) && has_name(l, k))
            &&& forall|j: int|
                0 <= j < l.len() && args.contains(flag_seq(#[trigger] l[j].0)) ==> w.map[l[j].0]
                    == l[j].1
            &&& forall|a: Seq<char>|
                #[trigger] w.args.contains(a) <==> (args.contains(a) && !has_flag(l, a))
        }),
{
    lemma_roots_consume(tree, version, args, false);
    lemma_consume_selective(Map::empty(), args, leaves_roots(tree, version));
}

/// When every requested option answers to some discovered leaf, a selective
/// pass satisfies every request.
pub proof fn lemma_selective_fully_satisfied(
    tree: Seq<(Seq<char>, Seq<char>)>,
    version: Seq<char>,
    args: Seq<Seq<char>>,
)
    requires
        !args.contains(pk_flag()),
        distinct_seq(args),
        distinct_names(leaves_roots(tree, version)),
        forall|j: int|
            0 <= j < leaves_roots(tree, version).len() ==> !contains_seq(
                #[trigger] leaves_roots(tree, version)[j].1,
                not_found_text(),
            ),
        forall|j: int|
            0 <= j < args.len() ==> has_flag(leaves_roots(tree, version), #[trigger] args[j]),
    ensures
        resolve_roots(tree, version, args, false).args.len() == 0,
{
    lemma_selective_resolution(tree, version, args);
    let w = resolve_roots(tree, version, args, false);
    if w.args.len() > 0 {
        assert(w.args.contains(w.args[0]));
        assert(args.contains(w.args[0]) && !has_flag(leaves_roots(tree, version), w.args[0]));
        let j = choose|j: int| 0 <= j < args.len() && args[j] == w.args[0];
        assert(has_flag(leaves_roots(tree, version), args[j]));
        assert(false);
    }
}


/// The public-keys indirection: when `--public-keys` is requested and a
/// parameter leaf `index=key-name` stands under a URL containing
/// `public-keys`, a selective walk fetches `<parent>/<index>/openssh-key` and
/// records that body (unless it is the sentinel) under the fixed name
/// `public-keys` — never under the parameter text itself — and satisfies the
/// `--public-keys` request once.
pub proof fn lemma_public_key_indirection(
    tree: Seq<(Seq<char>, Seq<char>)>,
    url: Seq<char>,
    name: Seq<char>,
    st: WalkState,
)
    requires
        st.args.contains(pk_flag()),
        crate::text::spec_find(name, '=') < name.len(),
        contains_seq(url, crate::resolver::public_keys_text()),
        !st.map.contains_key(crate::resolver::public_keys_text()),
    ensures
        ({
            let key_url = spec_join(
                url,
                name.take(crate::text::spec_find(name, '=') as int),
            ) + crate::resolver::openssh_suffix();
            let key_body = body_of(tree, key_url);
            let w = leaf_step(tree, url, name, st, false);
            &&& w.args == args_remove_first(st.args, pk_flag())
            &&& w.fetched == st.fetched.push(key_url)
            &&& !contains_seq(key_body, not_found_text()) ==> w.map == st.map.insert(
                crate::resolver::public_keys_text(),
                key_body,
            )
            &&& contains_seq(key_body, not_found_text()) ==> w.map == st.map
            &&& !st.map.contains_key(name) && name != crate::resolver::public_keys_text()
                ==> !w.map.contains_key(name)
        }),
{
}

/// Exhaustive mode at the invocation level: with no leaf body carrying the
/// sentinel and the public-keys indirection not requested, one exhaustive
/// pass resolves a value for every leaf name discovered under both roots and
/// for nothing else.
pub proof fn lemma_exhaustive_key_set_roots(
    tree: Seq<(Seq<char>, Seq<char>)>,
    version: Seq<char>,
    args: Seq<Seq<char>>,
)
    requires
        !args.contains(pk_flag()),
        forall|j: int|
            0 <= j < leaves_roots(tree, version).len() ==> !contains_seq(
                #[trigger] leaves_roots(tree, version)[j].1,
                not_found_text(),
            ),
    ensures
        resolve_roots(tree, version, args, true).map.dom() =~= name_set(
            leaves_roots(tree, version),
        ),
{
    lemma_roots_consume(tree, version, args, true);
    lemma_consume_all_dom(Map::empty(), args, leaves_roots(tree, version));
    assert(Map::<Seq<char>, Seq<char>>::empty().dom() =~= Set::<Seq<char>>::empty());
}

} // verus!
