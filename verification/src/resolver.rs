use vstd::prelude::*;
use crate::text::{
    contains_seq, contains_str, find_char_from, flag_of, flag_seq, join_url, last_is,
    remove_first, spec_find, spec_join, spec_split, split_char, vec_contains, vec_remove_first,
    views,
};
use crate::tree::{body_of, key_len_bound, MetadataTree};
use crate::{metadata_url, spec_metadata_url};
use crate::results::ResultMap;

verus! {

/// The sentinel the service answers for a missing leaf.
pub open spec fn not_found_text() -> Seq<char> {
    "Not Found"@
}

/// The directory whose children are `index=key-name` parameters.
pub open spec fn public_keys_text() -> Seq<char> {
    "public-keys"@
}

/// The flag that requests the public key material.
pub open spec fn pk_flag() -> Seq<char> {
    flag_seq("public-keys"@)
}

/// The extra path segment that yields the key material for one index.
pub open spec fn openssh_suffix() -> Seq<char> {
    "/openssh-key"@
}

/// The child names a directory body lists: one per line, none when the body
/// is empty or is itself a "Not Found" answer.
pub open spec fn children(body: Seq<char>) -> Seq<Seq<char>> {
    if body.len() == 0 || contains_seq(body, not_found_text()) {
        Seq::empty()
    } else {
        spec_split(body, '\n')
    }
}

/// The traversal context: what has been resolved, what is still requested,
/// and which URLs have been fetched, in order.
pub ghost struct WalkState {
    pub map: Map<Seq<char>, Seq<char>>,
    pub args: Seq<Seq<char>>,
    pub fetched: Seq<Seq<char>>,
}

/// Two traversal outcomes that agree on everything but the fetch log.
pub open spec fn same_outcome(a: WalkState, b: WalkState) -> bool {
    a.map == b.map && a.args == b.args
}

/// First value discovered for a name wins.
pub open spec fn insert_first_spec(
    m: Map<Seq<char>, Seq<char>>,
    k: Seq<char>,
    v: Seq<char>,
) -> Map<Seq<char>, Seq<char>> {
    if m.contains_key(k) {
        m
    } else {
        m.insert(k, v)
    }
}

/// The walk only descends while the current URL is short enough to be
/// answered by the tree; past every key it would see empty bodies anyway.
pub open spec fn url_measure(tree: Seq<(Seq<char>, Seq<char>)>, url: Seq<char>) -> nat {
    if url.len() <= key_len_bound(tree) {
        (key_len_bound(tree) - url.len() + 1) as nat
    } else {
        0
    }
}

/// What visiting one leaf child named `name` under `url` does to the
/// traversal context.
pub open spec fn leaf_step(
    tree: Seq<(Seq<char>, Seq<char>)>,
    url: Seq<char>,
    name: Seq<char>,
    st: WalkState,
    all_info: bool,
) -> WalkState {
    if st.args.contains(pk_flag()) && spec_find(name, '=') < name.len() && contains_seq(
        url,
        public_keys_text(),
    ) {
        // A `index=key-name` parameter leaf: the key material sits one
        // indirection further, and is stored under the fixed option name.
        let key_url = spec_join(url, name.take(spec_find(name, '=') as int)) + openssh_suffix();
        let value = body_of(tree, key_url);
        WalkState {
            map: if !contains_seq(value, not_found_text()) {
                insert_first_spec(st.map, public_keys_text(), value)
            } else {
                st.map
            },
            args: if !all_info {
                remove_first(st.args, pk_flag())
            } else {
                st.args
            },
            fetched: st.fetched.push(key_url),
        }
    } else if all_info || st.args.contains(flag_seq(name)) {
        let leaf_url = spec_join(url, name);
        let value = body_of(tree, leaf_url);
        WalkState {
            map: if !contains_seq(value, not_found_text()) {
                insert_first_spec(st.map, name, value)
            } else {
                st.map
            },
            args: if !all_info {
                remove_first(st.args, flag_seq(name))
            } else {
                st.args
            },
            fetched: st.fetched.push(leaf_url),
        }
    } else {
        st
    }
}

/// The walk from one node: nothing happens once every requested option is
/// satisfied (unless everything was asked for); otherwise the node's body is
/// fetched and its children are visited in the order the service listed them.
pub open spec fn walk_node(
    tree: Seq<(Seq<char>, Seq<char>)>,
    url: Seq<char>,
    st: WalkState,
    all_info: bool,
) -> WalkState
    decreases url_measure(tree, url), 1nat, 0int,
{
    if st.args.len() == 0 && !all_info {
        st
    } else {
        let st1 = WalkState { map: st.map, args: st.args, fetched: st.fetched.push(url) };
        walk_lines(tree, url, children(body_of(tree, url)), 0, st1, all_info)
    }
}

/// Visits the children of `url` from index `i` on, stopping as soon as the
/// requested options are all satisfied.
pub open spec fn walk_lines(
    tree: Seq<(Seq<char>, Seq<char>)>,
    url: Seq<char>,
    lines: Seq<Seq<char>>,
    i: int,
    st: WalkState,
    all_info: bool,
) -> WalkState
    decreases url_measure(tree, url), 0nat, lines.len() - i,
{
    if i < 0 || i >= lines.len() {
        st
    } else {
        let name = lines[i];
        let st1 = if name.len() > 0 && name.last() == '/' {
            if url.len() <= key_len_bound(tree) {
                walk_node(tree, spec_join(url, name), st, all_info)
            } else {
                st
            }
        } else {
            leaf_step(tree, url, name, st, all_info)
        };
        if st1.args.len() == 0 && !all_info {
            st1
        } else {
            walk_lines(tree, url, lines, i + 1, st1, all_info)
        }
    }
}

/// What the walk resolves and which options it satisfies do not depend on the
/// fetch log it started with; the log itself only grows at the end.
pub proof fn lemma_node_fetch_shift(
    tree: Seq<(Seq<char>, Seq<char>)>,
    url: Seq<char>,
    st: WalkState,
    f: Seq<Seq<char>>,
    all_info: bool,
)
    ensures
        same_outcome(
            walk_node(tree, url, WalkState { map: st.map, args: st.args, fetched: f }, all_info),
            walk_node(tree, url, st, all_info),
        ),
    decreases url_measure(tree, url), 1nat, 0int,
{
    if !(st.args.len() == 0 && !all_info) {
        let st1 = WalkState { map: st.map, args: st.args, fetched: st.fetched.push(url) };
        lemma_lines_fetch_shift(
            tree,
            url,
            children(body_of(tree, url)),
            0,
            st1,
            f.push(url),
            all_info,
        );
    }
}

pub proof fn lemma_lines_fetch_shift(
    tree: Seq<(Seq<char>, Seq<char>)>,
    url: Seq<char>,
    lines: Seq<Seq<char>>,
    i: int,
    st: WalkState,
    f: Seq<Seq<char>>,
    all_info: bool,
)
    ensures
        same_outcome(
            walk_lines(
                tree,
                url,
                lines,
                i,
                WalkState { map: st.map, args: st.args, fetched: f },
                all_info,
            ),
            walk_lines(tree, url, lines, i, st, all_info),
        ),
    decreases url_measure(tree, url), 0nat, lines.len() - i,
{
    if !(i < 0 || i >= lines.len()) {
        let name = lines[i];
        let st_f = WalkState { map: st.map, args: st.args, fetched: f };
        if name.len() > 0 && name.last() == '/' {
            if url.len() <= key_len_bound(tree) {
                lemma_node_fetch_shift(tree, spec_join(url, name), st, f, all_info);
            }
        }
        let st1 = if name.len() > 0 && name.last() == '/' {
            if url.len() <= key_len_bound(tree) {
                walk_node(tree, spec_join(url, name), st, all_info)
            } else {
                st
            }
        } else {
            leaf_step(tree, url, name, st, all_info)
        };
        let st1_f = if name.len() > 0 && name.last() == '/' {
            if url.len() <= key_len_bound(tree) {
                walk_node(tree, spec_join(url, name), st_f, all_info)
            } else {
                st_f
            }
        } else {
            leaf_step(tree, url, name, st_f, all_info)
        };
        assert(same_outcome(st1_f, st1));
        if !(st1.args.len() == 0 && !all_info) {
            lemma_lines_fetch_shift(tree, url, lines, i + 1, st1, st1_f.fetched, all_info);
            assert(st1_f == WalkState { map: st1.map, args: st1.args, fetched: st1_f.fetched });
        }
    }
}

/// The resolution pass from one node's URL: an exhaustive pass resolves
/// every leaf below it; a selective pass resolves the requested options it
/// meets, satisfying each request as its leaf is found, and stops as soon as
/// none is left.
pub fn fetch_options(
    tree: &MetadataTree,
    url: &str,
    map: &mut ResultMap,
    args: &mut Vec<String>,
    all_info: bool,
)
    requires
        old(map).wf(),
    ensures
        final(map).wf(),
        same_outcome(
            WalkState {
                map: final(map)@,
                args: views(final(args)@),
                fetched: Seq::empty(),
            },
            walk_node(
                tree@,
                url@,
                WalkState {
                    map: old(map)@,
                    args: views(old(args)@),
                    fetched: Seq::empty(),
                },
                all_info,
            ),
        ),
    decreases url_measure(tree@, url@), 1nat, 0int,
{
    let ghost st0 = WalkState { map: map@, args: views(args@), fetched: Seq::empty() };
    if args.len() == 0 && !all_info {
        proof {
            assert(views(args@).len() == 0);
        }
        return;
    }
    proof {
        assert(!(st0.args.len() == 0 && !all_info));
    }
    let body = tree.fetch(url);
    let lines: Vec<String> = if body.as_str().unicode_len() == 0 || contains_str(
        body.as_str(),
        "Not Found",
    ) {
        Vec::new()
    } else {
        split_char(body.as_str(), '\n')
    };
    proof {
        if body@.len() == 0 || contains_seq(body@, not_found_text()) {
            assert(views(lines@) =~= Seq::<Seq<char>>::empty());
        }
        assert(views(lines@) == children(body_of(tree@, url@)));
        let st1 = WalkState { map: st0.map, args: st0.args, fetched: st0.fetched.push(url@) };
        lemma_lines_fetch_shift(
            tree@,
            url@,
            views(lines@),
            0,
            st1,
            Seq::empty(),
            all_info,
        );
    }
    let n = lines.len();
    let mut i: usize = 0;
    while i < n
        invariant
            map.wf(),
            n == lines.len(),
            i <= n,
            st0 == (WalkState {
                map: old(map)@,
                args: views(old(args)@),
                fetched: Seq::<Seq<char>>::empty(),
            }),
            same_outcome(
                walk_lines(
                    tree@,
                    url@,
                    views(lines@),
                    i as int,
                    WalkState { map: map@, args: views(args@), fetched: Seq::empty() },
                    all_info,
                ),
                walk_node(tree@, url@, st0, all_info),
            ),
        decreases n - i,
    {
        let ghost cur = WalkState { map: map@, args: views(args@), fetched: Seq::empty() };
        let ghost name = views(lines@)[i as int];
        if last_is(lines[i].as_str(), '/') {
            let bound = tree.key_bound();
            if url.unicode_len() <= bound {
                let child_url = join_url(url, lines[i].as_str());
                proof {
                    assert(name.len() > 0);
                    assert(child_url@.len() >= url@.len() + 1);
                    assert(url_measure(tree@, child_url@) < url_measure(tree@, url@));
                }
                fetch_options(tree, child_url.as_str(), map, args, all_info);
                proof {
                    lemma_node_fetch_shift(tree@, child_url@, cur, Seq::empty(), all_info);
                }
            }
        } else {
            let pk = flag_of("public-keys");
            let eq_pos = find_char_from(lines[i].as_str(), '=', 0);
            proof {
                assert(name.skip(0) =~= name);
            }
            if vec_contains(args, pk.as_str()) && eq_pos < lines[i].as_str().unicode_len()
                && contains_str(url, "public-keys") {
                let idx = lines[i].as_str().substring_char(0, eq_pos).to_owned();
                proof {
                    assert(idx@ =~= name.take(spec_find(name, '=') as int));
                }
                let mut key_url = join_url(url, idx.as_str());
                key_url.append("/openssh-key");
                let value = tree.fetch(key_url.as_str());
                if !contains_str(value.as_str(), "Not Found") {
                    map.insert_first(String::from_str("public-keys"), value);
                }
                if !all_info {
                    vec_remove_first(args, pk.as_str());
                }
            } else {
                let flag = flag_of(lines[i].as_str());
                if all_info || vec_contains(args, flag.as_str()) {
                    let leaf_url = join_url(url, lines[i].as_str());
                    let value = tree.fetch(leaf_url.as_str());
                    if !contains_str(value.as_str(), "Not Found") {
                        map.insert_first(lines[i].clone(), value);
                    }
                    if !all_info {
                        vec_remove_first(args, flag.as_str());
                    }
                }
            }
        }
        let ghost next = WalkState { map: map@, args: views(args@), fetched: Seq::empty() };
        let ghost st1 = if name.len() > 0 && name.last() == '/' {
            if url@.len() <= key_len_bound(tree@) {
                walk_node(tree@, spec_join(url@, name), cur, all_info)
            } else {
                cur
            }
        } else {
            leaf_step(tree@, url@, name, cur, all_info)
        };
        proof {
            assert(same_outcome(next, st1));
            if st1.args.len() == 0 && !all_info {
                assert(walk_lines(tree@, url@, views(lines@), i as int, cur, all_info) == st1);
            } else {
                lemma_lines_fetch_shift(
                    tree@,
                    url@,
                    views(lines@),
                    i + 1,
                    st1,
                    Seq::empty(),
                    all_info,
                );
                lemma_lines_fetch_shift(
                    tree@,
                    url@,
                    views(lines@),
                    i + 1,
                    WalkState { map: next.map, args: next.args, fetched: st1.fetched },
                    Seq::empty(),
                    all_info,
                );
            }
        }
        if args.len() == 0 && !all_info {
            proof {
                assert(views(args@).len() == 0);
                assert(st1.args.len() == 0);
                assert(walk_lines(tree@, url@, views(lines@), i as int, cur, all_info) == st1);
                assert(same_outcome(next, walk_node(tree@, url@, st0, all_info)));
            }
            return;
        }
        i = i + 1;
    }
}


/// The root of one subtree of one API version: the fixed base address, the
/// version segment, and the subtree name.
pub open spec fn root_url(version: Seq<char>, endpoint: Seq<char>) -> Seq<char> {
    spec_metadata_url() + version + "/"@ + endpoint
}

/// One invocation's resolution pass: the walk from the version's "dynamic"
/// root, continued from the version's "meta-data" root.
pub open spec fn resolve_roots(
    tree: Seq<(Seq<char>, Seq<char>)>,
    version: Seq<char>,
    args: Seq<Seq<char>>,
    all_info: bool,
) -> WalkState {
    let init = WalkState { map: Map::empty(), args: args, fetched: Seq::empty() };
    let w1 = walk_node(tree, root_url(version, "dynamic"@), init, all_info);
    walk_node(tree, root_url(version, "meta-data"@), w1, all_info)
}

fn build_root_url(version: &str, endpoint: &str) -> (r: String)
    ensures
        r@ == root_url(version@, endpoint@),
{
    let mut u = metadata_url().to_owned();
    u.append(version);
    u.append("/");
    u.append(endpoint);
    u
}

/// Resolves the caller's requested options (all of them, when `all_info`)
/// against both subtrees the service exposes for `version`, satisfying
/// entries of `args` as they are met.
pub fn get_args_from_framework(
    tree: &MetadataTree,
    version: &str,
    args: &mut Vec<String>,
    all_info: bool,
) -> (r: ResultMap)
    ensures
        r.wf(),
        ({
            let w = resolve_roots(tree@, version@, views(old(args)@), all_info);
            r@ == w.map && views(final(args)@) == w.args
        }),
{
    let mut map = ResultMap::new();
    let u1 = build_root_url(version, "dynamic");
    let ghost pre = WalkState { map: map@, args: views(args@), fetched: Seq::empty() };
    fetch_options(tree, u1.as_str(), &mut map, args, all_info);
    let ghost w1 = walk_node(tree@, root_url(version@, "dynamic"@), pre, all_info);
    let u2 = build_root_url(version, "meta-data");
    let ghost mid = WalkState { map: map@, args: views(args@), fetched: Seq::empty() };
    fetch_options(tree, u2.as_str(), &mut map, args, all_info);
    proof {
        assert(same_outcome(mid, w1));
        lemma_node_fetch_shift(tree@, root_url(version@, "meta-data"@), w1, Seq::empty(), all_info);
        assert(w1 == WalkState { map: mid.map, args: mid.args, fetched: w1.fetched });
    }
    map
}

/// The listing of the API versions the service offers: the body of the base
/// address itself, one version per line.
pub fn get_api_versions(tree: &MetadataTree) -> (r: String)
    ensures
        r@ == body_of(tree@, spec_metadata_url()),
{
    tree.fetch(metadata_url())
}

} // verus!
