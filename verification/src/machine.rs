use vstd::prelude::*;
use crate::resolver::{children, insert_first_spec, not_found_text, pk_flag, public_keys_text};
use crate::results::ResultMap;
use crate::text::{
    contains_seq, contains_str, find_char_from, flag_of, flag_seq, join_url, last_is,
    remove_first, spec_find, spec_join, split_char, vec_contains, vec_remove_first, views,
};

verus! {

/// Work the traversal still owes: a node whose listing must be fetched, or a
/// child name read from a listing, not yet decided on.
pub enum Task {
    Node { url: String },
    Child { parent: String, name: String },
}

pub ghost enum GTask {
    Node { url: Seq<char> },
    Child { parent: Seq<char>, name: Seq<char> },
}

impl View for Task {
    type V = GTask;

    open spec fn view(&self) -> GTask {
        match self {
            Task::Node { url } => GTask::Node { url: url@ },
            Task::Child { parent, name } => GTask::Child { parent: parent@, name: name@ },
        }
    }
}

/// The request whose answer the machine is waiting for, and what the answer
/// will be read as.
pub enum PendingFetch {
    Listing { url: String },
    Leaf { url: String, name: String },
    Key { url: String },
}

pub ghost enum GPending {
    Listing { url: Seq<char> },
    Leaf { url: Seq<char>, name: Seq<char> },
    Key { url: Seq<char> },
}

impl View for PendingFetch {
    type V = GPending;

    open spec fn view(&self) -> GPending {
        match self {
            PendingFetch::Listing { url } => GPending::Listing { url: url@ },
            PendingFetch::Leaf { url, name } => GPending::Leaf { url: url@, name: name@ },
            PendingFetch::Key { url } => GPending::Key { url: url@ },
        }
    }
}

/// What the machine asks of its driver next.
pub enum Action {
    Fetch(String),
    Continue,
    Done,
}

pub ghost enum GAction {
    Fetch { url: Seq<char> },
    Continue,
    Done,
}

impl View for Action {
    type V = GAction;

    open spec fn view(&self) -> GAction {
        match self {
            Action::Fetch(url) => GAction::Fetch { url: url@ },
            Action::Continue => GAction::Continue,
            Action::Done => GAction::Done,
        }
    }
}

pub ghost struct MState {
    pub stack: Seq<GTask>,
    pub pending: Option<GPending>,
    pub map: Map<Seq<char>, Seq<char>>,
    pub args: Seq<Seq<char>>,
    pub all_info: bool,
}

/// One decision of the traversal, between fetches: what to do about the top
/// of the work stack. The walk is over once every requested option is
/// satisfied in selective mode, or once no work is left.
pub open spec fn spec_step(s: MState) -> (MState, GAction) {
    if s.args.len() == 0 && !s.all_info {
        (s, GAction::Done)
    } else if s.stack.len() == 0 {
        (s, GAction::Done)
    } else {
        let rest = s.stack.drop_last();
        match s.stack.last() {
            GTask::Node { url } => (
                MState {
                    stack: rest,
                    pending: Some(GPending::Listing { url: url }),
                    ..s
                },
                GAction::Fetch { url: url },
            ),
            GTask::Child { parent, name } => {
                if name.len() > 0 && name.last() == '/' {
                    let url = spec_join(parent, name);
                    (
                        MState { stack: rest, pending: Some(GPending::Listing { url }), ..s },
                        GAction::Fetch { url },
                    )
                } else if s.args.contains(pk_flag()) && spec_find(name, '=') < name.len()
                    && contains_seq(parent, public_keys_text()) {
                    let url = spec_join(parent, name.take(spec_find(name, '=') as int))
                        + crate::resolver::openssh_suffix();
                    (
                        MState { stack: rest, pending: Some(GPending::Key { url }), ..s },
                        GAction::Fetch { url },
                    )
                } else if s.all_info || s.args.contains(flag_seq(name)) {
                    let url = spec_join(parent, name);
                    (
                        MState { stack: rest, pending: Some(GPending::Leaf { url, name }), ..s },
                        GAction::Fetch { url },
                    )
                } else {
                    (MState { stack: rest, ..s }, GAction::Continue)
                }
            },
        }
    }
}

/// The child tasks one listing body adds, ordered so that the first line is
/// worked on first.
pub open spec fn listing_tasks(url: Seq<char>, body: Seq<char>) -> Seq<GTask> {
    children(body).reverse().map_values(|name: Seq<char>| GTask::Child { parent: url, name })
}

/// What one answered request does to the traversal.
pub open spec fn spec_supply(s: MState, p: GPending, body: Seq<char>) -> MState {
    match p {
        GPending::Listing { url } => MState {
            stack: s.stack + listing_tasks(url, body),
            pending: None,
            ..s
        },
        GPending::Leaf { url, name } => MState {
            stack: s.stack,
            pending: None,
            map: if !contains_seq(body, not_found_text()) {
                insert_first_spec(s.map, name, body)
            } else {
                s.map
            },
            args: if !s.all_info {
                remove_first(s.args, flag_seq(name))
            } else {
                s.args
            },
            all_info: s.all_info,
        },
        GPending::Key { url } => MState {
            stack: s.stack,
            pending: None,
            map: if !contains_seq(body, not_found_text()) {
                insert_first_spec(s.map, public_keys_text(), body)
            } else {
                s.map
            },
            args: if !s.all_info {
                remove_first(s.args, pk_flag())
            } else {
                s.args
            },
            all_info: s.all_info,
        },
    }
}

/// The traversal as a machine its driver feeds: `step` hands out the next
/// request (or says the walk is over), `supply` hands the machine the body
/// that request was answered with. The driver performs the requests; every
/// decision is made here.
pub struct Machine {
    pub stack: Vec<Task>,
    pub pending: Option<PendingFetch>,
    pub map: ResultMap,
    pub args: Vec<String>,
    pub all_info: bool,
}

impl View for Machine {
    type V = MState;

    open spec fn view(&self) -> MState {
        MState {
            stack: self.stack@.map_values(|t: Task| t@),
            pending: match self.pending {
                Some(p) => Some(p@),
                None => None,
            },
            map: self.map@,
            args: views(self.args@),
            all_info: self.all_info,
        }
    }
}

impl Machine {
    pub open spec fn wf(&self) -> bool {
        self.map.wf()
    }

    /// A walk of the subtrees under `roots`, after the options in `args`
    /// (after all options, when `all_info`).
    pub fn new(roots: Vec<String>, args: Vec<String>, all_info: bool) -> (r: Machine)
        ensures
            r.wf(),
            r@.stack == views(roots@).reverse().map_values(
                |url: Seq<char>| GTask::Node { url },
            ),
            r@.pending is None,
            r@.map == Map::<Seq<char>, Seq<char>>::empty(),
            r@.args == views(args@),
            r@.all_info == all_info,
    {
        let mut stack: Vec<Task> = Vec::new();
        let mut i: usize = roots.len();
        while i > 0
            invariant
                i <= roots.len(),
                stack@.map_values(|t: Task| t@) == views(roots@).skip(i as int).reverse()
                    .map_values(|url: Seq<char>| GTask::Node { url }),
            decreases i,
        {
            i = i - 1;
            let ghost pre = stack@.map_values(|t: Task| t@);
            stack.push(Task::Node { url: roots[i].clone() });
            proof {
                assert(stack@.map_values(|t: Task| t@) =~= pre.push(
                    GTask::Node { url: views(roots@)[i as int] },
                ));
                assert(stack@.map_values(|t: Task| t@) =~= views(roots@).skip(i as int).reverse()
                    .map_values(|url: Seq<char>| GTask::Node { url }));
            }
        }
        proof {
            assert(views(roots@).skip(0) =~= views(roots@));
        }
        let r = Machine { stack, pending: None, map: ResultMap::new(), args, all_info };
        proof {
            assert(r@.stack =~= views(roots@).reverse().map_values(
                |url: Seq<char>| GTask::Node { url },
            ));
        }
        r
    }

    /// The next request to perform, or `Continue` when a child needed no
    /// fetch, or `Done` when the walk is over.
    pub fn step(&mut self) -> (r: Action)
        requires
            old(self).wf(),
            old(self)@.pending is None,
        ensures
            final(self).wf(),
            (final(self)@, r@) == spec_step(old(self)@),
    {
        if self.args.len() == 0 && !self.all_info {
            proof {
                assert(views(self.args@).len() == 0);
            }
            return Action::Done;
        }
        if self.stack.len() == 0 {
            proof {
                assert(self@.stack.len() == 0);
            }
            return Action::Done;
        }
        let ghost pre = self@;
        let task = self.stack.pop().unwrap();
        proof {
            assert(pre.stack.last() == task@);
            assert(self@.stack =~= pre.stack.drop_last());
        }
        match task {
            Task::Node { url } => {
                let u = url.clone();
                self.pending = Some(PendingFetch::Listing { url });
                Action::Fetch(u)
            },
            Task::Child { parent, name } => {
                if last_is(name.as_str(), '/') {
                    let url = join_url(parent.as_str(), name.as_str());
                    let u = url.clone();
                    self.pending = Some(PendingFetch::Listing { url });
                    Action::Fetch(u)
                } else {
                    let pk = flag_of("public-keys");
                    let eq_pos = find_char_from(name.as_str(), '=', 0);
                    proof {
                        assert(name@.skip(0) =~= name@);
                    }
                    if vec_contains(&self.args, pk.as_str()) && eq_pos
                        < name.as_str().unicode_len() && contains_str(
                        parent.as_str(),
                        "public-keys",
                    ) {
                        let idx = name.as_str().substring_char(0, eq_pos).to_owned();
                        proof {
                            assert(idx@ =~= name@.take(spec_find(name@, '=') as int));
                        }
                        let mut url = join_url(parent.as_str(), idx.as_str());
                        url.append("/openssh-key");
                        let u = url.clone();
                        self.pending = Some(PendingFetch::Key { url });
                        Action::Fetch(u)
                    } else {
                        let flag = flag_of(name.as_str());
                        if self.all_info || vec_contains(&self.args, flag.as_str()) {
                            let url = join_url(parent.as_str(), name.as_str());
                            let u = url.clone();
                            self.pending = Some(PendingFetch::Leaf { url, name });
                            Action::Fetch(u)
                        } else {
                            Action::Continue
                        }
                    }
                }
            },
        }
    }

    /// Hands the machine the body its pending request was answered with. The
    /// driver reads a failed request as an empty body.
    pub fn supply(&mut self, body: &str)
        requires
            old(self).wf(),
            old(self)@.pending is Some,
        ensures
            final(self).wf(),
            final(self)@ == spec_supply(old(self)@, old(self)@.pending.unwrap(), body@),
    {
        let ghost pre = self@;
        let pending = self.pending.take().unwrap();
        proof {
            assert(pre.pending.unwrap() == pending@);
            assert(self@ == MState { pending: None, ..pre });
        }
        match pending {
            PendingFetch::Listing { url } => {
                let lines: Vec<String> = if body.unicode_len() == 0 || contains_str(
                    body,
                    "Not Found",
                ) {
                    Vec::new()
                } else {
                    split_char(body, '\n')
                };
                proof {
                    if body@.len() == 0 || contains_seq(body@, not_found_text()) {
                        assert(views(lines@) =~= Seq::<Seq<char>>::empty());
                    }
                    assert(views(lines@) == children(body@));
                }
                let n = lines.len();
                let mut k: usize = n;
                while k > 0
                    invariant
                        k <= n,
                        n == lines.len(),
                        self.map.wf(),
                        self@ == (MState {
                            stack: pre.stack + views(lines@).skip(k as int).reverse().map_values(
                                |name: Seq<char>| GTask::Child { parent: url@, name },
                            ),
                            pending: None,
                            ..pre
                        }),
                    decreases k,
                {
                    k = k - 1;
                    let ghost prestack = self@.stack;
                    self.stack.push(Task::Child { parent: url.clone(), name: lines[k].clone() });
                    proof {
                        assert(self@.stack =~= prestack.push(
                            GTask::Child { parent: url@, name: views(lines@)[k as int] },
                        ));
                        assert(self@.stack =~= pre.stack + views(lines@).skip(k as int).reverse()
                            .map_values(|name: Seq<char>| GTask::Child { parent: url@, name }));
                    }
                }
                proof {
                    assert(views(lines@).skip(0) =~= views(lines@));
                    assert(self@.stack =~= pre.stack + listing_tasks(url@, body@));
                    assert(self@ == spec_supply(pre, pre.pending.unwrap(), body@));
                }
            },
            PendingFetch::Leaf { url: _url, name } => {
                if !contains_str(body, "Not Found") {
                    self.map.insert_first(name.clone(), body.to_owned());
                }
                if !self.all_info {
                    let flag = flag_of(name.as_str());
                    vec_remove_first(&mut self.args, flag.as_str());
                }
                proof {
                    assert(self@ == spec_supply(pre, pre.pending.unwrap(), body@));
                }
            },
            PendingFetch::Key { url: _url } => {
                if !contains_str(body, "Not Found") {
                    self.map.insert_first(String::from_str("public-keys"), body.to_owned());
                }
                if !self.all_info {
                    let pk = flag_of("public-keys");
                    vec_remove_first(&mut self.args, pk.as_str());
                }
                proof {
                    assert(self@ == spec_supply(pre, pre.pending.unwrap(), body@));
                }
            },
        }
    }

    /// The resolved mapping and the requested options never satisfied.
    pub fn finish(self) -> (r: (ResultMap, Vec<String>))
        requires
            self.wf(),
        ensures
            r.0.wf(),
            r.0@ == self@.map,
            views(r.1@) == self@.args,
    {
        (self.map, self.args)
    }
}

} // verus!
