use vstd::prelude::*;
use crate::text::str_eq;

verus! {

/// A snapshot of the metadata service: what body each endpoint URL answers
/// with. An absent URL stands for a failed request, whose body the client
/// treats as empty.
pub struct MetadataTree {
    pub entries: Vec<(String, String)>,
}

impl View for MetadataTree {
    type V = Seq<(Seq<char>, Seq<char>)>;

    open spec fn view(&self) -> Seq<(Seq<char>, Seq<char>)> {
        self.entries@.map_values(|p: (String, String)| (p.0@, p.1@))
    }
}

/// The body of the first entry for `url`, if the tree holds one.
pub open spec fn lookup(tree: Seq<(Seq<char>, Seq<char>)>, url: Seq<char>) -> Option<Seq<char>>
    decreases tree.len(),
{
    if tree.len() == 0 {
        None
    } else if tree[0].0 == url {
        Some(tree[0].1)
    } else {
        lookup(tree.drop_first(), url)
    }
}

/// What a request for `url` yields: the recorded body, or an empty body when
/// the request fails because the tree has no such endpoint.
pub open spec fn body_of(tree: Seq<(Seq<char>, Seq<char>)>, url: Seq<char>) -> Seq<char> {
    match lookup(tree, url) {
        Some(b) => b,
        None => Seq::empty(),
    }
}

/// An upper bound on the length of every URL the tree answers.
pub open spec fn key_len_bound(tree: Seq<(Seq<char>, Seq<char>)>) -> nat
    decreases tree.len(),
{
    if tree.len() == 0 {
        0
    } else {
        let rest = key_len_bound(tree.drop_first());
        if tree[0].0.len() > rest {
            tree[0].0.len()
        } else {
            rest
        }
    }
}

pub proof fn lemma_lookup_len(tree: Seq<(Seq<char>, Seq<char>)>, url: Seq<char>)
    requires
        lookup(tree, url) is Some,
    ensures
        url.len() <= key_len_bound(tree),
    decreases tree.len(),
{
    if tree.len() > 0 && tree[0].0 != url {
        lemma_lookup_len(tree.drop_first(), url);
    }
}

impl MetadataTree {
    /// An empty snapshot: every request fails.
    pub fn new() -> (r: MetadataTree)
        ensures
            r@ == Seq::<(Seq<char>, Seq<char>)>::empty(),
    {
        let r = MetadataTree { entries: Vec::new() };
        proof {
            assert(r@ =~= Seq::<(Seq<char>, Seq<char>)>::empty());
        }
        r
    }

    /// Records that `url` answers with `body`.
    pub fn add(&mut self, url: String, body: String)
        ensures
            final(self)@ == old(self)@.push((url@, body@)),
    {
        let ghost pre = self@;
        self.entries.push((url, body));
        proof {
            assert(self@ =~= pre.push((self.entries@.last().0@, self.entries@.last().1@)));
        }
    }

    /// The body a request for `url` yields, with a failed request read as an
    /// empty body.
    pub fn fetch(&self, url: &str) -> (r: String)
        ensures
            r@ == body_of(self@, url@),
    {
        let mut i: usize = 0;
        while i < self.entries.len()
            invariant
                i <= self.entries.len(),
                forall|k: int| 0 <= k < i ==> self@[k].0 != url@,
            decreases self.entries.len() - i,
        {
            if str_eq(self.entries[i].0.as_str(), url) {
                proof {
                    lemma_lookup_prefix(self@, url@, i as int);
                }
                return self.entries[i].1.clone();
            }
            i = i + 1;
        }
        proof {
            lemma_lookup_absent(self@, url@);
        }
        String::new()
    }

    /// The longest URL the snapshot answers.
    pub fn key_bound(&self) -> (r: usize)
        ensures
            r == key_len_bound(self@),
    {
        let mut i: usize = 0;
        let mut best: usize = 0;
        proof {
            lemma_key_len_bound_take(self@, 0);
        }
        while i < self.entries.len()
            invariant
                i <= self.entries.len(),
                best == key_len_bound(self@.take(i as int)),
            decreases self.entries.len() - i,
        {
            let l = self.entries[i].0.as_str().unicode_len();
            if l > best {
                best = l;
            }
            proof {
                lemma_key_len_bound_skip(self@, i as int);
            }
            i = i + 1;
        }
        proof {
            assert(self@.take(self.entries.len() as int) =~= self@);
        }
        best
    }
}

proof fn lemma_lookup_prefix(tree: Seq<(Seq<char>, Seq<char>)>, url: Seq<char>, i: int)
    requires
        0 <= i < tree.len(),
        tree[i].0 == url,
        forall|k: int| 0 <= k < i ==> tree[k].0 != url,
    ensures
        lookup(tree, url) == Some(tree[i].1),
    decreases tree.len(),
{
    if i > 0 {
        assert forall|k: int| 0 <= k < i - 1 implies tree.drop_first()[k].0 != url by {
            assert(tree.drop_first()[k] == tree[k + 1]);
        }
        lemma_lookup_prefix(tree.drop_first(), url, i - 1);
    }
}

proof fn lemma_lookup_absent(tree: Seq<(Seq<char>, Seq<char>)>, url: Seq<char>)
    requires
        forall|k: int| 0 <= k < tree.len() ==> tree[k].0 != url,
    ensures
        lookup(tree, url) is None,
    decreases tree.len(),
{
    if tree.len() > 0 {
        assert forall|k: int| 0 <= k < tree.drop_first().len() implies tree.drop_first()[k].0
            != url by {
            assert(tree.drop_first()[k] == tree[k + 1]);
        }
        lemma_lookup_absent(tree.drop_first(), url);
    }
}

proof fn lemma_key_len_bound_take(tree: Seq<(Seq<char>, Seq<char>)>, i: int)
    requires
        i == 0,
    ensures
        key_len_bound(tree.take(i)) == 0,
{
    assert(tree.take(0) =~= Seq::<(Seq<char>, Seq<char>)>::empty());
}

proof fn lemma_key_len_bound_skip(tree: Seq<(Seq<char>, Seq<char>)>, i: int)
    requires
        0 <= i < tree.len(),
    ensures
        key_len_bound(tree.take(i + 1)) == if tree[i].0.len() > key_len_bound(tree.take(i)) {
            tree[i].0.len()
        } else {
            key_len_bound(tree.take(i))
        },
    decreases tree.len(),
{
    if i == 0 {
        assert(tree.take(1).drop_first() =~= tree.take(0));
        assert(tree.take(0) =~= Seq::<(Seq<char>, Seq<char>)>::empty());
        assert(tree.take(1)[0] == tree[0]);
    } else {
        let t = tree.drop_first();
        assert(tree.take(i + 1).drop_first() =~= t.take(i));
        assert(tree.take(i).drop_first() =~= t.take(i - 1));
        assert(t[i - 1] == tree[i]);
        lemma_key_len_bound_skip(t, i - 1);
        assert(tree.take(i + 1)[0] == tree[0]);
        assert(tree.take(i)[0] == tree[0]);
    }
}

} // verus!
