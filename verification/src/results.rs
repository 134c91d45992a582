use vstd::prelude::*;
use crate::text::{str_eq, views};

verus! {

/// The mapping the `names`/`values` pairs stand for.
pub open spec fn map_of(names: Seq<Seq<char>>, values: Seq<Seq<char>>) -> Map<
    Seq<char>,
    Seq<char>,
>
    decreases names.len(),
{
    if names.len() == 0 || values.len() == 0 {
        Map::empty()
    } else {
        map_of(names.drop_last(), values.drop_last()).insert(names.last(), values.last())
    }
}

/// The mapping from option names to their resolved values, with the first
/// value found for a name kept. Insertion order is remembered only so that
/// the entries can be listed.
pub struct ResultMap {
    pub names: Vec<String>,
    pub values: Vec<String>,
}

impl View for ResultMap {
    type V = Map<Seq<char>, Seq<char>>;

    open spec fn view(&self) -> Map<Seq<char>, Seq<char>> {
        map_of(views(self.names@), views(self.values@))
    }
}

impl ResultMap {
    pub open spec fn wf(&self) -> bool {
        &&& self.names@.len() == self.values@.len()
        &&& forall|i: int, j: int|
            0 <= i < j < self.names@.len() ==> views(self.names@)[i] != views(self.names@)[j]
    }

    pub open spec fn spec_names(&self) -> Seq<Seq<char>> {
        views(self.names@)
    }

    pub open spec fn spec_values(&self) -> Seq<Seq<char>> {
        views(self.values@)
    }

    pub fn new() -> (r: ResultMap)
        ensures
            r.wf(),
            r@ == Map::<Seq<char>, Seq<char>>::empty(),
            r.spec_names() == Seq::<Seq<char>>::empty(),
    {
        let r = ResultMap { names: Vec::new(), values: Vec::new() };
        proof {
            assert(views(r.names@) =~= Seq::<Seq<char>>::empty());
            assert(r@ =~= Map::<Seq<char>, Seq<char>>::empty());
        }
        r
    }

    pub fn len(&self) -> (r: usize)
        ensures
            r == self.spec_names().len(),
    {
        self.names.len()
    }

    pub fn name_at(&self, i: usize) -> (r: &String)
        requires
            i < self.spec_names().len(),
        ensures
            r@ == self.spec_names()[i as int],
    {
        &self.names[i]
    }

    pub fn value_at(&self, i: usize) -> (r: &String)
        requires
            self.wf(),
            i < self.spec_names().len(),
        ensures
            r@ == self.spec_values()[i as int],
    {
        &self.values[i]
    }

    /// Whether a value is already recorded under `name`.
    pub fn contains_name(&self, name: &str) -> (r: bool)
        requires
            self.wf(),
        ensures
            r == self@.contains_key(name@),
    {
        let mut i: usize = 0;
        proof {
            lemma_map_of_dom(views(self.names@), views(self.values@));
        }
        while i < self.names.len()
            invariant
                i <= self.names@.len(),
                forall|k: int| 0 <= k < i ==> views(self.names@)[k] != name@,
                self.wf(),
                self@.contains_key(name@) <==> views(self.names@).contains(name@),
            decreases self.names@.len() - i,
        {
            if str_eq(self.names[i].as_str(), name) {
                proof {
                    assert(views(self.names@)[i as int] == name@);
                }
                return true;
            }
            i = i + 1;
        }
        proof {
            assert(!views(self.names@).contains(name@));
        }
        false
    }

    /// The value recorded under `name`, if any.
    pub fn get(&self, name: &str) -> (r: Option<&String>)
        requires
            self.wf(),
        ensures
            match r {
                Some(v) => self@.contains_key(name@) && v@ == self@[name@],
                None => !self@.contains_key(name@),
            },
    {
        let mut i: usize = 0;
        proof {
            lemma_map_of_dom(views(self.names@), views(self.values@));
        }
        while i < self.names.len()
            invariant
                i <= self.names@.len(),
                forall|k: int| 0 <= k < i ==> views(self.names@)[k] != name@,
                self.wf(),
                self@.contains_key(name@) <==> views(self.names@).contains(name@),
            decreases self.names@.len() - i,
        {
            if str_eq(self.names[i].as_str(), name) {
                proof {
                    assert(views(self.names@)[i as int] == name@);
                    lemma_map_of_index(views(self.names@), views(self.values@), i as int);
                }
                return Some(&self.values[i]);
            }
            i = i + 1;
        }
        proof {
            assert(!views(self.names@).contains(name@));
        }
        None
    }

    /// Records `value` under `name` unless a value already stands there: the
    /// first value discovered for a name wins.
    pub fn insert_first(&mut self, name: String, value: String)
        requires
            old(self).wf(),
        ensures
            final(self).wf(),
            final(self)@ == if old(self)@.contains_key(name@) {
                old(self)@
            } else {
                old(self)@.insert(name@, value@)
            },
            final(self).spec_names() == if old(self)@.contains_key(name@) {
                old(self).spec_names()
            } else {
                old(self).spec_names().push(name@)
            },
            final(self).spec_values() == if old(self)@.contains_key(name@) {
                old(self).spec_values()
            } else {
                old(self).spec_values().push(value@)
            },
    {
        if self.contains_name(name.as_str()) {
            return;
        }
        let ghost pre_n = views(self.names@);
        let ghost pre_v = views(self.values@);
        proof {
            lemma_map_of_dom(pre_n, pre_v);
        }
        self.names.push(name);
        self.values.push(value);
        proof {
            assert(views(self.names@) =~= pre_n.push(self.names@.last()@));
            assert(views(self.values@) =~= pre_v.push(self.values@.last()@));
            assert(views(self.names@).drop_last() =~= pre_n);
            assert(views(self.values@).drop_last() =~= pre_v);
            assert forall|i: int, j: int| 0 <= i < j < self.names@.len() implies views(
                self.names@,
            )[i] != views(self.names@)[j] by {
                if j == self.names@.len() - 1 {
                    assert(pre_n.contains(pre_n[i]));
                }
            }
        }
    }
}

/// A name is in the mapping exactly when it stands in the name list.
pub proof fn lemma_map_of_dom(names: Seq<Seq<char>>, values: Seq<Seq<char>>)
    requires
        names.len() == values.len(),
    ensures
        forall|x: Seq<char>| #[trigger] map_of(names, values).contains_key(x) <==> names.contains(x),
    decreases names.len(),
{
    if names.len() > 0 {
        lemma_map_of_dom(names.drop_last(), values.drop_last());
        assert forall|x: Seq<char>| #[trigger] map_of(names, values).contains_key(x) implies names.contains(
            x,
        ) by {
            if x == names.last() {
                assert(names[names.len() - 1] == x);
            } else {
                assert(map_of(names.drop_last(), values.drop_last()).contains_key(x));
                assert(names.drop_last().contains(x));
                let k = choose|k: int|
                    0 <= k < names.drop_last().len() && names.drop_last()[k] == x;
                assert(names[k] == x);
            }
        }
        assert forall|x: Seq<char>| names.contains(x) implies #[trigger] map_of(names, values).contains_key(
            x,
        ) by {
            if x != names.last() {
                let k = choose|k: int| 0 <= k < names.len() && names[k] == x;
                assert(names[names.len() - 1] == names.last());
                assert(k < names.len() - 1);
                assert(names.drop_last()[k] == x);
                assert(names.drop_last().contains(x));
                assert(map_of(names.drop_last(), values.drop_last()).contains_key(x));
            }
        }
    }
}

/// With unique names, the mapping carries each listed value under its name.
pub proof fn lemma_map_of_index(names: Seq<Seq<char>>, values: Seq<Seq<char>>, i: int)
    requires
        names.len() == values.len(),
        0 <= i < names.len(),
        forall|a: int, b: int| 0 <= a < b < names.len() ==> names[a] != names[b],
    ensures
        map_of(names, values).contains_key(names[i]),
        map_of(names, values)[names[i]] == values[i],
    decreases names.len(),
{
    if i == names.len() - 1 {
        lemma_map_of_dom(names, values);
        assert(names.contains(names[i]));
    } else {
        lemma_map_of_index(names.drop_last(), values.drop_last(), i);
        assert(names.drop_last()[i] == names[i]);
        assert(values.drop_last()[i] == values[i]);
        assert(names[i] != names.last());
    }
}

} // verus!
