use vstd::prelude::*;

verus! {

/// Views of a sequence of strings, element by element.
pub open spec fn views(v: Seq<String>) -> Seq<Seq<char>> {
    v.map_values(|s: String| s@)
}

// ---------------------------------------------------------------------------
// Finding the first occurrence of a character.
// ---------------------------------------------------------------------------

/// Index of the first occurrence of `c` in `s`, or `s.len()` if absent.
pub open spec fn spec_find(s: Seq<char>, c: char) -> nat
    decreases s.len(),
{
    if s.len() == 0 {
        0
    } else if s[0] == c {
        0
    } else {
        (1 + spec_find(s.drop_first(), c)) as nat
    }
}

pub proof fn lemma_spec_find(s: Seq<char>, c: char)
    ensures
        spec_find(s, c) <= s.len(),
        spec_find(s, c) < s.len() ==> s[spec_find(s, c) as int] == c,
        forall|j: int| 0 <= j < spec_find(s, c) ==> s[j] != c,
    decreases s.len(),
{
    if s.len() != 0 && s[0] != c {
        lemma_spec_find(s.drop_first(), c);
        assert forall|j: int| 0 <= j < spec_find(s, c) implies s[j] != c by {
            if j > 0 {
                assert(s.drop_first()[j - 1] == s[j]);
            }
        }
    }
}

/// The first index that carries `c`, with nothing before it, is `spec_find`.
pub proof fn lemma_find_at(s: Seq<char>, c: char, i: int)
    requires
        0 <= i <= s.len(),
        forall|j: int| 0 <= j < i ==> s[j] != c,
        i < s.len() ==> s[i] == c,
    ensures
        spec_find(s, c) == i,
    decreases s.len(),
{
    if s.len() != 0 && i > 0 {
        assert(s[0] != c);
        assert forall|j: int| 0 <= j < i - 1 implies s.drop_first()[j] != c by {
            assert(s.drop_first()[j] == s[j + 1]);
        }
        assert(i - 1 < s.drop_first().len() ==> s.drop_first()[i - 1] == s[i]);
        lemma_find_at(s.drop_first(), c, i - 1);
    }
}

/// First index of `c` in `s` at or after `from`, or the length of `s`.
pub fn find_char_from(s: &str, c: char, from: usize) -> (r: usize)
    requires
        from <= s@.len(),
    ensures
        r - from == spec_find(s@.skip(from as int), c),
        from <= r <= s@.len(),
{
    let n = s.unicode_len();
    let mut i: usize = from;
    while i < n
        invariant
            from <= i <= n,
            n == s@.len(),
            forall|j: int| from <= j < i ==> s@[j] != c,
        decreases n - i,
    {
        if s.get_char(i) == c {
            proof {
                assert forall|j: int| 0 <= j < i - from implies s@.skip(from as int)[j] != c by {
                    assert(s@.skip(from as int)[j] == s@[j + from]);
                }
                assert(s@.skip(from as int)[i - from] == s@[i as int]);
                lemma_find_at(s@.skip(from as int), c, i - from);
            }
            return i;
        }
        i = i + 1;
    }
    proof {
        assert forall|j: int| 0 <= j < n - from implies s@.skip(from as int)[j] != c by {
            assert(s@.skip(from as int)[j] == s@[j + from]);
        }
        lemma_find_at(s@.skip(from as int), c, n - from);
    }
    n
}

// ---------------------------------------------------------------------------
// Splitting on a character, as str::split does: an empty input yields one
// empty piece, and a separator at the end yields a trailing empty piece.
// ---------------------------------------------------------------------------

pub open spec fn spec_split(s: Seq<char>, c: char) -> Seq<Seq<char>>
    decreases s.len(),
{
    let i = spec_find(s, c) as int;
    if i >= s.len() {
        seq![s]
    } else {
        seq![s.take(i)] + spec_split(s.skip(i + 1), c)
    }
}

pub fn split_char(s: &str, c: char) -> (r: Vec<String>)
    ensures
        views(r@) == spec_split(s@, c),
{
    let n = s.unicode_len();
    let mut out: Vec<String> = Vec::new();
    let mut p: usize = 0;
    proof {
        assert(views(out@) =~= Seq::<Seq<char>>::empty());
        assert(s@.skip(0) =~= s@);
        assert(views(out@) + spec_split(s@, c) =~= spec_split(s@, c));
    }
    loop
        invariant
            p <= n,
            n == s@.len(),
            spec_split(s@, c) == views(out@) + spec_split(s@.skip(p as int), c),
        decreases n - p,
    {
        let j = find_char_from(s, c, p);
        let piece = s.substring_char(p, j).to_owned();
        let ghost old_out = out@;
        out.push(piece);
        proof {
            assert(views(out@) =~= views(old_out).push(piece@));
        }
        if j < n {
            proof {
                let rest = s@.skip(p as int);
                let i = spec_find(rest, c) as int;
                assert(i == j - p);
                assert(rest.take(i) =~= s@.subrange(p as int, j as int));
                assert(rest.skip(i + 1) =~= s@.skip(j + 1));
                assert(views(out@) + spec_split(s@.skip(j + 1), c) =~= views(old_out)
                    + spec_split(s@.skip(p as int), c));
            }
            p = j + 1;
        } else {
            proof {
                let rest = s@.skip(p as int);
                lemma_spec_find(rest, c);
                assert(spec_find(rest, c) == rest.len());
                assert(spec_split(rest, c) == seq![rest]);
                assert(rest =~= s@.subrange(p as int, n as int));
                assert(views(out@) =~= views(old_out) + seq![rest]);
                assert(views(out@) =~= spec_split(s@, c));
            }
            return out;
        }
    }
}

// ---------------------------------------------------------------------------
// Substring containment.
// ---------------------------------------------------------------------------

pub open spec fn contains_seq(h: Seq<char>, n: Seq<char>) -> bool {
    exists|i: int| 0 <= i && i + n.len() <= h.len() && #[trigger] h.subrange(i, i + n.len()) == n
}

/// Whether `n` occurs as a contiguous substring of `h`.
pub fn contains_str(h: &str, n: &str) -> (r: bool)
    ensures
        r == contains_seq(h@, n@),
{
    let hl = h.unicode_len();
    let nl = n.unicode_len();
    if nl > hl {
        proof {
            assert forall|i: int| !(0 <= i && i + n@.len() <= h@.len()
                && #[trigger] h@.subrange(i, i + n@.len()) == n@) by {}
        }
        return false;
    }
    let mut i: usize = 0;
    while i <= hl - nl
        invariant
            nl <= hl,
            hl == h@.len(),
            nl == n@.len(),
            i <= hl - nl + 1,
            forall|k: int| 0 <= k < i ==> #[trigger] h@.subrange(k, k + n@.len()) != n@,
        decreases hl + 1 - i,
    {
        let mut j: usize = 0;
        let mut is_eq = true;
        while j < nl && is_eq
            invariant
                j <= nl,
                nl <= hl,
                i + nl <= hl,
                hl == h@.len(),
                nl == n@.len(),
                is_eq ==> forall|k: int| 0 <= k < j ==> h@[i + k] == n@[k],
                !is_eq ==> exists|k: int| 0 <= k < nl && h@[i + k] != n@[k],
            decreases nl - j + (if is_eq { 1int } else { 0int }),
        {
            if h.get_char(i + j) != n.get_char(j) {
                is_eq = false;
            } else {
                j = j + 1;
            }
        }
        if is_eq {
            proof {
                assert(h@.subrange(i as int, i + n@.len()) =~= n@);
            }
            return true;
        }
        proof {
            assert(h@.subrange(i as int, i + n@.len()) != n@) by {
                let k = choose|k: int| 0 <= k < nl && h@[i + k] != n@[k];
                assert(h@.subrange(i as int, i + n@.len())[k] == h@[i + k]);
            }
        }
        i = i + 1;
    }
    proof {
        assert forall|k: int| 0 <= k && k + n@.len() <= h@.len() implies #[trigger] h@.subrange(
            k,
            k + n@.len(),
        ) != n@ by {
            assert(0 <= k < i);
        }
    }
    false
}

// ---------------------------------------------------------------------------
// Equality and searching over strings and string vectors.
// ---------------------------------------------------------------------------

pub fn str_eq(a: &str, b: &str) -> (r: bool)
    ensures
        r == (a@ == b@),
{
    let al = a.unicode_len();
    let bl = b.unicode_len();
    if al != bl {
        return false;
    }
    let mut i: usize = 0;
    while i < al
        invariant
            i <= al,
            al == a@.len(),
            al == b@.len(),
            forall|k: int| 0 <= k < i ==> a@[k] == b@[k],
        decreases al - i,
    {
        if a.get_char(i) != b.get_char(i) {
            proof {
                assert(a@[i as int] != b@[i as int]);
            }
            return false;
        }
        i = i + 1;
    }
    proof {
        assert(a@ =~= b@);
    }
    true
}

pub fn vec_contains(v: &Vec<String>, x: &str) -> (r: bool)
    ensures
        r == views(v@).contains(x@),
{
    let mut i: usize = 0;
    while i < v.len()
        invariant
            i <= v.len(),
            forall|k: int| 0 <= k < i ==> views(v@)[k] != x@,
        decreases v.len() - i,
    {
        if str_eq(v[i].as_str(), x) {
            proof {
                assert(views(v@)[i as int] == x@);
            }
            return true;
        }
        i = i + 1;
    }
    proof {
        assert forall|k: int| 0 <= k < views(v@).len() implies views(v@)[k] != x@ by {}
    }
    false
}

// ---------------------------------------------------------------------------
// Removing the first occurrence of a string from a vector.
// ---------------------------------------------------------------------------

/// The sequence with its first occurrence of `x` taken out, if one exists.
pub open spec fn remove_first(s: Seq<Seq<char>>, x: Seq<char>) -> Seq<Seq<char>>
    decreases s.len(),
{
    if s.len() == 0 {
        s
    } else if s[0] == x {
        s.drop_first()
    } else {
        seq![s[0]] + remove_first(s.drop_first(), x)
    }
}

proof fn lemma_remove_first_at(s: Seq<Seq<char>>, x: Seq<char>, i: int)
    requires
        0 <= i < s.len(),
        s[i] == x,
        forall|j: int| 0 <= j < i ==> s[j] != x,
    ensures
        remove_first(s, x) == s.subrange(0, i) + s.skip(i + 1),
    decreases s.len(),
{
    if i == 0 {
        assert(remove_first(s, x) == s.drop_first());
        assert(s.subrange(0, 0) + s.skip(1) =~= s.drop_first());
    } else {
        assert(s[0] != x);
        assert forall|j: int| 0 <= j < i - 1 implies s.drop_first()[j] != x by {
            assert(s.drop_first()[j] == s[j + 1]);
        }
        assert(s.drop_first()[i - 1] == s[i]);
        lemma_remove_first_at(s.drop_first(), x, i - 1);
        assert(seq![s[0]] + (s.drop_first().subrange(0, i - 1) + s.drop_first().skip(i))
            =~= s.subrange(0, i) + s.skip(i + 1));
    }
}

/// Removes the first element equal to `x`, if any, as the walk does when a
/// requested option is satisfied.
pub fn vec_remove_first(v: &mut Vec<String>, x: &str)
    ensures
        views(final(v)@) == remove_first(views(old(v)@), x@),
{
    let mut i: usize = 0;
    while i < v.len()
        invariant
            i <= v.len(),
            v@ == old(v)@,
            forall|k: int| 0 <= k < i ==> views(v@)[k] != x@,
        decreases v.len() - i,
    {
        if str_eq(v[i].as_str(), x) {
            let ghost pre = views(v@);
            proof {
                assert(pre[i as int] == x@);
                lemma_remove_first_at(pre, x@, i as int);
            }
            v.remove(i);
            proof {
                assert(views(v@) =~= pre.subrange(0, i as int) + pre.skip(i + 1));
            }
            return;
        }
        i = i + 1;
    }
    proof {
        lemma_remove_first_absent(views(v@), x@);
    }
}

proof fn lemma_remove_first_absent(s: Seq<Seq<char>>, x: Seq<char>)
    requires
        forall|j: int| 0 <= j < s.len() ==> s[j] != x,
    ensures
        remove_first(s, x) == s,
    decreases s.len(),
{
    if s.len() > 0 {
        assert forall|j: int| 0 <= j < s.drop_first().len() implies s.drop_first()[j] != x by {
            assert(s.drop_first()[j] == s[j + 1]);
        }
        lemma_remove_first_absent(s.drop_first(), x);
        assert(seq![s[0]] + s.drop_first() =~= s);
    }
}

// ---------------------------------------------------------------------------
// URL joining: a separator is inserted
// only when the base does not already end with one.
// ---------------------------------------------------------------------------

pub open spec fn spec_join(base: Seq<char>, child: Seq<char>) -> Seq<char> {
    if base.len() > 0 && base.last() == '/' {
        base + child
    } else {
        base + seq!['/'] + child
    }
}

pub fn join_url(base: &str, child: &str) -> (r: String)
    ensures
        r@ == spec_join(base@, child@),
{
    let n = base.unicode_len();
    let mut out = base.to_owned();
    if n == 0 || base.get_char(n - 1) != '/' {
        out.append("/");
        proof {
            reveal_strlit("/");
            assert("/"@ =~= seq!['/']);
        }
    }
    out.append(child);
    proof {
        if !(base@.len() > 0 && base@.last() == '/') {
            assert(out@ =~= base@ + seq!['/'] + child@);
        }
    }
    out
}

/// Whether the final character of `s` is `c` (false for an empty string).
pub fn last_is(s: &str, c: char) -> (r: bool)
    ensures
        r == (s@.len() > 0 && s@.last() == c),
{
    let n = s.unicode_len();
    if n == 0 {
        false
    } else {
        s.get_char(n - 1) == c
    }
}

// ---------------------------------------------------------------------------
// Flag form of an option name.
// ---------------------------------------------------------------------------

/// The command-line flag that selects the option named `n`.
pub open spec fn flag_seq(n: Seq<char>) -> Seq<char> {
    seq!['-', '-'] + n
}

pub fn flag_of(name: &str) -> (r: String)
    ensures
        r@ == flag_seq(name@),
{
    let mut f = String::from_str("--");
    f.append(name);
    proof {
        reveal_strlit("--");
        assert("--"@ =~= seq!['-', '-']);
        assert(f@ =~= flag_seq(name@));
    }
    f
}

} // verus!
