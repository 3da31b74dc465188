//! The name-to-value bindings extracted from a concrete path against a
//! matched pattern. Keys are unique; equality is by content, so the order in
//! which bindings were inserted is irrelevant.

use vstd::prelude::*;

verus! {

/// The map described by an association list, later entries overriding
/// earlier ones with the same key.
pub closed spec fn pairs_map(ps: Seq<(String, String)>) -> Map<Seq<char>, Seq<char>>
    decreases ps.len(),
{
    if ps.len() == 0 {
        Map::empty()
    } else {
        pairs_map(ps.drop_last()).insert(ps.last().0@, ps.last().1@)
    }
}

/// No two entries share a key.
pub closed spec fn unique_keys(ps: Seq<(String, String)>) -> bool {
    forall|i: int, j: int| 0 <= i < j < ps.len() ==> ps[i].0@ != ps[j].0@
}

proof fn lemma_pairs_map_push(ps: Seq<(String, String)>, p: (String, String))
    ensures
        pairs_map(ps.push(p)) == pairs_map(ps).insert(p.0@, p.1@),
{
    assert(ps.push(p).drop_last() =~= ps);
    assert(ps.push(p).last() == p);
}

proof fn lemma_pairs_map_absent(ps: Seq<(String, String)>, x: Seq<char>)
    requires
        forall|i: int| 0 <= i < ps.len() ==> ps[i].0@ != x,
    ensures
        !pairs_map(ps).contains_key(x),
    decreases ps.len(),
{
    if ps.len() > 0 {
        lemma_pairs_map_absent(ps.drop_last(), x);
    }
}

proof fn lemma_pairs_map_char(ps: Seq<(String, String)>)
    requires
        unique_keys(ps),
    ensures
        forall|x: Seq<char>|
            pairs_map(ps).contains_key(x) ==> exists|i: int|
                0 <= i < ps.len() && #[trigger] ps[i].0@ == x,
        forall|i: int|
            0 <= i < ps.len() ==> pairs_map(ps).contains_key(#[trigger] ps[i].0@) && pairs_map(ps)[
                ps[i].0@
            ] == ps[i].1@,
    decreases ps.len(),
{
    if ps.len() > 0 {
        let pre = ps.drop_last();
        assert(unique_keys(pre));
        lemma_pairs_map_char(pre);
        assert(forall|i: int| 0 <= i < pre.len() ==> pre[i] == ps[i]);
        assert forall|i: int| 0 <= i < ps.len() implies pairs_map(ps).contains_key(
            #[trigger] ps[i].0@,
        ) && pairs_map(ps)[ps[i].0@] == ps[i].1@ by {
            if i < ps.len() - 1 {
                // the final insert has a different key, so it cannot shadow
                // the binding of ps[i]
                assert(ps[i].0@ != ps.last().0@);
            }
        }
        assert forall|x: Seq<char>| pairs_map(ps).contains_key(x) implies exists|i: int|
            0 <= i < ps.len() && #[trigger] ps[i].0@ == x by {
            if x == ps.last().0@ {
                assert(ps[ps.len() - 1].0@ == x);
            } else {
                assert(pairs_map(pre).contains_key(x));
                let i = choose|i: int| 0 <= i < pre.len() && #[trigger] pre[i].0@ == x;
                assert(ps[i].0@ == x);
            }
        }
    }
}

proof fn lemma_pairs_map_remove(ps: Seq<(String, String)>, i: int)
    requires
        unique_keys(ps),
        0 <= i < ps.len(),
    ensures
        unique_keys(ps.remove(i)),
        pairs_map(ps.remove(i)) == pairs_map(ps).remove(ps[i].0@),
    decreases ps.len(),
{
    let k = ps[i].0@;
    if i == ps.len() - 1 {
        assert(ps.remove(i) =~= ps.drop_last());
        assert(forall|j: int| 0 <= j < ps.drop_last().len() ==> ps.drop_last()[j].0@ != k);
        lemma_pairs_map_absent(ps.drop_last(), k);
        assert(pairs_map(ps.drop_last()) =~= pairs_map(ps.drop_last()).insert(
            k,
            ps.last().1@,
        ).remove(k));
    } else {
        let pre = ps.drop_last();
        assert(unique_keys(pre));
        lemma_pairs_map_remove(pre, i);
        assert(ps.remove(i).drop_last() =~= pre.remove(i));
        assert(ps.remove(i).last() == ps.last());
        assert(k != ps.last().0@);
        // removing k and then inserting the (distinct) last key commutes
        assert(pairs_map(pre).remove(k).insert(ps.last().0@, ps.last().1@) =~= pairs_map(
            pre,
        ).insert(ps.last().0@, ps.last().1@).remove(k));
    }
}

proof fn lemma_pairs_map_len(ps: Seq<(String, String)>)
    requires
        unique_keys(ps),
    ensures
        pairs_map(ps).dom().len() == ps.len(),
        pairs_map(ps).dom().finite(),
    decreases ps.len(),
{
    if ps.len() > 0 {
        let pre = ps.drop_last();
        assert(unique_keys(pre));
        lemma_pairs_map_len(pre);
        assert(forall|j: int| 0 <= j < pre.len() ==> pre[j].0@ != ps.last().0@);
        lemma_pairs_map_absent(pre, ps.last().0@);
        assert(pairs_map(ps).dom() =~= pairs_map(pre).dom().insert(ps.last().0@));
    }
}

/// Compare two strings character by character.
pub fn str_eq(a: &str, b: &str) -> (r: bool)
    ensures
        r == (a@ == b@),
{
    let alen = a.unicode_len();
    let blen = b.unicode_len();
    if alen != blen {
        return false;
    }
    let mut i: usize = 0;
    while i < alen
        invariant
            i <= alen,
            alen == a@.len(),
            alen == b@.len(),
            forall|j: int| 0 <= j < i ==> a@[j] == b@[j],
        decreases alen - i,
    {
        if a.get_char(i) != b.get_char(i) {
            return false;
        }
        i = i + 1;
    }
    proof {
        assert(a@ =~= b@);
    }
    true
}

/// The parameter bindings of one dispatch: a mapping from parameter name
/// (including the reserved name `*` for the wildcard capture) to the captured
/// text. Viewed as a `Map<Seq<char>, Seq<char>>`.
#[derive(Debug)]
pub struct Params(Vec<(String, String)>);

impl View for Params {
    type V = Map<Seq<char>, Seq<char>>;

    closed spec fn view(&self) -> Map<Seq<char>, Seq<char>> {
        pairs_map(self.0@)
    }
}

impl Params {
    #[verifier::type_invariant]
    closed spec fn wf(self) -> bool {
        unique_keys(self.0@)
    }

    /// An empty set of bindings.
    pub fn new() -> (r: Self)
        ensures
            r@ == Map::<Seq<char>, Seq<char>>::empty(),
    {
        Params(Vec::new())
    }

    /// How many bindings are present.
    pub fn len(&self) -> (n: usize)
        ensures
            n == self@.dom().len(),
    {
        proof {
            use_type_invariant(self);
            lemma_pairs_map_len(self.0@);
        }
        self.0.len()
    }

    /// Bind `key` to `value`, replacing any existing binding of `key`.
    pub fn insert(&mut self, key: String, value: String)
        ensures
            final(self)@ == old(self)@.insert(key@, value@),
    {
        proof {
            use_type_invariant(&*self);
        }
        let ghost orig = self.0@;
        let mut v: Vec<(String, String)> = Vec::new();
        core::mem::swap(&mut self.0, &mut v);
        let n = v.len();
        let mut idx: usize = n;
        let mut i: usize = 0;
        while i < n
            invariant
                i <= n,
                idx <= n,
                n == v@.len(),
                v@ == orig,
                unique_keys(orig),
                idx == n ==> forall|j: int| 0 <= j < i ==> orig[j].0@ != key@,
                idx < n ==> orig[idx as int].0@ == key@,
            decreases n - i,
        {
            if idx == n && str_eq(v[i].0.as_str(), key.as_str()) {
                idx = i;
            }
            i = i + 1;
        }
        if idx < n {
            proof {
                lemma_pairs_map_remove(orig, idx as int);
            }
            v.remove(idx);
            let ghost removed = v@;
            v.push((key, value));
            proof {
                lemma_pairs_map_push(removed, (key, value));
                assert(pairs_map(orig).remove(key@).insert(key@, value@) =~= pairs_map(
                    orig,
                ).insert(key@, value@));
                assert(unique_keys(v@)) by {
                    assert(forall|a: int| 0 <= a < removed.len() ==> v@[a] == removed[a]);
                }
            }
        } else {
            v.push((key, value));
            proof {
                lemma_pairs_map_push(orig, (key, value));
                assert(unique_keys(v@)) by {
                    assert(forall|a: int| 0 <= a < orig.len() ==> v@[a] == orig[a]);
                }
            }
        }
        core::mem::swap(&mut self.0, &mut v);
    }

    /// Look up the binding of `key`.
    pub fn get<'a>(&'a self, key: &str) -> (r: Option<&'a String>)
        ensures
            match r {
                Some(v) => self@.contains_key(key@) && v@ == self@[key@],
                None => !self@.contains_key(key@),
            },
    {
        proof {
            use_type_invariant(self);
            lemma_pairs_map_char(self.0@);
        }
        let n = self.0.len();
        let mut i: usize = 0;
        while i < n
            invariant
                i <= n,
                n == self.0@.len(),
                unique_keys(self.0@),
                forall|j: int| 0 <= j < i ==> self.0@[j].0@ != key@,
                forall|j: int|
                    0 <= j < self.0@.len() ==> pairs_map(self.0@).contains_key(
                        #[trigger] self.0@[j].0@,
                    ) && pairs_map(self.0@)[self.0@[j].0@] == self.0@[j].1@,
                forall|x: Seq<char>|
                    pairs_map(self.0@).contains_key(x) ==> exists|j: int|
                        0 <= j < self.0@.len() && #[trigger] self.0@[j].0@ == x,
            decreases n - i,
        {
            if str_eq(self.0[i].0.as_str(), key) {
                return Some(&self.0[i].1);
            }
            i = i + 1;
        }
        proof {
            if pairs_map(self.0@).contains_key(key@) {
                let j = choose|j: int|
                    0 <= j < self.0@.len() && #[trigger] self.0@[j].0@ == key@;
                assert(false);
            }
        }
        None
    }

    /// Does `other` bind every key of `self` to the same value?
    fn included(&self, other: &Params) -> (b: bool)
        ensures
            b == forall|j: int|
                0 <= j < self.0@.len() ==> other@.contains_key(#[trigger] self.0@[j].0@)
                    && other@[self.0@[j].0@] == self.0@[j].1@,
    {
        let n = self.0.len();
        let mut i: usize = 0;
        while i < n
            invariant
                i <= n,
                n == self.0@.len(),
                forall|j: int|
                    0 <= j < i ==> other@.contains_key(#[trigger] self.0@[j].0@) && other@[
                        self.0@[j].0@
                    ] == self.0@[j].1@,
            decreases n - i,
        {
            match other.get(self.0[i].0.as_str()) {
                Some(v) => {
                    if !str_eq(v.as_str(), self.0[i].1.as_str()) {
                        return false;
                    }
                },
                None => {
                    return false;
                },
            }
            i = i + 1;
        }
        true
    }
}

proof fn lemma_pairs_map_congruent(a: Seq<(String, String)>, b: Seq<(String, String)>)
    requires
        a.len() == b.len(),
        forall|i: int|
            0 <= i < a.len() ==> (#[trigger] a[i]).0@ == b[i].0@ && a[i].1@ == b[i].1@,
    ensures
        pairs_map(a) == pairs_map(b),
    decreases a.len(),
{
    if a.len() > 0 {
        assert(forall|i: int|
            0 <= i < a.drop_last().len() ==> (#[trigger] a.drop_last()[i]) == a[i]
                && b.drop_last()[i] == b[i]);
        lemma_pairs_map_congruent(a.drop_last(), b.drop_last());
    }
}

impl Clone for Params {
    /// A copy with the same bindings.
    fn clone(&self) -> (r: Self)
        ensures
            r@ == self@,
    {
        proof {
            use_type_invariant(self);
        }
        let mut v: Vec<(String, String)> = Vec::new();
        let n = self.0.len();
        let mut i: usize = 0;
        while i < n
            invariant
                i <= n,
                n == self.0@.len(),
                v@.len() == i,
                unique_keys(self.0@),
                forall|j: int|
                    0 <= j < i ==> (#[trigger] v@[j]).0@ == self.0@[j].0@ && v@[j].1@
                        == self.0@[j].1@,
            decreases n - i,
        {
            v.push((self.0[i].0.clone(), self.0[i].1.clone()));
            i = i + 1;
        }
        proof {
            lemma_pairs_map_congruent(v@, self.0@);
            assert(unique_keys(v@));
        }
        Params(v)
    }
}

impl PartialEq for Params {
    /// Equality is by content: the same keys bound to the same values,
    /// regardless of insertion order.
    fn eq(&self, other: &Self) -> (b: bool) {
        proof {
            use_type_invariant(self);
            use_type_invariant(other);
            lemma_pairs_map_char(self.0@);
            lemma_pairs_map_char(other.0@);
        }
        let r = self.included(other) && other.included(self);
        proof {
            if r {
                assert forall|x: Seq<char>| #[trigger]
                    self@.contains_key(x) implies other@.contains_key(x) && other@[x] == self@[x] by {
                    let j = choose|j: int|
                        0 <= j < self.0@.len() && #[trigger] self.0@[j].0@ == x;
                }
                assert forall|x: Seq<char>| #[trigger]
                    other@.contains_key(x) implies self@.contains_key(x) by {
                    let j = choose|j: int|
                        0 <= j < other.0@.len() && #[trigger] other.0@[j].0@ == x;
                }
                assert(self@ =~= other@);
            } else {
                if self@ == other@ {
                    assert(forall|j: int|
                        0 <= j < self.0@.len() ==> other@.contains_key(#[trigger] self.0@[j].0@)
                            && other@[self.0@[j].0@] == self.0@[j].1@);
                    assert(forall|j: int|
                        0 <= j < other.0@.len() ==> self@.contains_key(#[trigger] other.0@[j].0@)
                            && self@[other.0@[j].0@] == other.0@[j].1@);
                    assert(false);
                }
            }
        }
        r
    }
}

impl vstd::std_specs::cmp::PartialEqSpecImpl for Params {
    open spec fn obeys_eq_spec() -> bool {
        true
    }

    open spec fn eq_spec(&self, other: &Self) -> bool {
        self@ == other@
    }
}

impl Eq for Params {

}

impl Default for Params {
    /// The empty set of bindings.
    fn default() -> (r: Self)
        ensures
            r@ == Map::<Seq<char>, Seq<char>>::empty(),
    {
        Params::new()
    }
}

} // verus!
