//! A set of names, each held once.
use vstd::prelude::*;

verus! {

/// Lexicographic order of names by the code points of their characters
/// (the order of `String`, whose bytes are UTF-8).
pub open spec fn name_lt(a: Seq<char>, b: Seq<char>) -> bool
    decreases a.len(),
{
    if a.len() == 0 {
        b.len() > 0
    } else if b.len() == 0 {
        false
    } else if a[0] != b[0] {
        (a[0] as int) < (b[0] as int)
    } else {
        name_lt(a.drop_first(), b.drop_first())
    }
}

/// No name is before itself.
pub proof fn lemma_name_lt_irrefl(a: Seq<char>)
    ensures
        !name_lt(a, a),
    decreases a.len(),
{
    if a.len() > 0 {
        lemma_name_lt_irrefl(a.drop_first());
    }
}

/// Of two different names, one is before the other.
pub proof fn lemma_name_lt_total(a: Seq<char>, b: Seq<char>)
    requires
        a != b,
    ensures
        name_lt(a, b) || name_lt(b, a),
    decreases a.len(),
{
    if a.len() > 0 && b.len() > 0 && a[0] == b[0] {
        if a.drop_first() == b.drop_first() {
            assert(a =~= seq![a[0]] + a.drop_first());
            assert(b =~= seq![b[0]] + b.drop_first());
        }
        lemma_name_lt_total(a.drop_first(), b.drop_first());
    } else if a.len() == 0 && b.len() == 0 {
        assert(a =~= b);
    } else if a.len() > 0 && b.len() > 0 {
        assert(a[0] as int != b[0] as int);
    }
}

/// The order is transitive.
pub proof fn lemma_name_lt_trans(a: Seq<char>, b: Seq<char>, c: Seq<char>)
    requires
        name_lt(a, b),
        name_lt(b, c),
    ensures
        name_lt(a, c),
    decreases a.len(),
{
    if a.len() > 0 && b.len() > 0 && c.len() > 0 && a[0] == b[0] && b[0] == c[0] {
        lemma_name_lt_trans(a.drop_first(), b.drop_first(), c.drop_first());
    }
}

/// A set of names (identifiers), each held once.
#[derive(Debug)]
pub struct NameSet {
    names: Vec<String>,
}

impl View for NameSet {
    type V = Set<Seq<char>>;

    closed spec fn view(&self) -> Set<Seq<char>> {
        self.names@.map_values(|s: String| s@).to_set()
    }
}

impl NameSet {
    #[verifier::type_invariant]
    closed spec fn no_repeats(self) -> bool {
        &&& forall|i: int, j: int|
            0 <= i < j < self.names@.len() ==> (#[trigger] self.names@[i])@ != (#[trigger] self.names@[j])@
        &&& forall|i: int, j: int|
            0 <= i < j < self.names@.len() ==> name_lt((#[trigger] self.names@[i])@, (#[trigger] self.names@[j])@)
    }

    /// Whether `a` comes before `b` in the order of names.
    fn less(a: &str, b: &str) -> (r: bool)
        ensures
            r == name_lt(a@, b@),
    {
        let la = a.unicode_len();
        let lb = b.unicode_len();
        let mut i: usize = 0;
        proof {
            assert(a@.skip(0) =~= a@);
            assert(b@.skip(0) =~= b@);
        }
        while i < la && i < lb
            invariant
                la == a@.len(),
                lb == b@.len(),
                i <= la,
                i <= lb,
                name_lt(a@, b@) == name_lt(a@.skip(i as int), b@.skip(i as int)),
            decreases la - i,
        {
            let ca = a.get_char(i);
            let cb = b.get_char(i);
            proof {
                let sa = a@.skip(i as int);
                let sb = b@.skip(i as int);
                assert(sa[0] == ca);
                assert(sb[0] == cb);
                assert(sa.drop_first() =~= a@.skip(i + 1));
                assert(sb.drop_first() =~= b@.skip(i + 1));
            }
            if ca != cb {
                return (ca as u32) < (cb as u32);
            }
            i += 1;
        }
        proof {
            let sa = a@.skip(i as int);
            let sb = b@.skip(i as int);
            assert(sa.len() == la - i);
            assert(sb.len() == lb - i);
        }
        i == la && i < lb
    }

    /// An empty set.
    pub fn new() -> (r: NameSet)
        ensures
            r@ == Set::<Seq<char>>::empty(),
    {
        let r = NameSet { names: Vec::new() };
        proof {
            assert(r@ =~= Set::<Seq<char>>::empty());
        }
        r
    }

    /// Add a name.
    pub fn insert(&mut self, name: &str)
        ensures
            final(self)@ == old(self)@.insert(name@),
    {
        proof {
            use_type_invariant(&*self);
        }
        if self.contains(name) {
            proof {
                assert(self@.insert(name@) =~= self@);
            }
            return;
        }
        let ghost before = self.names@;
        let ghost nb = before.map_values(|s: String| s@);
        let mut pos: usize = 0;
        while pos < self.names.len() && Self::less(self.names[pos].as_str(), name)
            invariant
                pos <= before.len(),
                self.names@ == before,
                forall|k: int| 0 <= k < pos ==> name_lt((#[trigger] before[k])@, name@),
            decreases before.len() - pos,
        {
            pos += 1;
        }
        proof {
            assert(!nb.to_set().contains(name@));
            assert forall|k: int| pos <= k < before.len() implies name_lt(name@, (#[trigger] before[k])@) by {
                assert(nb[k] == before[k]@);
                if before[k]@ == name@ {
                    assert(nb.to_set().contains(name@));
                }
                lemma_name_lt_total(name@, before[k]@);
                if k > pos {
                    assert(name_lt(before[pos as int]@, before[k]@));
                    if name_lt(before[k]@, name@) {
                        lemma_name_lt_trans(before[pos as int]@, before[k]@, name@);
                    }
                    assert(!name_lt(before[pos as int]@, name@));
                }
            }
        }
        let mut names: Vec<String> = Vec::new();
        std::mem::swap(&mut names, &mut self.names);
        names.insert(pos, name.to_owned());
        proof {
            let nn = names@.map_values(|s: String| s@);
            assert(nn =~= nb.insert(pos as int, name@));
            assert forall|x: Seq<char>| nn.to_set().contains(x) <==> nb.to_set().insert(name@).contains(x) by {
                if nn.to_set().contains(x) {
                    let k = choose|k: int| 0 <= k < nn.len() && nn[k] == x;
                    if k < pos {
                        assert(nb[k] == x);
                    } else if k > pos {
                        assert(nb[k - 1] == x);
                    }
                }
                if nb.to_set().contains(x) {
                    let k = choose|k: int| 0 <= k < nb.len() && nb[k] == x;
                    if k < pos {
                        assert(nn[k] == x);
                    } else {
                        assert(nn[k + 1] == x);
                    }
                }
                if x == name@ {
                    assert(nn[pos as int] == x);
                }
            }
            assert(nn.to_set() =~= nb.to_set().insert(name@));
            assert forall|i: int, j: int| 0 <= i < j < names@.len() implies name_lt((#[trigger] names@[i])@, (
            #[trigger] names@[j])@) by {
                if j < pos {
                    assert(names@[i] == before[i] && names@[j] == before[j]);
                } else if j == pos {
                    assert(names@[i] == before[i]);
                } else if i < pos {
                    assert(names@[i] == before[i] && names@[j] == before[j - 1]);
                    lemma_name_lt_trans(before[i]@, name@, before[j - 1]@);
                } else if i == pos {
                    assert(names@[j] == before[j - 1]);
                } else {
                    assert(names@[i] == before[i - 1] && names@[j] == before[j - 1]);
                }
            }
            assert forall|i: int, j: int| 0 <= i < j < names@.len() implies (#[trigger] names@[i])@ != (
            #[trigger] names@[j])@ by {
                assert(name_lt(names@[i]@, names@[j]@));
                if names@[i]@ == names@[j]@ {
                    lemma_name_lt_irrefl(names@[i]@);
                }
            }
        }
        self.names = names;
    }

    /// Whether `name` is in the set.
    pub fn contains(&self, name: &str) -> (r: bool)
        ensures
            r == self@.contains(name@),
    {
        let key = name.to_owned();
        let ghost ns = self.names@.map_values(|s: String| s@);
        let mut i: usize = 0;
        while i < self.names.len()
            invariant
                0 <= i <= self.names@.len(),
                key@ == name@,
                ns == self.names@.map_values(|s: String| s@),
                forall|k: int| 0 <= k < i ==> (#[trigger] ns[k]) != name@,
            decreases self.names@.len() - i,
        {
            if self.names[i] == key {
                proof {
                    assert(ns[i as int] == name@);
                    assert(ns.to_set().contains(name@));
                }
                return true;
            }
            i += 1;
        }
        proof {
            if ns.to_set().contains(name@) {
                let k = choose|k: int| 0 <= k < ns.len() && ns[k] == name@;
                assert(ns[k] != name@);
            }
        }
        false
    }

    /// The number of names in the set.
    pub fn len(&self) -> (r: usize)
        ensures
            r == self@.len(),
    {
        proof {
            use_type_invariant(self);
            let ns = self.names@.map_values(|s: String| s@);
            assert(ns.no_duplicates()) by {
                assert forall|i: int, j: int| 0 <= i < ns.len() && 0 <= j < ns.len() && i != j implies ns[i]
                    != ns[j] by {
                    if i < j {
                        assert(self.names@[i]@ != self.names@[j]@);
                    } else {
                        assert(self.names@[j]@ != self.names@[i]@);
                    }
                }
            }
            ns.unique_seq_to_set();
        }
        self.names.len()
    }

    /// Whether the set is empty.
    pub fn is_empty(&self) -> (r: bool)
        ensures
            r == (self@.len() == 0),
    {
        self.len() == 0
    }

    /// The names, each once, in increasing order.
    pub fn names(&self) -> (r: &[String])
        ensures
            r@.map_values(|s: String| s@).to_set() == self@,
            forall|i: int, j: int| 0 <= i < j < r@.len() ==> name_lt((#[trigger] r@[i])@, (#[trigger] r@[j])@),
    {
        proof {
            use_type_invariant(self);
        }
        self.names.as_slice()
    }
}

} // verus!
