//! A set of font names kept in ascending order, the order in which
//! `Vec<String>::sort` puts them (byte order of UTF-8, which is the order of
//! code points).
use vstd::prelude::*;
use crate::text::{views, string_of};

verus! {

/// Lexicographic order of texts, comparing chars by code point.
pub open spec fn text_lt(a: Seq<char>, b: Seq<char>) -> bool
    decreases a.len(),
{
    if a.len() == 0 {
        b.len() > 0
    } else if b.len() == 0 {
        false
    } else if a[0] != b[0] {
        (a[0] as int) < (b[0] as int)
    } else {
        text_lt(a.drop_first(), b.drop_first())
    }
}

/// No text is before itself.
pub proof fn lemma_text_lt_irreflexive(a: Seq<char>)
    ensures
        !text_lt(a, a),
    decreases a.len(),
{
    if a.len() > 0 {
        lemma_text_lt_irreflexive(a.drop_first());
    }
}

/// Of two different texts, exactly one is before the other.
pub proof fn lemma_text_lt_total(a: Seq<char>, b: Seq<char>)
    ensures
        a != b ==> text_lt(a, b) || text_lt(b, a),
        !(text_lt(a, b) && text_lt(b, a)),
    decreases a.len(),
{
    if a.len() > 0 && b.len() > 0 {
        if a[0] == b[0] {
            lemma_text_lt_total(a.drop_first(), b.drop_first());
            if a != b {
                assert(a.drop_first() != b.drop_first()) by {
                    if a.drop_first() == b.drop_first() {
                        assert(a =~= seq![a[0]] + a.drop_first());
                        assert(b =~= seq![b[0]] + b.drop_first());
                    }
                }
            }
        }
    } else if a.len() == 0 && b.len() == 0 {
        assert(a =~= b);
    }
}

/// The order is transitive.
pub proof fn lemma_text_lt_transitive(a: Seq<char>, b: Seq<char>, c: Seq<char>)
    requires
        text_lt(a, b),
        text_lt(b, c),
    ensures
        text_lt(a, c),
    decreases a.len(),
{
    if a.len() > 0 && b.len() > 0 && c.len() > 0 && a[0] == b[0] && b[0] == c[0] {
        lemma_text_lt_transitive(a.drop_first(), b.drop_first(), c.drop_first());
    }
}

/// Whether `a` comes before `b` in text order.
pub fn text_less(a: &Vec<char>, b: &Vec<char>) -> (r: bool)
    ensures
        r == text_lt(a@, b@),
{
    let mut i: usize = 0;
    assert(a@.skip(0) =~= a@);
    assert(b@.skip(0) =~= b@);
    while i < a.len() && i < b.len()
        invariant
            i <= a.len(),
            i <= b.len(),
            text_lt(a@, b@) == text_lt(a@.skip(i as int), b@.skip(i as int)),
        decreases a.len() - i,
    {
        if a[i] != b[i] {
            return a[i] < b[i];
        }
        assert(a@.skip(i as int).drop_first() =~= a@.skip(i + 1));
        assert(b@.skip(i as int).drop_first() =~= b@.skip(i + 1));
        i += 1;
    }
    i == a.len() && i < b.len()
}

/// The texts are in strictly ascending order.
pub open spec fn strictly_ascending(v: Seq<Seq<char>>) -> bool {
    forall|i: int, j: int| 0 <= i < j < v.len() ==> text_lt(v[i], v[j])
}

/// `v` lists the members of `s` once each, in ascending order.
pub open spec fn lists_in_order(v: Seq<Seq<char>>, s: Set<Seq<char>>) -> bool {
    &&& strictly_ascending(v)
    &&& forall|x: Seq<char>| #[trigger] s.contains(x) <==> v.contains(x)
}

/// The views of a sequence of strings.
pub open spec fn string_views(v: Seq<String>) -> Seq<Seq<char>> {
    v.map_values(|s: String| s@)
}

/// The ascending listing of a set is unique: a contract stated with
/// `lists_in_order` pins the result down.
pub proof fn lemma_listing_unique(v: Seq<Seq<char>>, w: Seq<Seq<char>>, s: Set<Seq<char>>)
    requires
        lists_in_order(v, s),
        lists_in_order(w, s),
    ensures
        v == w,
    decreases v.len() + w.len(),
{
    if v.len() > 0 && w.len() > 0 {
        assert(s.contains(v[0]));
        assert(s.contains(w[0]));
        let k = choose|k: int| 0 <= k < w.len() && w[k] == v[0];
        let m = choose|m: int| 0 <= m < v.len() && v[m] == w[0];
        if k > 0 {
            assert(text_lt(w[0], w[k]));
            if m > 0 {
                assert(text_lt(v[0], v[m]));
                lemma_text_lt_total(v[0], w[0]);
            } else {
                lemma_text_lt_irreflexive(w[0]);
            }
        }
        assert(w[0] == v[0]);
        let s2 = s.remove(v[0]);
        assert forall|x: Seq<char>| #[trigger] s2.contains(x) <==> v.drop_first().contains(x) by {
            if v.contains(x) && x != v[0] {
                let i = choose|i: int| 0 <= i < v.len() && v[i] == x;
                assert(v.drop_first()[i - 1] == x);
            }
            if v.drop_first().contains(x) {
                let i = choose|i: int| 0 <= i < v.drop_first().len() && v.drop_first()[i] == x;
                assert(v[i + 1] == x);
                assert(text_lt(v[0], v[i + 1]));
                lemma_text_lt_irreflexive(x);
            }
        }
        assert forall|x: Seq<char>| #[trigger] s2.contains(x) <==> w.drop_first().contains(x) by {
            if w.contains(x) && x != w[0] {
                let i = choose|i: int| 0 <= i < w.len() && w[i] == x;
                assert(w.drop_first()[i - 1] == x);
            }
            if w.drop_first().contains(x) {
                let i = choose|i: int| 0 <= i < w.drop_first().len() && w.drop_first()[i] == x;
                assert(w[i + 1] == x);
                assert(text_lt(w[0], w[i + 1]));
                lemma_text_lt_irreflexive(x);
            }
        }
        lemma_listing_unique(v.drop_first(), w.drop_first(), s2);
        assert(v =~= seq![v[0]] + v.drop_first());
        assert(w =~= seq![w[0]] + w.drop_first());
    } else if v.len() > 0 {
        assert(s.contains(v[0]));
    } else if w.len() > 0 {
        assert(s.contains(w[0]));
    } else {
        assert(v =~= w);
    }
}

/// A set of font names. Each name is held once, and the names are kept in
/// ascending text order.
pub struct FontSet {
    names: Vec<Vec<char>>,
}

impl FontSet {
    /// The names, in ascending order.
    pub closed spec fn listing(&self) -> Seq<Seq<char>> {
        views(self.names@)
    }

    #[verifier::type_invariant]
    spec fn ascending(&self) -> bool {
        strictly_ascending(self.listing())
    }
}

impl View for FontSet {
    type V = Set<Seq<char>>;

    closed spec fn view(&self) -> Set<Seq<char>> {
        self.listing().to_set()
    }
}

impl FontSet {
    /// An empty set.
    pub fn new() -> (r: FontSet)
        ensures
            r@ == Set::<Seq<char>>::empty(),
    {
        let r = FontSet { names: Vec::new() };
        assert(r@ =~= Set::<Seq<char>>::empty());
        r
    }

    /// Adds a name; returns whether it was not there before.
    pub fn insert(&mut self, name: Vec<char>) -> (added: bool)
        ensures
            final(self)@ == old(self)@.insert(name@),
            added == !old(self)@.contains(name@),
    {
        proof {
            use_type_invariant(&*self);
        }
        let ghost old_list = self.listing();
        let mut i: usize = 0;
        while i < self.names.len() && text_less(&self.names[i], &name)
            invariant
                i <= self.names.len(),
                old_list == views(self.names@),
                strictly_ascending(old_list),
                forall|j: int| 0 <= j < i ==> text_lt(old_list[j], name@),
            decreases self.names.len() - i,
        {
            i += 1;
        }
        if i < self.names.len() && crate::text::eq_chars(&self.names[i], &name) {
            assert(old_list[i as int] == name@);
            assert(self@ =~= old(self)@.insert(name@));
            return false;
        }
        proof {
            if old_list.contains(name@) {
                let k = choose|k: int| 0 <= k < old_list.len() && old_list[k] == name@;
                if k < i {
                    lemma_text_lt_irreflexive(name@);
                } else if k > i {
                    assert(text_lt(old_list[i as int], old_list[k]));
                } else {
                    assert(old_list[i as int] == name@);
                }
                lemma_text_lt_total(old_list[i as int], name@);
            }
            assert(!old(self)@.contains(name@));
            if i < old_list.len() {
                lemma_text_lt_total(old_list[i as int], name@);
                assert(text_lt(name@, old_list[i as int]));
            }
        }
        let ghost x = name@;
        let mut names = Vec::new();
        std::mem::swap(&mut names, &mut self.names);
        names.insert(i, name);
        let ghost new_list = views(names@);
        proof {
            assert(new_list =~= old_list.insert(i as int, x));
            assert forall|a: int, b: int| 0 <= a < b < new_list.len() implies text_lt(
                new_list[a],
                new_list[b],
            ) by {
                if b < i {
                } else if b == i {
                } else if a < i {
                } else if a == i {
                    if b - 1 > i {
                        assert(text_lt(old_list[i as int], old_list[b - 1]));
                        lemma_text_lt_transitive(x, old_list[i as int], old_list[b - 1]);
                    }
                } else {
                }
            }
            assert forall|y: Seq<char>| #[trigger] new_list.contains(y) <==> old_list.contains(y)
                || y == x by {
                if old_list.contains(y) {
                    let k = choose|k: int| 0 <= k < old_list.len() && old_list[k] == y;
                    if k < i {
                        assert(new_list[k] == y);
                    } else {
                        assert(new_list[k + 1] == y);
                    }
                }
                if y == x {
                    assert(new_list[i as int] == y);
                }
                if new_list.contains(y) {
                    let k = choose|k: int| 0 <= k < new_list.len() && new_list[k] == y;
                    if k < i {
                        assert(old_list[k] == y);
                    } else if k > i {
                        assert(old_list[k - 1] == y);
                    }
                }
            }
        }
        self.names = names;
        assert(self@ =~= old(self)@.insert(x));
        true
    }

    /// Whether the set holds no name.
    pub fn is_empty(&self) -> (r: bool)
        ensures
            r == (self@ == Set::<Seq<char>>::empty()),
    {
        proof {
            if self.listing().len() > 0 {
                assert(self@.contains(self.listing()[0]));
            } else {
                assert(self@ =~= Set::<Seq<char>>::empty());
            }
        }
        self.names.len() == 0
    }

    /// The number of names.
    pub fn len(&self) -> (r: usize)
        ensures
            r == self@.len(),
    {
        proof {
            use_type_invariant(self);
            let l = self.listing();
            assert forall|i: int, j: int|
                (0 <= i < l.len() && 0 <= j < l.len() && i != j) implies l[i] != l[j] by {
                if i < j {
                    assert(text_lt(l[i], l[j]));
                } else {
                    assert(text_lt(l[j], l[i]));
                }
                lemma_text_lt_irreflexive(l[i]);
            }
            l.unique_seq_to_set();
        }
        self.names.len()
    }

    /// The names as strings, in ascending order.
    pub fn to_vec(&self) -> (r: Vec<String>)
        ensures
            lists_in_order(string_views(r@), self@),
    {
        proof {
            use_type_invariant(self);
        }
        let mut r: Vec<String> = Vec::new();
        let mut i: usize = 0;
        while i < self.names.len()
            invariant
                i <= self.names.len(),
                string_views(r@) == self.listing().take(i as int),
            decreases self.names.len() - i,
        {
            let s = string_of(&self.names[i]);
            let ghost before = string_views(r@);
            r.push(s);
            assert(string_views(r@) =~= before.push(s@));
            assert(self.listing().take(i + 1) =~= self.listing().take(i as int).push(
                self.listing()[i as int],
            ));
            i += 1;
        }
        assert(self.listing().take(self.names.len() as int) =~= self.listing());
        r
    }
}

} // verus!
