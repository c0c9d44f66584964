//! The hosts that are reached directly, without an upstream proxy.

use crate::text;
use vstd::prelude::*;

verus! {

/// A set of host names, kept in the order in which they were added.
pub struct BypassList {
    domains: Vec<String>,
}

/// Being another name than `domain`.
pub open spec fn other_than(domain: Seq<char>) -> spec_fn(Seq<char>) -> bool {
    |d: Seq<char>| d != domain
}

impl View for BypassList {
    type V = Set<Seq<char>>;

    open spec fn view(&self) -> Set<Seq<char>> {
        self.listed().to_set()
    }
}

impl BypassList {
    /// The names in the order in which they were added.
    pub closed spec fn listed(&self) -> Seq<Seq<char>> {
        text::texts(self.domains@)
    }

    /// No name is listed twice.
    #[verifier::type_invariant]
    pub open spec fn well_formed(&self) -> bool {
        self.listed().no_duplicates()
    }

    /// An empty list.
    pub fn new() -> (r: Self)
        ensures
            r.well_formed(),
            r@ == Set::<Seq<char>>::empty(),
            r.listed() == Seq::<Seq<char>>::empty(),
    {
        let r = BypassList { domains: Vec::new() };
        assert(r.listed() =~= Seq::empty());
        assert(r@ =~= Set::empty());
        r
    }

    /// Where `domain` stands in the list, if it does.
    fn position(&self, domain: &str) -> (r: Option<usize>)
        ensures
            match r {
                Some(i) => i < self.listed().len() && self.listed()[i as int] == domain@,
                None => !self.listed().contains(domain@),
            },
    {
        let mut i: usize = 0;
        while i < self.domains.len()
            invariant
                i <= self.domains@.len(),
                forall|j: int| 0 <= j < i ==> #[trigger] self.listed()[j] != domain@,
            decreases self.domains@.len() - i,
        {
            if text::same_text(self.domains[i].as_str(), domain) {
                return Some(i);
            }
            i = i + 1;
        }
        None
    }

    /// Whether `domain` is on the list.
    pub fn contains(&self, domain: &str) -> (r: bool)
        ensures
            r == self@.contains(domain@),
    {
        match self.position(domain) {
            Some(i) => {
                assert(self.listed()[i as int] == domain@);
                true
            },
            None => false,
        }
    }

    /// Puts `domain` on the list; says whether it was not there before.
    pub fn insert(&mut self, domain: String) -> (r: bool)
        ensures
            final(self)@ == old(self)@.insert(domain@),
            r == !old(self)@.contains(domain@),
            final(self).listed() == if old(self)@.contains(domain@) {
                old(self).listed()
            } else {
                old(self).listed().push(domain@)
            },
            final(self).well_formed(),
    {
        proof {
            use_type_invariant(&*self);
        }
        if self.contains(domain.as_str()) {
            assert(self@ =~= self@.insert(domain@));
            return false;
        }
        let ghost before = self.listed();
        let mut domains: Vec<String> = Vec::new();
        assert(text::texts(domains@) =~= Seq::empty());
        std::mem::swap(&mut self.domains, &mut domains);
        domains.push(domain);
        let ghost after = text::texts(domains@);
        proof {
            assert(after =~= before.push(domain@));
            assert forall|x: Seq<char>| after.contains(x) <==> before.contains(x) || x
                == domain@ by {
                if before.contains(x) {
                    let i = choose|i: int| 0 <= i < before.len() && before[i] == x;
                    assert(after[i] == x);
                }
                assert(after[before.len() as int] == domain@);
            }
            assert forall|i: int, j: int| 0 <= i < j < after.len() implies after[i]
                != after[j] by {
                if j == before.len() {
                    assert(before.contains(before[i]));
                }
            }
        }
        self.domains = domains;
        assert(self@ =~= old(self)@.insert(domain@));
        true
    }

    /// Takes `domain` off the list; says whether it was there.
    pub fn remove(&mut self, domain: &str) -> (r: bool)
        ensures
            final(self)@ == old(self)@.remove(domain@),
            r == old(self)@.contains(domain@),
            final(self).listed() == old(self).listed().filter(other_than(domain@)),
            final(self).well_formed(),
    {
        let ghost before = self.listed();
        let ghost other = other_than(domain@);
        let found = self.contains(domain);
        let mut kept: Vec<String> = Vec::new();
        let mut i: usize = 0;
        proof {
            reveal(Seq::filter);
            assert(before.take(0).filter(other) =~= Seq::empty());
        }
        while i < self.domains.len()
            invariant
                i <= self.domains@.len(),
                before == text::texts(self.domains@),
                other == other_than(domain@),
                text::texts(kept@) =~= before.take(i as int).filter(other),
            decreases self.domains@.len() - i,
        {
            let ghost kept_before = kept@;
            proof {
                reveal(Seq::filter);
                assert(before.take(i + 1).drop_last() =~= before.take(i as int));
                assert(before.take(i + 1).last() == self.domains@[i as int]@);
            }
            if !text::same_text(self.domains[i].as_str(), domain) {
                kept.push(self.domains[i].clone());
                assert(text::texts(kept@) =~= text::texts(kept_before).push(before[i as int]));
            }
            i = i + 1;
        }
        proof {
            use_type_invariant(&*self);
            assert(before.take(before.len() as int) =~= before);
            lemma_filter(before, other);
        }
        self.domains = kept;
        assert(self@ =~= old(self)@.remove(domain@));
        found
    }

    /// The names on the list, in the order in which they were added.
    pub fn domains(&self) -> (r: &Vec<String>)
        ensures
            text::texts(r@) == self.listed(),
            self.well_formed(),
    {
        proof {
            use_type_invariant(self);
        }
        &self.domains
    }
}

/// Filtering keeps a sequence as it is where all elements pass.
pub proof fn lemma_filter_all(s: Seq<Seq<char>>, p: spec_fn(Seq<char>) -> bool)
    requires
        forall|i: int| 0 <= i < s.len() ==> p(#[trigger] s[i]),
    ensures
        s.filter(p) == s,
    decreases s.len(),
{
    reveal(Seq::filter);
    if s.len() > 0 {
        let init = s.drop_last();
        assert forall|i: int| 0 <= i < init.len() implies p(#[trigger] init[i]) by {
            assert(init[i] == s[i]);
        }
        lemma_filter_all(init, p);
        assert(p(s[s.len() - 1]));
        assert(init.push(s.last()) =~= s);
    } else {
        assert(s.filter(p) =~= s);
    }
}

/// Filtering keeps the elements that pass, and makes no duplicates.
pub proof fn lemma_filter(s: Seq<Seq<char>>, p: spec_fn(Seq<char>) -> bool)
    ensures
        forall|x: Seq<char>| #[trigger] s.filter(p).contains(x) <==> s.contains(x) && p(x),
        s.no_duplicates() ==> s.filter(p).no_duplicates(),
    decreases s.len(),
{
    reveal(Seq::filter);
    if s.len() > 0 {
        let init = s.drop_last();
        let f = init.filter(p);
        let g = s.filter(p);
        lemma_filter(init, p);
        assert forall|x: Seq<char>| #[trigger] g.contains(x) <==> s.contains(x) && p(x) by {
            if s.contains(x) {
                let i = choose|i: int| 0 <= i < s.len() && s[i] == x;
                if i < init.len() {
                    assert(init[i] == x);
                }
            }
            if init.contains(x) {
                let i = choose|i: int| 0 <= i < init.len() && init[i] == x;
                assert(s[i] == x);
            }
            if f.contains(x) {
                let i = choose|i: int| 0 <= i < f.len() && f[i] == x;
                assert(g[i] == x);
            }
            if p(s.last()) {
                assert(g[f.len() as int] == s.last());
            }
        }
        if s.no_duplicates() {
            assert(init.no_duplicates());
            assert forall|i: int, j: int| 0 <= i < j < g.len() implies g[i] != g[j] by {
                if j == f.len() {
                    assert(f.contains(f[i]));
                    let k = choose|k: int| 0 <= k < init.len() && init[k] == f[i];
                    assert(s[k] == f[i]);
                }
            }
        }
    }
}

} // verus!
