use vstd::prelude::*;
use vstd::seq_lib::to_multiset_contains;
use vstd::set_lib::lemma_len_subset;

use crate::clauses::{
    clausification_is_faithful, clause_literals, literal_holds, literals, negated, satisfied, Clause,
    ClausePart, Literal,
};
use crate::propositions::{copy_proposition, eval, not, Proposition};
use crate::literal_index::{index_entries, index_get, index_insert, new_index, IndexKey, LiteralIndex};

verus! {

/// The literals of a clause, as a set.
pub open spec fn clause_set(c: Clause) -> Set<Literal> {
    c@.to_set()
}

/// The literal sets of a sequence of clauses.
pub open spec fn clause_sets(cs: Seq<Clause>) -> Set<Set<Literal>> {
    Set::new(|s: Set<Literal>| exists|i: int| 0 <= i < cs.len() && #[trigger] clause_set(cs[i]) == s)
}

/// The resolvent of `a` and `b` on the literal `l` of `a`: what remains of
/// `a` without `l` together with what remains of `b` without its negation.
pub open spec fn resolvent(a: Set<Literal>, b: Set<Literal>, l: Literal) -> Set<Literal> {
    a.remove(l).union(b.remove(negated(l)))
}

/// `acc` followed by the literals of `s` other than `skip` that are not
/// already there, each at its first occurrence, in the order of `s`.
pub open spec fn append_new(acc: Seq<Literal>, s: Seq<Literal>, skip: Literal) -> Seq<Literal>
    decreases s.len(),
{
    if s.len() == 0 {
        acc
    } else {
        let before = append_new(acc, s.drop_last(), skip);
        if s.last() == skip || before.contains(s.last()) {
            before
        } else {
            before.push(s.last())
        }
    }
}

/// The parts of the resolvent of `a` and `b` on `l`, in order: those of `a`
/// other than `l`, then those of `b` other than the negation of `l` that are
/// new, each once.
pub open spec fn combined(a: Seq<Literal>, b: Seq<Literal>, l: Literal) -> Seq<Literal> {
    append_new(append_new(Seq::empty(), a, l), b, negated(l))
}

proof fn lemma_push_contains<A>(s: Seq<A>, x: A, y: A)
    ensures
        s.push(x).contains(y) == (s.contains(y) || y == x),
{
    if s.contains(y) {
        let t = choose|t: int| 0 <= t < s.len() && s[t] == y;
        assert(s.push(x)[t] == y);
    }
    if y == x {
        assert(s.push(x)[s.len() as int] == y);
    }
    if s.push(x).contains(y) {
        let t = choose|t: int| 0 <= t < s.push(x).len() && s.push(x)[t] == y;
        if t < s.len() {
            assert(s[t] == y);
        }
    }
}

proof fn lemma_literals_push(s: Seq<ClausePart>, p: ClausePart)
    ensures
        literals(s.push(p)) == literals(s).push(p@),
{
    assert(literals(s.push(p)) =~= literals(s).push(p@));
}

proof fn lemma_index_of_unique<A>(s: Seq<A>, i: int)
    requires
        s.no_duplicates(),
        0 <= i < s.len(),
    ensures
        s.index_of(s[i]) == i,
{
    assert(s.contains(s[i]));
}

/// Whether the literal of `p` occurs in `parts`.
fn contains_part(parts: &Vec<ClausePart>, p: &ClausePart) -> (r: bool)
    ensures
        r == literals(parts@).contains(p@),
{
    let mut i: usize = 0;
    while i < parts.len()
        invariant
            i <= parts.len(),
            forall|t: int| 0 <= t < i ==> literals(parts@)[t] != p@,
        decreases parts.len() - i,
    {
        if parts[i] == *p {
            assert(literals(parts@)[i as int] == p@);
            return true;
        }
        i = i + 1;
    }
    false
}

/// Whether every literal of `a` occurs in `b`.
fn all_in(a: &Clause, b: &Clause) -> (r: bool)
    ensures
        r == (forall|t: int| 0 <= t < a@.len() ==> b@.contains(#[trigger] a@[t])),
{
    let mut i: usize = 0;
    while i < a.parts.len()
        invariant
            i <= a.parts.len(),
            forall|t: int| 0 <= t < i ==> b@.contains(#[trigger] a@[t]),
        decreases a.parts.len() - i,
    {
        if !contains_part(&b.parts, &a.parts[i]) {
            assert(a@[i as int] == a.parts@[i as int]@);
            return false;
        }
        i = i + 1;
    }
    true
}

/// Whether the two clauses hold the same literals.
fn same_literals(a: &Clause, b: &Clause) -> (r: bool)
    ensures
        r == (clause_set(*a) == clause_set(*b)),
{
    let ab = all_in(a, b);
    let ba = all_in(b, a);
    proof {
        if ab && ba {
            assert forall|x: Literal| clause_set(*a).contains(x) == clause_set(*b).contains(x) by {
                if a@.contains(x) {
                    let t = choose|t: int| 0 <= t < a@.len() && a@[t] == x;
                    assert(b@.contains(a@[t]));
                }
                if b@.contains(x) {
                    let t = choose|t: int| 0 <= t < b@.len() && b@[t] == x;
                    assert(a@.contains(b@[t]));
                }
            }
            assert(clause_set(*a) =~= clause_set(*b));
        } else if !ab {
            let t = choose|t: int| 0 <= t < a@.len() && !b@.contains(#[trigger] a@[t]);
            assert(clause_set(*a).contains(a@[t]));
        } else {
            let t = choose|t: int| 0 <= t < b@.len() && !a@.contains(#[trigger] b@[t]);
            assert(clause_set(*b).contains(b@[t]));
        }
    }
    ab && ba
}

/// Whether a clause with the literals of `c` is among `cs`.
fn contains_clause(cs: &Vec<Clause>, c: &Clause) -> (r: bool)
    ensures
        r == clause_sets(cs@).contains(clause_set(*c)),
{
    let mut i: usize = 0;
    while i < cs.len()
        invariant
            i <= cs.len(),
            forall|t: int| 0 <= t < i ==> clause_set(#[trigger] cs@[t]) != clause_set(*c),
        decreases cs.len() - i,
    {
        if same_literals(&cs[i], c) {
            assert(clause_set(cs@[i as int]) == clause_set(*c));
            return true;
        }
        i = i + 1;
    }
    false
}

/// The resolvent of `a` and `b` on the literal `pivot` of `a`: the literals
/// of `a` other than `pivot` and those of `b` other than its negation, each
/// once.
pub fn combine(a: &Clause, b: &Clause, pivot: &ClausePart) -> (r: Clause)
    ensures
        r@ == combined(a@, b@, pivot@),
        r@.no_duplicates(),
        clause_set(r) == resolvent(clause_set(*a), clause_set(*b), pivot@),
        forall|x: Literal| #[trigger] r@.to_multiset().count(x) == if resolvent(
            clause_set(*a),
            clause_set(*b),
            pivot@,
        ).contains(x) {
            1nat
        } else {
            0nat
        },
{
    let other = pivot.negate();
    let mut parts: Vec<ClausePart> = Vec::new();
    let mut i: usize = 0;
    while i < a.parts.len()
        invariant
            other@ == negated(pivot@),
            i <= a.parts.len(),
            literals(parts@) == append_new(Seq::empty(), a@.take(i as int), pivot@),
            literals(parts@).no_duplicates(),
            forall|x: Literal| literals(parts@).contains(x) <==> (x != pivot@ && exists|t: int|
                0 <= t < i && #[trigger] a@[t] == x),
        decreases a.parts.len() - i,
    {
        let p = &a.parts[i];
        proof {
            assert(a@.take(i + 1).drop_last() =~= a@.take(i as int));
            assert(a@.take(i + 1).last() == p@);
        }
        if !(*p == *pivot) && !contains_part(&parts, p) {
            let q = p.duplicate();
            proof {
                lemma_literals_push(parts@, q);
                assert forall|x: Literal| literals(parts@).push(q@).contains(x) <==> (x != pivot@ && exists|t: int|
                    0 <= t < i + 1 && #[trigger] a@[t] == x) by {
                    lemma_push_contains(literals(parts@), q@, x);
                    if x == q@ {
                        assert(a@[i as int] == x);
                    }
                }
            }
            parts.push(q);
        } else {
            proof {
                assert forall|x: Literal| literals(parts@).contains(x) <==> (x != pivot@ && exists|t: int|
                    0 <= t < i + 1 && #[trigger] a@[t] == x) by {
                    if x != pivot@ && a@[i as int] == x {
                        assert(literals(parts@).contains(x));
                    }
                }
            }
        }
        i = i + 1;
    }
    assert(a@.take(i as int) =~= a@);
    let mut k: usize = 0;
    while k < b.parts.len()
        invariant
            other@ == negated(pivot@),
            i == a.parts.len(),
            k <= b.parts.len(),
            literals(parts@) == append_new(append_new(Seq::empty(), a@, pivot@), b@.take(k as int), negated(pivot@)),
            literals(parts@).no_duplicates(),
            forall|x: Literal| literals(parts@).contains(x) <==> ((x != pivot@ && exists|t: int|
                0 <= t < a@.len() && #[trigger] a@[t] == x) || (x != negated(pivot@) && exists|t: int|
                0 <= t < k && #[trigger] b@[t] == x)),
        decreases b.parts.len() - k,
    {
        let p = &b.parts[k];
        proof {
            assert(b@.take(k + 1).drop_last() =~= b@.take(k as int));
            assert(b@.take(k + 1).last() == p@);
        }
        if !(*p == other) && !contains_part(&parts, p) {
            let q = p.duplicate();
            proof {
                lemma_literals_push(parts@, q);
                assert forall|x: Literal| literals(parts@).push(q@).contains(x) <==> ((x != pivot@ && exists|t: int|
                    0 <= t < a@.len() && #[trigger] a@[t] == x) || (x != negated(pivot@) && exists|t: int|
                    0 <= t < k + 1 && #[trigger] b@[t] == x)) by {
                    lemma_push_contains(literals(parts@), q@, x);
                    if x == q@ {
                        assert(b@[k as int] == x);
                    }
                }
            }
            parts.push(q);
        } else {
            proof {
                assert forall|x: Literal| literals(parts@).contains(x) <==> ((x != pivot@ && exists|t: int|
                    0 <= t < a@.len() && #[trigger] a@[t] == x) || (x != negated(pivot@) && exists|t: int|
                    0 <= t < k + 1 && #[trigger] b@[t] == x)) by {
                    if x != negated(pivot@) && b@[k as int] == x {
                        assert(literals(parts@).contains(x));
                    }
                }
            }
        }
        k = k + 1;
    }
    assert(b@.take(k as int) =~= b@);
    let r = Clause { parts };
    proof {
        assert forall|x: Literal| clause_set(r).contains(x) == resolvent(clause_set(*a), clause_set(*b), pivot@).contains(x) by {
            if a@.contains(x) {
                let t = choose|t: int| 0 <= t < a@.len() && a@[t] == x;
                assert(a@[t] == x);
            }
            if b@.contains(x) {
                let t = choose|t: int| 0 <= t < b@.len() && b@[t] == x;
                assert(b@[t] == x);
            }
        }
        assert(clause_set(r) =~= resolvent(clause_set(*a), clause_set(*b), pivot@));
        r@.lemma_multiset_has_no_duplicates();
        assert forall|x: Literal| #[trigger] r@.to_multiset().count(x) == if clause_set(r).contains(x) {
            1nat
        } else {
            0nat
        } by {
            to_multiset_contains(r@, x);
        }
    }
    r
}

/// The clauses of a search in insertion order, the names of their atoms, and
/// an inverted index from each literal to the positions of the clauses that
/// hold it.
struct ClauseStorage {
    atoms: Vec<String>,
    lookup_table: LiteralIndex,
    clauses: Vec<Clause>,
}

/// The name and polarity of a clause part.
fn name_of(p: &ClausePart) -> (r: (&String, bool))
    ensures
        (r.0@, r.1) == p@,
{
    match p {
        ClausePart::Term(s) => (s, false),
        ClausePart::NegatedTerm(s) => (s, true),
    }
}

impl ClauseStorage {
    /// The names of the atoms; the position of a name is its number.
    spec fn names(&self) -> Seq<Seq<char>> {
        self.atoms@.map_values(|s: String| s@)
    }

    /// The index key of a literal over a known atom.
    spec fn key(&self, l: Literal) -> IndexKey {
        (self.names().index_of(l.0) as usize, l.1)
    }

    spec fn entries(&self) -> Map<IndexKey, Seq<usize>> {
        index_entries(self.lookup_table)
    }

    /// Every literal over the known atoms.
    spec fn universe(&self) -> Set<Literal> {
        Set::new(|l: Literal| self.names().contains(l.0))
    }

    proof fn lemma_universe(&self)
        requires
            self.wf(),
        ensures
            self.universe().finite(),
            forall|j: int| 0 <= j < self.clauses.len() ==> clause_set(#[trigger] self.clauses[j]).subset_of(self.universe()),
    {
        let names = self.names();
        let f = |n: Seq<char>| (n, false);
        let g = |n: Seq<char>| (n, true);
        let both = names.to_set().map(f).union(names.to_set().map(g));
        names.to_set().lemma_map_finite(f);
        names.to_set().lemma_map_finite(g);
        assert forall|l: Literal| self.universe().contains(l) implies both.contains(l) by {
            assert(names.to_set().contains(l.0));
            if l.1 {
                assert(g(l.0) == l);
            } else {
                assert(f(l.0) == l);
            }
        }
        lemma_len_subset(self.universe(), both);
        assert forall|j: int| 0 <= j < self.clauses.len() implies clause_set(#[trigger] self.clauses[j]).subset_of(self.universe()) by {
            assert forall|l: Literal| clause_set(self.clauses[j]).contains(l) implies self.universe().contains(l) by {
                let k = choose|k: int| 0 <= k < self.clauses[j]@.len() && self.clauses[j]@[k] == l;
                assert(self.indexed(self.clauses[j]@[k], j));
            }
        }
    }

    /// The literal `l` is known by its name and listed with position `j`.
    spec fn indexed(&self, l: Literal, j: int) -> bool {
        &&& self.names().contains(l.0)
        &&& self.entries().contains_key(self.key(l))
        &&& self.entries()[self.key(l)].contains(j as usize)
    }

    /// The index entry `key` may list the position `j` of `c`, the clause about
    /// to be appended, or of a stored clause.
    spec fn lists(&self, key: IndexKey, j: usize, c: Seq<Literal>) -> bool {
        &&& key.0 < self.names().len()
        &&& j <= self.clauses.len()
        &&& (if j < self.clauses.len() { self.clauses[j as int]@ } else { c }).contains(
            (self.names()[key.0 as int], key.1),
        )
    }

    /// The store's invariant while the clause `c` is being appended: atom
    /// names are distinct, every literal of a stored clause is indexed, every
    /// index entry names a stored clause, or `c`, holding its literal, and
    /// lists its positions in strictly ascending order.
    spec fn wf_pending(&self, c: Seq<Literal>) -> bool {
        &&& self.names().no_duplicates()
        &&& forall|j: int, k: int|
            0 <= j < self.clauses.len() && 0 <= k < self.clauses[j]@.len() ==> self.indexed(
                #[trigger] self.clauses[j]@[k],
                j,
            )
        &&& forall|key: IndexKey, t: int|
            self.entries().contains_key(key) && 0 <= t < self.entries()[key].len() ==> self.lists(
                key,
                #[trigger] self.entries()[key][t],
                c,
            )
        &&& forall|key: IndexKey, t1: int, t2: int|
            self.entries().contains_key(key) && 0 <= t1 < t2 < self.entries()[key].len()
                ==> #[trigger] self.entries()[key][t1] < #[trigger] self.entries()[key][t2]
    }

    /// Every literal of every clause is listed under its key, and the index
    /// lists nothing else, each entry in ascending order of position; so the
    /// entry of a literal is exactly the ascending positions of the clauses
    /// that hold it.
    spec fn wf(&self) -> bool {
        self.wf_pending(Seq::empty())
    }

    fn new() -> (r: ClauseStorage)
        ensures
            r.wf(),
            r.clauses@ == Seq::<Clause>::empty(),
    {
        ClauseStorage { atoms: Vec::new(), lookup_table: new_index(), clauses: Vec::new() }
    }

    /// The number of the atom `name`, if it is known.
    fn find_atom(&self, name: &String) -> (r: Option<usize>)
        ensures
            match r {
                Some(i) => i < self.atoms.len() && self.names()[i as int] == name@,
                None => !self.names().contains(name@),
            },
    {
        let mut i: usize = 0;
        while i < self.atoms.len()
            invariant
                i <= self.atoms.len(),
                forall|t: int| 0 <= t < i ==> self.names()[t] != name@,
            decreases self.atoms.len() - i,
        {
            if self.atoms[i] == *name {
                return Some(i);
            }
            i = i + 1;
        }
        None
    }

    /// The number of the atom `name`, which is added when it is new.
    fn intern(&mut self, name: &String) -> (r: usize)
        requires
            old(self).names().no_duplicates(),
        ensures
            final(self).names().no_duplicates(),
            final(self).names() == old(self).names() || final(self).names() == old(self).names().push(name@),
            r < final(self).names().len(),
            final(self).names()[r as int] == name@,
            final(self).lookup_table == old(self).lookup_table,
            final(self).clauses == old(self).clauses,
    {
        match self.find_atom(name) {
            Some(i) => i,
            None => {
                let i = self.atoms.len();
                self.atoms.push(name.clone());
                proof {
                    assert(self.names() =~= old(self).names().push(name@));
                }
                i
            },
        }
    }

    /// Appends `clause` and lists its position once under each of its
    /// literals; the entries of other literals keep their positions.
    fn put(&mut self, clause: Clause)
        requires
            old(self).wf(),
        ensures
            final(self).wf(),
            final(self).clauses@ == old(self).clauses@.push(clause),
            forall|key: IndexKey|
                #[trigger] old(self).entries().contains_key(key) && key.0 < old(self).names().len()
                    && !clause@.contains((old(self).names()[key.0 as int], key.1))
                    ==> final(self).entries().contains_key(key) && final(self).entries()[key] == old(self).entries()[key],
    {
        let n = self.clauses.len();
        let mut i: usize = 0;
        while i < clause.parts.len()
            invariant
                self.clauses@ == old(self).clauses@,
                n == self.clauses.len(),
                i <= clause.parts.len(),
                self.wf_pending(clause@),
                forall|k: int| 0 <= k < i ==> self.indexed(#[trigger] clause@[k], n as int),
                self.names().len() >= old(self).names().len(),
                forall|t: int| 0 <= t < old(self).names().len() ==> #[trigger] self.names()[t] == old(self).names()[t],
                forall|key: IndexKey|
                    #[trigger] old(self).entries().contains_key(key) && key.0 < old(self).names().len()
                        && !clause@.contains((old(self).names()[key.0 as int], key.1))
                        ==> self.entries().contains_key(key) && self.entries()[key] == old(self).entries()[key],
            decreases clause.parts.len() - i,
        {
            let (name, neg) = name_of(&clause.parts[i]);
            let ghost before = *self;
            let id = self.intern(name);
            let ghost mid = *self;
            let key0 = (id, neg);
            proof {
                let names = self.names();
                assert forall|l: Literal| before.names().contains(l.0) implies self.key(l) == before.key(l) && names.contains(l.0) by {
                    let t = before.names().index_of(l.0);
                    assert(names[t] == l.0);
                    lemma_index_of_unique(names, t);
                }
                lemma_index_of_unique(names, id as int);
                assert(mid.entries() == before.entries());
                assert(clause@[i as int] == (name@, neg));
                assert(self.key(clause@[i as int]) == key0);
                assert forall|j: int, k: int|
                    0 <= j < self.clauses.len() && 0 <= k < self.clauses[j]@.len() implies mid.indexed(
                        #[trigger] self.clauses[j]@[k], j) by {
                    assert(before.indexed(self.clauses[j]@[k], j));
                }
                assert forall|k: int| 0 <= k < i implies mid.indexed(#[trigger] clause@[k], n as int) by {
                    assert(before.indexed(clause@[k], n as int));
                }
                assert forall|key: IndexKey, t: int|
                    mid.entries().contains_key(key) && 0 <= t < mid.entries()[key].len() implies mid.lists(
                        key, #[trigger] mid.entries()[key][t], clause@) by {
                    assert(before.lists(key, before.entries()[key][t], clause@));
                    assert(mid.names()[key.0 as int] == before.names()[key.0 as int]);
                }
                assert forall|t: int| 0 <= t < old(self).names().len() implies #[trigger] mid.names()[t] == old(self).names()[t] by {
                    assert(before.names()[t] == old(self).names()[t]);
                }
                assert(clause@.contains((mid.names()[id as int], neg)));
            }
            let listed = match index_get(&self.lookup_table, key0) {
                Some(v) => v.len() > 0 && v[v.len() - 1] == n,
                None => false,
            };
            if !listed {
                index_insert(&mut self.lookup_table, key0, n);
                proof {
                    let old_entry = if mid.entries().contains_key(key0) {
                        mid.entries()[key0]
                    } else {
                        Seq::<usize>::empty()
                    };
                    assert(self.entries()[key0] == old_entry.push(n)) by {
                        if !mid.entries().contains_key(key0) {
                            assert(seq![n] =~= Seq::<usize>::empty().push(n));
                        }
                    }
                    assert forall|t: int| 0 <= t < old_entry.len() implies #[trigger] old_entry[t] < n by {
                        let last = old_entry.len() - 1;
                        assert(mid.lists(key0, mid.entries()[key0][last], clause@));
                        assert(old_entry[last] != n);
                        if t < last {
                            assert(mid.entries()[key0][t] < mid.entries()[key0][last]);
                        }
                    }
                    assert forall|l: Literal, j: int| #[trigger] mid.indexed(l, j) implies self.indexed(l, j) by {
                        if mid.key(l) == key0 {
                            lemma_push_contains(mid.entries()[key0], n, j as usize);
                        }
                    }
                    assert forall|j: int, k: int|
                        0 <= j < self.clauses.len() && 0 <= k < self.clauses[j]@.len() implies self.indexed(
                            #[trigger] self.clauses[j]@[k], j) by {
                        assert(mid.indexed(self.clauses[j]@[k], j));
                    }
                    assert forall|k: int| 0 <= k < i + 1 implies self.indexed(#[trigger] clause@[k], n as int) by {
                        if k < i {
                            assert(mid.indexed(clause@[k], n as int));
                        } else {
                            lemma_push_contains(old_entry, n, n);
                        }
                    }
                    assert forall|key: IndexKey, t: int|
                        self.entries().contains_key(key) && 0 <= t < self.entries()[key].len() implies self.lists(
                            key, #[trigger] self.entries()[key][t], clause@) by {
                        if key == key0 && t == old_entry.len() {
                            assert(self.entries()[key][t] == n);
                            assert(clause@[i as int] == (self.names()[key.0 as int], key.1));
                        } else {
                            assert(mid.entries()[key][t] == self.entries()[key][t]);
                            assert(mid.lists(key, mid.entries()[key][t], clause@));
                        }
                    }
                    assert forall|key: IndexKey, t1: int, t2: int|
                        self.entries().contains_key(key) && 0 <= t1 < t2 < self.entries()[key].len()
                            implies #[trigger] self.entries()[key][t1] < #[trigger] self.entries()[key][t2] by {
                        if key == key0 {
                            assert(self.entries()[key][t1] == old_entry[t1]);
                            if t2 < old_entry.len() {
                                assert(mid.entries()[key0][t1] < mid.entries()[key0][t2]);
                            }
                        } else {
                            assert(mid.entries()[key][t1] < mid.entries()[key][t2]);
                        }
                    }
                    assert forall|key: IndexKey|
                        #[trigger] old(self).entries().contains_key(key) && key.0 < old(self).names().len()
                            && !clause@.contains((old(self).names()[key.0 as int], key.1))
                            implies self.entries().contains_key(key) && self.entries()[key] == old(self).entries()[key] by {
                        if key == key0 {
                            assert(mid.names()[key.0 as int] == old(self).names()[key.0 as int]);
                        }
                    }
                }
            } else {
                proof {
                    let e = mid.entries()[key0];
                    assert(e[e.len() - 1] == n);
                    assert(e.contains(n));
                    assert(self.indexed(clause@[i as int], n as int));
                    assert forall|k: int| 0 <= k < i + 1 implies self.indexed(#[trigger] clause@[k], n as int) by {
                        if k == i {
                            assert(self.indexed(clause@[i as int], n as int));
                        }
                    }
                }
            }
            i = i + 1;
        }
        self.clauses.push(clause);
        proof {
            assert forall|j: int, k: int|
                0 <= j < self.clauses.len() && 0 <= k < self.clauses[j]@.len() implies self.indexed(
                    #[trigger] self.clauses[j]@[k], j) by {
                if j < n {
                    assert(self.clauses[j] == old(self).clauses[j]);
                }
            }
        }
    }

    /// The positions of the stored clauses that hold the literal `part` and
    /// whose literals are not those of a clause in `visited`, each once, in
    /// ascending order, which is the order of insertion.
    fn get(&self, part: &ClausePart, visited: &Vec<Clause>) -> (r: Vec<usize>)
        requires
            self.wf(),
        ensures
            forall|t: int| 0 <= t < r.len() ==> r[t] < self.clauses.len(),
            forall|t1: int, t2: int| 0 <= t1 < t2 < r.len() ==> r[t1] < r[t2],
            forall|j: usize| #[trigger] r@.contains(j) <==> (j < self.clauses.len()
                && self.clauses[j as int]@.contains(part@)
                && !clause_sets(visited@).contains(clause_set(self.clauses[j as int]))),
    {
        let (name, neg) = name_of(part);
        let mut r: Vec<usize> = Vec::new();
        let id = match self.find_atom(name) {
            Some(id) => id,
            None => {
                proof {
                    assert forall|j: usize| j < self.clauses.len() implies !self.clauses[j as int]@.contains(part@) by {
                        if self.clauses[j as int]@.contains(part@) {
                            let k = choose|k: int| 0 <= k < self.clauses[j as int]@.len() && self.clauses[j as int]@[k] == part@;
                            assert(self.indexed(self.clauses[j as int]@[k], j as int));
                        }
                    }
                }
                return r;
            },
        };
        proof {
            lemma_index_of_unique(self.names(), id as int);
            assert(self.key(part@) == (id, neg));
        }
        let ids = match index_get(&self.lookup_table, (id, neg)) {
            Some(ids) => ids,
            None => {
                proof {
                    assert forall|j: usize| j < self.clauses.len() implies !self.clauses[j as int]@.contains(part@) by {
                        if self.clauses[j as int]@.contains(part@) {
                            let k = choose|k: int| 0 <= k < self.clauses[j as int]@.len() && self.clauses[j as int]@[k] == part@;
                            assert(self.indexed(self.clauses[j as int]@[k], j as int));
                        }
                    }
                }
                return r;
            },
        };
        let mut t: usize = 0;
        while t < ids.len()
            invariant
                self.wf(),
                self.entries().contains_key((id, neg)),
                ids@ == self.entries()[(id, neg)],
                id < self.names().len(),
                self.names()[id as int] == part@.0,
                neg == part@.1,
                t <= ids.len(),
                forall|u: int| 0 <= u < r.len() ==> r[u] < self.clauses.len(),
                forall|u1: int, u2: int| 0 <= u1 < u2 < r.len() ==> r[u1] < r[u2],
                forall|j: usize| #[trigger] r@.contains(j) <==> (exists|u: int| 0 <= u < t && ids@[u] == j)
                    && !clause_sets(visited@).contains(clause_set(self.clauses[j as int])),
            decreases ids.len() - t,
        {
            let j = ids[t];
            assert(self.lists((id, neg), self.entries()[(id, neg)][t as int], Seq::empty()));
            if !contains_clause(visited, &self.clauses[j]) {
                proof {
                    assert forall|u: int| 0 <= u < r.len() implies #[trigger] r[u] < j by {
                        assert(r@.contains(r[u]));
                        let u2 = choose|u2: int| 0 <= u2 < t && ids@[u2] == r[u];
                        assert(self.entries()[(id, neg)][u2] < self.entries()[(id, neg)][t as int]);
                    }
                    assert forall|x: usize| #[trigger] r@.push(j).contains(x) <==> (exists|u: int| 0 <= u < t + 1 && ids@[u] == x)
                        && !clause_sets(visited@).contains(clause_set(self.clauses[x as int])) by {
                        lemma_push_contains(r@, j, x);
                        if x == j {
                            assert(ids@[t as int] == x);
                        }
                        if exists|u: int| 0 <= u < t + 1 && ids@[u] == x {
                            let u = choose|u: int| 0 <= u < t + 1 && ids@[u] == x;
                            if u < t {
                                assert(exists|u: int| 0 <= u < t && ids@[u] == x);
                            }
                        }
                    }
                }
                r.push(j);
            } else {
                proof {
                    assert forall|x: usize| #[trigger] r@.contains(x) <==> (exists|u: int| 0 <= u < t + 1 && ids@[u] == x)
                        && !clause_sets(visited@).contains(clause_set(self.clauses[x as int])) by {
                        if exists|u: int| 0 <= u < t + 1 && ids@[u] == x {
                            let u = choose|u: int| 0 <= u < t + 1 && ids@[u] == x;
                            if u < t {
                                assert(exists|u: int| 0 <= u < t && ids@[u] == x);
                            }
                        }
                    }
                }
            }
            t = t + 1;
        }
        proof {
            assert forall|j: usize| #[trigger] r@.contains(j) <==> (j < self.clauses.len()
                && self.clauses[j as int]@.contains(part@)
                && !clause_sets(visited@).contains(clause_set(self.clauses[j as int]))) by {
                if exists|u: int| 0 <= u < ids.len() && ids@[u] == j {
                    let u = choose|u: int| 0 <= u < ids.len() && ids@[u] == j;
                    assert(self.lists((id, neg), self.entries()[(id, neg)][u], Seq::empty()));
                }
                if j < self.clauses.len() && self.clauses[j as int]@.contains(part@) {
                    let k = choose|k: int| 0 <= k < self.clauses[j as int]@.len() && self.clauses[j as int]@[k] == part@;
                    assert(self.indexed(self.clauses[j as int]@[k], j as int));
                    assert(self.entries()[(id, neg)].contains(j));
                }
            }
        }
        r
    }
}

/// The search from `cur` follows `path` to the empty clause. Each step
/// resolves the current clause on its literal `path[i].0` with the stored
/// clause `path[i].1`, which holds the negation of that literal and is not
/// among the clauses visited on the way; each resolvent before the last is
/// non-empty and new, and joins the visited clauses; the last is empty.
pub open spec fn refutes_along(
    store: Set<Set<Literal>>,
    cur: Set<Literal>,
    visited: Set<Set<Literal>>,
    path: Seq<(Literal, Set<Literal>)>,
) -> bool
    decreases path.len(),
{
    if path.len() == 0 {
        false
    } else {
        let l = path[0].0;
        let m = path[0].1;
        let next = resolvent(cur, m, l);
        &&& cur.contains(l)
        &&& store.contains(m)
        &&& m.contains(negated(l))
        &&& !visited.contains(m)
        &&& if path.len() == 1 {
            next == Set::<Literal>::empty()
        } else {
            &&& next != Set::<Literal>::empty()
            &&& !visited.contains(next)
            &&& refutes_along(store, next, visited.insert(next), path.drop_first())
        }
    }
}

/// The search from `cur` derives the empty clause.
pub open spec fn refutable(store: Set<Set<Literal>>, cur: Set<Literal>, visited: Set<Set<Literal>>) -> bool {
    exists|path: Seq<(Literal, Set<Literal>)>| refutes_along(store, cur, visited, path)
}

spec fn no_refutation_via(
    store: Set<Set<Literal>>,
    cur: Set<Literal>,
    visited: Set<Set<Literal>>,
    l: Literal,
) -> bool {
    forall|path: Seq<(Literal, Set<Literal>)>|
        path.len() > 0 && path[0].0 == l ==> !#[trigger] refutes_along(store, cur, visited, path)
}

spec fn no_refutation_via_pair(
    store: Set<Set<Literal>>,
    cur: Set<Literal>,
    visited: Set<Set<Literal>>,
    l: Literal,
    m: Set<Literal>,
) -> bool {
    forall|path: Seq<(Literal, Set<Literal>)>|
        path.len() > 0 && path[0] == (l, m) ==> !#[trigger] refutes_along(store, cur, visited, path)
}

/// The sets of literals over `u`.
pub open spec fn subsets(u: Set<Literal>) -> Set<Set<Literal>> {
    Set::new(|s: Set<Literal>| s.subset_of(u))
}

proof fn lemma_subsets_finite(u: Set<Literal>)
    requires
        u.finite(),
    ensures
        subsets(u).finite(),
    decreases u.len(),
{
    if u.len() == 0 {
        assert(u =~= Set::<Literal>::empty());
        assert forall|s: Set<Literal>| subsets(u).contains(s) implies set![Set::<Literal>::empty()].contains(s) by {
            assert(s =~= Set::<Literal>::empty());
        }
        lemma_len_subset(subsets(u), set![Set::<Literal>::empty()]);
    } else {
        let a = u.choose();
        let w = u.remove(a);
        lemma_subsets_finite(w);
        let add_a = |s: Set<Literal>| s.insert(a);
        subsets(w).lemma_map_finite(add_a);
        let both = subsets(w).union(subsets(w).map(add_a));
        assert forall|s: Set<Literal>| subsets(u).contains(s) implies both.contains(s) by {
            if s.contains(a) {
                assert(s.remove(a).insert(a) =~= s);
                assert(subsets(w).contains(s.remove(a)));
            } else {
                assert(subsets(w).contains(s));
            }
        }
        lemma_len_subset(subsets(u), both);
    }
}

proof fn lemma_clause_sets_push(cs: Seq<Clause>, c: Clause)
    ensures
        clause_sets(cs.push(c)) == clause_sets(cs).insert(clause_set(c)),
{
    assert forall|s: Set<Literal>| clause_sets(cs.push(c)).contains(s) == clause_sets(cs).insert(clause_set(c)).contains(s) by {
        if clause_sets(cs).contains(s) {
            let i = choose|i: int| 0 <= i < cs.len() && #[trigger] clause_set(cs[i]) == s;
            assert(clause_set(cs.push(c)[i]) == s);
        }
        if s == clause_set(c) {
            assert(clause_set(cs.push(c)[cs.len() as int]) == s);
        }
        if clause_sets(cs.push(c)).contains(s) {
            let i = choose|i: int| 0 <= i < cs.len() + 1 && #[trigger] clause_set(cs.push(c)[i]) == s;
            if i < cs.len() {
                assert(clause_set(cs[i]) == s);
            }
        }
    }
    assert(clause_sets(cs.push(c)) =~= clause_sets(cs).insert(clause_set(c)));
}

/// Searches from the last clause of `visited` for a derivation of the empty
/// clause, resolving with the stored clauses; `visited` holds the clauses of
/// the current branch and comes back as it was given. A resolvent whose
/// literals are those of a clause already on the branch is not searched
/// again, so every branch ends: the search is finite.
fn refute(store: &ClauseStorage, visited: &mut Vec<Clause>, Ghost(u): Ghost<Set<Literal>>) -> (r: bool)
    requires
        store.wf(),
        u == store.universe(),
        old(visited).len() > 0,
        forall|i: int| 0 <= i < old(visited).len() ==> clause_set(#[trigger] old(visited)@[i]).subset_of(u),
    ensures
        final(visited)@ == old(visited)@,
        r == refutable(
            clause_sets(store.clauses@),
            clause_set(old(visited)@.last()),
            clause_sets(old(visited)@),
        ),
    decreases subsets(u).difference(clause_sets(old(visited)@)).len(),
{
    let ghost sto = clause_sets(store.clauses@);
    let ghost vis = clause_sets(visited@);
    let top = visited.len() - 1;
    let ghost cur = clause_set(visited@[top as int]);
    proof {
        store.lemma_universe();
        lemma_subsets_finite(u);
        assert(visited@.last() == visited@[top as int]);
    }
    let n = visited[top].parts.len();
    let mut i: usize = 0;
    while i < n
        invariant
            store.wf(),
            u == store.universe(),
            u.finite(),
            subsets(u).finite(),
            forall|j: int| 0 <= j < store.clauses.len() ==> clause_set(#[trigger] store.clauses[j]).subset_of(u),
            visited@ == old(visited)@,
            forall|i2: int| 0 <= i2 < visited.len() ==> clause_set(#[trigger] visited@[i2]).subset_of(u),
            sto == clause_sets(store.clauses@),
            vis == clause_sets(visited@),
            top == visited.len() - 1,
            cur == clause_set(visited@[top as int]),
            n == visited@[top as int]@.len(),
            i <= n,
            forall|i2: int| 0 <= i2 < i ==> no_refutation_via(sto, cur, vis, #[trigger] visited@[top as int]@[i2]),
        decreases n - i,
    {
        let l = visited[top].parts[i].duplicate();
        assert(l@ == visited@[top as int]@[i as int]);
        assert(cur.contains(l@));
        let other = l.negate();
        let candidates = store.get(&other, visited);
        let mut k: usize = 0;
        while k < candidates.len()
            invariant
                store.wf(),
                u == store.universe(),
                u.finite(),
                subsets(u).finite(),
                forall|j: int| 0 <= j < store.clauses.len() ==> clause_set(#[trigger] store.clauses[j]).subset_of(u),
                visited@ == old(visited)@,
                forall|i2: int| 0 <= i2 < visited.len() ==> clause_set(#[trigger] visited@[i2]).subset_of(u),
                sto == clause_sets(store.clauses@),
                vis == clause_sets(visited@),
                top == visited.len() - 1,
                cur == clause_set(visited@[top as int]),
                cur.contains(l@),
                cur.subset_of(u),
                other@ == negated(l@),
                forall|t: int| 0 <= t < candidates.len() ==> candidates[t] < store.clauses.len(),
                forall|j: usize| #[trigger] candidates@.contains(j) <==> (j < store.clauses.len()
                    && store.clauses[j as int]@.contains(other@)
                    && !vis.contains(clause_set(store.clauses[j as int]))),
                k <= candidates.len(),
                forall|k2: int| 0 <= k2 < k ==> no_refutation_via_pair(sto, cur, vis, l@,
                    clause_set(store.clauses[#[trigger] candidates[k2] as int])),
            decreases candidates.len() - k,
        {
            let j = candidates[k];
            let ghost m = clause_set(store.clauses[j as int]);
            proof {
                assert(candidates@.contains(j));
                assert(sto.contains(m));
                assert(m.contains(negated(l@)));
                assert(!vis.contains(m));
            }
            let next = combine(&visited[top], &store.clauses[j], &l);
            let ghost ns = clause_set(next);
            if next.parts.len() == 0 {
                proof {
                    assert(ns =~= Set::<Literal>::empty());
                    let path = seq![(l@, m)];
                    assert(refutes_along(sto, cur, vis, path));
                }
                return true;
            }
            proof {
                assert(ns.contains(next@[0]));
                assert(ns != Set::<Literal>::empty());
                assert(ns.subset_of(u));
            }
            if !contains_clause(visited, &next) {
                proof {
                    lemma_clause_sets_push(visited@, next);
                    assert(subsets(u).difference(vis.insert(ns)) =~= subsets(u).difference(vis).remove(ns));
                    assert(subsets(u).difference(vis).contains(ns));
                    lemma_len_subset(subsets(u).difference(vis), subsets(u));
                }
                visited.push(next);
                proof {
                    assert(visited@.last() == next);
                    assert forall|i2: int| 0 <= i2 < visited.len() implies clause_set(#[trigger] visited@[i2]).subset_of(u) by {
                        if i2 < top + 1 {
                            assert(visited@[i2] == old(visited)@[i2]);
                        }
                    }
                }
                let found = refute(store, visited, Ghost(u));
                let _ = visited.pop();
                proof {
                    assert(visited@ =~= old(visited)@);
                }
                if found {
                    proof {
                        let sub = choose|sub: Seq<(Literal, Set<Literal>)>| refutes_along(sto, ns, vis.insert(ns), sub);
                        let path = seq![(l@, m)] + sub;
                        assert(path.drop_first() =~= sub);
                        assert(refutes_along(sto, cur, vis, path));
                    }
                    return true;
                }
                proof {
                    assert forall|path: Seq<(Literal, Set<Literal>)>|
                        path.len() > 0 && path[0] == (l@, m) implies !#[trigger] refutes_along(sto, cur, vis, path) by {
                        if path.len() > 1 && refutes_along(sto, cur, vis, path) {
                            assert(refutes_along(sto, ns, vis.insert(ns), path.drop_first()));
                        }
                    }
                }
            } else {
                proof {
                    assert forall|path: Seq<(Literal, Set<Literal>)>|
                        path.len() > 0 && path[0] == (l@, m) implies !#[trigger] refutes_along(sto, cur, vis, path) by {
                    }
                }
            }
            k = k + 1;
        }
        proof {
            assert forall|path: Seq<(Literal, Set<Literal>)>|
                path.len() > 0 && path[0].0 == l@ implies !#[trigger] refutes_along(sto, cur, vis, path) by {
                if refutes_along(sto, cur, vis, path) {
                    let m = path[0].1;
                    let j = choose|j: int| 0 <= j < store.clauses.len() && #[trigger] clause_set(store.clauses[j]) == m;
                    assert(store.clauses[j]@.contains(other@));
                    assert(candidates@.contains(j as usize));
                    let k2 = choose|k2: int| 0 <= k2 < candidates.len() && candidates@[k2] == j as usize;
                    assert(no_refutation_via_pair(sto, cur, vis, l@, clause_set(store.clauses[candidates[k2] as int])));
                    assert(path[0] == (l@, m));
                }
            }
        }
        i = i + 1;
    }
    proof {
        assert forall|path: Seq<(Literal, Set<Literal>)>| !refutes_along(sto, cur, vis, path) by {
            if refutes_along(sto, cur, vis, path) {
                let i2 = choose|i2: int| 0 <= i2 < n && visited@[top as int]@[i2] == path[0].0;
                assert(no_refutation_via(sto, cur, vis, visited@[top as int]@[i2]));
            }
        }
    }
    false
}

/// Some literal of `c` is true under `v`.
pub open spec fn holds(c: Set<Literal>, v: spec_fn(Seq<char>) -> bool) -> bool {
    exists|l: Literal| c.contains(l) && #[trigger] literal_holds(l, v)
}

/// The literal sets of the clauses of the first `n` assumptions.
pub open spec fn clauses_of_first(assumptions: Seq<Proposition>, n: int) -> Set<Set<Literal>> {
    Set::new(|c: Set<Literal>| exists|i: int, k: int|
        0 <= i < n && 0 <= k < clause_literals(assumptions[i]).len()
            && #[trigger] clause_literals(assumptions[i])[k].to_set() == c)
}

/// The literal sets of the clauses of all the assumptions.
pub open spec fn assumption_clauses(assumptions: Seq<Proposition>) -> Set<Set<Literal>> {
    clauses_of_first(assumptions, assumptions.len() as int)
}

/// The literal sets of the clauses of the negated goal, in order.
pub open spec fn negated_goal_clauses(goal: Proposition) -> Seq<Set<Literal>> {
    clause_literals(Proposition::Not(Box::new(goal))).map_values(|c: Seq<Literal>| c.to_set())
}

/// Resolution proves `goal` from `assumptions`: for some clause `c` of the
/// negated goal, the search from `c`, with `c` visited, over the clauses of
/// the assumptions and the other clauses of the negated goal, derives the
/// empty clause.
pub open spec fn provable(assumptions: Seq<Proposition>, goal: Proposition) -> bool {
    let n = negated_goal_clauses(goal);
    exists|i: int|
        0 <= i < n.len() && #[trigger] refutable(
            assumption_clauses(assumptions).union(n.to_set().remove(n[i])),
            n[i],
            set![n[i]],
        )
}

proof fn lemma_visited_clause_in_store(
    store: Set<Set<Literal>>,
    c: Set<Literal>,
    cur: Set<Literal>,
    visited: Set<Set<Literal>>,
    path: Seq<(Literal, Set<Literal>)>,
)
    requires
        visited.contains(c),
    ensures
        refutes_along(store, cur, visited, path) == refutes_along(store.insert(c), cur, visited, path),
    decreases path.len(),
{
    if path.len() > 1 {
        let next = resolvent(cur, path[0].1, path[0].0);
        lemma_visited_clause_in_store(store, c, next, visited.insert(next), path.drop_first());
    }
}

proof fn lemma_refutation_unsatisfiable(
    store: Set<Set<Literal>>,
    cur: Set<Literal>,
    visited: Set<Set<Literal>>,
    path: Seq<(Literal, Set<Literal>)>,
    v: spec_fn(Seq<char>) -> bool,
)
    requires
        refutes_along(store, cur, visited, path),
        forall|m: Set<Literal>| store.contains(m) ==> holds(m, v),
    ensures
        !holds(cur, v),
    decreases path.len(),
{
    if !holds(cur, v) {
        return;
    }
    let l = path[0].0;
    let m = path[0].1;
    let next = resolvent(cur, m, l);
    let x = choose|x: Literal| cur.contains(x) && #[trigger] literal_holds(x, v);
    if x != l {
        assert(next.contains(x));
    } else {
        assert(holds(m, v));
        let y = choose|y: Literal| m.contains(y) && #[trigger] literal_holds(y, v);
        assert(y != negated(l));
        assert(next.contains(y));
    }
    assert(holds(next, v));
    if path.len() > 1 {
        lemma_refutation_unsatisfiable(store, next, visited.insert(next), path.drop_first(), v);
    }
}

proof fn lemma_satisfied_holds(c: Seq<Literal>, v: spec_fn(Seq<char>) -> bool)
    requires
        satisfied(c, v),
    ensures
        holds(c.to_set(), v),
{
    let k = choose|k: int| 0 <= k < c.len() && #[trigger] literal_holds(c[k], v);
    assert(c.to_set().contains(c[k]));
}

/// Soundness: when resolution proves `goal` from `assumptions`, every
/// valuation that makes all the assumptions true makes the goal true.
pub proof fn resolution_is_sound(
    assumptions: Seq<Proposition>,
    goal: Proposition,
    v: spec_fn(Seq<char>) -> bool,
)
    requires
        provable(assumptions, goal),
        forall|i: int| 0 <= i < assumptions.len() ==> eval(#[trigger] assumptions[i], v),
    ensures
        eval(goal, v),
{
    if !eval(goal, v) {
        let neg = Proposition::Not(Box::new(goal));
        let n = negated_goal_clauses(goal);
        clausification_is_faithful(neg);
        assert(eval(neg, v));
        let i = choose|i: int|
            0 <= i < n.len() && #[trigger] refutable(
                assumption_clauses(assumptions).union(n.to_set().remove(n[i])),
                n[i],
                set![n[i]],
            );
        let store = assumption_clauses(assumptions).union(n.to_set().remove(n[i]));
        assert forall|m: Set<Literal>| store.contains(m) implies holds(m, v) by {
            if assumption_clauses(assumptions).contains(m) {
                let (a, k) = choose|a: int, k: int|
                    0 <= a < assumptions.len() && 0 <= k < clause_literals(assumptions[a]).len()
                        && #[trigger] clause_literals(assumptions[a])[k].to_set() == m;
                clausification_is_faithful(assumptions[a]);
                assert(eval(assumptions[a], v));
                lemma_satisfied_holds(clause_literals(assumptions[a])[k], v);
            } else {
                let k = choose|k: int| 0 <= k < n.len() && n[k] == m;
                lemma_satisfied_holds(clause_literals(neg)[k], v);
            }
        }
        lemma_satisfied_holds(clause_literals(neg)[i], v);
        let path = choose|path: Seq<(Literal, Set<Literal>)>| refutes_along(store, n[i], set![n[i]], path);
        lemma_refutation_unsatisfiable(store, n[i], set![n[i]], path, v);
    }
}

/// Resolving `a` with `b` on the literal `l` gives the literals that resolving
/// `b` with `a` on the negation of `l` gives.
pub proof fn combine_is_symmetric(a: Set<Literal>, b: Set<Literal>, l: Literal)
    ensures
        resolvent(a, b, l) == resolvent(b, a, negated(l)),
{
    assert(negated(negated(l)) == l);
    assert(resolvent(a, b, l) =~= resolvent(b, a, negated(l)));
}

/// Resolving a literal alone with its negation alone leaves the empty clause.
pub proof fn combine_annihilates(l: Literal)
    ensures
        resolvent(set![l], set![negated(l)], l) == Set::<Literal>::empty(),
{
    assert(resolvent(set![l], set![negated(l)], l) =~= Set::<Literal>::empty());
}

/// A copy of the clause.
fn copy_clause(c: &Clause) -> (r: Clause)
    ensures
        r@ == c@,
{
    let mut parts: Vec<ClausePart> = Vec::new();
    let mut i: usize = 0;
    while i < c.parts.len()
        invariant
            i <= c.parts.len(),
            literals(parts@) == c@.take(i as int),
        decreases c.parts.len() - i,
    {
        let p = c.parts[i].duplicate();
        proof {
            lemma_literals_push(parts@, p);
            assert(c@.take(i as int).push(p@) =~= c@.take(i + 1));
        }
        parts.push(p);
        i = i + 1;
    }
    assert(c@.take(i as int) =~= c@);
    Clause { parts }
}

/// Adds the clauses `cs` to `store`, in order.
fn put_all(store: &mut ClauseStorage, cs: &Vec<Clause>)
    requires
        old(store).wf(),
    ensures
        final(store).wf(),
        forall|c: Set<Literal>| clause_sets(final(store).clauses@).contains(c) <==> (clause_sets(old(store).clauses@).contains(c)
            || clause_sets(cs@).contains(c)),
{
    let mut k: usize = 0;
    while k < cs.len()
        invariant
            store.wf(),
            k <= cs.len(),
            forall|c: Set<Literal>| clause_sets(store.clauses@).contains(c) <==> (clause_sets(old(store).clauses@).contains(c)
                || exists|k2: int| 0 <= k2 < k && #[trigger] clause_set(cs@[k2]) == c),
        decreases cs.len() - k,
    {
        let c = copy_clause(&cs[k]);
        let ghost before = store.clauses@;
        store.put(c);
        proof {
            lemma_clause_sets_push(before, c);
            assert forall|x: Set<Literal>| clause_sets(store.clauses@).contains(x) <==> (clause_sets(old(store).clauses@).contains(x)
                || exists|k2: int| 0 <= k2 < k + 1 && #[trigger] clause_set(cs@[k2]) == x) by {
                if x == clause_set(c) {
                    assert(clause_set(cs@[k as int]) == x);
                }
                if exists|k2: int| 0 <= k2 < k + 1 && #[trigger] clause_set(cs@[k2]) == x {
                    let k2 = choose|k2: int| 0 <= k2 < k + 1 && #[trigger] clause_set(cs@[k2]) == x;
                    if k2 < k {
                        assert(exists|k3: int| 0 <= k3 < k && #[trigger] clause_set(cs@[k3]) == x);
                    }
                }
            }
        }
        k = k + 1;
    }
}

/// Checks if the goal is provable from the assumptions by resolution: the
/// clauses of the assumptions and of the negated goal are stored, and the
/// search starts from each clause of the negated goal in turn.
pub fn resolve(assumptions: Vec<Proposition>, goal: Proposition) -> (r: bool)
    ensures
        r == provable(assumptions@, goal),
        r ==> forall|v: spec_fn(Seq<char>) -> bool|
            (forall|i: int| 0 <= i < assumptions.len() ==> eval(#[trigger] assumptions@[i], v))
                ==> #[trigger] eval(goal, v),
{
    let ghost a = assumptions@;
    let ghost g = goal;
    let mut store = ClauseStorage::new();
    let mut i: usize = 0;
    while i < assumptions.len()
        invariant
            a == assumptions@,
            store.wf(),
            i <= assumptions.len(),
            clause_sets(store.clauses@) == clauses_of_first(a, i as int),
        decreases assumptions.len() - i,
    {
        let cs = Clause::from_proposition(copy_proposition(&assumptions[i]));
        let ghost before = store.clauses@;
        put_all(&mut store, &cs);
        proof {
            assert forall|c: Set<Literal>| clause_sets(store.clauses@).contains(c) == clauses_of_first(a, i + 1).contains(c) by {
                if clause_sets(cs@).contains(c) {
                    let k = choose|k: int| 0 <= k < cs.len() && #[trigger] clause_set(cs@[k]) == c;
                    assert(clause_literals(a[i as int])[k].to_set() == c);
                }
                if clauses_of_first(a, i + 1).contains(c) {
                    let (i2, k) = choose|i2: int, k: int|
                        0 <= i2 < i + 1 && 0 <= k < clause_literals(a[i2]).len()
                            && #[trigger] clause_literals(a[i2])[k].to_set() == c;
                    if i2 == i {
                        assert(clause_set(cs@[k]) == c);
                    } else {
                        assert(clauses_of_first(a, i as int).contains(c));
                    }
                }
            }
            assert(clause_sets(store.clauses@) =~= clauses_of_first(a, i + 1));
        }
        i = i + 1;
    }
    let ghost n = negated_goal_clauses(g);
    let negated_goal = Clause::from_proposition(not(goal));
    let ghost before_goal = clause_sets(store.clauses@);
    put_all(&mut store, &negated_goal);
    proof {
        assert forall|c: Set<Literal>| clause_sets(negated_goal@).contains(c) == n.to_set().contains(c) by {
            if clause_sets(negated_goal@).contains(c) {
                let k = choose|k: int| 0 <= k < negated_goal.len() && #[trigger] clause_set(negated_goal@[k]) == c;
                assert(n[k] == c);
            }
            if n.to_set().contains(c) {
                let k = choose|k: int| 0 <= k < n.len() && n[k] == c;
                assert(clause_set(negated_goal@[k]) == c);
            }
        }
        assert(i == a.len());
        assert(before_goal == assumption_clauses(a));
        assert forall|c: Set<Literal>| clause_sets(store.clauses@).contains(c) == assumption_clauses(a).union(n.to_set()).contains(c) by {
            assert(clause_sets(negated_goal@).contains(c) == n.to_set().contains(c));
        }
        assert(clause_sets(store.clauses@) =~= assumption_clauses(a).union(n.to_set()));
        store.lemma_universe();
    }
    let ghost all = clause_sets(store.clauses@);
    let mut s: usize = 0;
    while s < negated_goal.len()
        invariant
            store.wf(),
            all == clause_sets(store.clauses@),
            all == assumption_clauses(a).union(n.to_set()),
            store.universe().finite(),
            forall|j: int| 0 <= j < store.clauses.len() ==> clause_set(#[trigger] store.clauses[j]).subset_of(store.universe()),
            n == negated_goal_clauses(g),
            g == goal,
            a == assumptions@,
            n.len() == negated_goal.len(),
            forall|k: int| 0 <= k < n.len() ==> clause_set(#[trigger] negated_goal@[k]) == n[k],
            s <= negated_goal.len(),
            forall|s2: int| 0 <= s2 < s ==> !#[trigger] refutable(
                assumption_clauses(a).union(n.to_set().remove(n[s2])),
                n[s2],
                set![n[s2]],
            ),
        decreases negated_goal.len() - s,
    {
        let seed = copy_clause(&negated_goal[s]);
        let ghost c = n[s as int];
        let mut visited: Vec<Clause> = Vec::new();
        visited.push(seed);
        proof {
            assert(clause_set(seed) == c);
            assert(all.contains(c));
            let j = choose|j: int| 0 <= j < store.clauses.len() && #[trigger] clause_set(store.clauses[j]) == c;
            assert(clause_set(store.clauses[j]).subset_of(store.universe()));
            assert(clause_sets(visited@) =~= set![c]) by {
                assert(clause_set(visited@[0]) == c);
            }
            assert(visited@.last() == seed);
        }
        let ghost vis0 = visited@;
        let found = refute(&store, &mut visited, Ghost(store.universe()));
        proof {
            assert(vis0.last() == seed);
            assert(clause_sets(vis0) == set![c]);
            assert(found == refutable(all, c, set![c]));
            let rest = assumption_clauses(a).union(n.to_set().remove(c));
            assert(rest.insert(c) =~= all);
            assert forall|path: Seq<(Literal, Set<Literal>)>| refutes_along(rest, c, set![c], path)
                == refutes_along(all, c, set![c], path) by {
                lemma_visited_clause_in_store(rest, c, c, set![c], path);
            }
            assert(refutable(rest, c, set![c]) == refutable(all, c, set![c]));
            assert(found == refutable(rest, c, set![c]));
        }
        if found {
            proof {
                assert(refutable(
                    assumption_clauses(a).union(n.to_set().remove(n[s as int])),
                    n[s as int],
                    set![n[s as int]],
                ));
                assert(provable(a, g));
                assert forall|v: spec_fn(Seq<char>) -> bool|
                    (forall|i: int| 0 <= i < a.len() ==> eval(#[trigger] a[i], v)) implies #[trigger] eval(g, v) by {
                    resolution_is_sound(a, g, v);
                }
            }
            return true;
        }
        s = s + 1;
    }
    false
}

} // verus!
