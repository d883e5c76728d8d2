//! Line-sets: sets of strings held as a sorted vector of distinct elements,
//! and the construction of such a set from the text of a file.

use vstd::prelude::*;

use crate::text::lemma_lex_lt_irreflexive;
use crate::text::lemma_lex_lt_transitive;
use crate::text::lemma_lex_lt_trichotomy;
use crate::text::lemma_trimmed_idempotent;
use crate::text::lex_lt;
use crate::text::str_lt;
use crate::text::trim_str;
use crate::text::trimmed;

verus! {

/// A set of strings, stored in ascending lexicographic order without
/// duplicates, so that equal sets have equal representations and iteration
/// order is deterministic.
pub struct LineSet {
    items: Vec<String>,
}

impl LineSet {
    /// The elements in ascending order.
    pub closed spec fn seq(&self) -> Seq<Seq<char>> {
        self.items.deep_view()
    }

    /// The elements as a set.
    pub open spec fn set(&self) -> Set<Seq<char>> {
        self.seq().to_set()
    }

    /// Well-formed: strictly ascending, hence free of duplicates.
    pub open spec fn wf(&self) -> bool {
        forall|i: int, j: int|
            0 <= i < j < self.seq().len() ==> lex_lt(self.seq()[i], self.seq()[j])
    }

    /// Create an empty set.
    pub fn new() -> (r: LineSet)
        ensures
            r.wf(),
            r.seq() == Seq::<Seq<char>>::empty(),
            r.set() == Set::<Seq<char>>::empty(),
    {
        let r = LineSet { items: Vec::new() };
        proof {
            assert(r.seq() =~= Seq::<Seq<char>>::empty());
            assert(r.set() =~= Set::<Seq<char>>::empty());
        }
        r
    }

    /// The number of elements.
    pub fn len(&self) -> (n: usize)
        ensures
            n == self.seq().len(),
    {
        self.items.len()
    }

    /// Borrow the elements, in ascending order.
    pub fn lines(&self) -> (r: &Vec<String>)
        ensures
            r.deep_view() == self.seq(),
    {
        &self.items
    }

    /// Whether `t` is an element.
    pub fn contains(&self, t: &str) -> (r: bool)
        ensures
            r == self.set().contains(t@),
    {
        let n = self.items.len();
        let mut k: usize = 0;
        while k < n
            invariant
                k <= n,
                n == self.seq().len(),
                forall|j: int| 0 <= j < k ==> self.seq()[j] != t@,
            decreases n - k,
        {
            let lo = str_lt(self.items[k].as_str(), t);
            let hi = str_lt(t, self.items[k].as_str());
            if !lo && !hi {
                proof {
                    lemma_lex_lt_trichotomy(self.seq()[k as int], t@);
                    assert(self.seq().contains(t@));
                }
                return true;
            }
            proof {
                lemma_lex_lt_irreflexive(t@);
            }
            k = k + 1;
        }
        proof {
            assert(!self.seq().contains(t@));
        }
        false
    }

    /// Add `t`; an element already present is merged silently.
    pub fn insert(&mut self, t: String)
        requires
            old(self).wf(),
        ensures
            final(self).wf(),
            final(self).set() == old(self).set().insert(t@),
    {
        let n = self.items.len();
        let mut k: usize = 0;
        while k < n && str_lt(self.items[k].as_str(), t.as_str())
            invariant
                k <= n,
                n == self.seq().len(),
                forall|j: int| 0 <= j < k ==> lex_lt(self.seq()[j], t@),
            decreases n - k,
        {
            k = k + 1;
        }
        if k < n && !str_lt(t.as_str(), self.items[k].as_str()) {
            // already present: the element at `k` is neither below nor above `t`
            proof {
                lemma_lex_lt_trichotomy(self.seq()[k as int], t@);
                assert(self.seq().contains(t@));
                assert(self.set().insert(t@) =~= self.set());
            }
            return ;
        }
        proof {
            let ghost prior = self.seq();
            assert forall|j: int| k <= j < n implies lex_lt(t@, prior[j]) by {
                if k < n {
                    lemma_lex_lt_trichotomy(prior[k as int], t@);
                    if k < j {
                        lemma_lex_lt_transitive(t@, prior[k as int], prior[j]);
                    }
                }
            }
        }
        let ghost prior = self.seq();
        self.items.insert(k, t);
        proof {
            assert(self.seq() =~= prior.insert(k as int, t@));
            lemma_sorted_insert(prior, k as int, t@);
            lemma_insert_to_set(prior, k as int, t@);
        }
    }
}

/// The lines of a text, split on `'\n'`: the empty text has one empty line,
/// and every `'\n'` ends a line and starts a new one.
pub open spec fn lines_of(s: Seq<char>) -> Seq<Seq<char>>
    decreases s.len(),
{
    if s.len() == 0 {
        seq![Seq::<char>::empty()]
    } else if s.last() == '\n' {
        lines_of(s.take(s.len() - 1)).push(Seq::<char>::empty())
    } else {
        let prior = lines_of(s.take(s.len() - 1));
        prior.update(prior.len() - 1, prior.last().push(s.last()))
    }
}

/// The set of trimmed, non-blank members of a sequence of lines.
pub open spec fn trimmed_set_of(ls: Seq<Seq<char>>) -> Set<Seq<char>> {
    Set::new(
        |t: Seq<char>|
            t.len() != 0 && exists|i: int| 0 <= i < ls.len() && trimmed(ls[i]) == t,
    )
}

/// The line-set of a text: its trimmed lines, with blank lines dropped.
pub open spec fn line_set_of(s: Seq<char>) -> Set<Seq<char>> {
    trimmed_set_of(lines_of(s))
}

/// Appending a line adds its trimmed form to the line-set, or nothing when
/// the line is blank.
pub proof fn lemma_trimmed_set_push(ls: Seq<Seq<char>>, l: Seq<char>)
    ensures
        trimmed_set_of(ls.push(l)) == if trimmed(l).len() == 0 {
            trimmed_set_of(ls)
        } else {
            trimmed_set_of(ls).insert(trimmed(l))
        },
{
    let lhs = trimmed_set_of(ls.push(l));
    let rhs = if trimmed(l).len() == 0 {
        trimmed_set_of(ls)
    } else {
        trimmed_set_of(ls).insert(trimmed(l))
    };
    assert forall|t: Seq<char>| lhs.contains(t) implies rhs.contains(t) by {
        let i = choose|i: int| 0 <= i < ls.push(l).len() && trimmed(ls.push(l)[i]) == t;
        if i < ls.len() {
            assert(ls.push(l)[i] == ls[i]);
            assert(trimmed_set_of(ls).contains(t));
        } else {
            assert(ls.push(l)[i] == l);
        }
    }
    assert forall|t: Seq<char>| rhs.contains(t) implies lhs.contains(t) by {
        if trimmed(l).len() != 0 && t == trimmed(l) {
            assert(ls.push(l)[ls.len() as int] == l);
        } else {
            let i = choose|i: int| 0 <= i < ls.len() && trimmed(ls[i]) == t;
            assert(ls.push(l)[i] == ls[i]);
        }
    }
    assert(lhs =~= rhs);
}

/// Build the line-set of a text: split on newlines, trim each line, drop the
/// blanks, and collect what is left into a sorted set.
pub fn from_content(content: &str) -> (r: LineSet)
    ensures
        r.wf(),
        r.set() == line_set_of(content@),
{
    let len = content.unicode_len();
    let mut out = LineSet::new();
    let mut line_start: usize = 0;
    let ghost mut done: Seq<Seq<char>> = Seq::empty();
    let mut i: usize = 0;
    proof {
        assert(content@.take(0) =~= Seq::<char>::empty());
        assert(content@.subrange(0, 0) =~= Seq::<char>::empty());
        assert(lines_of(content@.take(0)) =~= done.push(content@.subrange(0, 0)));
        assert(out.set() =~= trimmed_set_of(done));
    }
    while i < len
        invariant
            i <= len,
            line_start <= i,
            len == content@.len(),
            out.wf(),
            lines_of(content@.take(i as int)) == done.push(
                content@.subrange(line_start as int, i as int),
            ),
            out.set() == trimmed_set_of(done),
        decreases len - i,
    {
        let c = content.get_char(i);
        if c == '\n' {
            let line = content.substring_char(line_start, i);
            let t = trim_str(line);
            if t.unicode_len() != 0 {
                out.insert(t.to_owned());
            }
            proof {
                let cur = content@.subrange(line_start as int, i as int);
                lemma_trimmed_set_push(done, cur);
                done = done.push(cur);
                let u = content@.take(i as int + 1);
                assert(u.last() == content@[i as int]);
                assert(u.take(u.len() - 1) =~= content@.take(i as int));
                assert(content@.subrange(i as int + 1, i as int + 1) =~= Seq::<char>::empty());
                assert(lines_of(u) =~= done.push(content@.subrange(i as int + 1, i as int + 1)));
            }
            line_start = i + 1;
        } else {
            proof {
                let cur = content@.subrange(line_start as int, i as int);
                let u = content@.take(i as int + 1);
                assert(u.last() == content@[i as int]);
                assert(u.take(u.len() - 1) =~= content@.take(i as int));
                assert(content@.subrange(line_start as int, i as int + 1) =~= cur.push(
                    content@[i as int],
                ));
                let prior = lines_of(content@.take(i as int));
                assert(prior.update(prior.len() - 1, prior.last().push(content@[i as int])) =~= done.push(
                    content@.subrange(line_start as int, i as int + 1),
                ));
            }
        }
        i = i + 1;
    }
    let line = content.substring_char(line_start, len);
    let t = trim_str(line);
    if t.unicode_len() != 0 {
        out.insert(t.to_owned());
    }
    proof {
        assert(content@.take(len as int) =~= content@);
        lemma_trimmed_set_push(done, content@.subrange(line_start as int, len as int));
    }
    out
}

/// Inserting a value between its lexicographic neighbours keeps a sorted
/// sequence sorted.
proof fn lemma_sorted_insert(s: Seq<Seq<char>>, k: int, v: Seq<char>)
    requires
        0 <= k <= s.len(),
        forall|i: int, j: int| 0 <= i < j < s.len() ==> lex_lt(s[i], s[j]),
        forall|j: int| 0 <= j < k ==> lex_lt(s[j], v),
        forall|j: int| k <= j < s.len() ==> lex_lt(v, s[j]),
    ensures
        forall|i: int, j: int|
            0 <= i < j < s.insert(k, v).len() ==> lex_lt(s.insert(k, v)[i], s.insert(k, v)[j]),
{
    let r = s.insert(k, v);
    assert forall|i: int, j: int| 0 <= i < j < r.len() implies lex_lt(r[i], r[j]) by {
        assert(r[i] == if i < k { s[i] } else if i == k { v } else { s[i - 1] });
        assert(r[j] == if j < k { s[j] } else if j == k { v } else { s[j - 1] });
    }
}

/// Inserting into the sequence inserts into the set of its elements.
proof fn lemma_insert_to_set(s: Seq<Seq<char>>, k: int, v: Seq<char>)
    requires
        0 <= k <= s.len(),
    ensures
        s.insert(k, v).to_set() == s.to_set().insert(v),
{
    let r = s.insert(k, v);
    assert forall|t: Seq<char>| r.to_set().contains(t) implies s.to_set().insert(v).contains(t) by {
        let i = choose|i: int| 0 <= i < r.len() && r[i] == t;
        if i < k {
            assert(s[i] == t);
        } else if i > k {
            assert(s[i - 1] == t);
        }
    }
    assert forall|t: Seq<char>| s.to_set().insert(v).contains(t) implies r.to_set().contains(t) by {
        if t == v {
            assert(r[k] == t);
        } else {
            let i = choose|i: int| 0 <= i < s.len() && s[i] == t;
            if i < k {
                assert(r[i] == t);
            } else {
                assert(r[i + 1] == t);
            }
        }
    }
    assert(r.to_set() =~= s.to_set().insert(v));
}

/// Sorted sequences that hold the same elements are equal, position by
/// position.
proof fn lemma_sorted_unique(a: Seq<Seq<char>>, b: Seq<Seq<char>>)
    requires
        forall|i: int, j: int| 0 <= i < j < a.len() ==> lex_lt(a[i], a[j]),
        forall|i: int, j: int| 0 <= i < j < b.len() ==> lex_lt(b[i], b[j]),
        a.to_set() == b.to_set(),
    ensures
        a == b,
    decreases a.len(),
{
    if a.len() == 0 {
        if b.len() > 0 {
            assert(b.to_set().contains(b[0]));
            assert(a.contains(b[0]));
        }
        assert(a =~= b);
    } else if b.len() == 0 {
        assert(a.to_set().contains(a[0]));
        assert(b.contains(a[0]));
        assert(a =~= b);
    } else {
        assert(a.to_set().contains(a[0]));
        assert(b.to_set().contains(a[0]));
        let j = choose|j: int| 0 <= j < b.len() && b[j] == a[0];
        assert(b.to_set().contains(b[0]));
        assert(a.to_set().contains(b[0]));
        let k = choose|k: int| 0 <= k < a.len() && a[k] == b[0];
        if j > 0 {
            // then b[0] sorts below a[0]; but b[0] stands somewhere in a,
            // which puts a[0] at or below b[0]: a contradiction
            assert(lex_lt(b[0], a[0]));
            if k > 0 {
                lemma_lex_lt_transitive(a[0], a[k], a[0]);
            }
            lemma_lex_lt_irreflexive(a[0]);
        }
        assert(a[0] == b[0]);
        let at = a.skip(1);
        let bt = b.skip(1);
        assert forall|t: Seq<char>| at.to_set().contains(t) implies bt.to_set().contains(t) by {
            lemma_tail_membership(a, t);
            lemma_tail_membership(b, t);
        }
        assert forall|t: Seq<char>| bt.to_set().contains(t) implies at.to_set().contains(t) by {
            lemma_tail_membership(a, t);
            lemma_tail_membership(b, t);
        }
        assert(at.to_set() =~= bt.to_set());
        assert forall|i: int, j2: int| 0 <= i < j2 < at.len() implies lex_lt(at[i], at[j2]) by {
            assert(at[i] == a[i + 1]);
            assert(at[j2] == a[j2 + 1]);
        }
        assert forall|i: int, j2: int| 0 <= i < j2 < bt.len() implies lex_lt(bt[i], bt[j2]) by {
            assert(bt[i] == b[i + 1]);
            assert(bt[j2] == b[j2 + 1]);
        }
        lemma_sorted_unique(at, bt);
        assert(a =~= seq![a[0]] + at);
        assert(b =~= seq![b[0]] + bt);
    }
}

/// In a sorted sequence, the elements past the head are exactly the elements
/// other than the head.
proof fn lemma_tail_membership(a: Seq<Seq<char>>, t: Seq<char>)
    requires
        a.len() > 0,
        forall|i: int, j: int| 0 <= i < j < a.len() ==> lex_lt(a[i], a[j]),
    ensures
        a.skip(1).to_set().contains(t) <==> a.to_set().contains(t) && t != a[0],
{
    if a.skip(1).to_set().contains(t) {
        let i = choose|i: int| 0 <= i < a.skip(1).len() && a.skip(1)[i] == t;
        assert(a[i + 1] == t);
        assert(lex_lt(a[0], a[i + 1]));
        lemma_lex_lt_irreflexive(a[0]);
        assert(a.to_set().contains(t));
    }
    if a.to_set().contains(t) && t != a[0] {
        let i = choose|i: int| 0 <= i < a.len() && a[i] == t;
        assert(a.skip(1)[i - 1] == t);
        assert(a.skip(1).to_set().contains(t));
    }
}

/// A well-formed line-set is a canonical representation of its elements: two
/// line-sets that hold the same elements are identical, in whatever order and
/// among whatever blank lines those elements were first read.
pub proof fn lemma_line_set_canonical(a: &LineSet, b: &LineSet)
    requires
        a.wf(),
        b.wf(),
        a.set() == b.set(),
    ensures
        a.seq() == b.seq(),
{
    lemma_sorted_unique(a.seq(), b.seq());
}

/// The line-set of a text depends only on which lines occur in it, not on
/// their order, their multiplicity, or the blank lines among them: texts with
/// the same lines yield the same line-set, and so — well-formedness making
/// the representation canonical — the very same `LineSet`.
pub proof fn lemma_line_set_order_blind(s1: Seq<char>, s2: Seq<char>)
    requires
        lines_of(s1).to_set() == lines_of(s2).to_set(),
    ensures
        line_set_of(s1) == line_set_of(s2),
{
    let x = lines_of(s1);
    let y = lines_of(s2);
    assert forall|t: Seq<char>| trimmed_set_of(x).contains(t) implies trimmed_set_of(y).contains(
        t,
    ) by {
        let i = choose|i: int| 0 <= i < x.len() && trimmed(x[i]) == t;
        assert(x.to_set().contains(x[i]));
        let j = choose|j: int| 0 <= j < y.len() && y[j] == x[i];
        assert(trimmed(y[j]) == t);
    }
    assert forall|t: Seq<char>| trimmed_set_of(y).contains(t) implies trimmed_set_of(x).contains(
        t,
    ) by {
        let j = choose|j: int| 0 <= j < y.len() && trimmed(y[j]) == t;
        assert(y.to_set().contains(y[j]));
        let i = choose|i: int| 0 <= i < x.len() && x[i] == y[j];
        assert(trimmed(x[i]) == t);
    }
    assert(trimmed_set_of(x) =~= trimmed_set_of(y));
}

/// Every element of a line-set is a non-empty line already free of leading
/// and trailing whitespace: blank and whitespace-only lines contribute
/// nothing.
pub proof fn lemma_line_set_members(s: Seq<char>, t: Seq<char>)
    requires
        line_set_of(s).contains(t),
    ensures
        t.len() != 0,
        t == trimmed(t),
        exists|i: int| 0 <= i < lines_of(s).len() && trimmed(lines_of(s)[i]) == t,
{
    let ls = lines_of(s);
    let i = choose|i: int| 0 <= i < ls.len() && trimmed(ls[i]) == t;
    lemma_trimmed_idempotent(ls[i]);
}

} // verus!
