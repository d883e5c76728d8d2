//! The two set operations: intersection and subset test, and the dispatch
//! between them.

use vstd::prelude::*;

use itertools::Itertools;

use crate::lineset::LineSet;
use crate::options::Operation;
use crate::options::Options;
use crate::text::lex_lt;

verus! {

/// The elements of `l`, kept in their order, that `r` also holds.
pub open spec fn inter_seq(l: Seq<Seq<char>>, r: Set<Seq<char>>) -> Seq<Seq<char>>
    decreases l.len(),
{
    if l.len() == 0 {
        l
    } else {
        let prior = inter_seq(l.drop_last(), r);
        if r.contains(l.last()) {
            prior.push(l.last())
        } else {
            prior
        }
    }
}

/// The lines joined into one text, `'\n'` between each adjacent pair.
pub open spec fn join_lines(ls: Seq<Seq<char>>) -> Seq<char>
    decreases ls.len(),
{
    if ls.len() == 0 {
        Seq::empty()
    } else if ls.len() == 1 {
        ls[0]
    } else {
        join_lines(ls.drop_last()) + seq!['\n'] + ls.last()
    }
}

/// The intersection holds exactly the elements in both sets, and no others.
pub proof fn lemma_intersection_exact(l: Seq<Seq<char>>, r: Set<Seq<char>>)
    ensures
        inter_seq(l, r).to_set() == l.to_set().intersect(r),
    decreases l.len(),
{
    broadcast use Seq::lemma_push_to_set_commute;

    if l.len() == 0 {
        assert(inter_seq(l, r).to_set() =~= l.to_set().intersect(r));
    } else {
        lemma_intersection_exact(l.drop_last(), r);
        assert(l =~= l.drop_last().push(l.last()));
        assert(l.to_set() == l.drop_last().push(l.last()).to_set());
        assert(inter_seq(l, r).to_set() =~= l.to_set().intersect(r));
    }
}

/// The intersection keeps the left sequence's order: filtered from an
/// ascending sequence, it is itself ascending, so its printed form is
/// deterministic.
pub proof fn lemma_intersection_sorted(l: Seq<Seq<char>>, r: Set<Seq<char>>)
    requires
        forall|i: int, j: int| 0 <= i < j < l.len() ==> lex_lt(l[i], l[j]),
    ensures
        forall|i: int, j: int|
            0 <= i < j < inter_seq(l, r).len() ==> lex_lt(inter_seq(l, r)[i], inter_seq(l, r)[j]),
    decreases l.len(),
{
    if l.len() > 0 {
        let dl = l.drop_last();
        assert forall|i: int, j: int| 0 <= i < j < dl.len() implies lex_lt(dl[i], dl[j]) by {
            assert(dl[i] == l[i]);
            assert(dl[j] == l[j]);
        }
        lemma_intersection_sorted(dl, r);
        lemma_intersection_exact(dl, r);
        let prior = inter_seq(dl, r);
        let cur = inter_seq(l, r);
        if r.contains(l.last()) {
            assert forall|i: int, j: int| 0 <= i < j < cur.len() implies lex_lt(cur[i], cur[j]) by {
                if j < cur.len() - 1 {
                    assert(cur[i] == prior[i]);
                    assert(cur[j] == prior[j]);
                } else {
                    assert(cur[i] == prior[i]);
                    assert(prior.to_set().contains(prior[i]));
                    let k = choose|k: int| 0 <= k < dl.len() && dl[k] == prior[i];
                    assert(lex_lt(l[k], l.last()));
                }
            }
        }
    }
}

/// Relies on itertools' `Itertools::join`: the iterator's items — strings,
/// shown as themselves — concatenated with the separator between each pair.
#[verifier::external_body]
fn join_with_newlines(items: &Vec<String>) -> (r: String)
    ensures
        r@ == join_lines(items.deep_view()),
{
    items.iter().join("\n")
}

/// The elements present in both sets, one per line in the left set's order,
/// newline-joined.
pub fn intersect(left: &LineSet, right: &LineSet) -> (r: String)
    ensures
        r@ == join_lines(inter_seq(left.seq(), right.set())),
{
    let items = left.lines();
    let n = items.len();
    let mut kept: Vec<String> = Vec::new();
    let mut i: usize = 0;
    proof {
        assert(left.seq().take(0) =~= Seq::<Seq<char>>::empty());
        assert(kept.deep_view() =~= inter_seq(left.seq().take(0), right.set()));
    }
    while i < n
        invariant
            i <= n,
            n == items.len(),
            items.deep_view() == left.seq(),
            kept.deep_view() == inter_seq(left.seq().take(i as int), right.set()),
        decreases n - i,
    {
        let ghost prior = kept.deep_view();
        if right.contains(items[i].as_str()) {
            kept.push(items[i].clone());
        }
        proof {
            let u = left.seq().take(i as int + 1);
            assert(u.drop_last() =~= left.seq().take(i as int));
            assert(u.last() == left.seq()[i as int]);
            if right.set().contains(left.seq()[i as int]) {
                assert(kept.deep_view() =~= prior.push(left.seq()[i as int]));
            }
        }
        i = i + 1;
    }
    proof {
        assert(left.seq().take(n as int) =~= left.seq());
    }
    join_with_newlines(&kept)
}

/// `"true"` when every element of the left set is in the right set, else
/// `"false"`.
pub fn subset_test(left: &LineSet, right: &LineSet) -> (r: String)
    ensures
        r@ == if left.set().subset_of(right.set()) {
            "true"@
        } else {
            "false"@
        },
        (r@ == "true"@) <==> (forall|t: Seq<char>|
            left.set().contains(t) ==> right.set().contains(t)),
{
    proof {
        reveal_strlit("true");
        reveal_strlit("false");
        assert("true"@.len() == 4);
        assert("false"@.len() == 5);
    }
    let items = left.lines();
    let n = items.len();
    let mut i: usize = 0;
    while i < n
        invariant
            i <= n,
            n == items.len(),
            items.deep_view() == left.seq(),
            forall|j: int| 0 <= j < i ==> right.set().contains(left.seq()[j]),
        decreases n - i,
    {
        if !right.contains(items[i].as_str()) {
            proof {
                reveal_strlit("true");
                reveal_strlit("false");
                assert("true"@.len() == 4);
                assert("false"@.len() == 5);
                assert(items.deep_view()[i as int] == items@[i as int]@);
                let t = left.seq()[i as int];
                assert(left.set().contains(t));
                assert(!right.set().contains(t));
            }
            return "false".to_owned();
        }
        i = i + 1;
    }
    proof {
        assert forall|t: Seq<char>| left.set().contains(t) implies right.set().contains(t) by {
            let j = choose|j: int| 0 <= j < left.seq().len() && left.seq()[j] == t;
            assert(right.set().contains(left.seq()[j]));
        }
    }
    "true".to_owned()
}

/// What the selected operation prints: the intersection, or the subset
/// verdict.
pub open spec fn invoke_spec(options: Options) -> Seq<char> {
    match options.operation {
        Operation::Intersect() => join_lines(
            inter_seq(options.left.seq(), options.right.set()),
        ),
        Operation::SubsetTest() => if options.left.set().subset_of(options.right.set()) {
            "true"@
        } else {
            "false"@
        },
    }
}

/// Perform the operation the options select, on the two sets they hold.
pub fn invoke(options: Options) -> (r: String)
    ensures
        r@ == invoke_spec(options),
{
    match options.operation {
        Operation::Intersect() => intersect(&options.left, &options.right),
        Operation::SubsetTest() => subset_test(&options.left, &options.right),
    }
}

} // verus!
