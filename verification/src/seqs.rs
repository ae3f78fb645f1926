//! Facts about sequences that several modules lean on.

use vstd::prelude::*;

verus! {

/// Filtering one element more of a sequence.
pub proof fn lemma_filter_take_step<A>(s: Seq<A>, k: int, pred: spec_fn(A) -> bool)
    requires
        0 <= k < s.len(),
    ensures
        s.take(k + 1).filter(pred) == if pred(s[k]) {
            s.take(k).filter(pred).push(s[k])
        } else {
            s.take(k).filter(pred)
        },
{
    s.lemma_take_succ_push(k);
    s.take(k).lemma_filter_push(s[k], pred);
}

/// A sequence holds what it held without its last element, and that element.
pub proof fn lemma_contains_last<A>(s: Seq<A>, a: A)
    requires
        s.len() > 0,
    ensures
        s.contains(a) <==> s.drop_last().contains(a) || a == s.last(),
{
    let rest = s.drop_last();
    if rest.contains(a) {
        let j = choose|j: int| 0 <= j < rest.len() && rest[j] == a;
        assert(s[j] == a);
    }
    if a == s.last() {
        assert(s[s.len() - 1] == a);
    }
    if s.contains(a) {
        let j = choose|j: int| 0 <= j < s.len() && s[j] == a;
        if j < s.len() - 1 {
            assert(rest[j] == a);
        }
    }
}

/// Pushing an element that a duplicate-free sequence lacks keeps it
/// duplicate-free, and adds that element only.
pub proof fn lemma_push_fresh<A>(s: Seq<A>, a: A)
    requires
        s.no_duplicates(),
        !s.contains(a),
    ensures
        s.push(a).no_duplicates(),
        forall|b: A| #[trigger] s.push(a).contains(b) <==> s.contains(b) || b == a,
{
    let out = s.push(a);
    assert forall|i: int, j: int| 0 <= i < out.len() && 0 <= j < out.len() && i != j implies out[i]
        != out[j] by {
        if i < s.len() {
            assert(s.contains(out[i]));
        }
        if j < s.len() {
            assert(s.contains(out[j]));
        }
    }
    assert forall|b: A| #[trigger] out.contains(b) <==> s.contains(b) || b == a by {
        assert(out.drop_last() =~= s);
        lemma_contains_last(out, b);
    }
}

/// Filtering keeps exactly the members that pass, and repeats none.
pub proof fn lemma_filter_members<A>(s: Seq<A>, pred: spec_fn(A) -> bool)
    requires
        s.no_duplicates(),
    ensures
        s.filter(pred).no_duplicates(),
        forall|a: A| #[trigger] s.filter(pred).contains(a) <==> s.contains(a) && pred(a),
    decreases s.len(),
{
    reveal(Seq::filter);
    if s.len() > 0 {
        let rest = s.drop_last();
        let last = s.last();
        lemma_filter_members(rest, pred);
        let kept = rest.filter(pred);
        if rest.contains(last) {
            let j = choose|j: int| 0 <= j < rest.len() && rest[j] == last;
            assert(s[j] == s[s.len() - 1]);
        }
        assert(!kept.contains(last));
        if pred(last) {
            lemma_push_fresh(kept, last);
        }
        assert forall|a: A| #[trigger] s.filter(pred).contains(a) <==> s.contains(a) && pred(a) by {
            lemma_contains_last(s, a);
        }
    }
}

/// Taking one element out of a duplicate-free sequence leaves it
/// duplicate-free, without that element and with every other.
pub proof fn lemma_remove_distinct<A>(s: Seq<A>, i: int)
    requires
        s.no_duplicates(),
        0 <= i < s.len(),
    ensures
        s.remove(i).no_duplicates(),
        !s.remove(i).contains(s[i]),
        forall|a: A| a != s[i] ==> (#[trigger] s.remove(i).contains(a) <==> s.contains(a)),
{
    let out = s.remove(i);
    assert forall|a: int, b: int| 0 <= a < out.len() && 0 <= b < out.len() && a != b implies out[a]
        != out[b] by {
        let x = if a < i {
            a
        } else {
            a + 1
        };
        let y = if b < i {
            b
        } else {
            b + 1
        };
        assert(out[a] == s[x] && out[b] == s[y]);
    }
    if out.contains(s[i]) {
        let j = choose|j: int| 0 <= j < out.len() && out[j] == s[i];
        let x = if j < i {
            j
        } else {
            j + 1
        };
        assert(s[x] == s[i]);
    }
    assert forall|a: A| a != s[i] implies (#[trigger] out.contains(a) <==> s.contains(a)) by {
        if out.contains(a) {
            let j = choose|j: int| 0 <= j < out.len() && out[j] == a;
            let x = if j < i {
                j
            } else {
                j + 1
            };
            assert(s[x] == a);
        }
        if s.contains(a) {
            let j = choose|j: int| 0 <= j < s.len() && s[j] == a;
            let x = if j < i {
                j
            } else {
                j - 1
            };
            assert(out[x] == a);
        }
    }
}

/// Filtering out what a sequence does not hold changes nothing.
pub proof fn lemma_filter_all_pass<A>(s: Seq<A>, pred: spec_fn(A) -> bool)
    requires
        forall|i: int| 0 <= i < s.len() ==> pred(#[trigger] s[i]),
    ensures
        s.filter(pred) == s,
    decreases s.len(),
{
    reveal(Seq::filter);
    if s.len() > 0 {
        let rest = s.drop_last();
        assert forall|i: int| 0 <= i < rest.len() implies pred(#[trigger] rest[i]) by {
            assert(rest[i] == s[i]);
        }
        lemma_filter_all_pass(rest, pred);
        assert(rest.push(s.last()) =~= s);
    }
}

} // verus!
