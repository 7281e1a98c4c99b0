//! Byte strings in lexicographic order, and allele sets kept as sorted
//! sequences without repeats.

use std::cmp::Ordering;
use vstd::prelude::*;

verus! {

/// Lexicographic order on byte strings, the order of `Vec<u8>`: the first
/// differing byte decides, and a proper prefix comes first.
pub open spec fn bytes_lt(a: Seq<u8>, b: Seq<u8>) -> bool
    decreases a.len(),
{
    if a.len() == 0 {
        b.len() > 0
    } else if b.len() == 0 {
        false
    } else if a[0] != b[0] {
        a[0] < b[0]
    } else {
        bytes_lt(a.drop_first(), b.drop_first())
    }
}

/// Sorted by `bytes_lt`, hence with no element repeated.
pub open spec fn strictly_sorted(s: Seq<Seq<u8>>) -> bool {
    forall|i: int, j: int| 0 <= i < j < s.len() ==> bytes_lt(#[trigger] s[i], #[trigger] s[j])
}

/// The byte strings held by a sequence of vectors.
pub open spec fn views_of(v: Seq<Vec<u8>>) -> Seq<Seq<u8>> {
    v.map_values(|a: Vec<u8>| a@)
}

pub proof fn lemma_lt_irreflexive(a: Seq<u8>)
    ensures
        !bytes_lt(a, a),
    decreases a.len(),
{
    if a.len() > 0 {
        lemma_lt_irreflexive(a.drop_first());
    }
}

pub proof fn lemma_lt_transitive(a: Seq<u8>, b: Seq<u8>, c: Seq<u8>)
    requires
        bytes_lt(a, b),
        bytes_lt(b, c),
    ensures
        bytes_lt(a, c),
    decreases a.len(),
{
    if a.len() > 0 && b.len() > 0 && c.len() > 0 && a[0] == b[0] && b[0] == c[0] {
        lemma_lt_transitive(a.drop_first(), b.drop_first(), c.drop_first());
    }
}

/// Two byte strings that agree on their first `i` bytes compare as their
/// remainders do.
proof fn lemma_lt_common_prefix(a: Seq<u8>, b: Seq<u8>, i: int)
    requires
        0 <= i <= a.len(),
        i <= b.len(),
        a.subrange(0, i) == b.subrange(0, i),
    ensures
        bytes_lt(a, b) == bytes_lt(a.subrange(i, a.len() as int), b.subrange(i, b.len() as int)),
    decreases i,
{
    if i == 0 {
        assert(a.subrange(0, a.len() as int) =~= a);
        assert(b.subrange(0, b.len() as int) =~= b);
    } else {
        assert(a[0] == a.subrange(0, i)[0]);
        assert(b[0] == b.subrange(0, i)[0]);
        let (a1, b1) = (a.drop_first(), b.drop_first());
        assert(a1.subrange(0, i - 1) =~= a.subrange(0, i).drop_first());
        assert(b1.subrange(0, i - 1) =~= b.subrange(0, i).drop_first());
        lemma_lt_common_prefix(a1, b1, i - 1);
        assert(a1.subrange(i - 1, a1.len() as int) =~= a.subrange(i, a.len() as int));
        assert(b1.subrange(i - 1, b1.len() as int) =~= b.subrange(i, b.len() as int));
    }
}

/// Compares two byte strings in the order of `bytes_lt`.
pub fn compare_bytes(a: &[u8], b: &[u8]) -> (o: Ordering)
    ensures
        (o == Ordering::Less) == bytes_lt(a@, b@),
        (o == Ordering::Equal) == (a@ == b@),
        (o == Ordering::Greater) == bytes_lt(b@, a@),
{
    let mut i: usize = 0;
    while i < a.len() && i < b.len()
        invariant
            i <= a@.len(),
            i <= b@.len(),
            a@.subrange(0, i as int) == b@.subrange(0, i as int),
        decreases a@.len() - i,
    {
        if a[i] != b[i] {
            let ghost (ra, rb) = (
                a@.subrange(i as int, a@.len() as int),
                b@.subrange(i as int, b@.len() as int),
            );
            proof {
                lemma_lt_common_prefix(a@, b@, i as int);
                lemma_lt_common_prefix(b@, a@, i as int);
                assert(ra[0] == a@[i as int]);
                assert(rb[0] == b@[i as int]);
                assert(a@[i as int] != b@[i as int]);
            }
            if a[i] < b[i] {
                return Ordering::Less;
            } else {
                return Ordering::Greater;
            }
        }
        assert(a@.subrange(0, i + 1) =~= a@.subrange(0, i as int).push(a@[i as int]));
        assert(b@.subrange(0, i + 1) =~= b@.subrange(0, i as int).push(b@[i as int]));
        i = i + 1;
    }
    proof {
        lemma_lt_common_prefix(a@, b@, i as int);
        lemma_lt_common_prefix(b@, a@, i as int);
    }
    if a.len() == b.len() {
        proof {
            assert(a@ =~= a@.subrange(0, i as int));
            assert(b@ =~= b@.subrange(0, i as int));
            lemma_lt_irreflexive(a@);
        }
        Ordering::Equal
    } else if a.len() < b.len() {
        Ordering::Less
    } else {
        Ordering::Greater
    }
}

/// Adds `allele` to a sorted allele set, keeping it sorted; an allele that
/// is already present leaves the set as it was.
pub fn insert_allele(set: &mut Vec<Vec<u8>>, allele: Vec<u8>)
    requires
        strictly_sorted(views_of(old(set)@)),
    ensures
        strictly_sorted(views_of(final(set)@)),
        views_of(final(set)@).to_set() == views_of(old(set)@).to_set().insert(allele@),
{
    let ghost before = views_of(set@);
    let n = set.len();
    let mut i: usize = 0;
    let mut searching = true;
    while searching && i < n
        invariant
            n == set@.len(),
            i <= n,
            views_of(set@) == before,
            strictly_sorted(before),
            forall|k: int| 0 <= k < i ==> bytes_lt(#[trigger] before[k], allele@),
            !searching ==> i < n && bytes_lt(allele@, before[i as int]),
        decreases n - i + (if searching { 1int } else { 0 }),
    {
        match compare_bytes(set[i].as_slice(), allele.as_slice()) {
            Ordering::Less => {
                i = i + 1;
            },
            Ordering::Equal => {
                proof {
                    assert(before[i as int] == allele@);
                    assert(before.to_set().insert(allele@) =~= before.to_set());
                }
                return;
            },
            Ordering::Greater => {
                searching = false;
            },
        }
    }
    proof {
        assert forall|k: int| i <= k < n implies bytes_lt(allele@, #[trigger] before[k]) by {
            if k > i {
                lemma_lt_transitive(allele@, before[i as int], before[k]);
            }
        }
    }
    set.insert(i, allele);
    proof {
        let after = views_of(set@);
        assert(after =~= before.insert(i as int, allele@));
        assert forall|j: int, k: int| 0 <= j < k < after.len() implies bytes_lt(
            #[trigger] after[j],
            #[trigger] after[k],
        ) by {
            if k < i {
            } else if k == i {
            } else if j < i {
                lemma_lt_transitive(after[j], allele@, after[k]);
            } else if j == i {
            } else {
                assert(after[j] == before[j - 1] && after[k] == before[k - 1]);
            }
        }
        assert forall|x: Seq<u8>| after.contains(x) <==> before.contains(x) || x == allele@ by {
            if after.contains(x) {
                let k = choose|k: int| 0 <= k < after.len() && after[k] == x;
                if k < i {
                    assert(before[k] == x);
                } else if k > i {
                    assert(before[k - 1] == x);
                }
            }
            if before.contains(x) {
                let k = choose|k: int| 0 <= k < before.len() && before[k] == x;
                if k < i {
                    assert(after[k] == x);
                } else {
                    assert(after[k + 1] == x);
                }
            }
            if x == allele@ {
                assert(after[i as int] == x);
            }
        }
        assert(after.to_set() =~= before.to_set().insert(allele@));
    }
}

} // verus!
