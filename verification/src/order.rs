//! The order in which `str` values compare: lexicographic by Unicode code point.

use vstd::prelude::*;
use crate::text::chars_of;

verus! {

/// `a` orders strictly before `b`: lexicographically by code point, a proper
/// prefix before any extension of it.
pub open spec fn chars_lt(a: Seq<char>, b: Seq<char>) -> bool
    decreases a.len(),
{
    if b.len() == 0 {
        false
    } else if a.len() == 0 {
        true
    } else if a[0] != b[0] {
        (a[0] as int) < (b[0] as int)
    } else {
        chars_lt(a.drop_first(), b.drop_first())
    }
}

/// Whether `a` orders before `b`, as `<` on `str` decides (strings order
/// lexicographically by their bytes, which orders code points by value).
pub fn str_less(a: &str, b: &str) -> (res: bool)
    ensures
        res == chars_lt(a@, b@),
{
    let x = chars_of(a);
    let y = chars_of(b);
    let mut i: usize = 0;
    assert(x@.skip(0) =~= x@);
    assert(y@.skip(0) =~= y@);
    loop
        invariant
            x@ == a@,
            y@ == b@,
            0 <= i <= x@.len(),
            i <= y@.len(),
            chars_lt(x@, y@) == chars_lt(x@.skip(i as int), y@.skip(i as int)),
        decreases x@.len() - i,
    {
        if i == y.len() {
            return false;
        }
        if i == x.len() {
            return true;
        }
        let ghost xs = x@.skip(i as int);
        let ghost ys = y@.skip(i as int);
        assert(xs[0] == x@[i as int] && ys[0] == y@[i as int]);
        let cx = x[i];
        let cy = y[i];
        if cx != cy {
            let less = cx < cy;
            assert(chars_lt(xs, ys) == less);
            return less;
        }
        assert(xs.drop_first() =~= x@.skip(i + 1));
        assert(ys.drop_first() =~= y@.skip(i + 1));
        i = i + 1;
    }
}

/// No sequence orders before itself.
pub proof fn lemma_chars_lt_irreflexive(a: Seq<char>)
    ensures
        !chars_lt(a, a),
    decreases a.len(),
{
    if a.len() > 0 {
        lemma_chars_lt_irreflexive(a.drop_first());
    }
}

/// `chars_lt` is transitive.
pub proof fn lemma_chars_lt_transitive(a: Seq<char>, b: Seq<char>, c: Seq<char>)
    requires
        chars_lt(a, b),
        chars_lt(b, c),
    ensures
        chars_lt(a, c),
    decreases a.len(),
{
    if a.len() > 0 && b.len() > 0 && c.len() > 0 && a[0] == b[0] && b[0] == c[0] {
        lemma_chars_lt_transitive(a.drop_first(), b.drop_first(), c.drop_first());
    }
}

/// Two different sequences are ordered one way or the other.
pub proof fn lemma_chars_lt_total(a: Seq<char>, b: Seq<char>)
    requires
        a != b,
    ensures
        chars_lt(a, b) || chars_lt(b, a),
    decreases a.len(),
{
    if a.len() > 0 && b.len() > 0 {
        if a[0] == b[0] {
            if a.drop_first() == b.drop_first() {
                assert(a =~= seq![a[0]] + a.drop_first());
                assert(b =~= seq![b[0]] + b.drop_first());
            }
            lemma_chars_lt_total(a.drop_first(), b.drop_first());
        } else {
            assert((a[0] as int) != (b[0] as int));
        }
    } else if a.len() == 0 && b.len() == 0 {
        assert(a =~= b);
    }
}

/// `chars_lt` is the order of `str`: `a` comes before `b` exactly when `a`
/// is a proper prefix of `b`, or when, at the first position where the two
/// differ, the character of `a` has the smaller code point.
pub proof fn law_chars_lt_is_code_point_order(a: Seq<char>, b: Seq<char>)
    ensures
        chars_lt(a, b) <==> ((a.len() < b.len() && a == b.take(a.len() as int)) || exists|i: int|
            #![trigger a.take(i), b.take(i)]
            0 <= i < a.len() && i < b.len() && a.take(i) == b.take(i) && (a[i] as int) < (
            b[i] as int)),
    decreases a.len(),
{
    if b.len() == 0 {
    } else if a.len() == 0 {
        assert(a =~= b.take(0));
    } else if a[0] != b[0] {
        if (a[0] as int) < (b[0] as int) {
            assert(a.take(0) =~= b.take(0));
        } else {
            assert(!(a.len() < b.len() && a == b.take(a.len() as int))) by {
                if a == b.take(a.len() as int) {
                    assert(a[0] == b.take(a.len() as int)[0]);
                }
            }
            assert forall|i: int|
                0 <= i < a.len() && i < b.len() && #[trigger] a.take(i) == #[trigger] b.take(i)
                implies !((a[i] as int) < (b[i] as int)) by {
                if i > 0 {
                    assert(a.take(i)[0] == b.take(i)[0]);
                }
            }
        }
    } else {
        let a1 = a.drop_first();
        let b1 = b.drop_first();
        law_chars_lt_is_code_point_order(a1, b1);
        // The prefix case carries over between (a, b) and their tails.
        if a.len() < b.len() {
            if a1 == b1.take(a1.len() as int) {
                assert forall|k: int| 0 <= k < a.len() implies a[k] == b.take(a.len() as int)[k] by {
                    if k > 0 {
                        assert(a[k] == a1[k - 1]);
                        assert(a1[k - 1] == b1.take(a1.len() as int)[k - 1]);
                    }
                }
                assert(a =~= b.take(a.len() as int));
            }
            if a == b.take(a.len() as int) {
                assert forall|k: int| 0 <= k < a1.len() implies a1[k] == b1.take(a1.len() as int)[k] by {
                    assert(a[k + 1] == b.take(a.len() as int)[k + 1]);
                }
                assert(a1 =~= b1.take(a1.len() as int));
            }
        }
        // A first difference of the tails at `j` is one of the whole at `j + 1`.
        if exists|j: int|
            #![trigger a1.take(j), b1.take(j)]
            0 <= j < a1.len() && j < b1.len() && a1.take(j) == b1.take(j) && (a1[j] as int) < (
            b1[j] as int) {
            let j = choose|j: int|
                #![trigger a1.take(j), b1.take(j)]
                0 <= j < a1.len() && j < b1.len() && a1.take(j) == b1.take(j) && (a1[j] as int) < (
                b1[j] as int);
            assert forall|k: int| 0 <= k < j + 1 implies #[trigger] a.take(j + 1)[k] == b.take(j + 1)[k] by {
                if k > 0 {
                    assert(a1.take(j)[k - 1] == b1.take(j)[k - 1]);
                }
            }
            assert(a.take(j + 1) =~= b.take(j + 1));
            assert(a[j + 1] == a1[j] && b[j + 1] == b1[j]);
        }
        assert forall|i: int|
            0 <= i < a.len() && i < b.len() && #[trigger] a.take(i) == #[trigger] b.take(i) && (
            a[i] as int) < (b[i] as int) implies (0 <= i - 1 < a1.len() && i - 1 < b1.len()
            && a1.take(i - 1) == b1.take(i - 1) && (a1[i - 1] as int) < (b1[i - 1] as int)) by {
            assert(i > 0);
            assert forall|k: int| 0 <= k < i - 1 implies #[trigger] a1.take(i - 1)[k] == b1.take(i - 1)[k] by {
                assert(a.take(i)[k + 1] == b.take(i)[k + 1]);
            }
            assert(a1.take(i - 1) =~= b1.take(i - 1));
        }
    }
}

/// On single characters the order is that of their code points.
pub proof fn law_chars_lt_on_chars(x: char, y: char)
    ensures
        chars_lt(seq![x], seq![y]) <==> (x as int) < (y as int),
{
    let a = seq![x];
    let b = seq![y];
    if x == y {
        lemma_chars_lt_irreflexive(a);
    } else {
        assert(a[0] == x && b[0] == y);
    }
}

} // verus!
