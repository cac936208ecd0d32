//! The order of strings: lexicographic, by the code points of their characters.

use crate::text::to_chars;
use vstd::prelude::*;

verus! {

/// `a` comes before `b`.
pub open spec fn precedes(a: Seq<char>, b: Seq<char>) -> bool
    decreases a.len(),
{
    if b.len() == 0 {
        false
    } else if a.len() == 0 {
        true
    } else if a[0] == b[0] {
        precedes(a.drop_first(), b.drop_first())
    } else {
        (a[0] as int) < (b[0] as int)
    }
}

/// No string comes before itself.
pub(crate) proof fn lemma_precedes_irreflexive(a: Seq<char>)
    ensures
        !precedes(a, a),
    decreases a.len(),
{
    if a.len() > 0 {
        lemma_precedes_irreflexive(a.drop_first());
    }
}

/// What comes before a string comes before all that this string comes before.
pub(crate) proof fn lemma_precedes_transitive(a: Seq<char>, b: Seq<char>, c: Seq<char>)
    requires
        precedes(a, b),
        precedes(b, c),
    ensures
        precedes(a, c),
    decreases a.len(),
{
    if a.len() > 0 && a[0] == b[0] && b[0] == c[0] {
        lemma_precedes_transitive(a.drop_first(), b.drop_first(), c.drop_first());
    }
}

/// Of two different strings one comes before the other.
pub(crate) proof fn lemma_precedes_total(a: Seq<char>, b: Seq<char>)
    ensures
        a == b || precedes(a, b) || precedes(b, a),
    decreases a.len(),
{
    if a.len() > 0 && b.len() > 0 {
        if a[0] == b[0] {
            lemma_precedes_total(a.drop_first(), b.drop_first());
            assert(a == seq![a[0]] + a.drop_first());
            assert(b == seq![b[0]] + b.drop_first());
        }
    } else if a.len() == 0 && b.len() == 0 {
        assert(a == b);
    }
}

/// One string comes before another exactly where the two are alike up to some position, and there
/// the first ends before the second or has the character with the lower code point.
pub proof fn law_order_is_that_of_the_first_difference(a: Seq<char>, b: Seq<char>)
    ensures
        precedes(a, b) <==> exists|at: int|
            {
                &&& 0 <= at <= a.len()
                &&& at < b.len()
                &&& #[trigger] a.take(at) == b.take(at)
                &&& at == a.len() || (a[at] as int) < (b[at] as int)
            },
    decreases a.len(),
{
    if a.len() > 0 && b.len() > 0 && a[0] == b[0] {
        let (c, d) = (a.drop_first(), b.drop_first());
        law_order_is_that_of_the_first_difference(c, d);
        if precedes(a, b) {
            let at = choose|at: int|
                {
                    &&& 0 <= at <= c.len()
                    &&& at < d.len()
                    &&& #[trigger] c.take(at) == d.take(at)
                    &&& at == c.len() || (c[at] as int) < (d[at] as int)
                };
            assert(a.take(at + 1) =~= seq![a[0]] + c.take(at));
            assert(b.take(at + 1) =~= seq![b[0]] + d.take(at));
        }
        if exists|at: int|
            {
                &&& 0 <= at <= a.len()
                &&& at < b.len()
                &&& #[trigger] a.take(at) == b.take(at)
                &&& at == a.len() || (a[at] as int) < (b[at] as int)
            } {
            let at = choose|at: int|
                {
                    &&& 0 <= at <= a.len()
                    &&& at < b.len()
                    &&& #[trigger] a.take(at) == b.take(at)
                    &&& at == a.len() || (a[at] as int) < (b[at] as int)
                };
            assert(c.take(at - 1) =~= a.take(at).skip(1));
            assert(d.take(at - 1) =~= b.take(at).skip(1));
        }
    } else if b.len() > 0 {
        assert(a.take(0) =~= b.take(0));
        assert forall|at: int| 0 < at <= a.len() && at < b.len() implies #[trigger] a.take(at)
            != b.take(at) by {
            assert(a.take(at)[0] == a[0] && b.take(at)[0] == b[0]);
        }
    }
}

/// The code point of a character.
fn code_point(c: char) -> (code: u32)
    ensures
        code == c as int,
{
    c as u32
}

/// Whether `a` comes before `b`.
pub fn comes_before(a: &str, b: &str) -> (r: bool)
    ensures
        r == precedes(a@, b@),
{
    let left = to_chars(a);
    let right = to_chars(b);
    let mut i: usize = 0;
    assert(a@.skip(0) == a@);
    assert(b@.skip(0) == b@);
    while i < left.len() && i < right.len()
        invariant
            left@ == a@,
            right@ == b@,
            i <= left@.len(),
            i <= right@.len(),
            precedes(a@, b@) == precedes(a@.skip(i as int), b@.skip(i as int)),
        decreases left@.len() - i,
    {
        if left[i] != right[i] {
            return code_point(left[i]) < code_point(right[i]);
        }
        assert(a@.skip(i as int).drop_first() == a@.skip(i + 1));
        assert(b@.skip(i as int).drop_first() == b@.skip(i + 1));
        i += 1;
    }
    i < right.len()
}

} // verus!
