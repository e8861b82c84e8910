//! Total orders on keys.
//!
//! The tree compares keys through [`TotalOrder`], a three-way comparison
//! whose result is specified against a strict order `lt` on the key's
//! abstract view (`View::V`).  Working on views lets types such as
//! `String`, whose spec-level equality is coarser than view equality, serve
//! as keys: the tree's map model is keyed by views.

use vstd::prelude::*;

verus! {

/// Result of a three-way comparison.
pub enum Cmp {
    Less,
    Equal,
    Greater,
}

/// A strict total order on the view of a type, together with an executable
/// three-way comparison that decides it.
///
/// `lt` must be transitive, asymmetric and connex (any two views are
/// ordered or equal); `compare` must report exactly how the two views
/// stand to each other.
pub trait TotalOrder: View + Sized {
    /// The strict order on views that the tree sorts by.
    spec fn lt(a: Self::V, b: Self::V) -> bool;

    /// Any two views are ordered one way, the other, or equal.
    proof fn lemma_connex(a: Self::V, b: Self::V)
        ensures
            Self::lt(a, b) || Self::lt(b, a) || a == b,
    ;

    /// The order is asymmetric, hence also irreflexive.
    proof fn lemma_asymmetric(a: Self::V, b: Self::V)
        requires
            Self::lt(a, b),
        ensures
            !Self::lt(b, a),
            a != b,
    ;

    /// The order is transitive.
    proof fn lemma_transitive(a: Self::V, b: Self::V, c: Self::V)
        requires
            Self::lt(a, b),
            Self::lt(b, c),
        ensures
            Self::lt(a, c),
    ;

    /// Three-way comparison deciding `lt` on the views.
    fn compare(&self, other: &Self) -> (c: Cmp)
        ensures
            match c {
                Cmp::Less => Self::lt(self@, other@),
                Cmp::Equal => self@ == other@,
                Cmp::Greater => Self::lt(other@, self@),
            },
    ;
}

impl TotalOrder for i32 {
    open spec fn lt(a: i32, b: i32) -> bool {
        a < b
    }

    proof fn lemma_connex(a: i32, b: i32) {
    }

    proof fn lemma_asymmetric(a: i32, b: i32) {
    }

    proof fn lemma_transitive(a: i32, b: i32, c: i32) {
    }

    fn compare(&self, other: &Self) -> (c: Cmp) {
        if *self < *other {
            Cmp::Less
        } else if *self > *other {
            Cmp::Greater
        } else {
            Cmp::Equal
        }
    }
}

impl TotalOrder for i64 {
    open spec fn lt(a: i64, b: i64) -> bool {
        a < b
    }

    proof fn lemma_connex(a: i64, b: i64) {
    }

    proof fn lemma_asymmetric(a: i64, b: i64) {
    }

    proof fn lemma_transitive(a: i64, b: i64, c: i64) {
    }

    fn compare(&self, other: &Self) -> (c: Cmp) {
        if *self < *other {
            Cmp::Less
        } else if *self > *other {
            Cmp::Greater
        } else {
            Cmp::Equal
        }
    }
}

impl TotalOrder for isize {
    open spec fn lt(a: isize, b: isize) -> bool {
        a < b
    }

    proof fn lemma_connex(a: isize, b: isize) {
    }

    proof fn lemma_asymmetric(a: isize, b: isize) {
    }

    proof fn lemma_transitive(a: isize, b: isize, c: isize) {
    }

    fn compare(&self, other: &Self) -> (c: Cmp) {
        if *self < *other {
            Cmp::Less
        } else if *self > *other {
            Cmp::Greater
        } else {
            Cmp::Equal
        }
    }
}

impl TotalOrder for u32 {
    open spec fn lt(a: u32, b: u32) -> bool {
        a < b
    }

    proof fn lemma_connex(a: u32, b: u32) {
    }

    proof fn lemma_asymmetric(a: u32, b: u32) {
    }

    proof fn lemma_transitive(a: u32, b: u32, c: u32) {
    }

    fn compare(&self, other: &Self) -> (c: Cmp) {
        if *self < *other {
            Cmp::Less
        } else if *self > *other {
            Cmp::Greater
        } else {
            Cmp::Equal
        }
    }
}

impl TotalOrder for u64 {
    open spec fn lt(a: u64, b: u64) -> bool {
        a < b
    }

    proof fn lemma_connex(a: u64, b: u64) {
    }

    proof fn lemma_asymmetric(a: u64, b: u64) {
    }

    proof fn lemma_transitive(a: u64, b: u64, c: u64) {
    }

    fn compare(&self, other: &Self) -> (c: Cmp) {
        if *self < *other {
            Cmp::Less
        } else if *self > *other {
            Cmp::Greater
        } else {
            Cmp::Equal
        }
    }
}

impl TotalOrder for usize {
    open spec fn lt(a: usize, b: usize) -> bool {
        a < b
    }

    proof fn lemma_connex(a: usize, b: usize) {
    }

    proof fn lemma_asymmetric(a: usize, b: usize) {
    }

    proof fn lemma_transitive(a: usize, b: usize, c: usize) {
    }

    fn compare(&self, other: &Self) -> (c: Cmp) {
        if *self < *other {
            Cmp::Less
        } else if *self > *other {
            Cmp::Greater
        } else {
            Cmp::Equal
        }
    }
}

/// Strict lexicographic order on character sequences: the order `String`
/// keys are sorted by.
pub open spec fn chars_lt(a: Seq<char>, b: Seq<char>) -> bool
    decreases a.len(),
{
    if b.len() == 0 {
        false
    } else if a.len() == 0 {
        true
    } else if a[0] == b[0] {
        chars_lt(a.skip(1), b.skip(1))
    } else {
        a[0] < b[0]
    }
}

proof fn lemma_chars_lt_connex(a: Seq<char>, b: Seq<char>)
    ensures
        chars_lt(a, b) || chars_lt(b, a) || a == b,
    decreases a.len(),
{
    if b.len() == 0 {
        if a.len() == 0 {
            assert(a =~= b);
        }
    } else if a.len() == 0 {
    } else if a[0] == b[0] {
        lemma_chars_lt_connex(a.skip(1), b.skip(1));
        if a.skip(1) == b.skip(1) {
            assert(a.skip(1).len() == a.len() - 1);
            assert(b.skip(1).len() == b.len() - 1);
            assert(a.len() == b.len());
            assert forall|j: int| 0 <= j < a.len() implies a[j] == b[j] by {
                if j >= 1 {
                    assert(a.skip(1)[j - 1] == b.skip(1)[j - 1]);
                }
            }
            assert(a =~= b);
        }
    }
}

proof fn lemma_chars_lt_asymmetric(a: Seq<char>, b: Seq<char>)
    requires
        chars_lt(a, b),
    ensures
        !chars_lt(b, a),
        a != b,
    decreases a.len(),
{
    if a.len() == 0 {
        assert(b.len() > 0);
    } else if a[0] == b[0] {
        lemma_chars_lt_asymmetric(a.skip(1), b.skip(1));
        assert(a != b) by {
            if a == b {
                assert(a.skip(1) == b.skip(1));
            }
        }
    }
}

proof fn lemma_chars_lt_transitive(a: Seq<char>, b: Seq<char>, c: Seq<char>)
    requires
        chars_lt(a, b),
        chars_lt(b, c),
    ensures
        chars_lt(a, c),
    decreases a.len() + b.len() + c.len(),
{
    if a.len() == 0 {
    } else if a[0] == b[0] && b[0] == c[0] {
        lemma_chars_lt_transitive(a.skip(1), b.skip(1), c.skip(1));
    }
}

/// A prefix of equal characters followed by a first difference (or by `a`
/// running out first) decides the lexicographic order.
proof fn lemma_chars_lt_at(a: Seq<char>, b: Seq<char>, i: int)
    requires
        0 <= i <= a.len(),
        i <= b.len(),
        forall|j: int| 0 <= j < i ==> a[j] == b[j],
        (i < a.len() && i < b.len() && a[i] < b[i]) || (i == a.len() && i < b.len()),
    ensures
        chars_lt(a, b),
    decreases i,
{
    if i == 0 {
    } else {
        lemma_chars_lt_at(a.skip(1), b.skip(1), i - 1);
    }
}

impl TotalOrder for String {
    open spec fn lt(a: Seq<char>, b: Seq<char>) -> bool {
        chars_lt(a, b)
    }

    proof fn lemma_connex(a: Seq<char>, b: Seq<char>) {
        lemma_chars_lt_connex(a, b);
    }

    proof fn lemma_asymmetric(a: Seq<char>, b: Seq<char>) {
        lemma_chars_lt_asymmetric(a, b);
    }

    proof fn lemma_transitive(a: Seq<char>, b: Seq<char>, c: Seq<char>) {
        lemma_chars_lt_transitive(a, b, c);
    }

    fn compare(&self, other: &Self) -> (c: Cmp) {
        let a = self.as_str();
        let b = other.as_str();
        let a_len = a.unicode_len();
        let b_len = b.unicode_len();
        let mut i: usize = 0;
        while i < a_len && i < b_len
            invariant
                a@ == self@,
                b@ == other@,
                a_len == a@.len(),
                b_len == b@.len(),
                i <= a_len,
                i <= b_len,
                forall|j: int| 0 <= j < i ==> a@[j] == b@[j],
            decreases a_len - i,
        {
            let ca = a.get_char(i);
            let cb = b.get_char(i);
            if ca < cb {
                proof {
                    lemma_chars_lt_at(a@, b@, i as int);
                }
                return Cmp::Less;
            }
            if cb < ca {
                proof {
                    lemma_chars_lt_at(b@, a@, i as int);
                }
                return Cmp::Greater;
            }
            i = i + 1;
        }
        if a_len < b_len {
            proof {
                lemma_chars_lt_at(a@, b@, i as int);
            }
            Cmp::Less
        } else if b_len < a_len {
            proof {
                lemma_chars_lt_at(b@, a@, i as int);
            }
            Cmp::Greater
        } else {
            proof {
                assert(self@ =~= other@);
            }
            Cmp::Equal
        }
    }
}

} // verus!
