//! Total orders on key types.
//!
//! Both tree variants are generic in their key type. A key type must supply a
//! total order on its abstract values (its [`View`]) together with an
//! executable three-way comparison that is faithful to that order; the trait
//! [`TreeKey`] packages the two. Orders are stated on views so that types
//! such as `String`, whose mathematical content is a sequence of characters,
//! can serve as keys.

use vstd::prelude::*;
use vstd::string::StrSliceExecFns;

verus! {

/// Outcome of a three-way key comparison.
#[derive(Clone, Copy, Debug, PartialEq, Eq, Structural)]
pub enum KeyCmp {
    Less,
    Equal,
    Greater,
}

/// A type usable as a tree key: its views carry a total order, decided by an
/// executable comparison.
pub trait TreeKey: View + Sized {
    /// The total order on abstract key values.
    spec fn key_le(a: Self::V, b: Self::V) -> bool;

    /// Any two abstract key values are comparable.
    proof fn lemma_le_total(a: Self::V, b: Self::V)
        ensures
            Self::key_le(a, b) || Self::key_le(b, a),
    ;

    /// The order is transitive.
    proof fn lemma_le_trans(a: Self::V, b: Self::V, c: Self::V)
        requires
            Self::key_le(a, b),
            Self::key_le(b, c),
        ensures
            Self::key_le(a, c),
    ;

    /// The order is antisymmetric: mutually ordered values are one value.
    proof fn lemma_le_antisym(a: Self::V, b: Self::V)
        requires
            Self::key_le(a, b),
            Self::key_le(b, a),
        ensures
            a == b,
    ;

    /// Three-way comparison, faithful to `key_le` on the views.
    fn key_cmp(&self, other: &Self) -> (c: KeyCmp)
        ensures
            (match c {
                KeyCmp::Less => Self::key_le(self@, other@) && self@ != other@,
                KeyCmp::Equal => self@ == other@,
                KeyCmp::Greater => Self::key_le(other@, self@) && self@ != other@,
            }),
    ;
}

impl TreeKey for i32 {
    open spec fn key_le(a: i32, b: i32) -> bool {
        a <= b
    }

    proof fn lemma_le_total(a: i32, b: i32) {
    }

    proof fn lemma_le_trans(a: i32, b: i32, c: i32) {
    }

    proof fn lemma_le_antisym(a: i32, b: i32) {
    }

    fn key_cmp(&self, other: &Self) -> (c: KeyCmp) {
        if *self < *other {
            KeyCmp::Less
        } else if *self == *other {
            KeyCmp::Equal
        } else {
            KeyCmp::Greater
        }
    }
}

impl TreeKey for i64 {
    open spec fn key_le(a: i64, b: i64) -> bool {
        a <= b
    }

    proof fn lemma_le_total(a: i64, b: i64) {
    }

    proof fn lemma_le_trans(a: i64, b: i64, c: i64) {
    }

    proof fn lemma_le_antisym(a: i64, b: i64) {
    }

    fn key_cmp(&self, other: &Self) -> (c: KeyCmp) {
        if *self < *other {
            KeyCmp::Less
        } else if *self == *other {
            KeyCmp::Equal
        } else {
            KeyCmp::Greater
        }
    }
}

impl TreeKey for u64 {
    open spec fn key_le(a: u64, b: u64) -> bool {
        a <= b
    }

    proof fn lemma_le_total(a: u64, b: u64) {
    }

    proof fn lemma_le_trans(a: u64, b: u64, c: u64) {
    }

    proof fn lemma_le_antisym(a: u64, b: u64) {
    }

    fn key_cmp(&self, other: &Self) -> (c: KeyCmp) {
        if *self < *other {
            KeyCmp::Less
        } else if *self == *other {
            KeyCmp::Equal
        } else {
            KeyCmp::Greater
        }
    }
}

/// Lexicographic order on character sequences, by code point.
pub open spec fn lex_le(a: Seq<char>, b: Seq<char>) -> bool
    decreases a.len(),
{
    if a.len() == 0 {
        true
    } else if b.len() == 0 {
        false
    } else if a[0] == b[0] {
        lex_le(a.drop_first(), b.drop_first())
    } else {
        (a[0] as u32) < (b[0] as u32)
    }
}

/// Any two character sequences are lexicographically comparable.
pub proof fn lemma_lex_total(a: Seq<char>, b: Seq<char>)
    ensures
        lex_le(a, b) || lex_le(b, a),
    decreases a.len(),
{
    if a.len() == 0 || b.len() == 0 {
    } else if a[0] == b[0] {
        lemma_lex_total(a.drop_first(), b.drop_first());
    } else {
        lemma_char_cast_distinct(a[0], b[0]);
    }
}

/// Distinct characters have distinct code points.
proof fn lemma_char_cast_distinct(x: char, y: char)
    requires
        x != y,
    ensures
        x as u32 != y as u32,
{
    vstd::utf8::char_u32_cast(x, x as u32);
    vstd::utf8::char_u32_cast(y, y as u32);
}

/// Lexicographic order is transitive.
pub proof fn lemma_lex_trans(a: Seq<char>, b: Seq<char>, c: Seq<char>)
    requires
        lex_le(a, b),
        lex_le(b, c),
    ensures
        lex_le(a, c),
    decreases a.len(),
{
    if a.len() > 0 {
        if a[0] == b[0] && b[0] == c[0] {
            lemma_lex_trans(a.drop_first(), b.drop_first(), c.drop_first());
        }
    }
}

/// Lexicographic order is antisymmetric.
pub proof fn lemma_lex_antisym(a: Seq<char>, b: Seq<char>)
    requires
        lex_le(a, b),
        lex_le(b, a),
    ensures
        a == b,
    decreases a.len(),
{
    if a.len() == 0 {
        assert(a =~= b);
    } else if a[0] == b[0] {
        lemma_lex_antisym(a.drop_first(), b.drop_first());
        assert(a =~= b) by {
            assert(a.drop_first() == b.drop_first());
            assert forall|j: int| 0 <= j < a.len() implies a[j] == b[j] by {
                if j > 0 {
                    assert(a[j] == a.drop_first()[j - 1]);
                    assert(b[j] == b.drop_first()[j - 1]);
                }
            }
        }
    } else {
        assert((a[0] as u32) < (b[0] as u32));
        assert((b[0] as u32) < (a[0] as u32));
    }
}

/// A shared prefix does not decide the comparison: it goes on behind it.
proof fn lemma_lex_skip(a: Seq<char>, b: Seq<char>, i: int)
    requires
        0 <= i <= a.len(),
        i <= b.len(),
        forall|j: int| 0 <= j < i ==> a[j] == b[j],
    ensures
        lex_le(a, b) == lex_le(a.skip(i), b.skip(i)),
    decreases i,
{
    if i == 0 {
        assert(a.skip(0) =~= a);
        assert(b.skip(0) =~= b);
    } else {
        assert(a.drop_first() =~= a.skip(1));
        assert(b.drop_first() =~= b.skip(1));
        lemma_lex_skip(a.skip(1), b.skip(1), i - 1);
        assert(a.skip(1).skip(i - 1) =~= a.skip(i));
        assert(b.skip(1).skip(i - 1) =~= b.skip(i));
    }
}

/// Three-way lexicographic comparison of two string slices, by character.
pub fn cmp_str(a: &str, b: &str) -> (c: KeyCmp)
    ensures
        (match c {
            KeyCmp::Less => lex_le(a@, b@) && a@ != b@,
            KeyCmp::Equal => a@ == b@,
            KeyCmp::Greater => lex_le(b@, a@) && b@ != a@,
        }),
{
    let alen = a.unicode_len();
    let blen = b.unicode_len();
    let mut i: usize = 0;
    while i < alen && i < blen
        invariant
            0 <= i <= alen,
            i <= blen,
            alen == a@.len(),
            blen == b@.len(),
            forall|j: int| 0 <= j < i ==> a@[j] == b@[j],
        decreases alen - i,
    {
        let ca = a.get_char(i);
        let cb = b.get_char(i);
        proof {
            if ca != cb {
                lemma_char_cast_distinct(ca, cb);
            }
        }
        if ca as u32 != cb as u32 {
            proof {
                lemma_lex_skip(a@, b@, i as int);
                lemma_lex_skip(b@, a@, i as int);
                assert(a@.skip(i as int)[0] == a@[i as int]);
                assert(b@.skip(i as int)[0] == b@[i as int]);
            }
            if (ca as u32) < (cb as u32) {
                return KeyCmp::Less;
            } else {
                return KeyCmp::Greater;
            }
        }
        i = i + 1;
    }
    if alen == blen {
        proof {
            assert(a@ =~= b@);
        }
        KeyCmp::Equal
    } else if alen < blen {
        proof {
            lemma_lex_skip(a@, b@, i as int);
            assert(a@.skip(i as int).len() == 0);
        }
        KeyCmp::Less
    } else {
        proof {
            lemma_lex_skip(b@, a@, i as int);
            assert(b@.skip(i as int).len() == 0);
        }
        KeyCmp::Greater
    }
}

impl TreeKey for String {
    open spec fn key_le(a: Seq<char>, b: Seq<char>) -> bool {
        lex_le(a, b)
    }

    proof fn lemma_le_total(a: Seq<char>, b: Seq<char>) {
        lemma_lex_total(a, b);
    }

    proof fn lemma_le_trans(a: Seq<char>, b: Seq<char>, c: Seq<char>) {
        lemma_lex_trans(a, b, c);
    }

    proof fn lemma_le_antisym(a: Seq<char>, b: Seq<char>) {
        lemma_lex_antisym(a, b);
    }

    fn key_cmp(&self, other: &Self) -> (c: KeyCmp) {
        cmp_str(self.as_str(), other.as_str())
    }
}

impl TreeKey for &'static str {
    open spec fn key_le(a: Seq<char>, b: Seq<char>) -> bool {
        lex_le(a, b)
    }

    proof fn lemma_le_total(a: Seq<char>, b: Seq<char>) {
        lemma_lex_total(a, b);
    }

    proof fn lemma_le_trans(a: Seq<char>, b: Seq<char>, c: Seq<char>) {
        lemma_lex_trans(a, b, c);
    }

    proof fn lemma_le_antisym(a: Seq<char>, b: Seq<char>) {
        lemma_lex_antisym(a, b);
    }

    fn key_cmp(&self, other: &Self) -> (c: KeyCmp) {
        cmp_str(*self, *other)
    }
}

} // verus!
