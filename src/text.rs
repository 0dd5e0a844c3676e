use vstd::prelude::*;

verus! {

/// Three-way lexicographic comparison of two character sequences from position `i` on,
/// by code point (the order of `str`'s `Ord`): -1, 0 or 1.
pub open spec fn cmp_chars_from(a: Seq<char>, b: Seq<char>, i: int) -> int
    decreases a.len() - i,
{
    if i >= a.len() {
        if i >= b.len() {
            0
        } else {
            -1
        }
    } else if i >= b.len() {
        1
    } else if a[i] == b[i] {
        cmp_chars_from(a, b, i + 1)
    } else if (a[i] as u32) < (b[i] as u32) {
        -1
    } else {
        1
    }
}

pub open spec fn cmp_chars(a: Seq<char>, b: Seq<char>) -> int {
    cmp_chars_from(a, b, 0)
}

pub proof fn lemma_cmp_chars_from_refl(a: Seq<char>, i: int)
    requires
        0 <= i,
    ensures
        cmp_chars_from(a, a, i) == 0,
    decreases a.len() - i,
{
    if i < a.len() {
        lemma_cmp_chars_from_refl(a, i + 1);
    }
}

pub proof fn lemma_cmp_chars_from_zero(a: Seq<char>, b: Seq<char>, i: int)
    requires
        0 <= i <= a.len(),
        i <= b.len(),
        a.subrange(0, i) == b.subrange(0, i),
        cmp_chars_from(a, b, i) == 0,
    ensures
        a == b,
    decreases a.len() - i,
{
    if i < a.len() {
        assert(a.subrange(0, i + 1) =~= a.subrange(0, i).push(a[i]));
        assert(b.subrange(0, i + 1) =~= b.subrange(0, i).push(b[i]));
        lemma_cmp_chars_from_zero(a, b, i + 1);
    } else {
        assert(b.len() <= i);
        assert(a =~= a.subrange(0, i));
        assert(b =~= b.subrange(0, i));
    }
}

/// Two sequences compare equal exactly when they are the same sequence.
pub proof fn lemma_cmp_chars_zero_iff(a: Seq<char>, b: Seq<char>)
    ensures
        (cmp_chars(a, b) == 0) <==> (a == b),
        -1 <= cmp_chars(a, b) <= 1,
{
    lemma_cmp_chars_range(a, b, 0);
    if a == b {
        lemma_cmp_chars_from_refl(a, 0);
    }
    if cmp_chars(a, b) == 0 {
        assert(a.subrange(0, 0) =~= b.subrange(0, 0));
        lemma_cmp_chars_from_zero(a, b, 0);
    }
}

pub proof fn lemma_cmp_chars_range(a: Seq<char>, b: Seq<char>, i: int)
    ensures
        -1 <= cmp_chars_from(a, b, i) <= 1,
    decreases a.len() - i,
{
    if i < a.len() && i < b.len() {
        lemma_cmp_chars_range(a, b, i + 1);
    }
}

proof fn lemma_char_cast_injective(a: char, b: char)
    requires
        a as u32 == b as u32,
    ensures
        a == b,
{
    vstd::utf8::char_u32_cast(a, a as u32);
    vstd::utf8::char_u32_cast(b, b as u32);
}

proof fn lemma_cmp_chars_from_antisym(a: Seq<char>, b: Seq<char>, i: int)
    ensures
        cmp_chars_from(a, b, i) == -cmp_chars_from(b, a, i),
    decreases a.len() - i,
{
    if i < a.len() && i < b.len() {
        if a[i] == b[i] {
            lemma_cmp_chars_from_antisym(a, b, i + 1);
        } else if a[i] as u32 == b[i] as u32 {
            lemma_char_cast_injective(a[i], b[i]);
        }
    }
}

proof fn lemma_cmp_chars_from_trans(a: Seq<char>, b: Seq<char>, c: Seq<char>, i: int)
    requires
        cmp_chars_from(a, b, i) <= 0,
        cmp_chars_from(b, c, i) <= 0,
    ensures
        cmp_chars_from(a, c, i) <= 0,
        cmp_chars_from(a, b, i) < 0 || cmp_chars_from(b, c, i) < 0 ==> cmp_chars_from(a, c, i) < 0,
    decreases a.len() - i,
{
    if i < a.len() && i < b.len() && i < c.len() {
        if a[i] == b[i] && b[i] == c[i] {
            lemma_cmp_chars_from_trans(a, b, c, i + 1);
        }
    }
}

/// The comparison is antisymmetric.
pub proof fn lemma_cmp_chars_antisym(a: Seq<char>, b: Seq<char>)
    ensures
        cmp_chars(a, b) == -cmp_chars(b, a),
{
    lemma_cmp_chars_from_antisym(a, b, 0);
}

/// The comparison is transitive, strictly where either step is strict.
pub proof fn lemma_cmp_chars_trans(a: Seq<char>, b: Seq<char>, c: Seq<char>)
    requires
        cmp_chars(a, b) <= 0,
        cmp_chars(b, c) <= 0,
    ensures
        cmp_chars(a, c) <= 0,
        cmp_chars(a, b) < 0 || cmp_chars(b, c) < 0 ==> cmp_chars(a, c) < 0,
{
    lemma_cmp_chars_from_trans(a, b, c, 0);
}

/// Compares two strings by code point, as `str`'s `Ord` does.
pub fn compare_str(a: &str, b: &str) -> (r: i8)
    ensures
        r as int == cmp_chars(a@, b@),
{
    let la = a.unicode_len();
    let lb = b.unicode_len();
    let mut i: usize = 0;
    while i < la && i < lb
        invariant
            la == a@.len(),
            lb == b@.len(),
            i <= la,
            i <= lb,
            cmp_chars(a@, b@) == cmp_chars_from(a@, b@, i as int),
        decreases la - i,
    {
        let ca = a.get_char(i);
        let cb = b.get_char(i);
        if ca != cb {
            if (ca as u32) < (cb as u32) {
                return -1;
            }
            return 1;
        }
        i = i + 1;
    }
    if i >= la {
        if i >= lb {
            0
        } else {
            -1
        }
    } else {
        1
    }
}

/// Whether `s` ends with `suffix`.
pub open spec fn ends_with_spec(s: Seq<char>, suffix: Seq<char>) -> bool {
    suffix.len() <= s.len() && s.subrange(s.len() - suffix.len(), s.len() as int) == suffix
}

pub fn ends_with(s: &str, suffix: &str) -> (r: bool)
    ensures
        r == ends_with_spec(s@, suffix@),
{
    let ls = s.unicode_len();
    let lx = suffix.unicode_len();
    if lx > ls {
        return false;
    }
    let off = ls - lx;
    let mut i: usize = 0;
    while i < lx
        invariant
            ls == s@.len(),
            lx == suffix@.len(),
            off == ls - lx,
            i <= lx,
            forall|j: int| 0 <= j < i ==> s@[off + j] == suffix@[j],
        decreases lx - i,
    {
        if s.get_char(off + i) != suffix.get_char(i) {
            assert(s@.subrange(off as int, ls as int)[i as int] != suffix@[i as int]);
            return false;
        }
        i = i + 1;
    }
    assert(s@.subrange(off as int, ls as int) =~= suffix@);
    true
}

/// Whether two strings hold the same characters.
pub fn str_eq(a: &str, b: &str) -> (r: bool)
    ensures
        r == (a@ == b@),
{
    let c = compare_str(a, b);
    proof {
        lemma_cmp_chars_zero_iff(a@, b@);
    }
    c == 0
}

} // verus!
