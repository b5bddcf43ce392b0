//! Character-sequence specifications shared by the classifier and the
//! renderer: lexicographic order on part numbers, substring containment on
//! finished-good codes, and decimal rendering of counters.

use vstd::prelude::*;

verus! {

/// Lexicographic "less than or equal" on character sequences, with characters
/// ordered by code point: the natural order of part numbers in the report.
pub open spec fn str_le(a: Seq<char>, b: Seq<char>) -> bool
    decreases a.len(),
{
    if a.len() == 0 {
        true
    } else if b.len() == 0 {
        false
    } else if a[0] == b[0] {
        str_le(a.skip(1), b.skip(1))
    } else {
        (a[0] as int) < (b[0] as int)
    }
}

/// The lexicographic order relates every pair of character sequences.
pub proof fn lemma_str_le_total(a: Seq<char>, b: Seq<char>)
    ensures
        str_le(a, b) || str_le(b, a),
    decreases a.len(),
{
    if a.len() == 0 {
        assert(str_le(a, b));
    } else if b.len() == 0 {
        assert(str_le(b, a));
    } else if a[0] == b[0] {
        lemma_str_le_total(a.skip(1), b.skip(1));
    } else {
        assert(a[0] as int != b[0] as int);
        assert(str_le(a, b) || str_le(b, a));
    }
}

/// Two character sequences below or equal to each other are equal.
pub proof fn lemma_str_le_antisymmetric(a: Seq<char>, b: Seq<char>)
    requires
        str_le(a, b),
        str_le(b, a),
    ensures
        a == b,
    decreases a.len(),
{
    if a.len() == 0 {
        assert(b.len() == 0);
        assert(a =~= b);
    } else {
        assert(a[0] == b[0]);
        lemma_str_le_antisymmetric(a.skip(1), b.skip(1));
        assert(a.skip(1).len() == b.skip(1).len());
        assert forall|i: int| 0 <= i < a.len() implies a[i] == b[i] by {
            if i >= 1 {
                assert(a[i] == a.skip(1)[i - 1]);
                assert(b[i] == b.skip(1)[i - 1]);
            }
        }
        assert(a =~= b);
    }
}

/// The lexicographic order is transitive.
pub proof fn lemma_str_le_transitive(a: Seq<char>, b: Seq<char>, c: Seq<char>)
    requires
        str_le(a, b),
        str_le(b, c),
    ensures
        str_le(a, c),
    decreases a.len(),
{
    if a.len() != 0 && b.len() != 0 && c.len() != 0 {
        if a[0] == b[0] && b[0] == c[0] {
            lemma_str_le_transitive(a.skip(1), b.skip(1), c.skip(1));
        }
    }
}

/// Compares two strings in the lexicographic order of their characters.
pub fn str_le_exec(a: &str, b: &str) -> (r: bool)
    ensures
        r == str_le(a@, b@),
{
    let a_len = a.unicode_len();
    let b_len = b.unicode_len();
    let mut i: usize = 0;
    proof {
        assert(a@.skip(0) =~= a@);
        assert(b@.skip(0) =~= b@);
    }
    loop
        invariant
            0 <= i <= a_len,
            i <= b_len,
            a_len == a@.len(),
            b_len == b@.len(),
            forall|t: int| 0 <= t < i ==> a@[t] == b@[t],
            str_le(a@, b@) == str_le(a@.skip(i as int), b@.skip(i as int)),
        decreases a_len - i,
    {
        if i == a_len {
            proof {
                assert(a@.skip(i as int).len() == 0);
            }
            return true;
        }
        if i == b_len {
            proof {
                assert(b@.skip(i as int).len() == 0);
                assert(a@.skip(i as int).len() > 0);
            }
            return false;
        }
        let ca = a.get_char(i);
        let cb = b.get_char(i);
        if ca == cb {
            proof {
                assert(a@.skip(i as int)[0] == a@[i as int]);
                assert(b@.skip(i as int)[0] == b@[i as int]);
                assert(a@.skip(i as int).skip(1) =~= a@.skip(i + 1));
                assert(b@.skip(i as int).skip(1) =~= b@.skip(i + 1));
            }
            i = i + 1;
        } else {
            proof {
                assert(a@.skip(i as int)[0] == a@[i as int]);
                assert(b@.skip(i as int)[0] == b@[i as int]);
                assert(ca as u32 == ca as int);
                assert(cb as u32 == cb as int);
            }
            return (ca as u32) < (cb as u32);
        }
    }
}

/// Decides equality of two strings, character by character.
pub fn str_eq_exec(a: &str, b: &str) -> (r: bool)
    ensures
        r == (a@ == b@),
{
    let a_len = a.unicode_len();
    let b_len = b.unicode_len();
    if a_len != b_len {
        return false;
    }
    let mut i: usize = 0;
    while i < a_len
        invariant
            0 <= i <= a_len,
            a_len == a@.len(),
            b_len == b@.len(),
            a_len == b_len,
            forall|t: int| 0 <= t < i ==> a@[t] == b@[t],
        decreases a_len - i,
    {
        if a.get_char(i) != b.get_char(i) {
            return false;
        }
        i = i + 1;
    }
    proof {
        assert(a@ =~= b@);
    }
    true
}

/// The character for a single decimal digit.
pub open spec fn digit_char(d: nat) -> char {
    if d == 0 {
        '0'
    } else if d == 1 {
        '1'
    } else if d == 2 {
        '2'
    } else if d == 3 {
        '3'
    } else if d == 4 {
        '4'
    } else if d == 5 {
        '5'
    } else if d == 6 {
        '6'
    } else if d == 7 {
        '7'
    } else if d == 8 {
        '8'
    } else {
        '9'
    }
}

/// The usual decimal rendering of a number, without leading zeroes
/// (except for the single digit of zero itself).
pub open spec fn dec_digits(n: nat) -> Seq<char>
    decreases n,
{
    if n < 10 {
        seq![digit_char(n)]
    } else {
        dec_digits(n / 10).push(digit_char(n % 10))
    }
}

/// The one-character string for a single decimal digit.
pub fn digit_str(d: u128) -> (r: &'static str)
    requires
        d < 10,
    ensures
        r@ == seq![digit_char(d as nat)],
{
    proof {
        reveal_strlit("0");
        reveal_strlit("1");
        reveal_strlit("2");
        reveal_strlit("3");
        reveal_strlit("4");
        reveal_strlit("5");
        reveal_strlit("6");
        reveal_strlit("7");
        reveal_strlit("8");
        reveal_strlit("9");
    }
    let r = if d == 0 {
        "0"
    } else if d == 1 {
        "1"
    } else if d == 2 {
        "2"
    } else if d == 3 {
        "3"
    } else if d == 4 {
        "4"
    } else if d == 5 {
        "5"
    } else if d == 6 {
        "6"
    } else if d == 7 {
        "7"
    } else if d == 8 {
        "8"
    } else {
        "9"
    };
    proof {
        assert(r@ =~= seq![digit_char(d as nat)]);
    }
    r
}

/// Renders a counter in decimal.
pub fn dec_str(n: u128) -> (r: String)
    ensures
        r@ == dec_digits(n as nat),
    decreases n,
{
    if n < 10 {
        String::from_str(digit_str(n))
    } else {
        let prefix = dec_str(n / 10);
        let r = prefix.concat(digit_str(n % 10));
        proof {
            assert(r@ =~= dec_digits(n as nat));
        }
        r
    }
}

/// Exact, case-sensitive containment of one character sequence in another.
pub open spec fn contains_sub(hay: Seq<char>, needle: Seq<char>) -> bool {
    exists|i: int|
        0 <= i && i + needle.len() <= hay.len() && #[trigger] hay.subrange(i, i + needle.len())
            == needle
}

/// Tests whether `needle` occurs anywhere in `hay` as a contiguous run of
/// characters.
pub fn contains_exec(hay: &str, needle: &str) -> (r: bool)
    ensures
        r == contains_sub(hay@, needle@),
{
    let h_len = hay.unicode_len();
    let n_len = needle.unicode_len();
    if n_len > h_len {
        proof {
            assert(!contains_sub(hay@, needle@)) by {
                if contains_sub(hay@, needle@) {
                    let i = choose|i: int|
                        0 <= i && i + needle@.len() <= hay@.len() && #[trigger] hay@.subrange(
                            i,
                            i + needle@.len(),
                        ) == needle@;
                    assert(i >= 0 && i + needle@.len() <= hay@.len());
                }
            }
        }
        return false;
    }
    let mut i: usize = 0;
    loop
        invariant
            0 <= i <= h_len - n_len + 1,
            n_len <= h_len,
            h_len == hay@.len(),
            n_len == needle@.len(),
            forall|k: int|
                0 <= k < i ==> #[trigger] hay@.subrange(k, k + needle@.len()) != needle@,
        decreases h_len - n_len + 1 - i,
    {
        if i > h_len - n_len {
            proof {
                assert(!contains_sub(hay@, needle@)) by {
                    if contains_sub(hay@, needle@) {
                        let k = choose|k: int|
                            0 <= k && k + needle@.len() <= hay@.len() && #[trigger] hay@.subrange(
                                k,
                                k + needle@.len(),
                            ) == needle@;
                        assert(k < i);
                    }
                }
            }
            return false;
        }
        let mut j: usize = 0;
        let mut same: bool = true;
        while same && j < n_len
            invariant
                0 <= j <= n_len,
                i + n_len <= h_len,
                h_len == hay@.len(),
                n_len == needle@.len(),
                same ==> forall|t: int| 0 <= t < j ==> hay@[i + t] == needle@[t],
                !same ==> exists|t: int| 0 <= t < n_len && hay@[i + t] != needle@[t],
            decreases n_len - j + (if same { 1int } else { 0int }),
        {
            if hay.get_char(i + j) == needle.get_char(j) {
                j = j + 1;
            } else {
                same = false;
            }
        }
        if same {
            proof {
                assert(hay@.subrange(i as int, i + needle@.len()) =~= needle@);
            }
            return true;
        }
        proof {
            let t = choose|t: int| 0 <= t < n_len && hay@[i + t] != needle@[t];
            assert(hay@.subrange(i as int, i + needle@.len())[t] == hay@[i + t]);
            assert(hay@.subrange(i as int, i + needle@.len()) != needle@);
        }
        i = i + 1;
    }
}

} // verus!
