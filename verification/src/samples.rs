//! Small functions that reinitialise a variable. The name of each says whether the lint
//! reports the reinitialisation.
#![allow(unused_assignments, unused_variables, unused_mut)]

use vstd::prelude::*;

verus! {

/// `std::mem::drop` takes a value and gives nothing back.
pub assume_specification<T>[ std::mem::drop::<T> ](_x: T);

/// The code points with the Unicode property `White_Space`.
pub open spec fn is_white_space(c: char) -> bool {
    ||| '\u{9}' <= c <= '\u{d}'
    ||| c == '\u{20}'
    ||| c == '\u{85}'
    ||| c == '\u{a0}'
    ||| c == '\u{1680}'
    ||| '\u{2000}' <= c <= '\u{200a}'
    ||| c == '\u{2028}'
    ||| c == '\u{2029}'
    ||| c == '\u{202f}'
    ||| c == '\u{205f}'
    ||| c == '\u{3000}'
}

/// `t` is what stands in `s` between the white space at its two ends.
pub open spec fn is_trimmed(s: Seq<char>, t: Seq<char>) -> bool {
    exists|i: int, j: int| #[trigger]
        s.subrange(i, j) == t && 0 <= i <= j <= s.len() && (forall|k: int|
            0 <= k < i || j <= k < s.len() ==> is_white_space(#[trigger] s[k])) && (i < j
            ==> !is_white_space(s[i]) && !is_white_space(s[j - 1]))
}

/// `str::trim` gives the slice without the white space, as Unicode defines it, at the
/// beginning and at the end.
pub assume_specification[ str::trim ](s: &str) -> (r: &str)
    ensures
        is_trimmed(s@, r@),
;

/// `s` with the first `count` occurrences of `from` replaced by `to`.
pub open spec fn replaced(s: Seq<char>, from: char, to: Seq<char>, count: nat) -> Seq<char>
    decreases s.len(),
{
    if s.len() == 0 || count == 0 {
        s
    } else if s[0] == from {
        to + replaced(s.drop_first(), from, to, (count - 1) as nat)
    } else {
        seq![s[0]] + replaced(s.drop_first(), from, to, count)
    }
}

/// `str::replacen`, with a character for its pattern, gives a copy of the string in which
/// the first `count` occurrences of the character are replaced by `to`.
#[verifier::external_body]
fn replacen(s: &str, from: char, to: &str, count: usize) -> (r: String)
    ensures
        r@ == replaced(s@, from, to@, count as nat),
{
    s.replacen(from, to, count)
}

/// The string with its first three `o` made `a`.
pub fn first_os_replaced(s: &str) -> (r: String)
    ensures
        r@ == replaced(s@, 'o', "a"@, 3),
{
    replacen(s, 'o', "a", 3)
}

/// The string without the white space at its ends.
pub fn trimmed(x: &str) -> (r: String)
    ensures
        is_trimmed(x@, r@),
{
    x.trim().to_owned()
}

fn foo(_x: &mut String)
    ensures
        *final(_x) == *old(_x),
{
}

/// Nothing uses the variable afterwards.
pub fn should_lint() {
    let mut a: i32 = 1;
    a = a * a * a;
}

/// The fresh variable has to be mutable, for `foo` borrows it mutably.
pub fn should_lint_2() {
    let mut s = String::new();
    s = first_os_replaced(s.as_str());
    foo(&mut s);
    drop(s);
}

/// Both branches reinitialise the variable, which is used where they meet again.
pub fn should_not_lint_3() {
    let mut x = String::new();
    if true {
        x = String::new();
    } else {
        x = trimmed(x.as_str());
    }
    drop(x)
}

/// The loop might be left before the vector was ever reinitialised. As it happens it is
/// not, and nothing is left of what comes in.
pub fn should_not_lint_5(mut v: Vec<String>) -> (r: Vec<String>)
    ensures
        r@.len() == 0,
{
    let mut i: i32 = 0;
    while i < 10
        invariant
            0 <= i <= 10,
            i > 0 ==> v@.len() == 0,
        decreases 10 - i,
    {
        i += 1;
        if true {
            v = Vec::new();
            continue;
        }
        v.push(String::new());
    }
    v
}

/// How often `c` occurs in `s`.
pub open spec fn occurrences(s: Seq<char>, c: char) -> nat
    decreases s.len(),
{
    if s.len() == 0 {
        0
    } else {
        (if s[0] == c {
            1nat
        } else {
            0nat
        }) + occurrences(s.drop_first(), c)
    }
}

/// Replacing one character by another keeps the length. A character is replaced exactly when it
/// is the one to be replaced and fewer than `count` of these stand before it.
pub proof fn law_replaced_in_place(s: Seq<char>, from: char, to: char, count: nat)
    ensures
        replaced(s, from, seq![to], count).len() == s.len(),
        forall|i: int|
            0 <= i < s.len() ==> #[trigger] replaced(s, from, seq![to], count)[i] == if s[i] == from
                && occurrences(s.take(i), from) < count {
                to
            } else {
                s[i]
            },
    decreases s.len(),
{
    if s.len() > 0 && count > 0 {
        let rest = s.drop_first();
        let left: nat = if s[0] == from {
            (count - 1) as nat
        } else {
            count
        };
        law_replaced_in_place(rest, from, to, left);
        let r = replaced(s, from, seq![to], count);
        let head: char = if s[0] == from {
            to
        } else {
            s[0]
        };
        assert(r =~= seq![head] + replaced(rest, from, seq![to], left));
        assert forall|i: int| 0 <= i < s.len() implies #[trigger] r[i] == if s[i] == from
            && occurrences(s.take(i), from) < count {
            to
        } else {
            s[i]
        } by {
            if i > 0 {
                assert(s.take(i).drop_first() =~= rest.take(i - 1));
                assert(s.take(i)[0] == s[0]);
                assert(r[i] == replaced(rest, from, seq![to], left)[i - 1]);
                assert(s[i] == rest[i - 1]);
            } else {
                assert(s.take(0).len() == 0);
            }
        }
    }
}

/// What has been trimmed has no white space at its ends, and trimming it again leaves it as it
/// is.
pub proof fn law_trimmed_once(s: Seq<char>, t: Seq<char>)
    requires
        is_trimmed(s, t),
    ensures
        is_trimmed(t, t),
        t.len() > 0 ==> !is_white_space(t.first()) && !is_white_space(t.last()),
{
    let (i, j) = choose|i: int, j: int| #[trigger]
        s.subrange(i, j) == t && 0 <= i <= j <= s.len() && (forall|k: int|
            0 <= k < i || j <= k < s.len() ==> is_white_space(#[trigger] s[k])) && (i < j
            ==> !is_white_space(s[i]) && !is_white_space(s[j - 1]));
    assert(t.subrange(0, t.len() as int) =~= t);
}

} // verus!
