//! Generated names for layers and canvases: a fixed prefix followed by a
//! decimal number, probed upward from a starting number until one is found
//! that no existing name equals.

use vstd::prelude::*;

verus! {

/// The character for one decimal digit.
pub open spec fn digit_char(d: int) -> char {
    if d == 0 {
        '0'
    } else if d == 1 {
        '1'
    } else if d == 2 {
        '2'
    } else if d == 3 {
        '3'
    } else if d == 4 {
        '4'
    } else if d == 5 {
        '5'
    } else if d == 6 {
        '6'
    } else if d == 7 {
        '7'
    } else if d == 8 {
        '8'
    } else {
        '9'
    }
}

/// The decimal digits of `n`, most significant first.
pub open spec fn dec_rep(n: nat) -> Seq<char>
    decreases n,
{
    if n < 10 {
        seq![digit_char(n as int)]
    } else {
        dec_rep(n / 10).push(digit_char((n % 10) as int))
    }
}

/// A numbered name: the prefix followed by the decimal digits of `n`.
pub open spec fn numbered_name(prefix: Seq<char>, n: nat) -> Seq<char> {
    prefix + dec_rep(n)
}

/// The character sequences of a list of names.
pub open spec fn name_views(names: Seq<String>) -> Seq<Seq<char>> {
    names.map_values(|nm: String| nm@)
}

/// Whether `s` equals one of the names.
pub open spec fn name_used(names: Seq<Seq<char>>, s: Seq<char>) -> bool {
    exists|i: int| 0 <= i < names.len() && #[trigger] names[i] == s
}

/// The name the probe settles on: the first numbered name from `start`
/// upward that is not in use, or — should the probe budget run out first —
/// the last candidate tried.
pub open spec fn fresh_numbered_name(
    prefix: Seq<char>,
    names: Seq<Seq<char>>,
    start: nat,
    fuel: nat,
) -> Seq<char>
    decreases fuel,
{
    if fuel == 0 || !name_used(names, numbered_name(prefix, start)) {
        numbered_name(prefix, start)
    } else {
        fresh_numbered_name(prefix, names, start + 1, (fuel - 1) as nat)
    }
}

/// Whether the probe finds an unused name within its budget.
pub open spec fn fresh_name_found(
    prefix: Seq<char>,
    names: Seq<Seq<char>>,
    start: nat,
    fuel: nat,
) -> bool
    decreases fuel,
{
    if !name_used(names, numbered_name(prefix, start)) {
        true
    } else if fuel == 0 {
        false
    } else {
        fresh_name_found(prefix, names, start + 1, (fuel - 1) as nat)
    }
}

/// Relies on `String::push`: appends exactly the one character to the end
/// of the string.
#[verifier::external_body]
fn push_char(s: &mut String, c: char)
    ensures
        final(s)@ == old(s)@.push(c),
{
    s.push(c);
}

/// Appends the character of one decimal digit.
fn push_digit(s: &mut String, d: u64)
    requires
        d < 10,
    ensures
        final(s)@ == old(s)@.push(digit_char(d as int)),
{
    if d == 0 {
        push_char(s, '0');
    } else if d == 1 {
        push_char(s, '1');
    } else if d == 2 {
        push_char(s, '2');
    } else if d == 3 {
        push_char(s, '3');
    } else if d == 4 {
        push_char(s, '4');
    } else if d == 5 {
        push_char(s, '5');
    } else if d == 6 {
        push_char(s, '6');
    } else if d == 7 {
        push_char(s, '7');
    } else if d == 8 {
        push_char(s, '8');
    } else {
        push_char(s, '9');
    }
}

/// Appends the decimal digits of `n`.
fn push_decimal(s: &mut String, n: u64)
    ensures
        final(s)@ == old(s)@ + dec_rep(n as nat),
    decreases n,
{
    if n < 10 {
        push_digit(s, n);
        proof {
            assert(s@ =~= old(s)@ + dec_rep(n as nat));
        }
    } else {
        push_decimal(s, n / 10);
        push_digit(s, n % 10);
        proof {
            assert(s@ =~= old(s)@ + dec_rep(n as nat));
        }
    }
}

/// The prefix followed by the decimal digits of `n`.
pub fn make_numbered_name(prefix: &str, n: u64) -> (s: String)
    ensures
        s@ == numbered_name(prefix@, n as nat),
{
    let mut s = String::from_str(prefix);
    push_decimal(&mut s, n);
    s
}

/// Whether `s` equals one of the names in the list.
pub fn contains_name(names: &Vec<String>, s: &String) -> (r: bool)
    ensures
        r == name_used(name_views(names@), s@),
{
    let mut i: usize = 0;
    while i < names.len()
        invariant
            i <= names@.len(),
            forall|j: int| 0 <= j < i ==> #[trigger] name_views(names@)[j] != s@,
        decreases names@.len() - i,
    {
        if names[i] == *s {
            proof {
                assert(name_views(names@)[i as int] == s@);
            }
            return true;
        }
        i = i + 1;
    }
    false
}

/// Probes numbered names from `start` upward and returns the first one
/// not in use; the probe gives up — and hands back the last candidate —
/// after `fuel` collisions.
pub fn find_numbered_name(prefix: &str, names: &Vec<String>, start: u64, fuel: u64) -> (s: String)
    requires
        start + fuel <= u64::MAX,
    ensures
        s@ == fresh_numbered_name(prefix@, name_views(names@), start as nat, fuel as nat),
        fresh_name_found(prefix@, name_views(names@), start as nat, fuel as nat) ==> !name_used(
            name_views(names@),
            s@,
        ),
    decreases fuel,
{
    let candidate = make_numbered_name(prefix, start);
    if fuel == 0 {
        return candidate;
    }
    if !contains_name(names, &candidate) {
        return candidate;
    }
    find_numbered_name(prefix, names, start + 1, fuel - 1)
}

/// Decimal digit characters are distinct.
proof fn lemma_digit_char_injective(a: int, b: int)
    requires
        0 <= a < 10,
        0 <= b < 10,
        digit_char(a) == digit_char(b),
    ensures
        a == b,
{
}

/// A decimal representation holds at least one digit.
proof fn lemma_dec_rep_len(n: nat)
    ensures
        dec_rep(n).len() >= 1,
    decreases n,
{
    if n >= 10 {
        lemma_dec_rep_len(n / 10);
    }
}

/// Distinct numbers have distinct decimal representations.
proof fn lemma_dec_rep_injective(a: nat, b: nat)
    requires
        dec_rep(a) == dec_rep(b),
    ensures
        a == b,
    decreases a,
{
    if a < 10 && b < 10 {
        assert(dec_rep(a)[0] == digit_char(a as int));
        assert(dec_rep(b)[0] == digit_char(b as int));
        lemma_digit_char_injective(a as int, b as int);
    } else if a < 10 {
        lemma_dec_rep_len(b / 10);
        assert(dec_rep(b).len() >= 2);
        assert(dec_rep(a).len() == 1);
    } else if b < 10 {
        lemma_dec_rep_len(a / 10);
        assert(dec_rep(a).len() >= 2);
        assert(dec_rep(b).len() == 1);
    } else {
        let sa = dec_rep(a / 10);
        let sb = dec_rep(b / 10);
        assert(dec_rep(a) == sa.push(digit_char((a % 10) as int)));
        assert(dec_rep(b) == sb.push(digit_char((b % 10) as int)));
        lemma_dec_rep_len(a / 10);
        lemma_dec_rep_len(b / 10);
        assert(dec_rep(a).last() == digit_char((a % 10) as int));
        assert(dec_rep(b).last() == digit_char((b % 10) as int));
        lemma_digit_char_injective((a % 10) as int, (b % 10) as int);
        assert(sa =~= dec_rep(a).drop_last());
        assert(sb =~= dec_rep(b).drop_last());
        lemma_dec_rep_injective(a / 10, b / 10);
        assert(a == 10 * (a / 10) + a % 10);
        assert(b == 10 * (b / 10) + b % 10);
    }
}

/// Distinct numbers give distinct numbered names under one prefix.
proof fn lemma_numbered_name_injective(prefix: Seq<char>, a: nat, b: nat)
    requires
        numbered_name(prefix, a) == numbered_name(prefix, b),
    ensures
        a == b,
{
    let na = numbered_name(prefix, a);
    let nb = numbered_name(prefix, b);
    assert(dec_rep(a) =~= na.subrange(prefix.len() as int, na.len() as int));
    assert(dec_rep(b) =~= nb.subrange(prefix.len() as int, nb.len() as int));
    lemma_dec_rep_injective(a, b);
}

/// A name used after one entry is removed was used before.
proof fn lemma_used_after_remove(names: Seq<Seq<char>>, i0: int, s: Seq<char>)
    requires
        0 <= i0 < names.len(),
        name_used(names.remove(i0), s),
    ensures
        name_used(names, s),
{
    let names2 = names.remove(i0);
    let j = choose|j: int| 0 <= j < names2.len() && #[trigger] names2[j] == s;
    if j < i0 {
        assert(names[j] == s);
    } else {
        assert(names[j + 1] == s);
    }
}

/// A name unused after removing one entry it does not equal was unused
/// before.
proof fn lemma_unused_after_remove(names: Seq<Seq<char>>, i0: int, s: Seq<char>)
    requires
        0 <= i0 < names.len(),
        !name_used(names.remove(i0), s),
        names[i0] != s,
    ensures
        !name_used(names, s),
{
    let names2 = names.remove(i0);
    if name_used(names, s) {
        let j = choose|j: int| 0 <= j < names.len() && #[trigger] names[j] == s;
        if j < i0 {
            assert(names2[j] == s);
        } else if j > i0 {
            assert(names2[j - 1] == s);
        }
    }
}

/// Putting back one name that no probe candidate equals does not stop the
/// probe from finding an unused name.
proof fn lemma_found_with_extra(
    prefix: Seq<char>,
    names: Seq<Seq<char>>,
    i0: int,
    start: nat,
    fuel: nat,
)
    requires
        0 <= i0 < names.len(),
        fresh_name_found(prefix, names.remove(i0), start, fuel),
        forall|k: nat|
            start <= k <= start + fuel ==> #[trigger] numbered_name(prefix, k) != names[i0],
    ensures
        fresh_name_found(prefix, names, start, fuel),
    decreases fuel,
{
    let names2 = names.remove(i0);
    assert(numbered_name(prefix, start) != names[i0]);
    if !name_used(names2, numbered_name(prefix, start)) {
        if name_used(names, numbered_name(prefix, start)) {
            lemma_unused_after_remove(names, i0, numbered_name(prefix, start));
        }
    } else {
        lemma_used_after_remove(names, i0, numbered_name(prefix, start));
        if fuel > 0 {
            lemma_found_with_extra(prefix, names, i0, start + 1, (fuel - 1) as nat);
        }
    }
}

/// The pigeonhole behind name generation: probing at least as many
/// candidates as there are names must find one that is unused, because
/// distinct numbers give distinct names.
pub proof fn lemma_probe_finds_fresh(
    prefix: Seq<char>,
    names: Seq<Seq<char>>,
    start: nat,
    fuel: nat,
)
    requires
        fuel >= names.len(),
    ensures
        fresh_name_found(prefix, names, start, fuel),
        !name_used(names, fresh_numbered_name(prefix, names, start, fuel)),
    decreases names.len(),
{
    lemma_found_gives_unused(prefix, names, start, fuel);
    if name_used(names, numbered_name(prefix, start)) {
        let i0 = choose|i: int|
            0 <= i < names.len() && #[trigger] names[i] == numbered_name(prefix, start);
        let names2 = names.remove(i0);
        lemma_probe_finds_fresh(prefix, names2, start + 1, (fuel - 1) as nat);
        assert forall|k: nat|
            start + 1 <= k <= start + 1 + (fuel - 1) implies #[trigger] numbered_name(prefix, k)
            != names[i0] by {
            if numbered_name(prefix, k) == names[i0] {
                lemma_numbered_name_injective(prefix, k, start);
            }
        }
        lemma_found_with_extra(prefix, names, i0, start + 1, (fuel - 1) as nat);
        assert(fresh_name_found(prefix, names, start, fuel));
    }
}

/// When the probe finds an unused name, the name it settles on is unused.
proof fn lemma_found_gives_unused(
    prefix: Seq<char>,
    names: Seq<Seq<char>>,
    start: nat,
    fuel: nat,
)
    ensures
        fresh_name_found(prefix, names, start, fuel) ==> !name_used(
            names,
            fresh_numbered_name(prefix, names, start, fuel),
        ),
    decreases fuel,
{
    if name_used(names, numbered_name(prefix, start)) && fuel > 0 {
        lemma_found_gives_unused(prefix, names, start + 1, (fuel - 1) as nat);
    }
}

} // verus!
