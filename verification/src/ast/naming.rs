//! Names of generated definitions.
use vstd::prelude::*;

verus! {

/// The character of the decimal digit `d`.
pub open spec fn digit(d: nat) -> char {
    (48 + d) as char
}

/// The decimal representation of `n`.
pub open spec fn decimal(n: nat) -> Seq<char>
    decreases n,
{
    if n < 10 {
        seq![digit(n)]
    } else {
        decimal(n / 10).push(digit(n % 10))
    }
}

/// The name of the `counter`-th definition of a kind that is generated from the definition `base`.
/// The kind is told apart by `infix`.
pub open spec fn generated_name(base: Seq<char>, infix: Seq<char>, counter: nat) -> Seq<char> {
    base + infix + decimal(counter)
}

/// The digit `d` as text.
fn digit_text(d: usize) -> (r: &'static str)
    requires
        d < 10,
    ensures
        r@ == seq![digit(d as nat)],
{
    proof {
        reveal_strlit("0");
        reveal_strlit("1");
        reveal_strlit("2");
        reveal_strlit("3");
        reveal_strlit("4");
        reveal_strlit("5");
        reveal_strlit("6");
        reveal_strlit("7");
        reveal_strlit("8");
        reveal_strlit("9");
    }
    let r = match d {
        0 => "0",
        1 => "1",
        2 => "2",
        3 => "3",
        4 => "4",
        5 => "5",
        6 => "6",
        7 => "7",
        8 => "8",
        _ => "9",
    };
    assert(r@ =~= seq![digit(d as nat)]);
    r
}

/// Appends the decimal representation of `n` to `text`.
fn append_decimal(text: &mut String, n: usize)
    ensures
        final(text)@ == old(text)@ + decimal(n as nat),
    decreases n,
{
    if n >= 10 {
        append_decimal(text, n / 10);
    }
    text.append(digit_text(n % 10));
    assert(text@ =~= old(text)@ + decimal(n as nat));
}

/// Builds a generated name; see [`generated_name`].
pub fn generate_name(base: &str, infix: &str, counter: usize) -> (r: String)
    ensures
        r@ == generated_name(base@, infix@, counter as nat),
{
    let mut r = base.to_owned();
    r.append(infix);
    append_decimal(&mut r, counter);
    r
}

/// Whether `c` is a decimal digit.
pub open spec fn is_digit(c: char) -> bool {
    digit(0) <= c <= digit(9)
}

/// The number that `s` is the decimal representation of.
pub open spec fn number(s: Seq<char>) -> nat
    decreases s.len(),
{
    if s.len() == 0 {
        0
    } else {
        10 * number(s.drop_last()) + (s.last() as nat - digit(0) as nat) as nat
    }
}

/// A decimal representation has digits only, and is that of one number.
pub proof fn lemma_decimal(n: nat)
    ensures
        decimal(n).len() > 0,
        forall|i: int| 0 <= i < decimal(n).len() ==> is_digit(#[trigger] decimal(n)[i]),
        number(decimal(n)) == n,
    decreases n,
{
    let s = decimal(n);
    if n >= 10 {
        lemma_decimal(n / 10);
        assert(s.drop_last() =~= decimal(n / 10));
        assert forall|i: int| 0 <= i < s.len() implies is_digit(#[trigger] s[i]) by {
            if i < s.len() - 1 {
                assert(s[i] == decimal(n / 10)[i]);
            }
        }
    } else {
        assert(s.drop_last() =~= Seq::empty());
        assert(number(s.drop_last()) == 0);
    }
}

/// Definitions of a kind that are generated from different definitions, or as different ones from
/// the same, have different names.
pub proof fn lemma_generated_names_differ(
    base1: Seq<char>,
    n1: nat,
    base2: Seq<char>,
    n2: nat,
    infix: Seq<char>,
)
    requires
        infix.len() > 0,
        !is_digit(infix.last()),
        generated_name(base1, infix, n1) == generated_name(base2, infix, n2),
    ensures
        base1 == base2,
        n1 == n2,
{
    let name = generated_name(base1, infix, n1);
    let d1 = decimal(n1);
    let d2 = decimal(n2);
    lemma_decimal(n1);
    lemma_decimal(n2);
    if d1.len() < d2.len() {
        let i = name.len() - d1.len() - 1;
        assert(name[i] == infix.last());
        assert(name[i] == d2[i - (base2 + infix).len()]);
    }
    if d2.len() < d1.len() {
        let i = name.len() - d2.len() - 1;
        assert(name[i] == infix.last());
        assert(name[i] == d1[i - (base1 + infix).len()]);
    }
    assert(d1.len() == d2.len());
    assert(name.len() == base1.len() + infix.len() + d1.len());
    assert(generated_name(base2, infix, n2).len() == base2.len() + infix.len() + d2.len());
    assert(base1.len() == base2.len());
    assert forall|i: int| 0 <= i < d1.len() implies d1[i] == d2[i] by {
        assert(name[(base1 + infix).len() + i] == d1[i]);
        assert(name[(base2 + infix).len() + i] == d2[i]);
    }
    assert(d1 =~= d2);
    assert forall|i: int| 0 <= i < base1.len() implies base1[i] == base2[i] by {
        assert(name[i] == base1[i]);
        assert(name[i] == base2[i]);
    }
    assert(base1 =~= base2);
}

/// Definitions of kinds that are told apart by texts which differ in their last letters have
/// different names, whatever they are generated from.
pub proof fn lemma_kinds_differ(
    base1: Seq<char>,
    infix1: Seq<char>,
    n1: nat,
    base2: Seq<char>,
    infix2: Seq<char>,
    n2: nat,
    k: int,
)
    requires
        0 <= k < infix1.len(),
        k < infix2.len(),
        !is_digit(infix1.last()),
        !is_digit(infix2.last()),
        infix1[infix1.len() - 1 - k] != infix2[infix2.len() - 1 - k],
    ensures
        generated_name(base1, infix1, n1) != generated_name(base2, infix2, n2),
{
    let name1 = generated_name(base1, infix1, n1);
    let name2 = generated_name(base2, infix2, n2);
    if name1 == name2 {
        let d1 = decimal(n1);
        let d2 = decimal(n2);
        lemma_decimal(n1);
        lemma_decimal(n2);
        assert(name1.len() == base1.len() + infix1.len() + d1.len());
        assert(name2.len() == base2.len() + infix2.len() + d2.len());
        if d1.len() < d2.len() {
            let i = name1.len() - d1.len() - 1;
            assert(name1[i] == infix1.last());
            assert(name2[i] == d2[i - (base2 + infix2).len()]);
        }
        if d2.len() < d1.len() {
            let i = name1.len() - d2.len() - 1;
            assert(name2[i] == infix2.last());
            assert(name1[i] == d1[i - (base1 + infix1).len()]);
        }
        let i = name1.len() - d1.len() - 1 - k;
        assert(name1[i] == infix1[infix1.len() - 1 - k]);
        assert(name2[i] == infix2[infix2.len() - 1 - k]);
    }
}

/// A generated name starts with that of the definition that it is generated from, goes on with what
/// tells its kind, and ends with its number.
pub proof fn lemma_generated_name(base: Seq<char>, infix: Seq<char>, counter: nat)
    ensures
        ({
            let name = generated_name(base, infix, counter);
            let end = base.len() + infix.len();
            &&& name.len() > end
            &&& name.take(base.len() as int) == base
            &&& name.subrange(base.len() as int, end as int) == infix
            &&& number(name.skip(end as int)) == counter
        }),
{
    let name = generated_name(base, infix, counter);
    let end = base.len() + infix.len();
    lemma_decimal(counter);
    assert(name.take(base.len() as int) =~= base);
    assert(name.subrange(base.len() as int, end as int) =~= infix);
    assert(name.skip(end as int) =~= decimal(counter));
}

} // verus!
