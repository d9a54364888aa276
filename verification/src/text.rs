//! Decimal numbers and separated lists as text.
use vstd::prelude::*;

verus! {

/// The character of the decimal digit `d`.
pub open spec fn digit_char(d: nat) -> char {
    ('0' as nat + d) as char
}

/// The decimal representation of `n`, without sign or leading zeros.
pub open spec fn decimal(n: nat) -> Seq<char>
    decreases n,
{
    if n < 10 {
        seq![digit_char(n)]
    } else {
        decimal(n / 10) + seq![digit_char(n % 10)]
    }
}

/// `parts` with `sep` between each two of them.
pub open spec fn join(parts: Seq<Seq<char>>, sep: Seq<char>) -> Seq<char>
    decreases parts.len(),
{
    if parts.len() == 0 {
        Seq::empty()
    } else if parts.len() == 1 {
        parts[0]
    } else {
        join(parts.drop_last(), sep) + sep + parts.last()
    }
}

/// The views of a sequence of strings.
pub open spec fn views(parts: Seq<String>) -> Seq<Seq<char>> {
    Seq::new(parts.len(), |i: int| parts[i]@)
}

/// The numbers of `c` in decimal, separated by `", "`.
pub open spec fn numbers_text(c: Seq<usize>) -> Seq<char> {
    join(Seq::new(c.len(), |i: int| decimal(c[i] as nat)), seq![',', ' '])
}

/// `Display` of a `usize`: its decimal digits.
#[verifier::external_body]
pub(crate) fn decimal_string(x: usize) -> (r: String)
    ensures
        r@ == decimal(x as nat),
{
    format!("{}", x)
}

/// `Itertools::intersperse` of the strings with `sep`, collected into one
/// string: the parts in order, with `sep` between each two of them.
#[verifier::external_body]
pub(crate) fn intersperse_join(parts: Vec<String>, sep: &str) -> (r: String)
    ensures
        r@ == join(views(parts@), sep@),
{
    itertools::Itertools::intersperse(parts.into_iter(), sep.to_owned()).collect()
}

/// The numbers of `c` in decimal, separated by `", "`.
pub fn numbers_string(c: &[usize]) -> (r: String)
    ensures
        r@ == numbers_text(c@),
{
    let mut parts: Vec<String> = Vec::new();
    let mut i: usize = 0;
    while i < c.len()
        invariant
            i <= c@.len(),
            parts@.len() == i,
            views(parts@) == Seq::new(i as nat, |k: int| decimal(c@[k] as nat)),
        decreases c@.len() - i,
    {
        let ghost before = parts@;
        parts.push(decimal_string(c[i]));
        assert forall|k: int| 0 <= k < i implies #[trigger] views(parts@)[k] == decimal(
            c@[k] as nat,
        ) by {
            assert(parts@[k] == before[k]);
            assert(views(before)[k] == decimal(c@[k] as nat));
        }
        i = i + 1;
        assert(views(parts@) =~= Seq::new(i as nat, |k: int| decimal(c@[k] as nat)));
    }
    let sep = ", ";
    proof {
        reveal_strlit(", ");
    }
    assert(sep@ =~= seq![',', ' ']);
    assert(views(parts@) =~= Seq::new(c@.len(), |k: int| decimal(c@[k] as nat)));
    intersperse_join(parts, sep)
}

} // verus!
