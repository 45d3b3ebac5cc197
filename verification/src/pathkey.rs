use vstd::prelude::*;

use crate::paths::{components, path_components, path_equal};
use crate::text::{decimal, digit_char, push_char, push_decimal};

verus! {

/// One component in a lookup key: its length in decimal, a colon, then the component.
pub open spec fn key_piece(c: Seq<char>) -> Seq<char> {
    decimal(c.len()) + seq![':'] + c
}

/// The key under which a path is looked up: its components, each written as `key_piece`,
/// so that equal keys mean equal components (`lemma_encode_injective`).
pub open spec fn encode_components(cs: Seq<Seq<char>>) -> Seq<char>
    decreases cs.len(),
{
    if cs.len() == 0 {
        Seq::empty()
    } else {
        key_piece(cs[0]) + encode_components(cs.drop_first())
    }
}

/// The lookup key of a path.
pub open spec fn key_of(p: Seq<char>) -> Seq<char> {
    encode_components(path_components(p))
}

/// The lookup key of the parent of a path: its components without the last. A path has no
/// parent when it has no components or ends in the root `/`.
pub open spec fn parent_key_of(p: Seq<char>) -> Option<Seq<char>> {
    let cs = path_components(p);
    if cs.len() == 0 || cs.last() == "/"@ {
        None
    } else {
        Some(encode_components(cs.drop_last()))
    }
}

pub proof fn lemma_encode_push(cs: Seq<Seq<char>>, c: Seq<char>)
    ensures
        encode_components(cs.push(c)) == encode_components(cs) + key_piece(c),
    decreases cs.len(),
{
    if cs.len() == 0 {
        assert(cs.push(c).drop_first() =~= Seq::<Seq<char>>::empty());
        assert(encode_components(Seq::<Seq<char>>::empty()) == Seq::<char>::empty());
        assert(cs.push(c)[0] == c);
        assert(encode_components(cs.push(c)) =~= key_piece(c));
    } else {
        assert(cs.push(c).drop_first() =~= cs.drop_first().push(c));
        lemma_encode_push(cs.drop_first(), c);
        assert(encode_components(cs.push(c)) =~= encode_components(cs) + key_piece(c));
    }
}

proof fn lemma_digit_char(d: nat)
    requires
        d < 10,
    ensures
        '0' <= digit_char(d) <= '9',
        digit_char(d) as int == d + 48,
{
}

/// Decimal representations are made of digits, and have two or more of them from 10 on.
pub proof fn lemma_decimal_digits(n: nat)
    ensures
        decimal(n).len() >= 1,
        n >= 10 ==> decimal(n).len() >= 2,
        forall|i: int| 0 <= i < decimal(n).len() ==> '0' <= #[trigger] decimal(n)[i] <= '9',
    decreases n,
{
    if n < 10 {
        lemma_digit_char(n);
    } else {
        lemma_decimal_digits(n / 10);
        lemma_digit_char(n % 10);
    }
}

/// Different numbers have different decimal representations.
pub proof fn lemma_decimal_injective(n: nat, m: nat)
    requires
        decimal(n) == decimal(m),
    ensures
        n == m,
    decreases n,
{
    lemma_decimal_digits(n);
    lemma_decimal_digits(m);
    if n < 10 && m < 10 {
        lemma_digit_char(n);
        lemma_digit_char(m);
    } else if n >= 10 && m >= 10 {
        let dn = decimal(n);
        assert(dn.drop_last() == decimal(n / 10));
        assert(decimal(m).drop_last() == decimal(m / 10));
        lemma_decimal_injective(n / 10, m / 10);
        lemma_digit_char(n % 10);
        lemma_digit_char(m % 10);
        assert(dn.last() == digit_char(n % 10));
        assert(decimal(m).last() == digit_char(m % 10));
        assert(n % 10 == m % 10);
        assert(n == (n / 10) * 10 + n % 10);
        assert(m == (m / 10) * 10 + m % 10);
    }
}

/// Equal keys mean equal components.
pub proof fn lemma_encode_injective(a: Seq<Seq<char>>, b: Seq<Seq<char>>)
    requires
        encode_components(a) == encode_components(b),
    ensures
        a == b,
    decreases a.len(),
{
    if a.len() == 0 {
        if b.len() > 0 {
            lemma_decimal_digits(b[0].len());
        }
    } else if b.len() == 0 {
        lemma_decimal_digits(a[0].len());
    } else {
        let x = encode_components(a);
        let da = decimal(a[0].len());
        let db = decimal(b[0].len());
        lemma_decimal_digits(a[0].len());
        lemma_decimal_digits(b[0].len());
        assert(x == da + seq![':'] + a[0] + encode_components(a.drop_first()));
        assert(x == db + seq![':'] + b[0] + encode_components(b.drop_first()));
        // The first colon ends the length.
        assert(x[da.len() as int] == ':');
        assert(x[db.len() as int] == ':');
        if da.len() < db.len() {
            assert(x[da.len() as int] == db[da.len() as int]);
        } else if db.len() < da.len() {
            assert(x[db.len() as int] == da[db.len() as int]);
        }
        assert(da =~= x.subrange(0, da.len() as int));
        assert(db =~= x.subrange(0, db.len() as int));
        lemma_decimal_injective(a[0].len(), b[0].len());
        let s: int = da.len() as int + 1;
        assert(a[0] =~= x.subrange(s, s + a[0].len() as int));
        assert(b[0] =~= x.subrange(s, s + b[0].len() as int));
        assert(encode_components(a.drop_first()) =~= x.subrange(s + a[0].len() as int, x.len() as int));
        assert(encode_components(b.drop_first()) =~= x.subrange(s + b[0].len() as int, x.len() as int));
        lemma_encode_injective(a.drop_first(), b.drop_first());
        assert(a =~= seq![a[0]] + a.drop_first());
        assert(b =~= seq![b[0]] + b.drop_first());
    }
}

/// Two paths have the same lookup key exactly when `Path`'s `==` finds them equal.
pub proof fn lemma_key_matches_path_equality(a: Seq<char>, b: Seq<char>)
    ensures
        (key_of(a) == key_of(b)) == path_equal(a, b),
{
    if key_of(a) == key_of(b) {
        lemma_encode_injective(path_components(a), path_components(b));
    }
}

/// The lookup key of `p`.
pub fn path_key(p: &str) -> (k: String)
    ensures
        k@ == key_of(p@),
{
    let cs = components(p);
    let mut k = String::new();
    let n = cs.len();
    let mut i: usize = 0;
    while i < n
        invariant
            n == cs@.len(),
            i <= n,
            cs@.len() == path_components(p@).len(),
            forall|j: int| 0 <= j < n ==> #[trigger] cs@[j]@ == path_components(p@)[j],
            k@ == encode_components(path_components(p@).subrange(0, i as int)),
        decreases n - i,
    {
        let len = cs[i].as_str().unicode_len();
        push_decimal(&mut k, len as u64);
        push_char(&mut k, ':');
        k.append(cs[i].as_str());
        proof {
            let pre = path_components(p@).subrange(0, i as int);
            let post = path_components(p@).subrange(0, i + 1);
            assert(post =~= pre.push(cs@[i as int]@));
            lemma_encode_push(pre, cs@[i as int]@);
            assert(k@ =~= encode_components(post));
        }
        i += 1;
    }
    proof {
        assert(path_components(p@).subrange(0, n as int) =~= path_components(p@));
    }
    k
}

} // verus!
