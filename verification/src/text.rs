//! Strings as sequences of characters: their lexicographic order and their
//! prefixes.
use vstd::prelude::*;
use vstd::std_specs::iter::IteratorSpec;
use std::hash::{Hash, Hasher};

verus! {

/// `String::push` appends one character to the end of the string and leaves
/// the characters before it unchanged. As with `Vec::push`, running out of
/// memory is not part of what is stated.
pub assume_specification[ String::push ](s: &mut String, ch: char)
    ensures
        final(s)@ == old(s)@.push(ch),
;

/// `String::hash` feeds the string into the hasher; nothing is claimed of
/// what the hasher makes of it.
pub assume_specification<H: Hasher>[ <String as Hash>::hash ](s: &String, state: &mut H)
;

/// The texts of a sequence of strings.
pub open spec fn texts(strings: Seq<String>) -> Seq<Seq<char>> {
    strings.map_values(|s: String| s@)
}

/// The outcome of comparing two values under a strict total order.
#[derive(Clone, Copy, Debug, PartialEq, Eq, Structural)]
pub enum Order {
    Before,
    Equal,
    After,
}

/// Strict lexicographic order on character sequences: the first position at
/// which the two differ decides, by code point; a proper prefix comes first.
pub open spec fn text_lt(a: Seq<char>, b: Seq<char>) -> bool
    decreases a.len(),
{
    if b.len() == 0 {
        false
    } else if a.len() == 0 {
        true
    } else if a[0] == b[0] {
        text_lt(a.drop_first(), b.drop_first())
    } else {
        a[0] < b[0]
    }
}

/// Three-way comparison of character sequences under [`text_lt`].
pub open spec fn text_order(a: Seq<char>, b: Seq<char>) -> Order {
    if a == b {
        Order::Equal
    } else if text_lt(a, b) {
        Order::Before
    } else {
        Order::After
    }
}

/// No text comes before itself.
pub proof fn lemma_text_lt_irreflexive(a: Seq<char>)
    ensures
        !text_lt(a, a),
    decreases a.len(),
{
    if a.len() > 0 {
        lemma_text_lt_irreflexive(a.drop_first());
    }
}

/// What comes before an earlier text comes before a later one.
pub proof fn lemma_text_lt_transitive(a: Seq<char>, b: Seq<char>, c: Seq<char>)
    requires
        text_lt(a, b),
        text_lt(b, c),
    ensures
        text_lt(a, c),
    decreases a.len(),
{
    if a.len() > 0 && a[0] == b[0] && b[0] == c[0] {
        lemma_text_lt_transitive(a.drop_first(), b.drop_first(), c.drop_first());
    }
}

/// Of two different texts one comes before the other.
pub proof fn lemma_text_lt_total(a: Seq<char>, b: Seq<char>)
    ensures
        a == b || text_lt(a, b) || text_lt(b, a),
    decreases a.len(),
{
    if a.len() > 0 && b.len() > 0 {
        if a[0] == b[0] {
            lemma_text_lt_total(a.drop_first(), b.drop_first());
            if a.drop_first() == b.drop_first() {
                assert(a =~= seq![a[0]] + a.drop_first());
                assert(b =~= seq![b[0]] + b.drop_first());
            }
        }
    } else if a.len() == 0 && b.len() == 0 {
        assert(a =~= b);
    }
}

/// Compares two strings character by character.
pub fn compare(a: &str, b: &str) -> (o: Order)
    ensures
        o == text_order(a@, b@),
{
    let mut ia = a.chars();
    let mut ib = b.chars();
    let ghost mut prefix: Seq<char> = Seq::empty();
    assert(a@ =~= prefix + ia.remaining());
    assert(b@ =~= prefix + ib.remaining());
    loop
        invariant
            ia.obeys_prophetic_iter_laws(),
            ib.obeys_prophetic_iter_laws(),
            ia.decrease() is Some,
            a@ == prefix + ia.remaining(),
            b@ == prefix + ib.remaining(),
            text_lt(a@, b@) == text_lt(ia.remaining(), ib.remaining()),
            text_lt(b@, a@) == text_lt(ib.remaining(), ia.remaining()),
        decreases ia.decrease()->0,
    {
        let ghost ra = ia.remaining();
        let ghost rb = ib.remaining();
        let ca = ia.next();
        let cb = ib.next();
        proof {
            if a@ == b@ {
                assert(ra =~= a@.skip(prefix.len() as int));
                assert(rb =~= b@.skip(prefix.len() as int));
            }
        }
        match (ca, cb) {
            (None, None) => {
                assert(ra =~= rb);
                return Order::Equal;
            },
            (None, Some(_)) => {
                return Order::Before;
            },
            (Some(_), None) => {
                return Order::After;
            },
            (Some(x), Some(y)) => {
                if x != y {
                    if x < y {
                        return Order::Before;
                    } else {
                        return Order::After;
                    }
                }
                proof {
                    assert(a@ =~= prefix.push(x) + ia.remaining());
                    assert(b@ =~= prefix.push(x) + ib.remaining());
                    prefix = prefix.push(x);
                }
            },
        }
    }
}

/// The characters of `s`, in order.
pub fn chars_of(s: &str) -> (chars: Vec<char>)
    ensures
        chars@ == s@,
{
    let mut chars: Vec<char> = Vec::new();
    for c in it: s.chars()
        invariant
            chars@ == it.seq().take(it.index()),
            it.seq() == s@,
    {
        chars.push(c);
    }
    chars
}

/// Whether `text` begins with `prefix`.
pub fn starts_with(text: &str, prefix: &str) -> (r: bool)
    ensures
        r == prefix@.is_prefix_of(text@),
{
    let mut it = text.chars();
    let mut ip = prefix.chars();
    let ghost mut n: int = 0;
    assert(text@.skip(0) =~= text@);
    assert(prefix@.skip(0) =~= prefix@);
    loop
        invariant
            it.obeys_prophetic_iter_laws(),
            ip.obeys_prophetic_iter_laws(),
            ip.decrease() is Some,
            0 <= n <= text@.len(),
            n <= prefix@.len(),
            it.remaining() == text@.skip(n),
            ip.remaining() == prefix@.skip(n),
            prefix@.take(n) == text@.take(n),
        decreases ip.decrease()->0,
    {
        let cp = ip.next();
        match cp {
            None => {
                assert(prefix@.take(n) =~= prefix@);
                assert(prefix@ =~= text@.subrange(0, prefix@.len() as int));
                return true;
            },
            Some(y) => {
                let ct = it.next();
                match ct {
                    None => {
                        return false;
                    },
                    Some(x) => {
                        assert(x == text@[n]);
                        assert(y == prefix@[n]);
                        if x != y {
                            assert(!prefix@.is_prefix_of(text@)) by {
                                if prefix@.is_prefix_of(text@) {
                                    assert(text@.subrange(0, prefix@.len() as int)[n] == prefix@[n]);
                                }
                            }
                            return false;
                        }
                        proof {
                            assert(text@.skip(n).drop_first() =~= text@.skip(n + 1));
                            assert(prefix@.skip(n).drop_first() =~= prefix@.skip(n + 1));
                            assert(prefix@.take(n + 1) =~= prefix@.take(n).push(y));
                            assert(text@.take(n + 1) =~= text@.take(n).push(x));
                            n = n + 1;
                        }
                    },
                }
            },
        }
    }
}

} // verus!
