//! The orders of texts and of paths, both lexicographic.

use vstd::prelude::*;
use vstd::string::*;

verus! {

/// Whether `lt` is a strict total order: nothing precedes itself, what precedes
/// is passed on, and of two different values one precedes the other.
pub open spec fn strict_total_order<T>(lt: spec_fn(T, T) -> bool) -> bool {
    &&& forall|a: T| !#[trigger] lt(a, a)
    &&& forall|a: T, b: T, c: T| #[trigger] lt(a, b) && #[trigger] lt(b, c) ==> lt(a, c)
    &&& forall|a: T, b: T| #[trigger] lt(a, b) || a == b || lt(b, a)
}

/// Whether `a` precedes `b` in the lexicographic order over `lt`: at the first
/// place where they differ `a` has ended or has the smaller item.
pub open spec fn lex_precedes<T>(a: Seq<T>, b: Seq<T>, lt: spec_fn(T, T) -> bool) -> bool
    decreases b.len(),
{
    if b.len() == 0 {
        false
    } else if a.len() == 0 {
        true
    } else if a.first() == b.first() {
        lex_precedes(a.drop_first(), b.drop_first(), lt)
    } else {
        lt(a.first(), b.first())
    }
}

/// The order of bytes.
pub open spec fn byte_order() -> spec_fn(u8, u8) -> bool {
    |a: u8, b: u8| a < b
}

/// The order of characters: that of their code points.
pub open spec fn char_order() -> spec_fn(char, char) -> bool {
    |a: char, b: char| (a as int) < (b as int)
}

/// The order of byte strings.
pub open spec fn bytes_order() -> spec_fn(Seq<u8>, Seq<u8>) -> bool {
    |a: Seq<u8>, b: Seq<u8>| lex_precedes(a, b, byte_order())
}

/// The order of texts: that of `str`.
pub open spec fn text_order() -> spec_fn(Seq<char>, Seq<char>) -> bool {
    |a: Seq<char>, b: Seq<char>| lex_precedes(a, b, char_order())
}

/// What a part of a path says: what stands before the root of an absolute path
/// (such as a drive), the root, the directory itself, the one above it, or a name.
pub enum PartName {
    Prefix(Seq<u8>),
    Root,
    Here,
    Up,
    Name(Seq<u8>),
}

/// Where a part of a path stands among others.
pub open spec fn part_rank(part: PartName) -> int {
    match part {
        PartName::Prefix(_) => 0,
        PartName::Root => 1,
        PartName::Here => 2,
        PartName::Up => 3,
        PartName::Name(_) => 4,
    }
}

/// The bytes by which parts of one rank are told apart.
pub open spec fn part_bytes(part: PartName) -> Seq<u8> {
    match part {
        PartName::Prefix(bytes) => bytes,
        PartName::Name(bytes) => bytes,
        _ => Seq::empty(),
    }
}

/// The order of the parts of paths: by rank, and within a rank by their bytes.
pub open spec fn part_order() -> spec_fn(PartName, PartName) -> bool {
    |a: PartName, b: PartName|
        part_rank(a) < part_rank(b) || (part_rank(a) == part_rank(b) && bytes_order()(
            part_bytes(a),
            part_bytes(b),
        ))
}

/// The order of paths, part by part.
pub open spec fn path_order() -> spec_fn(Seq<PartName>, Seq<PartName>) -> bool {
    |a: Seq<PartName>, b: Seq<PartName>| lex_precedes(a, b, part_order())
}

proof fn lemma_lex_irreflexive<T>(a: Seq<T>, lt: spec_fn(T, T) -> bool)
    requires
        strict_total_order(lt),
    ensures
        !lex_precedes(a, a, lt),
    decreases a.len(),
{
    if a.len() > 0 {
        lemma_lex_irreflexive(a.drop_first(), lt);
    }
}

proof fn lemma_lex_transitive<T>(a: Seq<T>, b: Seq<T>, c: Seq<T>, lt: spec_fn(T, T) -> bool)
    requires
        strict_total_order(lt),
        lex_precedes(a, b, lt),
        lex_precedes(b, c, lt),
    ensures
        lex_precedes(a, c, lt),
    decreases b.len(),
{
    if a.len() > 0 {
        if a.first() == b.first() && b.first() == c.first() {
            lemma_lex_transitive(a.drop_first(), b.drop_first(), c.drop_first(), lt);
        } else if a.first() != b.first() && b.first() != c.first() {
            assert(lt(a.first(), b.first()) && lt(b.first(), c.first()));
            assert(lt(a.first(), c.first()));
            assert(!lt(a.first(), a.first()));
        }
    }
}

proof fn lemma_lex_trichotomy<T>(a: Seq<T>, b: Seq<T>, lt: spec_fn(T, T) -> bool)
    requires
        strict_total_order(lt),
    ensures
        lex_precedes(a, b, lt) || a == b || lex_precedes(b, a, lt),
    decreases b.len(),
{
    if a.len() == 0 || b.len() == 0 {
        if a.len() == b.len() {
            assert(a =~= b);
        }
    } else if a.first() == b.first() {
        lemma_lex_trichotomy(a.drop_first(), b.drop_first(), lt);
        if a.drop_first() == b.drop_first() {
            assert(a =~= seq![a.first()] + a.drop_first());
            assert(b =~= seq![b.first()] + b.drop_first());
        }
    } else {
        assert(lt(a.first(), b.first()) || lt(b.first(), a.first()));
    }
}

/// The lexicographic order over a strict total order is one itself.
pub proof fn lex_order_is_strict_and_total<T>(lt: spec_fn(T, T) -> bool)
    requires
        strict_total_order(lt),
    ensures
        strict_total_order(|a: Seq<T>, b: Seq<T>| lex_precedes(a, b, lt)),
{
    let lex = |a: Seq<T>, b: Seq<T>| lex_precedes(a, b, lt);
    assert forall|a: Seq<T>| !#[trigger] lex(a, a) by {
        lemma_lex_irreflexive(a, lt);
    }
    assert forall|a: Seq<T>, b: Seq<T>, c: Seq<T>| #[trigger] lex(a, b) && #[trigger] lex(
        b,
        c,
    ) implies lex(a, c) by {
        lemma_lex_transitive(a, b, c, lt);
    }
    assert forall|a: Seq<T>, b: Seq<T>| #[trigger] lex(a, b) || a == b || lex(b, a) by {
        lemma_lex_trichotomy(a, b, lt);
    }
}

/// Texts are strictly and totally ordered.
pub proof fn text_order_is_strict_and_total()
    ensures
        strict_total_order(text_order()),
{
    assert forall|a: char, b: char| #[trigger] char_order()(a, b) || a == b || char_order()(
        b,
        a,
    ) by {}
    lex_order_is_strict_and_total(char_order());
    assert(text_order() =~= (|a: Seq<char>, b: Seq<char>| lex_precedes(a, b, char_order())));
}

/// Paths are strictly and totally ordered.
pub proof fn path_order_is_strict_and_total()
    ensures
        strict_total_order(path_order()),
{
    lex_order_is_strict_and_total(byte_order());
    assert(bytes_order() =~= (|a: Seq<u8>, b: Seq<u8>| lex_precedes(a, b, byte_order())));
    let lt = part_order();
    assert forall|a: PartName| !#[trigger] lt(a, a) by {
        assert(!bytes_order()(part_bytes(a), part_bytes(a)));
    }
    assert forall|a: PartName, b: PartName, c: PartName| #[trigger] lt(a, b) && #[trigger] lt(
        b,
        c,
    ) implies lt(a, c) by {
        let (x, y, z) = (part_bytes(a), part_bytes(b), part_bytes(c));
        if bytes_order()(x, y) && bytes_order()(y, z) {
            assert(bytes_order()(x, z));
        }
    }
    assert forall|a: PartName, b: PartName| #[trigger] lt(a, b) || a == b || lt(b, a) by {
        let (x, y) = (part_bytes(a), part_bytes(b));
        assert(bytes_order()(x, y) || x == y || bytes_order()(y, x));
    }
    lex_order_is_strict_and_total(part_order());
    assert(path_order() =~= (|a: Seq<PartName>, b: Seq<PartName>|
        lex_precedes(a, b, part_order())));
}

/// What begins with another list and goes on stands after it.
pub proof fn longer_lists_stand_after<T>(a: Seq<T>, b: Seq<T>, lt: spec_fn(T, T) -> bool)
    requires
        a.is_prefix_of(b),
        a.len() < b.len(),
    ensures
        lex_precedes(a, b, lt),
    decreases b.len(),
{
    if a.len() > 0 {
        assert(a[0] == b.subrange(0, a.len() as int)[0]);
        assert(a.drop_first() =~= b.drop_first().subrange(0, a.len() - 1));
        longer_lists_stand_after(a.drop_first(), b.drop_first(), lt);
    }
}

/// Whether `a` precedes `b` in the order of byte strings.
pub fn bytes_precede(a: &[u8], b: &[u8]) -> (result: bool)
    ensures
        result == bytes_order()(a@, b@),
{
    let mut i: usize = 0;
    assert(a@.skip(0) =~= a@ && b@.skip(0) =~= b@);
    while i < a.len() && i < b.len()
        invariant
            i <= a.len(),
            i <= b.len(),
            bytes_order()(a@, b@) == lex_precedes(
                a@.skip(i as int),
                b@.skip(i as int),
                byte_order(),
            ),
        decreases a.len() - i,
    {
        assert(a@.skip(i as int).drop_first() =~= a@.skip(i + 1));
        assert(b@.skip(i as int).drop_first() =~= b@.skip(i + 1));
        if a[i] != b[i] {
            return a[i] < b[i];
        }
        i = i + 1;
    }
    i < b.len()
}

/// Whether `a` precedes `b` in the order of texts.
pub fn text_precedes(a: &str, b: &str) -> (result: bool)
    ensures
        result == text_order()(a@, b@),
{
    let mut left = a.chars();
    let mut right = b.chars();
    loop
        invariant
            text_order()(a@, b@) == lex_precedes(
                vstd::std_specs::iter::IteratorSpec::remaining(&left),
                vstd::std_specs::iter::IteratorSpec::remaining(&right),
                char_order(),
            ),
            vstd::std_specs::iter::IteratorSpec::decrease(&right) is Some,
        decreases vstd::std_specs::iter::IteratorSpec::decrease(&right)->0,
    {
        let x = left.next();
        let y = right.next();
        match (x, y) {
            (_, None) => {
                return false;
            },
            (None, Some(_)) => {
                return true;
            },
            (Some(c), Some(d)) => {
                if c != d {
                    return c < d;
                }
            },
        }
    }
}

} // verus!
