//! The order of names, and of sequences in general.
use vstd::prelude::*;
use vstd::string::*;
use vstd::utf8::{encode_utf8, encode_utf8_decode_utf8};

verus! {

/// Where one value stands with respect to another.
#[derive(Clone, Copy, PartialEq, Eq, Structural, Debug)]
pub enum Place {
    /// It comes first.
    Before,
    /// The two are the same.
    Same,
    /// It comes second.
    After,
}

/// Any two different values are ordered one way, and the order is transitive.
pub open spec fn strict_total<T>(less: spec_fn(T, T) -> bool) -> bool {
    &&& forall|a: T| !#[trigger] less(a, a)
    &&& forall|a: T, b: T| #[trigger] less(a, b) || less(b, a) || a == b
    &&& forall|a: T, b: T, c: T| #[trigger] less(a, b) && #[trigger] less(b, c) ==> less(a, c)
}

/// `a` comes before `b` in dictionary order, and they first differ at position `i`.
pub open spec fn lex_at<T>(less: spec_fn(T, T) -> bool, a: Seq<T>, b: Seq<T>, i: int) -> bool {
    &&& 0 <= i <= a.len()
    &&& i < b.len()
    &&& forall|j: int| 0 <= j < i ==> a[j] == #[trigger] b[j]
    &&& i < a.len() ==> less(a[i], b[i])
}

/// `a` comes before `b` in dictionary order.
pub open spec fn lex_less<T>(less: spec_fn(T, T) -> bool, a: Seq<T>, b: Seq<T>) -> bool {
    exists|i: int| lex_at(less, a, b, i)
}

/// The dictionary order over `less`, as a function.
pub open spec fn lex<T>(less: spec_fn(T, T) -> bool) -> spec_fn(Seq<T>, Seq<T>) -> bool {
    |a: Seq<T>, b: Seq<T>| lex_less(less, a, b)
}

/// How long the common beginning of two sequences is.
spec fn common<T>(a: Seq<T>, b: Seq<T>) -> nat
    decreases a.len(),
{
    if a.len() == 0 || b.len() == 0 || a[0] != b[0] {
        0
    } else {
        1 + common(a.drop_first(), b.drop_first())
    }
}

proof fn lemma_common<T>(a: Seq<T>, b: Seq<T>)
    ensures
        common(a, b) <= a.len(),
        common(a, b) <= b.len(),
        forall|j: int| 0 <= j < common(a, b) ==> a[j] == #[trigger] b[j],
        common(a, b) < a.len() && common(a, b) < b.len() ==> a[common(a, b) as int] != b[common(
            a,
            b,
        ) as int],
    decreases a.len(),
{
    if a.len() == 0 || b.len() == 0 || a[0] != b[0] {
    } else {
        let a1 = a.drop_first();
        let b1 = b.drop_first();
        lemma_common(a1, b1);
        assert forall|j: int| 0 <= j < common(a, b) implies a[j] == #[trigger] b[j] by {
            if j > 0 {
                assert(a1[j - 1] == b1[j - 1]);
            }
        }
        let k = common(a1, b1) as int;
        if k < a1.len() && k < b1.len() {
            assert(a1[k] == a[k + 1] && b1[k] == b[k + 1]);
        }
    }
}

/// Dictionary order is total where the order of the items is.
pub proof fn lemma_lex_total<T>(less: spec_fn(T, T) -> bool)
    requires
        strict_total(less),
    ensures
        strict_total(lex(less)),
{
    let l = lex(less);
    assert forall|a: Seq<T>| !#[trigger] l(a, a) by {
        if l(a, a) {
            let i = choose|i: int| lex_at(less, a, a, i);
            assert(!less(a[i], a[i]));
        }
    }
    assert forall|a: Seq<T>, b: Seq<T>| #[trigger] l(a, b) || l(b, a) || a == b by {
        lemma_common(a, b);
        let k = common(a, b) as int;
        if k < a.len() && k < b.len() {
            assert(less(a[k], b[k]) || less(b[k], a[k]));
            if less(a[k], b[k]) {
                assert(lex_at(less, a, b, k));
            } else {
                assert forall|j: int| 0 <= j < k implies b[j] == #[trigger] a[j] by {
                    assert(a[j] == b[j]);
                }
                assert(lex_at(less, b, a, k));
            }
        } else if k < b.len() {
            assert(lex_at(less, a, b, k));
        } else if k < a.len() {
            assert forall|j: int| 0 <= j < k implies b[j] == #[trigger] a[j] by {
                assert(a[j] == b[j]);
            }
            assert(lex_at(less, b, a, k));
        } else {
            assert(a =~= b);
        }
    }
    assert forall|a: Seq<T>, b: Seq<T>, c: Seq<T>| #[trigger]
        l(a, b) && #[trigger] l(b, c) implies l(a, c) by {
        let i = choose|i: int| lex_at(less, a, b, i);
        let k = choose|k: int| lex_at(less, b, c, k);
        let m = if i < k {
            i
        } else {
            k
        };
        assert forall|j: int| 0 <= j < m implies a[j] == #[trigger] c[j] by {
            assert(b[j] == c[j]);
            assert(a[j] == b[j]);
        }
        if m < a.len() {
            if i < k {
                assert(b[i] == c[i]);
            } else if k < i {
                assert(a[k] == b[k]);
            } else {
                assert(less(a[i], b[i]) && less(b[i], c[i]));
            }
        }
        assert(lex_at(less, a, c, m));
    }
}

/// The order of bytes.
pub open spec fn byte_less() -> spec_fn(u8, u8) -> bool {
    |x: u8, y: u8| x < y
}

/// Whether the name `a` comes before `b`: names are ordered by their bytes.
pub open spec fn name_less(a: Seq<char>, b: Seq<char>) -> bool {
    lex_less(byte_less(), encode_utf8(a), encode_utf8(b))
}

/// The order of names, as a function.
pub open spec fn names_less() -> spec_fn(Seq<char>, Seq<char>) -> bool {
    |a: Seq<char>, b: Seq<char>| name_less(a, b)
}

/// The order of names is total.
pub proof fn lemma_names_total()
    ensures
        strict_total(names_less()),
{
    let l = names_less();
    let m = lex(byte_less());
    lemma_lex_total(byte_less());
    assert forall|a: Seq<char>, b: Seq<char>| #[trigger] l(a, b) == m(
        encode_utf8(a),
        encode_utf8(b),
    ) by {}
    assert forall|a: Seq<char>, b: Seq<char>| #[trigger] l(a, b) || l(b, a) || a == b by {
        let x = encode_utf8(a);
        let y = encode_utf8(b);
        assert(m(x, y) || m(y, x) || x == y);
        if x == y {
            encode_utf8_decode_utf8(a);
            encode_utf8_decode_utf8(b);
        }
    }
    assert forall|a: Seq<char>, b: Seq<char>, c: Seq<char>| #[trigger]
        l(a, b) && #[trigger] l(b, c) implies l(a, c) by {
        assert(m(encode_utf8(a), encode_utf8(b)) && m(encode_utf8(b), encode_utf8(c)));
    }
    assert forall|a: Seq<char>| !#[trigger] l(a, a) by {
        assert(!m(encode_utf8(a), encode_utf8(a)));
    }
}

/// Where `a` stands with respect to `b`, for an order `less`.
pub open spec fn placed<T>(less: spec_fn(T, T) -> bool, a: T, b: T, place: Place) -> bool {
    match place {
        Place::Before => less(a, b),
        Place::Same => a == b,
        Place::After => less(b, a),
    }
}

/// Places one name with respect to another.
pub fn place_name(a: &str, b: &str) -> (place: Place)
    ensures
        placed(names_less(), a@, b@, place),
{
    let x = a.as_bytes();
    let y = b.as_bytes();
    let mut i: usize = 0;
    while i < x.len() && i < y.len() && x[i] == y[i]
        invariant
            i <= x@.len(),
            i <= y@.len(),
            forall|j: int| 0 <= j < i ==> x@[j] == #[trigger] y@[j],
        decreases x@.len() - i,
    {
        i += 1;
    }
    proof {
        assert forall|j: int| 0 <= j < i implies y@[j] == #[trigger] x@[j] by {
            assert(x@[j] == y@[j]);
        }
    }
    if i < x.len() && i < y.len() {
        if x[i] < y[i] {
            assert(lex_at(byte_less(), x@, y@, i as int));
            Place::Before
        } else {
            assert(lex_at(byte_less(), y@, x@, i as int));
            Place::After
        }
    } else if i < y.len() {
        assert(lex_at(byte_less(), x@, y@, i as int));
        Place::Before
    } else if i < x.len() {
        assert(lex_at(byte_less(), y@, x@, i as int));
        Place::After
    } else {
        proof {
            assert(x@ =~= y@);
            encode_utf8_decode_utf8(a@);
            encode_utf8_decode_utf8(b@);
        }
        Place::Same
    }
}

/// Whether two texts are the same.
pub fn same_text(a: &str, b: &str) -> (same: bool)
    ensures
        same == (a@ == b@),
{
    proof {
        lemma_names_total();
        let less = names_less();
        assert(!less(a@, a@));
    }
    match place_name(a, b) {
        Place::Same => true,
        _ => false,
    }
}

/// Whether one text begins with another one.
pub open spec fn begins_with(text: Seq<char>, start: Seq<char>) -> bool {
    start.len() <= text.len() && text.subrange(0, start.len() as int) == start
}

/// Whether one text begins with another one.
pub fn starts_with(text: &str, start: &str) -> (starts: bool)
    ensures
        starts == begins_with(text@, start@),
{
    let len: usize = start.unicode_len();
    len <= text.unicode_len() && same_text(text.substring_char(0, len), start)
}

/// Each item comes before the next ones.
pub open spec fn increasing<T>(less: spec_fn(T, T) -> bool, s: Seq<T>) -> bool {
    forall|i: int, j: int| 0 <= i < j < s.len() ==> less(#[trigger] s[i], #[trigger] s[j])
}

/// There is one way only to list a set in increasing order.
pub proof fn lemma_increasing_unique<T>(less: spec_fn(T, T) -> bool, s: Seq<T>, t: Seq<T>)
    requires
        strict_total(less),
        increasing(less, s),
        increasing(less, t),
        forall|x: T| s.contains(x) <==> #[trigger] t.contains(x),
    ensures
        s == t,
    decreases s.len(),
{
    if s.len() == 0 {
        if t.len() > 0 {
            assert(t.contains(t[0]));
        }
        assert(s =~= t);
    } else {
        assert(s.contains(s.last()));
        assert(t.contains(s.last()));
        let i = choose|i: int| 0 <= i < t.len() && t[i] == s.last();
        assert(t.contains(t.last()));
        assert(s.contains(t.last()));
        let j = choose|j: int| 0 <= j < s.len() && s[j] == t.last();
        assert(s.last() == t.last()) by {
            if i < t.len() - 1 {
                assert(less(t[i], t[t.len() - 1]));
                if j < s.len() - 1 {
                    assert(less(s[j], s[s.len() - 1]));
                    assert(less(t.last(), t.last()));
                }
            }
        }
        let s1 = s.drop_last();
        let t1 = t.drop_last();
        assert forall|x: T| s1.contains(x) <==> #[trigger] t1.contains(x) by {
            if s1.contains(x) {
                let k = choose|k: int| 0 <= k < s1.len() && s1[k] == x;
                assert(s[k] == x);
                assert(less(s[k], s[s.len() - 1]));
                assert(s.contains(x));
                assert(t.contains(x));
                let m = choose|m: int| 0 <= m < t.len() && t[m] == x;
                assert(m < t.len() - 1);
                assert(t1[m] == x);
            }
            if t1.contains(x) {
                let k = choose|k: int| 0 <= k < t1.len() && t1[k] == x;
                assert(t[k] == x);
                assert(less(t[k], t[t.len() - 1]));
                assert(t.contains(x));
                assert(s.contains(x));
                let m = choose|m: int| 0 <= m < s.len() && s[m] == x;
                assert(m < s.len() - 1);
                assert(s1[m] == x);
            }
        }
        lemma_increasing_unique(less, s1, t1);
        assert(s =~= s1.push(s.last()));
        assert(t =~= t1.push(t.last()));
    }
}

} // verus!
