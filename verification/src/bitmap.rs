use vstd::prelude::*;
use roaring::RoaringBitmap;

verus! {

/// Declares roaring's bitmap type so it can stand in fields and signatures;
/// its values are reached only through the trusted wrappers below.
#[verifier::external_type_specification]
#[verifier::external_body]
pub struct ExRoaringBitmap(RoaringBitmap);

/// The contents of a roaring bitmap, as the sequence its iterator yields:
/// the stored values in strictly ascending order.
pub uninterp spec fn bitmap_seq(b: RoaringBitmap) -> Seq<u32>;

/// Whether a sequence is strictly ascending (hence duplicate-free).
pub open spec fn sorted_strict(s: Seq<u32>) -> bool {
    forall|i: int, j: int| 0 <= i < j < s.len() ==> s[i] < s[j]
}

/// The strictly ascending sequence `s` with `x` put in place: unchanged if
/// `x` is already present, otherwise `x` inserted before the first larger
/// element.
pub open spec fn seq_insert_sorted(s: Seq<u32>, x: u32) -> Seq<u32>
    decreases s.len(),
{
    if s.len() == 0 {
        seq![x]
    } else if x < s[0] {
        seq![x] + s
    } else if x == s[0] {
        s
    } else {
        seq![s[0]] + seq_insert_sorted(s.drop_first(), x)
    }
}

/// Inserting `x` adds exactly `x` to the elements of the sequence.
pub proof fn lemma_insert_sorted_contains(s: Seq<u32>, x: u32, y: u32)
    ensures
        seq_insert_sorted(s, x).contains(y) <==> (s.contains(y) || y == x),
    decreases s.len(),
{
    if s.len() == 0 {
        assert(seq_insert_sorted(s, x) =~= seq![x]);
        assert(seq![x].contains(y) <==> y == x) by {
            if seq![x].contains(y) {
                let i = choose|i: int| 0 <= i < 1 && seq![x][i] == y;
                assert(seq![x][0] == y);
            }
            if y == x {
                assert(seq![x][0] == y);
            }
        }
        assert(!s.contains(y));
    } else if x < s[0] {
        assert(seq_insert_sorted(s, x) =~= seq![x] + s);
        assert((seq![x] + s).contains(y) <==> (y == x || s.contains(y))) by {
            if (seq![x] + s).contains(y) {
                let i = choose|i: int| 0 <= i < (seq![x] + s).len() && (seq![x] + s)[i] == y;
                if i == 0 {
                    assert(y == x);
                } else {
                    assert(s[i - 1] == y);
                }
            }
            if y == x {
                assert((seq![x] + s)[0] == y);
            }
            if s.contains(y) {
                let i = choose|i: int| 0 <= i < s.len() && s[i] == y;
                assert((seq![x] + s)[i + 1] == y);
            }
        }
    } else if x == s[0] {
        assert(s.contains(x)) by {
            assert(s[0] == x);
        }
    } else {
        lemma_insert_sorted_contains(s.drop_first(), x, y);
        let t = seq_insert_sorted(s.drop_first(), x);
        assert(seq_insert_sorted(s, x) =~= seq![s[0]] + t);
        assert((seq![s[0]] + t).contains(y) <==> (y == s[0] || t.contains(y))) by {
            if (seq![s[0]] + t).contains(y) {
                let i = choose|i: int|
                    0 <= i < (seq![s[0]] + t).len() && (seq![s[0]] + t)[i] == y;
                if i > 0 {
                    assert(t[i - 1] == y);
                }
            }
            if t.contains(y) {
                let i = choose|i: int| 0 <= i < t.len() && t[i] == y;
                assert((seq![s[0]] + t)[i + 1] == y);
            }
            if y == s[0] {
                assert((seq![s[0]] + t)[0] == y);
            }
        }
        assert(s.contains(y) <==> (y == s[0] || s.drop_first().contains(y))) by {
            if s.contains(y) {
                let i = choose|i: int| 0 <= i < s.len() && s[i] == y;
                if i > 0 {
                    assert(s.drop_first()[i - 1] == y);
                }
            }
            if s.drop_first().contains(y) {
                let i = choose|i: int| 0 <= i < s.drop_first().len() && s.drop_first()[i] == y;
                assert(s[i + 1] == y);
            }
            if y == s[0] {
                assert(s[0] == y);
            }
        }
    }
}

/// Inserting a fresh value into a strictly ascending sequence keeps it
/// strictly ascending and grows it by one; inserting a present value leaves
/// it unchanged.
pub proof fn lemma_insert_sorted_preserves(s: Seq<u32>, x: u32)
    requires
        sorted_strict(s),
    ensures
        sorted_strict(seq_insert_sorted(s, x)),
        !s.contains(x) ==> seq_insert_sorted(s, x).len() == s.len() + 1,
        s.contains(x) ==> seq_insert_sorted(s, x) == s,
    decreases s.len(),
{
    if s.len() == 0 {
        assert(!s.contains(x));
    } else if x < s[0] {
        let r = seq![x] + s;
        assert(seq_insert_sorted(s, x) =~= r);
        assert forall|i: int, j: int| 0 <= i < j < r.len() implies r[i] < r[j] by {
            if i == 0 {
                if j > 1 {
                    assert(s[0] < s[j - 1]);
                }
            } else {
                assert(s[i - 1] < s[j - 1]);
            }
        }
        assert(!s.contains(x)) by {
            if s.contains(x) {
                let i = choose|i: int| 0 <= i < s.len() && s[i] == x;
                if i > 0 {
                    assert(s[0] < s[i]);
                }
            }
        }
    } else if x == s[0] {
        assert(s.contains(x)) by {
            assert(s[0] == x);
        }
    } else {
        let tail = s.drop_first();
        assert(sorted_strict(tail)) by {
            assert(forall|i: int, j: int|
                0 <= i < j < tail.len() ==> s[i + 1] < s[j + 1] && tail[i] == s[i + 1] && tail[j]
                    == s[j + 1]);
        }
        lemma_insert_sorted_preserves(tail, x);
        lemma_insert_sorted_contains(tail, x, x);
        let t = seq_insert_sorted(tail, x);
        let r = seq![s[0]] + t;
        assert(seq_insert_sorted(s, x) =~= r);
        assert forall|y: u32| t.contains(y) implies s[0] < y by {
            lemma_insert_sorted_contains(tail, x, y);
            if tail.contains(y) {
                let i = choose|i: int| 0 <= i < tail.len() && tail[i] == y;
                assert(tail[i] == s[i + 1]);
                assert(s[0] < s[i + 1]);
            }
        }
        assert forall|i: int, j: int| 0 <= i < j < r.len() implies r[i] < r[j] by {
            if i == 0 {
                assert(t.contains(r[j])) by {
                    assert(r[j] == t[j - 1]);
                }
            } else {
                assert(t[i - 1] < t[j - 1]);
            }
        }
        assert(s.contains(x) <==> tail.contains(x)) by {
            if s.contains(x) {
                let i = choose|i: int| 0 <= i < s.len() && s[i] == x;
                assert(i != 0);
                assert(tail[i - 1] == x);
            }
            if tail.contains(x) {
                let i = choose|i: int| 0 <= i < tail.len() && tail[i] == x;
                assert(s[i + 1] == x);
            }
        }
        if s.contains(x) {
            assert(seq_insert_sorted(s, x) =~= s) by {
                assert(t == tail);
            }
        }
    }
}

/// Relies on `roaring::RoaringBitmap::new`: the fresh bitmap is empty.
#[verifier::external_body]
pub fn bitmap_new() -> (r: RoaringBitmap)
    ensures
        bitmap_seq(r) == Seq::<u32>::empty(),
{
    RoaringBitmap::new()
}

/// Relies on `roaring::RoaringBitmap::insert`: adds the value to the set and
/// returns whether it was absent; iteration stays ascending, so the stored
/// sequence gains the value at its sorted position.
#[verifier::external_body]
pub fn bitmap_insert(b: &mut RoaringBitmap, x: u32) -> (r: bool)
    ensures
        r == !bitmap_seq(*old(b)).contains(x),
        bitmap_seq(*final(b)) == seq_insert_sorted(bitmap_seq(*old(b)), x),
{
    b.insert(x)
}

/// Relies on `roaring::RoaringBitmap::len`: the number of stored values.
#[verifier::external_body]
pub fn bitmap_len(b: &RoaringBitmap) -> (r: u64)
    ensures
        r == bitmap_seq(*b).len(),
{
    b.len()
}

/// Relies on `roaring::RoaringBitmap::iter`, whose documentation guarantees
/// the values come out ordered by value: collecting it yields exactly the
/// stored sequence.
#[verifier::external_body]
pub fn bitmap_to_vec(b: &RoaringBitmap) -> (r: Vec<u32>)
    ensures
        r@ == bitmap_seq(*b),
{
    b.iter().collect()
}


/// Inserting a value greater than every element of a strictly ascending
/// sequence appends it.
pub proof fn lemma_insert_sorted_append(s: Seq<u32>, x: u32)
    requires
        sorted_strict(s),
        forall|i: int| 0 <= i < s.len() ==> s[i] < x,
    ensures
        (seq_insert_sorted(s, x) == s.push(x)),
    decreases s.len(),
{
    if s.len() == 0 {
        assert(seq_insert_sorted(s, x) =~= s.push(x));
    } else {
        let tail = s.drop_first();
        assert(sorted_strict(tail)) by {
            assert(forall|i: int, j: int|
                0 <= i < j < tail.len() ==> s[i + 1] < s[j + 1] && tail[i] == s[i + 1] && tail[j]
                    == s[j + 1]);
        }
        assert(forall|i: int| 0 <= i < tail.len() ==> tail[i] == s[i + 1] && s[i + 1] < x);
        lemma_insert_sorted_append(tail, x);
        assert(seq_insert_sorted(s, x) =~= s.push(x)) by {
            assert(s[0] < x);
            assert(seq_insert_sorted(s, x) == seq![s[0]] + seq_insert_sorted(tail, x));
            assert(seq![s[0]] + tail.push(x) =~= s.push(x));
        }
    }
}

} // verus!
