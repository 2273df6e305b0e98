//! Path names as byte strings: the final component of a path, and the
//! lexicographic byte order used to sort names.
use vstd::prelude::*;
use vstd::string::StringSliceAdditionalSpecFns;
use vstd::utf8::*;

verus! {

/// The path separator, `/`.
pub const SEP: u8 = 47;

/// The UTF-8 bytes of a string's characters.
pub open spec fn bytes_of(s: Seq<char>) -> Seq<u8> {
    encode_utf8(s)
}

/// `b` without the separators at its end.
pub open spec fn trim_end_seps(b: Seq<u8>) -> Seq<u8>
    decreases b.len(),
{
    if b.len() > 0 && b.last() == SEP {
        trim_end_seps(b.drop_last())
    } else {
        b
    }
}

/// The bytes of `b` after its last separator (all of `b` if it has none).
pub open spec fn after_last_sep(b: Seq<u8>) -> Seq<u8>
    decreases b.len(),
{
    if b.len() == 0 {
        b
    } else if b.last() == SEP {
        Seq::empty()
    } else {
        after_last_sep(b.drop_last()).push(b.last())
    }
}

/// The final component of a path: what follows its last separator once the
/// separators at its end are set aside. Empty for `/` and for the empty path.
pub open spec fn final_component(b: Seq<u8>) -> Seq<u8> {
    after_last_sep(trim_end_seps(b))
}

/// Three-way lexicographic comparison of byte strings: -1, 0 or 1.
pub open spec fn cmp_bytes(a: Seq<u8>, b: Seq<u8>) -> int
    decreases a.len(),
{
    if a.len() == 0 {
        if b.len() == 0 {
            0
        } else {
            -1
        }
    } else if b.len() == 0 {
        1
    } else if a[0] < b[0] {
        -1
    } else if a[0] > b[0] {
        1
    } else {
        cmp_bytes(a.drop_first(), b.drop_first())
    }
}

pub proof fn lemma_cmp_bytes_antisym(a: Seq<u8>, b: Seq<u8>)
    ensures
        cmp_bytes(a, b) == -cmp_bytes(b, a),
        -1 <= cmp_bytes(a, b) <= 1,
    decreases a.len(),
{
    if a.len() > 0 && b.len() > 0 && a[0] == b[0] {
        lemma_cmp_bytes_antisym(a.drop_first(), b.drop_first());
    }
}

pub proof fn lemma_cmp_bytes_zero(a: Seq<u8>, b: Seq<u8>)
    ensures
        cmp_bytes(a, b) == 0 <==> a == b,
    decreases a.len(),
{
    if a.len() > 0 && b.len() > 0 && a[0] == b[0] {
        lemma_cmp_bytes_zero(a.drop_first(), b.drop_first());
        assert(a =~= seq![a[0]] + a.drop_first());
        assert(b =~= seq![b[0]] + b.drop_first());
    } else if a.len() > 0 && b.len() > 0 {
        assert(a[0] != b[0]);
    } else {
        if a.len() == b.len() {
            assert(a =~= b);
        }
    }
}

pub proof fn lemma_cmp_bytes_trans(a: Seq<u8>, b: Seq<u8>, c: Seq<u8>)
    requires
        cmp_bytes(a, b) <= 0,
        cmp_bytes(b, c) <= 0,
    ensures
        cmp_bytes(a, c) <= 0,
    decreases a.len(),
{
    if a.len() > 0 && b.len() > 0 && c.len() > 0 && a[0] == b[0] && b[0] == c[0] {
        lemma_cmp_bytes_trans(a.drop_first(), b.drop_first(), c.drop_first());
    }
}

/// Two strings with the same bytes are the same characters.
pub proof fn lemma_bytes_of_injective(a: Seq<char>, b: Seq<char>)
    requires
        bytes_of(a) == bytes_of(b),
    ensures
        a == b,
{
    encode_utf8_decode_utf8(a);
    encode_utf8_decode_utf8(b);
}

/// Compares two byte strings in lexicographic order.
pub fn compare_bytes(a: &[u8], b: &[u8]) -> (r: i8)
    ensures
        r as int == cmp_bytes(a@, b@),
{
    let mut i: usize = 0;
    assert(a@.subrange(0, a@.len() as int) =~= a@);
    assert(b@.subrange(0, b@.len() as int) =~= b@);
    while i < a.len() && i < b.len()
        invariant
            i <= a@.len(),
            i <= b@.len(),
            cmp_bytes(a@, b@) == cmp_bytes(
                a@.subrange(i as int, a@.len() as int),
                b@.subrange(i as int, b@.len() as int),
            ),
        decreases a.len() - i,
    {
        let ghost sa = a@.subrange(i as int, a@.len() as int);
        let ghost sb = b@.subrange(i as int, b@.len() as int);
        if a[i] < b[i] {
            return -1;
        }
        if a[i] > b[i] {
            return 1;
        }
        assert(sa.drop_first() =~= a@.subrange(i + 1, a@.len() as int));
        assert(sb.drop_first() =~= b@.subrange(i + 1, b@.len() as int));
        i = i + 1;
    }
    if i < a.len() {
        1
    } else if i < b.len() {
        -1
    } else {
        0
    }
}

/// The final component of `path` (see `final_component`), as a string.
pub fn final_component_of(path: &str) -> (r: String)
    ensures
        bytes_of(r@) == final_component(bytes_of(path@)),
{
    let b = path.as_bytes();
    let ghost bs = b@;
    proof {
        encode_utf8_valid_utf8(path@);
    }
    let mut end: usize = b.len();
    assert(bs.subrange(0, bs.len() as int) =~= bs);
    while end > 0 && b[end - 1] == SEP
        invariant
            end <= bs.len(),
            b@ == bs,
            trim_end_seps(bs) == trim_end_seps(bs.subrange(0, end as int)),
            forall|k: int| end <= k < bs.len() ==> bs[k] == SEP,
        decreases end,
    {
        assert(bs.subrange(0, end as int).drop_last() =~= bs.subrange(0, end - 1));
        end = end - 1;
    }
    let mut start: usize = end;
    assert(bs.subrange(start as int, end as int) =~= Seq::<u8>::empty());
    assert(after_last_sep(bs.subrange(0, start as int)) + Seq::<u8>::empty() =~= after_last_sep(
        bs.subrange(0, start as int),
    ));
    while start > 0 && b[start - 1] != SEP
        invariant
            start <= end <= bs.len(),
            b@ == bs,
            forall|k: int| end <= k < bs.len() ==> bs[k] == SEP,
            after_last_sep(bs.subrange(0, end as int)) == after_last_sep(
                bs.subrange(0, start as int),
            ) + bs.subrange(start as int, end as int),
        decreases start,
    {
        let ghost pre = bs.subrange(0, start as int);
        assert(pre.drop_last() =~= bs.subrange(0, start - 1));
        assert(after_last_sep(pre) == after_last_sep(bs.subrange(0, start - 1)).push(
            bs[start - 1],
        ));
        assert(after_last_sep(bs.subrange(0, start - 1)) + bs.subrange(start - 1, end as int)
            =~= after_last_sep(pre) + bs.subrange(start as int, end as int));
        start = start - 1;
    }
    assert(after_last_sep(bs.subrange(0, start as int)) =~= Seq::<u8>::empty());
    let tail: &str;
    if start == 0 {
        tail = path;
        assert(bs.subrange(0, bs.len() as int) =~= bs);
    } else {
        proof {
            is_char_boundary_iff_not_is_continuation_byte(bs, start - 1);
        }
        let (_, with_sep) = path.split_at(start - 1);
        proof {
            encode_utf8_valid_utf8(with_sep@);
            reveal_with_fuel(is_char_boundary, 2);
        }
        let (_, rest) = with_sep.split_at(1);
        tail = rest;
        assert(tail.spec_bytes() =~= bs.subrange(start as int, bs.len() as int));
    }
    proof {
        encode_utf8_valid_utf8(tail@);
        is_char_boundary_start_end_of_seq(tail.spec_bytes());
        if end < bs.len() {
            is_char_boundary_iff_not_is_continuation_byte(tail.spec_bytes(), end - start);
        }
    }
    let (name, _) = tail.split_at(end - start);
    assert(name.spec_bytes() =~= bs.subrange(start as int, end as int));
    name.to_owned()
}

} // verus!
