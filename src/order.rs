//! Byte-wise order of kernel names, the order in which the report lists them.
use vstd::prelude::*;
use vstd::string::*;
use vstd::utf8::encode_utf8;

verus! {

/// `a` comes strictly before `b` in lexicographic byte order.
pub open spec fn bytes_lt(a: Seq<u8>, b: Seq<u8>) -> bool
    decreases a.len(),
{
    if a.len() == 0 {
        b.len() > 0
    } else if b.len() == 0 {
        false
    } else if a[0] != b[0] {
        a[0] < b[0]
    } else {
        bytes_lt(a.drop_first(), b.drop_first())
    }
}

/// Name `a` sorts strictly before name `b` by the bytes of their UTF-8 encodings.
pub open spec fn name_lt(a: Seq<char>, b: Seq<char>) -> bool {
    bytes_lt(encode_utf8(a), encode_utf8(b))
}

/// No byte string comes before itself, and of two, at most one comes first.
pub proof fn lemma_bytes_lt_asymmetric(a: Seq<u8>, b: Seq<u8>)
    ensures
        !(bytes_lt(a, b) && bytes_lt(b, a)),
    decreases a.len(),
{
    if a.len() > 0 && b.len() > 0 && a[0] == b[0] {
        lemma_bytes_lt_asymmetric(a.drop_first(), b.drop_first());
    }
}

/// Byte order is transitive.
pub proof fn lemma_bytes_lt_transitive(a: Seq<u8>, b: Seq<u8>, c: Seq<u8>)
    requires
        bytes_lt(a, b),
        bytes_lt(b, c),
    ensures
        bytes_lt(a, c),
    decreases a.len(),
{
    if a.len() > 0 && b.len() > 0 && c.len() > 0 && a[0] == b[0] && b[0] == c[0] {
        lemma_bytes_lt_transitive(a.drop_first(), b.drop_first(), c.drop_first());
    }
}

/// Compares two byte strings lexicographically.
pub fn bytes_less(a: &[u8], b: &[u8]) -> (r: bool)
    ensures
        r == bytes_lt(a@, b@),
{
    let mut i: usize = 0;
    assert(a@.subrange(0, a@.len() as int) =~= a@);
    assert(b@.subrange(0, b@.len() as int) =~= b@);
    while i < a.len() && i < b.len()
        invariant
            i <= a@.len(),
            i <= b@.len(),
            bytes_lt(a@, b@) == bytes_lt(
                a@.subrange(i as int, a@.len() as int),
                b@.subrange(i as int, b@.len() as int),
            ),
        decreases a.len() - i,
    {
        let ghost sa = a@.subrange(i as int, a@.len() as int);
        let ghost sb = b@.subrange(i as int, b@.len() as int);
        assert(sa[0] == a@[i as int]);
        assert(sb[0] == b@[i as int]);
        if a[i] != b[i] {
            return a[i] < b[i];
        }
        assert(sa.drop_first() =~= a@.subrange(i + 1, a@.len() as int));
        assert(sb.drop_first() =~= b@.subrange(i + 1, b@.len() as int));
        i = i + 1;
    }
    i == a.len() && i < b.len()
}

/// Compares two names by the bytes of their UTF-8 encodings.
pub fn name_less(a: &String, b: &String) -> (r: bool)
    ensures
        r == name_lt(a@, b@),
{
    let x = a.as_str().as_bytes();
    let y = b.as_str().as_bytes();
    bytes_less(x, y)
}

/// No name of `ns` sorts before one listed ahead of it, and no name is listed twice.
pub open spec fn names_in_order(ns: Seq<String>) -> bool {
    &&& forall|a: int, b: int| 0 <= a < b < ns.len() ==> !name_lt(ns[b]@, ns[a]@)
    &&& forall|a: int, b: int| 0 <= a < b < ns.len() ==> ns[a]@ != ns[b]@
}

/// `ns` lists the name `nm`.
pub open spec fn lists(ns: Seq<String>, nm: Seq<char>) -> bool {
    exists|x: int| 0 <= x < ns.len() && ns[x]@ == nm
}

/// Adds a name to an ordered list of distinct names, unless it is already there.
pub fn insert_name(out: &mut Vec<String>, s: &String)
    requires
        names_in_order(old(out)@),
    ensures
        names_in_order(final(out)@),
        forall|nm: Seq<char>| #[trigger] lists(final(out)@, nm) <==> (lists(old(out)@, nm) || nm == s@),
{
    let mut x: usize = 0;
    while x < out.len()
        invariant
            x <= out@.len(),
            out@ == old(out)@,
            names_in_order(out@),
            forall|y: int| 0 <= y < x ==> out@[y]@ != s@,
        decreases out.len() - x,
    {
        if out[x] == *s {
            assert forall|nm: Seq<char>| #[trigger] lists(out@, nm) <==> (lists(old(out)@, nm) || nm == s@) by {
                if nm == s@ {
                    assert(out@[x as int]@ == nm);
                }
            }
            return;
        }
        x = x + 1;
    }
    let mut k: usize = 0;
    while k < out.len() && !name_less(s, &out[k])
        invariant
            k <= out@.len(),
            out@ == old(out)@,
            names_in_order(out@),
            forall|y: int| 0 <= y < k ==> !name_lt(s@, out@[y]@),
        decreases out.len() - k,
    {
        k = k + 1;
    }
    let ghost before = out@;
    let c = s.clone();
    out.insert(k, c);
    assert forall|a: int, b: int| 0 <= a < b < out@.len() implies !name_lt(out@[b]@, out@[a]@) by {
        if b < k {
            assert(out@[a] == before[a] && out@[b] == before[b]);
        } else if b == k {
            assert(out@[a] == before[a]);
        } else if a < k {
            assert(out@[a] == before[a] && out@[b] == before[b - 1]);
        } else if a == k {
            let ob = encode_utf8(before[b - 1]@);
            let ok = encode_utf8(before[k as int]@);
            let os = encode_utf8(s@);
            assert(bytes_lt(os, ok));
            lemma_bytes_lt_asymmetric(os, ok);
            if b - 1 > k {
                assert(!name_lt(before[b - 1]@, before[k as int]@));
                assert(!bytes_lt(ob, ok));
                if bytes_lt(ob, os) {
                    lemma_bytes_lt_transitive(ob, os, ok);
                }
            }
        } else {
            assert(out@[a] == before[a - 1] && out@[b] == before[b - 1]);
        }
    }
    assert forall|a: int, b: int| 0 <= a < b < out@.len() implies out@[a]@ != out@[b]@ by {
        if b < k {
            assert(out@[a] == before[a] && out@[b] == before[b]);
        } else if b == k {
            assert(out@[a] == before[a]);
        } else if a < k {
            assert(out@[a] == before[a] && out@[b] == before[b - 1]);
        } else if a == k {
            assert(out@[b] == before[b - 1]);
        } else {
            assert(out@[a] == before[a - 1] && out@[b] == before[b - 1]);
        }
    }
    assert forall|nm: Seq<char>| #[trigger] lists(out@, nm) <==> (lists(before, nm) || nm == s@) by {
        if lists(out@, nm) {
            let y = choose|y: int| 0 <= y < out@.len() && out@[y]@ == nm;
            if y < k {
                assert(before[y]@ == nm);
            } else if y > k {
                assert(before[y - 1]@ == nm);
            }
        }
        if lists(before, nm) {
            let y = choose|y: int| 0 <= y < before.len() && before[y]@ == nm;
            if y < k {
                assert(out@[y]@ == nm);
            } else {
                assert(out@[y + 1]@ == nm);
            }
        }
        if nm == s@ {
            assert(out@[k as int]@ == nm);
        }
    }
}

} // verus!
