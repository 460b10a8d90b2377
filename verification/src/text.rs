//! Character-sequence helpers shared by the rest of the library.
use vstd::prelude::*;

verus! {

/// `s` ends with `suffix`, compared character by character.
pub open spec fn seq_ends_with(s: Seq<char>, suffix: Seq<char>) -> bool {
    suffix.len() <= s.len() && s.subrange(s.len() - suffix.len(), s.len() as int) == suffix
}

/// The characters of `s`, in order.
pub fn chars_of(s: &str) -> (res: Vec<char>)
    ensures
        res@ == s@,
{
    let n = s.unicode_len();
    let mut res: Vec<char> = Vec::new();
    let mut i: usize = 0;
    while i < n
        invariant
            n == s@.len(),
            i <= n,
            res@ == s@.subrange(0, i as int),
        decreases n - i,
    {
        let c = s.get_char(i);
        res.push(c);
        i = i + 1;
        assert(res@ =~= s@.subrange(0, i as int));
    }
    assert(res@ =~= s@);
    res
}

/// Whether `s` ends with `suffix`.
pub fn ends_with(s: &Vec<char>, suffix: &str) -> (res: bool)
    ensures
        res == seq_ends_with(s@, suffix@),
{
    let suf = chars_of(suffix);
    let n = s.len();
    let m = suf.len();
    if m > n {
        return false;
    }
    let off = n - m;
    let mut i: usize = 0;
    while i < m
        invariant
            n == s@.len(),
            m == suf@.len(),
            off == n - m,
            i <= m,
            suf@ == suffix@,
            forall|j: int| 0 <= j < i ==> s@[off + j] == suf@[j],
        decreases m - i,
    {
        if s[off + i] != suf[i] {
            assert(s@.subrange(off as int, n as int)[i as int] != suffix@[i as int]);
            return false;
        }
        i = i + 1;
    }
    assert(s@.subrange(off as int, n as int) =~= suffix@);
    true
}

} // verus!

verus! {

/// Strict lexicographic order on character sequences, characters compared by
/// code point; a proper prefix comes first. This is the order of `str`'s
/// `Ord`, since UTF-8 preserves code-point order byte by byte.
pub open spec fn seq_lt(a: Seq<char>, b: Seq<char>) -> bool
    decreases a.len(),
{
    if a.len() == 0 {
        b.len() > 0
    } else if b.len() == 0 {
        false
    } else if a[0] < b[0] {
        true
    } else if a[0] == b[0] {
        seq_lt(a.drop_first(), b.drop_first())
    } else {
        false
    }
}

/// Non-strict lexicographic order.
pub open spec fn seq_le(a: Seq<char>, b: Seq<char>) -> bool {
    !seq_lt(b, a)
}

/// Irreflexivity of `seq_lt`.
pub proof fn lemma_lt_irreflexive(a: Seq<char>)
    ensures
        !seq_lt(a, a),
    decreases a.len(),
{
    if a.len() > 0 {
        lemma_lt_irreflexive(a.drop_first());
    }
}

/// Transitivity of `seq_lt`.
pub proof fn lemma_lt_transitive(a: Seq<char>, b: Seq<char>, c: Seq<char>)
    requires
        seq_lt(a, b),
        seq_lt(b, c),
    ensures
        seq_lt(a, c),
    decreases a.len(),
{
    if a.len() > 0 && b.len() > 0 && c.len() > 0 && a[0] == b[0] && b[0] == c[0] {
        lemma_lt_transitive(a.drop_first(), b.drop_first(), c.drop_first());
    }
}

/// Any two different sequences are ordered one way or the other.
pub proof fn lemma_lt_total(a: Seq<char>, b: Seq<char>)
    ensures
        a == b || seq_lt(a, b) || seq_lt(b, a),
    decreases a.len(),
{
    if a.len() > 0 && b.len() > 0 {
        if a[0] == b[0] {
            lemma_lt_total(a.drop_first(), b.drop_first());
            if a.drop_first() == b.drop_first() {
                assert(a =~= seq![a[0]] + a.drop_first());
                assert(b =~= seq![b[0]] + b.drop_first());
            }
        } else {
        }
    } else if a.len() == 0 && b.len() == 0 {
        assert(a =~= b);
    }
}

/// Asymmetry of `seq_lt`.
pub proof fn lemma_lt_asymmetric(a: Seq<char>, b: Seq<char>)
    requires
        seq_lt(a, b),
    ensures
        !seq_lt(b, a),
{
    if seq_lt(b, a) {
        lemma_lt_transitive(a, b, a);
        lemma_lt_irreflexive(a);
    }
}

/// Transitivity of `seq_le`.
pub proof fn lemma_le_transitive(a: Seq<char>, b: Seq<char>, c: Seq<char>)
    requires
        seq_le(a, b),
        seq_le(b, c),
    ensures
        seq_le(a, c),
{
    if seq_lt(c, a) {
        lemma_lt_total(a, b);
        if seq_lt(a, b) {
            lemma_lt_transitive(c, a, b);
        }
    }
}

/// The sequence of character sequences is in non-decreasing order.
pub open spec fn sorted_seqs(s: Seq<Seq<char>>) -> bool {
    forall|i: int, j: int| 0 <= i < j < s.len() ==> seq_le(#[trigger] s[i], #[trigger] s[j])
}

/// The views of a sequence of strings.
pub open spec fn string_views(s: Seq<String>) -> Seq<Seq<char>> {
    s.map_values(|x: String| x@)
}

/// The views of a sequence of optional strings.
pub open spec fn option_views(s: Seq<Option<String>>) -> Seq<Option<Seq<char>>> {
    s.map_values(|o: Option<String>| match o {
        Some(x) => Some(x@),
        None => None,
    })
}

/// Whether `a` comes strictly before `b` in lexicographic order.
pub fn chars_less(a: &Vec<char>, b: &Vec<char>) -> (res: bool)
    ensures
        res == seq_lt(a@, b@),
{
    let mut i: usize = 0;
    assert(a@.skip(0) =~= a@ && b@.skip(0) =~= b@);
    while i < a.len() && i < b.len()
        invariant
            i <= a@.len(),
            i <= b@.len(),
            seq_lt(a@, b@) == seq_lt(a@.skip(i as int), b@.skip(i as int)),
        decreases a@.len() - i,
    {
        if a[i] != b[i] {
            return a[i] < b[i];
        }
        assert(a@.skip(i as int).drop_first() =~= a@.skip(i + 1));
        assert(b@.skip(i as int).drop_first() =~= b@.skip(i + 1));
        i = i + 1;
    }
    i < b.len()
}

/// Whether the string `a` comes strictly before `b` (the order of `String`'s `Ord`).
pub fn str_less(a: &str, b: &str) -> (res: bool)
    ensures
        res == seq_lt(a@, b@),
{
    let ca = chars_of(a);
    let cb = chars_of(b);
    chars_less(&ca, &cb)
}

/// A stable insertion sort of strings into lexicographic order.
pub fn sort_strings(v: &Vec<String>) -> (res: Vec<String>)
    ensures
        sorted_seqs(string_views(res@)),
        res@.to_multiset() == v@.to_multiset(),
{
    broadcast use vstd::seq_lib::group_to_multiset_ensures;
    let mut res: Vec<String> = Vec::new();
    let n = v.len();
    let mut i: usize = 0;
    while i < n
        invariant
            n == v@.len(),
            i <= n,
            sorted_seqs(string_views(res@)),
            res@.to_multiset() == v@.subrange(0, i as int).to_multiset(),
        decreases n - i,
    {
        let x = v[i].clone();
        let mut p: usize = 0;
        while p < res.len() && !str_less(x.as_str(), res[p].as_str())
            invariant
                p <= res@.len(),
                forall|q: int| 0 <= q < p ==> seq_le(#[trigger] res@[q]@, x@),
            decreases res@.len() - p,
        {
            p = p + 1;
        }
        let ghost old_res = res@;
        res.insert(p, x);
        proof {
            let r = res@;
            assert(r =~= old_res.insert(p as int, x));
            assert(r.to_multiset() == old_res.to_multiset().insert(x)) by {
                vstd::seq_lib::to_multiset_insert(old_res, p as int, x);
            }
            assert(forall|k: int| 0 <= k < p ==> r[k] == old_res[k]);
            assert(r[p as int] == x);
            assert(forall|k: int| p < k < r.len() ==> r[k] == old_res[k - 1]);
            if p < old_res.len() {
                lemma_lt_asymmetric(x@, old_res[p as int]@);
            }
            assert forall|a: int, b: int| 0 <= a < b < r.len() implies seq_le(
                #[trigger] string_views(r)[a],
                #[trigger] string_views(r)[b],
            ) by {
                assert(string_views(r)[a] == r[a]@);
                assert(string_views(r)[b] == r[b]@);
                assert(forall|c: int, d: int| 0 <= c < d < old_res.len() ==> seq_le(old_res[c]@, old_res[d]@)) by {
                    assert forall|c: int, d: int| 0 <= c < d < old_res.len() implies seq_le(old_res[c]@, old_res[d]@) by {
                        assert(string_views(old_res)[c] == old_res[c]@);
                        assert(string_views(old_res)[d] == old_res[d]@);
                    }
                }
                if a < p {
                    assert(seq_le(old_res[a]@, x@));
                    if b > p {
                        assert(string_views(old_res)[a] == old_res[a]@);
                        assert(string_views(old_res)[b - 1] == old_res[b - 1]@);
                    }
                } else if a == p {
                    assert(string_views(old_res)[p as int] == old_res[p as int]@);
                    assert(string_views(old_res)[b - 1] == old_res[b - 1]@);
                    if b - 1 > p {
                        assert(seq_le(old_res[p as int]@, old_res[b - 1]@));
                        lemma_le_transitive(x@, old_res[p as int]@, old_res[b - 1]@);
                    }
                } else {
                    assert(string_views(old_res)[a - 1] == old_res[a - 1]@);
                    assert(string_views(old_res)[b - 1] == old_res[b - 1]@);
                }
            }
            assert(v@.subrange(0, i + 1) =~= v@.subrange(0, i as int).push(v@[i as int]));
            vstd::seq_lib::to_multiset_build(v@.subrange(0, i as int), v@[i as int]);
        }
        i = i + 1;
    }
    assert(v@.subrange(0, n as int) =~= v@);
    res
}

} // verus!

verus! {

/// A lower-case hexadecimal digit.
pub open spec fn is_lower_hex(c: char) -> bool {
    ('0' <= c && c <= '9') || ('a' <= c && c <= 'f')
}

/// The text of a random (version 4, RFC 4122 variant) UUID in lower-case
/// hyphenated form: `xxxxxxxx-xxxx-4xxx-Yxxx-xxxxxxxxxxxx`, `Y` one of
/// `8`, `9`, `a`, `b`.
pub open spec fn is_uuid_v4_text(s: Seq<char>) -> bool {
    &&& s.len() == 36
    &&& forall|i: int|
        0 <= i < 36 ==> if i == 8 || i == 13 || i == 18 || i == 23 {
            s[i] == '-'
        } else {
            is_lower_hex(#[trigger] s[i])
        }
    &&& s[14] == '4'
    &&& (s[19] == '8' || s[19] == '9' || s[19] == 'a' || s[19] == 'b')
}

} // verus!
