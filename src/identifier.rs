use vstd::arithmetic::div_mod::lemma_fundamental_div_mod_converse;
use vstd::prelude::*;

use crate::text::views;

verus! {

/// An upper-case ASCII letter.
pub open spec fn is_letter(c: u8) -> bool {
    65 <= c <= 90
}

/// A sequence of upper-case letters.
pub open spec fn is_identifier(s: Seq<u8>) -> bool {
    forall|i: int| 0 <= i < s.len() ==> is_letter(#[trigger] s[i])
}

/// The number an identifier stands for: base 26 with `A` = 1 and the first
/// letter the least significant digit.
pub open spec fn decode(s: Seq<u8>) -> int
    decreases s.len(),
{
    if s.len() == 0 {
        0
    } else {
        (s[0] - 64) + 26 * decode(s.drop_first())
    }
}

/// The identifier that stands for `n`; empty for 0.
pub open spec fn encode(n: nat) -> Seq<u8>
    decreases n,
{
    if n == 0 {
        Seq::empty()
    } else {
        seq![(65 + (n - 1) % 26) as u8] + encode(((n - 1) / 26) as nat)
    }
}

/// The successor of an identifier, with carry from the first letter on.
pub open spec fn incr(s: Seq<u8>) -> Seq<u8> {
    encode((decode(s) + 1) as nat)
}

/// `incr` applied `k` times.
pub open spec fn incr_times(s: Seq<u8>, k: nat) -> Seq<u8>
    decreases k,
{
    if k == 0 {
        s
    } else {
        incr(incr_times(s, (k - 1) as nat))
    }
}

/// An identifier stands for at least as much as its length.
pub proof fn lemma_decode_nonneg(s: Seq<u8>)
    requires
        is_identifier(s),
    ensures
        decode(s) >= s.len(),
    decreases s.len(),
{
    if s.len() > 0 {
        assert(is_letter(s[0]));
        lemma_decode_nonneg(s.drop_first());
    }
}

proof fn lemma_encode_identifier(n: nat)
    ensures
        is_identifier(encode(n)),
    decreases n,
{
    if n > 0 {
        lemma_encode_identifier(((n - 1) / 26) as nat);
        let t = encode(n);
        let r = encode(((n - 1) / 26) as nat);
        assert forall|i: int| 0 <= i < t.len() implies is_letter(#[trigger] t[i]) by {
            if i > 0 {
                assert(t[i] == r[i - 1]);
            }
        }
    }
}

/// Decoding undoes encoding.
pub proof fn lemma_decode_encode(n: nat)
    ensures
        decode(encode(n)) == n,
        is_identifier(encode(n)),
    decreases n,
{
    lemma_encode_identifier(n);
    if n > 0 {
        let q = ((n - 1) / 26) as nat;
        lemma_decode_encode(q);
        let t = encode(n);
        assert(t.drop_first() =~= encode(q));
        assert((n - 1) == 26 * ((n - 1) / 26) + (n - 1) % 26) by (nonlinear_arith);
    }
}

/// Encoding undoes decoding, on identifiers.
pub proof fn lemma_encode_decode(s: Seq<u8>)
    requires
        is_identifier(s),
    ensures
        encode(decode(s) as nat) == s,
    decreases s.len(),
{
    if s.len() > 0 {
        let rest = s.drop_first();
        assert(is_identifier(rest)) by {
            assert forall|i: int| 0 <= i < rest.len() implies is_letter(#[trigger] rest[i]) by {
                assert(rest[i] == s[i + 1]);
            }
        }
        assert(is_letter(s[0]));
        lemma_encode_decode(rest);
        lemma_decode_nonneg(rest);
        let n = decode(s);
        lemma_fundamental_div_mod_converse(n - 1, 26, decode(rest), s[0] - 65);
        assert(encode(n as nat) =~= s);
    }
}

/// Identifiers with the same number are the same identifier.
pub proof fn lemma_decode_injective(a: Seq<u8>, b: Seq<u8>)
    requires
        is_identifier(a),
        is_identifier(b),
        decode(a) == decode(b),
    ensures
        a == b,
{
    lemma_encode_decode(a);
    lemma_encode_decode(b);
}

/// Stepping `k` times from `a` reaches the identifier `k` further on.
pub proof fn lemma_incr_times(a: Seq<u8>, k: nat)
    requires
        is_identifier(a),
    ensures
        incr_times(a, k) == encode((decode(a) + k) as nat),
    decreases k,
{
    lemma_decode_nonneg(a);
    if k == 0 {
        lemma_encode_decode(a);
    } else {
        lemma_incr_times(a, (k - 1) as nat);
        lemma_decode_encode((decode(a) + k - 1) as nat);
    }
}

/// Stepping from `a` as many times as `b`'s number exceeds `a`'s yields `b`.
pub proof fn lemma_incr_reaches(a: Seq<u8>, b: Seq<u8>)
    requires
        is_identifier(a),
        is_identifier(b),
        decode(a) <= decode(b),
    ensures
        incr_times(a, (decode(b) - decode(a)) as nat) == b,
{
    lemma_incr_times(a, (decode(b) - decode(a)) as nat);
    lemma_decode_nonneg(b);
    lemma_encode_decode(b);
}

} // verus!

verus! {

/// Successor with the carry written out letter by letter.
spec fn succ(s: Seq<u8>) -> Seq<u8>
    decreases s.len(),
{
    if s.len() == 0 {
        seq![65u8]
    } else if s[0] == 90 {
        seq![65u8] + succ(s.drop_first())
    } else {
        seq![(s[0] + 1) as u8] + s.drop_first()
    }
}

proof fn lemma_identifier_suffix(s: Seq<u8>, i: int)
    requires
        is_identifier(s),
        0 <= i <= s.len(),
    ensures
        is_identifier(s.subrange(i, s.len() as int)),
{
    let t = s.subrange(i, s.len() as int);
    assert forall|j: int| 0 <= j < t.len() implies is_letter(#[trigger] t[j]) by {
        assert(t[j] == s[i + j]);
    }
}

proof fn lemma_succ_decode(s: Seq<u8>)
    requires
        is_identifier(s),
    ensures
        is_identifier(succ(s)),
        decode(succ(s)) == decode(s) + 1,
    decreases s.len(),
{
    if s.len() == 0 {
        assert(succ(s).drop_first() =~= Seq::<u8>::empty());
        assert(decode(succ(s)) == 1 + 26 * decode(Seq::<u8>::empty()));
    } else {
        let rest = s.drop_first();
        lemma_identifier_suffix(s, 1);
        assert(rest =~= s.subrange(1, s.len() as int));
        assert(is_letter(s[0]));
        let t = succ(s);
        if s[0] == 90 {
            lemma_succ_decode(rest);
            assert(t.drop_first() =~= succ(rest));
            assert(decode(t) == 1 + 26 * decode(succ(rest)));
            assert forall|j: int| 0 <= j < t.len() implies is_letter(#[trigger] t[j]) by {
                if j > 0 {
                    assert(t[j] == succ(rest)[j - 1]);
                }
            }
        } else {
            assert(t.drop_first() =~= rest);
            assert(decode(t) == (t[0] - 64) + 26 * decode(rest));
            assert forall|j: int| 0 <= j < t.len() implies is_letter(#[trigger] t[j]) by {
                if j > 0 {
                    assert(t[j] == rest[j - 1]);
                }
            }
        }
    }
}

proof fn lemma_succ_skip(s: Seq<u8>, i: int)
    requires
        0 <= i <= s.len(),
        forall|j: int| 0 <= j < i ==> s[j] == 90,
    ensures
        succ(s) == Seq::new(i as nat, |j: int| 65u8) + succ(s.subrange(i, s.len() as int)),
    decreases i,
{
    if i == 0 {
        assert(s.subrange(0, s.len() as int) =~= s);
        assert(Seq::new(0, |j: int| 65u8) + succ(s) =~= succ(s));
    } else {
        let rest = s.drop_first();
        lemma_succ_skip(rest, i - 1);
        assert(rest.subrange(i - 1, rest.len() as int) =~= s.subrange(i, s.len() as int));
        assert(Seq::new(i as nat, |j: int| 65u8) =~= seq![65u8] + Seq::new((i - 1) as nat, |j: int| 65u8));
        assert(succ(s) == seq![65u8] + succ(rest));
        assert((seq![65u8] + Seq::new((i - 1) as nat, |j: int| 65u8)) + succ(s.subrange(i, s.len() as int))
            =~= seq![65u8] + (Seq::new((i - 1) as nat, |j: int| 65u8) + succ(s.subrange(i, s.len() as int))));
    }
}

/// Whether `s` is made of upper-case letters only.
pub fn is_identifier_exec(s: &[u8]) -> (r: bool)
    ensures
        r == is_identifier(s@),
{
    let mut i: usize = 0;
    while i < s.len()
        invariant
            i <= s@.len(),
            forall|j: int| 0 <= j < i ==> is_letter(#[trigger] s@[j]),
        decreases s@.len() - i,
    {
        if s[i] < 65 || s[i] > 90 {
            return false;
        }
        i = i + 1;
    }
    true
}

/// The identifier that follows `input`.
pub fn increment_node_name(input: &[u8]) -> (r: Vec<u8>)
    requires
        is_identifier(input@),
    ensures
        r@ == incr(input@),
        is_identifier(r@),
        decode(r@) == decode(input@) + 1,
{
    let n = input.len();
    let mut i: usize = 0;
    while i < n && input[i] == 90
        invariant
            i <= n == input@.len(),
            forall|j: int| 0 <= j < i ==> input@[j] == 90,
        decreases n - i,
    {
        i = i + 1;
    }
    let mut r: Vec<u8> = Vec::new();
    let mut j: usize = 0;
    while j < i
        invariant
            j <= i <= n,
            r@ == Seq::new(j as nat, |k: int| 65u8),
        decreases i - j,
    {
        r.push(65);
        assert(r@ =~= Seq::new((j + 1) as nat, |k: int| 65u8));
        j = j + 1;
    }
    let ghost head = r@;
    let ghost tail = input@.subrange(i as int, n as int);
    if i < n {
        assert(is_letter(input@[i as int]));
        r.push(input[i] + 1);
        j = i + 1;
        while j < n
            invariant
                i < j <= n == input@.len(),
                r@ == head + seq![(input@[i as int] + 1) as u8] + input@.subrange(i + 1, j as int),
            decreases n - j,
        {
            r.push(input[j]);
            assert(input@.subrange(i + 1, j + 1) =~= input@.subrange(i + 1, j as int).push(input@[j as int]));
            j = j + 1;
        }
        assert(tail.drop_first() =~= input@.subrange(i + 1, n as int));
        assert(r@ =~= head + succ(tail));
    } else {
        r.push(65);
        assert(tail =~= Seq::<u8>::empty());
        assert(r@ =~= head + succ(tail));
    }
    proof {
        lemma_succ_skip(input@, i as int);
        lemma_succ_decode(input@);
        lemma_encode_decode(r@);
    }
    r
}

/// The number that `value` stands for; `None` when it is not an identifier
/// or its number does not fit in 64 bits.
pub fn from_node_name_to_decimal(value: &[u8]) -> (r: Option<u64>)
    ensures
        r == if is_identifier(value@) && decode(value@) <= u64::MAX {
            Some(decode(value@) as u64)
        } else {
            None::<u64>
        },
        is_identifier(value@) ==> decode(value@) >= 0,
{
    if !is_identifier_exec(value) {
        return None;
    }
    proof {
        lemma_decode_nonneg(value@);
    }
    let n = value.len();
    let mut sum: u64 = 0;
    let mut i: usize = n;
    proof {
        assert(value@.subrange(n as int, n as int) =~= Seq::<u8>::empty());
    }
    while i > 0
        invariant
            i <= n == value@.len(),
            is_identifier(value@),
            sum == decode(value@.subrange(i as int, n as int)),
        decreases i,
    {
        let ghost tail = value@.subrange(i as int, n as int);
        let ghost next = value@.subrange(i - 1, n as int);
        proof {
            assert(next.drop_first() =~= tail);
            lemma_identifier_suffix(value@, i - 1);
            lemma_decode_suffix_le(value@, i - 1);
        }
        let digit = (value[i - 1] - 64) as u64;
        match sum.checked_mul(26) {
            Some(m) => match m.checked_add(digit) {
                Some(s) => {
                    sum = s;
                },
                None => {
                    return None;
                },
            },
            None => {
                return None;
            },
        }
        i = i - 1;
    }
    assert(value@.subrange(0, n as int) =~= value@);
    Some(sum)
}

/// The identifier that stands for `value`; empty for 0.
pub fn from_decimal_to_node_name(value: u64) -> (r: Vec<u8>)
    ensures
        r@ == encode(value as nat),
        is_identifier(r@),
        decode(r@) == value,
{
    let mut result: Vec<u8> = Vec::new();
    let mut v = value;
    while v != 0
        invariant
            result@ + encode(v as nat) == encode(value as nat),
        decreases v,
    {
        let letter = ((v - 1) % 26 + 65) as u8;
        assert(encode(v as nat) == seq![letter] + encode(((v - 1) / 26) as nat));
        assert(result@.push(letter) + encode(((v - 1) / 26) as nat) =~= result@ + encode(v as nat));
        result.push(letter);
        v = (v - 1) / 26;
    }
    assert(encode(0) =~= Seq::<u8>::empty());
    assert(result@ =~= result@ + encode(0));
    proof {
        lemma_decode_encode(value as nat);
    }
    result
}

/// The identifier whose number is the sum of the numbers of `values`;
/// `None` when one of them is not an identifier or the sum does not fit in 64
/// bits.
pub fn get_sum_values(values: &Vec<Vec<u8>>) -> (r: Option<Vec<u8>>)
    ensures
        r matches Some(s) ==> all_identifiers(views(values@)) && sum_decoded(views(values@)) <= u64::MAX
            && s@ == encode(sum_decoded(views(values@)) as nat),
        r is None ==> !(all_identifiers(views(values@)) && sum_decoded(views(values@)) <= u64::MAX),
{
    let ghost vs = views(values@);
    let mut sum: u64 = 0;
    let mut i: usize = 0;
    while i < values.len()
        invariant
            i <= values@.len(),
            vs == views(values@),
            all_identifiers(vs.subrange(0, i as int)),
            sum == sum_decoded(vs.subrange(0, i as int)),
        decreases values@.len() - i,
    {
        let ghost pre = vs.subrange(0, i as int);
        let ghost post = vs.subrange(0, i + 1);
        assert(post.drop_last() =~= pre);
        let d = from_node_name_to_decimal(values[i].as_slice());
        proof {
            lemma_sum_decoded_prefix(vs, i as int);
        }
        match d {
            Some(d) => {
                if d > u64::MAX - sum {
                    return None;
                }
                assert(post.last() == vs[i as int]);
                sum = sum + d;
            },
            None => {
                return None;
            },
        }
        assert(all_identifiers(post)) by {
            assert forall|k: int| 0 <= k < post.len() implies is_identifier(#[trigger] post[k]) by {
                if k < i {
                    assert(post[k] == pre[k]);
                }
            }
        }
        i = i + 1;
    }
    assert(vs.subrange(0, i as int) =~= vs);
    Some(from_decimal_to_node_name(sum))
}

/// Every member is an identifier.
pub open spec fn all_identifiers(v: Seq<Seq<u8>>) -> bool {
    forall|k: int| 0 <= k < v.len() ==> is_identifier(#[trigger] v[k])
}

/// Sum of the numbers of the members.
pub open spec fn sum_decoded(v: Seq<Seq<u8>>) -> int
    decreases v.len(),
{
    if v.len() == 0 {
        0
    } else {
        sum_decoded(v.drop_last()) + decode(v.last())
    }
}

proof fn lemma_sum_decoded_prefix(v: Seq<Seq<u8>>, i: int)
    requires
        0 <= i < v.len(),
    ensures
        !is_identifier(v[i]) ==> !all_identifiers(v),
        all_identifiers(v) ==> decode(v[i]) <= sum_decoded(v),
        all_identifiers(v) ==> sum_decoded(v.subrange(0, i + 1)) <= sum_decoded(v),
        all_identifiers(v) ==> 0 <= sum_decoded(v.subrange(0, i)),
    decreases v.len(),
{
    if all_identifiers(v) {
        let w = v.subrange(0, i + 1);
        assert(w.drop_last() =~= v.subrange(0, i));
        assert(w.last() == v[i]);
        lemma_sum_decoded_mono(v, i + 1);
        lemma_sum_decoded_mono(v.subrange(0, i + 1), i);
        assert(v.subrange(0, i + 1).subrange(0, i) =~= v.subrange(0, i));
        lemma_sum_decoded_mono(v.subrange(0, i), 0);
        assert(v.subrange(0, i).subrange(0, 0) =~= Seq::<Seq<u8>>::empty());
    }
}

proof fn lemma_sum_decoded_mono(v: Seq<Seq<u8>>, i: int)
    requires
        0 <= i <= v.len(),
        all_identifiers(v),
    ensures
        sum_decoded(v.subrange(0, i)) <= sum_decoded(v),
    decreases v.len(),
{
    if i == v.len() {
        assert(v.subrange(0, i) =~= v);
    } else {
        lemma_decode_nonneg(v.last());
        let w = v.drop_last();
        assert(all_identifiers(w)) by {
            assert forall|k: int| 0 <= k < w.len() implies is_identifier(#[trigger] w[k]) by {
                assert(w[k] == v[k]);
            }
        }
        lemma_sum_decoded_mono(w, i);
        assert(w.subrange(0, i) =~= v.subrange(0, i));
    }
}

proof fn lemma_decode_suffix_le(s: Seq<u8>, i: int)
    requires
        is_identifier(s),
        0 <= i <= s.len(),
    ensures
        decode(s.subrange(i, s.len() as int)) <= decode(s),
    decreases i,
{
    if i > 0 {
        let rest = s.drop_first();
        lemma_identifier_suffix(s, 1);
        assert(rest =~= s.subrange(1, s.len() as int));
        lemma_decode_suffix_le(rest, i - 1);
        assert(rest.subrange(i - 1, rest.len() as int) =~= s.subrange(i, s.len() as int));
        lemma_decode_nonneg(rest);
        assert(is_letter(s[0]));
    } else {
        assert(s.subrange(0, s.len() as int) =~= s);
    }
}

/// The identifiers from `start` to `end`, both included; `None` when either
/// is empty or not an identifier, its number does not fit in 64 bits, or
/// `end` comes before `start`.
pub fn get_nodes_of_range(start: &[u8], end: &[u8]) -> (r: Option<Vec<Vec<u8>>>)
    ensures
        match r {
            Some(v) => {
                &&& range_ok(start@, end@)
                &&& v@.len() == decode(end@) - decode(start@) + 1
                &&& forall|k: int| 0 <= k < v@.len() ==> (#[trigger] v@[k])@ == incr_times(start@, k as nat)
            },
            None => !range_ok(start@, end@),
        },
{
    if start.len() == 0 || end.len() == 0 {
        return None;
    }
    let a = from_node_name_to_decimal(start);
    let b = from_node_name_to_decimal(end);
    if a.is_none() || b.is_none() {
        return None;
    }
    if a.unwrap() > b.unwrap() {
        return None;
    }
    let mut nodes: Vec<Vec<u8>> = Vec::new();
    let mut current = crate::text::copy_bytes(start);
    proof {
        lemma_encode_decode(start@);
        lemma_decode_nonneg(start@);
    }
    loop
        invariant
            is_identifier(start@),
            is_identifier(end@),
            is_identifier(current@),
            decode(start@) <= decode(current@) <= decode(end@),
            decode(current@) == decode(start@) + nodes@.len(),
            current@ == incr_times(start@, nodes@.len()),
            forall|k: int| 0 <= k < nodes@.len() ==> (#[trigger] nodes@[k])@ == incr_times(start@, k as nat),
        ensures
            current@ == end@,
        decreases decode(end@) - decode(current@),
    {
        if crate::text::bytes_eq(current.as_slice(), end) {
            break;
        }
        proof {
            if decode(current@) == decode(end@) {
                lemma_decode_injective(current@, end@);
            }
        }
        let next = increment_node_name(current.as_slice());
        nodes.push(current);
        current = next;
    }
    let ghost old_nodes = nodes@;
    nodes.push(current);
    assert forall|k: int| 0 <= k < nodes@.len() implies (#[trigger] nodes@[k])@ == incr_times(start@, k as nat) by {
        if k < old_nodes.len() {
            assert(nodes@[k] == old_nodes[k]);
        }
    }
    Some(nodes)
}

/// A range from `start` to `end` can be listed: both are non-empty
/// identifiers, in order, and fit in 64 bits.
pub open spec fn range_ok(start: Seq<u8>, end: Seq<u8>) -> bool {
    &&& start.len() > 0
    &&& end.len() > 0
    &&& is_identifier(start)
    &&& is_identifier(end)
    &&& decode(start) <= decode(end)
    &&& decode(end) <= u64::MAX
}

} // verus!
