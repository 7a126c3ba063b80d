use vstd::prelude::*;

verus! {

/// ASCII decimal digit.
pub open spec fn is_digit(b: u8) -> bool {
    48 <= b <= 57
}

/// Decimal value of a digit string, most significant digit first.
pub open spec fn seg_val(s: Seq<u8>) -> int
    decreases s.len(),
{
    if s.len() == 0 {
        0
    } else {
        seg_val(s.drop_last()) * 10 + (s.last() - 48)
    }
}

/// A decimal octet as it may appear in a dotted-quad address: one to
/// three digits, no leading zero, value at most 255.
pub open spec fn is_dec_octet(s: Seq<u8>) -> bool {
    &&& 1 <= s.len() <= 3
    &&& forall|i: int| 0 <= i < s.len() ==> is_digit(#[trigger] s[i])
    &&& (s.len() > 1 ==> s[0] != 48)
    &&& seg_val(s) <= 255
}

/// The positions of the dots in a byte string, in increasing order.
pub open spec fn dot_positions(s: Seq<u8>) -> Seq<int>
    decreases s.len(),
{
    if s.len() == 0 {
        Seq::empty()
    } else {
        dot_positions(s.drop_last())
            + (if s.last() == 46 { seq![s.len() - 1] } else { Seq::<int>::empty() })
    }
}

/// A literal IPv4 address: exactly three dots separating four decimal
/// octets.
pub open spec fn is_ipv4_literal(s: Seq<u8>) -> bool {
    let d = dot_positions(s);
    &&& d.len() == 3
    &&& is_dec_octet(s.subrange(0, d[0]))
    &&& is_dec_octet(s.subrange(d[0] + 1, d[1]))
    &&& is_dec_octet(s.subrange(d[1] + 1, d[2]))
    &&& is_dec_octet(s.subrange(d[2] + 1, s.len() as int))
}

/// Whether a byte string contains a colon. A registered name never
/// does, while every literal IPv6 address (bracket notation removed)
/// contains at least one, so a host with a colon is treated as an
/// address literal.
pub open spec fn has_colon(s: Seq<u8>) -> bool {
    exists|i: int| 0 <= i < s.len() && s[i] == 58
}

/// The fast-path predicate: hosts of this shape are connected to
/// directly, never handed to the resolver.
pub open spec fn is_ip_literal(s: Seq<u8>) -> bool {
    is_ipv4_literal(s) || has_colon(s)
}

/// Dot positions lie within the string, name dots, and increase
/// strictly.
proof fn lemma_dot_positions_props(s: Seq<u8>)
    ensures
        forall|i: int|
            0 <= i < dot_positions(s).len() ==> 0 <= #[trigger] dot_positions(s)[i] < s.len()
                && s[dot_positions(s)[i]] == 46,
        forall|i: int, j: int|
            0 <= i < j < dot_positions(s).len() ==> #[trigger] dot_positions(s)[i]
                < #[trigger] dot_positions(s)[j],
    decreases s.len(),
{
    if s.len() == 0 {
    } else {
        let t = s.drop_last();
        lemma_dot_positions_props(t);
        assert(forall|i: int| 0 <= i < t.len() ==> t[i] == s[i]);
        let d = dot_positions(s);
        let dt = dot_positions(t);
        assert(forall|i: int| 0 <= i < dt.len() ==> d[i] == dt[i]);
    }
}

/// Collects the dot positions of a byte string.
fn find_dots(s: &[u8]) -> (r: Vec<usize>)
    ensures
        r@.map_values(|u: usize| u as int) == dot_positions(s@),
{
    let mut r: Vec<usize> = Vec::new();
    let mut i: usize = 0;
    while i < s.len()
        invariant
            i <= s.len(),
            r@.map_values(|u: usize| u as int) == dot_positions(s@.take(i as int)),
        decreases s.len() - i,
    {
        proof {
            assert(s@.take(i + 1 as int).drop_last() =~= s@.take(i as int));
            assert(s@.take(i + 1 as int).last() == s@[i as int]);
        }
        if s[i] == 46 {
            r.push(i);
            proof {
                assert(r@.map_values(|u: usize| u as int) =~= dot_positions(
                    s@.take(i as int),
                ).push(i as int));
                assert(dot_positions(s@.take(i + 1 as int)) =~= dot_positions(
                    s@.take(i as int),
                ).push(i as int));
            }
        } else {
            proof {
                assert(dot_positions(s@.take(i + 1 as int)) =~= dot_positions(s@.take(i as int)));
            }
        }
        i += 1;
    }
    proof {
        assert(s@.take(s@.len() as int) =~= s@);
    }
    r
}

/// Checks that `s[from..to]` is a decimal octet.
fn check_octet(s: &[u8], from: usize, to: usize) -> (r: bool)
    requires
        from <= to <= s@.len(),
    ensures
        r == is_dec_octet(s@.subrange(from as int, to as int)),
{
    let ghost sub = s@.subrange(from as int, to as int);
    let n = to - from;
    if n < 1 || n > 3 {
        return false;
    }
    let mut i: usize = from;
    while i < to
        invariant
            from <= i <= to <= s@.len(),
            sub == s@.subrange(from as int, to as int),
            forall|j: int| from <= j < i ==> is_digit(#[trigger] s@[j]),
        decreases to - i,
    {
        let b = s[i];
        if b < 48 || b > 57 {
            proof {
                assert(sub.len() == to - from);
                assert(sub[i as int - from as int] == s@[i as int]);
            }
            return false;
        }
        i += 1;
    }
    proof {
        assert(forall|j: int| 0 <= j < sub.len() ==> sub[j] == s@[from + j]);
    }
    if n > 1 && s[from] == 48 {
        return false;
    }
    let d0: u32 = (s[from] - 48) as u32;
    if n == 1 {
        proof {
            assert(sub.drop_last() =~= Seq::<u8>::empty());
            assert(seg_val(sub.drop_last()) == 0);
            assert(seg_val(sub) == s@[from as int] - 48);
        }
        return true;
    }
    let d1: u32 = (s[from + 1] - 48) as u32;
    if n == 2 {
        let v: u32 = d0 * 10 + d1;
        proof {
            let s1 = sub.drop_last();
            assert(s1.drop_last() =~= Seq::<u8>::empty());
            assert(seg_val(s1.drop_last()) == 0);
            assert(s1.last() == sub[0] == s@[from as int]);
            assert(seg_val(s1) == s@[from as int] - 48);
            assert(sub.last() == s@[from + 1]);
            assert(seg_val(sub) == seg_val(s1) * 10 + (s@[from + 1] - 48));
        }
        return v <= 255;
    }
    let d2: u32 = (s[from + 2] - 48) as u32;
    let v: u32 = d0 * 100 + d1 * 10 + d2;
    proof {
        let s1 = sub.drop_last();
        let s2 = s1.drop_last();
        assert(s2.drop_last() =~= Seq::<u8>::empty());
        assert(seg_val(s2.drop_last()) == 0);
        assert(s2.last() == sub[0] == s@[from as int]);
        assert(seg_val(s2) == s@[from as int] - 48);
        assert(s1.last() == sub[1] == s@[from + 1]);
        assert(seg_val(s1) == seg_val(s2) * 10 + (s@[from + 1] - 48));
        assert(sub.last() == s@[from + 2]);
        assert(seg_val(sub) == seg_val(s1) * 10 + (s@[from + 2] - 48));
    }
    v <= 255
}

/// Recognizes a literal IPv4 address.
pub fn is_ipv4(host: &[u8]) -> (r: bool)
    ensures
        r == is_ipv4_literal(host@),
{
    let dots = find_dots(host);
    proof {
        lemma_dot_positions_props(host@);
    }
    if dots.len() != 3 {
        return false;
    }
    let ghost d = dot_positions(host@);
    let p0 = dots[0];
    let p1 = dots[1];
    let p2 = dots[2];
    proof {
        assert(d[0] == p0 as int && d[1] == p1 as int && d[2] == p2 as int);
    }
    check_octet(host, 0, p0) && check_octet(host, p0 + 1, p1) && check_octet(host, p1 + 1, p2)
        && check_octet(host, p2 + 1, host.len())
}

/// Reports whether a byte string contains a colon.
pub fn contains_colon(s: &[u8]) -> (r: bool)
    ensures
        r == has_colon(s@),
{
    let mut i: usize = 0;
    while i < s.len()
        invariant
            i <= s.len(),
            forall|j: int| 0 <= j < i ==> s@[j] != 58,
        decreases s.len() - i,
    {
        if s[i] == 58 {
            return true;
        }
        i += 1;
    }
    false
}

/// Recognizes a host that is an address literal: a dotted-quad IPv4
/// address, or any host containing a colon.
pub fn ip_literal(host: &[u8]) -> (r: bool)
    ensures
        r == is_ip_literal(host@),
{
    if contains_colon(host) {
        return true;
    }
    is_ipv4(host)
}

} // verus!
