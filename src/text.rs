use vstd::prelude::*;

verus! {

/// The fields of `s` between occurrences of `sep`, in order: one more field
/// than there are separators, some of them possibly empty.
pub open spec fn split(s: Seq<u8>, sep: u8) -> Seq<Seq<u8>>
    decreases s.len(),
{
    if s.len() == 0 {
        seq![Seq::empty()]
    } else {
        let p = split(s.drop_last(), sep);
        if s.last() == sep {
            p.push(Seq::empty())
        } else {
            p.update(p.len() - 1, p.last().push(s.last()))
        }
    }
}

pub proof fn lemma_split_len(s: Seq<u8>, sep: u8)
    ensures
        split(s, sep).len() >= 1,
    decreases s.len(),
{
    if s.len() > 0 {
        lemma_split_len(s.drop_last(), sep);
    }
}

/// `b` holds no byte `c`.
pub open spec fn free_of(b: Seq<u8>, c: u8) -> bool {
    forall|j: int| 0 <= j < b.len() ==> b[j] != c
}

/// A text without the separator is one field.
pub proof fn lemma_split_single(b: Seq<u8>, c: u8)
    requires
        free_of(b, c),
    ensures
        split(b, c) == seq![b],
    decreases b.len(),
{
    if b.len() > 0 {
        lemma_split_single(b.drop_last(), c);
        assert(b.drop_last().push(b.last()) =~= b);
        assert(seq![b.drop_last()].update(0, b.drop_last().push(b.last())) =~= seq![b]);
    } else {
        assert(b =~= Seq::<u8>::empty());
    }
}

/// Appending a separator and a text without it adds that text as one field.
pub proof fn lemma_split_append(a: Seq<u8>, b: Seq<u8>, c: u8)
    requires
        free_of(b, c),
    ensures
        split(a + seq![c] + b, c) == split(a, c).push(b),
    decreases b.len(),
{
    let s = a + seq![c] + b;
    if b.len() == 0 {
        assert(s.drop_last() =~= a);
        assert(b =~= Seq::<u8>::empty());
    } else {
        lemma_split_append(a, b.drop_last(), c);
        assert(s.drop_last() =~= a + seq![c] + b.drop_last());
        let p = split(a, c).push(b.drop_last());
        assert(b.drop_last().push(b.last()) =~= b);
        assert(p.update(p.len() - 1, b.drop_last().push(b.last())) =~= split(a, c).push(b));
    }
}

/// A text that splits into one field is that field.
pub proof fn lemma_split_one(x: Seq<u8>, c: u8)
    requires
        split(x, c).len() == 1,
    ensures
        split(x, c)[0] == x,
    decreases x.len(),
{
    if x.len() > 0 {
        lemma_split_len(x.drop_last(), c);
        lemma_split_one(x.drop_last(), c);
        assert(x.drop_last().push(x.last()) =~= x);
    } else {
        assert(x =~= Seq::<u8>::empty());
    }
}

/// A text that splits into two fields is the first, the separator and the second.
pub proof fn lemma_split_two(s: Seq<u8>, c: u8)
    requires
        split(s, c).len() == 2,
    ensures
        s == split(s, c)[0] + seq![c] + split(s, c)[1],
    decreases s.len(),
{
    let f = split(s, c);
    if s.len() > 0 {
        let p = split(s.drop_last(), c);
        lemma_split_len(s.drop_last(), c);
        if s.last() == c {
            lemma_split_one(s.drop_last(), c);
            assert(s =~= f[0] + seq![c] + f[1]);
        } else {
            lemma_split_two(s.drop_last(), c);
            assert(f[0] == p[0]);
            assert(f[1] == p[1].push(s.last()));
            assert(s =~= s.drop_last().push(s.last()));
            assert(s =~= f[0] + seq![c] + f[1]);
        }
    }
}

/// A byte that no field holds, and that is not the separator, is not in the text.
pub proof fn lemma_split_free(s: Seq<u8>, c: u8, x: u8)
    requires
        x != c,
        forall|i: int| 0 <= i < split(s, c).len() ==> free_of(#[trigger] split(s, c)[i], x),
    ensures
        free_of(s, x),
    decreases s.len(),
{
    if s.len() > 0 {
        let p = split(s.drop_last(), c);
        lemma_split_len(s.drop_last(), c);
        assert forall|i: int| 0 <= i < p.len() implies free_of(#[trigger] p[i], x) by {
            if s.last() == c {
                assert(split(s, c)[i] == p[i]);
            } else if i < p.len() - 1 {
                assert(split(s, c)[i] == p[i]);
            } else {
                let q = split(s, c)[i];
                assert(q == p[i].push(s.last()));
                assert forall|j: int| 0 <= j < p[i].len() implies p[i][j] != x by {
                    assert(q[j] == p[i][j]);
                }
            }
        }
        lemma_split_free(s.drop_last(), c, x);
        if s.last() != c {
            let q = split(s, c)[p.len() - 1];
            assert(q[q.len() - 1] == s.last());
        }
        assert forall|j: int| 0 <= j < s.len() implies s[j] != x by {
            if j < s.len() - 1 {
                assert(s.drop_last()[j] == s[j]);
            }
        }
    }
}

/// The value of one digit in the given radix (10 or 16), if `c` is one.
pub open spec fn digit_of(c: u8, radix: nat) -> Option<nat> {
    if 48 <= c <= 57 {
        Some((c - 48) as nat)
    } else if radix == 16 && 97 <= c <= 102 {
        Some((c - 87) as nat)
    } else if radix == 16 && 65 <= c <= 70 {
        Some((c - 55) as nat)
    } else {
        None
    }
}

/// Every byte of `t` is a digit in the radix.
pub open spec fn is_numeral(t: Seq<u8>, radix: nat) -> bool {
    forall|i: int| 0 <= i < t.len() ==> (#[trigger] digit_of(t[i], radix)) is Some
}

/// The number that the digits of `t` write in the radix, most significant first.
pub open spec fn numeral_value(t: Seq<u8>, radix: nat) -> nat
    decreases t.len(),
{
    if t.len() == 0 {
        0
    } else {
        numeral_value(t.drop_last(), radix) * radix + match digit_of(t.last(), radix) {
            Some(d) => d,
            None => 0,
        }
    }
}

pub proof fn lemma_numeral_prefix(t: Seq<u8>, radix: nat, k: int)
    requires
        0 <= k <= t.len(),
        radix >= 1,
    ensures
        numeral_value(t.take(k), radix) <= numeral_value(t, radix),
    decreases t.len(),
{
    if k < t.len() {
        lemma_numeral_prefix(t.drop_last(), radix, k);
        assert(t.drop_last().take(k) =~= t.take(k));
        let v = numeral_value(t.drop_last(), radix);
        assert(v * radix >= v) by (nonlinear_arith)
            requires
                radix >= 1,
        ;
    } else {
        assert(t.take(k) =~= t);
    }
}

/// Splits `s` at every `sep`.
pub fn split_bytes(s: &[u8], sep: u8) -> (r: Vec<Vec<u8>>)
    ensures
        Seq::new(r@.len(), |i: int| r@[i]@) == split(s@, sep),
{
    let mut fields: Vec<Vec<u8>> = Vec::new();
    let mut cur: Vec<u8> = Vec::new();
    let mut i: usize = 0;
    while i < s.len()
        invariant
            i <= s@.len(),
            Seq::new(fields@.len(), |k: int| fields@[k]@).push(cur@) == split(s@.take(i as int), sep),
        decreases s@.len() - i,
    {
        let c = s[i];
        proof {
            assert(s@.take(i as int + 1).drop_last() =~= s@.take(i as int));
            lemma_split_len(s@.take(i as int), sep);
        }
        let ghost before = Seq::new(fields@.len(), |k: int| fields@[k]@);
        let ghost cur_before = cur@;
        if c == sep {
            fields.push(cur);
            cur = Vec::new();
            assert(Seq::new(fields@.len(), |k: int| fields@[k]@) =~= before.push(cur_before));
        } else {
            cur.push(c);
            assert(before.push(cur@) =~= before.push(cur_before).update(
                before.len() as int,
                cur_before.push(c),
            ));
        }
        i = i + 1;
    }
    let ghost before = Seq::new(fields@.len(), |k: int| fields@[k]@);
    let ghost last = cur@;
    fields.push(cur);
    assert(s@.take(s@.len() as int) =~= s@);
    assert(Seq::new(fields@.len(), |k: int| fields@[k]@) =~= before.push(last));
    fields
}

/// The value of a digit in the radix.
fn digit(c: u8, radix: u32) -> (r: Option<u32>)
    requires
        radix == 10 || radix == 16,
    ensures
        match r {
            Some(d) => digit_of(c, radix as nat) == Some(d as nat) && d < radix,
            None => digit_of(c, radix as nat) is None,
        },
{
    if 48 <= c && c <= 57 {
        Some((c - 48) as u32)
    } else if radix == 16 && 97 <= c && c <= 102 {
        Some((c - 87) as u32)
    } else if radix == 16 && 65 <= c && c <= 70 {
        Some((c - 55) as u32)
    } else {
        None
    }
}

/// Reads `t` as a number in the radix, and accepts it only where it is made
/// of at least one digit and its value does not pass `limit`.
pub fn read_number(t: &[u8], radix: u32, limit: u32) -> (r: Option<u32>)
    requires
        radix == 10 || radix == 16,
    ensures
        r == (if t@.len() >= 1 && is_numeral(t@, radix as nat) && numeral_value(t@, radix as nat)
            <= limit {
            Some(numeral_value(t@, radix as nat) as u32)
        } else {
            None::<u32>
        }),
{
    if t.len() == 0 {
        return None;
    }
    let mut v: u64 = 0;
    let mut i: usize = 0;
    while i < t.len()
        invariant
            i <= t@.len(),
            radix == 10 || radix == 16,
            v <= limit,
            v == numeral_value(t@.take(i as int), radix as nat),
            is_numeral(t@.take(i as int), radix as nat),
        decreases t@.len() - i,
    {
        proof {
            assert(t@.take(i as int + 1).drop_last() =~= t@.take(i as int));
        }
        match digit(t[i], radix) {
            None => {
                assert(digit_of(t@[i as int], radix as nat) is None);
                return None;
            },
            Some(d) => {
                assert(v * (radix as u64) <= 16 * 4294967295u64) by (nonlinear_arith)
                    requires
                        v <= 4294967295u64,
                        radix <= 16,
                ;
                let w = v * (radix as u64) + (d as u64);
                assert(numeral_value(t@.take(i as int + 1), radix as nat) == w);
                if w > limit as u64 {
                    proof {
                        lemma_numeral_prefix(t@, radix as nat, i as int + 1);
                    }
                    return None;
                }
                v = w;
                assert forall|k: int| 0 <= k < i + 1 implies (#[trigger] digit_of(
                    t@.take(i as int + 1)[k],
                    radix as nat,
                )) is Some by {
                    if k < i {
                        assert(t@.take(i as int + 1)[k] == t@.take(i as int)[k]);
                    }
                }
            },
        }
        i = i + 1;
    }
    assert(t@.take(t@.len() as int) =~= t@);
    Some(v as u32)
}

} // verus!
