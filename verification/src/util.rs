//! Byte-level helpers shared by the codecs: decimal rendering and parsing of
//! unsigned integers, and scanning for digit runs and delimiter bytes.
use vstd::prelude::*;

verus! {

/// ASCII '0'..'9'.
pub open spec fn is_digit(c: u8) -> bool {
    0x30 <= c <= 0x39
}

/// The decimal rendering of `n`, most significant digit first.
pub open spec fn dec_seq(n: nat) -> Seq<u8>
    decreases n,
{
    if n < 10 {
        seq![(0x30 + n) as u8]
    } else {
        dec_seq(n / 10).push((0x30 + n % 10) as u8)
    }
}

/// The numeric value of a digit string (junk on non-digit bytes).
pub open spec fn dec_val(s: Seq<u8>) -> int
    decreases s.len(),
{
    if s.len() == 0 {
        0
    } else {
        dec_val(s.drop_last()) * 10 + (s.last() - 0x30)
    }
}

pub open spec fn all_digits(s: Seq<u8>) -> bool {
    forall|i: int| 0 <= i < s.len() ==> is_digit(#[trigger] s[i])
}

pub proof fn lemma_dec_seq_digits(n: nat)
    ensures
        dec_seq(n).len() >= 1,
        all_digits(dec_seq(n)),
    decreases n,
{
    if n >= 10 {
        lemma_dec_seq_digits(n / 10);
        assert forall|i: int| 0 <= i < dec_seq(n).len() implies is_digit(#[trigger] dec_seq(n)[i]) by {
            if i < dec_seq(n / 10).len() {
                assert(dec_seq(n)[i] == dec_seq(n / 10)[i]);
            }
        }
    }
}

/// Rendering then evaluating a number gives the number back.
pub proof fn lemma_dec_val_of_dec_seq(n: nat)
    ensures
        dec_val(dec_seq(n)) == n,
    decreases n,
{
    if n < 10 {
        let s = dec_seq(n);
        assert(s =~= seq![(0x30 + n) as u8]);
        assert(s.drop_last() =~= Seq::<u8>::empty());
        assert(s.last() == (0x30 + n) as u8);
        assert(dec_val(s) == dec_val(Seq::<u8>::empty()) * 10 + ((0x30 + n) as u8 - 0x30));
    } else {
        lemma_dec_val_of_dec_seq(n / 10);
        let s = dec_seq(n);
        assert(s == dec_seq(n / 10).push((0x30 + n % 10) as u8));
        assert(s.drop_last() =~= dec_seq(n / 10));
        assert(s.last() == (0x30 + n % 10) as u8);
        assert(n % 10 < 10) by {
            vstd::arithmetic::div_mod::lemma_mod_bound(n as int, 10);
        }
        assert(dec_val(s) == (n / 10) * 10 + n % 10);
        assert((n / 10) * 10 + n % 10 == n) by {
            vstd::arithmetic::div_mod::lemma_fundamental_div_mod(n as int, 10);
        }
    }
}

pub proof fn lemma_dec_val_nonneg(s: Seq<u8>)
    requires
        all_digits(s),
    ensures
        dec_val(s) >= 0,
    decreases s.len(),
{
    if s.len() > 0 {
        assert(all_digits(s.drop_last()));
        lemma_dec_val_nonneg(s.drop_last());
    }
}

/// Renders `n` in decimal.
pub fn u64_to_dec(n: u64) -> (r: Vec<u8>)
    ensures
        r@ == dec_seq(n as nat),
    decreases n,
{
    if n < 10 {
        let mut v: Vec<u8> = Vec::new();
        v.push(0x30 + n as u8);
        proof {
            assert(v@ =~= dec_seq(n as nat));
        }
        v
    } else {
        let mut v = u64_to_dec(n / 10);
        v.push(0x30 + (n % 10) as u8);
        v
    }
}

/// First position at or after `i` that does not hold a digit (or the length).
pub open spec fn scan_digits(s: Seq<u8>, i: int) -> int
    decreases s.len() - i,
{
    if i < 0 || i >= s.len() {
        i
    } else if !is_digit(s[i]) {
        i
    } else {
        scan_digits(s, i + 1)
    }
}

pub proof fn lemma_scan_digits_props(s: Seq<u8>, i: int)
    requires
        0 <= i <= s.len(),
    ensures
        i <= scan_digits(s, i) <= s.len(),
        forall|j: int| i <= j < scan_digits(s, i) ==> is_digit(#[trigger] s[j]),
        scan_digits(s, i) < s.len() ==> !is_digit(s[scan_digits(s, i)]),
    decreases s.len() - i,
{
    if i < s.len() && is_digit(s[i]) {
        lemma_scan_digits_props(s, i + 1);
    }
}

/// The scan stops exactly at the end of a known digit run.
pub proof fn lemma_scan_digits_determined(s: Seq<u8>, i: int, j: int)
    requires
        0 <= i <= j <= s.len(),
        forall|k: int| i <= k < j ==> is_digit(#[trigger] s[k]),
        j == s.len() || !is_digit(s[j]),
    ensures
        scan_digits(s, i) == j,
    decreases j - i,
{
    if i < j {
        lemma_scan_digits_determined(s, i + 1, j);
    }
}

pub fn scan_digits_exec(s: &Vec<u8>, from: usize) -> (r: usize)
    requires
        from <= s@.len(),
    ensures
        r == scan_digits(s@, from as int),
        from <= r <= s@.len(),
{
    proof {
        lemma_scan_digits_props(s@, from as int);
    }
    let mut i = from;
    while i < s.len() && is_digit_exec(s[i])
        invariant
            from <= i <= s@.len(),
            scan_digits(s@, from as int) == scan_digits(s@, i as int),
        decreases s@.len() - i,
    {
        i = i + 1;
    }
    i
}

pub fn is_digit_exec(c: u8) -> (r: bool)
    ensures
        r == is_digit(c),
{
    0x30 <= c && c <= 0x39
}

/// Evaluates the digit run `s[from..to]` as a `u64`; `None` when the value
/// does not fit.
pub fn parse_dec_u64(s: &Vec<u8>, from: usize, to: usize) -> (r: Option<u64>)
    requires
        from <= to <= s@.len(),
        forall|j: int| from <= j < to ==> is_digit(#[trigger] s@[j]),
    ensures
        match r {
            Some(v) => v == dec_val(s@.subrange(from as int, to as int)) && dec_val(
                s@.subrange(from as int, to as int),
            ) <= u64::MAX,
            None => dec_val(s@.subrange(from as int, to as int)) > u64::MAX,
        },
{
    let mut val: u64 = 0;
    let mut overflow = false;
    let mut i = from;
    proof {
        assert(s@.subrange(from as int, from as int) =~= Seq::<u8>::empty());
    }
    while i < to
        invariant
            from <= i <= to <= s@.len(),
            forall|j: int| from <= j < to ==> is_digit(#[trigger] s@[j]),
            !overflow ==> val == dec_val(s@.subrange(from as int, i as int)),
            overflow ==> dec_val(s@.subrange(from as int, i as int)) > u64::MAX,
        decreases to - i,
    {
        let d: u8 = s[i] - 0x30;
        proof {
            let t = s@.subrange(from as int, i as int);
            let u = s@.subrange(from as int, i + 1);
            assert(u =~= t.push(s@[i as int]));
            assert(u.drop_last() =~= t);
            assert(u.last() == s@[i as int]);
            assert(dec_val(u) == dec_val(t) * 10 + (s@[i as int] - 0x30));
            assert(all_digits(t));
            lemma_dec_val_nonneg(t);
        }
        if overflow {
        } else {
            let prod: u128 = (val as u128) * 10 + (d as u128);
            if prod > u64::MAX as u128 {
                overflow = true;
            } else {
                val = prod as u64;
            }
        }
        i = i + 1;
    }
    if overflow {
        None
    } else {
        Some(val)
    }
}

/// First position at or after `i` holding the byte `b`, or the length when
/// the byte does not occur there.
pub open spec fn first_pos(s: Seq<u8>, i: nat, b: u8) -> nat
    decreases s.len() - i,
{
    if i >= s.len() {
        s.len()
    } else if s[i as int] == b {
        i
    } else {
        first_pos(s, i + 1, b)
    }
}

pub proof fn lemma_first_pos_props(s: Seq<u8>, i: nat, b: u8)
    requires
        i <= s.len(),
    ensures
        i <= first_pos(s, i, b) <= s.len(),
        forall|k: int| i <= k < first_pos(s, i, b) ==> #[trigger] s[k] != b,
        first_pos(s, i, b) < s.len() ==> s[first_pos(s, i, b) as int] == b,
    decreases s.len() - i,
{
    if i < s.len() && s[i as int] != b {
        lemma_first_pos_props(s, i + 1, b);
    }
}

/// The search lands exactly on a known first occurrence.
pub proof fn lemma_first_pos_determined(s: Seq<u8>, i: nat, b: u8, j: nat)
    requires
        i <= j < s.len(),
        forall|k: int| i <= k < j ==> #[trigger] s[k] != b,
        s[j as int] == b,
    ensures
        first_pos(s, i, b) == j,
    decreases j - i,
{
    if i < j {
        lemma_first_pos_determined(s, i + 1, b, j);
    }
}

pub proof fn lemma_first_pos_absent(s: Seq<u8>, i: nat, b: u8)
    requires
        i <= s.len(),
        forall|k: int| i <= k < s.len() ==> #[trigger] s[k] != b,
    ensures
        first_pos(s, i, b) == s.len(),
    decreases s.len() - i,
{
    if i < s.len() {
        lemma_first_pos_absent(s, i + 1, b);
    }
}

pub fn find_byte(s: &Vec<u8>, from: usize, b: u8) -> (r: usize)
    requires
        from <= s@.len(),
    ensures
        r == first_pos(s@, from as nat, b),
        from <= r <= s@.len(),
        r < s@.len() ==> s@[r as int] == b,
{
    proof {
        lemma_first_pos_props(s@, from as nat, b);
    }
    let mut i = from;
    while i < s.len()
        invariant
            from <= i <= s@.len(),
            first_pos(s@, from as nat, b) == first_pos(s@, i as nat, b),
        decreases s@.len() - i,
    {
        if s[i] == b {
            return i;
        }
        i = i + 1;
    }
    i
}

/// Copies `s[from..to]` into a fresh vector.
pub fn copy_range(s: &Vec<u8>, from: usize, to: usize) -> (r: Vec<u8>)
    requires
        from <= to <= s@.len(),
    ensures
        r@ == s@.subrange(from as int, to as int),
{
    let mut r: Vec<u8> = Vec::new();
    proof {
        assert(s@.subrange(from as int, from as int) =~= Seq::<u8>::empty());
    }
    let mut i = from;
    while i < to
        invariant
            from <= i <= to <= s@.len(),
            r@ == s@.subrange(from as int, i as int),
        decreases to - i,
    {
        r.push(s[i]);
        proof {
            assert(s@.subrange(from as int, i + 1) =~= s@.subrange(from as int, i as int).push(
                s@[i as int],
            ));
        }
        i = i + 1;
    }
    r
}

/// Concatenation of byte chunks with the byte `b` between them.
pub open spec fn join_with(chunks: Seq<Seq<u8>>, b: u8) -> Seq<u8>
    decreases chunks.len(),
{
    if chunks.len() == 0 {
        Seq::empty()
    } else if chunks.len() == 1 {
        chunks[0]
    } else {
        chunks[0] + seq![b] + join_with(chunks.drop_first(), b)
    }
}

/// Splitting a byte string at each occurrence of `b`.
pub open spec fn split_on(s: Seq<u8>, b: u8) -> Seq<Seq<u8>>
    decreases s.len(),
{
    let j = first_pos(s, 0, b);
    if j >= s.len() {
        seq![s]
    } else {
        seq![s.subrange(0, j as int)] + split_on(s.subrange(j as int + 1, s.len() as int), b)
    }
}

pub open spec fn free_of(s: Seq<u8>, b: u8) -> bool {
    forall|i: int| 0 <= i < s.len() ==> #[trigger] s[i] != b
}

pub proof fn lemma_join_with_push(a: Seq<Seq<u8>>, x: Seq<u8>, b: u8)
    ensures
        join_with(a.push(x), b) == if a.len() == 0 {
            x
        } else {
            join_with(a, b) + seq![b] + x
        },
    decreases a.len(),
{
    if a.len() == 0 {
        assert(a.push(x) =~~= seq![x]);
        assert(join_with(seq![x], b) == x);
    } else if a.len() == 1 {
        assert(a.push(x) =~~= seq![a[0], x]);
        let c = seq![a[0], x];
        assert(c.drop_first() =~~= seq![x]);
        assert(c[0] == a[0]);
        assert(join_with(seq![x], b) == x);
        assert(join_with(c, b) == c[0] + seq![b] + join_with(c.drop_first(), b));
        assert(join_with(c, b) == a[0] + seq![b] + x);
        assert(join_with(a, b) == a[0]);
    } else {
        lemma_join_with_push(a.drop_first(), x, b);
        assert(a.push(x).drop_first() =~~= a.drop_first().push(x));
        assert(a.push(x)[0] == a[0]);
        assert(join_with(a.push(x), b) == a[0] + seq![b] + join_with(a.drop_first().push(x), b));
        assert(join_with(a.drop_first().push(x), b) == join_with(a.drop_first(), b) + seq![b] + x);
        assert(a[0] + seq![b] + (join_with(a.drop_first(), b) + seq![b] + x) =~= (a[0] + seq![b]
            + join_with(a.drop_first(), b)) + seq![b] + x);
    }
}

/// Splitting inverts joining when no chunk holds the separator: the n-th
/// chunk joined in comes back as the n-th chunk of the split.
pub proof fn lemma_split_join_on(chunks: Seq<Seq<u8>>, b: u8)
    requires
        chunks.len() >= 1,
        forall|i: int| 0 <= i < chunks.len() ==> free_of(#[trigger] chunks[i], b),
    ensures
        split_on(join_with(chunks, b), b) == chunks,
    decreases chunks.len(),
{
    let s = join_with(chunks, b);
    if chunks.len() == 1 {
        assert(s == chunks[0]);
        assert(free_of(chunks[0], b));
        lemma_first_pos_absent(s, 0, b);
        assert(split_on(s, b) =~~= chunks);
    } else {
        let f0 = chunks[0];
        let rest = chunks.drop_first();
        let tail = join_with(rest, b);
        assert(s == f0 + seq![b] + tail);
        assert(s.len() == f0.len() + 1 + tail.len());
        assert(free_of(f0, b));
        assert forall|k: int| 0 <= k < f0.len() implies #[trigger] s[k] != b by {
            assert(s[k] == f0[k]);
        }
        assert(s[f0.len() as int] == b);
        if f0.len() == 0 {
            lemma_first_pos_determined(s, 0, b, 0);
        } else {
            lemma_first_pos_determined(s, 0, b, f0.len());
        }
        let j = first_pos(s, 0, b);
        assert(j == f0.len());
        assert(s.subrange(0, j as int) =~= f0);
        assert(s.subrange(j as int + 1, s.len() as int) =~= tail);
        assert forall|i: int| 0 <= i < rest.len() implies free_of(#[trigger] rest[i], b) by {
            assert(rest[i] == chunks[i + 1]);
        }
        lemma_split_join_on(rest, b);
        assert(split_on(s, b) == seq![f0] + split_on(tail, b));
        assert(seq![f0] + rest =~~= chunks);
    }
}

/// Splits a byte vector at each occurrence of `b`.
pub fn split_on_exec(s: &Vec<u8>, b: u8) -> (r: Vec<Vec<u8>>)
    ensures
        r@.map_values(|v: Vec<u8>| v@) == split_on(s@, b),
    decreases s@.len(),
{
    let j = find_byte(s, 0, b);
    if j >= s.len() {
        let mut r: Vec<Vec<u8>> = Vec::new();
        let whole = copy_range(s, 0, s.len());
        proof {
            assert(s@.subrange(0, s@.len() as int) =~= s@);
        }
        r.push(whole);
        proof {
            assert(r@.map_values(|v: Vec<u8>| v@) =~~= seq![s@]);
        }
        r
    } else {
        let head = copy_range(s, 0, j);
        let tail = copy_range(s, j + 1, s.len());
        let mut r = split_on_exec(&tail, b);
        r.insert(0, head);
        proof {
            assert(r@.map_values(|v: Vec<u8>| v@) =~~= seq![s@.subrange(0, j as int)] + split_on(
                s@.subrange(j as int + 1, s@.len() as int),
                b,
            ));
        }
        r
    }
}

/// Byte-vector equality, reflected into the view.
pub fn bytes_eq(a: &Vec<u8>, b: &Vec<u8>) -> (r: bool)
    ensures
        r == (a@ == b@),
{
    if a.len() != b.len() {
        return false;
    }
    let mut i: usize = 0;
    while i < a.len()
        invariant
            0 <= i <= a@.len(),
            a@.len() == b@.len(),
            forall|j: int| 0 <= j < i ==> a@[j] == b@[j],
        decreases a@.len() - i,
    {
        if a[i] != b[i] {
            return false;
        }
        i = i + 1;
    }
    proof {
        assert(a@ =~= b@);
    }
    true
}

} // verus!
