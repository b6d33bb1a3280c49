//! The write-ahead log's text: one key per line, in decimal.
use vstd::prelude::*;

verus! {

/// The line separator.
pub const NEWLINE: u8 = 10;

/// A carriage return, dropped before a line's separator.
pub const CARRIAGE_RETURN: u8 = 13;

/// An optional sign before a key's digits.
pub const PLUS: u8 = 43;

/// The ASCII digit zero.
pub const ZERO: u8 = 48;

pub open spec fn is_digit(b: u8) -> bool {
    ZERO <= b <= ZERO + 9
}

/// The decimal digits of `n`, most significant first, without leading zeros.
pub open spec fn dec_digits(n: nat) -> Seq<u8>
    decreases n,
{
    if n < 10 {
        seq![(ZERO + n) as u8]
    } else {
        dec_digits(n / 10) + seq![(ZERO + n % 10) as u8]
    }
}

/// The number that the digits `d` spell in decimal.
pub open spec fn dec_value(d: Seq<u8>) -> nat
    decreases d.len(),
{
    if d.len() == 0 {
        0
    } else {
        dec_value(d.drop_last()) * 10 + (d.last() - ZERO) as nat
    }
}

/// The log line that records `key`.
pub open spec fn line_of(key: u64) -> Seq<u8> {
    dec_digits(key as nat) + seq![NEWLINE]
}

/// The log text that records `keys` in order.
pub open spec fn wal_text(keys: Seq<u64>) -> Seq<u8>
    decreases keys.len(),
{
    if keys.len() == 0 {
        seq![]
    } else {
        line_of(keys[0]) + wal_text(keys.drop_first())
    }
}

/// The index of the first separator in `s`, or its length if there is none.
pub open spec fn nl_index(s: Seq<u8>) -> nat
    decreases s.len(),
{
    if s.len() == 0 {
        0
    } else if s[0] == NEWLINE {
        0
    } else {
        1 + nl_index(s.drop_first())
    }
}

/// The lines of `s`: pieces between separators, a final piece without a
/// separator included, and one carriage return dropped before a separator.
pub open spec fn wal_lines(s: Seq<u8>) -> Seq<Seq<u8>>
    decreases s.len(),
{
    if s.len() == 0 {
        seq![]
    } else if nl_index(s) < s.len() {
        let i = nl_index(s) as int;
        let l = s.subrange(0, i);
        let line = if l.len() > 0 && l.last() == CARRIAGE_RETURN {
            l.drop_last()
        } else {
            l
        };
        seq![line] + wal_lines(s.subrange(i + 1, s.len() as int))
    } else {
        seq![s]
    }
}

/// A line without its sign, if it has one.
pub open spec fn key_digits(l: Seq<u8>) -> Seq<u8> {
    if l.len() > 0 && l[0] == PLUS {
        l.drop_first()
    } else {
        l
    }
}

/// The key a line records: an optional `+`, then one or more decimal digits
/// whose value fits in a `u64`.
pub open spec fn line_key(l: Seq<u8>) -> Option<u64> {
    let d = key_digits(l);
    if d.len() > 0 && (forall|i: int| 0 <= i < d.len() ==> is_digit(#[trigger] d[i])) && dec_value(d)
        <= u64::MAX {
        Some(dec_value(d) as u64)
    } else {
        None
    }
}

/// Whether every line of `s` records a key.
pub open spec fn wal_well_formed(s: Seq<u8>) -> bool {
    forall|i: int| 0 <= i < wal_lines(s).len() ==> (#[trigger] line_key(wal_lines(s)[i])).is_some()
}

/// The keys that the lines of `s` record, in order.
pub open spec fn wal_keys(s: Seq<u8>) -> Seq<u64> {
    wal_lines(s).map_values(|l: Seq<u8>| line_key(l).unwrap())
}

fn push_digits(n: u64, out: &mut Vec<u8>)
    ensures
        final(out)@ == old(out)@ + dec_digits(n as nat),
    decreases n,
{
    if n >= 10 {
        push_digits(n / 10, out);
    }
    out.push(ZERO + (n % 10) as u8);
    proof {
        if n >= 10 {
            assert(old(out)@ + dec_digits(n as nat) =~= old(out)@ + dec_digits((n / 10) as nat) + seq![
                (ZERO + n % 10) as u8]);
        } else {
            assert(dec_digits(n as nat) =~= seq![(ZERO + n) as u8]);
        }
    }
}

/// The log line that records `key`: its decimal digits and a separator.
pub fn wal_line(key: u64) -> (r: Vec<u8>)
    ensures
        r@ == line_of(key),
{
    let mut out: Vec<u8> = Vec::new();
    push_digits(key, &mut out);
    out.push(NEWLINE);
    proof {
        assert(out@ =~= line_of(key));
    }
    out
}

proof fn lemma_dec_prefix(d: Seq<u8>, k: int)
    requires
        0 <= k <= d.len(),
        forall|i: int| 0 <= i < d.len() ==> is_digit(#[trigger] d[i]),
    ensures
        dec_value(d.subrange(0, k)) <= dec_value(d),
    decreases d.len(),
{
    if k < d.len() {
        let e = d.drop_last();
        lemma_dec_prefix(e, k);
        assert(e.subrange(0, k) =~= d.subrange(0, k));
    } else {
        assert(d.subrange(0, k) =~= d);
    }
}

/// Parses the key on the line `text[start..end]`.
fn parse_key(text: &[u8], start: usize, end: usize) -> (r: Option<u64>)
    requires
        start <= end <= text@.len(),
    ensures
        r == line_key(text@.subrange(start as int, end as int)),
{
    let ghost l = text@.subrange(start as int, end as int);
    let mut ds: usize = start;
    if ds < end && text[ds] == PLUS {
        ds = ds + 1;
    }
    let ghost d = text@.subrange(ds as int, end as int);
    assert(d =~= key_digits(l));
    if ds == end {
        return None;
    }
    let mut acc: u64 = 0;
    let mut i: usize = ds;
    assert(text@.subrange(ds as int, ds as int) =~= Seq::<u8>::empty());
    while i < end
        invariant
            ds <= i <= end <= text@.len(),
            d == text@.subrange(ds as int, end as int),
            d == key_digits(l),
            l == text@.subrange(start as int, end as int),
            acc as nat == dec_value(text@.subrange(ds as int, i as int)),
            forall|q: int| ds <= q < i ==> is_digit(#[trigger] text@[q]),
        decreases end - i,
    {
        let c = text[i];
        let ghost p = text@.subrange(ds as int, i as int + 1);
        assert(p.drop_last() =~= text@.subrange(ds as int, i as int));
        if c < ZERO || c > ZERO + 9 {
            assert(!is_digit(d[i - ds]));
            return None;
        }
        let next = match acc.checked_mul(10) {
            Some(m) => m.checked_add((c - ZERO) as u64),
            None => None,
        };
        match next {
            Some(v) => {
                acc = v;
                i = i + 1;
            },
            None => {
                proof {
                    if forall|q: int| 0 <= q < d.len() ==> is_digit(#[trigger] d[q]) {
                        assert(p =~= d.subrange(0, i - ds + 1));
                        lemma_dec_prefix(d, i - ds + 1);
                    }
                }
                return None;
            },
        }
    }
    assert(d =~= text@.subrange(ds as int, i as int));
    Some(acc)
}

proof fn lemma_nl_index(s: Seq<u8>, m: int)
    requires
        0 <= m <= s.len(),
        forall|q: int| 0 <= q < m ==> s[q] != NEWLINE,
        m == s.len() || s[m] == NEWLINE,
    ensures
        nl_index(s) == m,
    decreases m,
{
    if m > 0 {
        lemma_nl_index(s.drop_first(), m - 1);
    }
}

/// Reads the keys recorded in a log's text, in order; `None` when a line
/// records no key.
pub fn parse_wal(text: &[u8]) -> (r: Option<Vec<u64>>)
    ensures
        r.is_some() <==> wal_well_formed(text@),
        r.is_some() ==> r.unwrap()@ == wal_keys(text@),
{
    let mut keys: Vec<u64> = Vec::new();
    let mut p: usize = 0;
    let ghost done: Seq<Seq<u8>> = seq![];
    let ghost n = text@.len() as int;
    assert(text@.subrange(0, n) =~= text@);
    while p < text.len()
        invariant
            p <= text@.len(),
            n == text@.len(),
            wal_lines(text@) == done + wal_lines(text@.subrange(p as int, n)),
            keys@.len() == done.len(),
            forall|i: int| 0 <= i < done.len() ==> line_key(#[trigger] done[i]) == Some(keys@[i]),
        decreases text@.len() - p,
    {
        let mut j: usize = p;
        while j < text.len() && text[j] != NEWLINE
            invariant
                p <= j <= text@.len(),
                forall|q: int| p <= q < j ==> text@[q] != NEWLINE,
            decreases text@.len() - j,
        {
            j = j + 1;
        }
        let ghost rest = text@.subrange(p as int, n);
        proof {
            lemma_nl_index(rest, j - p);
        }
        let mut end: usize = j;
        if j < text.len() && j > p && text[j - 1] == CARRIAGE_RETURN {
            end = j - 1;
        }
        let ghost line = text@.subrange(p as int, end as int);
        let k = parse_key(text, p, end);
        proof {
            let l = rest.subrange(0, j - p);
            if j < n {
                assert(l =~= text@.subrange(p as int, j as int));
                if l.len() > 0 && l.last() == CARRIAGE_RETURN {
                    assert(l.drop_last() =~= line);
                } else {
                    assert(l =~= line);
                }
                assert(rest.subrange(j - p + 1, rest.len() as int) =~= text@.subrange(j + 1, n));
                assert(wal_lines(rest) == seq![line] + wal_lines(text@.subrange(j + 1, n)));
            } else {
                assert(rest =~= line);
                assert(wal_lines(rest) == seq![line]);
                assert(text@.subrange(n, n) =~= Seq::<u8>::empty());
            }
        }
        match k {
            None => {
                proof {
                    assert(wal_lines(text@)[done.len() as int] == line);
                }
                return None;
            },
            Some(key) => {
                keys.push(key);
                proof {
                    assert(wal_lines(text@) =~= done.push(line) + wal_lines(
                        text@.subrange(if j < n { j + 1 } else { n }, n),
                    ));
                    done = done.push(line);
                }
                p = if j < text.len() { j + 1 } else { j };
            },
        }
    }
    proof {
        assert(text@.subrange(p as int, n) =~= Seq::<u8>::empty());
        assert(wal_lines(text@) =~= done);
        assert(keys@ =~= wal_keys(text@));
    }
    Some(keys)
}

proof fn lemma_dec_digits(n: nat)
    ensures
        dec_digits(n).len() > 0,
        forall|i: int| 0 <= i < dec_digits(n).len() ==> is_digit(#[trigger] dec_digits(n)[i]),
        dec_value(dec_digits(n)) == n,
    decreases n,
{
    if n >= 10 {
        lemma_dec_digits(n / 10);
        let d = dec_digits(n);
        assert(d.drop_last() =~= dec_digits(n / 10));
        assert(d.last() == (ZERO + n % 10) as u8);
        assert(dec_value(d) == dec_value(d.drop_last()) * 10 + (d.last() - ZERO) as nat);
        assert((n / 10) * 10 + n % 10 == n);
        assert forall|i: int| 0 <= i < d.len() implies is_digit(#[trigger] d[i]) by {
            if i < d.len() - 1 {
                assert(d[i] == dec_digits(n / 10)[i]);
            }
        }
    } else {
        let d = dec_digits(n);
        assert(d.drop_last() =~= Seq::<u8>::empty());
        assert(dec_value(d) == dec_value(d.drop_last()) * 10 + (d.last() - ZERO) as nat);
    }
}

/// The keys of a log written line by line read back as the same keys, in
/// the same order.
pub proof fn lemma_wal_round_trip(keys: Seq<u64>)
    ensures
        wal_well_formed(wal_text(keys)),
        wal_keys(wal_text(keys)) == keys,
    decreases keys.len(),
{
    let s = wal_text(keys);
    if keys.len() == 0 {
        assert(wal_lines(s) =~= Seq::<Seq<u8>>::empty());
        assert(wal_keys(s) =~= keys);
    } else {
        let rest = keys.drop_first();
        lemma_wal_round_trip(rest);
        let d = dec_digits(keys[0] as nat);
        lemma_dec_digits(keys[0] as nat);
        let m = d.len() as int;
        assert forall|q: int| 0 <= q < m implies s[q] != NEWLINE by {
            assert(s[q] == d[q]);
            assert(is_digit(d[q]));
        }
        assert(s[m] == NEWLINE);
        lemma_nl_index(s, m);
        assert(s.subrange(0, m) =~= d);
        assert(is_digit(d.last()));
        assert(s.subrange(m + 1, s.len() as int) =~= wal_text(rest));
        assert(key_digits(d) == d);
        assert(line_key(d) == Some(keys[0]));
        assert(wal_lines(s) == seq![d] + wal_lines(wal_text(rest)));
        let tail = wal_lines(wal_text(rest));
        assert forall|i: int| 0 <= i < wal_lines(s).len() implies (#[trigger] line_key(
            wal_lines(s)[i],
        )).is_some() by {
            if i > 0 {
                assert(wal_lines(s)[i] == tail[i - 1]);
            }
        }
        assert forall|i: int| 0 <= i < keys.len() implies wal_keys(s)[i] == keys[i] by {
            if i > 0 {
                assert(wal_lines(s)[i] == tail[i - 1]);
                assert(wal_keys(wal_text(rest))[i - 1] == rest[i - 1]);
            }
        }
        assert(wal_keys(s) =~= keys);
    }
}

} // verus!
