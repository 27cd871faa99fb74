//! The store document format and its proof of round-trip fidelity.
//!
//! A store file holds one record per line: the id in decimal, a space, the
//! description's length in characters in decimal, a space, the description
//! itself (any characters, read by count, so newlines inside it are harmless),
//! and a closing newline. The empty document encodes the empty list.

use crate::record::RecModel;
use vstd::prelude::*;

verus! {

pub open spec fn is_digit(c: char) -> bool {
    '0' <= c && c <= '9'
}

pub open spec fn digit_val(c: char) -> nat
    recommends
        is_digit(c),
{
    ((c as int) - 48) as nat
}

pub open spec fn digit_char(d: nat) -> char
    recommends
        d < 10,
{
    if d == 0 {
        '0'
    } else if d == 1 {
        '1'
    } else if d == 2 {
        '2'
    } else if d == 3 {
        '3'
    } else if d == 4 {
        '4'
    } else if d == 5 {
        '5'
    } else if d == 6 {
        '6'
    } else if d == 7 {
        '7'
    } else if d == 8 {
        '8'
    } else {
        '9'
    }
}

/// The decimal digits of n, most significant first.
pub open spec fn dec_digits(n: nat) -> Seq<char>
    decreases n,
{
    if n < 10 {
        seq![digit_char(n)]
    } else {
        dec_digits(n / 10).push(digit_char(n % 10))
    }
}

/// The value of a digit string, read left to right.
pub open spec fn digits_val(s: Seq<char>) -> nat
    decreases s.len(),
{
    if s.len() == 0 {
        0
    } else {
        digits_val(s.drop_last()) * 10 + digit_val(s.last())
    }
}

/// The first position at or after i that does not hold a digit.
pub open spec fn digits_end(s: Seq<char>, i: int) -> int
    decreases s.len() - i,
{
    if i < 0 || i >= s.len() {
        i
    } else if is_digit(s[i]) {
        digits_end(s, i + 1)
    } else {
        i
    }
}

/// One record's line in the document.
pub open spec fn encode_rec(r: RecModel) -> Seq<char> {
    dec_digits(r.id as nat) + seq![' '] + dec_digits(r.description.len()) + seq![' ']
        + r.description + seq!['\n']
}

/// The whole document: the records' lines, in order.
pub open spec fn spec_encode(l: Seq<RecModel>) -> Seq<char>
    decreases l.len(),
{
    if l.len() == 0 {
        Seq::empty()
    } else {
        encode_rec(l[0]) + spec_encode(l.drop_first())
    }
}

/// The list encoded in s from position i on, or None where s is not a valid
/// document from there.
pub open spec fn decode_from(s: Seq<char>, i: int) -> Option<Seq<RecModel>>
    decreases s.len() - i,
{
    if i >= s.len() {
        if i == s.len() {
            Some(Seq::empty())
        } else {
            None
        }
    } else if i < 0 {
        None
    } else {
        let e1 = digits_end(s, i);
        if e1 <= i || e1 >= s.len() || s[e1] != ' ' {
            None
        } else {
            let id = digits_val(s.subrange(i, e1));
            if id > u32::MAX {
                None
            } else {
                let e2 = digits_end(s, e1 + 1);
                if e2 <= e1 + 1 || e2 >= s.len() || s[e2] != ' ' {
                    None
                } else {
                    let n = digits_val(s.subrange(e1 + 1, e2)) as int;
                    if e2 + 2 + n > s.len() {
                        None
                    } else if s[e2 + 1 + n] != '\n' {
                        None
                    } else {
                        let desc = s.subrange(e2 + 1, e2 + 1 + n);
                        match decode_from(s, e2 + 2 + n) {
                            Some(t) => Some(
                                seq![RecModel { id: id as u32, description: desc }] + t,
                            ),
                            None => None,
                        }
                    }
                }
            }
        }
    }
}

/// The list encoded in a whole document.
pub open spec fn spec_decode(s: Seq<char>) -> Option<Seq<RecModel>> {
    decode_from(s, 0)
}

/// Decimal digits are digits, at least one of them, and they read back to the
/// number they were made from.
pub proof fn lemma_dec_digits(n: nat)
    ensures
        dec_digits(n).len() >= 1,
        forall|k: int| 0 <= k < dec_digits(n).len() ==> is_digit(#[trigger] dec_digits(n)[k]),
        digits_val(dec_digits(n)) == n,
    decreases n,
{
    if n < 10 {
        assert(dec_digits(n) == seq![digit_char(n)]);
        assert(dec_digits(n).drop_last() =~= Seq::<char>::empty());
        assert(digits_val(Seq::<char>::empty()) == 0);
        assert(dec_digits(n).last() == digit_char(n));
        assert(digits_val(dec_digits(n)) == digits_val(Seq::<char>::empty()) * 10 + digit_val(
            digit_char(n),
        ));
    } else {
        lemma_dec_digits(n / 10);
        let prev = dec_digits(n / 10);
        let dd = dec_digits(n);
        assert(dd == prev.push(digit_char(n % 10)));
        assert(dd.drop_last() =~= prev);
        assert(dd.last() == digit_char(n % 10));
        assert(digit_val(digit_char(n % 10)) == n % 10);
        assert(n / 10 * 10 + n % 10 == n) by (nonlinear_arith);
        assert forall|k: int| 0 <= k < dd.len() implies is_digit(#[trigger] dd[k]) by {
            if k < prev.len() {
                assert(dd[k] == prev[k]);
            } else {
                assert(dd[k] == digit_char(n % 10));
            }
        }
    }
}

/// Everything before the boundary digits_end finds is a digit.
pub proof fn lemma_digits_end_props(s: Seq<char>, i: int)
    requires
        0 <= i <= s.len(),
    ensures
        i <= digits_end(s, i) <= s.len(),
        forall|k: int| i <= k < digits_end(s, i) ==> is_digit(#[trigger] s[k]),
    decreases s.len() - i,
{
    if i < s.len() && is_digit(s[i]) {
        lemma_digits_end_props(s, i + 1);
    }
}

/// digits_end finds exactly the boundary of a digit run.
pub proof fn lemma_digits_end_is(s: Seq<char>, i: int, j: int)
    requires
        0 <= i <= j <= s.len(),
        forall|k: int| i <= k < j ==> is_digit(#[trigger] s[k]),
        j == s.len() || !is_digit(s[j]),
    ensures
        digits_end(s, i) == j,
    decreases j - i,
{
    if i < j {
        lemma_digits_end_is(s, i + 1, j);
    }
}

/// Encoding a concatenation concatenates the encodings.
pub proof fn lemma_encode_concat(a: Seq<RecModel>, b: Seq<RecModel>)
    ensures
        spec_encode(a + b) == spec_encode(a) + spec_encode(b),
    decreases a.len(),
{
    if a.len() == 0 {
        assert(a + b =~= b);
        assert(spec_encode(a) + spec_encode(b) =~= spec_encode(b));
    } else {
        assert((a + b).len() > 0);
        assert((a + b)[0] == a[0]);
        assert((a + b).drop_first() =~= a.drop_first() + b);
        lemma_encode_concat(a.drop_first(), b);
        assert(encode_rec(a[0]) + (spec_encode(a.drop_first()) + spec_encode(b)) =~= (encode_rec(
            a[0],
        ) + spec_encode(a.drop_first())) + spec_encode(b));
    }
}

/// Decoding a document that continues with the encoding of l yields l.
/// Stated with an arbitrary already-read prefix so that induction can walk the
/// list record by record.
#[verifier::rlimit(100)]
#[verifier::spinoff_prover]
pub proof fn lemma_decode_encode_from(p: Seq<char>, l: Seq<RecModel>)
    ensures
        decode_from(p + spec_encode(l), p.len() as int) == Some(l),
    decreases l.len(),
{
    let s = p + spec_encode(l);
    let i = p.len() as int;
    if l.len() == 0 {
        assert(s =~= p);
        assert(l =~= Seq::<RecModel>::empty());
        assert(decode_from(s, i) == Some(Seq::<RecModel>::empty()));
    } else {
        let r = l[0];
        let enc = encode_rec(r);
        let rest = spec_encode(l.drop_first());
        assert(spec_encode(l) == enc + rest);
        assert(s =~= (p + enc) + rest);
        lemma_decode_encode_from(p + enc, l.drop_first());
        lemma_dec_digits(r.id as nat);
        lemma_dec_digits(r.description.len());
        let da = dec_digits(r.id as nat);
        let db = dec_digits(r.description.len());
        let a = da.len() as int;
        let b = db.len() as int;
        let n = r.description.len() as int;
        // Layout of the record's line inside s, starting at i.
        assert(enc.len() == a + 1 + b + 1 + n + 1);
        assert(s.len() == i + enc.len() + rest.len());
        assert forall|k: int| i <= k < i + a implies is_digit(#[trigger] s[k]) by {
            assert(s[k] == enc[k - i]);
            assert(enc[k - i] == da[k - i]);
        }
        assert(s[i + a] == enc[a]);
        assert(s[i + a] == ' ');
        lemma_digits_end_is(s, i, i + a);
        assert(s.subrange(i, i + a) =~= da);
        assert forall|k: int| i + a + 1 <= k < i + a + 1 + b implies is_digit(
            #[trigger] s[k],
        ) by {
            assert(s[k] == enc[k - i]);
            assert(enc[k - i] == db[k - i - a - 1]);
        }
        assert(s[i + a + 1 + b] == enc[a + 1 + b]);
        assert(s[i + a + 1 + b] == ' ');
        lemma_digits_end_is(s, i + a + 1, i + a + 1 + b);
        assert(s.subrange(i + a + 1, i + a + 1 + b) =~= db);
        let d0 = i + a + 1 + b + 1;
        assert forall|k: int| d0 <= k < d0 + n implies s[k] == r.description[k - d0] by {
            assert(s[k] == enc[k - i]);
        }
        assert(s.subrange(d0, d0 + n) =~= r.description);
        assert(s[d0 + n] == enc[a + 1 + b + 1 + n]);
        assert(s[d0 + n] == '\n');
        // The guards of decode_from all pass and it reads exactly r.
        assert(digits_end(s, i) == i + a);
        assert(digits_val(s.subrange(i, i + a)) == r.id as nat);
        assert(digits_val(s.subrange(i + a + 1, i + a + 1 + b)) == r.description.len());
        assert(decode_from(s, d0 + n + 1) == Some(l.drop_first()));
        assert(RecModel {
            id: digits_val(s.subrange(i, digits_end(s, i))) as u32,
            description: s.subrange(d0, d0 + n),
        } == r);
        assert(decode_from(s, i) == Some(seq![r] + l.drop_first()));
        assert(seq![r] + l.drop_first() =~= l);
    }
}

/// The round-trip law: decoding an encoded record list gives back exactly
/// that list, whatever the ids and descriptions were.
pub proof fn lemma_encode_decode(l: Seq<RecModel>)
    ensures
        spec_decode(spec_encode(l)) == Some(l),
{
    lemma_decode_encode_from(Seq::empty(), l);
    assert(Seq::<char>::empty() + spec_encode(l) =~= spec_encode(l));
}

fn digit_str(d: u8) -> (r: &'static str)
    requires
        d < 10,
    ensures
        r@ == seq![digit_char(d as nat)],
{
    proof {
        reveal_strlit("0");
        reveal_strlit("1");
        reveal_strlit("2");
        reveal_strlit("3");
        reveal_strlit("4");
        reveal_strlit("5");
        reveal_strlit("6");
        reveal_strlit("7");
        reveal_strlit("8");
        reveal_strlit("9");
        assert("0"@ =~= seq!['0']);
        assert("1"@ =~= seq!['1']);
        assert("2"@ =~= seq!['2']);
        assert("3"@ =~= seq!['3']);
        assert("4"@ =~= seq!['4']);
        assert("5"@ =~= seq!['5']);
        assert("6"@ =~= seq!['6']);
        assert("7"@ =~= seq!['7']);
        assert("8"@ =~= seq!['8']);
        assert("9"@ =~= seq!['9']);
    }
    match d {
        0 => "0",
        1 => "1",
        2 => "2",
        3 => "3",
        4 => "4",
        5 => "5",
        6 => "6",
        7 => "7",
        8 => "8",
        _ => "9",
    }
}

/// Appends the decimal digits of n to out.
pub fn append_dec(out: &mut String, n: u64)
    ensures
        final(out)@ == old(out)@ + dec_digits(n as nat),
    decreases n,
{
    if n >= 10 {
        append_dec(out, n / 10);
    }
    let d: u8 = (n % 10) as u8;
    out.append(digit_str(d));
    proof {
        if n < 10 {
            assert(dec_digits(n as nat) == seq![digit_char(n as nat)]);
            assert(old(out)@ + dec_digits(n as nat) =~= out@);
        } else {
            assert(dec_digits(n as nat) == dec_digits(n as nat / 10).push(
                digit_char(n as nat % 10),
            ));
            assert(old(out)@ + dec_digits(n as nat) =~= (old(out)@ + dec_digits(n as nat / 10))
                + seq![digit_char(n as nat % 10)]);
        }
    }
}

/// Finds the end of the digit run that starts at from.
pub fn scan_digits(s: &str, from: usize, n: usize) -> (e: usize)
    requires
        n == s@.len(),
        from <= n,
    ensures
        from <= e <= n,
        e == digits_end(s@, from as int),
        forall|k: int| from <= k < e ==> is_digit(#[trigger] s@[k]),
{
    proof {
        lemma_digits_end_props(s@, from as int);
    }
    let mut j: usize = from;
    loop
        invariant_except_break
            from <= j <= n,
            n == s@.len(),
            digits_end(s@, from as int) == digits_end(s@, j as int),
        ensures
            from <= j <= n,
            n == s@.len(),
            digits_end(s@, from as int) == j as int,
        decreases n - j,
    {
        if j >= n {
            assert(digits_end(s@, j as int) == j as int);
            break ;
        }
        let c = s.get_char(j);
        if !(c >= '0' && c <= '9') {
            assert(digits_end(s@, j as int) == j as int);
            break ;
        }
        assert(digits_end(s@, j as int) == digits_end(s@, j as int + 1));
        j = j + 1;
    }
    j
}

/// Reads the value of the digit run in s between from and end; None where the
/// value does not fit in a u64.
pub fn parse_dec(s: &str, from: usize, end: usize) -> (r: Option<u64>)
    requires
        from <= end <= s@.len(),
        forall|k: int| from <= k < end ==> is_digit(#[trigger] s@[k]),
    ensures
        (match r {
            Some(v) => v as nat == digits_val(s@.subrange(from as int, end as int)),
            None => digits_val(s@.subrange(from as int, end as int)) > u64::MAX,
        }),
{
    let mut v: u128 = 0;
    let mut big: bool = false;
    let mut j: usize = from;
    while j < end
        invariant
            from <= j <= end <= s@.len(),
            forall|k: int| from <= k < end ==> is_digit(#[trigger] s@[k]),
            !big ==> v as nat == digits_val(s@.subrange(from as int, j as int)) && v
                <= u64::MAX,
            big ==> digits_val(s@.subrange(from as int, j as int)) > u64::MAX,
        decreases end - j,
    {
        let c = s.get_char(j);
        proof {
            assert(is_digit(s@[j as int]));
            assert(s@.subrange(from as int, j as int + 1).drop_last() =~= s@.subrange(
                from as int,
                j as int,
            ));
            assert(s@.subrange(from as int, j as int + 1).last() == s@[j as int]);
        }
        let d: u32 = (c as u32) - 48;
        if big {
            proof {
                let prev = digits_val(s@.subrange(from as int, j as int));
                assert(prev * 10 >= prev) by (nonlinear_arith)
                    requires
                        prev >= 0,
                ;
            }
        } else {
            let nv: u128 = v * 10 + (d as u128);
            if nv > u64::MAX as u128 {
                big = true;
            } else {
                v = nv;
            }
        }
        j = j + 1;
    }
    if big {
        None
    } else {
        Some(v as u64)
    }
}

} // verus!
