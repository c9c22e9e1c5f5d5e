//! Unsigned number parsing and payload decoding.
use vstd::prelude::*;

verus! {

/// The value of `c` as a digit: '0' to '9' count 0 to 9 and letters of
/// either case count from 10, as `char::to_digit` numbers them. Any other
/// character counts 36, which is no digit in any radix.
pub open spec fn digit_value(c: char) -> int {
    if '0' <= c && c <= '9' {
        c as int - '0' as int
    } else if 'a' <= c && c <= 'z' {
        c as int - 'a' as int + 10
    } else if 'A' <= c && c <= 'Z' {
        c as int - 'A' as int + 10
    } else {
        36
    }
}

/// Every character of `d` is a digit in `radix`.
pub open spec fn all_digits(d: Seq<char>, radix: int) -> bool {
    forall|i: int| 0 <= i < d.len() ==> digit_value(#[trigger] d[i]) < radix
}

/// The number that the digits `d` write in `radix`, most significant first.
pub open spec fn digits_value(d: Seq<char>, radix: int) -> int
    decreases d.len(),
{
    if d.len() == 0 {
        0
    } else {
        digits_value(d.drop_last(), radix) * radix + digit_value(d.last())
    }
}

/// What std's `from_str_radix` gives for an unsigned type whose largest value
/// is `max`: an optional leading '+', then at least one digit, and a value
/// no larger than `max`.
pub open spec fn parse_unsigned(tok: Seq<char>, radix: int, max: int) -> Option<int> {
    let d = if tok.len() > 0 && tok[0] == '+' {
        tok.drop_first()
    } else {
        tok
    };
    if d.len() > 0 && all_digits(d, radix) && digits_value(d, radix) <= max {
        Some(digits_value(d, radix))
    } else {
        None
    }
}

/// A decimal port number, as `str::parse::<u16>` reads it.
pub open spec fn parse_port(tok: Seq<char>) -> Option<u16> {
    match parse_unsigned(tok, 10, 0xffff) {
        Some(v) => Some(v as u16),
        None => None,
    }
}

/// One byte of a payload, as `u8::from_str_radix(tok, 16)` reads it.
pub open spec fn parse_hex_byte(tok: Seq<char>) -> Option<u8> {
    match parse_unsigned(tok, 16, 0xff) {
        Some(v) => Some(v as u8),
        None => None,
    }
}

/// The pieces of `s` between colons, as `str::split(':')` yields them:
/// never empty, and one more piece than there are colons.
pub open spec fn split_colons(s: Seq<char>) -> Seq<Seq<char>>
    decreases s.len(),
{
    if s.len() == 0 {
        seq![Seq::<char>::empty()]
    } else {
        let prev = split_colons(s.drop_last());
        if s.last() == ':' {
            prev.push(Seq::<char>::empty())
        } else {
            prev.update(prev.len() - 1, prev.last().push(s.last()))
        }
    }
}

/// The bytes that a payload text stands for: each colon-separated piece is
/// one byte in hexadecimal. `None` when any piece is no such byte.
pub open spec fn decode_payload(text: Seq<char>) -> Option<Seq<u8>> {
    let toks = split_colons(text);
    if forall|i: int| 0 <= i < toks.len() ==> (#[trigger] parse_hex_byte(toks[i])) is Some {
        Some(toks.map_values(|t: Seq<char>| parse_hex_byte(t)->Some_0))
    } else {
        None
    }
}

pub proof fn lemma_split_colons_nonempty(s: Seq<char>)
    ensures
        split_colons(s).len() >= 1,
    decreases s.len(),
{
    if s.len() > 0 {
        lemma_split_colons_nonempty(s.drop_last());
    }
}

proof fn lemma_digits_value_grows(d: Seq<char>, radix: int, j: int)
    requires
        all_digits(d, radix),
        radix >= 1,
        0 <= j <= d.len(),
    ensures
        0 <= digits_value(d.take(j), radix) <= digits_value(d, radix),
    decreases d.len(),
{
    if j < d.len() {
        let p = d.drop_last();
        assert(p.take(j) =~= d.take(j));
        assert(all_digits(p, radix)) by {
            assert forall|i: int| 0 <= i < p.len() implies digit_value(#[trigger] p[i]) < radix by {
                assert(p[i] == d[i]);
            }
        }
        lemma_digits_value_grows(p, radix, j);
        lemma_digits_value_grows(p, radix, p.len() as int);
        assert(p.take(p.len() as int) =~= p);
        let v = digits_value(p, radix);
        assert(v * radix >= v) by (nonlinear_arith)
            requires
                v >= 0,
                radix >= 1,
        ;
    } else {
        assert(d.take(j) =~= d);
        if d.len() > 0 {
            let p = d.drop_last();
            assert(all_digits(p, radix)) by {
                assert forall|i: int| 0 <= i < p.len() implies digit_value(#[trigger] p[i]) < radix by {
                    assert(p[i] == d[i]);
                }
            }
            lemma_digits_value_grows(p, radix, p.len() as int);
            assert(p.take(p.len() as int) =~= p);
            let v = digits_value(p, radix);
            assert(v * radix >= 0) by (nonlinear_arith)
                requires
                    v >= 0,
                    radix >= 1,
            ;
        }
    }
}

/// The digit value of `c`, as `digit_value` gives it.
fn digit_of(c: char) -> (r: u32)
    ensures
        r == digit_value(c),
{
    if '0' <= c && c <= '9' {
        (c as u32) - ('0' as u32)
    } else if 'a' <= c && c <= 'z' {
        (c as u32) - ('a' as u32) + 10
    } else if 'A' <= c && c <= 'Z' {
        (c as u32) - ('A' as u32) + 10
    } else {
        36
    }
}

/// Reads the characters `s[from..to]` as `parse_unsigned` does, for a radix
/// of at most 36 and a largest value that keeps the arithmetic in `u32`.
pub fn parse_unsigned_in(s: &Vec<char>, from: usize, to: usize, radix: u32, max: u32) -> (r:
    Option<u32>)
    requires
        from <= to <= s@.len(),
        2 <= radix <= 36,
        max <= 0xffff,
    ensures
        r matches Some(v) ==> parse_unsigned(s@.subrange(from as int, to as int), radix as int, max as int) == Some(v as int),
        r is None ==> parse_unsigned(s@.subrange(from as int, to as int), radix as int, max as int) is None,
{
    let ghost tok = s@.subrange(from as int, to as int);
    let mut start: usize = from;
    if from < to && s[from] == '+' {
        start = from + 1;
    }
    let ghost d = s@.subrange(start as int, to as int);
    assert(d =~= (if tok.len() > 0 && tok[0] == '+' { tok.drop_first() } else { tok }));
    if start == to {
        return None;
    }
    let mut acc: u32 = 0;
    let mut k: usize = start;
    while k < to
        invariant
            start <= k <= to <= s@.len(),
            d == s@.subrange(start as int, to as int),
            2 <= radix <= 36,
            max <= 0xffff,
            d.len() > 0,
            parse_unsigned(s@.subrange(from as int, to as int), radix as int, max as int) == (if all_digits(d, radix as int) && digits_value(d, radix as int) <= max {
                Some(digits_value(d, radix as int))
            } else {
                None
            }),
            all_digits(d.take(k - start), radix as int),
            acc == digits_value(d.take(k - start), radix as int),
            acc <= max,
        decreases to - k,
    {
        let ghost p = d.take(k - start);
        let ghost q = d.take(k + 1 - start);
        assert(q.drop_last() =~= p);
        assert(q.last() == s@[k as int]);
        let dv = digit_of(s[k]);
        if dv >= radix {
            assert(d[k - start] == s@[k as int]);
            assert(digit_value(d[k - start]) >= radix);
            assert(!all_digits(d, radix as int));
            return None;
        }
        assert(acc * radix + dv <= 0xffff * 36 + 36) by (nonlinear_arith)
            requires
                acc <= 0xffff,
                radix <= 36,
                dv < radix,
        ;
        acc = acc * radix + dv;
        assert(all_digits(q, radix as int)) by {
            assert forall|i: int| 0 <= i < q.len() implies digit_value(#[trigger] q[i]) < radix by {
                if i < p.len() {
                    assert(q[i] == p[i]);
                }
            }
        }
        if acc > max {
            proof {
                if all_digits(d, radix as int) {
                    lemma_digits_value_grows(d, radix as int, k + 1 - start);
                }
            }
            return None;
        }
        k = k + 1;
    }
    assert(d.take(to - start) =~= d);
    Some(acc)
}

/// Decodes the payload text `s[from..to]` as `decode_payload` does.
pub fn decode_payload_in(s: &Vec<char>, from: usize, to: usize) -> (r: Option<Vec<u8>>)
    requires
        from <= to <= s@.len(),
    ensures
        r matches Some(v) ==> decode_payload(s@.subrange(from as int, to as int)) == Some(v@),
        r is None ==> decode_payload(s@.subrange(from as int, to as int)) is None,
{
    let ghost text = s@.subrange(from as int, to as int);
    let ghost mut done: Seq<Seq<char>> = Seq::empty();
    let mut out: Vec<u8> = Vec::new();
    let mut ok: bool = true;
    let mut tok_start: usize = from;
    let mut i: usize = from;
    assert(text.take(0) =~= Seq::<char>::empty());
    assert(s@.subrange(from as int, from as int) =~= Seq::<char>::empty());
    assert(split_colons(text.take(0)) =~= done.push(Seq::<char>::empty()));
    while i < to
        invariant
            from <= tok_start <= i <= to <= s@.len(),
            text == s@.subrange(from as int, to as int),
            split_colons(text.take(i - from)) == done.push(s@.subrange(tok_start as int, i as int)),
            ok <==> forall|j: int| 0 <= j < done.len() ==> (#[trigger] parse_hex_byte(done[j])) is Some,
            ok ==> out@ == done.map_values(|t: Seq<char>| parse_hex_byte(t)->Some_0),
        decreases to - i,
    {
        let ghost prev = text.take(i - from);
        let ghost next = text.take(i + 1 - from);
        assert(next.drop_last() =~= prev);
        assert(next.last() == s@[i as int]);
        let ghost tok = s@.subrange(tok_start as int, i as int);
        if s[i] == ':' {
            let b = parse_unsigned_in(s, tok_start, i, 16, 0xff);
            let ghost old_done = done;
            proof {
                done = done.push(tok);
            }
            match b {
                Some(v) => {
                    if ok {
                        out.push(v as u8);
                        assert(out@ =~= done.map_values(|t: Seq<char>| parse_hex_byte(t)->Some_0));
                    }
                },
                None => {
                    assert(parse_hex_byte(done[done.len() - 1]) is None);
                    ok = false;
                },
            }
            assert(ok <==> forall|j: int| 0 <= j < done.len() ==> (#[trigger] parse_hex_byte(done[j])) is Some) by {
                assert forall|j: int| 0 <= j < old_done.len() implies done[j] == old_done[j] by {}
            }
            tok_start = i + 1;
            assert(s@.subrange(tok_start as int, i + 1) =~= Seq::<char>::empty());
            assert(split_colons(next) =~= done.push(s@.subrange(tok_start as int, i + 1)));
        } else {
            assert(s@.subrange(tok_start as int, i + 1) =~= tok.push(s@[i as int]));
            proof {
                lemma_split_colons_nonempty(prev);
            }
            assert(split_colons(next) =~= done.push(s@.subrange(tok_start as int, i + 1)));
        }
        i = i + 1;
    }
    assert(text.take(to - from) =~= text);
    let b = parse_unsigned_in(s, tok_start, to, 16, 0xff);
    let ghost last = s@.subrange(tok_start as int, to as int);
    let ghost toks = done.push(last);
    assert(toks == split_colons(text));
    match b {
        Some(v) => {
            if ok {
                out.push(v as u8);
                assert(out@ =~= toks.map_values(|t: Seq<char>| parse_hex_byte(t)->Some_0));
                assert forall|j: int| 0 <= j < toks.len() implies (#[trigger] parse_hex_byte(toks[j])) is Some by {
                    if j < done.len() {
                        assert(toks[j] == done[j]);
                    }
                }
                Some(out)
            } else {
                proof {
                    let j = choose|j: int|
                        0 <= j < done.len() && (#[trigger] parse_hex_byte(done[j])) is None;
                    assert(toks[j] == done[j]);
                }
                None
            }
        },
        None => {
            assert(parse_hex_byte(toks[toks.len() - 1]) is None);
            None
        },
    }
}

} // verus!
